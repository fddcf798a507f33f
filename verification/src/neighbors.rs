use vstd::prelude::*;
use crate::chunk::Chunk;
use crate::pos::{
    ChunkPos, lemma_delta_injective, lemma_delta_valid, lemma_neighbor_iff_delta, neighbor_delta,
    shifted_by,
};

verus! {

/// Some chunk in `s` sits at position `p`.
pub open spec fn contains_pos(s: Seq<Chunk>, p: ChunkPos) -> bool {
    exists|i: int| 0 <= i < s.len() && s[i].pos == p
}

/// Chunk positions in `s` are pairwise distinct: positions are unique keys.
pub open spec fn positions_distinct(s: Seq<Chunk>) -> bool {
    forall|i: int, j: int|
        0 <= i < j < s.len() ==> (#[trigger] s[i].pos) != (#[trigger] s[j].pos)
}

/// Some chunk in `s` sits at displacement `d` from `p`.
pub open spec fn occupied_at_delta(s: Seq<Chunk>, p: ChunkPos, d: (int, int, int)) -> bool {
    exists|i: int| 0 <= i < s.len() && shifted_by(s[i].pos, p, d)
}

/// How many of the first `k` neighborhood displacements from `p` hold a chunk.
pub open spec fn neighbor_count_upto(s: Seq<Chunk>, p: ChunkPos, k: int) -> nat
    decreases k,
{
    if k <= 0 {
        0
    } else {
        neighbor_count_upto(s, p, k - 1) + (if occupied_at_delta(
            s,
            p,
            neighbor_delta(k - 1),
        ) {
            1nat
        } else {
            0nat
        })
    }
}

/// How many chunks of `s` are resident in the 26-cell neighborhood of `p`.
pub open spec fn neighbor_count(s: Seq<Chunk>, p: ChunkPos) -> nat {
    neighbor_count_upto(s, p, 26)
}

/// A neighborhood count never exceeds the number of displacements examined.
pub proof fn lemma_count_upto_bound(s: Seq<Chunk>, p: ChunkPos, k: int)
    ensures
        neighbor_count_upto(s, p, k) <= (if k <= 0 {
            0int
        } else {
            k
        }),
    decreases k,
{
    if k > 0 {
        lemma_count_upto_bound(s, p, k - 1);
    }
}

/// Counts depend only on the positions of the chunks, not on their other
/// fields: sequences with pointwise equal positions count alike.
pub proof fn lemma_count_positions_only(s1: Seq<Chunk>, s2: Seq<Chunk>, p: ChunkPos, k: int)
    requires
        s1.len() == s2.len(),
        forall|i: int| 0 <= i < s1.len() ==> (#[trigger] s1[i].pos) == (#[trigger] s2[i].pos),
    ensures
        neighbor_count_upto(s1, p, k) == neighbor_count_upto(s2, p, k),
    decreases k,
{
    if k > 0 {
        lemma_count_positions_only(s1, s2, p, k - 1);
        let d = neighbor_delta(k - 1);
        assert(occupied_at_delta(s1, p, d) == occupied_at_delta(s2, p, d)) by {
            if occupied_at_delta(s1, p, d) {
                let i = choose|i: int| 0 <= i < s1.len() && shifted_by(s1[i].pos, p, d);
                assert(shifted_by(s2[i].pos, p, d));
            }
            if occupied_at_delta(s2, p, d) {
                let i = choose|i: int| 0 <= i < s2.len() && shifted_by(s2[i].pos, p, d);
                assert(shifted_by(s1[i].pos, p, d));
            }
        }
    }
}

/// Two positions at the same displacement from `p` coincide.
pub proof fn lemma_shifted_unique(q1: ChunkPos, q2: ChunkPos, p: ChunkPos, d: (int, int, int))
    requires
        shifted_by(q1, p, d),
        shifted_by(q2, p, d),
    ensures
        q1 == q2,
{
}

/// Appending a chunk at a fresh position raises the neighborhood count of
/// every position by one exactly when the new position is one of its
/// neighbors.
pub proof fn lemma_count_push(s: Seq<Chunk>, c: Chunk, p: ChunkPos)
    requires
        !contains_pos(s, c.pos),
    ensures
        neighbor_count(s.push(c), p) == neighbor_count(s, p) + (if c.pos.is_neighbor_of(p) {
            1nat
        } else {
            0nat
        }),
{
    lemma_count_push_upto(s, c, p, 26);
    lemma_neighbor_iff_delta(c.pos, p);
}

proof fn lemma_count_push_upto(s: Seq<Chunk>, c: Chunk, p: ChunkPos, k: int)
    requires
        !contains_pos(s, c.pos),
        k <= 26,
    ensures
        neighbor_count_upto(s.push(c), p, k) == neighbor_count_upto(s, p, k) + (if exists|kk: int|
            0 <= kk < k && shifted_by(c.pos, p, #[trigger] neighbor_delta(kk)) {
            1nat
        } else {
            0nat
        }),
    decreases k,
{
    if k > 0 {
        lemma_count_push_upto(s, c, p, k - 1);
        let s2 = s.push(c);
        let d = neighbor_delta(k - 1);
        if shifted_by(c.pos, p, d) {
            // The new chunk occupies this displacement; nothing in `s` does,
            // and no earlier displacement also reaches `c.pos`.
            assert(occupied_at_delta(s2, p, d)) by {
                assert(shifted_by(s2[s.len() as int].pos, p, d));
            }
            assert(!occupied_at_delta(s, p, d)) by {
                if occupied_at_delta(s, p, d) {
                    let i = choose|i: int| 0 <= i < s.len() && shifted_by(s[i].pos, p, d);
                    lemma_shifted_unique(s[i].pos, c.pos, p, d);
                }
            }
            assert forall|kk: int| 0 <= kk < k - 1 implies !shifted_by(
                c.pos,
                p,
                #[trigger] neighbor_delta(kk),
            ) by {
                if shifted_by(c.pos, p, neighbor_delta(kk)) {
                    lemma_delta_injective(kk, k - 1);
                }
            }
            assert(exists|kk: int|
                0 <= kk < k && shifted_by(c.pos, p, #[trigger] neighbor_delta(kk))) by {
                assert(shifted_by(c.pos, p, neighbor_delta(k - 1)));
            }
        } else {
            assert(occupied_at_delta(s2, p, d) == occupied_at_delta(s, p, d)) by {
                if occupied_at_delta(s2, p, d) {
                    let i = choose|i: int| 0 <= i < s2.len() && shifted_by(s2[i].pos, p, d);
                    assert(i < s.len());
                    assert(shifted_by(s[i].pos, p, d));
                }
                if occupied_at_delta(s, p, d) {
                    let i = choose|i: int| 0 <= i < s.len() && shifted_by(s[i].pos, p, d);
                    assert(shifted_by(s2[i].pos, p, d));
                }
            }
            assert((exists|kk: int|
                0 <= kk < k && shifted_by(c.pos, p, #[trigger] neighbor_delta(kk))) == (exists|
                kk: int,
            |
                0 <= kk < k - 1 && shifted_by(c.pos, p, #[trigger] neighbor_delta(kk))));
        }
    }
}

/// Removing the chunk at sequence index `j` lowers the neighborhood count of
/// every position by one exactly when the removed position was one of its
/// neighbors.
pub proof fn lemma_count_remove(s: Seq<Chunk>, j: int, p: ChunkPos)
    requires
        positions_distinct(s),
        0 <= j < s.len(),
    ensures
        neighbor_count(s.remove(j), p) == neighbor_count(s, p) - (if s[j].pos.is_neighbor_of(p) {
            1nat
        } else {
            0nat
        }),
{
    let r = s.remove(j);
    // `s` is `r` with `s[j]` put back at the end: relate the two through a push.
    let moved = r.push(s[j]);
    assert(!contains_pos(r, s[j].pos)) by {
        if contains_pos(r, s[j].pos) {
            let i = choose|i: int| 0 <= i < r.len() && r[i].pos == s[j].pos;
            if i < j {
                assert(s[i].pos == s[j].pos);
            } else {
                assert(s[i + 1].pos == s[j].pos);
            }
        }
    }
    lemma_count_push(r, s[j], p);
    // `moved` and `s` hold the same positions, merely reordered: the count
    // sees the same occupancy.
    assert forall|q: ChunkPos| contains_pos(moved, q) == contains_pos(s, q) by {
        if contains_pos(moved, q) {
            let i = choose|i: int| 0 <= i < moved.len() && moved[i].pos == q;
            if i == r.len() {
                assert(s[j].pos == q);
            } else if i < j {
                assert(s[i].pos == q);
            } else {
                assert(s[i + 1].pos == q);
            }
            assert(contains_pos(s, q));
        }
        if contains_pos(s, q) {
            let i = choose|i: int| 0 <= i < s.len() && s[i].pos == q;
            if i == j {
                assert(moved[r.len() as int].pos == q);
            } else if i < j {
                assert(moved[i].pos == q);
            } else {
                assert(moved[i - 1].pos == q);
            }
            assert(contains_pos(moved, q));
        }
    }
    lemma_count_same_occupancy(moved, s, p, 26);
}

/// Sequences occupying the same set of positions count alike.
proof fn lemma_count_same_occupancy(s1: Seq<Chunk>, s2: Seq<Chunk>, p: ChunkPos, k: int)
    requires
        forall|q: ChunkPos| contains_pos(s1, q) == contains_pos(s2, q),
    ensures
        neighbor_count_upto(s1, p, k) == neighbor_count_upto(s2, p, k),
    decreases k,
{
    if k > 0 {
        lemma_count_same_occupancy(s1, s2, p, k - 1);
        let d = neighbor_delta(k - 1);
        assert(occupied_at_delta(s1, p, d) == occupied_at_delta(s2, p, d)) by {
            if occupied_at_delta(s1, p, d) {
                let i = choose|i: int| 0 <= i < s1.len() && shifted_by(s1[i].pos, p, d);
                assert(contains_pos(s1, s1[i].pos));
                let w = choose|w: int| 0 <= w < s2.len() && s2[w].pos == s1[i].pos;
                assert(shifted_by(s2[w].pos, p, d));
            }
            if occupied_at_delta(s2, p, d) {
                let i = choose|i: int| 0 <= i < s2.len() && shifted_by(s2[i].pos, p, d);
                assert(contains_pos(s2, s2[i].pos));
                let w = choose|w: int| 0 <= w < s1.len() && s1[w].pos == s2[i].pos;
                assert(shifted_by(s1[w].pos, p, d));
            }
        }
    }
}

/// `q` is reached from `p` by one of the first `k` neighborhood displacements.
pub open spec fn probe_hit_before(q: ChunkPos, p: ChunkPos, k: int) -> bool {
    exists|kk: int| 0 <= kk < k && shifted_by(q, p, #[trigger] neighbor_delta(kk))
}

/// Being reached by some of the 26 displacements is being a neighbor.
pub proof fn lemma_probe_hit_is_neighbor(q: ChunkPos, p: ChunkPos)
    ensures
        probe_hit_before(q, p, 26) == q.is_neighbor_of(p),
{
    lemma_neighbor_iff_delta(q, p);
}

/// Extending the probe range by displacement `k` reaches `q` anew only when
/// `q` sits exactly at that displacement.
pub proof fn lemma_probe_hit_step(q: ChunkPos, p: ChunkPos, k: int)
    requires
        0 <= k < 26,
    ensures
        probe_hit_before(q, p, k + 1) == (probe_hit_before(q, p, k) || shifted_by(
            q,
            p,
            neighbor_delta(k),
        )),
{
    if probe_hit_before(q, p, k + 1) {
        let kk = choose|kk: int| 0 <= kk < k + 1 && shifted_by(q, p, #[trigger] neighbor_delta(kk));
        if kk < k {
            assert(probe_hit_before(q, p, k));
        }
    }
    if shifted_by(q, p, neighbor_delta(k)) {
        assert(probe_hit_before(q, p, k + 1));
    }
}

/// At most one displacement reaches `q` from `p`.
pub proof fn lemma_probe_hit_unique(q: ChunkPos, p: ChunkPos, k: int)
    requires
        0 <= k < 26,
        shifted_by(q, p, neighbor_delta(k)),
    ensures
        !probe_hit_before(q, p, k),
{
    if probe_hit_before(q, p, k) {
        let kk = choose|kk: int| 0 <= kk < k && shifted_by(q, p, #[trigger] neighbor_delta(kk));
        assert(neighbor_delta(kk) == (q.x - p.x, q.y - p.y, q.z - p.z));
        assert(neighbor_delta(k) == (q.x - p.x, q.y - p.y, q.z - p.z));
        lemma_delta_injective(kk, k);
    }
}

/// A position whose entire 26-cell neighborhood is resident counts exactly 26
/// neighbors. Together with the registry invariant that every record's count
/// equals its true neighborhood count, this pins the count after any subset of
/// the neighborhood is removed as well.
pub proof fn lemma_full_neighborhood_counts_all(s: Seq<Chunk>, p: ChunkPos)
    requires
        p.in_probe_range(),
        forall|q: ChunkPos| q.is_neighbor_of(p) ==> contains_pos(s, q),
    ensures
        neighbor_count(s, p) == 26,
{
    lemma_full_neighborhood_upto(s, p, 26);
}

proof fn lemma_full_neighborhood_upto(s: Seq<Chunk>, p: ChunkPos, k: int)
    requires
        p.in_probe_range(),
        forall|q: ChunkPos| q.is_neighbor_of(p) ==> contains_pos(s, q),
        k <= 26,
    ensures
        neighbor_count_upto(s, p, k) == (if k <= 0 {
            0int
        } else {
            k
        }),
    decreases k,
{
    if k > 0 {
        lemma_full_neighborhood_upto(s, p, k - 1);
        let d = neighbor_delta(k - 1);
        lemma_delta_valid(k - 1);
        let q = ChunkPos {
            x: (p.x + d.0) as i32,
            y: (p.y + d.1) as i32,
            z: (p.z + d.2) as i32,
        };
        assert(shifted_by(q, p, d));
        assert(q.is_neighbor_of(p));
        assert(contains_pos(s, q));
        let i = choose|i: int| 0 <= i < s.len() && s[i].pos == q;
        assert(occupied_at_delta(s, p, d)) by {
            assert(shifted_by(s[i].pos, p, d));
        }
    }
}

/// A position with an occupied neighborhood displacement has a positive count.
pub proof fn lemma_count_positive(s: Seq<Chunk>, p: ChunkPos, k: int)
    requires
        0 <= k < 26,
        occupied_at_delta(s, p, neighbor_delta(k)),
    ensures
        neighbor_count(s, p) >= 1,
{
    lemma_count_upto_ge_match(s, p, k, 26);
}

proof fn lemma_count_upto_ge_match(s: Seq<Chunk>, p: ChunkPos, k: int, j: int)
    requires
        0 <= k < j,
        occupied_at_delta(s, p, neighbor_delta(k)),
    ensures
        neighbor_count_upto(s, p, j) >= 1,
    decreases j,
{
    if j - 1 > k {
        lemma_count_upto_ge_match(s, p, k, j - 1);
    }
}

} // verus!
