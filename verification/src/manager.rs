use vstd::prelude::*;
use crate::chunk::{Chunk, ResidencyOffset};
use crate::datastore::{ChunkDatastore, DeviceCommand, GridLocation, MAX_CHUNKS_PER_GROUP};
use crate::neighbors::{
    contains_pos, lemma_count_positions_only, lemma_count_push, lemma_count_remove,
    lemma_count_positive, lemma_count_upto_bound, lemma_probe_hit_is_neighbor,
    lemma_probe_hit_step, lemma_probe_hit_unique, lemma_shifted_unique, neighbor_count,
    neighbor_count_upto, occupied_at_delta, positions_distinct, probe_hit_before,
};
use crate::offset_tracker::SharedBufferOffsetTracker;
use crate::pos::{
    ChunkPos, delta_rank, lemma_delta_complete, lemma_delta_valid, neighbor_delta,
    neighbor_delta_at, shifted_by, valid_delta,
};

verus! {

/// The index of the chunk at position `p` in `s`. Well-defined whenever the
/// positions in `s` are distinct and `p` is present.
pub open spec fn idx_of(s: Seq<Chunk>, p: ChunkPos) -> int {
    choose|i: int| 0 <= i < s.len() && s[i].pos == p
}

/// A pending-atlas queue after asking for a refresh of `p`: positions are
/// queued at most once.
pub open spec fn queued(q: Seq<ChunkPos>, p: ChunkPos) -> Seq<ChunkPos> {
    if q.contains(p) {
        q
    } else {
        q.push(p)
    }
}

/// How many of the first `i` chunks have no residency binding yet. At a
/// finalization, the `r`-th unbound chunk (in registration order) receives the
/// `r`-th fresh logical index and physical offset.
pub open spec fn unbound_before(s: Seq<Chunk>, i: int) -> int
    decreases i,
{
    if i <= 0 {
        0
    } else {
        unbound_before(s, i - 1) + (if s[i - 1].is_bound() {
            0int
        } else {
            1int
        })
    }
}

pub proof fn lemma_unbound_before_le(s: Seq<Chunk>, i: int)
    ensures
        0 <= unbound_before(s, i) <= (if i <= 0 {
            0int
        } else {
            i
        }),
    decreases i,
{
    if i > 0 {
        lemma_unbound_before_le(s, i - 1);
    }
}

/// Prefixes with the same binding pattern have the same unbound count.
pub proof fn lemma_unbound_before_same(s1: Seq<Chunk>, s2: Seq<Chunk>, i: int)
    requires
        forall|j: int| 0 <= j < i ==> (#[trigger] s1[j]).is_bound() == s2[j].is_bound(),
    ensures
        unbound_before(s1, i) == unbound_before(s2, i),
    decreases i,
{
    if i > 0 {
        lemma_unbound_before_same(s1, s2, i - 1);
    }
}

/// Removing element `j` removes exactly its contribution to the unbound count.
pub proof fn lemma_unbound_before_remove(s: Seq<Chunk>, j: int, i: int)
    requires
        0 <= j < s.len(),
        j <= i <= s.len() - 1,
    ensures
        unbound_before(s.remove(j), i) == unbound_before(s, i + 1) - (if s[j].is_bound() {
            0int
        } else {
            1int
        }),
    decreases i,
{
    let r = s.remove(j);
    if i == j {
        lemma_unbound_before_same(r, s, j);
    } else {
        lemma_unbound_before_remove(s, j, i - 1);
        assert(r[i - 1] == s[i]);
    }
}

/// The unbound count grows with the prefix.
pub proof fn lemma_unbound_before_mono(s: Seq<Chunk>, i: int, j: int)
    requires
        i <= j,
    ensures
        unbound_before(s, i) <= unbound_before(s, j),
    decreases j - i,
{
    if i < j {
        lemma_unbound_before_mono(s, i, j - 1);
    }
}

/// Every rank below the unbound count is taken by exactly one unbound chunk.
pub proof fn lemma_unbound_rank_witness(s: Seq<Chunk>, r: int, n: int)
    requires
        n <= s.len(),
        0 <= r < unbound_before(s, n),
    ensures
        exists|i: int|
            0 <= i < n && !(#[trigger] s[i]).is_bound() && unbound_before(s, i) == r,
    decreases n,
{
    lemma_unbound_before_le(s, n - 1);
    if r < unbound_before(s, n - 1) {
        lemma_unbound_rank_witness(s, r, n - 1);
    } else {
        assert(!s[n - 1].is_bound() && unbound_before(s, n - 1) == r);
    }
}

/// When every chunk is bound, no chunk waits for a binding.
pub proof fn lemma_unbound_before_all_bound(s: Seq<Chunk>, i: int)
    requires
        forall|j: int| 0 <= j < i ==> (#[trigger] s[j]).is_bound(),
    ensures
        unbound_before(s, i) == 0,
    decreases i,
{
    if i > 0 {
        lemma_unbound_before_all_bound(s, i - 1);
    }
}

/// The chunk's recorded offset lags behind the tracker's canonical one, so a
/// finalization must relocate its payload.
pub open spec fn needs_reloc(c: Chunk, t: Map<u64, u32>) -> bool {
    c.is_bound() && t[c.bound_index()] != c.bound_offset()
}

/// The payload copies a finalization schedules: one per chunk whose canonical
/// offset moved since its binding was recorded, in registration order, each
/// from the stale offset to the canonical one.
pub open spec fn reloc_cmds(s: Seq<Chunk>, t: Map<u64, u32>) -> Seq<DeviceCommand>
    decreases s.len(),
{
    if s.len() == 0 {
        Seq::empty()
    } else {
        let rest = reloc_cmds(s.drop_last(), t);
        if needs_reloc(s.last(), t) {
            rest.push(
                DeviceCommand::CopyChunk {
                    from_offset: s.last().bound_offset(),
                    to_offset: t[s.last().bound_index()],
                },
            )
        } else {
            rest
        }
    }
}

/// The pending-atlas queue after a finalization also queues every relocated
/// chunk's position.
pub open spec fn queue_after_relocs(q: Seq<ChunkPos>, s: Seq<Chunk>, t: Map<u64, u32>) -> Seq<
    ChunkPos,
>
    decreases s.len(),
{
    if s.len() == 0 {
        q
    } else {
        let qr = queue_after_relocs(q, s.drop_last(), t);
        if needs_reloc(s.last(), t) {
            queued(qr, s.last().pos)
        } else {
            qr
        }
    }
}

/// A finalization on records whose offsets are already canonical schedules no
/// relocation and queues nothing.
pub proof fn lemma_reloc_none(s: Seq<Chunk>, t: Map<u64, u32>, q: Seq<ChunkPos>)
    requires
        forall|i: int| 0 <= i < s.len() ==> !needs_reloc(#[trigger] s[i], t),
    ensures
        reloc_cmds(s, t) == Seq::<DeviceCommand>::empty(),
        queue_after_relocs(q, s, t) == q,
    decreases s.len(),
{
    if s.len() > 0 {
        assert forall|i: int| 0 <= i < s.drop_last().len() implies !needs_reloc(
            #[trigger] s.drop_last()[i],
            t,
        ) by {
            assert(s.drop_last()[i] == s[i]);
        }
        lemma_reloc_none(s.drop_last(), t, q);
    }
}

/// The summary value the atlas holds for a position: `offset + 1` when a chunk
/// is resident there, `0` when none is. The `+ 1` reserves zero for "absent";
/// consumers must subtract one to recover the offset of chunk zero correctly.
pub open spec fn atlas_value(s: Seq<Chunk>, p: ChunkPos) -> u32 {
    if contains_pos(s, p) {
        (s[idx_of(s, p)].bound_offset() + 1) as u32
    } else {
        0u32
    }
}

/// The atlas writes a finalization emits: one per queued position, in queue
/// order, each carrying that position's summary value.
pub open spec fn atlas_cmds(q: Seq<ChunkPos>, s: Seq<Chunk>) -> Seq<DeviceCommand> {
    q.map_values(|p: ChunkPos| DeviceCommand::WriteAtlas { pos: p, value: atlas_value(s, p) })
}

/// The chunk registry and frame transaction controller.
///
/// Owns the set of chunk records keyed by position, their neighbor-adjacency
/// counts, the offset tracker that keeps physical offsets dense, and the
/// backing-store bookkeeping. Insertions and removals within a frame mark the
/// transaction dirty; `finalize_changes_and_start_frame` applies the batched
/// changes, after which offsets are stable until the next mutation.
pub struct ChunkManager {
    chunks: Vec<Chunk>,
    shared_buffer_offset_tracker: SharedBufferOffsetTracker,
    atlas_updates: Vec<ChunkPos>,
    datastore: ChunkDatastore,
    modified_this_frame: bool,
    which: u32,
}

impl ChunkManager {
    /// The registered chunks, in registration order.
    pub closed spec fn chunk_seq(self) -> Seq<Chunk> {
        self.chunks@
    }

    /// The offset tracker owned by this registry.
    pub closed spec fn tracker(self) -> SharedBufferOffsetTracker {
        self.shared_buffer_offset_tracker
    }

    /// Positions whose atlas entry must be rewritten at the next finalization.
    pub closed spec fn pending_atlas(self) -> Seq<ChunkPos> {
        self.atlas_updates@
    }

    /// The backing-store bookkeeping owned by this registry.
    pub closed spec fn store(self) -> ChunkDatastore {
        self.datastore
    }

    /// No insert or remove has happened since the last finalization; offsets
    /// are stable and may be read.
    pub closed spec fn is_clean(self) -> bool {
        !self.modified_this_frame
    }

    /// The double-buffer parity selecting the current payload slot.
    pub closed spec fn which_spec(self) -> u32 {
        self.which
    }

    /// Field correctness of every chunk record and consistency between the
    /// records, the offset tracker and the backing-store bookkeeping.
    pub open spec fn wf(self) -> bool {
        &&& positions_distinct(self.chunk_seq())
        &&& self.chunk_seq().len() < u32::MAX as nat
        &&& forall|i: int|
            0 <= i < self.chunk_seq().len() ==> (#[trigger] self.chunk_seq()[i]).neighbors
                == neighbor_count(self.chunk_seq(), self.chunk_seq()[i].pos)
        &&& forall|i: int|
            0 <= i < self.chunk_seq().len() ==> (#[trigger] self.chunk_seq()[i]).pos.in_probe_range()
        &&& self.tracker().wf()
        &&& self.store().wf()
        &&& self.which_spec() < 2
        &&& forall|i: int|
            0 <= i < self.chunk_seq().len() && (#[trigger] self.chunk_seq()[i]).is_bound()
                ==> self.tracker().offsets().contains_key(self.chunk_seq()[i].bound_index())
        &&& forall|i: int, j: int|
            0 <= i < j < self.chunk_seq().len() && (#[trigger] self.chunk_seq()[i]).is_bound() && (
            #[trigger] self.chunk_seq()[j]).is_bound() ==> self.chunk_seq()[i].bound_index()
                != self.chunk_seq()[j].bound_index()
        &&& forall|idx: u64|
            #[trigger] self.tracker().offsets().contains_key(idx) ==> exists|i: int|
                0 <= i < self.chunk_seq().len() && (#[trigger] self.chunk_seq()[i]).is_bound()
                    && self.chunk_seq()[i].bound_index() == idx
        &&& self.tracker().count() == self.chunk_seq().len() - unbound_before(
            self.chunk_seq(),
            self.chunk_seq().len() as int,
        )
        &&& self.is_clean() ==> {
            &&& forall|i: int|
                0 <= i < self.chunk_seq().len() ==> (#[trigger] self.chunk_seq()[i]).is_bound()
            &&& forall|i: int|
                0 <= i < self.chunk_seq().len() ==> (#[trigger] self.chunk_seq()[i]).bound_offset()
                    == self.tracker().offsets()[self.chunk_seq()[i].bound_index()]
            &&& self.pending_atlas().len() == 0
            &&& self.tracker().count() <= self.store().capacity()
        }
    }

    /// A fresh registry with no chunks, a clean transaction, parity zero and a
    /// single backing-storage group of the given capacity.
    pub fn new(chunks_per_group: u32) -> (m: ChunkManager)
        requires
            1 <= chunks_per_group <= MAX_CHUNKS_PER_GROUP,
        ensures
            m.wf(),
            m.chunk_seq().len() == 0,
            m.tracker().count() == 0,
            m.tracker().next_index() == 0,
            m.is_clean(),
            m.which_spec() == 0,
            m.store().chunks_per_group_spec() == chunks_per_group,
            m.store().group_count_spec() == 1,
    {
        ChunkManager {
            chunks: Vec::new(),
            shared_buffer_offset_tracker: SharedBufferOffsetTracker::new(),
            atlas_updates: Vec::new(),
            datastore: ChunkDatastore::new(chunks_per_group),
            modified_this_frame: false,
            which: 0,
        }
    }

    /// The registered chunks, for read-only traversal by downstream stages.
    pub fn chunks(&self) -> (v: &Vec<Chunk>)
        ensures
            v@ == self.chunk_seq(),
    {
        &self.chunks
    }

    /// The number of occupied physical offsets. Only valid on a clean
    /// transaction: while dirty, offsets are not yet stable.
    pub fn num_offsets(&self) -> (n: u32)
        requires
            self.wf(),
            self.is_clean(),
        ensures
            n == self.tracker().count(),
    {
        self.shared_buffer_offset_tracker.len()
    }

    pub fn chunks_per_group(&self) -> (n: u32)
        ensures
            n == self.store().chunks_per_group_spec(),
    {
        self.datastore.chunks_per_group()
    }

    pub fn group_count(&self) -> (n: u32)
        ensures
            n == self.store().group_count_spec(),
    {
        self.datastore.group_count()
    }

    /// Group index and within-group slot of a physical offset.
    pub fn offset_to_group_and_origin_x(&self, offset: u32) -> (r: (u32, u32))
        requires
            self.wf(),
        ensures
            r.0 == offset as int / self.store().chunks_per_group_spec(),
            r.1 == offset as int % self.store().chunks_per_group_spec(),
    {
        (offset / self.datastore.chunks_per_group(), offset % self.datastore.chunks_per_group())
    }

    /// The logical index the next finalization will hand out first. Monotone
    /// over the registry's lifetime.
    pub fn next_logical_index(&self) -> (i: u64)
        ensures
            i == self.tracker().next_index(),
    {
        self.shared_buffer_offset_tracker.peek_next_index()
    }

    /// Number of registered chunks, bound or not.
    pub fn num_chunks(&self) -> (n: usize)
        ensures
            n == self.chunk_seq().len(),
    {
        self.chunks.len()
    }

    /// Where one double-buffer slot of the chunk at a physical offset lives in
    /// the group array; relocation copies resolve their source and target
    /// regions through this.
    pub fn offset_and_which_to_group_and_origin(&self, offset: u32, which: u32) -> (loc:
        GridLocation)
        requires
            self.wf(),
            which < 2,
        ensures
            loc.group == offset as int / self.store().chunks_per_group_spec(),
            loc.origin_x == (offset as int % self.store().chunks_per_group_spec())
                * crate::datastore::CHUNK_EDGE,
            loc.origin_y == 0,
            loc.origin_z == which * crate::datastore::CHUNK_EDGE,
    {
        self.datastore.offset_and_which_to_group_and_origin(offset, which)
    }

    /// The current double-buffer parity.
    pub fn which(&self) -> (w: u32)
        ensures
            w == self.which_spec(),
    {
        self.which
    }

    /// Advances the double-buffer parity by the given number of steps. This is
    /// orthogonal to the frame transaction: it does not touch the registry.
    pub fn advance_which(&mut self, amount: u32)
        requires
            old(self).wf(),
            amount < u32::MAX,
        ensures
            final(self).wf(),
            final(self).which_spec() == (old(self).which_spec() + amount) % 2,
            final(self).chunk_seq() == old(self).chunk_seq(),
            final(self).tracker() == old(self).tracker(),
            final(self).store() == old(self).store(),
            final(self).pending_atlas() == old(self).pending_atlas(),
            final(self).is_clean() == old(self).is_clean(),
    {
        self.which = (self.which + amount) % 2;
    }

    /// The index of the chunk at `pos`, if one is registered.
    fn find_chunk(&self, pos: ChunkPos) -> (r: Option<usize>)
        ensures
            match r {
                Some(i) => i < self.chunk_seq().len() && self.chunk_seq()[i as int].pos == pos,
                None => !contains_pos(self.chunk_seq(), pos),
            },
    {
        let mut i: usize = 0;
        while i < self.chunks.len()
            invariant
                i <= self.chunks@.len(),
                forall|j: int| 0 <= j < i ==> (#[trigger] self.chunks@[j]).pos != pos,
            decreases self.chunks@.len() - i,
        {
            if self.chunks[i].pos == pos {
                return Some(i);
            }
            i = i + 1;
        }
        None
    }

    /// Registers a new chunk and marks the transaction dirty. The chunk's
    /// neighbor count is set to the number of already-registered chunks in its
    /// 26-cell neighborhood, each of which has its own count raised by one.
    /// The residency binding stays absent until the next finalization
    /// assigns a logical index and physical offset (deferred allocation).
    pub fn add_chunk(&mut self, chunk: Chunk)
        requires
            old(self).wf(),
            chunk.residency is None,
            !contains_pos(old(self).chunk_seq(), chunk.pos),
            chunk.pos.in_probe_range(),
            old(self).chunk_seq().len() + 1 < u32::MAX,
        ensures
            final(self).wf(),
            !final(self).is_clean(),
            final(self).chunk_seq().len() == old(self).chunk_seq().len() + 1,
            final(self).chunk_seq().last() == (Chunk {
                pos: chunk.pos,
                neighbors: neighbor_count(old(self).chunk_seq(), chunk.pos) as u32,
                residency: None,
            }),
            forall|i: int|
                0 <= i < old(self).chunk_seq().len() ==> {
                    let c0 = old(self).chunk_seq()[i];
                    (#[trigger] final(self).chunk_seq()[i]) == (Chunk {
                        pos: c0.pos,
                        neighbors: (c0.neighbors + (if c0.pos.is_neighbor_of(chunk.pos) {
                            1u32
                        } else {
                            0u32
                        })) as u32,
                        residency: c0.residency,
                    })
                },
            final(self).tracker() == old(self).tracker(),
            final(self).store() == old(self).store(),
            final(self).which_spec() == old(self).which_spec(),
            final(self).pending_atlas() == queued(old(self).pending_atlas(), chunk.pos),
    {
        let ghost s0 = self.chunks@;
        let pos = chunk.pos;
        self.modified_this_frame = true;
        let mut neighbors: u32 = 0;
        let mut k: usize = 0;
        while k < 26
            invariant
                old(self).wf(),
                chunk.pos.in_probe_range(),
                !contains_pos(s0, pos),
                pos == chunk.pos,
                s0 == old(self).chunk_seq(),
                k <= 26,
                self.chunks@.len() == s0.len(),
                forall|i: int|
                    0 <= i < s0.len() ==> (#[trigger] self.chunks@[i]).pos == s0[i].pos
                        && self.chunks@[i].residency == s0[i].residency,
                forall|i: int|
                    0 <= i < s0.len() ==> (#[trigger] self.chunks@[i]).neighbors == s0[i].neighbors
                        + (if probe_hit_before(s0[i].pos, pos, k as int) {
                        1int
                    } else {
                        0int
                    }),
                neighbors == neighbor_count_upto(s0, pos, k as int),
                neighbors <= k,
                self.shared_buffer_offset_tracker == old(self).tracker(),
                self.atlas_updates@ == old(self).pending_atlas(),
                self.datastore == old(self).store(),
                self.which == old(self).which_spec(),
                self.modified_this_frame,
            decreases 26 - k,
        {
            let (dx, dy, dz) = neighbor_delta_at(k);
            proof {
                lemma_delta_valid(k as int);
            }
            let q = ChunkPos { x: pos.x + dx, y: pos.y + dy, z: pos.z + dz };
            proof {
                assert(shifted_by(q, pos, neighbor_delta(k as int)));
            }
            let found = self.find_chunk(q);
            proof {
                assert forall|i: int| 0 <= i < s0.len() implies #[trigger] probe_hit_before(
                    s0[i].pos,
                    pos,
                    k + 1,
                ) == (probe_hit_before(s0[i].pos, pos, k as int) || s0[i].pos == q) by {
                    lemma_probe_hit_step(s0[i].pos, pos, k as int);
                    if shifted_by(s0[i].pos, pos, neighbor_delta(k as int)) {
                        lemma_shifted_unique(s0[i].pos, q, pos, neighbor_delta(k as int));
                    }
                }
            }
            match found {
                Some(idx) => {
                    proof {
                        assert(s0[idx as int].pos == q);
                        assert(occupied_at_delta(s0, pos, neighbor_delta(k as int))) by {
                            assert(shifted_by(s0[idx as int].pos, pos, neighbor_delta(k as int)));
                        }
                        lemma_probe_hit_unique(q, pos, k as int);
                        // The recorded count is the true neighborhood count, at most 26.
                        lemma_count_upto_bound(s0, s0[idx as int].pos, 26);
                    }
                    let n = self.chunks[idx].neighbors;
                    self.chunks[idx].neighbors = n + 1;
                    neighbors = neighbors + 1;
                    proof {
                        assert forall|i: int| 0 <= i < s0.len() && i != idx implies s0[i].pos
                            != q by {
                            assert(s0[idx as int].pos == q);
                        }
                    }
                }
                None => {
                    proof {
                        assert(!occupied_at_delta(s0, pos, neighbor_delta(k as int))) by {
                            if occupied_at_delta(s0, pos, neighbor_delta(k as int)) {
                                let i = choose|i: int|
                                    0 <= i < s0.len() && shifted_by(
                                        s0[i].pos,
                                        pos,
                                        neighbor_delta(k as int),
                                    );
                                lemma_shifted_unique(s0[i].pos, q, pos, neighbor_delta(k as int));
                                assert(self.chunks@[i].pos == q);
                                assert(contains_pos(self.chunks@, q));
                            }
                        }
                        assert forall|i: int| 0 <= i < s0.len() implies s0[i].pos != q by {
                            if s0[i].pos == q {
                                assert(self.chunks@[i].pos == q);
                                assert(contains_pos(self.chunks@, q));
                            }
                        }
                    }
                },
            }
            k = k + 1;
        }
        self.queue_atlas_update(pos);
        let ghost s1 = self.chunks@;
        self.chunks.push(Chunk { pos, neighbors, residency: None });
        proof {
            let s2 = self.chunks@;
            let newc = Chunk { pos, neighbors, residency: None };
            assert(!contains_pos(s1, pos)) by {
                if contains_pos(s1, pos) {
                    let i = choose|i: int| 0 <= i < s1.len() && s1[i].pos == pos;
                    assert(s0[i].pos == pos);
                }
            }
            assert forall|i: int| 0 <= i < s1.len() implies #[trigger] probe_hit_before(
                s0[i].pos,
                pos,
                26,
            ) == s0[i].pos.is_neighbor_of(pos) by {
                lemma_probe_hit_is_neighbor(s0[i].pos, pos);
            }
            // Neighbor-field updates do not change counts; the push adds one
            // to exactly the neighborhood of the new position.
            assert forall|i: int| 0 <= i < s2.len() implies (#[trigger] s2[i]).neighbors
                == neighbor_count(s2, s2[i].pos) by {
                lemma_count_positions_only(s0, s1, s2[i].pos, 26);
                lemma_count_push(s1, newc, s2[i].pos);
                if i < s1.len() {
                    assert(s0[i].pos.is_neighbor_of(pos) == pos.is_neighbor_of(s0[i].pos));
                } else {
                    assert(!pos.is_neighbor_of(pos));
                    lemma_count_positions_only(s0, s1, pos, 26);
                }
            }
            assert(positions_distinct(s2)) by {
                assert forall|i: int, j: int| 0 <= i < j < s2.len() implies (#[trigger] s2[i].pos)
                    != (#[trigger] s2[j].pos) by {
                    if j < s1.len() {
                        assert(s0[i].pos != s0[j].pos);
                    } else {
                        assert(s2[i].pos == s0[i].pos);
                        assert(!contains_pos(s0, pos));
                    }
                }
            }
            // The pushed chunk is unbound, so the tracker still counts one
            // occupied offset per bound chunk.
            lemma_unbound_before_same(s0, s2, s0.len() as int);
            assert(unbound_before(s2, s2.len() as int) == unbound_before(s0, s0.len() as int) + 1);
            // Tracker coverage keeps its witnesses: bindings did not change.
            assert forall|idx: u64|
                #[trigger] self.tracker().offsets().contains_key(idx) implies exists|i: int|
                0 <= i < s2.len() && (#[trigger] s2[i]).is_bound() && s2[i].bound_index()
                    == idx by {
                let i = choose|i: int|
                    0 <= i < s0.len() && (#[trigger] s0[i]).is_bound() && s0[i].bound_index()
                        == idx;
                assert(0 <= i < s2.len() && s2[i].is_bound() && s2[i].bound_index() == idx);
            }
        }
    }

    /// Removes the chunk at `pos`, marks the transaction dirty and returns the
    /// removed record with its neighbor count zeroed. Every remaining chunk in
    /// the 26-cell neighborhood of `pos` has its count lowered by one, and the
    /// chunk's logical index is released back to the offset tracker, which
    /// moves the owner of the last occupied offset into the freed slot. The
    /// chunk must be bound: removal before the first finalization that binds
    /// it is a caller error.
    pub fn remove_chunk(&mut self, pos: ChunkPos) -> (removed: Chunk)
        requires
            old(self).wf(),
            contains_pos(old(self).chunk_seq(), pos),
            old(self).chunk_seq()[idx_of(old(self).chunk_seq(), pos)].is_bound(),
        ensures
            final(self).wf(),
            !final(self).is_clean(),
            ({
                let s0 = old(self).chunk_seq();
                let j = idx_of(s0, pos);
                let c0 = s0[j];
                let r0 = s0.remove(j);
                &&& 0 <= j < s0.len() && c0.pos == pos
                &&& removed == (Chunk { pos: c0.pos, neighbors: 0u32, residency: c0.residency })
                &&& final(self).chunk_seq().len() == s0.len() - 1
                &&& forall|i: int|
                    0 <= i < r0.len() ==> (#[trigger] final(self).chunk_seq()[i]) == (Chunk {
                        pos: r0[i].pos,
                        neighbors: (r0[i].neighbors - (if r0[i].pos.is_neighbor_of(pos) {
                            1u32
                        } else {
                            0u32
                        })) as u32,
                        residency: r0[i].residency,
                    })
                &&& final(self).tracker().count() == old(self).tracker().count() - 1
                &&& final(self).tracker().next_index() == old(self).tracker().next_index()
                &&& final(self).tracker().offsets().dom() == old(self).tracker().offsets().dom().remove(c0.bound_index())
                &&& forall|i: u64|
                    #[trigger] final(self).tracker().offsets().contains_key(i) ==> final(self).tracker().offsets()[i] == (if old(self).tracker().offsets()[i] == (old(self).tracker().count() - 1) as u32 {
                        old(self).tracker().offsets()[c0.bound_index()]
                    } else {
                        old(self).tracker().offsets()[i]
                    })
            }),
            final(self).store() == old(self).store(),
            final(self).which_spec() == old(self).which_spec(),
            final(self).pending_atlas() == queued(old(self).pending_atlas(), pos),
    {
        let ghost s0 = self.chunks@;
        let ghost j = idx_of(s0, pos);
        self.modified_this_frame = true;
        let idx = match self.find_chunk(pos) {
            Some(i) => i,
            None => vstd::pervasive::unreached(),
        };
        proof {
            // Distinct positions make the found index the unique one.
            assert(s0[j].pos == pos);
            assert(idx as int == j);
        }
        let chunk = self.chunks.remove(idx);
        let index = match &chunk.residency {
            Some(r) => r.index,
            None => vstd::pervasive::unreached(),
        };
        self.shared_buffer_offset_tracker.remove_index(index);
        let ghost t1 = self.shared_buffer_offset_tracker;
        let ghost s1 = self.chunks@;
        proof {
            assert(s1 == s0.remove(j));
            assert(positions_distinct(s1)) by {
                assert forall|a: int, b: int| 0 <= a < b < s1.len() implies (#[trigger] s1[a].pos)
                    != (#[trigger] s1[b].pos) by {
                    let a0 = if a < j {
                        a
                    } else {
                        a + 1
                    };
                    let b0 = if b < j {
                        b
                    } else {
                        b + 1
                    };
                    assert(s0[a0].pos != s0[b0].pos);
                }
            }
            assert(!contains_pos(s1, pos)) by {
                if contains_pos(s1, pos) {
                    let i = choose|i: int| 0 <= i < s1.len() && s1[i].pos == pos;
                    let i0 = if i < j {
                        i
                    } else {
                        i + 1
                    };
                    assert(s0[i0].pos == pos && s0[j].pos == pos);
                }
            }
        }
        let mut k: usize = 0;
        while k < 26
            invariant
                old(self).wf(),
                s0 == old(self).chunk_seq(),
                0 <= j < s0.len(),
                s0[j].pos == pos,
                pos.in_probe_range(),
                s1 == s0.remove(j),
                positions_distinct(s1),
                !contains_pos(s1, pos),
                k <= 26,
                self.chunks@.len() == s1.len(),
                forall|i: int|
                    0 <= i < s1.len() ==> (#[trigger] self.chunks@[i]).pos == s1[i].pos
                        && self.chunks@[i].residency == s1[i].residency,
                forall|i: int|
                    0 <= i < s1.len() ==> (#[trigger] self.chunks@[i]).neighbors == s1[i].neighbors
                        - (if probe_hit_before(s1[i].pos, pos, k as int) {
                        1int
                    } else {
                        0int
                    }),
                self.shared_buffer_offset_tracker == t1,
                self.atlas_updates@ == old(self).pending_atlas(),
                self.datastore == old(self).store(),
                self.which == old(self).which_spec(),
                self.modified_this_frame,
            decreases 26 - k,
        {
            let (dx, dy, dz) = neighbor_delta_at(k);
            proof {
                lemma_delta_valid(k as int);
            }
            let q = ChunkPos { x: pos.x + dx, y: pos.y + dy, z: pos.z + dz };
            proof {
                assert(shifted_by(q, pos, neighbor_delta(k as int)));
            }
            let found = self.find_chunk(q);
            proof {
                assert forall|i: int| 0 <= i < s1.len() implies #[trigger] probe_hit_before(
                    s1[i].pos,
                    pos,
                    k + 1,
                ) == (probe_hit_before(s1[i].pos, pos, k as int) || s1[i].pos == q) by {
                    lemma_probe_hit_step(s1[i].pos, pos, k as int);
                    if shifted_by(s1[i].pos, pos, neighbor_delta(k as int)) {
                        lemma_shifted_unique(s1[i].pos, q, pos, neighbor_delta(k as int));
                    }
                }
            }
            match found {
                Some(fidx) => {
                    proof {
                        assert(s1[fidx as int].pos == q);
                        lemma_probe_hit_unique(q, pos, k as int);
                        // The probed chunk still counts the removed chunk as a
                        // neighbor, so its recorded count is positive.
                        let i0 = if (fidx as int) < j {
                            fidx as int
                        } else {
                            fidx as int + 1
                        };
                        assert(s0[i0].pos == q && s0[i0].neighbors == s1[fidx as int].neighbors);
                        let d = neighbor_delta(k as int);
                        let back = (-d.0, -d.1, -d.2);
                        assert(valid_delta(back));
                        lemma_delta_complete(back);
                        assert(occupied_at_delta(s0, q, neighbor_delta(delta_rank(back)))) by {
                            assert(shifted_by(s0[j].pos, q, back));
                        }
                        lemma_count_positive(s0, q, delta_rank(back));
                        assert(s0[i0].neighbors == neighbor_count(s0, q));
                    }
                    let n = self.chunks[fidx].neighbors;
                    self.chunks[fidx].neighbors = n - 1;
                    proof {
                        assert forall|i: int| 0 <= i < s1.len() && i != fidx implies s1[i].pos
                            != q by {
                            assert(s1[fidx as int].pos == q);
                        }
                    }
                }
                None => {
                    proof {
                        assert forall|i: int| 0 <= i < s1.len() implies s1[i].pos != q by {
                            if s1[i].pos == q {
                                assert(self.chunks@[i].pos == q);
                                assert(contains_pos(self.chunks@, q));
                            }
                        }
                    }
                },
            }
            k = k + 1;
        }
        self.queue_atlas_update(pos);
        proof {
            let s2 = self.chunks@;
            assert forall|i: int| 0 <= i < s1.len() implies #[trigger] probe_hit_before(
                s1[i].pos,
                pos,
                26,
            ) == s1[i].pos.is_neighbor_of(pos) by {
                lemma_probe_hit_is_neighbor(s1[i].pos, pos);
            }
            // Every remaining record now counts its neighborhood in the
            // shrunken sequence.
            assert forall|i: int| 0 <= i < s2.len() implies (#[trigger] s2[i]).neighbors
                == neighbor_count(s2, s2[i].pos) by {
                let p_i = s2[i].pos;
                lemma_count_remove(s0, j, p_i);
                lemma_count_positions_only(s1, s2, p_i, 26);
                let i0 = if i < j {
                    i
                } else {
                    i + 1
                };
                assert(s0[i0].pos == p_i && s0[i0].neighbors == s1[i].neighbors);
                assert(s1[i].pos.is_neighbor_of(pos) == pos.is_neighbor_of(s1[i].pos));
                assert(s0[j].pos.is_neighbor_of(p_i) == p_i.is_neighbor_of(pos));
            }
            // One bound chunk left; the tracker count shrank with it.
            lemma_unbound_before_remove(s0, j, s0.len() - 1);
            lemma_unbound_before_same(s1, s2, s1.len() as int);
            assert(unbound_before(s2, s2.len() as int) == unbound_before(s0, s0.len() as int));
            // The released index belonged to no other chunk, so the remaining
            // bindings still point at live tracker entries.
            let c0 = s0[j];
            assert forall|i: int|
                0 <= i < s2.len() && (#[trigger] s2[i]).is_bound() implies self.tracker().offsets().contains_key(
                s2[i].bound_index(),
            ) by {
                let i0 = if i < j {
                    i
                } else {
                    i + 1
                };
                assert(s0[i0].is_bound() && s0[i0].bound_index() == s2[i].bound_index());
                assert(s0[i0].bound_index() != c0.bound_index());
            }
            assert forall|idx2: u64|
                #[trigger] self.tracker().offsets().contains_key(idx2) implies exists|i: int|
                0 <= i < s2.len() && (#[trigger] s2[i]).is_bound() && s2[i].bound_index()
                    == idx2 by {
                let i0 = choose|i0: int|
                    0 <= i0 < s0.len() && (#[trigger] s0[i0]).is_bound() && s0[i0].bound_index()
                        == idx2;
                assert(idx2 != c0.bound_index());
                assert(i0 != j);
                let i = if i0 < j {
                    i0
                } else {
                    i0 - 1
                };
                assert(0 <= i < s2.len() && s2[i].is_bound() && s2[i].bound_index() == idx2);
            }
        }
        Chunk { pos: chunk.pos, neighbors: 0, residency: chunk.residency }
    }

    /// Where the payload of the chunk at `pos` must be written, in the current
    /// double-buffer parity slot. Only valid on a clean transaction: while the
    /// transaction is dirty, offsets are not yet stable, and reading them
    /// would observe a half-applied frame.
    pub fn upload_chunk_data(&self, pos: ChunkPos) -> (loc: GridLocation)
        requires
            self.wf(),
            self.is_clean(),
            contains_pos(self.chunk_seq(), pos),
        ensures
            ({
                let off = self.chunk_seq()[idx_of(self.chunk_seq(), pos)].bound_offset() as int;
                &&& loc.group == off / self.store().chunks_per_group_spec()
                &&& loc.origin_x == (off % self.store().chunks_per_group_spec())
                    * crate::datastore::CHUNK_EDGE
                &&& loc.origin_y == 0
                &&& loc.origin_z == self.which_spec() * crate::datastore::CHUNK_EDGE
            }),
    {
        let idx = match self.find_chunk(pos) {
            Some(i) => i,
            None => vstd::pervasive::unreached(),
        };
        proof {
            assert(idx as int == idx_of(self.chunk_seq(), pos));
        }
        let offset = self.chunks[idx].offset();
        self.datastore.offset_and_which_to_group_and_origin(offset, self.which)
    }

    /// The positions of all resident chunks, as a dense table indexed by
    /// physical offset: entry `o` is the position of the chunk whose payload
    /// lives at offset `o`. The simulation stage hands this table to its
    /// dispatch so a shader invocation can go from its offset back to the
    /// chunk's place in space. It is total precisely because the occupied
    /// offsets are exactly `0..count`.
    pub fn positions_by_offset(&self) -> (v: Vec<ChunkPos>)
        requires
            self.wf(),
            self.is_clean(),
        ensures
            v@.len() == self.tracker().count(),
            forall|i: int|
                0 <= i < self.chunk_seq().len() ==> v@[(#[trigger] self.chunk_seq()[i]).bound_offset() as int]
                    == self.chunk_seq()[i].pos,
    {
        proof {
            self.lemma_resident_offsets_dense();
        }
        let n = self.num_offsets();
        let mut v: Vec<ChunkPos> = Vec::new();
        let mut i: u32 = 0;
        while i < n
            invariant
                i <= n,
                v@.len() == i,
            decreases n - i,
        {
            v.push(ChunkPos::new(0, 0, 0));
            i = i + 1;
        }
        let mut j: usize = 0;
        while j < self.chunks.len()
            invariant
                self.wf(),
                self.is_clean(),
                n == self.tracker().count(),
                v@.len() == n,
                j <= self.chunk_seq().len(),
                forall|jj: int|
                    0 <= jj < j ==> v@[(#[trigger] self.chunk_seq()[jj]).bound_offset() as int]
                        == self.chunk_seq()[jj].pos,
            decreases self.chunk_seq().len() - j,
        {
            proof {
                self.lemma_resident_offsets_dense();
            }
            let off = self.chunks[j].offset();
            let p = self.chunks[j].pos;
            v[off as usize] = p;
            j = j + 1;
        }
        v
    }

    /// The physical offset recorded for the chunk at `pos`. The binding must
    /// be present: asking before the finalization that assigns it is the
    /// "read before finalize" hazard, a caller error. On a clean transaction
    /// every chunk is bound and the recorded offset is canonical.
    pub fn offset_of(&self, pos: ChunkPos) -> (o: u32)
        requires
            self.wf(),
            contains_pos(self.chunk_seq(), pos),
            self.chunk_seq()[idx_of(self.chunk_seq(), pos)].is_bound(),
        ensures
            o == self.chunk_seq()[idx_of(self.chunk_seq(), pos)].bound_offset(),
    {
        let idx = match self.find_chunk(pos) {
            Some(i) => i,
            None => vstd::pervasive::unreached(),
        };
        proof {
            assert(idx as int == idx_of(self.chunk_seq(), pos));
        }
        self.chunks[idx].offset()
    }

    /// Offset density: on a clean transaction the recorded offsets of the
    /// resident chunks are exactly `0..count`, pairwise distinct — the
    /// load-bearing invariant that lets downstream stages address chunk data
    /// by plain arithmetic.
    pub proof fn lemma_resident_offsets_dense(&self)
        requires
            self.wf(),
            self.is_clean(),
        ensures
            forall|i: int|
                0 <= i < self.chunk_seq().len() ==> (#[trigger] self.chunk_seq()[i]).bound_offset()
                    < self.tracker().count(),
            forall|i: int, j: int|
                0 <= i < j < self.chunk_seq().len() ==> (#[trigger] self.chunk_seq()[i]).bound_offset()
                    != (#[trigger] self.chunk_seq()[j]).bound_offset(),
            forall|o: int|
                0 <= o < self.tracker().count() ==> self.tracker().offsets().contains_key(
                    #[trigger] self.tracker().owner_of(o),
                ) && exists|i: int|
                    0 <= i < self.chunk_seq().len() && (#[trigger] self.chunk_seq()[i]).bound_offset()
                        == o,
    {
        self.shared_buffer_offset_tracker.lemma_offsets_dense();
        let s = self.chunk_seq();
        assert forall|o: int| 0 <= o < self.tracker().count() implies self.tracker().offsets().contains_key(
            #[trigger] self.tracker().owner_of(o),
        ) && exists|i: int| 0 <= i < s.len() && (#[trigger] s[i]).bound_offset() == o by {
            let owner = self.tracker().owner_of(o);
            let i = choose|i: int|
                0 <= i < s.len() && (#[trigger] s[i]).is_bound() && s[i].bound_index() == owner;
            assert(s[i].bound_offset() == o);
        }
    }

    /// Index freshness: every index bound to a chunk is below the tracker's
    /// next index, and a finalization hands out `next_index` upward, so no
    /// removal and reinsertion can ever see a logical index again.
    pub proof fn lemma_bound_indices_fresh(&self)
        requires
            self.wf(),
        ensures
            forall|i: int|
                0 <= i < self.chunk_seq().len() && (#[trigger] self.chunk_seq()[i]).is_bound()
                    ==> self.chunk_seq()[i].bound_index() < self.tracker().next_index(),
    {
        self.shared_buffer_offset_tracker.lemma_live_indices_below_next();
    }

    /// Finalization step: bring every bound chunk's recorded offset up to the
    /// tracker's canonical offset, scheduling one payload copy and one atlas
    /// refresh per chunk whose offset moved.
    fn refresh_bound_offsets(&mut self, cmds: &mut Vec<DeviceCommand>)
        requires
            old(self).tracker().wf(),
            forall|i: int|
                0 <= i < old(self).chunk_seq().len() && (#[trigger] old(self).chunk_seq()[i]).is_bound()
                    ==> old(self).tracker().offsets().contains_key(
                    old(self).chunk_seq()[i].bound_index(),
                ),
        ensures
            final(self).chunk_seq().len() == old(self).chunk_seq().len(),
            forall|i: int|
                0 <= i < old(self).chunk_seq().len() ==> (#[trigger] final(self).chunk_seq()[i])
                    == (if old(self).chunk_seq()[i].is_bound() {
                    Chunk {
                        pos: old(self).chunk_seq()[i].pos,
                        neighbors: old(self).chunk_seq()[i].neighbors,
                        residency: Some(
                            ResidencyOffset {
                                index: old(self).chunk_seq()[i].bound_index(),
                                offset: old(self).tracker().offsets()[old(self).chunk_seq()[i].bound_index()],
                            },
                        ),
                    }
                } else {
                    old(self).chunk_seq()[i]
                }),
            final(cmds)@ == old(cmds)@ + reloc_cmds(
                old(self).chunk_seq(),
                old(self).tracker().offsets(),
            ),
            final(self).pending_atlas() == queue_after_relocs(
                old(self).pending_atlas(),
                old(self).chunk_seq(),
                old(self).tracker().offsets(),
            ),
            final(self).tracker() == old(self).tracker(),
            final(self).store() == old(self).store(),
            final(self).which_spec() == old(self).which_spec(),
            final(self).is_clean() == old(self).is_clean(),
    {
        let ghost s0 = self.chunks@;
        let ghost t = self.shared_buffer_offset_tracker.offsets();
        let ghost cmds0 = cmds@;
        let ghost q0 = self.atlas_updates@;
        let mut i: usize = 0;
        while i < self.chunks.len()
            invariant
                old(self).tracker().wf(),
                s0 == old(self).chunk_seq(),
                t == old(self).tracker().offsets(),
                forall|ii: int|
                    0 <= ii < s0.len() && (#[trigger] s0[ii]).is_bound() ==> t.contains_key(
                        s0[ii].bound_index(),
                    ),
                i <= s0.len(),
                self.chunks@.len() == s0.len(),
                forall|ii: int|
                    0 <= ii < i ==> (#[trigger] self.chunks@[ii]) == (if s0[ii].is_bound() {
                        Chunk {
                            pos: s0[ii].pos,
                            neighbors: s0[ii].neighbors,
                            residency: Some(
                                ResidencyOffset {
                                    index: s0[ii].bound_index(),
                                    offset: t[s0[ii].bound_index()],
                                },
                            ),
                        }
                    } else {
                        s0[ii]
                    }),
                forall|ii: int| i <= ii < s0.len() ==> (#[trigger] self.chunks@[ii]) == s0[ii],
                cmds@ == cmds0 + reloc_cmds(s0.take(i as int), t),
                self.atlas_updates@ == queue_after_relocs(q0, s0.take(i as int), t),
                self.shared_buffer_offset_tracker == old(self).tracker(),
                self.datastore == old(self).store(),
                self.which == old(self).which_spec(),
                self.modified_this_frame == !old(self).is_clean(),
            decreases s0.len() - i,
        {
            proof {
                assert(s0.take(i + 1).drop_last() =~= s0.take(i as int));
                assert(s0.take(i + 1).last() == s0[i as int]);
            }
            let res = self.chunks[i].residency;
            match res {
                Some(r) => {
                    let cur = self.shared_buffer_offset_tracker.get_offset(r.index);
                    if cur != r.offset {
                        cmds.push(
                            DeviceCommand::CopyChunk { from_offset: r.offset, to_offset: cur },
                        );
                        let p = self.chunks[i].pos;
                        self.chunks[i].residency = Some(ResidencyOffset::new(r.index, cur));
                        self.queue_atlas_update(p);
                        proof {
                            assert(cmds@ =~= cmds0 + reloc_cmds(s0.take(i + 1), t));
                        }
                    } else {
                        proof {
                            assert(cmds@ =~= cmds0 + reloc_cmds(s0.take(i + 1), t));
                        }
                    }
                },
                None => {
                    proof {
                        assert(cmds@ =~= cmds0 + reloc_cmds(s0.take(i + 1), t));
                    }
                },
            }
            i = i + 1;
        }
        proof {
            assert(s0.take(s0.len() as int) =~= s0);
        }
    }

    /// Finalization step: bind every chunk that has no residency yet. The
    /// `r`-th unbound chunk, in registration order, receives logical index
    /// `next_index + r` and physical offset `count + r`.
    fn bind_fresh_chunks(&mut self)
        requires
            old(self).tracker().wf(),
            old(self).chunk_seq().len() < u32::MAX,
            old(self).tracker().next_index() + old(self).chunk_seq().len() <= u64::MAX,
            old(self).tracker().count() == old(self).chunk_seq().len() - unbound_before(
                old(self).chunk_seq(),
                old(self).chunk_seq().len() as int,
            ),
        ensures
            final(self).chunk_seq().len() == old(self).chunk_seq().len(),
            forall|i: int|
                0 <= i < old(self).chunk_seq().len() ==> (#[trigger] final(self).chunk_seq()[i])
                    == (if old(self).chunk_seq()[i].is_bound() {
                    old(self).chunk_seq()[i]
                } else {
                    Chunk {
                        pos: old(self).chunk_seq()[i].pos,
                        neighbors: old(self).chunk_seq()[i].neighbors,
                        residency: Some(
                            ResidencyOffset {
                                index: (old(self).tracker().next_index() + unbound_before(
                                    old(self).chunk_seq(),
                                    i,
                                )) as u64,
                                offset: (old(self).tracker().count() + unbound_before(
                                    old(self).chunk_seq(),
                                    i,
                                )) as u32,
                            },
                        ),
                    }
                }),
            final(self).tracker().wf(),
            final(self).tracker().next_index() == old(self).tracker().next_index()
                + unbound_before(old(self).chunk_seq(), old(self).chunk_seq().len() as int),
            final(self).tracker().count() == old(self).chunk_seq().len(),
            forall|k: u64|
                #[trigger] old(self).tracker().offsets().contains_key(k) ==> final(self).tracker().offsets().contains_key(k) && final(self).tracker().offsets()[k] == old(self).tracker().offsets()[k],
            forall|k: u64|
                old(self).tracker().next_index() <= k < old(self).tracker().next_index()
                    + unbound_before(old(self).chunk_seq(), old(self).chunk_seq().len() as int)
                    ==> #[trigger] final(self).tracker().offsets().contains_key(k) && final(self).tracker().offsets()[k] == (old(self).tracker().count() + (k - old(self).tracker().next_index())) as u32,
            forall|k: u64|
                #[trigger] final(self).tracker().offsets().contains_key(k) ==> old(self).tracker().offsets().contains_key(k) || (old(self).tracker().next_index() <= k < old(self).tracker().next_index() + unbound_before(
                    old(self).chunk_seq(),
                    old(self).chunk_seq().len() as int,
                )),
            final(self).pending_atlas() == old(self).pending_atlas(),
            final(self).store() == old(self).store(),
            final(self).which_spec() == old(self).which_spec(),
            final(self).is_clean() == old(self).is_clean(),
    {
        let ghost s0 = self.chunks@;
        let ghost t0 = self.shared_buffer_offset_tracker;
        let ghost m0 = t0.next_index();
        let ghost n0 = t0.count();
        let mut i: usize = 0;
        while i < self.chunks.len()
            invariant
                t0.wf(),
                s0.len() < u32::MAX,
                m0 == t0.next_index(),
                n0 == t0.count(),
                m0 + s0.len() <= u64::MAX,
                n0 == s0.len() - unbound_before(s0, s0.len() as int),
                s0 == old(self).chunk_seq(),
                t0 == old(self).tracker(),
                i <= s0.len(),
                self.chunks@.len() == s0.len(),
                forall|ii: int|
                    0 <= ii < i ==> (#[trigger] self.chunks@[ii]) == (if s0[ii].is_bound() {
                        s0[ii]
                    } else {
                        Chunk {
                            pos: s0[ii].pos,
                            neighbors: s0[ii].neighbors,
                            residency: Some(
                                ResidencyOffset {
                                    index: (m0 + unbound_before(s0, ii)) as u64,
                                    offset: (n0 + unbound_before(s0, ii)) as u32,
                                },
                            ),
                        }
                    }),
                forall|ii: int| i <= ii < s0.len() ==> (#[trigger] self.chunks@[ii]) == s0[ii],
                self.shared_buffer_offset_tracker.wf(),
                self.shared_buffer_offset_tracker.next_index() == m0 + unbound_before(
                    s0,
                    i as int,
                ),
                self.shared_buffer_offset_tracker.count() == n0 + unbound_before(s0, i as int),
                forall|k: u64|
                    #[trigger] t0.offsets().contains_key(k)
                        ==> self.shared_buffer_offset_tracker.offsets().contains_key(k)
                        && self.shared_buffer_offset_tracker.offsets()[k] == t0.offsets()[k],
                forall|k: u64|
                    m0 <= k < m0 + unbound_before(s0, i as int)
                        ==> #[trigger] self.shared_buffer_offset_tracker.offsets().contains_key(k)
                        && self.shared_buffer_offset_tracker.offsets()[k] == (n0 + (k
                        - m0)) as u32,
                forall|k: u64|
                    #[trigger] self.shared_buffer_offset_tracker.offsets().contains_key(k)
                        ==> t0.offsets().contains_key(k) || (m0 <= k < m0 + unbound_before(
                        s0,
                        i as int,
                    )),
                self.atlas_updates@ == old(self).pending_atlas(),
                self.datastore == old(self).store(),
                self.which == old(self).which_spec(),
                self.modified_this_frame == !old(self).is_clean(),
            decreases s0.len() - i,
        {
            proof {
                lemma_unbound_before_le(s0, i as int);
                lemma_unbound_before_mono(s0, i + 1, s0.len() as int);
                lemma_unbound_before_le(s0, s0.len() as int);
            }
            let res = self.chunks[i].residency;
            if res.is_none() {
                let index = self.shared_buffer_offset_tracker.add_and_get_index();
                let offset = self.shared_buffer_offset_tracker.get_offset(index);
                self.chunks[i].residency = Some(ResidencyOffset::new(index, offset));
            }
            i = i + 1;
        }
    }

    /// Applies all insertions and removals batched since the last
    /// finalization and returns, in execution order, the commands the
    /// backing-store device must run: first the payload relocations for chunks
    /// whose dense offset moved (which must execute before any new payload
    /// upload), then the creation of any new storage groups, then the atlas
    /// refreshes. Afterwards the transaction is clean: every chunk is bound to
    /// a canonical offset, the occupied offsets are exactly `0..count`, and
    /// the backing-store capacity covers them. A finalization of a clean
    /// transaction changes nothing and returns no commands.
    #[verifier::rlimit(50)]
    #[verifier::spinoff_prover]
    pub fn finalize_changes_and_start_frame(&mut self) -> (cmds: Vec<DeviceCommand>)
        requires
            old(self).wf(),
            old(self).tracker().next_index() + old(self).chunk_seq().len() <= u64::MAX,
        ensures
            final(self).wf(),
            final(self).is_clean(),
            old(self).is_clean() ==> *final(self) == *old(self) && cmds@ == Seq::<
                DeviceCommand,
            >::empty(),
            final(self).chunk_seq().len() == old(self).chunk_seq().len(),
            forall|i: int|
                0 <= i < old(self).chunk_seq().len() ==> {
                    let c0 = old(self).chunk_seq()[i];
                    let c1 = #[trigger] final(self).chunk_seq()[i];
                    &&& c1.pos == c0.pos
                    &&& c1.neighbors == c0.neighbors
                    &&& c1.is_bound()
                    &&& c1.residency == (if c0.is_bound() {
                        Some(
                            ResidencyOffset {
                                index: c0.bound_index(),
                                offset: old(self).tracker().offsets()[c0.bound_index()],
                            },
                        )
                    } else {
                        Some(
                            ResidencyOffset {
                                index: (old(self).tracker().next_index() + unbound_before(
                                    old(self).chunk_seq(),
                                    i,
                                )) as u64,
                                offset: (old(self).tracker().count() + unbound_before(
                                    old(self).chunk_seq(),
                                    i,
                                )) as u32,
                            },
                        )
                    })
                },
            final(self).tracker().count() == old(self).chunk_seq().len(),
            final(self).tracker().next_index() == old(self).tracker().next_index()
                + unbound_before(old(self).chunk_seq(), old(self).chunk_seq().len() as int),
            final(self).store().chunks_per_group_spec() == old(self).store().chunks_per_group_spec(),
            final(self).store().group_count_spec() == vstd::math::max(
                old(self).store().group_count_spec(),
                crate::datastore::groups_needed(
                    old(self).chunk_seq().len() as int,
                    old(self).store().chunks_per_group_spec(),
                ),
            ),
            final(self).store().capacity() >= old(self).store().capacity(),
            final(self).store().capacity() >= final(self).tracker().count(),
            final(self).which_spec() == old(self).which_spec(),
            final(self).pending_atlas() == Seq::<ChunkPos>::empty(),
            cmds@ == reloc_cmds(old(self).chunk_seq(), old(self).tracker().offsets()) + Seq::new(
                (final(self).store().group_count_spec() - old(self).store().group_count_spec()) as nat,
                |x: int| DeviceCommand::CreateGroup,
            ) + atlas_cmds(
                queue_after_relocs(
                    old(self).pending_atlas(),
                    old(self).chunk_seq(),
                    old(self).tracker().offsets(),
                ),
                final(self).chunk_seq(),
            ),
    {
        let ghost s0 = old(self).chunk_seq();
        let ghost t0 = old(self).tracker();
        let ghost q0 = old(self).pending_atlas();
        if !self.modified_this_frame {
            let cmds: Vec<DeviceCommand> = Vec::new();
            proof {
                // A clean transaction has every offset canonical, every chunk
                // bound, nothing queued and enough capacity, so every command
                // phase is empty and the growth formula collapses.
                assert forall|i: int| 0 <= i < s0.len() implies !needs_reloc(
                    #[trigger] s0[i],
                    t0.offsets(),
                ) by {}
                lemma_reloc_none(s0, t0.offsets(), q0);
                lemma_unbound_before_all_bound(s0, s0.len() as int);
                assert(atlas_cmds(q0, s0) =~= Seq::<DeviceCommand>::empty());
                let cpg = self.store().chunks_per_group_spec();
                let gc = self.store().group_count_spec();
                if s0.len() > 0 {
                    vstd::arithmetic::div_mod::lemma_multiply_divide_lt(
                        s0.len() as int - 1,
                        cpg,
                        gc,
                    );
                }
                assert(crate::datastore::groups_needed(s0.len() as int, cpg) <= gc);
                assert(cmds@ =~= reloc_cmds(s0, t0.offsets()) + Seq::new(
                    0nat,
                    |x: int| DeviceCommand::CreateGroup,
                ) + atlas_cmds(q0, s0));
            }
            return cmds;
        }
        let mut cmds: Vec<DeviceCommand> = Vec::new();
        self.refresh_bound_offsets(&mut cmds);
        let ghost sa = self.chunk_seq();
        proof {
            assert forall|i: int| 0 <= i <= s0.len() implies unbound_before(sa, i)
                == unbound_before(s0, i) by {
                lemma_unbound_before_same(sa, s0, i);
            }
        }
        self.bind_fresh_chunks();
        let ghost sb = self.chunk_seq();
        let total = self.shared_buffer_offset_tracker.len();
        let added = self.datastore.ensure_size(total);
        let ghost c1 = cmds@;
        let mut a: u32 = 0;
        while a < added
            invariant
                a <= added,
                cmds@ == c1 + Seq::new(a as nat, |x: int| DeviceCommand::CreateGroup),
            decreases added - a,
        {
            cmds.push(DeviceCommand::CreateGroup);
            proof {
                assert(cmds@ =~= c1 + Seq::new((a + 1) as nat, |x: int| DeviceCommand::CreateGroup));
            }
            a = a + 1;
        }
        proof {
            // The freshly bound chunks carry the fresh tracker entries; the
            // previously bound ones kept theirs, so every binding is live and
            // canonical.
            t0.lemma_live_indices_below_next();
            assert forall|i: int|
                0 <= i < sb.len() && (#[trigger] sb[i]).is_bound() implies self.tracker().offsets().contains_key(
                sb[i].bound_index(),
            ) && sb[i].bound_offset() == self.tracker().offsets()[sb[i].bound_index()] by {
                assert(sa[i].is_bound() == s0[i].is_bound());
                if s0[i].is_bound() {
                    assert(sb[i] == sa[i]);
                    assert(sb[i].bound_index() == s0[i].bound_index());
                    assert(t0.offsets().contains_key(s0[i].bound_index()));
                    assert(sb[i].bound_offset() == t0.offsets()[s0[i].bound_index()]);
                } else {
                    lemma_unbound_before_le(s0, i);
                    assert(unbound_before(s0, i) < unbound_before(s0, s0.len() as int)) by {
                        lemma_unbound_before_mono(s0, i + 1, s0.len() as int);
                    }
                    lemma_unbound_before_le(s0, s0.len() as int);
                }
            }
            assert(positions_distinct(sb)) by {
                assert forall|i: int, j: int| 0 <= i < j < sb.len() implies (#[trigger] sb[i].pos)
                    != (#[trigger] sb[j].pos) by {
                    assert(sb[i].pos == s0[i].pos && sb[j].pos == s0[j].pos);
                }
            }
        }
        self.emit_atlas_updates(&mut cmds);
        self.modified_this_frame = false;
        proof {
            let sf = self.chunk_seq();
            let tf = self.tracker();
            let m0 = t0.next_index();
            let u = unbound_before(s0, s0.len() as int);
            lemma_unbound_before_le(s0, s0.len() as int);
            // Positions and neighbor counts survived every phase untouched.
            assert forall|i: int| 0 <= i < sf.len() implies (#[trigger] sf[i]).neighbors
                == neighbor_count(sf, sf[i].pos) && sf[i].pos.in_probe_range() by {
                assert(sf[i].pos == s0[i].pos && sf[i].neighbors == s0[i].neighbors);
                lemma_count_positions_only(s0, sf, sf[i].pos, 26);
            }
            assert(positions_distinct(sf)) by {
                assert forall|i: int, j: int| 0 <= i < j < sf.len() implies (#[trigger] sf[i].pos)
                    != (#[trigger] sf[j].pos) by {
                    assert(sf[i].pos == s0[i].pos && sf[j].pos == s0[j].pos);
                }
            }
            // Bindings are pairwise distinct: old ones were, fresh ones are
            // consecutive new values, and old indices all lie below the fresh
            // range.
            assert forall|i: int, j: int|
                0 <= i < j < sf.len() && (#[trigger] sf[i]).is_bound() && (
            #[trigger] sf[j]).is_bound() implies sf[i].bound_index() != sf[j].bound_index() by {
                if !s0[i].is_bound() && !s0[j].is_bound() {
                    assert(unbound_before(s0, i + 1) == unbound_before(s0, i) + 1);
                    lemma_unbound_before_mono(s0, i + 1, j);
                    lemma_unbound_before_le(s0, i);
                    lemma_unbound_before_le(s0, j);
                } else if s0[i].is_bound() && !s0[j].is_bound() {
                    lemma_unbound_before_le(s0, j);
                } else if !s0[i].is_bound() && s0[j].is_bound() {
                    lemma_unbound_before_le(s0, i);
                }
            }
            // Every live tracker entry belongs to some chunk: old entries to
            // the chunk that held them, fresh ones to the unbound chunk of the
            // matching rank.
            assert forall|idx: u64| #[trigger] tf.offsets().contains_key(idx) implies exists|i: int|
                0 <= i < sf.len() && (#[trigger] sf[i]).is_bound() && sf[i].bound_index()
                    == idx by {
                if t0.offsets().contains_key(idx) {
                    let i = choose|i: int|
                        0 <= i < s0.len() && (#[trigger] s0[i]).is_bound() && s0[i].bound_index()
                            == idx;
                    assert(sf[i].is_bound() && sf[i].bound_index() == idx);
                } else {
                    let r = idx - m0;
                    lemma_unbound_rank_witness(s0, r as int, s0.len() as int);
                    let i = choose|i: int|
                        0 <= i < s0.len() && !(#[trigger] s0[i]).is_bound() && unbound_before(
                            s0,
                            i,
                        ) == r;
                    lemma_unbound_before_le(s0, i);
                    assert(sf[i].is_bound() && sf[i].bound_index() == idx);
                }
            }
            lemma_unbound_before_all_bound(sf, sf.len() as int);
            // The command list is the three phases laid end to end.
            assert(cmds@ =~= reloc_cmds(s0, t0.offsets()) + Seq::new(
                (self.store().group_count_spec() - old(self).store().group_count_spec()) as nat,
                |x: int| DeviceCommand::CreateGroup,
            ) + atlas_cmds(queue_after_relocs(q0, s0, t0.offsets()), sf));
        }
        cmds
    }

    /// Finalization step: drain the pending-atlas queue, emitting one atlas
    /// write per queued position: `offset + 1` where a chunk is resident,
    /// `0` where none is.
    fn emit_atlas_updates(&mut self, cmds: &mut Vec<DeviceCommand>)
        requires
            positions_distinct(old(self).chunk_seq()),
            old(self).tracker().wf(),
            forall|i: int|
                0 <= i < old(self).chunk_seq().len() ==> (#[trigger] old(self).chunk_seq()[i]).is_bound(),
            forall|i: int|
                0 <= i < old(self).chunk_seq().len() && (#[trigger] old(self).chunk_seq()[i]).is_bound() ==> old(self).tracker().offsets().contains_key(
                    old(self).chunk_seq()[i].bound_index(),
                ) && old(self).chunk_seq()[i].bound_offset() == old(self).tracker().offsets()[old(self).chunk_seq()[i].bound_index()],
        ensures
            final(self).pending_atlas() == Seq::<ChunkPos>::empty(),
            final(cmds)@ == old(cmds)@ + atlas_cmds(
                old(self).pending_atlas(),
                old(self).chunk_seq(),
            ),
            final(self).chunk_seq() == old(self).chunk_seq(),
            final(self).tracker() == old(self).tracker(),
            final(self).store() == old(self).store(),
            final(self).which_spec() == old(self).which_spec(),
            final(self).is_clean() == old(self).is_clean(),
    {
        let ghost s = self.chunks@;
        let ghost q0 = self.atlas_updates@;
        let ghost cmds0 = cmds@;
        let mut pending: Vec<ChunkPos> = Vec::new();
        core::mem::swap(&mut pending, &mut self.atlas_updates);
        let mut i: usize = 0;
        while i < pending.len()
            invariant
                positions_distinct(s),
                old(self).tracker().wf(),
                forall|ii: int| 0 <= ii < s.len() ==> (#[trigger] s[ii]).is_bound(),
                forall|ii: int|
                    0 <= ii < s.len() && (#[trigger] s[ii]).is_bound() ==> old(self).tracker().offsets().contains_key(s[ii].bound_index()) && s[ii].bound_offset()
                        == old(self).tracker().offsets()[s[ii].bound_index()],
                s == old(self).chunk_seq(),
                q0 == old(self).pending_atlas(),
                pending@ == q0,
                i <= q0.len(),
                self.chunks@ == s,
                self.atlas_updates@ == Seq::<ChunkPos>::empty(),
                self.shared_buffer_offset_tracker == old(self).tracker(),
                self.datastore == old(self).store(),
                self.which == old(self).which_spec(),
                self.modified_this_frame == !old(self).is_clean(),
                cmds@ == cmds0 + atlas_cmds(q0.take(i as int), s),
            decreases q0.len() - i,
        {
            let p = pending[i];
            let value: u32 = match self.find_chunk(p) {
                Some(ci) => {
                    proof {
                        // The tracker keeps every live offset below its count,
                        // which fits in `u32`, so the summary value cannot wrap.
                        self.shared_buffer_offset_tracker.lemma_offsets_dense();
                        assert((self.chunks@[ci as int].bound_offset() as int)
                            < old(self).tracker().count());
                        // Distinct positions make the found chunk the one the
                        // atlas summary speaks of.
                        assert(ci as int == idx_of(s, p));
                    }
                    self.chunks[ci].offset() + 1
                },
                None => 0,
            };
            cmds.push(DeviceCommand::WriteAtlas { pos: p, value });
            proof {
                assert(cmds@ =~= cmds0 + atlas_cmds(q0.take(i + 1), s)) by {
                    assert(q0.take(i + 1) =~= q0.take(i as int).push(q0[i as int]));
                    assert(atlas_cmds(q0.take(i + 1), s) =~= atlas_cmds(
                        q0.take(i as int),
                        s,
                    ).push(DeviceCommand::WriteAtlas { pos: p, value: atlas_value(s, p) }));
                }
            }
            i = i + 1;
        }
        proof {
            assert(q0.take(q0.len() as int) =~= q0);
        }
    }

    /// Queues `pos` for an atlas refresh at the next finalization; a position
    /// is queued at most once.
    fn queue_atlas_update(&mut self, pos: ChunkPos)
        ensures
            final(self).pending_atlas() == queued(old(self).pending_atlas(), pos),
            final(self).chunk_seq() == old(self).chunk_seq(),
            final(self).tracker() == old(self).tracker(),
            final(self).store() == old(self).store(),
            final(self).is_clean() == old(self).is_clean(),
            final(self).which_spec() == old(self).which_spec(),
    {
        let mut i: usize = 0;
        while i < self.atlas_updates.len()
            invariant
                i <= self.atlas_updates@.len(),
                forall|j: int| 0 <= j < i ==> self.atlas_updates@[j] != pos,
            decreases self.atlas_updates@.len() - i,
        {
            if self.atlas_updates[i] == pos {
                proof {
                    assert(self.atlas_updates@.contains(pos));
                }
                return ;
            }
            i = i + 1;
        }
        proof {
            assert(!self.atlas_updates@.contains(pos));
        }
        self.atlas_updates.push(pos);
    }
}

} // verus!
