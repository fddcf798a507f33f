use vstd::prelude::*;

verus! {

/// Integer 3D position identifying a chunk. Positions are the unique keys of
/// the chunk registry; two chunks never share a position.
#[derive(Clone, Copy, PartialEq, Eq, Structural, Debug)]
pub struct ChunkPos {
    pub x: i32,
    pub y: i32,
    pub z: i32,
}

impl ChunkPos {
    pub fn new(x: i32, y: i32, z: i32) -> (p: ChunkPos)
        ensures
            p == (ChunkPos { x, y, z }),
    {
        ChunkPos { x, y, z }
    }

    /// Neighbor probes compute `coordinate + d` for `d` in `-1..=1`; keeping every
    /// coordinate away from the extreme `i32` values makes those sums representable.
    pub open spec fn in_probe_range(self) -> bool {
        &&& i32::MIN + 1 <= self.x <= i32::MAX - 1
        &&& i32::MIN + 1 <= self.y <= i32::MAX - 1
        &&& i32::MIN + 1 <= self.z <= i32::MAX - 1
    }

    /// `other` lies in the 26-cell neighborhood of `self`: distinct positions whose
    /// coordinates differ by at most one in every axis.
    pub open spec fn is_neighbor_of(self, other: ChunkPos) -> bool {
        &&& self != other
        &&& -1 <= self.x - other.x <= 1
        &&& -1 <= self.y - other.y <= 1
        &&& -1 <= self.z - other.z <= 1
    }
}

/// A displacement of at most one step along every axis, excluding standing still.
pub open spec fn valid_delta(d: (int, int, int)) -> bool {
    &&& -1 <= d.0 <= 1
    &&& -1 <= d.1 <= 1
    &&& -1 <= d.2 <= 1
    &&& d != (0int, 0int, 0int)
}

/// The 26 displacements of the neighborhood, enumerated in a fixed order.
/// Rank `k` selects entry `j` of the 27-cell cube in base-3 digit order,
/// skipping the center cell (`j == 13`).
pub open spec fn neighbor_delta(k: int) -> (int, int, int) {
    let j = if k < 13 {
        k
    } else {
        k + 1
    };
    let r = j % 9;
    (j / 9 - 1, r / 3 - 1, r % 3 - 1)
}

/// The rank at which `neighbor_delta` yields `d`.
pub open spec fn delta_rank(d: (int, int, int)) -> int {
    let j = (d.0 + 1) * 9 + (d.1 + 1) * 3 + (d.2 + 1);
    if j < 13 {
        j
    } else {
        j - 1
    }
}

/// `q` sits at displacement `d` from `p`.
pub open spec fn shifted_by(q: ChunkPos, p: ChunkPos, d: (int, int, int)) -> bool {
    &&& q.x as int == p.x as int + d.0
    &&& q.y as int == p.y as int + d.1
    &&& q.z as int == p.z as int + d.2
}

/// Every enumerated displacement is a valid neighborhood step.
pub proof fn lemma_delta_valid(k: int)
    requires
        0 <= k < 26,
    ensures
        valid_delta(neighbor_delta(k)),
{
    let j = if k < 13 {
        k
    } else {
        k + 1
    };
    let r = j % 9;
    assert(0 <= j < 27 && j != 13);
    assert(j == 9 * (j / 9) + r);
    assert(r == 3 * (r / 3) + r % 3);
    assert(neighbor_delta(k) != (0int, 0int, 0int)) by {
        if j / 9 == 1 && r / 3 == 1 && r % 3 == 1 {
            assert(j == 13);
        }
    }
}

/// Distinct ranks enumerate distinct displacements.
pub proof fn lemma_delta_injective(k1: int, k2: int)
    requires
        0 <= k1 < 26,
        0 <= k2 < 26,
        k1 != k2,
    ensures
        neighbor_delta(k1) != neighbor_delta(k2),
{
    let j1 = if k1 < 13 {
        k1
    } else {
        k1 + 1
    };
    let j2 = if k2 < 13 {
        k2
    } else {
        k2 + 1
    };
    let r1 = j1 % 9;
    let r2 = j2 % 9;
    assert(j1 == 9 * (j1 / 9) + r1);
    assert(r1 == 3 * (r1 / 3) + r1 % 3);
    assert(j2 == 9 * (j2 / 9) + r2);
    assert(r2 == 3 * (r2 / 3) + r2 % 3);
    assert(j1 != j2);
}

/// Every valid displacement is enumerated, at rank `delta_rank`.
pub proof fn lemma_delta_complete(d: (int, int, int))
    requires
        valid_delta(d),
    ensures
        0 <= delta_rank(d) < 26,
        neighbor_delta(delta_rank(d)) == d,
{
    let j = (d.0 + 1) * 9 + (d.1 + 1) * 3 + (d.2 + 1);
    assert(0 <= j < 27);
    assert(j != 13);
    let k = delta_rank(d);
    let j2 = if k < 13 {
        k
    } else {
        k + 1
    };
    assert(j2 == j);
    assert(j / 9 == d.0 + 1 && j % 9 == (d.1 + 1) * 3 + (d.2 + 1)) by {
        assert(j == 9 * (d.0 + 1) + ((d.1 + 1) * 3 + (d.2 + 1)));
    }
    assert((j % 9) / 3 == d.1 + 1 && (j % 9) % 3 == d.2 + 1) by {
        assert(j % 9 == 3 * (d.1 + 1) + (d.2 + 1));
    }
}

/// A position is a neighbor of `p` exactly when it sits at one of the 26
/// enumerated displacements from `p`.
pub proof fn lemma_neighbor_iff_delta(q: ChunkPos, p: ChunkPos)
    ensures
        q.is_neighbor_of(p) <==> exists|k: int|
            0 <= k < 26 && shifted_by(q, p, #[trigger] neighbor_delta(k)),
{
    if q.is_neighbor_of(p) {
        let d = (q.x - p.x, q.y - p.y, q.z - p.z);
        assert(valid_delta(d));
        lemma_delta_complete(d);
        assert(shifted_by(q, p, neighbor_delta(delta_rank(d))));
    }
    if exists|k: int| 0 <= k < 26 && shifted_by(q, p, #[trigger] neighbor_delta(k)) {
        let k = choose|k: int| 0 <= k < 26 && shifted_by(q, p, #[trigger] neighbor_delta(k));
        lemma_delta_valid(k);
    }
}

/// The enumerated displacement at rank `k`, as executable values.
pub fn neighbor_delta_at(k: usize) -> (d: (i32, i32, i32))
    requires
        k < 26,
    ensures
        (d.0 as int, d.1 as int, d.2 as int) == neighbor_delta(k as int),
{
    let j: usize = if k < 13 {
        k
    } else {
        k + 1
    };
    let r: usize = j % 9;
    ((j / 9) as i32 - 1, (r / 3) as i32 - 1, (r % 3) as i32 - 1)
}

} // verus!
