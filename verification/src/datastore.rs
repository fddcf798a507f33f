use vstd::prelude::*;
use crate::pos::ChunkPos;

verus! {

/// Edge length, in cells, of one chunk payload along every axis.
pub const CHUNK_EDGE: u32 = 64;

/// Largest supported group capacity: keeps every within-group origin
/// (`(offset % chunks_per_group) * CHUNK_EDGE`) representable in `u32`.
pub const MAX_CHUNKS_PER_GROUP: u32 = 0x0400_0000;

/// One command the external backing-store device must execute, in order, to
/// bring physical storage in line with the bookkeeping. The coordinator only
/// decides; an unverified shell performs the device work.
#[derive(Clone, Copy, PartialEq, Eq, Debug)]
pub enum DeviceCommand {
    /// Append one fixed-capacity storage group (and rebuild the bindable view).
    CreateGroup,
    /// Copy the full payload of one chunk, both double-buffer slots, from one
    /// physical offset to another.
    CopyChunk { from_offset: u32, to_offset: u32 },
    /// Write the residency summary for one position into the atlas:
    /// `offset + 1` when the chunk is resident, `0` when it is not.
    WriteAtlas { pos: ChunkPos, value: u32 },
}

/// Texel region of one chunk payload slot inside the group array: the group
/// holding it and the origin of its region within that group.
#[derive(Clone, Copy, PartialEq, Eq, Debug)]
pub struct GridLocation {
    pub group: u32,
    pub origin_x: u32,
    pub origin_y: u32,
    pub origin_z: u32,
}

/// Bookkeeping for the backing storage: a growing list of fixed-capacity
/// groups, each holding `chunks_per_group` chunk payloads side by side.
/// Groups are only ever appended, so capacity never decreases.
pub struct ChunkDatastore {
    chunks_per_group: u32,
    group_count: u32,
}

/// How many groups of capacity `cpg` are needed to hold `size` offsets.
pub open spec fn groups_needed(size: int, cpg: int) -> int
    recommends
        cpg >= 1,
{
    if size == 0 {
        0
    } else {
        (size - 1) / cpg + 1
    }
}

impl ChunkDatastore {
    /// Fixed capacity of one storage group, in chunks.
    pub closed spec fn chunks_per_group_spec(self) -> int {
        self.chunks_per_group as int
    }

    /// Number of storage groups currently allocated on the device.
    pub closed spec fn group_count_spec(self) -> int {
        self.group_count as int
    }

    /// Total chunk capacity across all groups.
    pub open spec fn capacity(self) -> int {
        self.chunks_per_group_spec() * self.group_count_spec()
    }

    pub open spec fn wf(self) -> bool {
        &&& 1 <= self.chunks_per_group_spec() <= MAX_CHUNKS_PER_GROUP
        &&& 1 <= self.group_count_spec()
    }

    /// Starts with a single empty group.
    pub fn new(chunks_per_group: u32) -> (d: ChunkDatastore)
        requires
            1 <= chunks_per_group <= MAX_CHUNKS_PER_GROUP,
        ensures
            d.wf(),
            d.chunks_per_group_spec() == chunks_per_group,
            d.group_count_spec() == 1,
    {
        ChunkDatastore { chunks_per_group, group_count: 1 }
    }

    pub fn chunks_per_group(&self) -> (n: u32)
        ensures
            n == self.chunks_per_group_spec(),
    {
        self.chunks_per_group
    }

    pub fn group_count(&self) -> (n: u32)
        ensures
            n == self.group_count_spec(),
    {
        self.group_count
    }

    /// Grows the group list until `size` offsets fit, and reports how many new
    /// groups the device must create. Groups are never taken away, so the
    /// capacity is monotone over the coordinator's lifetime.
    pub fn ensure_size(&mut self, size: u32) -> (added: u32)
        requires
            old(self).wf(),
        ensures
            final(self).wf(),
            final(self).chunks_per_group_spec() == old(self).chunks_per_group_spec(),
            final(self).group_count_spec() == vstd::math::max(
                old(self).group_count_spec(),
                groups_needed(size as int, old(self).chunks_per_group_spec()),
            ),
            added == final(self).group_count_spec() - old(self).group_count_spec(),
            final(self).capacity() >= old(self).capacity(),
            final(self).capacity() >= size,
    {
        let required_groups: u32 = if size == 0 {
            0
        } else {
            (size - 1) / self.chunks_per_group + 1
        };
        proof {
            if size >= 1 {
                vstd::arithmetic::div_mod::lemma_div_nonincreasing(
                    (size - 1) as int,
                    self.chunks_per_group as int,
                );
                vstd::arithmetic::div_mod::lemma_div_pos_is_pos(
                    (size - 1) as int,
                    self.chunks_per_group as int,
                );
            }
        }
        let added: u32 = if required_groups > self.group_count {
            let added = required_groups - self.group_count;
            self.group_count = required_groups;
            added
        } else {
            0
        };
        proof {
            self.lemma_capacity_covers(size as int, old(self).group_count_spec());
        }
        added
    }

    /// After growing to `groups_needed`, all offsets below `size` fit; and the
    /// capacity of a group list never shrinks when the group count rises.
    proof fn lemma_capacity_covers(self, size: int, old_groups: int)
        requires
            self.wf(),
            0 <= size,
            1 <= old_groups <= self.group_count_spec(),
            self.group_count_spec() >= groups_needed(size, self.chunks_per_group_spec()),
        ensures
            self.capacity() >= size,
            self.capacity() >= self.chunks_per_group_spec() * old_groups,
    {
        let cpg = self.chunks_per_group_spec();
        let g = self.group_count_spec();
        vstd::arithmetic::mul::lemma_mul_inequality(old_groups, g, cpg);
        if size > 0 {
            let need = (size - 1) / cpg + 1;
            vstd::arithmetic::div_mod::lemma_fundamental_div_mod(size - 1, cpg);
            vstd::arithmetic::div_mod::lemma_mod_bound(size - 1, cpg);
            assert(cpg * need == cpg * ((size - 1) / cpg) + cpg) by {
                vstd::arithmetic::mul::lemma_mul_is_distributive_add(cpg, (size - 1) / cpg, 1);
            }
            assert(cpg * need >= size);
            vstd::arithmetic::mul::lemma_mul_inequality(need, g, cpg);
        }
    }

    /// Where one double-buffer slot of the chunk at a physical offset lives:
    /// group `offset / chunks_per_group`, origin
    /// `((offset % chunks_per_group) * CHUNK_EDGE, 0, which * CHUNK_EDGE)`.
    pub fn offset_and_which_to_group_and_origin(&self, offset: u32, which: u32) -> (loc:
        GridLocation)
        requires
            self.wf(),
            which < 2,
        ensures
            loc.group == offset as int / self.chunks_per_group_spec(),
            loc.origin_x == (offset as int % self.chunks_per_group_spec()) * CHUNK_EDGE,
            loc.origin_y == 0,
            loc.origin_z == which * CHUNK_EDGE,
    {
        proof {
            vstd::arithmetic::div_mod::lemma_mod_bound(offset as int, self.chunks_per_group as int);
            vstd::arithmetic::mul::lemma_mul_inequality(
                offset as int % self.chunks_per_group as int,
                (MAX_CHUNKS_PER_GROUP - 1) as int,
                CHUNK_EDGE as int,
            );
        }
        let group = offset / self.chunks_per_group;
        let origin_x = (offset % self.chunks_per_group) * CHUNK_EDGE;
        GridLocation { group, origin_x, origin_y: 0, origin_z: which * CHUNK_EDGE }
    }
}

/// The atlas is a cube of `CHUNK_EDGE` entries per axis, centered on the
/// origin: position `p` maps to texel `p + CHUNK_EDGE / 2` on every axis.
pub open spec fn atlas_range(c: int) -> bool {
    -(CHUNK_EDGE as int) / 2 <= c < CHUNK_EDGE as int / 2
}

/// The atlas texel a position's summary value is written to.
pub fn atlas_texel(pos: ChunkPos) -> (t: (u32, u32, u32))
    requires
        atlas_range(pos.x as int),
        atlas_range(pos.y as int),
        atlas_range(pos.z as int),
    ensures
        t.0 == pos.x + CHUNK_EDGE / 2,
        t.1 == pos.y + CHUNK_EDGE / 2,
        t.2 == pos.z + CHUNK_EDGE / 2,
{
    (
        (pos.x + (CHUNK_EDGE / 2) as i32) as u32,
        (pos.y + (CHUNK_EDGE / 2) as i32) as u32,
        (pos.z + (CHUNK_EDGE / 2) as i32) as u32,
    )
}

} // verus!
