use vstd::prelude::*;
use crate::pos::ChunkPos;

verus! {

/// The residency binding of a chunk: a stable logical index handed out by the
/// offset tracker, paired with the physical offset recorded at the last
/// finalization. The recorded offset can lag behind the tracker's canonical
/// offset while a frame transaction is open.
#[derive(Clone, Copy)]
pub struct ResidencyOffset {
    /// Stable logical index, never reused for the life of the tracker.
    pub index: u64,
    /// Physical offset into the shared backing storage, dense in `0..count`.
    pub offset: u32,
}

impl ResidencyOffset {
    pub fn new(index: u64, offset: u32) -> (r: ResidencyOffset)
        ensures
            r.index == index,
            r.offset == offset,
    {
        ResidencyOffset { index, offset }
    }
}

/// One registered chunk: its position, the number of resident chunks in its
/// 26-cell neighborhood, and its residency binding. The binding is absent
/// between insertion and the next finalization.
pub struct Chunk {
    pub pos: ChunkPos,
    pub neighbors: u32,
    pub residency: Option<ResidencyOffset>,
}

impl Chunk {
    /// The chunk has a residency binding.
    pub open spec fn is_bound(self) -> bool {
        self.residency is Some
    }

    /// The logical index of a bound chunk.
    pub open spec fn bound_index(self) -> u64 {
        self.residency->Some_0.index
    }

    /// The recorded physical offset of a bound chunk.
    pub open spec fn bound_offset(self) -> u32 {
        self.residency->Some_0.offset
    }

    pub fn new(pos: ChunkPos) -> (c: Chunk)
        ensures
            c.pos == pos,
            c.neighbors == 0,
            c.residency is None,
    {
        Chunk { pos, residency: None, neighbors: 0 }
    }

    /// The physical offset recorded in the residency binding. Callers must
    /// only ask once the chunk is bound, which the registry guarantees after
    /// a finalization.
    pub fn offset(&self) -> (o: u32)
        requires
            self.residency is Some,
        ensures
            o == self.residency->Some_0.offset,
    {
        match &self.residency {
            Some(r) => r.offset,
            None => vstd::pervasive::unreached(),
        }
    }
}

} // verus!
