use vstd::prelude::*;
use std::collections::HashMap;

verus! {

broadcast use vstd::std_specs::hash::group_hash_axioms;

/// Maps stable logical indices to dense physical offsets.
///
/// Indices come from a monotonic counter and are never reused. Offsets are
/// always exactly `0..count`: releasing the index that owns the last offset
/// shrinks the range, releasing any other index moves the owner of the last
/// offset into the freed slot (swap-to-end compaction), so at most one index
/// changes its offset per release.
pub struct SharedBufferOffsetTracker {
    index_to_offset: HashMap<u64, u32>,
    offset_to_index: Vec<u64>,
    max_index: u64,
}

impl SharedBufferOffsetTracker {
    /// The index-to-offset mapping, as a mathematical map.
    pub closed spec fn offsets(self) -> Map<u64, u32> {
        self.index_to_offset@
    }

    /// How many offsets are occupied; equals the number of live indices.
    pub closed spec fn count(self) -> int {
        self.offset_to_index@.len() as int
    }

    /// The next logical index the tracker will hand out. Every index handed
    /// out so far, live or released, is smaller.
    pub closed spec fn next_index(self) -> u64 {
        self.max_index
    }

    /// Internal consistency: the index map and the offset-owner list are
    /// inverse to each other, which makes the occupied offsets exactly
    /// `0..count` with one owner each.
    pub closed spec fn wf(self) -> bool {
        &&& self.offset_to_index@.len() <= u32::MAX as nat
        &&& forall|o: int|
            0 <= o < self.offset_to_index@.len() ==> {
                &&& self.index_to_offset@.contains_key(#[trigger] self.offset_to_index@[o])
                &&& self.index_to_offset@[self.offset_to_index@[o]] == o as u32
            }
        &&& forall|i: u64|
            #[trigger] self.index_to_offset@.contains_key(i) ==> {
                &&& i < self.max_index
                &&& (self.index_to_offset@[i] as int) < self.offset_to_index@.len()
                &&& self.offset_to_index@[self.index_to_offset@[i] as int] == i
            }
    }

    pub fn new() -> (t: SharedBufferOffsetTracker)
        ensures
            t.wf(),
            t.offsets() == Map::<u64, u32>::empty(),
            t.count() == 0,
            t.next_index() == 0,
    {
        SharedBufferOffsetTracker {
            index_to_offset: HashMap::new(),
            offset_to_index: Vec::new(),
            max_index: 0,
        }
    }

    /// Allocates a fresh logical index and assigns it the next physical
    /// offset, which equals the occupied count before the call.
    pub fn add_and_get_index(&mut self) -> (index: u64)
        requires
            old(self).wf(),
            old(self).next_index() < u64::MAX,
            old(self).count() < u32::MAX,
        ensures
            final(self).wf(),
            index == old(self).next_index(),
            !old(self).offsets().contains_key(index),
            final(self).next_index() == old(self).next_index() + 1,
            final(self).offsets() == old(self).offsets().insert(index, old(self).count() as u32),
            final(self).count() == old(self).count() + 1,
    {
        let index = self.max_index;
        let offset = self.offset_to_index.len() as u32;
        self.max_index = self.max_index + 1;
        self.index_to_offset.insert(index, offset);
        self.offset_to_index.push(index);
        index
    }

    /// Releases a live logical index. The owner of the last occupied offset
    /// (if it is not the released index itself) moves into the freed slot;
    /// every other index keeps its offset, so the occupied offsets stay
    /// exactly `0..count`.
    pub fn remove_index(&mut self, index: u64)
        requires
            old(self).wf(),
            old(self).offsets().contains_key(index),
        ensures
            final(self).wf(),
            final(self).count() == old(self).count() - 1,
            final(self).next_index() == old(self).next_index(),
            final(self).offsets().dom() == old(self).offsets().dom().remove(index),
            forall|i: u64|
                #[trigger] final(self).offsets().contains_key(i) ==> final(self).offsets()[i] == (
                if old(self).offsets()[i] == (old(self).count() - 1) as u32 {
                    old(self).offsets()[index]
                } else {
                    old(self).offsets()[i]
                }),
    {
        let removed_offset = match self.index_to_offset.remove(&index) {
            Some(o) => o,
            None => vstd::pervasive::unreached(),
        };
        if removed_offset as usize == self.offset_to_index.len() - 1 {
            self.offset_to_index.pop();
        } else {
            let moved_index = match self.offset_to_index.pop() {
                Some(i) => i,
                None => vstd::pervasive::unreached(),
            };
            self.offset_to_index[removed_offset as usize] = moved_index;
            self.index_to_offset.insert(moved_index, removed_offset);
        }
        proof {
            assert(self.offsets().dom() =~= old(self).offsets().dom().remove(index));
        }
    }

    /// The current canonical offset of a live index.
    pub fn get_offset(&self, index: u64) -> (offset: u32)
        requires
            self.offsets().contains_key(index),
        ensures
            offset == self.offsets()[index],
    {
        match self.index_to_offset.get(&index) {
            Some(o) => *o,
            None => vstd::pervasive::unreached(),
        }
    }

    /// The logical index the next allocation will return. Monotone over the
    /// tracker's lifetime: indices below it are never handed out again.
    pub fn peek_next_index(&self) -> (i: u64)
        ensures
            i == self.next_index(),
    {
        self.max_index
    }

    /// The number of occupied offsets.
    pub fn len(&self) -> (n: u32)
        requires
            self.wf(),
        ensures
            n == self.count(),
    {
        self.offset_to_index.len() as u32
    }

    /// The live index that owns occupied offset `o`.
    pub closed spec fn owner_of(self, o: int) -> u64 {
        self.offset_to_index@[o]
    }

    /// Offset density: the occupied offsets are exactly `0..count`, with one
    /// live index owning each, and no offset is duplicated.
    pub proof fn lemma_offsets_dense(&self)
        requires
            self.wf(),
        ensures
            0 <= self.count() <= u32::MAX,
            forall|i: u64|
                #[trigger] self.offsets().contains_key(i) ==> (self.offsets()[i] as int)
                    < self.count(),
            forall|o: int|
                0 <= o < self.count() ==> self.offsets().contains_key(#[trigger] self.owner_of(o))
                    && self.offsets()[self.owner_of(o)] == o as u32,
            forall|i1: u64, i2: u64|
                #[trigger] self.offsets().contains_key(i1) && #[trigger] self.offsets().contains_key(
                    i2,
                ) && i1 != i2 ==> self.offsets()[i1] != self.offsets()[i2],
    {
    }

    /// Index freshness: every index the tracker has ever handed out is below
    /// `next_index`, and `add_and_get_index` returns `next_index` itself, so a
    /// released index can never come back.
    pub proof fn lemma_live_indices_below_next(&self)
        requires
            self.wf(),
        ensures
            forall|i: u64| #[trigger] self.offsets().contains_key(i) ==> i < self.next_index(),
    {
    }
}

} // verus!
