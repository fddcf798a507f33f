use vstd::prelude::*;
use std::collections::HashSet;

verus! {

broadcast use vstd::std_specs::hash::group_hash_axioms;

/// Tracks which keys are currently held down. Keys are identified by the
/// numeric code the windowing layer assigns them.
pub struct KeyTracker {
    keys_pressed: HashSet<u32>,
}

impl KeyTracker {
    /// The set of key codes currently held down.
    pub closed spec fn pressed(self) -> Set<u32> {
        self.keys_pressed@
    }

    pub fn new() -> (t: KeyTracker)
        ensures
            t.pressed() == Set::<u32>::empty(),
    {
        KeyTracker { keys_pressed: HashSet::new() }
    }

    pub fn key_down(&mut self, key: u32)
        ensures
            final(self).pressed() == old(self).pressed().insert(key),
    {
        self.keys_pressed.insert(key);
    }

    pub fn key_up(&mut self, key: u32)
        ensures
            final(self).pressed() == old(self).pressed().remove(key),
    {
        self.keys_pressed.remove(&key);
    }

    pub fn is_key_pressed(&self, key: u32) -> (b: bool)
        ensures
            b == self.pressed().contains(key),
    {
        self.keys_pressed.contains(&key)
    }

    /// Releases every key, as when the window loses focus.
    pub fn reset(&mut self)
        ensures
            final(self).pressed() == Set::<u32>::empty(),
    {
        self.keys_pressed.clear();
    }
}

} // verus!
