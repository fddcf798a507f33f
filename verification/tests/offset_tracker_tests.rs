use ca3d::SharedBufferOffsetTracker;

#[test]
fn allocation_assigns_dense_offsets() {
    let mut t = SharedBufferOffsetTracker::new();
    assert_eq!(t.len(), 0);
    let a = t.add_and_get_index();
    let b = t.add_and_get_index();
    let c = t.add_and_get_index();
    assert_eq!((a, b, c), (0, 1, 2));
    assert_eq!(t.get_offset(a), 0);
    assert_eq!(t.get_offset(b), 1);
    assert_eq!(t.get_offset(c), 2);
    assert_eq!(t.len(), 3);
}

#[test]
fn removing_last_offset_owner_shrinks() {
    let mut t = SharedBufferOffsetTracker::new();
    let a = t.add_and_get_index();
    let b = t.add_and_get_index();
    let c = t.add_and_get_index();
    t.remove_index(c);
    assert_eq!(t.len(), 2);
    assert_eq!(t.get_offset(a), 0);
    assert_eq!(t.get_offset(b), 1);
}

#[test]
fn removing_inner_offset_moves_last_owner_into_hole() {
    let mut t = SharedBufferOffsetTracker::new();
    let a = t.add_and_get_index();
    let b = t.add_and_get_index();
    let c = t.add_and_get_index();
    t.remove_index(a);
    assert_eq!(t.len(), 2);
    // Swap-to-end compaction: the owner of the last offset fills the hole.
    assert_eq!(t.get_offset(c), 0);
    assert_eq!(t.get_offset(b), 1);
}

#[test]
fn released_index_is_never_handed_out_again() {
    let mut t = SharedBufferOffsetTracker::new();
    let a = t.add_and_get_index();
    let b = t.add_and_get_index();
    t.remove_index(a);
    let c = t.add_and_get_index();
    assert_ne!(c, a);
    assert_eq!(c, 2);
    // The physical offset, by contrast, is reused.
    assert_eq!(t.get_offset(b), 0);
    assert_eq!(t.get_offset(c), 1);
}

#[test]
fn offsets_stay_dense_over_mixed_operations() {
    let mut t = SharedBufferOffsetTracker::new();
    let mut live: Vec<u64> = Vec::new();
    for _ in 0..8 {
        live.push(t.add_and_get_index());
    }
    t.remove_index(live.remove(3));
    t.remove_index(live.remove(0));
    t.remove_index(live.remove(4));
    live.push(t.add_and_get_index());
    assert_eq!(t.len() as usize, live.len());
    let mut offsets: Vec<u32> = live.iter().map(|i| t.get_offset(*i)).collect();
    offsets.sort();
    let expected: Vec<u32> = (0..live.len() as u32).collect();
    assert_eq!(offsets, expected);
}
