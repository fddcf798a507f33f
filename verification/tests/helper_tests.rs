use ca3d::{DrawIndirectPod, KeyTracker, ResourceSizeHelper};

#[test]
fn resource_is_created_on_first_request() {
    let mut h: ResourceSizeHelper<u32> = ResourceSizeHelper::new();
    let v = *h.get_or_recreate(5, |size| size);
    // Sizes are rounded up to the next power of two.
    assert_eq!(v, 8);
    assert_eq!(*h.get_existing(), 8);
}

#[test]
fn smaller_request_keeps_existing_resource() {
    let mut h: ResourceSizeHelper<u32> = ResourceSizeHelper::new();
    h.get_or_recreate(5, |size| size);
    let v = *h.get_or_recreate(3, |_| panic!("must not recreate for a smaller request"));
    assert_eq!(v, 8);
    let v = *h.get_or_recreate(8, |_| panic!("must not recreate when the size still fits"));
    assert_eq!(v, 8);
}

#[test]
fn larger_request_recreates() {
    let mut h: ResourceSizeHelper<u32> = ResourceSizeHelper::new();
    h.get_or_recreate(4, |size| size);
    assert_eq!(*h.get_existing(), 4);
    let v = *h.get_or_recreate(9, |size| size);
    assert_eq!(v, 16);
}

#[test]
fn zero_request_on_empty_helper_creates_at_size_zero() {
    let mut h: ResourceSizeHelper<u32> = ResourceSizeHelper::new();
    let v = *h.get_or_recreate(0, |size| size + 100);
    assert_eq!(v, 100);
}

#[test]
fn default_helper_is_empty() {
    let h: ResourceSizeHelper<u32> = Default::default();
    let mut h = h;
    let v = *h.get_or_recreate(1, |size| size);
    assert_eq!(v, 1);
}

#[test]
fn key_tracker_follows_key_events() {
    let mut t = KeyTracker::new();
    assert!(!t.is_key_pressed(17));
    t.key_down(17);
    t.key_down(30);
    assert!(t.is_key_pressed(17));
    assert!(t.is_key_pressed(30));
    t.key_up(17);
    assert!(!t.is_key_pressed(17));
    assert!(t.is_key_pressed(30));
    t.reset();
    assert!(!t.is_key_pressed(30));
}

#[test]
fn draw_indirect_defaults_to_zeroes() {
    let d = DrawIndirectPod::default();
    assert_eq!(
        (d.vertex_count, d.instance_count, d.base_vertex, d.base_instance),
        (0, 0, 0, 0)
    );
}
