use voxel_sim::input::HeldKeys;

#[test]
fn press_and_release() {
    let mut h = HeldKeys::new();
    assert!(!h.is_held(17));
    h.process_input(17, true);
    assert!(h.is_held(17));
    h.process_input(17, true);
    h.process_input(3, true);
    assert!(h.is_held(3));
    h.process_input(17, false);
    assert!(!h.is_held(17));
    assert!(h.is_held(3));
    h.process_input(99, false);
    assert!(!h.is_held(99));
    assert!(h.is_held(3));
}
