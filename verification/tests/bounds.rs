use snakube::bounds::Bounds;

#[test]
fn bounds_start_at_zero() {
    let b = Bounds::default();
    for idx in 0..6 {
        assert_eq!(b.get_by_index(idx), 0);
    }
}

#[test]
fn update_by_index_changes_one_slot() {
    let mut b = Bounds::default();
    b.update_by_index(2, 3);
    assert_eq!(b.get_by_index(2), 3);
    assert_eq!(b.get_by_index(0), 0);
    assert_eq!(b.get_by_index(3), 0);
}

#[test]
fn named_and_indexed_access_agree() {
    let mut b = Bounds::default();
    b.update_by_direction("UP", 2);
    b.update_by_direction("DOWN", -1);
    b.update_by_direction("RIGHT", 1);
    b.update_by_direction("LEFT", -3);
    b.update_by_direction("OUT", 4);
    b.update_by_direction("IN", -2);
    assert_eq!(b.get_by_index(0), 2);
    assert_eq!(b.get_by_index(1), -1);
    assert_eq!(b.get_by_index(2), 1);
    assert_eq!(b.get_by_index(3), -3);
    assert_eq!(b.get_by_index(4), 4);
    assert_eq!(b.get_by_index(5), -2);
    assert_eq!(b.get_by_direction("UP"), 2);
    assert_eq!(b.get_by_direction("IN"), -2);
}

#[test]
fn non_extending_update_is_ignored() {
    let mut b = Bounds::default();
    // UP looks for a maximum: 5 stands, a later 3 does not extend it
    b.update_by_direction("UP", 5);
    b.update_by_direction("UP", 3);
    assert_eq!(b.get_by_direction("UP"), 5);
    // DOWN looks for a minimum: -2 stands, a later -1 does not extend it
    b.update_by_index(1, -2);
    b.update_by_index(1, -1);
    assert_eq!(b.get_by_index(1), -2);
    // equal values never extend strictly
    b.update_by_index(4, 2);
    b.update_by_index(4, 2);
    assert_eq!(b.get_by_index(4), 2);
}
