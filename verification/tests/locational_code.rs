use sparse_octree::ChildCode;
use sparse_octree::LocationalCode;

#[test]
fn locational_code_depth_tests() {
    let shallow_location = LocationalCode(0b1_101_000);
    assert_eq!(shallow_location.depth(), 2);
    assert_eq!(shallow_location.parent().unwrap().depth(), 1);
    assert_eq!(shallow_location.child(ChildCode::BLB).unwrap().depth(), 3);

    let deep_location = LocationalCode(0x0800_0000_0000_0000);
    assert_eq!(deep_location.depth(), 20);
}

#[test]
fn locational_code_parent_tests() {
    let location = LocationalCode(0b1_101_000);
    let parent = location.parent();
    assert_eq!(parent, Some(LocationalCode(0b1_101)));

    let grandparent = parent.unwrap().parent();
    assert_eq!(grandparent, None);
}

#[test]
fn locational_code_child_tests() {
    let location = LocationalCode(0x0800_0000_0000_0000);

    let child = location.child(ChildCode::BLF);
    assert_eq!(child, Some(LocationalCode(0x4000_0000_0000_0000)));

    let grandchild = child.unwrap().child(ChildCode::BLF);
    assert_eq!(grandchild, None);
}

#[test]
fn locational_code_new_is_root() {
    // The coordinate-taking builder of the older code type starts every
    // caller at the root; fine construction lives in NodeLocation::new.
    assert_eq!(LocationalCode::new(1, 2, 3), LocationalCode(1));
    assert_eq!(LocationalCode::new(0, 0, 0), LocationalCode(1));
}
