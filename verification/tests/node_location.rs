use sparse_octree::ChildId;
use sparse_octree::NodeLocation;

#[test]
fn node_location_depth_tests() {
    let shallow_location = NodeLocation { code: 0b1_101_000 };
    assert_eq!(shallow_location.depth(), 2);
    assert_eq!(shallow_location.parent().unwrap().depth(), 1);
    assert_eq!(shallow_location.child(ChildId::BLB).unwrap().depth(), 3);

    let deep_location = NodeLocation { code: 0x0800_0000_0000_0000 };
    assert_eq!(deep_location.depth(), 20);
}

#[test]
fn node_location_parent_tests() {
    let location = NodeLocation { code: 0b1_101_000 };
    let parent = location.parent();
    assert_eq!(parent, Some(NodeLocation { code: 0b1_101 }));

    let grandparent = parent.unwrap().parent().unwrap();
    assert_eq!(grandparent, NodeLocation::new_root());

    assert_eq!(grandparent.parent(), None);
}

#[test]
fn node_location_child_tests() {
    let location = NodeLocation { code: 0x0800_0000_0000_0000 };

    let child = location.child(ChildId::BLF);
    assert_eq!(child, Some(NodeLocation { code: 0x4000_0000_0000_0000 }));

    let grandchild = child.unwrap().child(ChildId::BLF);
    assert_eq!(grandchild, None);
}

#[test]
fn depth_max_dimensions() {
    // Depth of 1 allows coordinates between -1 to 1-1
    assert_ne!(NodeLocation::new(-1, 0, -1, 1), None); // Succeeds
    assert_eq!(NodeLocation::new(-2, 1, -1, 1), None); // Fails

    // Depth of 2 allows coordinates between -2 to 2-1
    assert_ne!(NodeLocation::new(-2, 1, -2, 2), None); // Succeeds
    assert_eq!(NodeLocation::new(-2, 2, -2, 2), None); // Fails

    // Depth of 4 allows coordinates between -8 to 8-1
    assert_ne!(NodeLocation::new(7, 7, -8, 4), None); // Succeeds
    assert_eq!(NodeLocation::new(-7, 9, 7, 4), None); // Fails

    // Depth of 21 allows coordinates from -1048576 to 1048576-1
    assert_ne!(NodeLocation::new(1048575, -1048576, 1048575, 21), None); // Succeeds
    assert_eq!(NodeLocation::new(1048577, -1048576, 1048576, 21), None); // Fails
}

#[test]
fn coordinates() {
    let root = NodeLocation::new_root();

    // (3, 3, 3) @ d3 should be top right back > top right back
    assert_eq!(
        NodeLocation::new(3, 3, 3, 3).unwrap(),
        root.child(ChildId::TRB).unwrap().child(ChildId::TRB).unwrap().child(ChildId::TRB).unwrap()
    );

    // (-4, -4, -4) @ d3 should be bottom left front > bottom left front
    assert_eq!(
        NodeLocation::new(-4, -4, -4, 3).unwrap(),
        root.child(ChildId::BLF).unwrap().child(ChildId::BLF).unwrap().child(ChildId::BLF).unwrap()
    );

    // (2, 2, 2) @ d3
    assert_eq!(
        NodeLocation::new(2, 2, 2, 3).unwrap(),
        root.child(ChildId::TRB).unwrap().child(ChildId::TRB).unwrap().child(ChildId::BLF).unwrap()
    );

    // (-3, -3, -3) @ d3
    assert_eq!(
        NodeLocation::new(-3, -3, -3, 3).unwrap(),
        root.child(ChildId::BLF).unwrap().child(ChildId::BLF).unwrap().child(ChildId::TRB).unwrap()
    );

    // (-8, 0, 0) @ d4 = TOP LEFT BACK -> BOTTOM LEFT FRONT > BOTTOM LEFT FRONT > BOTTOM LEFT FRONT
    assert_eq!(
        NodeLocation::new(-8, 0, 0, 4).unwrap(),
        root.child(ChildId::TLB)
            .unwrap()
            .child(ChildId::BLF)
            .unwrap()
            .child(ChildId::BLF)
            .unwrap()
            .child(ChildId::BLF)
            .unwrap()
    );

    // (-7, -7, -7) @ d4
    assert_eq!(
        NodeLocation::new(-7, -7, -7, 4).unwrap(),
        root.child(ChildId::BLF)
            .unwrap()
            .child(ChildId::BLF)
            .unwrap()
            .child(ChildId::BLF)
            .unwrap()
            .child(ChildId::TRB)
            .unwrap()
    );

    let depth = 7;
    let max = 2_i32.pow(depth) / 2;
    for x in -max..max {
        for y in -max..max {
            for z in -max..max {
                assert_eq!(
                    NodeLocation::new(x, y, z, depth).unwrap().coordinates(),
                    (x, y, z, depth)
                );
            }
        }
    }

    assert_eq!(
        NodeLocation::new(-32324, 321234, -921239, 21).unwrap().coordinates(),
        (-32324, 321234, -921239, 21)
    );
}
