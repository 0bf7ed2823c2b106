use sparse_octree::for_each_continuous_node;
use sparse_octree::ChildCode;
use sparse_octree::ChildId;
use sparse_octree::ChildrenFlags;
use sparse_octree::Node;
use sparse_octree::NodeLocation;
use sparse_octree::SparseOctree;
use std::cmp::Ordering;

#[test]
fn octant_flags_tile_the_byte() {
    assert_eq!(ChildId::BLF.flag(), 0b0000_0001);
    assert_eq!(ChildId::BRF.flag(), 0b0000_0010);
    assert_eq!(ChildId::BLB.flag(), 0b0000_0100);
    assert_eq!(ChildId::BRB.flag(), 0b0000_1000);
    assert_eq!(ChildId::TLF.flag(), 0b0001_0000);
    assert_eq!(ChildId::TRF.flag(), 0b0010_0000);
    assert_eq!(ChildId::TLB.flag(), 0b0100_0000);
    assert_eq!(ChildId::TRB.flag(), 0b1000_0000);

    let mut all: u8 = 0;
    for v in 0u64..8 {
        all |= ChildId::from(v).flag();
    }
    assert_eq!(all, 0xff);
}

#[test]
fn octant_from_masks_low_bits() {
    assert_eq!(ChildId::from(0), ChildId::BLF);
    assert_eq!(ChildId::from(9), ChildId::BRF);
    assert_eq!(ChildId::from(111), ChildId::TRB);
    assert_eq!(ChildCode::from(0b101), ChildCode::TRF);
    assert_eq!(ChildCode::from(0b1_101), ChildCode::TRF);
}

#[test]
fn children_flags_masks() {
    assert_eq!(ChildrenFlags::BLF.mask(), 0b0000_0001);
    assert_eq!(ChildrenFlags::BRB.mask(), 0b0000_1000);
    assert_eq!(ChildrenFlags::TRB.mask(), 0b1000_0000);
}

#[test]
fn parent_child_round_trips() {
    let l = NodeLocation::new(5, -3, 2, 4).unwrap();
    // A location of positive depth is its parent's child under its own id.
    assert_eq!(l.parent().unwrap().child(l.child_id()).unwrap(), l);
    // Any child steps back up to the same location and remembers its id.
    for v in 0u64..8 {
        let c = ChildId::from(v);
        let down = l.child(c).unwrap();
        assert_eq!(down.parent().unwrap(), l);
        assert_eq!(down.child_id(), c);
    }
    let (p, id) = l.disown();
    assert_eq!(p.unwrap().child(id).unwrap(), l);
}

#[test]
fn location_order_is_depth_first() {
    let root = NodeLocation::new_root();
    let a = root.child(ChildId::BRF).unwrap();
    let b = a.child(ChildId::TRB).unwrap();
    // An ancestor orders before each of its descendants.
    assert_eq!(root.cmp(&a), Ordering::Less);
    assert_eq!(a.cmp(&b), Ordering::Less);
    assert_eq!(root.cmp(&b), Ordering::Less);
    assert_eq!(b.cmp(&root), Ordering::Greater);
    assert_eq!(b.cmp(&b), Ordering::Equal);
    // Disjoint subtrees order by the first diverging octant, however
    // deep either side goes.
    let left_deep = root.child(ChildId::BLF).unwrap().child(ChildId::TRB).unwrap();
    assert_eq!(left_deep.cmp(&a), Ordering::Less);
}

#[test]
fn new_rejects_out_of_range() {
    // The supported depths end at 21.
    assert_eq!(NodeLocation::new(0, 0, 0, 22), None);
    assert_eq!(NodeLocation::new(0, 0, 0, 100), None);
    // The root cell spans no addressable coordinate.
    assert_eq!(NodeLocation::new(0, 0, 0, 0), None);
    // Boundary at the greatest depth: the lower bound is inclusive, the
    // upper bound exclusive.
    assert!(NodeLocation::new(-1048576, -1048576, -1048576, 21).is_some());
    assert_eq!(NodeLocation::new(1048576, 0, 0, 21), None);
}

#[test]
fn depth_derivation() {
    let l = NodeLocation { code: 0x0800_0000_0000_0000 };
    assert_eq!(l.depth(), 20);
    let c = l.child(ChildId::BLF).unwrap();
    assert_eq!(c.code, 0x4000_0000_0000_0000);
    assert_eq!(c.depth(), 21);
    assert_eq!(c.child(ChildId::BLF), None);
}

#[test]
fn sort_then_slice() {
    let mut octree = SparseOctree::<u64>::new();
    let root = NodeLocation::new_root();
    octree.set(root.child(ChildId::BLF).unwrap(), 1).unwrap();
    octree.set(root.child(ChildId::BLB).unwrap(), 2).unwrap();
    octree.set(root.child(ChildId::TLF).unwrap(), 3).unwrap();
    octree.set(root.child(ChildId::TRB).unwrap(), 4).unwrap();

    assert_eq!(octree.get_slice(root), None);

    octree.sort();

    // One branch plus four leaves, all contiguous from the root.
    assert_eq!(octree.get_slice(root).unwrap().len(), 5);
    assert_eq!(octree.get_single(root.child(ChildId::BLF).unwrap()), Some(&1));
    assert_eq!(octree.get_single(root.child(ChildId::BLB).unwrap()), Some(&2));
    assert_eq!(octree.get_single(root.child(ChildId::TLF).unwrap()), Some(&3));
    assert_eq!(octree.get_single(root.child(ChildId::TRB).unwrap()), Some(&4));
}

#[test]
fn get_single_never_returns_a_branch() {
    let mut octree = SparseOctree::<u64>::new();
    let root = NodeLocation::new_root();
    let leaf = root.child(ChildId::BLF).unwrap().child(ChildId::BRF).unwrap();
    octree.set(leaf, 7).unwrap();
    // The intermediate branch is mapped but carries no value.
    assert_eq!(octree.get_single(root.child(ChildId::BLF).unwrap()), None);
    assert!(octree.get_node(root.child(ChildId::BLF).unwrap()).is_some());
    assert_eq!(octree.get_single(root), None);
}

#[test]
fn failed_set_changes_nothing() {
    let mut octree = SparseOctree::<u64>::new();
    let root = NodeLocation::new_root();
    let leaf = root.child(ChildId::TLB).unwrap();
    octree.set(leaf, 5).unwrap();
    let len_before = octree.len();

    // Writing under an existing leaf is refused...
    let below = leaf.child(ChildId::BLF).unwrap().child(ChildId::BRB).unwrap();
    assert_eq!(octree.set(below, 9), Err(()));

    // ...and leaves the set of mapped locations unchanged.
    assert_eq!(octree.len(), len_before);
    assert_eq!(octree.get_single(leaf), Some(&5));
    assert_eq!(octree.get_node(below), None);
    assert_eq!(octree.get_node(below.parent().unwrap()), None);
}

#[test]
fn set_overwrites_in_place() {
    let mut octree = SparseOctree::<u64>::new();
    let loc = NodeLocation::new_root().child(ChildId::BRB).unwrap();
    octree.set(loc, 1).unwrap();
    let len_before = octree.len();
    octree.set(loc, 2).unwrap();
    assert_eq!(octree.len(), len_before);
    assert_eq!(octree.get_single(loc), Some(&2));
}

#[test]
fn empty_slice_for_unmapped_clean_location() {
    let octree = SparseOctree::<u64>::new();
    let loc = NodeLocation::new_root().child(ChildId::TRF).unwrap();
    let slice = octree.get_slice(loc).unwrap();
    assert_eq!(slice.len(), 0);
}

#[test]
fn walk_visits_every_node_in_order() {
    let mut octree = SparseOctree::<u64>::new();
    let root = NodeLocation::new_root();
    octree.set(root.child(ChildId::TRB).unwrap().child(ChildId::BLF).unwrap(), 1).unwrap();
    octree.set(root.child(ChildId::BLF).unwrap(), 2).unwrap();
    octree.sort();

    let slice = octree.get_slice(root).unwrap();
    let visits = for_each_continuous_node(slice);
    assert_eq!(visits.len(), octree.len());
    for (k, (loc, index)) in visits.iter().enumerate() {
        assert_eq!(*index, k);
        assert!(octree.get_node(*loc).is_some());
    }
}

#[test]
fn clone_subtree_copies_one_branch() {
    let mut octree = SparseOctree::<&str>::new();
    let root = NodeLocation::new_root();
    let corner = root.child(ChildId::TRB).unwrap();
    octree.set(corner.child(ChildId::BLF).unwrap(), "kept").unwrap();
    octree.set(root.child(ChildId::BLF).unwrap(), "other").unwrap();

    // Dirty subtrees cannot be cloned.
    assert!(octree.clone_subtree(root).is_none());
    octree.sort();
    // An unmapped location has nothing to clone.
    assert!(octree.clone_subtree(root.child(ChildId::TRF).unwrap()).is_none());

    let copy = octree.clone_subtree(corner).unwrap();
    assert_eq!(copy.len(), 2);
    // The clone is re-rooted: the old corner is the clone's root.
    assert_eq!(copy.get_node(NodeLocation::new_root()), Some(&Node::Branch(ChildId::BLF.flag())));
    assert_eq!(
        copy.get_single(NodeLocation::new_root().child(ChildId::BLF).unwrap()),
        Some(&"kept")
    );
}

#[test]
fn insert_subtree_places_and_rejects() {
    let mut inner = SparseOctree::<u64>::new();
    inner.set(NodeLocation::new_root().child(ChildId::BLF).unwrap(), 99).unwrap();

    let mut octree = SparseOctree::<u64>::new();
    let target = NodeLocation::new_root().child(ChildId::TRB).unwrap();
    assert_eq!(octree.insert_subtree(inner, target), Ok(()));
    assert_eq!(octree.get_single(target.child(ChildId::BLF).unwrap()), Some(&99));
    assert_eq!(octree.get_node(target), Some(&Node::Branch(ChildId::BLF.flag())));

    // A subtree of depth one cannot hang from a location at the greatest
    // depth: the combined path would not fit a 64-bit code.
    let mut too_deep = SparseOctree::<u64>::new();
    too_deep.set(NodeLocation::new_root().child(ChildId::BLF).unwrap(), 1).unwrap();
    let mut bottom = NodeLocation::new_root();
    for _ in 0..21 {
        bottom = bottom.child(ChildId::BLF).unwrap();
    }
    assert_eq!(octree.insert_subtree(too_deep, bottom), Err(()));
    assert_eq!(octree.get_node(bottom), None);
}

#[test]
fn insert_subtree_replaces_a_mapped_run() {
    let mut first = SparseOctree::<u64>::new();
    first.set(NodeLocation::new_root().child(ChildId::BLF).unwrap(), 1).unwrap();
    first.set(NodeLocation::new_root().child(ChildId::BRF).unwrap(), 2).unwrap();

    let mut octree = SparseOctree::<u64>::new();
    let target = NodeLocation::new_root().child(ChildId::TLF).unwrap();
    octree.insert_subtree(first, target).unwrap();
    assert_eq!(octree.get_single(target.child(ChildId::BLF).unwrap()), Some(&1));

    // Replace the whole run with a smaller subtree.
    let mut second = SparseOctree::<u64>::new();
    second.set(NodeLocation::new_root().child(ChildId::TRB).unwrap(), 7).unwrap();
    octree.insert_subtree(second, target).unwrap();
    assert_eq!(octree.get_single(target.child(ChildId::TRB).unwrap()), Some(&7));
    assert_eq!(octree.get_node(target.child(ChildId::BLF).unwrap()), None);
    assert_eq!(octree.get_node(target.child(ChildId::BRF).unwrap()), None);
}
