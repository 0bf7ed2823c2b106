use vstd::prelude::*;

use crate::child_id::child_flag;
use crate::node_location::NodeLocation;
use crate::node_location::depth_of;
use crate::lookup::lemma_scan_len_le;
use crate::lookup::lemma_scan_len_saturated;
use crate::lookup::scan_len;
use crate::lookup::subtree_size;
use crate::table::LocationSet;
use crate::table::LookupTable;

verus! {

/// One stored cell of the octree: an interior node carrying only the
/// 8-bit presence mask of its children, or a terminal node carrying a
/// value.
#[derive(Debug, Copy, PartialEq, Eq)]
pub enum Node<V> {
    Branch(u8),
    Leaf(V),
}

/// How many of the low `k` bits of a branch mask are set.
pub open spec fn mask_count_below(m: u8, k: nat) -> nat
    decreases k,
{
    if k == 0 {
        0
    } else {
        mask_count_below(m, (k - 1) as nat) + (if (m >> ((k - 1) as u8)) & 1 == 1 {
            1nat
        } else {
            0nat
        })
    }
}

/// How many children a branch mask announces.
pub open spec fn mask_count(m: u8) -> nat {
    mask_count_below(m, 8)
}

/// How many children a stored node announces: the mask's bit count for
/// a branch, none for a leaf.
pub open spec fn child_count<V>(n: Node<V>) -> nat {
    match n {
        Node::Branch(m) => mask_count(m),
        Node::Leaf(_) => 0,
    }
}

/// `b` is what cloning `a` may produce: the same mask for a branch, a
/// clone of the carried value for a leaf.
pub open spec fn node_cloned<V: Clone>(a: Node<V>, b: Node<V>) -> bool {
    match (a, b) {
        (Node::Branch(m1), Node::Branch(m2)) => m1 == m2,
        (Node::Leaf(v1), Node::Leaf(v2)) => vstd::pervasive::cloned::<V>(v1, v2),
        _ => false,
    }
}

impl<V: Clone> Clone for Node<V> {
    /// Structure-preserving clone: the mask is kept exactly, the carried
    /// value is cloned.
    fn clone(&self) -> (r: Self)
        ensures
            node_cloned(*self, r),
    {
        match self {
            Node::Branch(m) => Node::Branch(*m),
            Node::Leaf(v) => Node::Leaf(v.clone()),
        }
    }
}

/// The mask a stored node contributes when flags are or-ed onto it.
pub open spec fn mask_of<V>(n: Node<V>) -> u8 {
    match n {
        Node::Branch(m) => m,
        Node::Leaf(_) => 0,
    }
}

/// The presence flag a location occupies in its parent's mask: the bit
/// of its own low octant group.
pub open spec fn flag_of(c: u64) -> u8 {
    child_flag(c % 8)
}

/// Whether writing at `c` is blocked: the nearest mapped strict ancestor
/// of `c` under the node map `m` exists and is not a branch.
pub open spec fn blocked<V>(m: Map<u64, Node<V>>, c: u64) -> bool
    decreases c,
{
    if c <= 1 {
        false
    } else if m.contains_key(c / 8) {
        !(m[c / 8] is Branch)
    } else {
        blocked(m, c / 8)
    }
}

/// The node map after the upward pass of a write at `c`: the nearest
/// mapped ancestor has the flag of the path or-ed into its mask, and
/// the unmapped ancestors in between are created as single-child
/// branches.
pub open spec fn ua_view<V>(m: Map<u64, Node<V>>, c: u64) -> Map<u64, Node<V>>
    decreases c, 0int,
{
    if c <= 1 {
        m
    } else if m.contains_key(c / 8) {
        if m[c / 8] is Branch {
            m.insert(c / 8, Node::Branch(mask_of(m[c / 8]) | flag_of(c)))
        } else {
            m
        }
    } else {
        sn_view(m, c / 8, Node::Branch(flag_of(c)))
    }
}

/// The node map after a full write of `n` at `c`: the upward pass, then
/// the node itself.
pub open spec fn sn_view<V>(m: Map<u64, Node<V>>, c: u64, n: Node<V>) -> Map<u64, Node<V>>
    decreases c, 1int,
{
    ua_view(m, c).insert(c, n)
}

/// The locations the upward pass of a write at `c` newly maps.
pub open spec fn ua_created<V>(m: Map<u64, Node<V>>, c: u64) -> Set<u64>
    decreases c, 0int,
{
    if c <= 1 {
        Set::empty()
    } else if m.contains_key(c / 8) {
        Set::empty()
    } else {
        sn_created(m, c / 8)
    }
}

/// The locations a full write at `c` newly maps.
pub open spec fn sn_created<V>(m: Map<u64, Node<V>>, c: u64) -> Set<u64>
    decreases c, 1int,
{
    if m.contains_key(c) {
        ua_created(m, c)
    } else {
        ua_created(m, c).insert(c)
    }
}

/// The dirty set after marking the ancestors of `c`, walking up until
/// an already-dirty ancestor is met.
pub open spec fn marked(s: Set<u64>, c: u64) -> Set<u64>
    decreases c,
{
    if c <= 1 {
        s
    } else if s.contains(c / 8) {
        s
    } else {
        marked(s.insert(c / 8), c / 8)
    }
}

/// The dirty set after the upward pass of a write at `c`: each newly
/// created ancestor marks its own ancestors in turn.
pub open spec fn ua_unsorted<V>(m: Map<u64, Node<V>>, s: Set<u64>, c: u64) -> Set<u64>
    decreases c, 0int,
{
    if c <= 1 {
        s
    } else if m.contains_key(c / 8) {
        s
    } else {
        sn_unsorted(m, s, c / 8)
    }
}

/// The dirty set after a full write at `c`: marking happens only when
/// `c` itself is newly mapped.
pub open spec fn sn_unsorted<V>(m: Map<u64, Node<V>>, s: Set<u64>, c: u64) -> Set<u64>
    decreases c, 1int,
{
    if m.contains_key(c) {
        ua_unsorted(m, s, c)
    } else {
        marked(ua_unsorted(m, s, c), c)
    }
}

/// The recorded greatest depth after the upward pass of a write at `c`.
pub open spec fn ua_depth<V>(m: Map<u64, Node<V>>, d: u32, c: u64) -> u32
    decreases c, 0int,
{
    if c <= 1 {
        d
    } else if m.contains_key(c / 8) {
        d
    } else {
        sn_depth(m, d, c / 8)
    }
}

/// The recorded greatest depth after a full write at `c`.
pub open spec fn sn_depth<V>(m: Map<u64, Node<V>>, d: u32, c: u64) -> u32
    decreases c, 1int,
{
    if depth_of(c) > ua_depth(m, d, c) {
        depth_of(c) as u32
    } else {
        ua_depth(m, d, c)
    }
}

/// A parent is never deeper than its child.
proof fn lemma_depth_of_parent(c: u64)
    ensures
        depth_of(c / 8) <= depth_of(c),
{
}

/// The recorded depth after a write is just the maximum of the old
/// record and the written location's depth.
pub proof fn lemma_sn_depth<V>(m: Map<u64, Node<V>>, d: u32, c: u64)
    ensures
        sn_depth::<V>(m, d, c) == if depth_of(c) > d {
            depth_of(c) as u32
        } else {
            d
        },
        ua_depth::<V>(m, d, c) == if c > 1 && !m.contains_key(c / 8) && depth_of(c / 8) > d {
            depth_of(c / 8) as u32
        } else {
            d
        },
    decreases c, 1int,
{
    lemma_depth_of_parent(c);
    if c > 1 && !m.contains_key(c / 8) {
        lemma_sn_depth::<V>(m, d, c / 8);
    }
}

/// The upward pass of a write at `c` creates only strict ancestors of
/// `c`, all unmapped before and none deeper than `c`.
proof fn lemma_ua_created_small<V>(m: Map<u64, Node<V>>, c: u64)
    ensures
        forall|x: u64|
            #[trigger] ua_created::<V>(m, c).contains(x) ==> x < c && !m.contains_key(x)
                && depth_of(x) <= depth_of(c),
    decreases c, 0int,
{
    lemma_depth_of_parent(c);
    if c > 1 && !m.contains_key(c / 8) {
        lemma_sn_created_small::<V>(m, c / 8);
        assert forall|x: u64| #[trigger] ua_created::<V>(m, c).contains(x) implies x < c
            && !m.contains_key(x) && depth_of(x) <= depth_of(c) by {
            assert(sn_created::<V>(m, c / 8).contains(x));
            assert(x <= c / 8 && !m.contains_key(x) && depth_of(x) <= depth_of(c / 8));
        }
    }
}

/// A write at `c` creates only `c` itself and strict ancestors of `c`,
/// all unmapped before and none deeper than `c`.
pub proof fn lemma_created_small<V>(m: Map<u64, Node<V>>, c: u64)
    ensures
        forall|x: u64|
            #[trigger] ua_created::<V>(m, c).contains(x) ==> x < c && !m.contains_key(x)
                && depth_of(x) <= depth_of(c),
        forall|x: u64|
            #[trigger] sn_created::<V>(m, c).contains(x) ==> x <= c && !m.contains_key(x)
                && depth_of(x) <= depth_of(c),
    decreases c, 1int,
{
    lemma_sn_created_small::<V>(m, c);
    lemma_ua_created_small::<V>(m, c);
}

/// The `sn_created` half of [`lemma_created_small`].
proof fn lemma_sn_created_small<V>(m: Map<u64, Node<V>>, c: u64)
    ensures
        forall|x: u64|
            #[trigger] sn_created::<V>(m, c).contains(x) ==> x <= c && !m.contains_key(x)
                && depth_of(x) <= depth_of(c),
    decreases c, 1int,
{
    lemma_ua_created_small::<V>(m, c);
    assert forall|x: u64| #[trigger] sn_created::<V>(m, c).contains(x) implies x <= c
        && !m.contains_key(x) && depth_of(x) <= depth_of(c) by {
        if m.contains_key(c) {
            assert(ua_created::<V>(m, c).contains(x));
        } else {
            if x != c {
                assert(ua_created::<V>(m, c).contains(x));
            }
        }
    }
}

/// The walk entries of the subtree stored for `c` under the lookup `m`
/// in the node array `s`: what a subtree replacement drops from the
/// lookup. Empty when `c` is not mapped.
pub open spec fn replaced_walk<V>(m: Map<u64, usize>, s: Seq<Node<V>>, c: u64) -> Seq<(u64, int)> {
    if m.contains_key(c) {
        crate::lookup::walk_from(
            s.subrange(m[c] as int, m[c] + subtree_size(s, m[c] as int)),
            c,
        )
    } else {
        Seq::empty()
    }
}

/// The sparse octree: a flat array of nodes, a lookup from locational
/// code to slot, the greatest mapped depth, the set of locations whose
/// subtrees are not yet in depth-first order, and the slots abandoned
/// until the next sort.
pub struct SparseOctree<V: Clone> {
    storage: Vec<Node<V>>,
    map: LookupTable,
    depth: u32,
    unsorted: LocationSet,
    unused: Vec<usize>,
}

impl<V: Clone> SparseOctree<V> {
    /// The lookup table, abstractly: locational code to storage slot.
    pub closed spec fn map_spec(self) -> Map<u64, usize> {
        self.map@
    }

    /// The stored nodes, abstractly.
    pub closed spec fn nodes_spec(self) -> Seq<Node<V>> {
        self.storage@
    }

    /// The set of locations marked out of depth-first order.
    pub closed spec fn unsorted_spec(self) -> Set<u64> {
        self.unsorted@
    }

    /// The recorded greatest depth.
    pub closed spec fn depth_spec(self) -> u32 {
        self.depth
    }

    /// The slots waiting to be dropped by the next sort.
    pub closed spec fn unused_spec(self) -> Seq<usize> {
        self.unused@
    }

    /// The table's key-distinctness, exposed for the well-formedness
    /// conjunction.
    pub closed spec fn table_inv(self) -> bool {
        self.map.inv()
    }

    /// The octree as a finite map from mapped location to stored node.
    pub open spec fn node_view(self) -> Map<u64, Node<V>> {
        Map::new(
            |c: u64| self.map_spec().contains_key(c),
            |c: u64| self.nodes_spec()[self.map_spec()[c] as int],
        )
    }

    /// Well-formed state: every lookup entry points into the storage, no
    /// two locations share a slot, and the recorded depth bounds every
    /// mapped location's depth.
    pub open spec fn wf(self) -> bool {
        &&& self.table_inv()
        &&& forall|c: u64|
            self.map_spec().contains_key(c) ==> (#[trigger] self.map_spec()[c])
                < self.nodes_spec().len()
        &&& forall|c1: u64, c2: u64|
            self.map_spec().contains_key(c1) && self.map_spec().contains_key(c2) && c1 != c2
                ==> #[trigger] self.map_spec()[c1] != #[trigger] self.map_spec()[c2]
        &&& forall|c: u64|
            #[trigger] self.map_spec().contains_key(c) ==> depth_of(c) <= self.depth_spec()
        &&& self.depth_spec() <= 21
    }

    /// A fresh, empty octree.
    pub fn new() -> (r: SparseOctree<V>)
        ensures
            r.wf(),
            r.map_spec() == Map::<u64, usize>::empty(),
            r.node_view() == Map::<u64, Node<V>>::empty(),
            r.nodes_spec() == Seq::<Node<V>>::empty(),
            r.unsorted_spec() == Set::<u64>::empty(),
            r.unused_spec() == Seq::<usize>::empty(),
            r.depth_spec() == 0,
    {
        let r = SparseOctree::<V> {
            storage: Vec::new(),
            map: LookupTable::new(),
            depth: 0,
            unsorted: LocationSet::new(),
            unused: Vec::new(),
        };
        proof {
            assert(r.node_view() =~= Map::<u64, Node<V>>::empty());
        }
        r
    }

    /// The lookup table relating each mapped location to its slot.
    pub fn lookup(&self) -> (r: &LookupTable)
        ensures
            r@ == self.map_spec(),
    {
        &self.map
    }

    /// How many slots the storage occupies, dead slots included.
    pub fn len(&self) -> (n: usize)
        ensures
            n == self.nodes_spec().len(),
    {
        self.storage.len()
    }

    /// The stored node at `location`, of either kind, if the location is
    /// mapped.
    pub fn get_node(&self, location: NodeLocation) -> (r: Option<&Node<V>>)
        requires
            self.wf(),
        ensures
            r is Some <==> self.node_view().contains_key(location.code),
            r matches Some(n) ==> *n == self.node_view()[location.code],
    {
        match self.map.get(location.code) {
            Some(index) => Some(&self.storage[index]),
            None => None,
        }
    }

    /// The leaf value at `location`: a value only where a leaf is
    /// mapped, never a branch.
    pub fn get_single(&self, location: NodeLocation) -> (r: Option<&V>)
        requires
            self.wf(),
        ensures
            r is Some <==> self.node_view().contains_key(location.code)
                && self.node_view()[location.code] is Leaf,
            r matches Some(v) ==> self.node_view()[location.code] == Node::Leaf(*v),
    {
        if let Some(Node::Leaf(node)) = self.get_node(location) {
            Some(node)
        } else {
            None
        }
    }

    /// Write `node` at `location`, creating or completing the branch
    /// path above it; fails without any change when a leaf sits on that
    /// path.
    fn set_node(&mut self, location: NodeLocation, node: Node<V>) -> (r: Result<(), ()>)
        requires
            old(self).wf(),
        ensures
            final(self).wf(),
            r is Err <==> blocked(old(self).node_view(), location.code),
            r is Err ==> *final(self) == *old(self),
            r is Ok ==> {
                &&& final(self).node_view() == sn_view(
                    old(self).node_view(),
                    location.code,
                    node,
                )
                &&& final(self).map_spec().dom() =~= old(self).map_spec().dom() + sn_created(
                    old(self).node_view(),
                    location.code,
                )
                &&& forall|k: u64|
                    old(self).map_spec().contains_key(k) ==> #[trigger] final(self).map_spec()[k]
                        == old(self).map_spec()[k] && final(self).map_spec().contains_key(k)
                &&& final(self).unsorted_spec() == sn_unsorted(
                    old(self).node_view(),
                    old(self).unsorted_spec(),
                    location.code,
                )
                &&& final(self).depth_spec() == sn_depth(
                    old(self).node_view(),
                    old(self).depth_spec(),
                    location.code,
                )
                &&& final(self).nodes_spec().len() >= old(self).nodes_spec().len()
                &&& final(self).unused_spec() == old(self).unused_spec()
            },
        decreases location.code, 1int,
    {
        let ghost c = location.code;
        let ghost m0 = old(self).node_view();
        let r = self.update_ancestors(location);
        if r.is_err() {
            return Err(());
        }
        proof {
            lemma_sn_depth::<V>(m0, old(self).depth_spec(), c);
            lemma_created_small::<V>(m0, c);
            crate::node_location::lemma_depth_of_le_21(c);
        }
        let ghost mid = *self;
        let d = location.depth();
        if d > self.depth {
            self.depth = d;
        }
        proof {
            assert(self.node_view() =~= mid.node_view());
            assert(self.depth_spec() == sn_depth(m0, old(self).depth_spec(), c));
        }
        let ghost mid2 = *self;
        match self.map.get(location.code) {
            Some(index) => {
                proof {
                    // The upward pass creates only strict ancestors, so a
                    // mapped location here was mapped from the start.
                    assert(m0.contains_key(c));
                    assert(sn_created(m0, c) =~= ua_created(m0, c));
                }
                self.storage[index] = node;
                proof {
                    assert(self.node_view() =~= mid2.node_view().insert(location.code, node));
                    assert(self.map_spec().dom() =~= mid2.map_spec().dom());
                    assert(self.node_view() =~= sn_view(m0, c, node));
                    assert(self.map_spec().dom() =~= old(self).map_spec().dom() + sn_created(
                        m0,
                        c,
                    ));
                    assert(self.unsorted_spec() == sn_unsorted(
                        m0,
                        old(self).unsorted_spec(),
                        c,
                    ));
                }
            },
            None => {
                proof {
                    assert(!m0.contains_key(c));
                    assert(sn_created(m0, c) =~= ua_created(m0, c).insert(c));
                }
                let index = self.storage.len();
                self.storage.push(node);
                self.map.insert(location.code, index);
                let ghost mid3 = *self;
                proof {
                    assert(mid3.node_view() =~= mid2.node_view().insert(location.code, node));
                    assert(mid3.map_spec().dom() =~= mid2.map_spec().dom().insert(location.code));
                }
                self.set_ancestors_unsorted(location);
                proof {
                    assert(self.node_view() =~= mid3.node_view());
                    assert(self.node_view() =~= sn_view(m0, c, node));
                    assert(self.map_spec().dom() =~= old(self).map_spec().dom() + sn_created(
                        m0,
                        c,
                    ));
                    assert(self.unsorted_spec() == sn_unsorted(
                        m0,
                        old(self).unsorted_spec(),
                        c,
                    ));
                }
            },
        }
        Ok(())
    }

    /// Walk upward from `location`, or-ing the path flag into the
    /// nearest mapped ancestor if it is a branch, creating the missing
    /// branches on the way; fails without any change when that ancestor
    /// is a leaf.
    fn update_ancestors(&mut self, location: NodeLocation) -> (r: Result<(), ()>)
        requires
            old(self).wf(),
        ensures
            final(self).wf(),
            r is Err <==> blocked(old(self).node_view(), location.code),
            r is Err ==> *final(self) == *old(self),
            r is Ok ==> {
                &&& final(self).node_view() == ua_view(old(self).node_view(), location.code)
                &&& final(self).map_spec().dom() =~= old(self).map_spec().dom() + ua_created(
                    old(self).node_view(),
                    location.code,
                )
                &&& forall|k: u64|
                    old(self).map_spec().contains_key(k) ==> #[trigger] final(self).map_spec()[k]
                        == old(self).map_spec()[k] && final(self).map_spec().contains_key(k)
                &&& final(self).unsorted_spec() == ua_unsorted(
                    old(self).node_view(),
                    old(self).unsorted_spec(),
                    location.code,
                )
                &&& final(self).depth_spec() == ua_depth(
                    old(self).node_view(),
                    old(self).depth_spec(),
                    location.code,
                )
                &&& final(self).nodes_spec().len() >= old(self).nodes_spec().len()
                &&& final(self).unused_spec() == old(self).unused_spec()
            },
        decreases location.code, 0int,
    {
        match location.parent() {
            None => {
                proof {
                    assert(final(self).node_view() =~= ua_view(
                        old(self).node_view(),
                        location.code,
                    ));
                    assert(final(self).map_spec().dom() =~= old(self).map_spec().dom()
                        + ua_created(old(self).node_view(), location.code));
                }
                Ok(())
            },
            Some(parent) => {
                let child_id = location.child_id();
                let ghost c = location.code;
                proof {
                    assert(c & 7 == c % 8 && c & 7 < 8) by (bit_vector);
                    crate::child_id::lemma_child_id_of_low(c, c & 7);
                }
                match self.map.get(parent.code) {
                    Some(index) => {
                        proof {
                            assert(self.map_spec().contains_key(parent.code)
                                && self.map_spec()[parent.code] == index);
                        }
                        let next_mask: u8;
                        match &self.storage[index] {
                            Node::Branch(f) => {
                                next_mask = *f | child_id.flag();
                            },
                            Node::Leaf(_) => {
                                return Err(());
                            },
                        }
                        self.storage[index] = Node::Branch(next_mask);
                        proof {
                            assert(final(self).node_view() =~= ua_view(
                                old(self).node_view(),
                                location.code,
                            ));
                            assert(final(self).map_spec().dom() =~= old(self).map_spec().dom()
                                + ua_created(old(self).node_view(), location.code));
                        }
                        Ok(())
                    },
                    None => {
                        let r = self.set_node(parent, Node::Branch(child_id.flag()));
                        proof {
                            if r is Ok {
                                assert(final(self).map_spec().dom() =~= old(
                                    self,
                                ).map_spec().dom() + ua_created(
                                    old(self).node_view(),
                                    location.code,
                                ));
                            }
                        }
                        r
                    },
                }
            },
        }
    }

    /// Mark the ancestors of `location` as out of order, stopping at the
    /// first one already marked: a dirty ancestor implies dirty
    /// ancestors above it.
    fn set_ancestors_unsorted(&mut self, location: NodeLocation)
        ensures
            final(self).unsorted_spec() == marked(old(self).unsorted_spec(), location.code),
            final(self).storage == old(self).storage,
            final(self).map == old(self).map,
            final(self).depth == old(self).depth,
            final(self).unused == old(self).unused,
        decreases location.code,
    {
        match location.parent() {
            None => {
            },
            Some(parent) => {
                let added = self.unsorted.insert(parent.code);
                if added {
                    self.set_ancestors_unsorted(parent);
                } else {
                    proof {
                        assert(final(self).unsorted_spec() =~= old(self).unsorted_spec());
                    }
                }
            },
        }
    }

    /// Store the leaf value `t` at `location`. Fails, leaving the octree
    /// exactly as it was, when a strict ancestor of `location` already
    /// holds a leaf; otherwise the location now holds `Leaf(t)` and every
    /// missing ancestor was created as a branch on the way down.
    pub fn set(&mut self, location: NodeLocation, t: V) -> (r: Result<(), ()>)
        requires
            old(self).wf(),
        ensures
            final(self).wf(),
            r is Err <==> blocked(old(self).node_view(), location.code),
            r is Err ==> *final(self) == *old(self),
            r is Ok ==> {
                &&& final(self).node_view() == sn_view(
                    old(self).node_view(),
                    location.code,
                    Node::Leaf(t),
                )
                &&& final(self).node_view()[location.code] == Node::Leaf(t)
                &&& final(self).node_view().contains_key(location.code)
                &&& final(self).unsorted_spec() == sn_unsorted(
                    old(self).node_view(),
                    old(self).unsorted_spec(),
                    location.code,
                )
                &&& final(self).unused_spec() == old(self).unused_spec()
            },
    {
        self.set_node(location, Node::Leaf(t))
    }

    /// The size of the subtree laid out from slot `index`: one slot for
    /// the node itself plus the slots of every subtree its mask
    /// announces, cut off where the storage ends.
    fn count_from_index(&self, index: usize) -> (count: usize)
        requires
            self.wf(),
            index < self.nodes_spec().len(),
        ensures
            count == subtree_size(self.nodes_spec(), index as int),
            1 <= count,
            index + count <= self.nodes_spec().len(),
    {
        let ghost s = self.nodes_spec();
        proof {
            lemma_scan_len_le(s, index as int, 1);
        }
        let n = self.storage.len();
        let mut i: usize = index;
        let mut pending: usize = 1;

        while pending > 0 && i < n
            invariant
                n == s.len(),
                s == self.nodes_spec(),
                index <= i <= n,
                pending <= n - i,
                subtree_size(s, index as int) == (i - index) + scan_len(s, i as int, pending as nat),
            decreases n - i,
        {
            let cc: usize;
            match &self.storage[i] {
                Node::Branch(m) => {
                    cc = mask_ones(*m);
                },
                Node::Leaf(_) => {
                    cc = 0;
                },
            }
            let room = n - (i + 1);
            let base = pending - 1;
            proof {
                assert(base <= room);
                lemma_scan_len_le(s, i as int + 1, (base + cc) as nat);
                if base + cc > room {
                    lemma_scan_len_saturated(s, i as int + 1, (base + cc) as nat, room as nat);
                }
            }
            if cc > room - base {
                pending = room;
            } else {
                pending = base + cc;
            }
            i += 1;
        }
        proof {
            assert(scan_len(s, i as int, pending as nat) == 0);
        }
        i - index
    }

    /// The contiguous view of the subtree rooted at `c`, as a sequence:
    /// empty when `c` is not mapped.
    pub open spec fn slice_spec(self, c: u64) -> Seq<Node<V>> {
        if self.map_spec().contains_key(c) {
            self.nodes_spec().subrange(
                self.map_spec()[c] as int,
                self.map_spec()[c] + subtree_size(self.nodes_spec(), self.map_spec()[c] as int),
            )
        } else {
            Seq::empty()
        }
    }

    /// A borrowed view of the whole subtree rooted at `location` in
    /// depth-first order, refused while the location is marked out of
    /// order; an unmapped clean location yields the empty slice.
    pub fn get_slice(&self, location: NodeLocation) -> (r: Option<&[Node<V>]>)
        requires
            self.wf(),
        ensures
            r is Some <==> !self.unsorted_spec().contains(location.code),
            r matches Some(s) ==> s@ == self.slice_spec(location.code),
    {
        if self.unsorted.contains(location.code) {
            return None;
        }
        match self.map.get(location.code) {
            Some(index) => {
                proof {
                    assert(self.map_spec().contains_key(location.code) && self.map_spec()[
                        location.code
                    ] == index);
                }
                let count = self.count_from_index(index);
                let sl = self.storage.len();
                proof {
                    assert(index + count <= sl);
                }
                Some(vstd::slice::slice_subrange(self.storage.as_slice(), index, index + count))
            },
            None => {
                proof {
                    assert(self.slice_spec(location.code) =~= self.nodes_spec().subrange(0, 0));
                }
                Some(vstd::slice::slice_subrange(self.storage.as_slice(), 0, 0))
            },
        }
    }

    /// Law: in a fully sorted octree every mapped location can be
    /// sliced, the slice is as long as the subtree laid out at the
    /// location's slot, and its first element is the stored node itself.
    pub proof fn lemma_clean_slices(self, c: u64)
        requires
            self.wf(),
            self.unsorted_spec() == Set::<u64>::empty(),
            self.map_spec().contains_key(c),
        ensures
            !self.unsorted_spec().contains(c),
            self.slice_spec(c).len() == subtree_size(self.nodes_spec(), self.map_spec()[c] as int),
            self.slice_spec(c).len() >= 1,
            self.slice_spec(c)[0] == self.nodes_spec()[self.map_spec()[c] as int],
    {
        lemma_scan_len_le(self.nodes_spec(), self.map_spec()[c] as int, 1);
    }

    /// Rebuild the storage in the depth-first order of the locations:
    /// every mapped node moves to the slot that is its location's rank,
    /// dead slots are dropped, and the dirty set empties. The mapped
    /// contents are untouched: each location still holds the very node
    /// it held before.
    pub fn sort(&mut self)
        requires
            old(self).wf(),
        ensures
            final(self).wf(),
            final(self).node_view() == old(self).node_view(),
            final(self).nodes_spec().len() == final(self).map_spec().dom().len(),
            forall|c: u64|
                final(self).map_spec().contains_key(c) <==> old(self).map_spec().contains_key(c),
            forall|c1: u64, c2: u64|
                final(self).map_spec().contains_key(c1) && final(self).map_spec().contains_key(c2)
                    && c1 != c2 ==> (crate::order::loc_lt(c1, c2)
                    <==> #[trigger] final(self).map_spec()[c1]
                    < #[trigger] final(self).map_spec()[c2]),
            final(self).unsorted_spec() == Set::<u64>::empty(),
            final(self).unused_spec() == Seq::<usize>::empty(),
            final(self).depth_spec() == old(self).depth_spec(),
    {
        let ghost m0 = old(self).map_spec();
        let ghost s0 = old(self).nodes_spec();
        let mut entries = self.map.take_entries();
        let ghost pre_entries = entries@;
        proof {
            crate::table::lemma_map_of_pairs(pre_entries);
        }
        sort_entries(&mut entries);
        proof {
            crate::table::lemma_map_of_pairs_same_pairs(entries@, pre_entries);
            crate::table::lemma_map_of_pairs(entries@);
        }
        let n = entries.len();
        let mut new_storage: Vec<Node<V>> = Vec::new();
        let mut k: usize = 0;

        while k < n
            invariant
                n == entries@.len(),
                0 <= k <= n,
                crate::table::distinct_keys(entries@),
                crate::table::map_of_pairs(entries@) == m0,
                forall|j: int|
                    0 <= j < n ==> m0.contains_key((#[trigger] entries@[j]).0) && m0[entries@[j].0]
                        == entries@[j].1,
                forall|i1: int, i2: int|
                    0 <= i1 < i2 < n ==> crate::order::loc_lt(
                        (#[trigger] entries@[i1]).0,
                        (#[trigger] entries@[i2]).0,
                    ),
                self.map.inv(),
                forall|j: int|
                    0 <= j < k ==> self.map_spec().contains_key((#[trigger] entries@[j]).0)
                        && self.map_spec()[entries@[j].0] == j,
                forall|c: u64|
                    #[trigger] self.map_spec().contains_key(c) ==> exists|j: int|
                        0 <= j < k && (#[trigger] entries@[j]).0 == c,
                self.nodes_spec().len() == s0.len(),
                forall|j: int|
                    k <= j < n ==> (#[trigger] entries@[j]).1 < s0.len() && self.nodes_spec()[
                        entries@[j].1 as int
                    ] == s0[entries@[j].1 as int],
                new_storage@.len() == k,
                forall|j: int|
                    0 <= j < k ==> #[trigger] new_storage@[j] == s0[entries@[j].1 as int],
                self.depth == old(self).depth,
                self.unsorted == old(self).unsorted,
                self.unused == old(self).unused,
                forall|c1: u64, c2: u64|
                    m0.contains_key(c1) && m0.contains_key(c2) && c1 != c2
                        ==> #[trigger] m0[c1] != #[trigger] m0[c2],
            decreases n - k,
        {
            let ghost head = *self;
            let (code, idx) = entries[k];
            proof {
                assert(m0.contains_key(code) && m0[code] == idx && idx < s0.len());
            }
            let mut moved: Node<V> = Node::Branch(0);
            core::mem::swap(&mut moved, &mut self.storage[idx]);
            new_storage.push(moved);
            self.map.insert(code, k);
            proof {
                assert(self.map_spec() == head.map_spec().insert(code, k));
                assert(self.nodes_spec() == head.nodes_spec().update(idx as int, Node::Branch(0)));
                assert forall|j: int|
                    k + 1 <= j < n implies (#[trigger] entries@[j]).1 < s0.len()
                    && self.nodes_spec()[entries@[j].1 as int] == s0[entries@[j].1 as int] by {
                    assert(entries@[j].0 != code);
                    assert(m0[entries@[j].0] != m0[code]);
                    assert(head.nodes_spec()[entries@[j].1 as int] == s0[entries@[j].1 as int]);
                }
                assert forall|c: u64| #[trigger] self.map_spec().contains_key(c) implies exists|
                    j: int,
                |
                    0 <= j < k + 1 && (#[trigger] entries@[j]).0 == c by {
                    if c == code {
                        assert(entries@[k as int].0 == c);
                    } else {
                        assert(head.map_spec().contains_key(c));
                        let j = choose|j: int| 0 <= j < k && (#[trigger] entries@[j]).0 == c;
                        assert(0 <= j < k + 1 && entries@[j].0 == c);
                    }
                }
                assert forall|j: int|
                    0 <= j < k + 1 implies self.map_spec().contains_key(
                    (#[trigger] entries@[j]).0,
                ) && self.map_spec()[entries@[j].0] == j by {
                    if j < k {
                        assert(entries@[j].0 != code);
                        assert(head.map_spec().contains_key(entries@[j].0)
                            && head.map_spec()[entries@[j].0] == j);
                    }
                }
            }
            k += 1;
        }
        self.storage = new_storage;
        self.unsorted.clear();
        self.unused.clear();
        proof {
            assert forall|c: u64| m0.contains_key(c) implies self.map_spec().contains_key(c) by {
                crate::table::lemma_map_of_pairs(entries@);
                let j = choose|j: int|
                    0 <= j < entries@.len() && (#[trigger] entries@[j]).0 == c && entries@[j].1
                        == m0[c];
            }
            assert forall|c1: u64, c2: u64|
                self.map_spec().contains_key(c1) && self.map_spec().contains_key(c2) && c1
                    != c2 implies (crate::order::loc_lt(c1, c2) <==> #[trigger] self.map_spec()[c1]
                < #[trigger] self.map_spec()[c2]) by {
                let j1 = choose|j: int| 0 <= j < n && (#[trigger] entries@[j]).0 == c1;
                let j2 = choose|j: int| 0 <= j < n && (#[trigger] entries@[j]).0 == c2;
                assert(self.map_spec()[c1] == j1 && self.map_spec()[c2] == j2);
                crate::order::lemma_loc_lt_trichotomy(c1, c2);
            }
            assert forall|c: u64| self.map_spec().contains_key(c) implies old(
                self,
            ).map_spec().contains_key(c) && self.node_view()[c] == old(self).node_view()[c] by {
                let j = choose|j: int| 0 <= j < n && (#[trigger] entries@[j]).0 == c;
                assert(self.map_spec()[c] == j);
                assert(self.nodes_spec()[j] == s0[entries@[j].1 as int]);
                assert(m0[c] == entries@[j].1);
            }
            assert(self.map_spec().dom() =~= old(self).map_spec().dom());
            assert(self.node_view() =~= old(self).node_view());
            assert(old(self).map_spec().dom().len() == n);
        }
    }

    /// Materialize the subtree rooted at `location` as an independent
    /// octree of its own: the nodes are cloned in depth-first order and
    /// the new octree is born fully sorted. Refused while the location
    /// is dirty, and absent when it is not mapped.
    /// Insert a whole pre-built octree at `location`: the subtree's
    /// nodes are placed as one contiguous run (over the old run when it
    /// fits and the slots are free, else at the end of the storage), the
    /// lookup entries of whatever subtree was stored there give way to
    /// the new ones, the replaced slots wait on the dead list for the
    /// next sort, and the ancestors of `location` are marked out of
    /// order. Fails without any change when the combined depth cannot
    /// fit a 64-bit code.
    pub fn insert_subtree(&mut self, subtree: SparseOctree<V>, location: NodeLocation) -> (r:
        Result<(), ()>)
        requires
            old(self).wf(),
            subtree.wf(),
        ensures
            final(self).wf(),
            r is Err <==> depth_of(location.code) + subtree.depth_spec() > 21,
            r is Err ==> *final(self) == *old(self),
            r is Ok ==> exists|base: int|
                {
                    &&& 0 <= base
                    &&& base + subtree.nodes_spec().len() <= final(self).nodes_spec().len()
                    &&& final(self).map_spec() == crate::lookup::with_walk_entries(
                        crate::lookup::without_walk_entries(
                            old(self).map_spec(),
                            replaced_walk(old(self).map_spec(), old(self).nodes_spec(), location.code),
                        ),
                        crate::lookup::walk_from(subtree.nodes_spec(), location.code),
                        base,
                    )
                    &&& forall|k2: int|
                        0 <= k2 < subtree.nodes_spec().len()
                            ==> #[trigger] final(self).nodes_spec()[base + k2]
                            == subtree.nodes_spec()[k2]
                },
            r is Ok ==> final(self).unsorted_spec() == marked(
                old(self).unsorted_spec(),
                location.code,
            ),
            r is Ok ==> old(self).depth_spec() <= final(self).depth_spec() <= 21,
    {
        let SparseOctree {
            storage: mut sub_storage,
            map: _sub_map,
            depth: sub_depth,
            unsorted: _sub_unsorted,
            unused: _sub_unused,
        } = subtree;
        let d_loc = location.depth();
        if d_loc + sub_depth > 21 {
            return Err(());
        }
        let ghost m_pre = self.map_spec();
        let ghost s_pre = self.nodes_spec();
        let ghost sub0 = sub_storage@;
        let ghost added = crate::lookup::walk_from(sub0, location.code);

        let new_entries = crate::lookup::walk_slice(sub_storage.as_slice(), location);
        proof {
            crate::lookup::lemma_walk_indices(sub0, 0, seq![location.code]);
        }
        let new_len = sub_storage.len();

        let mut mapped = false;
        let mut idx: usize = 0;
        let mut cnt: usize = 0;
        let ghost mut removed: Seq<(u64, int)> = Seq::empty();
        match self.map.get(location.code) {
            Some(i) => {
                mapped = true;
                idx = i;
                proof {
                    assert(self.map_spec().contains_key(location.code) && self.map_spec()[
                        location.code
                    ] == idx);
                }
                cnt = self.count_from_index(idx);
                let sle = self.storage.len();
                proof {
                    assert(idx + cnt <= sle);
                    removed = crate::lookup::walk_from(
                        s_pre.subrange(idx as int, idx + cnt),
                        location.code,
                    );
                    crate::lookup::lemma_walk_indices(
                        s_pre.subrange(idx as int, idx + cnt),
                        0,
                        seq![location.code],
                    );
                }
                let old_entries = crate::lookup::walk_slice(
                    vstd::slice::slice_subrange(self.storage.as_slice(), idx, idx + cnt),
                    location,
                );
                crate::lookup::remove_walk_entries(&old_entries, &mut self.map);
                proof {
                    assert(old_entries@.map_values(
                        |e: (NodeLocation, usize)| (e.0.code, e.1 as int),
                    ) =~= removed);
                }
            },
            None => {
            },
        }
        let ghost m_removed = self.map_spec();
        proof {
            assert(m_removed == crate::lookup::without_walk_entries(m_pre, removed));
            crate::lookup::lemma_without_walk_entries_facts(m_pre, removed);
        }

        let base: usize;
        let sl0 = self.storage.len();
        let ghost mut clear_range = false;
        if mapped && new_len <= cnt && !self.map.any_value_in(idx, idx + new_len) {
            proof {
                clear_range = true;
            }
            base = idx;
            let ghost mid = *self;
            let mut slot: usize = idx;
            let mut k: usize = 0;
            while k < new_len
                invariant
                    0 <= k <= new_len,
                    slot == idx + k,
                    new_len == sub0.len(),
                    idx + new_len <= sl0,
                    sub_storage@.len() == sub0.len(),
                    self.nodes_spec().len() == sl0,
                    sl0 == mid.nodes_spec().len(),
                    forall|j: int| k <= j < new_len ==> #[trigger] sub_storage@[j] == sub0[j],
                    forall|j: int|
                        0 <= j < k ==> #[trigger] self.nodes_spec()[idx + j] == sub0[j],
                    self.map == mid.map,
                    self.depth == mid.depth,
                    self.unsorted == mid.unsorted,
                    self.unused == mid.unused,
                decreases new_len - k,
            {
                let mut node: Node<V> = Node::Branch(0);
                core::mem::swap(&mut node, &mut sub_storage[k]);
                self.storage[slot] = node;
                slot += 1;
                k += 1;
            }
            // The tail of the replaced run is dead until the next sort.
            let end_new = idx + new_len;
            let end_old = idx + cnt;
            let ghost mid2 = *self;
            let mut u: usize = end_new;
            while u < end_old
                invariant
                    end_new <= u <= end_old || u == end_new,
                    self.storage == mid2.storage,
                    self.map == mid2.map,
                    self.depth == mid2.depth,
                    self.unsorted == mid2.unsorted,
                decreases end_old - u,
            {
                self.unused.push(u);
                u += 1;
            }
        } else {
            base = self.storage.len();
            self.storage.append(&mut sub_storage);
            if mapped {
                // The whole replaced run is dead until the next sort.
                let end_old = idx + cnt;
                let ghost mid2 = *self;
                let mut u: usize = idx;
                while u < end_old
                    invariant
                        idx <= u <= end_old || u == idx,
                        self.storage == mid2.storage,
                        self.map == mid2.map,
                        self.depth == mid2.depth,
                        self.unsorted == mid2.unsorted,
                    decreases end_old - u,
                {
                    self.unused.push(u);
                    u += 1;
                }
            }
        }
        let total = self.storage.len();
        proof {
            assert(base + new_len <= total);
            assert(self.map_spec() == m_removed);
            assert(forall|j: int|
                0 <= j < new_len ==> #[trigger] self.nodes_spec()[base + j] == sub0[j]);
        }
        crate::lookup::insert_walk_entries(&new_entries, base, new_len, &mut self.map);
        proof {
            assert(new_entries@.map_values(|e: (NodeLocation, usize)| (e.0.code, e.1 as int))
                =~= added);
            assert(self.map_spec() == crate::lookup::with_walk_entries(
                m_removed,
                added,
                base as int,
            ));
        }

        let mut maxd: u32 = 0;
        let en = new_entries.len();
        let mut j: usize = 0;
        while j < en
            invariant
                en == new_entries@.len(),
                0 <= j <= en,
                maxd <= 21,
                forall|i: int|
                    0 <= i < j ==> depth_of((#[trigger] new_entries@[i]).0.code) <= maxd,
            decreases en - j,
        {
            let d = new_entries[j].0.depth();
            if d > maxd {
                maxd = d;
            }
            proof {
                assert(depth_of(new_entries@[j as int].0.code) <= maxd);
            }
            j += 1;
        }
        if maxd > self.depth {
            self.depth = maxd;
        }

        proof {
            crate::lookup::lemma_with_walk_entries_general(m_removed, added, base as int);
            assert forall|c: u64| #[trigger] self.map_spec().contains_key(c) implies
                self.map_spec()[c] < self.nodes_spec().len() && depth_of(c)
                <= self.depth_spec() by {
                if crate::lookup::walk_has(added, c) {
                    let j2 = choose|j2: int|
                        0 <= j2 < added.len() && (#[trigger] added[j2]).0 == c && self.map_spec()[c]
                            == base + j2;
                    assert(new_entries@[j2].0.code == c);
                    assert(depth_of(c) <= maxd);
                } else {
                    assert(self.map_spec()[c] == m_removed[c]);
                    assert(m_removed[c] == m_pre[c]);
                    assert(m_pre.contains_key(c));
                }
            }
            assert forall|c1: u64, c2: u64|
                self.map_spec().contains_key(c1) && self.map_spec().contains_key(c2) && c1
                    != c2 implies #[trigger] self.map_spec()[c1] != #[trigger] self.map_spec()[
                c2
            ] by {
                if crate::lookup::walk_has(added, c1) && crate::lookup::walk_has(added, c2) {
                    let j1 = choose|j1: int|
                        0 <= j1 < added.len() && (#[trigger] added[j1]).0 == c1
                            && self.map_spec()[c1] == base + j1;
                    let j2 = choose|j2: int|
                        0 <= j2 < added.len() && (#[trigger] added[j2]).0 == c2
                            && self.map_spec()[c2] == base + j2;
                } else if crate::lookup::walk_has(added, c1) {
                    let j1 = choose|j1: int|
                        0 <= j1 < added.len() && (#[trigger] added[j1]).0 == c1
                            && self.map_spec()[c1] == base + j1;
                    assert(self.map_spec()[c2] == m_pre[c2] && m_pre.contains_key(c2));
                    if clear_range {
                        assert(!(idx <= m_removed[c2] < idx + new_len));
                    }
                } else if crate::lookup::walk_has(added, c2) {
                    let j2 = choose|j2: int|
                        0 <= j2 < added.len() && (#[trigger] added[j2]).0 == c2
                            && self.map_spec()[c2] == base + j2;
                    assert(self.map_spec()[c1] == m_pre[c1] && m_pre.contains_key(c1));
                    if clear_range {
                        assert(!(idx <= m_removed[c1] < idx + new_len));
                    }
                } else {
                    assert(self.map_spec()[c1] == m_pre[c1] && m_pre.contains_key(c1));
                    assert(self.map_spec()[c2] == m_pre[c2] && m_pre.contains_key(c2));
                }
            }
        }

        self.set_ancestors_unsorted(location);
        proof {
            let basei = base as int;
            let removed_post = replaced_walk(
                old(self).map_spec(),
                old(self).nodes_spec(),
                location.code,
            );
            assert(removed_post == removed);
            assert(crate::lookup::walk_from(subtree.nodes_spec(), location.code) == added);
            assert(self.map_spec() == crate::lookup::with_walk_entries(
                crate::lookup::without_walk_entries(old(self).map_spec(), removed_post),
                crate::lookup::walk_from(subtree.nodes_spec(), location.code),
                basei,
            ));
            assert(0 <= basei && basei + subtree.nodes_spec().len() <= self.nodes_spec().len());
            assert(forall|k2: int|
                0 <= k2 < subtree.nodes_spec().len() ==> #[trigger] self.nodes_spec()[basei + k2]
                    == subtree.nodes_spec()[k2]);
            assert(exists|b: int|
                {
                    &&& 0 <= b
                    &&& b + subtree.nodes_spec().len() <= self.nodes_spec().len()
                    &&& self.map_spec() == crate::lookup::with_walk_entries(
                        crate::lookup::without_walk_entries(old(self).map_spec(), removed_post),
                        crate::lookup::walk_from(subtree.nodes_spec(), location.code),
                        b,
                    )
                    &&& forall|k2: int|
                        0 <= k2 < subtree.nodes_spec().len()
                            ==> #[trigger] self.nodes_spec()[b + k2] == subtree.nodes_spec()[k2]
                });
        }
        Ok(())
    }

    pub fn clone_subtree(&self, location: NodeLocation) -> (r: Option<SparseOctree<V>>)
        requires
            self.wf(),
        ensures
            r is Some <==> !self.unsorted_spec().contains(location.code)
                && self.map_spec().contains_key(location.code),
            r matches Some(o) ==> {
                &&& o.wf()
                &&& o.nodes_spec().len() == subtree_size(
                    self.nodes_spec(),
                    self.map_spec()[location.code] as int,
                )
                &&& forall|k: int|
                    0 <= k < o.nodes_spec().len() ==> node_cloned(
                        self.nodes_spec()[self.map_spec()[location.code] + k],
                        #[trigger] o.nodes_spec()[k],
                    )
                &&& o.map_spec() == crate::lookup::with_walk_entries(
                    Map::<u64, usize>::empty(),
                    crate::lookup::walk_from(o.nodes_spec(), 1),
                    0,
                )
                &&& o.unsorted_spec() == Set::<u64>::empty()
                &&& o.unused_spec() == Seq::<usize>::empty()
            },
    {
        if self.unsorted.contains(location.code) {
            return None;
        }
        let index: usize;
        match self.map.get(location.code) {
            Some(i) => {
                index = i;
            },
            None => {
                return None;
            },
        }
        proof {
            assert(self.map_spec().contains_key(location.code) && self.map_spec()[location.code]
                == index);
        }
        let count = self.count_from_index(index);
        let sl = self.storage.len();

        let end = index + count;
        let mut storage: Vec<Node<V>> = Vec::new();
        let mut slot: usize = index;
        while slot < end
            invariant
                index <= slot <= end,
                sl == self.nodes_spec().len(),
                end <= sl,
                end == index + count,
                storage@.len() == slot - index,
                forall|j: int|
                    0 <= j < slot - index ==> node_cloned(
                        self.nodes_spec()[index + j],
                        #[trigger] storage@[j],
                    ),
            decreases end - slot,
        {
            storage.push(self.storage[slot].clone());
            slot += 1;
        }

        let entries = crate::lookup::walk_slice(storage.as_slice(), NodeLocation::new_root());
        let mut lookup = LookupTable::new();
        proof {
            crate::lookup::lemma_walk_indices(storage@, 0, seq![1u64]);
        }
        crate::lookup::insert_walk_entries(&entries, 0, storage.len(), &mut lookup);
        proof {
            assert(entries@.map_values(|e: (NodeLocation, usize)| (e.0.code, e.1 as int))
                =~= crate::lookup::walk_from(storage@, 1));
        }

        let mut depth: u32 = 0;
        let n = entries.len();
        let mut j: usize = 0;
        while j < n
            invariant
                n == entries@.len(),
                0 <= j <= n,
                depth <= 21,
                forall|i: int|
                    0 <= i < j ==> depth_of((#[trigger] entries@[i]).0.code) <= depth,
            decreases n - j,
        {
            let d = entries[j].0.depth();
            if d > depth {
                depth = d;
            }
            proof {
                assert(depth_of(entries@[j as int].0.code) <= depth);
            }
            j += 1;
        }

        let r = SparseOctree::<V> {
            storage,
            map: lookup,
            depth,
            unsorted: LocationSet::new(),
            unused: Vec::new(),
        };
        proof {
            let es = crate::lookup::walk_from(r.nodes_spec(), 1);
            crate::lookup::lemma_walk_indices(r.nodes_spec(), 0, seq![1u64]);
            crate::lookup::lemma_with_walk_entries_facts(es, 0);
            assert forall|c: u64| #[trigger] r.map_spec().contains_key(c) implies r.map_spec()[c]
                < r.nodes_spec().len() && depth_of(c) <= r.depth_spec() by {
                let j2 = choose|j2: int|
                    0 <= j2 < es.len() && (#[trigger] es[j2]).0 == c && r.map_spec()[c] == 0 + es[j2].1;
                assert(entries@[j2].0.code == c);
            }
            assert forall|c1: u64, c2: u64|
                r.map_spec().contains_key(c1) && r.map_spec().contains_key(c2) && c1
                    != c2 implies #[trigger] r.map_spec()[c1] != #[trigger] r.map_spec()[c2] by {
                let j1 = choose|j1: int|
                    0 <= j1 < es.len() && (#[trigger] es[j1]).0 == c1 && r.map_spec()[c1] == 0 + es[j1].1;
                let j2 = choose|j2: int|
                    0 <= j2 < es.len() && (#[trigger] es[j2]).0 == c2 && r.map_spec()[c2] == 0 + es[j2].1;
            }
        }
        Some(r)
    }
}

/// How many bits of a branch mask are set.
fn mask_ones(m: u8) -> (r: usize)
    ensures
        r == mask_count(m),
        r <= 8,
{
    let mut k: usize = 0;
    let mut r: usize = 0;
    while k < 8
        invariant
            0 <= k <= 8,
            r == mask_count_below(m, k as nat),
            r <= k,
        decreases 8 - k,
    {
        if (m >> (k as u8)) & 1 == 1 {
            r += 1;
        }
        k += 1;
    }
    r
}

/// Swapping two slots keeps the keys distinct and keeps exactly the
/// same collection of pairs.
proof fn lemma_swap_pairs(s: Seq<(u64, usize)>, a: int, b: int)
    requires
        0 <= a < s.len(),
        0 <= b < s.len(),
    ensures
        ({
            let t = s.update(a, s[b]).update(b, s[a]);
            &&& t.len() == s.len()
            &&& (crate::table::distinct_keys(s) ==> crate::table::distinct_keys(t))
            &&& t.to_multiset() == s.to_multiset()
        }),
{
    broadcast use vstd::multiset::group_multiset_axioms;

    let t = s.update(a, s[b]).update(b, s[a]);
    let s1 = s.update(a, s[b]);
    vstd::seq_lib::to_multiset_update(s, a, s[b]);
    vstd::seq_lib::to_multiset_update(s1, b, s[a]);
    if a == b {
        assert(t =~= s.update(b, s[b]));
        vstd::seq_lib::to_multiset_update(s, b, s[b]);
        assert(t.to_multiset() =~= s.to_multiset());
    } else {
        assert(s1[b] == s[b]);
        vstd::seq_lib::to_multiset_contains(s, s[a]);
        vstd::seq_lib::to_multiset_contains(s, s[b]);
        vstd::seq_lib::to_multiset_contains(s1, s[b]);
        assert(s.contains(s[a]));
        assert(s.contains(s[b]));
        assert(s1.contains(s1[b]));
        assert(t.to_multiset() =~= s.to_multiset());
        if crate::table::distinct_keys(s) {
            assert forall|i1: int, i2: int| 0 <= i1 < i2 < t.len() implies (#[trigger] t[i1]).0
                != (#[trigger] t[i2]).0 by {
                let s1i = if i1 == a {
                    b
                } else if i1 == b {
                    a
                } else {
                    i1
                };
                let s2i = if i2 == a {
                    b
                } else if i2 == b {
                    a
                } else {
                    i2
                };
                assert(t[i1] == s[s1i] && t[i2] == s[s2i]);
            }
        }
    }
}

/// Sort the drained lookup pairs by the depth-first order of their
/// location codes. Keys stay pairwise distinct and exactly the same
/// pairs come back out.
fn sort_entries(entries: &mut Vec<(u64, usize)>)
    requires
        crate::table::distinct_keys(old(entries)@),
    ensures
        final(entries)@.len() == old(entries)@.len(),
        crate::table::distinct_keys(final(entries)@),
        forall|i1: int, i2: int|
            0 <= i1 < i2 < final(entries)@.len() ==> crate::order::loc_lt(
                (#[trigger] final(entries)@[i1]).0,
                (#[trigger] final(entries)@[i2]).0,
            ),
        final(entries)@.to_multiset() == old(entries)@.to_multiset(),
{
    let n = entries.len();
    if n == 0 {
        return ;
    }
    let mut k: usize = 1;
    while k < n
        invariant
            n == entries@.len(),
            1 <= k <= n,
            crate::table::distinct_keys(entries@),
            forall|i1: int, i2: int|
                0 <= i1 < i2 < k ==> crate::order::loc_lt(
                    (#[trigger] entries@[i1]).0,
                    (#[trigger] entries@[i2]).0,
                ),
            entries@.to_multiset() == old(entries)@.to_multiset(),
        decreases n - k,
    {
        let mut j: usize = k;
        loop
            invariant_except_break
                n == entries@.len(),
                0 <= j <= k < n,
                crate::table::distinct_keys(entries@),
                forall|a: int, b: int|
                    0 <= a < b <= k && a != j && b != j ==> crate::order::loc_lt(
                        (#[trigger] entries@[a]).0,
                        (#[trigger] entries@[b]).0,
                    ),
                forall|b: int|
                    j < b <= k ==> crate::order::loc_lt(
                        (#[trigger] entries@[j as int]).0,
                        (#[trigger] entries@[b]).0,
                    ),
                entries@.to_multiset() == old(entries)@.to_multiset(),
            ensures
                n == entries@.len(),
                crate::table::distinct_keys(entries@),
                forall|a: int, b: int|
                    0 <= a < b <= k ==> crate::order::loc_lt(
                        (#[trigger] entries@[a]).0,
                        (#[trigger] entries@[b]).0,
                    ),
                entries@.to_multiset() == old(entries)@.to_multiset(),
            decreases j,
        {
            if j == 0 {
                proof {
                    assert forall|a: int, b: int| 0 <= a < b <= k implies crate::order::loc_lt(
                        (#[trigger] entries@[a]).0,
                        (#[trigger] entries@[b]).0,
                    ) by {
                        if a == 0 {
                            assert(crate::order::loc_lt(entries@[0].0, entries@[b].0));
                        }
                    }
                }
                break ;
            }
            let lo = entries[j - 1];
            let hi = entries[j];
            if crate::order::code_lt(hi.0, lo.0) {
                let ghost pre = entries@;
                entries[j - 1] = hi;
                entries[j] = lo;
                proof {
                    lemma_swap_pairs(pre, j - 1, j as int);
                    assert(entries@ =~= pre.update(j - 1, pre[j as int]).update(
                        j as int,
                        pre[j - 1],
                    ));
                    assert forall|b: int| j - 1 < b <= k implies crate::order::loc_lt(
                        (#[trigger] entries@[j - 1]).0,
                        (#[trigger] entries@[b]).0,
                    ) by {
                        if b != j {
                            assert(entries@[b] == pre[b]);
                        }
                    }
                }
                j -= 1;
            } else {
                proof {
                    crate::order::lemma_loc_lt_trichotomy(
                        entries@[j as int].0,
                        entries@[j - 1].0,
                    );
                    assert forall|a: int, b: int| 0 <= a < b <= k implies crate::order::loc_lt(
                        (#[trigger] entries@[a]).0,
                        (#[trigger] entries@[b]).0,
                    ) by {
                        if b == j as int && a < j - 1 {
                            assert(crate::order::loc_lt(entries@[a].0, entries@[j - 1].0));
                            crate::order::lemma_loc_lt_transitive(
                                entries@[a].0,
                                entries@[j - 1].0,
                                entries@[j as int].0,
                            );
                        }
                    }
                }
                break ;
            }
        }
        k += 1;
    }
}

} // verus!
