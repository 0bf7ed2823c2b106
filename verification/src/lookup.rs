use vstd::prelude::*;

use crate::child_id::ChildId;
use crate::node_location::NodeLocation;
use crate::node_location::depth_of;
use crate::sparse_octree::Node;
use crate::sparse_octree::child_count;
use crate::table::LookupTable;

verus! {

/// How far a depth-first scan starting at slot `i` with `pending` open
/// subtrees runs: each node closes one pending subtree and opens one per
/// announced child; the scan ends when nothing is pending or the slice
/// runs out.
pub open spec fn scan_len<V>(s: Seq<Node<V>>, i: int, pending: nat) -> nat
    decreases s.len() - i,
{
    if pending == 0 || i < 0 || i >= s.len() {
        0
    } else {
        1 + scan_len(s, i + 1, (pending - 1 + child_count(s[i])) as nat)
    }
}

/// The number of slots the subtree laid out from slot `i` occupies.
pub open spec fn subtree_size<V>(s: Seq<Node<V>>, i: int) -> nat {
    scan_len(s, i, 1)
}

/// A scan never runs past the end of the slice.
pub proof fn lemma_scan_len_le<V>(s: Seq<Node<V>>, i: int, pending: nat)
    requires
        0 <= i <= s.len(),
    ensures
        scan_len(s, i, pending) <= s.len() - i,
    decreases s.len() - i,
{
    if pending != 0 && i < s.len() {
        lemma_scan_len_le(s, i + 1, (pending - 1 + child_count(s[i])) as nat);
    }
}

/// Once at least the whole remainder of the slice is pending, more
/// pending subtrees change nothing: the scan takes everything.
pub proof fn lemma_scan_len_saturated<V>(s: Seq<Node<V>>, i: int, p1: nat, p2: nat)
    requires
        0 <= i <= s.len(),
        p1 >= s.len() - i,
        p2 >= s.len() - i,
    ensures
        scan_len(s, i, p1) == scan_len(s, i, p2),
    decreases s.len() - i,
{
    if p1 != 0 && p2 != 0 && i < s.len() {
        lemma_scan_len_saturated(
            s,
            i + 1,
            (p1 - 1 + child_count(s[i])) as nat,
            (p2 - 1 + child_count(s[i])) as nat,
        );
    }
}

/// The child locations a visited node pushes for the octant bits below
/// `k`, highest bit first, so that the lowest octant is walked first.
/// A child past the greatest depth cannot be named and is skipped.
pub open spec fn stack_children(c: u64, m: u8, k: nat) -> Seq<u64>
    decreases k,
{
    if k == 0 {
        Seq::empty()
    } else {
        (if (m >> ((k - 1) as u8)) & 1 == 1 && depth_of(c) < 21 {
            seq![(c << 3) | ((k - 1) as u64)]
        } else {
            Seq::empty()
        }) + stack_children(c, m, (k - 1) as nat)
    }
}

/// What visiting one node adds to the walk's stack.
pub open spec fn node_pushes<V>(c: u64, n: Node<V>) -> Seq<u64> {
    match n {
        Node::Branch(m) => stack_children(c, m, 8),
        Node::Leaf(_) => Seq::empty(),
    }
}

/// The depth-first walk over a contiguous slice: visit the location on
/// top of the stack at slot `i`, push its children, move to slot `i + 1`.
/// Yields each visited location with the slot it was read from.
pub open spec fn walk<V>(s: Seq<Node<V>>, i: int, stack: Seq<u64>) -> Seq<(u64, int)>
    decreases s.len() - i,
{
    if stack.len() == 0 || i < 0 || i >= s.len() {
        Seq::empty()
    } else {
        seq![(stack.last(), i)] + walk(s, i + 1, stack.drop_last() + node_pushes(stack.last(), s[i]))
    }
}

/// The walk of a slice whose first slot is the subtree root at `root`.
pub open spec fn walk_from<V>(s: Seq<Node<V>>, root: u64) -> Seq<(u64, int)> {
    walk(s, 0, seq![root])
}

/// A walk visits consecutive slots and never leaves the slice.
pub proof fn lemma_walk_indices<V>(s: Seq<Node<V>>, i: int, stack: Seq<u64>)
    requires
        0 <= i <= s.len(),
    ensures
        walk(s, i, stack).len() <= s.len() - i,
        forall|k: int|
            0 <= k < walk(s, i, stack).len() ==> (#[trigger] walk(s, i, stack)[k]).1 == i + k,
    decreases s.len() - i,
{
    if stack.len() != 0 && i < s.len() {
        lemma_walk_indices(s, i + 1, stack.drop_last() + node_pushes(stack.last(), s[i]));
    }
}

/// The locations a stack of `NodeLocation` values holds, as raw codes.
pub open spec fn stack_codes(st: Seq<NodeLocation>) -> Seq<u64> {
    st.map_values(|l: NodeLocation| l.code)
}

/// Walk the subtree stored in `nodes` as if its first slot sat at
/// `start`, yielding every visited location with its slot. Slot `k` of
/// the result is the `k`-th visited node.
pub fn walk_slice<V>(nodes: &[Node<V>], start: NodeLocation) -> (r: Vec<(NodeLocation, usize)>)
    ensures
        r@.len() == walk_from(nodes@, start.code).len(),
        forall|k: int|
            0 <= k < r@.len() ==> {
                &&& (#[trigger] r@[k]).0.code == walk_from(nodes@, start.code)[k].0
                &&& r@[k].1 == k
            },
{
    let ghost full = walk_from(nodes@, start.code);
    proof {
        lemma_walk_indices(nodes@, 0, seq![start.code]);
    }
    let mut out: Vec<(NodeLocation, usize)> = Vec::new();
    let mut stack: Vec<NodeLocation> = Vec::new();
    stack.push(start);
    proof {
        assert(stack_codes(stack@) =~= seq![start.code]);
    }
    let mut i: usize = 0;

    while i < nodes.len() && stack.len() > 0
        invariant
            i <= nodes@.len(),
            i <= full.len(),
            out@.len() == i,
            full == walk_from(nodes@, start.code),
            walk(nodes@, i as int, stack_codes(stack@)) == full.skip(i as int),
            full.len() <= nodes@.len(),
            forall|k: int|
                0 <= k < i ==> (#[trigger] out@[k]).0.code == full[k].0 && out@[k].1 == k,
        decreases nodes@.len() - i,
    {
        let ghost pre = stack@;
        let loc = stack.pop().unwrap();
        let ghost codes_before = stack_codes(stack@).push(loc.code);
        proof {
            assert(stack@ =~= pre.drop_last());
            assert(stack_codes(pre) =~= codes_before);
            assert(codes_before.last() == loc.code);
            assert(codes_before.drop_last() =~= stack_codes(stack@));
            assert(full.skip(i as int) == walk(nodes@, i as int, codes_before));
            assert(full.skip(i as int).len() > 0);
            vstd::seq_lib::lemma_seq_skip_len(full, i as int);
            assert(i < full.len());
            assert(walk(nodes@, i as int, codes_before)[0] == (codes_before.last(), i as int));
            vstd::seq_lib::lemma_seq_skip_index(full, i as int, 0);
            assert(full.skip(i as int)[0] == full[i as int]);
            assert(full[i as int] == (loc.code, i as int));
            lemma_walk_indices(nodes@, i as int, codes_before);
        }
        out.push((loc, i));

        match &nodes[i] {
            Node::Leaf(_) => {
                proof {
                    assert(node_pushes(loc.code, nodes@[i as int]) =~= Seq::<u64>::empty());
                    assert(stack_codes(stack@) =~= codes_before.drop_last() + node_pushes(
                        loc.code,
                        nodes@[i as int],
                    ));
                }
            },
            Node::Branch(m) => {
                let mask = *m;
                let ghost base = stack_codes(stack@);
                let mut kk: usize = 0;
                while kk < 8
                    invariant
                        kk <= 8,
                        stack_codes(stack@) + stack_children(loc.code, mask, (8 - kk) as nat)
                            =~= base + stack_children(loc.code, mask, 8),
                    decreases 8 - kk,
                {
                    let bit: u64 = (7 - kk) as u64;
                    proof {
                        assert(stack_children(loc.code, mask, ((8 - kk) as nat)) == (if (mask >> (
                        (7 - kk) as u8)) & 1 == 1 && depth_of(loc.code) < 21 {
                            seq![(loc.code << 3) | ((7 - kk) as u64)]
                        } else {
                            Seq::<u64>::empty()
                        }) + stack_children(loc.code, mask, (7 - kk) as nat));
                    }
                    if (mask >> (bit as u8)) & 1 == 1 {
                        match loc.child(ChildId::from(bit)) {
                            Some(ch) => {
                                proof {
                                    assert(bit & 7 == bit) by (bit_vector)
                                        requires
                                            bit < 8u64,
                                    ;
                                    crate::child_id::lemma_child_id_of_low(bit, bit);
                                    assert(ch.code == (loc.code << 3) | bit);
                                }
                                let ghost st0 = stack_codes(stack@);
                                stack.push(ch);
                                proof {
                                    assert(stack_codes(stack@) =~= st0.push(ch.code));
                                    assert(stack_codes(stack@) + stack_children(
                                        loc.code,
                                        mask,
                                        (7 - kk) as nat,
                                    ) =~= st0 + stack_children(loc.code, mask, (8 - kk) as nat));
                                }
                            },
                            None => {
                                proof {
                                    assert(stack_children(loc.code, mask, ((8 - kk) as nat))
                                        =~= stack_children(loc.code, mask, (7 - kk) as nat));
                                }
                            },
                        }
                    } else {
                        proof {
                            assert(stack_children(loc.code, mask, ((8 - kk) as nat))
                                =~= stack_children(loc.code, mask, (7 - kk) as nat));
                        }
                    }
                    kk += 1;
                }
                proof {
                    assert(stack_children(loc.code, mask, 0) =~= Seq::<u64>::empty());
                    assert(stack_codes(stack@) =~= base + stack_children(loc.code, mask, 8));
                    assert(stack_codes(stack@) =~= codes_before.drop_last() + node_pushes(
                        loc.code,
                        nodes@[i as int],
                    ));
                }
            },
        }
        proof {
            assert(walk(nodes@, i as int + 1, stack_codes(stack@)) =~= full.skip(i as int).skip(
                1,
            ));
            vstd::seq_lib::lemma_seq_skip_of_skip(full, i as int, 1);
        }
        i += 1;
    }
    proof {
        if stack@.len() == 0 {
            assert(stack_codes(stack@).len() == 0);
            assert(walk(nodes@, i as int, stack_codes(stack@)) =~= Seq::<(u64, int)>::empty());
        } else {
            assert(i == nodes@.len());
            assert(walk(nodes@, i as int, stack_codes(stack@)) =~= Seq::<(u64, int)>::empty());
        }
        assert(full.skip(i as int).len() == 0);
        assert(full.len() == i);
    }
    out
}

/// The visits of a whole storage slice, starting from the root.
pub fn for_each_continuous_node<V>(nodes: &[Node<V>]) -> (r: Vec<(NodeLocation, usize)>)
    ensures
        r@.len() == walk_from(nodes@, 1).len(),
        forall|k: int|
            0 <= k < r@.len() ==> {
                &&& (#[trigger] r@[k]).0.code == walk_from(nodes@, 1)[k].0
                &&& r@[k].1 == k
            },
{
    walk_slice(nodes, NodeLocation::new_root())
}

/// `m` with one entry added per walk visit, keyed by the visited
/// location, valued by `base` plus the visited slot.
pub open spec fn with_walk_entries(
    m: Map<u64, usize>,
    es: Seq<(u64, int)>,
    base: int,
) -> Map<u64, usize>
    decreases es.len(),
{
    if es.len() == 0 {
        m
    } else {
        with_walk_entries(m, es.drop_last(), base).insert(
            es.last().0,
            (base + es.last().1) as usize,
        )
    }
}

/// `m` with the entry of every walk visit removed.
pub open spec fn without_walk_entries(m: Map<u64, usize>, es: Seq<(u64, int)>) -> Map<u64, usize>
    decreases es.len(),
{
    if es.len() == 0 {
        m
    } else {
        without_walk_entries(m, es.drop_last()).remove(es.last().0)
    }
}

/// Map every node of the subtree stored in `nodes` to its slot within
/// the slice, under the location it has when the slice is rooted at
/// `location`.
pub fn gen_lookup<V>(location: NodeLocation, nodes: &[Node<V>], lookup: &mut LookupTable)
    requires
        old(lookup).inv(),
    ensures
        final(lookup).inv(),
        final(lookup)@ == with_walk_entries(
            old(lookup)@,
            walk_from(nodes@, location.code),
            0,
        ),
{
    let entries = walk_slice(nodes, location);
    proof {
        lemma_walk_indices(nodes@, 0, seq![location.code]);
    }
    insert_walk_entries(&entries, 0, nodes.len(), lookup);
    proof {
        assert(entries@.map_values(|e: (NodeLocation, usize)| (e.0.code, e.1 as int)) =~= walk_from(
            nodes@,
            location.code,
        ));
    }
}

/// Remove the lookup entry of every node of the subtree stored in
/// `nodes`, as located when the slice is rooted at `location`.
pub fn remove_lookup<V>(location: NodeLocation, nodes: &[Node<V>], lookup: &mut LookupTable)
    requires
        old(lookup).inv(),
    ensures
        final(lookup).inv(),
        final(lookup)@ == without_walk_entries(old(lookup)@, walk_from(nodes@, location.code)),
{
    let ghost full = walk_from(nodes@, location.code);
    let entries = walk_slice(nodes, location);
    let n = entries.len();
    let mut k: usize = 0;
    while k < n
        invariant
            n == entries@.len(),
            0 <= k <= n,
            n == full.len(),
            forall|j: int|
                0 <= j < n ==> (#[trigger] entries@[j]).0.code == full[j].0 && entries@[j].1 == j,
            lookup.inv(),
            lookup@ == without_walk_entries(old(lookup)@, full.take(k as int)),
        decreases n - k,
    {
        proof {
            assert(full.take(k as int + 1).drop_last() =~= full.take(k as int));
        }
        lookup.remove(entries[k].0.code);
        k += 1;
    }
    proof {
        assert(full.take(n as int) =~= full);
    }
}

/// Whether some walk visit is keyed by `c`.
pub open spec fn walk_has(es: Seq<(u64, int)>, c: u64) -> bool {
    exists|j: int| 0 <= j < es.len() && (#[trigger] es[j]).0 == c
}

/// What adding walk entries to an arbitrary table holds: exactly the
/// old keys plus the visited locations; a visited location gets `base`
/// plus one of its visits' slots, an unvisited key keeps its value.
pub proof fn lemma_with_walk_entries_general(m: Map<u64, usize>, es: Seq<(u64, int)>, base: int)
    requires
        forall|j: int| 0 <= j < es.len() ==> (#[trigger] es[j]).1 == j,
        0 <= base,
        base + es.len() <= usize::MAX,
    ensures
        forall|c: u64|
            #[trigger] with_walk_entries(m, es, base).contains_key(c) <==> m.contains_key(c)
                || walk_has(es, c),
        forall|c: u64|
            #[trigger] with_walk_entries(m, es, base).contains_key(c) && walk_has(es, c)
                ==> exists|j: int|
                0 <= j < es.len() && (#[trigger] es[j]).0 == c && with_walk_entries(m, es, base)[c]
                    == base + j,
        forall|c: u64|
            #[trigger] with_walk_entries(m, es, base).contains_key(c) && !walk_has(es, c)
                ==> with_walk_entries(m, es, base)[c] == m[c],
    decreases es.len(),
{
    if es.len() > 0 {
        let head = es.drop_last();
        let m0 = with_walk_entries(m, head, base);
        let m1 = with_walk_entries(m, es, base);
        lemma_with_walk_entries_general(m, head, base);
        assert forall|c: u64| #[trigger] m1.contains_key(c) implies m.contains_key(c) || walk_has(
            es,
            c,
        ) by {
            if c == es.last().0 {
                assert(es[es.len() - 1].0 == c);
            } else if m0.contains_key(c) && walk_has(head, c) {
                let j = choose|j: int| 0 <= j < head.len() && (#[trigger] head[j]).0 == c;
                assert(es[j].0 == c);
            }
        }
        assert forall|c: u64| m.contains_key(c) || walk_has(es, c) implies #[trigger] m1.contains_key(
            c,
        ) by {
            if walk_has(es, c) && c != es.last().0 {
                let j = choose|j: int| 0 <= j < es.len() && (#[trigger] es[j]).0 == c;
                assert(head[j] == es[j]);
                assert(walk_has(head, c));
            }
        }
        assert forall|c: u64|
            #[trigger] m1.contains_key(c) && walk_has(es, c) implies exists|j: int|
            0 <= j < es.len() && (#[trigger] es[j]).0 == c && m1[c] == base + j by {
            if c == es.last().0 {
                let j = es.len() - 1;
                assert(0 <= j < es.len() && es[j].0 == c && m1[c] == base + j);
            } else {
                let j0 = choose|j0: int| 0 <= j0 < es.len() && (#[trigger] es[j0]).0 == c;
                assert(head[j0] == es[j0]);
                assert(walk_has(head, c));
                assert(m0.contains_key(c));
                let j = choose|j: int|
                    0 <= j < head.len() && (#[trigger] head[j]).0 == c && m0[c] == base + j;
                assert(es[j] == head[j]);
                assert(0 <= j < es.len() && es[j].0 == c && m1[c] == base + j);
            }
        }
        assert forall|c: u64|
            #[trigger] m1.contains_key(c) && !walk_has(es, c) implies m1[c] == m[c] by {
            assert(c != es.last().0);
            if walk_has(head, c) {
                let j = choose|j: int| 0 <= j < head.len() && (#[trigger] head[j]).0 == c;
                assert(es[j].0 == c);
            }
        }
    }
}

/// What removing walk entries from a table holds: exactly the old keys
/// that no visit touches, with their old values.
pub proof fn lemma_without_walk_entries_facts(m: Map<u64, usize>, es: Seq<(u64, int)>)
    ensures
        forall|c: u64|
            #[trigger] without_walk_entries(m, es).contains_key(c) <==> m.contains_key(c)
                && !walk_has(es, c),
        forall|c: u64|
            #[trigger] without_walk_entries(m, es).contains_key(c) ==> without_walk_entries(m, es)[c]
                == m[c],
    decreases es.len(),
{
    if es.len() > 0 {
        let head = es.drop_last();
        lemma_without_walk_entries_facts(m, head);
        let m0 = without_walk_entries(m, head);
        let m1 = without_walk_entries(m, es);
        assert forall|c: u64| #[trigger] m1.contains_key(c) implies m.contains_key(c) && !walk_has(
            es,
            c,
        ) by {
            if walk_has(es, c) {
                let j = choose|j: int| 0 <= j < es.len() && (#[trigger] es[j]).0 == c;
                if j < es.len() - 1 {
                    assert(head[j] == es[j]);
                    assert(walk_has(head, c));
                }
            }
        }
        assert forall|c: u64| m.contains_key(c) && !walk_has(es, c) implies #[trigger] m1.contains_key(
            c,
        ) by {
            if walk_has(head, c) {
                let j = choose|j: int| 0 <= j < head.len() && (#[trigger] head[j]).0 == c;
                assert(es[j].0 == c);
            }
            assert(es[es.len() - 1].0 != c);
        }
    }
}

/// Remove one lookup entry per walk visit. Shared by the public
/// slice-relative form and the octree's subtree replacement.
pub(crate) fn remove_walk_entries(
    entries: &Vec<(NodeLocation, usize)>,
    lookup: &mut LookupTable,
)
    requires
        old(lookup).inv(),
    ensures
        final(lookup).inv(),
        final(lookup)@ == without_walk_entries(
            old(lookup)@,
            entries@.map_values(|e: (NodeLocation, usize)| (e.0.code, e.1 as int)),
        ),
{
    let ghost full = entries@.map_values(|e: (NodeLocation, usize)| (e.0.code, e.1 as int));
    let n = entries.len();
    let mut k: usize = 0;
    while k < n
        invariant
            n == entries@.len(),
            0 <= k <= n,
            n == full.len(),
            forall|j: int|
                0 <= j < n ==> #[trigger] full[j] == (entries@[j].0.code, entries@[j].1 as int),
            lookup.inv(),
            lookup@ == without_walk_entries(old(lookup)@, full.take(k as int)),
        decreases n - k,
    {
        proof {
            assert(full.take(k as int + 1).drop_last() =~= full.take(k as int));
        }
        lookup.remove(entries[k].0.code);
        k += 1;
    }
    proof {
        assert(full.take(n as int) =~= full);
    }
}

/// What a table built from walk entries holds: every visited location
/// is mapped, and each mapped location comes from some visit, at `base`
/// plus that visit's slot.
pub proof fn lemma_with_walk_entries_facts(es: Seq<(u64, int)>, base: int)
    requires
        forall|j: int| 0 <= j < es.len() ==> (#[trigger] es[j]).1 == j,
        0 <= base,
        base + es.len() <= usize::MAX,
    ensures
        forall|j: int|
            0 <= j < es.len() ==> with_walk_entries(Map::<u64, usize>::empty(), es, base)
                .contains_key((#[trigger] es[j]).0),
        forall|c: u64|
            #[trigger] with_walk_entries(Map::<u64, usize>::empty(), es, base).contains_key(c)
                ==> exists|j: int|
                0 <= j < es.len() && (#[trigger] es[j]).0 == c && with_walk_entries(
                    Map::<u64, usize>::empty(),
                    es,
                    base,
                )[c] == base + es[j].1,
    decreases es.len(),
{
    if es.len() > 0 {
        let head = es.drop_last();
        let m0 = with_walk_entries(Map::<u64, usize>::empty(), head, base);
        let m1 = with_walk_entries(Map::<u64, usize>::empty(), es, base);
        lemma_with_walk_entries_facts(head, base);
        assert forall|j: int| 0 <= j < es.len() implies m1.contains_key(
            (#[trigger] es[j]).0,
        ) by {
            if j < es.len() - 1 {
                assert(head[j] == es[j]);
                assert(m0.contains_key(es[j].0));
            }
        }
        assert forall|c: u64| #[trigger] m1.contains_key(c) implies exists|j: int|
            0 <= j < es.len() && (#[trigger] es[j]).0 == c && m1[c] == base + es[j].1 by {
            if c == es.last().0 {
                let j = es.len() - 1;
                assert(0 <= j < es.len() && es[j].0 == c && m1[c] == base + es[j].1);
            } else {
                let j = choose|j: int|
                    0 <= j < head.len() && (#[trigger] head[j]).0 == c && m0[c] == base
                        + head[j].1;
                assert(es[j] == head[j]);
                assert(0 <= j < es.len() && es[j].0 == c && m1[c] == base + es[j].1);
            }
        }
    }
}

/// Insert one lookup entry per walk visit, at `base` plus the visited
/// slot. Shared by the public slice-relative form and the octree's
/// absolute form.
pub(crate) fn insert_walk_entries(
    entries: &Vec<(NodeLocation, usize)>,
    base: usize,
    room: usize,
    lookup: &mut LookupTable,
)
    requires
        old(lookup).inv(),
        entries@.len() <= room,
        base + room <= usize::MAX,
        forall|k: int| 0 <= k < entries@.len() ==> (#[trigger] entries@[k]).1 == k,
    ensures
        final(lookup).inv(),
        final(lookup)@ == with_walk_entries(
            old(lookup)@,
            entries@.map_values(|e: (NodeLocation, usize)| (e.0.code, e.1 as int)),
            base as int,
        ),
{
    let ghost full = entries@.map_values(|e: (NodeLocation, usize)| (e.0.code, e.1 as int));
    let n = entries.len();
    let mut k: usize = 0;
    while k < n
        invariant
            n == entries@.len(),
            0 <= k <= n,
            n == full.len(),
            n <= room,
            base + room <= usize::MAX,
            forall|j: int|
                0 <= j < n ==> #[trigger] full[j] == (entries@[j].0.code, entries@[j].1 as int),
            forall|j: int| 0 <= j < n ==> (#[trigger] entries@[j]).1 == j,
            lookup.inv(),
            lookup@ == with_walk_entries(old(lookup)@, full.take(k as int), base as int),
        decreases n - k,
    {
        proof {
            assert(full.take(k as int + 1).drop_last() =~= full.take(k as int));
            assert(entries@[k as int].1 == k);
        }
        lookup.insert(entries[k].0.code, base + entries[k].1);
        k += 1;
    }
    proof {
        assert(full.take(n as int) =~= full);
    }
}

} // verus!
