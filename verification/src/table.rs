use vstd::prelude::*;

verus! {

/// The finite map described by a sequence of key-value pairs, later
/// pairs winning on a repeated key.
pub open spec fn map_of_pairs(s: Seq<(u64, usize)>) -> Map<u64, usize>
    decreases s.len(),
{
    if s.len() == 0 {
        Map::empty()
    } else {
        map_of_pairs(s.drop_last()).insert(s.last().0, s.last().1)
    }
}

/// No key occurs twice in the sequence.
pub open spec fn distinct_keys(s: Seq<(u64, usize)>) -> bool {
    forall|i: int, j: int| 0 <= i < j < s.len() ==> (#[trigger] s[i]).0 != (#[trigger] s[j]).0
}

/// What a distinct-key pair sequence denotes: each pair is in the map,
/// each map entry comes from a pair, and the sizes agree.
pub proof fn lemma_map_of_pairs(s: Seq<(u64, usize)>)
    requires
        distinct_keys(s),
    ensures
        map_of_pairs(s).dom().finite(),
        map_of_pairs(s).dom().len() == s.len(),
        forall|i: int|
            0 <= i < s.len() ==> map_of_pairs(s).contains_key((#[trigger] s[i]).0)
                && map_of_pairs(s)[s[i].0] == s[i].1,
        forall|k: u64|
            #[trigger] map_of_pairs(s).contains_key(k) ==> exists|i: int|
                0 <= i < s.len() && (#[trigger] s[i]).0 == k && s[i].1 == map_of_pairs(s)[k],
    decreases s.len(),
{
    if s.len() == 0 {
    } else {
        let head = s.drop_last();
        let m0 = map_of_pairs(head);
        lemma_map_of_pairs(head);
        assert(!m0.contains_key(s.last().0)) by {
            if m0.contains_key(s.last().0) {
                let i = choose|i: int|
                    0 <= i < head.len() && (#[trigger] head[i]).0 == s.last().0 && head[i].1
                        == m0[s.last().0];
                assert(s[i].0 == s[s.len() - 1].0);
            }
        }
        assert forall|i: int| 0 <= i < s.len() implies map_of_pairs(s).contains_key(
            (#[trigger] s[i]).0,
        ) && map_of_pairs(s)[s[i].0] == s[i].1 by {
            if i < s.len() - 1 {
                assert(head[i] == s[i]);
                assert(s[i].0 != s[s.len() - 1].0);
            }
        }
        assert forall|k: u64| #[trigger] map_of_pairs(s).contains_key(k) implies exists|i: int|
            0 <= i < s.len() && (#[trigger] s[i]).0 == k && s[i].1 == map_of_pairs(s)[k] by {
            if k == s.last().0 {
                let i = s.len() - 1;
                assert(0 <= i < s.len() && s[i].0 == k && s[i].1 == map_of_pairs(s)[k]);
            } else {
                let i = choose|i: int|
                    0 <= i < head.len() && (#[trigger] head[i]).0 == k && head[i].1 == m0[k];
                assert(0 <= i < s.len() && s[i].0 == k && s[i].1 == map_of_pairs(s)[k]);
            }
        }
    }
}

/// Two distinct-key pair sequences that hold the same collection of
/// pairs denote the same map.
pub proof fn lemma_map_of_pairs_same_pairs(s: Seq<(u64, usize)>, t: Seq<(u64, usize)>)
    requires
        distinct_keys(s),
        distinct_keys(t),
        s.to_multiset() == t.to_multiset(),
    ensures
        map_of_pairs(s) == map_of_pairs(t),
{
    lemma_map_of_pairs(s);
    lemma_map_of_pairs(t);
    assert forall|p: (u64, usize)| s.contains(p) <==> t.contains(p) by {
        vstd::seq_lib::to_multiset_contains(s, p);
        vstd::seq_lib::to_multiset_contains(t, p);
    }
    assert forall|k: u64|
        map_of_pairs(s).contains_key(k) <==> map_of_pairs(
            t,
        ).contains_key(k) by {
        if map_of_pairs(s).contains_key(k) {
            let i = choose|i: int|
                0 <= i < s.len() && (#[trigger] s[i]).0 == k && s[i].1 == map_of_pairs(s)[k];
            assert(s.contains(s[i]));
            let j = choose|j: int| 0 <= j < t.len() && t[j] == s[i];
            assert(map_of_pairs(t).contains_key(t[j].0));
        }
        if map_of_pairs(t).contains_key(k) {
            let j = choose|j: int|
                0 <= j < t.len() && (#[trigger] t[j]).0 == k && t[j].1 == map_of_pairs(t)[k];
            assert(t.contains(t[j]));
            let i = choose|i: int| 0 <= i < s.len() && s[i] == t[j];
            assert(map_of_pairs(s).contains_key(s[i].0));
        }
    }
    assert forall|k: u64| map_of_pairs(s).contains_key(k) implies map_of_pairs(s)[k]
        == map_of_pairs(t)[k] by {
        let i = choose|i: int|
            0 <= i < s.len() && (#[trigger] s[i]).0 == k && s[i].1 == map_of_pairs(s)[k];
        assert(s.contains(s[i]));
        let j = choose|j: int| 0 <= j < t.len() && t[j] == s[i];
        assert(map_of_pairs(t).contains_key(t[j].0) && map_of_pairs(t)[t[j].0] == t[j].1);
    }
    assert(map_of_pairs(s) =~= map_of_pairs(t));
}

/// Association from locational codes to positions in the octree's node
/// array. A vector of pairs with pairwise distinct keys; reads scan it,
/// which keeps every operation simple enough to check completely.
#[derive(Debug, PartialEq)]
pub struct LookupTable {
    entries: Vec<(u64, usize)>,
}

impl View for LookupTable {
    type V = Map<u64, usize>;

    closed spec fn view(&self) -> Map<u64, usize> {
        map_of_pairs(self.entries@)
    }
}

impl LookupTable {
    /// The keys never repeat; every operation keeps this.
    pub closed spec fn inv(&self) -> bool {
        distinct_keys(self.entries@)
    }

    /// An empty table.
    pub fn new() -> (t: LookupTable)
        ensures
            t@ == Map::<u64, usize>::empty(),
            t.inv(),
    {
        LookupTable { entries: Vec::new() }
    }

    /// How many locations are mapped.
    pub fn len(&self) -> (n: usize)
        requires
            self.inv(),
        ensures
            n == self@.dom().len(),
    {
        proof {
            lemma_map_of_pairs(self.entries@);
        }
        self.entries.len()
    }

    /// The index stored under `key`, if any.
    pub fn get(&self, key: u64) -> (r: Option<usize>)
        requires
            self.inv(),
        ensures
            r is Some <==> self@.contains_key(key),
            r matches Some(i) ==> self@[key] == i,
    {
        proof {
            lemma_map_of_pairs(self.entries@);
        }
        let n = self.entries.len();
        let mut k: usize = 0;
        while k < n
            invariant
                n == self.entries@.len(),
                0 <= k <= n,
                self.inv(),
                forall|i: int| 0 <= i < k ==> (#[trigger] self.entries@[i]).0 != key,
            decreases n - k,
        {
            if self.entries[k].0 == key {
                proof {
                    lemma_map_of_pairs(self.entries@);
                }
                return Some(self.entries[k].1);
            }
            k += 1;
        }
        proof {
            lemma_map_of_pairs(self.entries@);
            if self@.contains_key(key) {
                let i = choose|i: int|
                    0 <= i < self.entries@.len() && (#[trigger] self.entries@[i]).0 == key
                        && self.entries@[i].1 == self@[key];
            }
        }
        None
    }

    /// Map `key` to `value`, replacing what the key held before.
    pub fn insert(&mut self, key: u64, value: usize)
        requires
            old(self).inv(),
        ensures
            final(self).inv(),
            final(self)@ == old(self)@.insert(key, value),
    {
        proof {
            lemma_map_of_pairs(self.entries@);
        }
        let n = self.entries.len();
        let mut k: usize = 0;
        while k < n
            invariant
                n == self.entries@.len(),
                0 <= k <= n,
                self.inv(),
                self == old(self),
                forall|i: int| 0 <= i < k ==> (#[trigger] self.entries@[i]).0 != key,
            decreases n - k,
        {
            if self.entries[k].0 == key {
                let ghost s = self.entries@;
                self.entries[k] = (key, value);
                proof {
                    lemma_map_of_pairs(s);
                    lemma_map_of_pairs(self.entries@);
                    lemma_map_of_pairs_insert(s, k as int, key, value);
                }
                return ;
            }
            k += 1;
        }
        let ghost s = self.entries@;
        self.entries.push((key, value));
        proof {
            assert(self.entries@.drop_last() =~= s);
            if !distinct_keys(self.entries@) {
                let (i, j) = choose|i: int, j: int|
                    0 <= i < j < self.entries@.len() && (#[trigger] self.entries@[i]).0 == (
                    #[trigger] self.entries@[j]).0;
                assert(s[i] == self.entries@[i]);
            }
        }
    }

    /// Drop `key` from the table, if present.
    pub fn remove(&mut self, key: u64)
        requires
            old(self).inv(),
        ensures
            final(self).inv(),
            final(self)@ == old(self)@.remove(key),
    {
        proof {
            lemma_map_of_pairs(self.entries@);
        }
        let n = self.entries.len();
        let mut k: usize = 0;
        while k < n
            invariant
                n == self.entries@.len(),
                0 <= k <= n,
                self.inv(),
                self == old(self),
                forall|i: int| 0 <= i < k ==> (#[trigger] self.entries@[i]).0 != key,
            decreases n - k,
        {
            if self.entries[k].0 == key {
                let ghost s = self.entries@;
                self.entries.swap_remove(k);
                proof {
                    lemma_swap_remove_map(s, k as int, key);
                }
                return ;
            }
            k += 1;
        }
        proof {
            lemma_map_of_pairs(self.entries@);
            if self@.contains_key(key) {
                let i = choose|i: int|
                    0 <= i < self.entries@.len() && (#[trigger] self.entries@[i]).0 == key
                        && self.entries@[i].1 == self@[key];
            }
            assert(self@.remove(key) =~= self@);
        }
    }

    /// Whether any mapped location points into the slot range
    /// `[lo, hi)`.
    pub fn any_value_in(&self, lo: usize, hi: usize) -> (r: bool)
        requires
            self.inv(),
        ensures
            r == exists|c: u64|
                #[trigger] self@.contains_key(c) && lo <= self@[c] < hi,
    {
        proof {
            lemma_map_of_pairs(self.entries@);
        }
        let n = self.entries.len();
        let mut k: usize = 0;
        while k < n
            invariant
                n == self.entries@.len(),
                0 <= k <= n,
                self.inv(),
                forall|i: int|
                    0 <= i < k ==> !(lo <= (#[trigger] self.entries@[i]).1 < hi),
            decreases n - k,
        {
            let v = self.entries[k].1;
            if lo <= v && v < hi {
                proof {
                    lemma_map_of_pairs(self.entries@);
                    let c = self.entries@[k as int].0;
                    assert(self@.contains_key(c) && lo <= self@[c] < hi);
                }
                return true;
            }
            k += 1;
        }
        proof {
            lemma_map_of_pairs(self.entries@);
            if exists|c: u64| #[trigger] self@.contains_key(c) && lo <= self@[c] < hi {
                let c = choose|c: u64| #[trigger] self@.contains_key(c) && lo <= self@[c] < hi;
                let i = choose|i: int|
                    0 <= i < self.entries@.len() && (#[trigger] self.entries@[i]).0 == c
                        && self.entries@[i].1 == self@[c];
            }
        }
        false
    }

    /// Hand the entries out and leave the table empty.
    pub fn take_entries(&mut self) -> (r: Vec<(u64, usize)>)
        requires
            old(self).inv(),
        ensures
            final(self).inv(),
            final(self)@ == Map::<u64, usize>::empty(),
            distinct_keys(r@),
            map_of_pairs(r@) == old(self)@,
    {
        let mut out: Vec<(u64, usize)> = Vec::new();
        core::mem::swap(&mut self.entries, &mut out);
        out
    }
}

/// Overwriting the pair at the key's own slot denotes a plain map
/// insert.
proof fn lemma_map_of_pairs_insert(s: Seq<(u64, usize)>, at: int, key: u64, value: usize)
    requires
        distinct_keys(s),
        0 <= at < s.len(),
        s[at].0 == key,
    ensures
        distinct_keys(s.update(at, (key, value))),
        map_of_pairs(s.update(at, (key, value))) == map_of_pairs(s).insert(key, value),
{
    let t = s.update(at, (key, value));
    assert(distinct_keys(t));
    lemma_map_of_pairs(s);
    lemma_map_of_pairs(t);
    let ms = map_of_pairs(s).insert(key, value);
    let mt = map_of_pairs(t);
    assert forall|k: u64| ms.contains_key(k) <==> mt.contains_key(k) by {
        if ms.contains_key(k) && k != key {
            let i = choose|i: int|
                0 <= i < s.len() && (#[trigger] s[i]).0 == k && s[i].1 == map_of_pairs(s)[k];
            assert(t[i].0 == k);
        }
        if mt.contains_key(k) && k != key {
            let i = choose|i: int|
                0 <= i < t.len() && (#[trigger] t[i]).0 == k && t[i].1 == mt[k];
            assert(s[i].0 == k);
        }
        assert(mt.contains_key(t[at].0));
    }
    assert forall|k: u64| mt.contains_key(k) implies mt[k] == ms[k] by {
        let i = choose|i: int| 0 <= i < t.len() && (#[trigger] t[i]).0 == k && t[i].1 == mt[k];
        if i == at {
        } else {
            assert(s[i] == t[i]);
        }
    }
    assert(ms =~= mt);
}

/// `swap_remove` of the key's slot denotes a plain map removal.
proof fn lemma_swap_remove_map(s: Seq<(u64, usize)>, at: int, key: u64)
    requires
        distinct_keys(s),
        0 <= at < s.len(),
        s[at].0 == key,
    ensures
        distinct_keys(s.update(at, s.last()).drop_last()),
        map_of_pairs(s.update(at, s.last()).drop_last()) == map_of_pairs(s).remove(key),
{
    let t = s.update(at, s.last()).drop_last();
    assert forall|i: int, j: int| 0 <= i < j < t.len() implies (#[trigger] t[i]).0 != (
    #[trigger] t[j]).0 by {
        let si = if i == at {
            s.len() - 1
        } else {
            i
        };
        let sj = if j == at {
            s.len() - 1
        } else {
            j
        };
        assert(t[i] == s[si] && t[j] == s[sj]);
    }
    lemma_map_of_pairs(s);
    lemma_map_of_pairs(t);
    let ms = map_of_pairs(s).remove(key);
    let mt = map_of_pairs(t);
    assert forall|k: u64| ms.contains_key(k) <==> mt.contains_key(k) by {
        if ms.contains_key(k) {
            let i = choose|i: int|
                0 <= i < s.len() && (#[trigger] s[i]).0 == k && s[i].1 == map_of_pairs(s)[k];
            if i == s.len() - 1 {
                if at < s.len() - 1 {
                    assert(t[at] == s[i]);
                }
            } else if i != at {
                assert(t[i] == s[i]);
            }
        }
        if mt.contains_key(k) {
            let i = choose|i: int| 0 <= i < t.len() && (#[trigger] t[i]).0 == k && t[i].1 == mt[k];
            let si = if i == at {
                s.len() - 1
            } else {
                i
            };
            assert(t[i] == s[si]);
            assert(s[si].0 != key);
        }
    }
    assert forall|k: u64| mt.contains_key(k) implies mt[k] == ms[k] by {
        let i = choose|i: int| 0 <= i < t.len() && (#[trigger] t[i]).0 == k && t[i].1 == mt[k];
        let si = if i == at {
            s.len() - 1
        } else {
            i
        };
        assert(t[i] == s[si]);
    }
    assert(ms =~= mt);
}

/// The set of locations whose subtrees are out of depth-first order.
/// A vector of codes standing for the set of its elements.
#[derive(Debug, PartialEq)]
pub struct LocationSet {
    items: Vec<u64>,
}

impl View for LocationSet {
    type V = Set<u64>;

    closed spec fn view(&self) -> Set<u64> {
        self.items@.to_set()
    }
}

impl LocationSet {
    /// An empty set.
    pub fn new() -> (t: LocationSet)
        ensures
            t@ == Set::<u64>::empty(),
    {
        let t = LocationSet { items: Vec::new() };
        proof {
            assert(t.items@.to_set() =~= Set::<u64>::empty());
        }
        t
    }

    /// Whether `key` is in the set.
    pub fn contains(&self, key: u64) -> (r: bool)
        ensures
            r == self@.contains(key),
    {
        let n = self.items.len();
        let mut k: usize = 0;
        while k < n
            invariant
                n == self.items@.len(),
                0 <= k <= n,
                forall|i: int| 0 <= i < k ==> self.items@[i] != key,
            decreases n - k,
        {
            if self.items[k] == key {
                proof {
                    assert(self.items@.contains(key));
                }
                return true;
            }
            k += 1;
        }
        proof {
            assert(!self.items@.contains(key));
        }
        false
    }

    /// Add `key`; reports whether it was new, as a hash set's insert
    /// does.
    pub fn insert(&mut self, key: u64) -> (added: bool)
        ensures
            final(self)@ == old(self)@.insert(key),
            added == !old(self)@.contains(key),
    {
        if self.contains(key) {
            proof {
                assert(self@.insert(key) =~= self@);
            }
            false
        } else {
            let ghost s = self.items@;
            self.items.push(key);
            proof {
                assert(self.items@.to_set() =~= s.to_set().insert(key)) by {
                    assert forall|x: u64| self.items@.contains(x) implies s.to_set().insert(
                        key,
                    ).contains(x) by {
                        let i = choose|i: int|
                            0 <= i < self.items@.len() && self.items@[i] == x;
                        if i < s.len() {
                            assert(s[i] == x);
                        }
                    }
                    assert forall|x: u64| s.to_set().insert(key).contains(x) implies self.items@
                        .contains(x) by {
                        if x == key {
                            assert(self.items@[s.len() as int] == x);
                        } else {
                            let i = choose|i: int| 0 <= i < s.len() && s[i] == x;
                            assert(self.items@[i] == x);
                        }
                    }
                }
            }
            true
        }
    }

    /// Empty the set.
    pub fn clear(&mut self)
        ensures
            final(self)@ == Set::<u64>::empty(),
    {
        self.items.clear();
        proof {
            assert(self.items@.to_set() =~= Set::<u64>::empty());
        }
    }
}

} // verus!
