//! A map from `u64` keys kept in increasing key order, walked in that order.
use vstd::prelude::*;

verus! {

/// Keys in strictly increasing order.
pub open spec fn keys_increasing<V>(s: Seq<(u64, V)>) -> bool {
    forall|i: int, j: int| 0 <= i < j < s.len() ==> #[trigger] s[i].0 < #[trigger] s[j].0
}

/// The map that the entries make.
pub open spec fn map_of<V>(s: Seq<(u64, V)>) -> Map<u64, V>
    decreases s.len(),
{
    if s.len() == 0 {
        Map::empty()
    } else {
        map_of(s.drop_last()).insert(s.last().0, s.last().1)
    }
}

/// Whether key `k` is the key of some entry.
pub open spec fn has_key<V>(s: Seq<(u64, V)>, k: u64) -> bool {
    exists|i: int| 0 <= i < s.len() && #[trigger] s[i].0 == k
}

/// The map of the entries holds exactly their keys, each with its value.
pub proof fn lemma_map_of<V>(s: Seq<(u64, V)>)
    requires
        keys_increasing(s),
    ensures
        forall|k: u64| #[trigger] map_of(s).dom().contains(k) <==> has_key(s, k),
        forall|i: int| 0 <= i < s.len() ==> #[trigger] map_of(s)[s[i].0] == s[i].1,
        map_of(s).dom().finite(),
        map_of(s).dom().len() == s.len(),
    decreases s.len(),
{
    if s.len() > 0 {
        let t = s.drop_last();
        assert(keys_increasing(t)) by {
            assert forall|i: int, j: int| 0 <= i < j < t.len() implies #[trigger] t[i].0 < #[trigger] t[j].0 by {
                assert(s[i].0 < s[j].0);
            }
        }
        lemma_map_of(t);
        let last = s.last();
        assert(!map_of(t).dom().contains(last.0)) by {
            if map_of(t).dom().contains(last.0) {
                let i = choose|i: int| 0 <= i < t.len() && #[trigger] t[i].0 == last.0;
                assert(s[i].0 < s[s.len() - 1].0);
            }
        }
        assert forall|k: u64| #[trigger] map_of(s).dom().contains(k) <==> has_key(s, k) by {
            if has_key(s, k) {
                let i = choose|i: int| 0 <= i < s.len() && #[trigger] s[i].0 == k;
                if i < s.len() - 1 {
                    assert(t[i].0 == k);
                }
            }
            if map_of(t).dom().contains(k) {
                let i = choose|i: int| 0 <= i < t.len() && #[trigger] t[i].0 == k;
                assert(s[i].0 == k);
            }
            assert(s[s.len() - 1].0 == last.0);
        }
        assert forall|i: int| 0 <= i < s.len() implies #[trigger] map_of(s)[s[i].0] == s[i].1 by {
            if i < s.len() - 1 {
                assert(t[i] == s[i]);
                assert(s[i].0 < s[s.len() - 1].0);
            }
        }
    }
}

/// Entries whose keys increase and make the same set of (key, value) pairs
/// make the same map.
pub proof fn lemma_map_of_ext<V>(a: Seq<(u64, V)>, b: Seq<(u64, V)>, m: Map<u64, V>)
    requires
        keys_increasing(b),
        forall|k: u64| #[trigger] m.dom().contains(k) <==> has_key(b, k),
        forall|i: int| 0 <= i < b.len() ==> #[trigger] m[b[i].0] == b[i].1,
        a == b,
    ensures
        map_of(b) == m,
{
    lemma_map_of(b);
    assert forall|k: u64| #[trigger] m.dom().contains(k) implies map_of(b)[k] == m[k] by {
        let i = choose|i: int| 0 <= i < b.len() && #[trigger] b[i].0 == k;
        assert(map_of(b)[b[i].0] == b[i].1);
    }
    assert(map_of(b) =~= m);
}

/// Sum of a weight of each value.
pub open spec fn sum_weights<V>(s: Seq<(u64, V)>, w: spec_fn(V) -> nat) -> nat
    decreases s.len(),
{
    if s.len() == 0 {
        0
    } else {
        sum_weights(s.drop_last(), w) + w(s.last().1)
    }
}

pub proof fn lemma_sum_weights_remove<V>(s: Seq<(u64, V)>, i: int, w: spec_fn(V) -> nat)
    requires
        0 <= i < s.len(),
    ensures
        sum_weights(s, w) == sum_weights(s.remove(i), w) + w(s[i].1),
    decreases s.len(),
{
    if i < s.len() - 1 {
        lemma_sum_weights_remove(s.drop_last(), i, w);
        assert(s.remove(i).drop_last() =~= s.drop_last().remove(i));
        assert(s.remove(i).last() == s.last());
    } else {
        assert(s.remove(i) =~= s.drop_last());
    }
}

pub proof fn lemma_sum_weights_insert<V>(s: Seq<(u64, V)>, i: int, x: (u64, V), w: spec_fn(V) -> nat)
    requires
        0 <= i <= s.len(),
    ensures
        sum_weights(s.insert(i, x), w) == sum_weights(s, w) + w(x.1),
{
    let t = s.insert(i, x);
    assert(t.remove(i) =~= s);
    lemma_sum_weights_remove(t, i, w);
}

pub proof fn lemma_sum_weights_update<V>(s: Seq<(u64, V)>, i: int, x: (u64, V), w: spec_fn(V) -> nat)
    requires
        0 <= i < s.len(),
    ensures
        sum_weights(s.update(i, x), w) == sum_weights(s, w) - w(s[i].1) + w(x.1),
{
    let t = s.update(i, x);
    lemma_sum_weights_remove(s, i, w);
    lemma_sum_weights_remove(t, i, w);
    assert(t.remove(i) =~= s.remove(i));
}

/// A map with `u64` keys that is walked in increasing key order.
pub struct SortedMap<V> {
    entries: Vec<(u64, V)>,
}

impl<V> SortedMap<V> {
    pub closed spec fn wf(&self) -> bool {
        keys_increasing(self.entries@)
    }

    /// The entries, in increasing key order.
    pub closed spec fn entries_view(&self) -> Seq<(u64, V)> {
        self.entries@
    }

    pub open spec fn view(&self) -> Map<u64, V> {
        map_of(self.entries_view())
    }

    /// What `wf` gives callers: the entries are in increasing key order and
    /// make the map.
    pub proof fn lemma_wf(&self)
        requires
            self.wf(),
        ensures
            keys_increasing(self.entries_view()),
            forall|k: u64| #[trigger] self@.dom().contains(k) <==> has_key(self.entries_view(), k),
            forall|i: int|
                0 <= i < self.entries_view().len() ==> #[trigger] self@[self.entries_view()[i].0]
                    == self.entries_view()[i].1,
            self@.dom().finite(),
            self@.dom().len() == self.entries_view().len(),
    {
        lemma_map_of(self.entries@);
    }

    pub fn new() -> (r: Self)
        ensures
            r.wf(),
            r@ == Map::<u64, V>::empty(),
            r.entries_view() == Seq::<(u64, V)>::empty(),
    {
        SortedMap { entries: Vec::new() }
    }

    pub fn len(&self) -> (r: usize)
        requires
            self.wf(),
        ensures
            r == self@.dom().len(),
            r == self.entries_view().len(),
    {
        proof {
            lemma_map_of(self.entries@);
        }
        self.entries.len()
    }

    pub fn is_empty(&self) -> (r: bool)
        requires
            self.wf(),
        ensures
            r == (self@.dom().len() == 0),
            r == (self.entries_view().len() == 0),
    {
        proof {
            lemma_map_of(self.entries@);
        }
        self.entries.len() == 0
    }

    /// The keys, in increasing order.
    pub fn keys(&self) -> (r: Vec<u64>)
        requires
            self.wf(),
        ensures
            r@ == self.entries_view().map_values(|e: (u64, V)| e.0),
    {
        let mut r: Vec<u64> = Vec::new();
        let mut i: usize = 0;
        while i < self.entries.len()
            invariant
                i <= self.entries@.len(),
                r@ == self.entries@.map_values(|e: (u64, V)| e.0).take(i as int),
            decreases self.entries@.len() - i,
        {
            r.push(self.entries[i].0);
            proof {
                assert(r@ =~= self.entries@.map_values(|e: (u64, V)| e.0).take(i + 1));
            }
            i = i + 1;
        }
        proof {
            assert(r@ =~= self.entries@.map_values(|e: (u64, V)| e.0));
        }
        r
    }

    /// The position of key `k`, if present.
    pub fn find(&self, k: u64) -> (r: Option<usize>)
        requires
            self.wf(),
        ensures
            r matches Some(i) ==> i < self.entries_view().len() && self.entries_view()[i as int].0
                == k,
            r is None ==> !has_key(self.entries_view(), k),
            r is Some <==> self@.dom().contains(k),
    {
        proof {
            lemma_map_of(self.entries@);
        }
        let mut i: usize = 0;
        while i < self.entries.len()
            invariant
                self.wf(),
                i <= self.entries@.len(),
                forall|j: int| 0 <= j < i ==> #[trigger] self.entries@[j].0 != k,
            decreases self.entries@.len() - i,
        {
            if self.entries[i].0 == k {
                proof {
                    lemma_map_of(self.entries@);
                    assert(has_key(self.entries@, k));
                }
                return Some(i);
            }
            i = i + 1;
        }
        None
    }

    pub fn contains_key(&self, k: u64) -> (r: bool)
        requires
            self.wf(),
        ensures
            r == self@.dom().contains(k),
    {
        self.find(k).is_some()
    }

    pub fn get(&self, k: u64) -> (r: Option<&V>)
        requires
            self.wf(),
        ensures
            r == (if self@.dom().contains(k) {
                Some(&self@[k])
            } else {
                None
            }),
    {
        proof {
            lemma_map_of(self.entries@);
        }
        match self.find(k) {
            Some(i) => Some(&self.entries[i].1),
            None => None,
        }
    }

    /// The key and value at position `i` in key order.
    pub fn entry_at(&self, i: usize) -> (r: (u64, &V))
        requires
            self.wf(),
            i < self.entries_view().len(),
        ensures
            r.0 == self.entries_view()[i as int].0,
            *r.1 == self.entries_view()[i as int].1,
    {
        (self.entries[i].0, &self.entries[i].1)
    }

    /// Puts `v` as the value at position `i`, keeping its key; returns the
    /// value it replaced.
    pub fn replace_at(&mut self, i: usize, v: V) -> (r: V)
        requires
            old(self).wf(),
            i < old(self).entries_view().len(),
        ensures
            final(self).wf(),
            r == old(self).entries_view()[i as int].1,
            final(self).entries_view() == old(self).entries_view().update(
                i as int,
                (old(self).entries_view()[i as int].0, v),
            ),
            final(self)@ == old(self)@.insert(old(self).entries_view()[i as int].0, v),
    {
        let ghost before = self.entries@;
        let (k, old_v) = self.entries.remove(i);
        self.entries.insert(i, (k, v));
        proof {
            let after = self.entries@;
            assert(after =~= before.update(i as int, (k, v)));
            assert(keys_increasing(after)) by {
                assert forall|a: int, b: int| 0 <= a < b < after.len() implies #[trigger] after[a].0 < #[trigger] after[b].0 by {
                    assert(before[a].0 < before[b].0);
                }
            }
            lemma_map_of(before);
            let m = map_of(before).insert(k, v);
            assert forall|key: u64| #[trigger] m.dom().contains(key) <==> has_key(after, key) by {
                if m.dom().contains(key) && key != k {
                    let j = choose|j: int| 0 <= j < before.len() && #[trigger] before[j].0 == key;
                    assert(after[j].0 == key);
                }
                if key == k {
                    assert(after[i as int].0 == key);
                }
                if has_key(after, key) {
                    let j = choose|j: int| 0 <= j < after.len() && #[trigger] after[j].0 == key;
                    assert(before[j].0 == key);
                }
            }
            assert forall|j: int| 0 <= j < after.len() implies #[trigger] m[after[j].0] == after[j].1 by {
                if j != i {
                    assert(before[j].0 != k) by {
                        if j < i {
                            assert(before[j].0 < before[i as int].0);
                        } else {
                            assert(before[i as int].0 < before[j].0);
                        }
                    }
                }
            }
            lemma_map_of_ext(after, after, m);
        }
        old_v
    }

    /// Removes the entry of key `k`, returning its value.
    pub fn remove(&mut self, k: u64) -> (r: Option<V>)
        requires
            old(self).wf(),
        ensures
            final(self).wf(),
            final(self)@ == old(self)@.remove(k),
            r == (if old(self)@.dom().contains(k) {
                Some(old(self)@[k])
            } else {
                None
            }),
            old(self)@.dom().contains(k) ==> exists|i: int|
                0 <= i < old(self).entries_view().len() && old(self).entries_view()[i].0 == k
                    && final(self).entries_view() == old(self).entries_view().remove(i),
            !old(self)@.dom().contains(k) ==> final(self).entries_view() == old(self).entries_view(),
    {
        proof {
            lemma_map_of(self.entries@);
        }
        match self.find(k) {
            Some(i) => {
                let ghost before = self.entries@;
                let (_, v) = self.entries.remove(i);
                proof {
                    let after = self.entries@;
                    assert(after =~= before.remove(i as int));
                    lemma_remove_keeps_order(before, i as int);
                    lemma_map_of(after);
                    let m = map_of(before).remove(k);
                    assert forall|key: u64| #[trigger] m.dom().contains(key) <==> has_key(after, key) by {
                        if m.dom().contains(key) {
                            let j = choose|j: int| 0 <= j < before.len() && #[trigger] before[j].0 == key;
                            assert(j != i);
                            if j < i {
                                assert(after[j].0 == key);
                            } else {
                                assert(after[j - 1].0 == key);
                            }
                        }
                        if has_key(after, key) {
                            let j = choose|j: int| 0 <= j < after.len() && #[trigger] after[j].0 == key;
                            if j < i {
                                assert(before[j].0 == key);
                                assert(before[j].0 < before[i as int].0);
                            } else {
                                assert(before[j + 1].0 == key);
                                assert(before[i as int].0 < before[j + 1].0);
                            }
                        }
                    }
                    assert forall|j: int| 0 <= j < after.len() implies #[trigger] m[after[j].0] == after[j].1 by {
                        if j < i {
                            assert(after[j] == before[j]);
                            assert(before[j].0 < before[i as int].0);
                        } else {
                            assert(after[j] == before[j + 1]);
                            assert(before[i as int].0 < before[j + 1].0);
                        }
                    }
                    lemma_map_of_ext(after, after, m);
                }
                Some(v)
            },
            None => {
                proof {
                    assert(map_of(self.entries@).remove(k) =~= map_of(self.entries@));
                }
                None
            },
        }
    }

    /// Removes and returns the entry with the smallest key.
    pub fn pop_first(&mut self) -> (r: Option<(u64, V)>)
        requires
            old(self).wf(),
        ensures
            final(self).wf(),
            old(self).entries_view().len() == 0 ==> r is None && final(self)@ == old(self)@
                && final(self).entries_view() == old(self).entries_view(),
            old(self).entries_view().len() > 0 ==> r == Some(old(self).entries_view()[0]),
            old(self).entries_view().len() > 0 ==> final(self).entries_view() == old(
                self,
            ).entries_view().drop_first(),
            old(self).entries_view().len() > 0 ==> final(self)@ == old(self)@.remove(
                old(self).entries_view()[0].0,
            ),
            r matches Some(e) ==> forall|k: u64| #[trigger] old(self)@.dom().contains(k) ==> e.0 <= k,
    {
        if self.entries.len() == 0 {
            return None;
        }
        let k = self.entries[0].0;
        proof {
            lemma_map_of(self.entries@);
            assert forall|key: u64| #[trigger] self@.dom().contains(key) implies k <= key by {
                let j = choose|j: int| 0 <= j < self.entries@.len() && #[trigger] self.entries@[j].0 == key;
                if j > 0 {
                    assert(self.entries@[0].0 < self.entries@[j].0);
                }
            }
        }
        let ghost before = self.entries@;
        let r = self.remove(k);
        proof {
            let i = choose|i: int|
                0 <= i < before.len() && before[i].0 == k && self.entries@ == before.remove(i);
            if i != 0 {
                assert(before[0].0 < before[i].0);
            }
            assert(before.remove(0) =~= before.drop_first());
        }
        match r {
            Some(v) => Some((k, v)),
            None => None,
        }
    }

    /// Sets the value of key `k`, adding the key at its place in key order
    /// when it is new. Returns the value it replaced.
    pub fn insert(&mut self, k: u64, v: V) -> (r: Option<V>)
        requires
            old(self).wf(),
        ensures
            final(self).wf(),
            final(self)@ == old(self)@.insert(k, v),
            r == (if old(self)@.dom().contains(k) {
                Some(old(self)@[k])
            } else {
                None
            }),
            (forall|j: int| 0 <= j < old(self).entries_view().len() ==> #[trigger] old(self).entries_view()[j].0 < k)
                ==> final(self).entries_view() == old(self).entries_view().push((k, v)),
            old(self)@.dom().contains(k) ==> exists|i: int|
                0 <= i < old(self).entries_view().len() && old(self).entries_view()[i].0 == k
                    && final(self).entries_view() == old(self).entries_view().update(i, (k, v)),
            !old(self)@.dom().contains(k) ==> exists|i: int|
                0 <= i <= old(self).entries_view().len() && final(self).entries_view()
                    == old(self).entries_view().insert(i, (k, v)),
    {
        proof {
            lemma_map_of(self.entries@);
        }
        let ghost before = self.entries@;
        let mut i: usize = 0;
        while i < self.entries.len() && self.entries[i].0 < k
            invariant
                self.entries@ == before,
                keys_increasing(before),
                i <= before.len(),
                forall|j: int| 0 <= j < i ==> #[trigger] before[j].0 < k,
            decreases before.len() - i,
        {
            i = i + 1;
        }
        if i < self.entries.len() && self.entries[i].0 == k {
            let (_, old_v) = self.entries.remove(i);
            self.entries.insert(i, (k, v));
            proof {
                let after = self.entries@;
                assert(after =~= before.update(i as int, (k, v)));
                assert(keys_increasing(after)) by {
                    assert forall|a: int, b: int| 0 <= a < b < after.len() implies #[trigger] after[a].0 < #[trigger] after[b].0 by {
                        assert(before[a].0 < before[b].0);
                    }
                }
                let m = map_of(before).insert(k, v);
                assert forall|key: u64| #[trigger] m.dom().contains(key) <==> has_key(after, key) by {
                    if m.dom().contains(key) && key != k {
                        let j = choose|j: int| 0 <= j < before.len() && #[trigger] before[j].0 == key;
                        assert(after[j].0 == key);
                    }
                    if key == k {
                        assert(after[i as int].0 == key);
                    }
                    if has_key(after, key) {
                        let j = choose|j: int| 0 <= j < after.len() && #[trigger] after[j].0 == key;
                        assert(before[j].0 == key);
                    }
                }
                assert forall|j: int| 0 <= j < after.len() implies #[trigger] m[after[j].0] == after[j].1 by {
                    if j != i {
                        assert(before[j].0 != k) by {
                            if j < i {
                                assert(before[j].0 < before[i as int].0);
                            } else {
                                assert(before[i as int].0 < before[j].0);
                            }
                        }
                    }
                }
                lemma_map_of_ext(after, after, m);
            }
            Some(old_v)
        } else {
            self.entries.insert(i, (k, v));
            proof {
                let after = self.entries@;
                assert(after =~= before.insert(i as int, (k, v)));
                assert(keys_increasing(after)) by {
                    assert forall|a: int, b: int| 0 <= a < b < after.len() implies #[trigger] after[a].0 < #[trigger] after[b].0 by {
                        if a < i && b < i {
                            assert(before[a].0 < before[b].0);
                        } else if a < i && b == i {
                        } else if a < i {
                            assert(before[a].0 < k);
                            assert(before[i as int].0 >= k);
                            assert(before[i as int].0 <= before[b - 1].0) by {
                                if i < b - 1 {
                                    assert(before[i as int].0 < before[b - 1].0);
                                }
                            }
                        } else if a == i {
                            assert(before[i as int].0 > k);
                            if b - 1 > i {
                                assert(before[i as int].0 < before[b - 1].0);
                            }
                        } else {
                            assert(before[a - 1].0 < before[b - 1].0);
                        }
                    }
                }
                assert(!has_key(before, k)) by {
                    if has_key(before, k) {
                        let j = choose|j: int| 0 <= j < before.len() && #[trigger] before[j].0 == k;
                        if j >= i {
                            assert(i < before.len());
                            assert(before[i as int].0 > k);
                            if j > i {
                                assert(before[i as int].0 < before[j].0);
                            }
                        }
                    }
                }
                let m = map_of(before).insert(k, v);
                assert forall|key: u64| #[trigger] m.dom().contains(key) <==> has_key(after, key) by {
                    if m.dom().contains(key) && key != k {
                        let j = choose|j: int| 0 <= j < before.len() && #[trigger] before[j].0 == key;
                        if j < i {
                            assert(after[j].0 == key);
                        } else {
                            assert(after[j + 1].0 == key);
                        }
                    }
                    if key == k {
                        assert(after[i as int].0 == key);
                    }
                    if has_key(after, key) && key != k {
                        let j = choose|j: int| 0 <= j < after.len() && #[trigger] after[j].0 == key;
                        if j < i {
                            assert(before[j].0 == key);
                        } else if j > i {
                            assert(before[j - 1].0 == key);
                        }
                    }
                }
                assert forall|j: int| 0 <= j < after.len() implies #[trigger] m[after[j].0] == after[j].1 by {
                    if j < i {
                        assert(after[j] == before[j]);
                    } else if j > i {
                        assert(after[j] == before[j - 1]);
                    }
                }
                lemma_map_of_ext(after, after, m);
                if forall|j: int| 0 <= j < before.len() ==> #[trigger] before[j].0 < k {
                    if i < before.len() {
                        assert(before[i as int].0 < k);
                    }
                    assert(after =~= before.push((k, v)));
                }
            }
            None
        }
    }
}

proof fn lemma_remove_keeps_order<V>(s: Seq<(u64, V)>, i: int)
    requires
        keys_increasing(s),
        0 <= i < s.len(),
    ensures
        keys_increasing(s.remove(i)),
{
    let t = s.remove(i);
    assert forall|a: int, b: int| 0 <= a < b < t.len() implies #[trigger] t[a].0 < #[trigger] t[b].0 by {
        let a2 = if a < i {
            a
        } else {
            a + 1
        };
        let b2 = if b < i {
            b
        } else {
            b + 1
        };
        assert(t[a] == s[a2]);
        assert(t[b] == s[b2]);
        assert(s[a2].0 < s[b2].0);
    }
}

} // verus!
