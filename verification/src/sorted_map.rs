//! A map kept as a vector of entries sorted by key, so that its values can be
//! listed in key order.
use vstd::prelude::*;

verus! {

/// A key type with a strict total order.
pub trait SortKey: Sized + Copy {
    /// `self` comes strictly before `other`.
    spec fn key_less(self, other: Self) -> bool;

    proof fn lemma_key_less_irreflexive(a: Self)
        ensures
            !a.key_less(a),
    ;

    proof fn lemma_key_less_transitive(a: Self, b: Self, c: Self)
        requires
            a.key_less(b),
            b.key_less(c),
        ensures
            a.key_less(c),
    ;

    proof fn lemma_key_less_total(a: Self, b: Self)
        ensures
            a == b || a.key_less(b) || b.key_less(a),
    ;

    fn less(&self, other: &Self) -> (r: bool)
        ensures
            r == self.key_less(*other),
    ;

    fn same_key(&self, other: &Self) -> (r: bool)
        ensures
            r == (*self == *other),
    ;
}

impl SortKey for u32 {
    open spec fn key_less(self, other: Self) -> bool {
        self < other
    }

    proof fn lemma_key_less_irreflexive(a: Self) {
    }

    proof fn lemma_key_less_transitive(a: Self, b: Self, c: Self) {
    }

    proof fn lemma_key_less_total(a: Self, b: Self) {
    }

    fn less(&self, other: &Self) -> (r: bool) {
        *self < *other
    }

    fn same_key(&self, other: &Self) -> (r: bool) {
        *self == *other
    }
}

/// Keys strictly increase along `s`.
pub open spec fn strictly_sorted<K: SortKey, Val>(s: Seq<(K, Val)>) -> bool {
    forall|i: int, j: int| 0 <= i < j < s.len() ==> (#[trigger] s[i].0).key_less(#[trigger] s[j].0)
}

/// `k` is the key of some entry of `s`.
pub open spec fn has_key<K, Val>(s: Seq<(K, Val)>, k: K) -> bool {
    exists|i: int| 0 <= i < s.len() && #[trigger] s[i].0 == k
}

/// The map that a sequence of entries with distinct keys stands for.
pub open spec fn seq_to_map<K, Val>(s: Seq<(K, Val)>) -> Map<K, Val> {
    Map::new(
        |k: K| has_key(s, k),
        |k: K| s[choose|i: int| 0 <= i < s.len() && #[trigger] s[i].0 == k].1,
    )
}

/// The values of `s`, in the order of the entries.
pub open spec fn entry_values<K, Val>(s: Seq<(K, Val)>) -> Seq<Val> {
    s.map_values(|e: (K, Val)| e.1)
}

/// In a strictly sorted sequence the entry at `i` is the one its key maps to.
pub proof fn lemma_entry_in_map<K: SortKey, Val>(s: Seq<(K, Val)>, i: int)
    requires
        strictly_sorted(s),
        0 <= i < s.len(),
    ensures
        seq_to_map(s).contains_key(s[i].0),
        seq_to_map(s)[s[i].0] == s[i].1,
{
    assert(has_key(s, s[i].0));
    let j = choose|j: int| 0 <= j < s.len() && #[trigger] s[j].0 == s[i].0;
    if j < i {
        assert(s[j].0.key_less(s[i].0));
        K::lemma_key_less_irreflexive(s[i].0);
    } else if i < j {
        assert(s[i].0.key_less(s[j].0));
        K::lemma_key_less_irreflexive(s[i].0);
    }
}

/// A strictly sorted sequence stands for a map with as many keys as it has
/// entries.
pub proof fn lemma_map_len<K: SortKey, Val>(s: Seq<(K, Val)>)
    requires
        strictly_sorted(s),
    ensures
        seq_to_map(s).dom().finite(),
        seq_to_map(s).len() == s.len(),
    decreases s.len(),
{
    if s.len() == 0 {
        assert(seq_to_map(s).dom() =~= Set::<K>::empty());
    } else {
        let t = s.drop_last();
        lemma_map_len(t);
        let k = s.last().0;
        assert(!has_key(t, k)) by {
            if has_key(t, k) {
                let j = choose|j: int| 0 <= j < t.len() && #[trigger] t[j].0 == k;
                assert(s[j].0.key_less(s[s.len() - 1].0));
                K::lemma_key_less_irreflexive(k);
            }
        }
        assert(seq_to_map(s).dom() =~= seq_to_map(t).dom().insert(k)) by {
            assert forall|x: K| seq_to_map(s).dom().contains(x) implies seq_to_map(t).dom().insert(k).contains(x) by {
                let j = choose|j: int| 0 <= j < s.len() && #[trigger] s[j].0 == x;
                if j < s.len() - 1 {
                    assert(t[j].0 == x);
                }
            }
            assert forall|x: K| seq_to_map(t).dom().insert(k).contains(x) implies seq_to_map(s).dom().contains(x) by {
                if x == k {
                    assert(s[s.len() - 1].0 == x);
                } else {
                    let j = choose|j: int| 0 <= j < t.len() && #[trigger] t[j].0 == x;
                    assert(s[j].0 == x);
                }
            }
        }
    }
}

/// `s` lists the map `m` in increasing key order.
pub open spec fn in_key_order<K: SortKey, Val>(s: Seq<(K, Val)>, m: Map<K, Val>) -> bool {
    strictly_sorted(s) && seq_to_map(s) == m
}

/// The entries of `m` in increasing key order (for a finite map; see
/// `lemma_key_order`).
pub open spec fn key_order<K: SortKey, Val>(m: Map<K, Val>) -> Seq<(K, Val)> {
    choose|s: Seq<(K, Val)>| in_key_order(s, m)
}

/// Without its last entry, a strictly sorted sequence stands for its map
/// without the last key.
pub proof fn lemma_seq_to_map_drop_last<K: SortKey, Val>(s: Seq<(K, Val)>)
    requires
        strictly_sorted(s),
        s.len() > 0,
    ensures
        strictly_sorted(s.drop_last()),
        seq_to_map(s.drop_last()) == seq_to_map(s).remove(s.last().0),
{
    let t = s.drop_last();
    let k = s.last().0;
    let n = s.len() - 1;
    assert(strictly_sorted(t)) by {
        assert forall|i: int, j: int| 0 <= i < j < t.len() implies (#[trigger] t[i].0).key_less(#[trigger] t[j].0) by {
            assert(t[i] == s[i] && t[j] == s[j]);
        }
    }
    let mt = seq_to_map(t);
    let ms = seq_to_map(s);
    assert forall|x: K| #[trigger] mt.dom().contains(x) implies ms.dom().contains(x) && x != k && mt[x] == ms[x] by {
        let j = choose|j: int| 0 <= j < t.len() && #[trigger] t[j].0 == x;
        assert(t[j] == s[j]);
        assert(s[j].0.key_less(s[n].0));
        if x == k {
            K::lemma_key_less_irreflexive(k);
        }
        lemma_entry_in_map(t, j);
        lemma_entry_in_map(s, j);
    }
    assert forall|x: K| #[trigger] ms.dom().contains(x) && x != k implies mt.dom().contains(x) by {
        let j = choose|j: int| 0 <= j < s.len() && #[trigger] s[j].0 == x;
        assert(j != n);
        assert(t[j].0 == x);
    }
    assert forall|x: K| #[trigger] mt.dom().contains(x) <==> ms.dom().remove(k).contains(x) by {
        if mt.dom().contains(x) {
            assert(ms.dom().contains(x) && x != k);
        }
        if ms.dom().remove(k).contains(x) {
            assert(ms.dom().contains(x) && x != k);
        }
    }
    assert(mt.dom() =~= ms.dom().remove(k));
    assert(mt =~= ms.remove(k));
}

/// A map is listed in key order in one way only, and `key_order` names it.
pub proof fn lemma_key_order<K: SortKey, Val>(s: Seq<(K, Val)>, m: Map<K, Val>)
    requires
        in_key_order(s, m),
    ensures
        key_order(m) == s,
{
    let c = key_order(m);
    assert(in_key_order(c, m));
    lemma_key_order_unique(s, c, m);
}

/// Two listings of one map in increasing key order are the same.
proof fn lemma_key_order_unique<K: SortKey, Val>(s1: Seq<(K, Val)>, s2: Seq<(K, Val)>, m: Map<K, Val>)
    requires
        in_key_order(s1, m),
        in_key_order(s2, m),
    ensures
        s1 == s2,
    decreases s1.len(),
{
    lemma_map_len(s1);
    lemma_map_len(s2);
    if s1.len() == 0 {
        assert(s1 =~= s2);
    } else {
        let n = s1.len() - 1;
        let k1 = s1[n].0;
        let k2 = s2[n].0;
        lemma_entry_in_map(s1, n);
        lemma_entry_in_map(s2, n);
        if k1 != k2 {
            assert(has_key(s2, k1));
            let j2 = choose|j: int| 0 <= j < s2.len() && #[trigger] s2[j].0 == k1;
            assert(j2 != n);
            assert(s2[j2].0.key_less(s2[n].0));
            assert(has_key(s1, k2));
            let j1 = choose|j: int| 0 <= j < s1.len() && #[trigger] s1[j].0 == k2;
            assert(j1 != n);
            assert(s1[j1].0.key_less(s1[n].0));
            K::lemma_key_less_transitive(k1, k2, k1);
            K::lemma_key_less_irreflexive(k1);
        }
        assert(s1.last() == s1[n] && s2.last() == s2[n]);
        lemma_seq_to_map_drop_last(s1);
        lemma_seq_to_map_drop_last(s2);
        lemma_key_order_unique(s1.drop_last(), s2.drop_last(), m.remove(k1));
        assert(s1 =~= s2) by {
            assert forall|i: int| 0 <= i < s1.len() implies s1[i] == s2[i] by {
                if i < n {
                    assert(s1[i] == s1.drop_last()[i]);
                    assert(s2[i] == s2.drop_last()[i]);
                }
            }
        }
    }
}

/// A map from keys to values that lists its values in increasing key order.
pub struct SortedMap<K, Val> {
    entries: Vec<(K, Val)>,
}

impl<K: SortKey, Val> View for SortedMap<K, Val> {
    type V = Map<K, Val>;

    open spec fn view(&self) -> Map<K, Val> {
        seq_to_map(self.entries())
    }
}

impl<K: SortKey, Val> SortedMap<K, Val> {
    /// The entries, in increasing key order.
    pub closed spec fn entries(&self) -> Seq<(K, Val)> {
        self.entries@
    }

    /// The keys strictly increase along the entries.
    pub open spec fn wf(&self) -> bool {
        strictly_sorted(self.entries())
    }

    /// The empty map.
    pub fn new() -> (r: Self)
        ensures
            r.wf(),
            r.entries() == Seq::<(K, Val)>::empty(),
            r@ == Map::<K, Val>::empty(),
    {
        let r = SortedMap { entries: Vec::new() };
        proof {
            assert(r@ =~= Map::<K, Val>::empty());
        }
        r
    }

    /// Number of entries.
    pub fn len(&self) -> (r: usize)
        requires
            self.wf(),
        ensures
            r == self.entries().len(),
            r == self@.len(),
            self@.dom().finite(),
    {
        proof {
            lemma_map_len(self.entries());
        }
        self.entries.len()
    }

    /// The value of the `i`-th entry.
    pub fn value_at(&self, i: usize) -> (r: &Val)
        requires
            i < self.entries().len(),
        ensures
            *r == self.entries()[i as int].1,
    {
        &self.entries[i].1
    }

    /// The position of the entry for `k`, if there is one.
    pub fn position(&self, k: &K) -> (r: Option<usize>)
        requires
            self.wf(),
        ensures
            r matches Some(i) ==> i < self.entries().len() && self.entries()[i as int].0 == *k,
            r is None ==> !has_key(self.entries(), *k),
            r is Some <==> self@.contains_key(*k),
    {
        let mut i: usize = 0;
        while i < self.entries.len()
            invariant
                i <= self.entries@.len(),
                forall|j: int| 0 <= j < i ==> self.entries@[j].0 != *k,
            decreases self.entries@.len() - i,
        {
            if self.entries[i].0.same_key(k) {
                return Some(i);
            }
            i = i + 1;
        }
        None
    }

    /// Whether `k` has an entry.
    pub fn contains_key(&self, k: &K) -> (r: bool)
        requires
            self.wf(),
        ensures
            r == self@.contains_key(*k),
    {
        self.position(k).is_some()
    }

    /// The value of `k`, if any.
    pub fn get(&self, k: &K) -> (r: Option<&Val>)
        requires
            self.wf(),
        ensures
            r matches Some(v) ==> self@.contains_key(*k) && *v == self@[*k],
            r is None ==> !self@.contains_key(*k),
    {
        match self.position(k) {
            Some(i) => {
                proof {
                    lemma_entry_in_map(self.entries(), i as int);
                }
                Some(&self.entries[i].1)
            },
            None => None,
        }
    }

    /// Replaces the value of the `i`-th entry, returning the old one.
    pub fn replace_value_at(&mut self, i: usize, v: Val) -> (r: Val)
        requires
            old(self).wf(),
            i < old(self).entries().len(),
        ensures
            final(self).wf(),
            final(self).entries() == old(self).entries().update(
                i as int,
                (old(self).entries()[i as int].0, v),
            ),
            final(self)@ == old(self)@.insert(old(self).entries()[i as int].0, v),
            r == old(self).entries()[i as int].1,
    {
        let ghost s = self.entries@;
        let k = self.entries[i].0;
        let old_entry = self.entries.remove(i);
        self.entries.insert(i, (k, v));
        let ghost t = self.entries@;
        proof {
            assert(t =~= s.update(i as int, (k, v)));
            assert(strictly_sorted(t)) by {
                assert forall|a: int, b: int| 0 <= a < b < t.len() implies (#[trigger] t[a].0).key_less(#[trigger] t[b].0) by {
                    assert(s[a].0.key_less(s[b].0));
                }
            }
            lemma_update_map(s, i as int, v);
        }
        old_entry.1
    }

    /// Sets the value of `k` to `v`, adding an entry if `k` had none.
    pub fn insert(&mut self, k: K, v: Val)
        requires
            old(self).wf(),
        ensures
            final(self).wf(),
            final(self)@ == old(self)@.insert(k, v),
    {
        match self.position(&k) {
            Some(i) => {
                self.replace_value_at(i, v);
                return ;
            },
            None => {},
        }
        let ghost s = self.entries@;
        let mut p: usize = 0;
        while p < self.entries.len() && self.entries[p].0.less(&k)
            invariant
                p <= self.entries@.len(),
                self.entries@ == s,
                forall|j: int| 0 <= j < p ==> (#[trigger] s[j].0).key_less(k),
            decreases self.entries@.len() - p,
        {
            p = p + 1;
        }
        self.entries.insert(p, (k, v));
        let ghost t = self.entries@;
        proof {
            assert(!has_key(s, k));
            if p < s.len() {
                K::lemma_key_less_total(k, s[p as int].0);
                assert(s[p as int].0 != k);
                assert(k.key_less(s[p as int].0));
            }
            assert(strictly_sorted(t)) by {
                assert forall|a: int, b: int| 0 <= a < b < t.len() implies (#[trigger] t[a].0).key_less(#[trigger] t[b].0) by {
                    if b < p {
                        assert(s[a].0.key_less(s[b].0));
                    } else if b == p {
                        assert(s[a].0.key_less(k));
                    } else if a < p {
                        // t[a] = s[a] < k < s[p] <= s[b - 1]
                        assert(s[a].0.key_less(k));
                        assert(k.key_less(s[p as int].0));
                        K::lemma_key_less_transitive(s[a].0, k, s[p as int].0);
                        if b - 1 > p {
                            assert(s[p as int].0.key_less(s[b - 1].0));
                            K::lemma_key_less_transitive(s[a].0, s[p as int].0, s[b - 1].0);
                        }
                    } else if a == p {
                        if b - 1 > p {
                            assert(s[p as int].0.key_less(s[b - 1].0));
                            K::lemma_key_less_transitive(k, s[p as int].0, s[b - 1].0);
                        }
                    } else {
                        assert(s[a - 1].0.key_less(s[b - 1].0));
                    }
                }
            }
            assert(seq_to_map(t) =~= seq_to_map(s).insert(k, v)) by {
                assert forall|x: K| #[trigger] seq_to_map(t).contains_key(x) <==> seq_to_map(s).insert(k, v).contains_key(x) by {
                    if has_key(t, x) {
                        let j = choose|j: int| 0 <= j < t.len() && #[trigger] t[j].0 == x;
                        if j < p {
                            assert(s[j].0 == x);
                        } else if j > p {
                            assert(s[j - 1].0 == x);
                        }
                    }
                    if x != k && has_key(s, x) {
                        let j = choose|j: int| 0 <= j < s.len() && #[trigger] s[j].0 == x;
                        if j < p {
                            assert(t[j].0 == x);
                        } else {
                            assert(t[j + 1].0 == x);
                        }
                    }
                    if x == k {
                        assert(t[p as int].0 == x);
                    }
                }
                assert forall|x: K| #[trigger] seq_to_map(t).contains_key(x) implies seq_to_map(t)[x] == seq_to_map(s).insert(k, v)[x] by {
                    let j = choose|j: int| 0 <= j < t.len() && #[trigger] t[j].0 == x;
                    lemma_entry_in_map(t, j);
                    if j < p {
                        lemma_entry_in_map(s, j);
                        assert(s[j].0 == x);
                    } else if j > p {
                        lemma_entry_in_map(s, j - 1);
                        assert(s[j - 1].0 == x);
                    }
                }
            }
        }
    }

    /// Removes the entry of `k`, returning its value.
    pub fn remove(&mut self, k: &K) -> (r: Option<Val>)
        requires
            old(self).wf(),
        ensures
            final(self).wf(),
            final(self)@ == old(self)@.remove(*k),
            r matches Some(v) ==> old(self)@.contains_key(*k) && v == old(self)@[*k],
            r is None ==> !old(self)@.contains_key(*k),
    {
        match self.position(k) {
            None => {
                proof {
                    assert(seq_to_map(self.entries@) =~= seq_to_map(self.entries@).remove(*k));
                }
                None
            },
            Some(i) => {
                let ghost s = self.entries@;
                proof {
                    lemma_entry_in_map(s, i as int);
                }
                let (_, v) = self.entries.remove(i);
                let ghost t = self.entries@;
                proof {
                    assert(strictly_sorted(t)) by {
                        assert forall|a: int, b: int| 0 <= a < b < t.len() implies (#[trigger] t[a].0).key_less(#[trigger] t[b].0) by {
                            if b < i {
                                assert(s[a].0.key_less(s[b].0));
                            } else if a < i {
                                assert(s[a].0.key_less(s[b + 1].0));
                            } else {
                                assert(s[a + 1].0.key_less(s[b + 1].0));
                            }
                        }
                    }
                    assert(seq_to_map(t) =~= seq_to_map(s).remove(*k)) by {
                        assert forall|x: K| #[trigger] seq_to_map(t).contains_key(x) <==> seq_to_map(s).remove(*k).contains_key(x) by {
                            if has_key(t, x) {
                                let j = choose|j: int| 0 <= j < t.len() && #[trigger] t[j].0 == x;
                                if j < i {
                                    assert(s[j].0 == x);
                                    assert(s[j].0.key_less(s[i as int].0));
                                    if x == *k {
                                        K::lemma_key_less_irreflexive(x);
                                    }
                                } else {
                                    assert(s[j + 1].0 == x);
                                    assert(s[i as int].0.key_less(s[j + 1].0));
                                    if x == *k {
                                        K::lemma_key_less_irreflexive(x);
                                    }
                                }
                            }
                            if x != *k && has_key(s, x) {
                                let j = choose|j: int| 0 <= j < s.len() && #[trigger] s[j].0 == x;
                                if j < i {
                                    assert(t[j].0 == x);
                                } else {
                                    assert(j != i);
                                    assert(t[j - 1].0 == x);
                                }
                            }
                        }
                        assert forall|x: K| #[trigger] seq_to_map(t).contains_key(x) implies seq_to_map(t)[x] == seq_to_map(s).remove(*k)[x] by {
                            let j = choose|j: int| 0 <= j < t.len() && #[trigger] t[j].0 == x;
                            lemma_entry_in_map(t, j);
                            if j < i {
                                lemma_entry_in_map(s, j);
                                assert(s[j].0 == x);
                            } else {
                                lemma_entry_in_map(s, j + 1);
                                assert(s[j + 1].0 == x);
                            }
                        }
                    }
                }
                Some(v)
            },
        }
    }
}

/// Updating the value of an entry updates the map at its key.
pub proof fn lemma_update_map<K: SortKey, Val>(s: Seq<(K, Val)>, i: int, v: Val)
    requires
        strictly_sorted(s),
        0 <= i < s.len(),
    ensures
        strictly_sorted(s.update(i, (s[i].0, v))),
        seq_to_map(s.update(i, (s[i].0, v))) == seq_to_map(s).insert(s[i].0, v),
{
    let t = s.update(i, (s[i].0, v));
    let k = s[i].0;
    assert(strictly_sorted(t)) by {
        assert forall|a: int, b: int| 0 <= a < b < t.len() implies (#[trigger] t[a].0).key_less(#[trigger] t[b].0) by {
            assert(s[a].0.key_less(s[b].0));
        }
    }
    assert(seq_to_map(t) =~= seq_to_map(s).insert(k, v)) by {
        assert forall|x: K| #[trigger] seq_to_map(t).contains_key(x) <==> seq_to_map(s).insert(k, v).contains_key(x) by {
            if has_key(t, x) {
                let j = choose|j: int| 0 <= j < t.len() && #[trigger] t[j].0 == x;
                assert(s[j].0 == x);
            }
            if has_key(s, x) {
                let j = choose|j: int| 0 <= j < s.len() && #[trigger] s[j].0 == x;
                assert(t[j].0 == x);
            }
            if x == k {
                assert(t[i].0 == x);
            }
        }
        assert forall|x: K| #[trigger] seq_to_map(t).contains_key(x) implies seq_to_map(t)[x] == seq_to_map(s).insert(k, v)[x] by {
            let j = choose|j: int| 0 <= j < t.len() && #[trigger] t[j].0 == x;
            lemma_entry_in_map(t, j);
            lemma_entry_in_map(s, j);
            if j != i && x == k {
                if j < i {
                    assert(s[j].0.key_less(s[i].0));
                } else {
                    assert(s[i].0.key_less(s[j].0));
                }
                K::lemma_key_less_irreflexive(k);
            }
        }
    }
}

} // verus!
