//! Maps from string keys to values, kept sorted by key so that iteration
//! follows the order of Rust's `String` (the order a `BTreeMap` walks in).
use vstd::prelude::*;
use crate::text::{key_equal, key_less, key_lt, lemma_key_lt_irreflexive, lemma_key_lt_total, lemma_key_lt_transitive};

verus! {

/// A value with a mathematical model, which can be copied and compared
/// by that model.
pub trait Model: View + Sized {
    fn duplicate(&self) -> (r: Self)
        ensures
            r@ == self@,
    ;

    fn same(&self, other: &Self) -> (r: bool)
        ensures
            r == (self@ == other@),
    ;
}

/// Keys strictly increase along the sequence.
pub open spec fn sorted_keys<V>(s: Seq<(Seq<char>, V)>) -> bool {
    forall|i: int, j: int| 0 <= i < j < s.len() ==> key_lt(#[trigger] s[i].0, #[trigger] s[j].0)
}

/// The map that an association list denotes (later entries win).
pub open spec fn pairs_map<V>(s: Seq<(Seq<char>, V)>) -> Map<Seq<char>, V>
    decreases s.len(),
{
    if s.len() == 0 {
        Map::empty()
    } else {
        pairs_map(s.drop_last()).insert(s.last().0, s.last().1)
    }
}

pub proof fn lemma_sorted_distinct<V>(s: Seq<(Seq<char>, V)>, i: int, j: int)
    requires
        sorted_keys(s),
        0 <= i < s.len(),
        0 <= j < s.len(),
        i != j,
    ensures
        s[i].0 != s[j].0,
{
    if i < j {
        assert(key_lt(s[i].0, s[j].0));
        if s[i].0 == s[j].0 {
            lemma_key_lt_irreflexive(s[i].0);
        }
    } else {
        assert(key_lt(s[j].0, s[i].0));
        if s[i].0 == s[j].0 {
            lemma_key_lt_irreflexive(s[i].0);
        }
    }
}

/// With distinct keys, the map holds exactly the entries of the list.
pub proof fn lemma_pairs_map<V>(s: Seq<(Seq<char>, V)>)
    requires
        sorted_keys(s),
    ensures
        forall|i: int| 0 <= i < s.len() ==> #[trigger] pairs_map(s).contains_key(s[i].0) && pairs_map(s)[s[i].0] == s[i].1,
        forall|k: Seq<char>| #[trigger] pairs_map(s).contains_key(k) ==> exists|i: int| 0 <= i < s.len() && s[i].0 == k,
        pairs_map(s).dom().finite(),
        pairs_map(s).dom().len() == s.len(),
    decreases s.len(),
{
    if s.len() > 0 {
        let t = s.drop_last();
        assert(sorted_keys(t));
        lemma_pairs_map(t);
        assert forall|i: int| 0 <= i < t.len() implies t[i].0 != s.last().0 by {
            lemma_sorted_distinct(s, i, s.len() - 1);
        }
        assert(!pairs_map(t).contains_key(s.last().0));
        assert forall|i: int| 0 <= i < s.len() implies #[trigger] pairs_map(s).contains_key(s[i].0) && pairs_map(s)[s[i].0] == s[i].1 by {
            if i < s.len() - 1 {
                assert(s[i] == t[i]);
                lemma_sorted_distinct(s, i, s.len() - 1);
            }
        }
        assert forall|k: Seq<char>| #[trigger] pairs_map(s).contains_key(k) implies exists|i: int| 0 <= i < s.len() && s[i].0 == k by {
            if k != s.last().0 {
                let i = choose|i: int| 0 <= i < t.len() && t[i].0 == k;
                assert(s[i].0 == k);
            } else {
                assert(s[s.len() - 1].0 == k);
            }
        }
    }
}

/// Two sorted lists denote the same map exactly when they are equal.
pub proof fn lemma_sorted_unique_map<V>(s: Seq<(Seq<char>, V)>, t: Seq<(Seq<char>, V)>)
    requires
        sorted_keys(s),
        sorted_keys(t),
    ensures
        (pairs_map(s) == pairs_map(t)) == (s == t),
    decreases s.len() + t.len(),
{
    if pairs_map(s) == pairs_map(t) {
        lemma_pairs_map(s);
        lemma_pairs_map(t);
        if s.len() > 0 && t.len() > 0 {
            // the last keys agree: each is the greatest key of the common map
            let a = s.last().0;
            let b = t.last().0;
            assert(pairs_map(s).contains_key(s[s.len() - 1].0));
            assert(pairs_map(t).contains_key(t[t.len() - 1].0));
            assert(pairs_map(t).contains_key(a));
            assert(pairs_map(s).contains_key(b));
            let i = choose|i: int| 0 <= i < t.len() && t[i].0 == a;
            let j = choose|j: int| 0 <= j < s.len() && s[j].0 == b;
            if i < t.len() - 1 {
                assert(key_lt(t[i].0, t[t.len() - 1].0));
                if j < s.len() - 1 {
                    assert(key_lt(s[j].0, s[s.len() - 1].0));
                    lemma_key_lt_transitive(a, b, a);
                    lemma_key_lt_irreflexive(a);
                } else {
                    lemma_sorted_distinct(t, i, t.len() - 1);
                }
            } else if j < s.len() - 1 {
                assert(key_lt(s[j].0, s[s.len() - 1].0));
                lemma_key_lt_irreflexive(a);
            }
            assert(a == b);
            assert(s.last().1 == pairs_map(s)[a]);
            assert(t.last().1 == pairs_map(t)[a]);
            let s1 = s.drop_last();
            let t1 = t.drop_last();
            assert(sorted_keys(s1));
            assert(sorted_keys(t1));
            lemma_pairs_map(s1);
            lemma_pairs_map(t1);
            assert(!pairs_map(s1).contains_key(a)) by {
                if pairs_map(s1).contains_key(a) {
                    let k = choose|k: int| 0 <= k < s1.len() && s1[k].0 == a;
                    lemma_sorted_distinct(s, k, s.len() - 1);
                }
            }
            assert(!pairs_map(t1).contains_key(a)) by {
                if pairs_map(t1).contains_key(a) {
                    let k = choose|k: int| 0 <= k < t1.len() && t1[k].0 == a;
                    lemma_sorted_distinct(t, k, t.len() - 1);
                }
            }
            assert(pairs_map(s1) =~= pairs_map(s).remove(a));
            assert(pairs_map(t1) =~= pairs_map(t).remove(a));
            lemma_sorted_unique_map(s1, t1);
            assert(s =~= s1.push(s.last()));
            assert(t =~= t1.push(t.last()));
        } else if s.len() > 0 {
            assert(pairs_map(s).contains_key(s[0].0));
        } else if t.len() > 0 {
            assert(pairs_map(t).contains_key(t[0].0));
        } else {
            assert(s =~= t);
        }
    }
}

/// The entries of a finite string-keyed map, in key order.
pub open spec fn entries_of<V>(m: Map<Seq<char>, V>) -> Seq<(Seq<char>, V)> {
    choose|s: Seq<(Seq<char>, V)>| sorted_keys(s) && pairs_map(s) == m
}

pub proof fn lemma_entries_of<V>(m: Map<Seq<char>, V>, s: Seq<(Seq<char>, V)>)
    requires
        sorted_keys(s),
        pairs_map(s) == m,
    ensures
        entries_of(m) == s,
{
    let t = entries_of(m);
    assert(sorted_keys(t) && pairs_map(t) == m);
    lemma_sorted_unique_map(s, t);
}

proof fn lemma_has_max_key<V>(m: Map<Seq<char>, V>) -> (k: Seq<char>)
    requires
        m.dom().finite(),
        m.dom().len() > 0,
    ensures
        m.contains_key(k),
        forall|j: Seq<char>| #[trigger] m.contains_key(j) && j != k ==> key_lt(j, k),
    decreases m.dom().len(),
{
    let a = m.dom().choose();
    assert(m.contains_key(a));
    let rest = m.remove(a);
    assert(rest.dom() =~= m.dom().remove(a));
    if rest.dom().len() == 0 {
        assert forall|j: Seq<char>| #[trigger] m.contains_key(j) && j != a implies key_lt(j, a) by {
            assert(rest.contains_key(j));
        }
        a
    } else {
        let b = lemma_has_max_key(rest);
        lemma_key_lt_total(a, b);
        if key_lt(b, a) {
            assert forall|j: Seq<char>| #[trigger] m.contains_key(j) && j != a implies key_lt(j, a) by {
                if j != b {
                    assert(rest.contains_key(j));
                    lemma_key_lt_transitive(j, b, a);
                }
            }
            a
        } else {
            assert forall|j: Seq<char>| #[trigger] m.contains_key(j) && j != b implies key_lt(j, b) by {
                if j != a {
                    assert(rest.contains_key(j));
                }
            }
            b
        }
    }
}

/// A finite string-keyed map has its entries in key order: `entries_of`
/// lists it, and the list denotes it.
pub proof fn lemma_entries_of_finite<V>(m: Map<Seq<char>, V>)
    requires
        m.dom().finite(),
    ensures
        sorted_keys(entries_of(m)),
        pairs_map(entries_of(m)) == m,
    decreases m.dom().len(),
{
    if m.dom().len() == 0 {
        let s = Seq::<(Seq<char>, V)>::empty();
        assert(m.dom() =~= Set::<Seq<char>>::empty());
        assert(pairs_map(s) =~= m);
        assert(sorted_keys(s) && pairs_map(s) == m);
    } else {
        let k = lemma_has_max_key(m);
        let rest = m.remove(k);
        assert(rest.dom() =~= m.dom().remove(k));
        lemma_entries_of_finite(rest);
        let t = entries_of(rest);
        let s = t.push((k, m[k]));
        lemma_pairs_map(t);
        assert(s.drop_last() =~= t);
        assert(pairs_map(s) =~= m);
        assert forall|i: int, j: int| 0 <= i < j < s.len() implies key_lt(#[trigger] s[i].0, #[trigger] s[j].0) by {
            if j < s.len() - 1 {
                assert(s[i] == t[i] && s[j] == t[j]);
            } else {
                assert(s[i] == t[i]);
                assert(rest.contains_key(t[i].0));
            }
        }
        assert(sorted_keys(s) && pairs_map(s) == m);
    }
}

/// A map from string keys to values, walked in key order.
#[derive(Debug, PartialEq)]
pub struct Keyed<T: Model> {
    entries: Vec<(String, T)>,
}

impl<T: Model> Keyed<T> {
    /// The entries as (key, model) pairs, in key order.
    pub closed spec fn pairs(&self) -> Seq<(Seq<char>, T::V)> {
        Seq::new(self.entries@.len(), |i: int| (self.entries@[i].0@, self.entries@[i].1@))
    }

    #[verifier::type_invariant]
    spec fn keys_sorted(self) -> bool {
        sorted_keys(self.pairs())
    }

    /// An empty map.
    pub fn new() -> (r: Self)
        ensures
            r.pairs() == Seq::<(Seq<char>, T::V)>::empty(),
            r@ == Map::<Seq<char>, T::V>::empty(),
    {
        let r = Keyed { entries: Vec::new() };
        assert(r.pairs() =~= Seq::<(Seq<char>, T::V)>::empty());
        r
    }

    /// Number of entries; also reports that the keys are sorted.
    pub fn len(&self) -> (n: usize)
        ensures
            n == self.pairs().len(),
            sorted_keys(self.pairs()),
            self.pairs() == entries_of(self@),
            self@.dom().finite(),
            self@.dom().len() == n,
    {
        proof {
            use_type_invariant(self);
            lemma_pairs_map(self.pairs());
            lemma_entries_of(self@, self.pairs());
        }
        self.entries.len()
    }

    pub fn is_empty(&self) -> (b: bool)
        ensures
            b == (self.pairs().len() == 0),
            b == (self@ == Map::<Seq<char>, T::V>::empty()),
    {
        proof {
            use_type_invariant(self);
            lemma_pairs_map(self.pairs());
            if self.pairs().len() > 0 {
                assert(self@.contains_key(self.pairs()[0].0));
            }
        }
        self.entries.len() == 0
    }

    /// The entries, in key order.
    pub fn into_entries(self) -> (v: Vec<(String, T)>)
        ensures
            v@.len() == self.pairs().len(),
            forall|i: int| 0 <= i < v@.len() ==> (#[trigger] v@[i].0@, v@[i].1@) == self.pairs()[i],
            self.pairs() == entries_of(self@),
    {
        proof {
            use_type_invariant(&self);
            lemma_pairs_map(self.pairs());
            lemma_entries_of(self@, self.pairs());
        }
        self.entries
    }

    /// The entry at position `i` in key order.
    pub fn entry(&self, i: usize) -> (r: (&String, &T))
        requires
            i < self.pairs().len(),
        ensures
            r.0@ == self.pairs()[i as int].0,
            r.1@ == self.pairs()[i as int].1,
            self@.contains_key(r.0@),
            self@[r.0@] == r.1@,
    {
        proof {
            use_type_invariant(self);
            lemma_pairs_map(self.pairs());
        }
        let e = &self.entries[i];
        (&e.0, &e.1)
    }

    /// Position of the first key not below `key`.
    fn lower_bound(&self, key: &str) -> (p: usize)
        ensures
            p <= self.pairs().len(),
            forall|j: int| 0 <= j < p ==> key_lt(#[trigger] self.pairs()[j].0, key@),
            p < self.pairs().len() ==> !key_lt(self.pairs()[p as int].0, key@),
    {
        proof {
            use_type_invariant(self);
        }
        let mut p: usize = 0;
        while p < self.entries.len()
            invariant
                p <= self.entries@.len(),
                self.pairs().len() == self.entries@.len(),
                sorted_keys(self.pairs()),
                forall|j: int| 0 <= j < p ==> key_lt(#[trigger] self.pairs()[j].0, key@),
            decreases self.entries@.len() - p,
        {
            if !key_less(self.entries[p].0.as_str(), key) {
                return p;
            }
            p += 1;
        }
        p
    }

    /// The value stored under `key`.
    pub fn get(&self, key: &str) -> (r: Option<&T>)
        ensures
            match r {
                Some(v) => self@.contains_key(key@) && self@[key@] == v@,
                None => !self@.contains_key(key@),
            },
    {
        proof {
            use_type_invariant(self);
            lemma_pairs_map(self.pairs());
        }
        let p = self.lower_bound(key);
        if p < self.entries.len() && key_equal(self.entries[p].0.as_str(), key) {
            Some(&self.entries[p].1)
        } else {
            proof {
                if self@.contains_key(key@) {
                    let i = choose|i: int| 0 <= i < self.pairs().len() && self.pairs()[i].0 == key@;
                    if i < p {
                        assert(key_lt(self.pairs()[i].0, key@));
                        lemma_key_lt_irreflexive(key@);
                    } else if i > p {
                        assert(key_lt(self.pairs()[p as int].0, self.pairs()[i].0));
                        lemma_key_lt_total(self.pairs()[p as int].0, key@);
                    }
                }
            }
            None
        }
    }

    pub fn contains_key(&self, key: &str) -> (b: bool)
        ensures
            b == self@.contains_key(key@),
    {
        self.get(key).is_some()
    }

    /// Stores `value` under `key`, replacing what was there.
    pub fn insert(&mut self, key: String, value: T)
        ensures
            final(self)@ == old(self)@.insert(key@, value@),
            old(self).pairs().len() == 0 ==> final(self).pairs() == seq![(key@, value@)],
    {
        proof {
            use_type_invariant(&*self);
        }
        let p = self.lower_bound(key.as_str());
        let ghost old_pairs = self.pairs();
        let ghost kv = key@;
        let ghost vv = value@;
        let mut e: Vec<(String, T)> = Vec::new();
        std::mem::swap(&mut e, &mut self.entries);
        let replace = p < e.len() && key_equal(e[p].0.as_str(), key.as_str());
        if replace {
            e.remove(p);
        }
        e.insert(p, (key, value));
        let ghost new_pairs = Seq::new(e@.len(), |i: int| (e@[i].0@, e@[i].1@));
        proof {
            if replace {
                assert(new_pairs =~= old_pairs.update(p as int, (kv, vv)));
            } else {
                assert(new_pairs =~= old_pairs.insert(p as int, (kv, vv)));
            }
            if old_pairs.len() == 0 {
                assert(new_pairs =~= seq![(kv, vv)]);
            }
            if replace {
                assert(old_pairs[p as int].0 == kv);
            }
            assert forall|i: int, j: int| 0 <= i < j < new_pairs.len() implies key_lt(#[trigger] new_pairs[i].0, #[trigger] new_pairs[j].0) by {
                if replace {
                    if i == p {
                        assert(key_lt(old_pairs[i].0, old_pairs[j].0));
                    } else if j == p {
                        assert(key_lt(old_pairs[i].0, old_pairs[j].0));
                    } else {
                        assert(key_lt(old_pairs[i].0, old_pairs[j].0));
                    }
                } else {
                    if j < p {
                        assert(key_lt(old_pairs[i].0, old_pairs[j].0));
                    } else if j == p {
                        assert(key_lt(old_pairs[i].0, kv));
                    } else if i < p {
                        assert(new_pairs[j] == old_pairs[j - 1]);
                        if i < j - 1 {
                            assert(key_lt(old_pairs[i].0, old_pairs[j - 1].0));
                        }
                    } else if i == p {
                        assert(new_pairs[j] == old_pairs[j - 1]);
                        lemma_key_lt_total(old_pairs[p as int].0, kv);
                        if j - 1 > p {
                            assert(key_lt(old_pairs[p as int].0, old_pairs[j - 1].0));
                            lemma_key_lt_transitive(kv, old_pairs[p as int].0, old_pairs[j - 1].0);
                        }
                    } else {
                        assert(new_pairs[i] == old_pairs[i - 1]);
                        assert(new_pairs[j] == old_pairs[j - 1]);
                        assert(key_lt(old_pairs[i - 1].0, old_pairs[j - 1].0));
                    }
                }
            }
            lemma_pairs_map(old_pairs);
            lemma_pairs_map(new_pairs);
            let m_old = pairs_map(old_pairs);
            let m_new = pairs_map(new_pairs);
            assert forall|k: Seq<char>| #[trigger] m_new.contains_key(k) == m_old.insert(kv, vv).contains_key(k) && (m_new.contains_key(k) ==> m_new[k] == m_old.insert(kv, vv)[k]) by {
                if k == kv {
                    assert(new_pairs[p as int].0 == kv);
                } else {
                    if m_old.contains_key(k) {
                        let i = choose|i: int| 0 <= i < old_pairs.len() && old_pairs[i].0 == k;
                        if replace {
                            assert(new_pairs[i] == old_pairs[i]);
                        } else if i < p {
                            assert(new_pairs[i] == old_pairs[i]);
                        } else {
                            assert(new_pairs[i + 1] == old_pairs[i]);
                        }
                    }
                    if m_new.contains_key(k) {
                        let i = choose|i: int| 0 <= i < new_pairs.len() && new_pairs[i].0 == k;
                        if replace {
                            assert(old_pairs[i] == new_pairs[i]);
                        } else if i < p {
                            assert(old_pairs[i] == new_pairs[i]);
                        } else {
                            assert(i != p);
                            assert(old_pairs[i - 1] == new_pairs[i]);
                        }
                    }
                }
            }
            assert(m_new =~= m_old.insert(kv, vv));
        }
        self.entries = e;
    }

    /// Removes the entry for `key`, if any.
    pub fn remove(&mut self, key: &str)
        ensures
            final(self)@ == old(self)@.remove(key@),
    {
        proof {
            use_type_invariant(&*self);
        }
        let p = self.lower_bound(key);
        let ghost old_pairs = self.pairs();
        let ghost kv = key@;
        if p < self.entries.len() && key_equal(self.entries[p].0.as_str(), key) {
            assert(old_pairs[p as int].0 == kv);
            let mut e: Vec<(String, T)> = Vec::new();
            std::mem::swap(&mut e, &mut self.entries);
            e.remove(p);
            let ghost new_pairs = Seq::new(e@.len(), |i: int| (e@[i].0@, e@[i].1@));
            proof {
                assert(new_pairs =~= old_pairs.remove(p as int));
                assert forall|i: int, j: int| 0 <= i < j < new_pairs.len() implies key_lt(#[trigger] new_pairs[i].0, #[trigger] new_pairs[j].0) by {
                    let oi = if i >= p { i + 1 } else { i };
                    let oj = if j >= p { j + 1 } else { j };
                    assert(new_pairs[i] == old_pairs[oi]);
                    assert(new_pairs[j] == old_pairs[oj]);
                    assert(key_lt(old_pairs[oi].0, old_pairs[oj].0));
                }
                lemma_pairs_map(old_pairs);
                lemma_pairs_map(new_pairs);
                let m_old = pairs_map(old_pairs);
                let m_new = pairs_map(new_pairs);
                assert forall|k: Seq<char>| #[trigger] m_new.contains_key(k) == m_old.remove(kv).contains_key(k) && (m_new.contains_key(k) ==> m_new[k] == m_old[k]) by {
                    if m_new.contains_key(k) {
                        let i = choose|i: int| 0 <= i < new_pairs.len() && new_pairs[i].0 == k;
                        if i < p {
                            assert(new_pairs[i] == old_pairs[i]);
                            lemma_sorted_distinct(old_pairs, i, p as int);
                        } else {
                            assert(new_pairs[i] == old_pairs[i + 1]);
                            lemma_sorted_distinct(old_pairs, i + 1, p as int);
                        }
                    }
                    if m_old.contains_key(k) && k != kv {
                        let i = choose|i: int| 0 <= i < old_pairs.len() && old_pairs[i].0 == k;
                        if i < p {
                            assert(new_pairs[i] == old_pairs[i]);
                        } else {
                            assert(i != p);
                            assert(new_pairs[i - 1] == old_pairs[i]);
                        }
                        assert(m_new.contains_key(k));
                    }
                }
                assert(m_new =~= m_old.remove(kv));
            }
            self.entries = e;
        } else {
            proof {
                lemma_pairs_map(old_pairs);
                if pairs_map(old_pairs).contains_key(kv) {
                    let i = choose|i: int| 0 <= i < old_pairs.len() && old_pairs[i].0 == kv;
                    if i < p {
                        lemma_key_lt_irreflexive(kv);
                    } else if i > p {
                        assert(key_lt(old_pairs[p as int].0, old_pairs[i].0));
                        lemma_key_lt_total(old_pairs[p as int].0, kv);
                    }
                }
                assert(!pairs_map(old_pairs).contains_key(kv));
                assert(pairs_map(old_pairs) =~= pairs_map(old_pairs).remove(kv));
            }
        }
    }

    /// Whether both maps hold the same entries.
    pub fn same(&self, other: &Self) -> (b: bool)
        ensures
            b == (self.pairs() == other.pairs()),
            b == (self@ == other@),
    {
        proof {
            use_type_invariant(self);
            use_type_invariant(other);
            lemma_sorted_unique_map(self.pairs(), other.pairs());
        }
        let mut equal = self.entries.len() == other.entries.len();
        let mut i: usize = 0;
        while equal && i < self.entries.len()
            invariant
                i <= self.entries@.len(),
                equal ==> self.entries@.len() == other.entries@.len(),
                equal ==> forall|j: int| 0 <= j < i ==> self.pairs()[j] == other.pairs()[j],
                !equal ==> self.pairs() != other.pairs(),
            decreases self.entries@.len() - i,
        {
            if self.entries[i].0 != other.entries[i].0 || !self.entries[i].1.same(&other.entries[i].1) {
                equal = false;
                assert(self.pairs()[i as int] != other.pairs()[i as int]);
            }
            i += 1;
        }
        if equal {
            assert(self.pairs() =~= other.pairs());
        }
        equal
    }

    /// A copy with the same entries.
    pub fn duplicate(&self) -> (r: Self)
        ensures
            r.pairs() == self.pairs(),
            r@ == self@,
    {
        proof {
            use_type_invariant(self);
        }
        let mut e: Vec<(String, T)> = Vec::new();
        let mut i: usize = 0;
        while i < self.entries.len()
            invariant
                i <= self.entries@.len(),
                e@.len() == i,
                forall|j: int| 0 <= j < i ==> (#[trigger] e@[j]).0@ == self.entries@[j].0@ && e@[j].1@ == self.entries@[j].1@,
            decreases self.entries@.len() - i,
        {
            let k = self.entries[i].0.clone();
            let v = self.entries[i].1.duplicate();
            e.push((k, v));
            i += 1;
        }
        assert(Seq::new(e@.len(), |i: int| (e@[i].0@, e@[i].1@)) =~= self.pairs());
        let r = Keyed { entries: e };
        r
    }
}

impl<T: Model> Clone for Keyed<T> {
    fn clone(&self) -> Self {
        self.duplicate()
    }
}

impl<T: Model> View for Keyed<T> {
    type V = Map<Seq<char>, T::V>;

    open spec fn view(&self) -> Map<Seq<char>, T::V> {
        pairs_map(self.pairs())
    }
}

} // verus!
