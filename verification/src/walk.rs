//! Walking the integer-keyed maps of the graph in key order.
use vstd::prelude::*;
use std::collections::BTreeMap;
use vstd::std_specs::btree::{axiom_increasing_seq_meaning, axiom_spec_keys_iter, increasing_seq, spec_keys_iter};
use vstd::std_specs::iter::IteratorSpec;
use vstd::std_specs::cmp::OrdSpec;
use vstd::laws_cmp::obeys_cmp;

verus! {

broadcast use {vstd::std_specs::btree::group_btree_axioms, vstd::laws_cmp::group_laws_cmp};

proof fn lemma_increasing_refs(s: Seq<&u128>)
    requires
        increasing_seq(s),
    ensures
        forall|i: int, j: int| 0 <= i < j < s.len() ==> *s[i] < *s[j],
{
    assert(obeys_cmp::<u128>());
    assert(obeys_cmp::<&u128>());
    axiom_increasing_seq_meaning::<&u128>(s);
    assert forall|i: int, j: int| 0 <= i < j < s.len() implies *s[i] < *s[j] by {
        let a: &u128 = s[i];
        let b: &u128 = s[j];
        assert(OrdSpec::cmp_spec(&a, &b) is Less);
    }
}

/// The values `f(id)` for each `id` of `ids`, concatenated in order.
pub open spec fn gather<T>(ids: Seq<u128>, f: spec_fn(u128) -> Seq<T>) -> Seq<T>
    decreases ids.len(),
{
    if ids.len() == 0 {
        Seq::empty()
    } else {
        gather(ids.drop_last(), f) + f(ids.last())
    }
}

pub proof fn lemma_gather_step<T>(ids: Seq<u128>, i: int, f: spec_fn(u128) -> Seq<T>)
    requires
        0 <= i < ids.len(),
    ensures
        gather(ids.take(i + 1), f) == gather(ids.take(i), f) + f(ids[i]),
{
    assert(ids.take(i + 1).drop_last() =~= ids.take(i));
}

/// One step of a loop that gathers: the output grew by `f(ids[i])`.
pub proof fn lemma_gather_grown<T>(start: Seq<T>, before: Seq<T>, after: Seq<T>, ids: Seq<u128>, i: int, f: spec_fn(u128) -> Seq<T>)
    requires
        0 <= i < ids.len(),
        before == start + gather(ids.take(i), f),
        after == before + f(ids[i]),
    ensures
        after == start + gather(ids.take(i + 1), f),
{
    lemma_gather_step(ids, i, f);
    assert(after =~= start + gather(ids.take(i + 1), f));
}

/// Strictly increasing.
pub open spec fn increasing(s: Seq<u128>) -> bool {
    forall|i: int, j: int| 0 <= i < j < s.len() ==> s[i] < s[j]
}

/// The keys of a map, in increasing order.
pub open spec fn ordered_ids<V>(m: Map<u128, V>) -> Seq<u128> {
    choose|s: Seq<u128>| increasing(s) && s.to_set() == m.dom()
}

proof fn lemma_increasing_unique(s: Seq<u128>, t: Seq<u128>, i: int)
    requires
        increasing(s),
        increasing(t),
        s.to_set() == t.to_set(),
        0 <= i < s.len(),
        i < t.len(),
    ensures
        s[i] == t[i],
    decreases i,
{
    assert forall|k: int| 0 <= k < i implies s[k] == t[k] by {
        lemma_increasing_unique(s, t, k);
    }
    assert(t.to_set().contains(s[i]));
    let j = choose|j: int| 0 <= j < t.len() && t[j] == s[i];
    assert(s.to_set().contains(t[i]));
    let k = choose|k: int| 0 <= k < s.len() && s[k] == t[i];
    if j > i {
        assert(t[i] < t[j]);
        assert(s[k] < s[i]);
        assert(k < i);
        assert(t[k] == s[k]);
    } else if j < i {
        assert(t[j] == s[j]);
    }
}

/// A strictly increasing sequence is determined by its elements.
pub proof fn lemma_ordered_ids<V>(m: Map<u128, V>, s: Seq<u128>)
    requires
        increasing(s),
        s.to_set() == m.dom(),
    ensures
        ordered_ids(m) == s,
{
    let t = ordered_ids(m);
    assert(increasing(t) && t.to_set() == m.dom());
    assert(s.no_duplicates());
    assert(t.no_duplicates());
    s.unique_seq_to_set();
    t.unique_seq_to_set();
    assert forall|i: int| 0 <= i < s.len() implies s[i] == t[i] by {
        lemma_increasing_unique(s, t, i);
    }
    assert(s =~= t);
}

proof fn lemma_has_max(s: Set<u128>)
    requires
        s.finite(),
        s.len() > 0,
    ensures
        exists|m: u128| s.contains(m) && forall|y: u128| #[trigger] s.contains(y) ==> y <= m,
    decreases s.len(),
{
    let x = s.choose();
    let r = s.remove(x);
    if r.len() == 0 {
        assert forall|y: u128| #[trigger] s.contains(y) implies y <= x by {
            if y != x {
                assert(r.contains(y));
            }
        }
    } else {
        lemma_has_max(r);
        let m = choose|m: u128| r.contains(m) && forall|y: u128| #[trigger] r.contains(y) ==> y <= m;
        if x > m {
            assert forall|y: u128| #[trigger] s.contains(y) implies y <= x by {
                if y != x {
                    assert(r.contains(y));
                }
            }
        } else {
            assert forall|y: u128| #[trigger] s.contains(y) implies y <= m by {
                if y != x {
                    assert(r.contains(y));
                }
            }
        }
    }
}

pub proof fn lemma_increasing_exists(s: Set<u128>)
    requires
        s.finite(),
    ensures
        exists|q: Seq<u128>| increasing(q) && q.to_set() == s,
    decreases s.len(),
{
    if s.len() == 0 {
        assert(Seq::<u128>::empty().to_set() =~= s);
        assert(increasing(Seq::<u128>::empty()));
    } else {
        lemma_has_max(s);
        let m = choose|m: u128| s.contains(m) && forall|y: u128| #[trigger] s.contains(y) ==> y <= m;
        let r = s.remove(m);
        lemma_increasing_exists(r);
        let q0 = choose|q: Seq<u128>| increasing(q) && q.to_set() == r;
        let q = q0.push(m);
        assert forall|i: int, j: int| 0 <= i < j < q.len() implies q[i] < q[j] by {
            if j == q.len() - 1 {
                assert(q0.to_set().contains(q0[i]));
                assert(s.contains(q[i]));
            } else {
                assert(q[i] == q0[i] && q[j] == q0[j]);
            }
        }
        assert forall|y: u128| q.to_set().contains(y) <==> s.contains(y) by {
            if q.to_set().contains(y) {
                let i = choose|i: int| 0 <= i < q.len() && q[i] == y;
                if i < q.len() - 1 {
                    assert(q0[i] == y);
                    assert(q0.to_set().contains(y));
                }
            }
            if s.contains(y) {
                if y == m {
                    assert(q[q.len() - 1] == y);
                } else {
                    assert(r.contains(y));
                    let i = choose|i: int| 0 <= i < q0.len() && q0[i] == y;
                    assert(q[i] == y);
                }
            }
        }
        assert(q.to_set() =~= s);
    }
}

/// The ordered identifiers of a finite map list its keys, each once.
pub proof fn lemma_ordered_ids_keys<V>(m: Map<u128, V>)
    requires
        m.dom().finite(),
    ensures
        ordered_ids(m).no_duplicates(),
        forall|k: u128| #[trigger] ordered_ids(m).contains(k) <==> m.contains_key(k),
        forall|i: int| 0 <= i < ordered_ids(m).len() ==> m.contains_key(#[trigger] ordered_ids(m)[i]),
{
    lemma_increasing_exists(m.dom());
    let q = ordered_ids(m);
    assert(increasing(q) && q.to_set() == m.dom());
    assert forall|k: u128| #[trigger] q.contains(k) <==> m.contains_key(k) by {
        assert(q.to_set().contains(k) == q.contains(k));
    }
    assert forall|i: int| 0 <= i < q.len() implies m.contains_key(#[trigger] q[i]) by {
        assert(q.contains(q[i]));
    }
}

/// The keys of a map in increasing order.
pub fn sorted_keys_of<V>(m: &BTreeMap<u128, V>) -> (v: Vec<u128>)
    ensures
        v@.to_set() == m@.dom(),
        v@.no_duplicates(),
        v@.len() == m@.dom().len(),
        forall|i: int, j: int| 0 <= i < j < v@.len() ==> v@[i] < v@[j],
        forall|k: u128| m@.contains_key(k) <==> v@.contains(k),
        v@ == ordered_ids(m@),
{
    let mut v: Vec<u128> = Vec::new();
    let ghost all = spec_keys_iter(m).remaining().unref();
    proof {
        axiom_spec_keys_iter(m);
    }
    for k in it: m.keys()
        invariant
            it.seq() == spec_keys_iter(m).remaining(),
            all == it.seq().unref(),
            v@ == all.take(it.index()),
    {
        v.push(*k);
    }
    proof {
        assert(v@ =~= all);
        lemma_increasing_refs(spec_keys_iter(m).remaining());
        v@.unique_seq_to_set();
        assert forall|k: u128| m@.contains_key(k) <==> v@.contains(k) by {
            if v@.contains(k) {
                assert(v@.to_set().contains(k));
            }
            if m@.contains_key(k) {
                assert(v@.to_set().contains(k));
            }
        }
        lemma_ordered_ids(m@, v@);
    }
    v
}

} // verus!
