//! Kahn's algorithm: the nodes that can be ordered so that every edge goes
//! forward, and the cycles among the ones that cannot.
use vstd::prelude::*;
use std::collections::BTreeMap;
use crate::ids::StableId;
use crate::ir::{EdgeKind, EdgeV, Graph, GraphV};
use crate::walk::{gather, lemma_gather_grown, lemma_ordered_ids, lemma_ordered_ids_keys, ordered_ids, sorted_keys_of};

verus! {

broadcast use {vstd::std_specs::btree::group_btree_axioms, vstd::laws_cmp::group_laws_cmp};

/// Number of edges into `v` whose source is outside `done`.
pub open spec fn count_in(es: Seq<(u128, u128)>, v: u128, done: Set<u128>) -> nat
    decreases es.len(),
{
    if es.len() == 0 {
        0
    } else {
        count_in(es.drop_last(), v, done) + if es.last().1 == v && !done.contains(es.last().0) { 1nat } else { 0nat }
    }
}

/// Targets of the edges leaving `s`, in edge order.
pub open spec fn targets_from(es: Seq<(u128, u128)>, s: u128) -> Seq<u128>
    decreases es.len(),
{
    if es.len() == 0 {
        Seq::empty()
    } else if es.last().0 == s {
        targets_from(es.drop_last(), s).push(es.last().1)
    } else {
        targets_from(es.drop_last(), s)
    }
}

/// Number of occurrences of `v` in `s`.
pub open spec fn occurrences(s: Seq<u128>, v: u128) -> nat
    decreases s.len(),
{
    if s.len() == 0 {
        0
    } else {
        occurrences(s.drop_last(), v) + if s.last() == v { 1nat } else { 0nat }
    }
}

/// What Kahn's algorithm yields over vertices `vs` and edges `es`: an order of
/// distinct vertices in which the source of every edge into a vertex comes
/// before it, and that leaves out only vertices with an edge from a vertex
/// left out (or from outside `vs`).
pub open spec fn kahn_order(vs: Set<u128>, es: Seq<(u128, u128)>, order: Seq<u128>) -> bool {
    &&& order.no_duplicates()
    &&& forall|i: int| 0 <= i < order.len() ==> vs.contains(#[trigger] order[i])
    &&& forall|i: int, k: int| 0 <= i < order.len() && 0 <= k < es.len() && #[trigger] es[k].1 == #[trigger] order[i]
        ==> exists|j: int| 0 <= j < i && order[j] == es[k].0
    &&& forall|v: u128| #[trigger] vs.contains(v) && !order.contains(v)
        ==> exists|k: int| 0 <= k < es.len() && es[k].1 == v && !order.contains(es[k].0)
}

proof fn lemma_count_in_step(es: Seq<(u128, u128)>, v: u128, done: Set<u128>, u: u128)
    requires
        !done.contains(u),
    ensures
        count_in(es, v, done) == count_in(es, v, done.insert(u)) + occurrences(targets_from(es, u), v),
    decreases es.len(),
{
    if es.len() > 0 {
        lemma_count_in_step(es.drop_last(), v, done, u);
        let t = targets_from(es.drop_last(), u);
        if es.last().0 == u {
            assert(t.push(es.last().1).drop_last() =~= t);
        }
    }
}

proof fn lemma_count_in_zero(es: Seq<(u128, u128)>, v: u128, done: Set<u128>)
    ensures
        count_in(es, v, done) == 0 <==> forall|k: int| 0 <= k < es.len() && #[trigger] es[k].1 == v ==> done.contains(es[k].0),
    decreases es.len(),
{
    if es.len() > 0 {
        lemma_count_in_zero(es.drop_last(), v, done);
        let p = es.drop_last();
        if count_in(es, v, done) == 0 {
            assert forall|k: int| 0 <= k < es.len() && #[trigger] es[k].1 == v implies done.contains(es[k].0) by {
                if k < es.len() - 1 {
                    assert(p[k] == es[k]);
                }
            }
        } else {
            if count_in(p, v, done) == 0 {
                let k = es.len() - 1;
                assert(es[k].1 == v && !done.contains(es[k].0));
            } else {
                let k = choose|k: int| 0 <= k < p.len() && #[trigger] p[k].1 == v && !done.contains(p[k].0);
                assert(es[k] == p[k]);
            }
        }
    }
}

proof fn lemma_occurrences_take(s: Seq<u128>, j: int, v: u128)
    requires
        0 <= j < s.len(),
    ensures
        occurrences(s.take(j + 1), v) == occurrences(s.take(j), v) + if s[j] == v { 1nat } else { 0nat },
{
    assert(s.take(j + 1).drop_last() =~= s.take(j));
}

proof fn lemma_occurrences_prefix(s: Seq<u128>, j: int, v: u128)
    requires
        0 <= j <= s.len(),
    ensures
        occurrences(s.take(j), v) <= occurrences(s, v),
    decreases s.len() - j,
{
    if j < s.len() {
        lemma_occurrences_take(s, j, v);
        lemma_occurrences_prefix(s, j + 1, v);
    } else {
        assert(s.take(j) =~= s);
    }
}

proof fn lemma_targets_push(es: Seq<(u128, u128)>, e: (u128, u128), s: u128)
    ensures
        targets_from(es.push(e), s) == if e.0 == s { targets_from(es, s).push(e.1) } else { targets_from(es, s) },
{
    assert(es.push(e).drop_last() =~= es);
}

proof fn lemma_count_in_push(es: Seq<(u128, u128)>, e: (u128, u128), v: u128, done: Set<u128>)
    ensures
        count_in(es.push(e), v, done) == count_in(es, v, done) + if e.1 == v && !done.contains(e.0) { 1nat } else { 0nat },
{
    assert(es.push(e).drop_last() =~= es);
}

proof fn lemma_no_dup_len(q: Seq<u128>, vs: Seq<u128>)
    requires
        q.no_duplicates(),
        vs.no_duplicates(),
        forall|i: int| 0 <= i < q.len() ==> vs.contains(#[trigger] q[i]),
    ensures
        q.len() <= vs.len(),
{
    q.unique_seq_to_set();
    vs.unique_seq_to_set();
    assert(q.to_set().subset_of(vs.to_set())) by {
        assert forall|x: u128| q.to_set().contains(x) implies vs.to_set().contains(x) by {
            let i = choose|i: int| 0 <= i < q.len() && q[i] == x;
            assert(vs.contains(q[i]));
        }
    }
    vstd::set_lib::lemma_len_subset(q.to_set(), vs.to_set());
}

/// Kahn's algorithm over the vertices `vs` (distinct) and the edges `es`
/// (source, target), whose targets are vertices; sources outside `vs` are
/// never ordered. Vertices are taken in queue order, starting from those
/// without incoming edges in the order of `vs`.
pub fn kahn(vs: &Vec<u128>, es: &Vec<(u128, u128)>) -> (order: Vec<u128>)
    requires
        vs@.no_duplicates(),
        forall|k: int| 0 <= k < es@.len() ==> vs@.contains(#[trigger] es@[k].1),
    ensures
        kahn_order(vs@.to_set(), es@, order@),
{
    let ghost e = es@;
    let ghost vset = vs@.to_set();
    // In-degrees.
    let mut indeg: BTreeMap<u128, usize> = BTreeMap::new();
    let mut i: usize = 0;
    while i < vs.len()
        invariant
            i <= vs@.len(),
            forall|v: u128| #[trigger] indeg@.contains_key(v) <==> exists|j: int| 0 <= j < i && vs@[j] == v,
            forall|v: u128| #[trigger] indeg@.contains_key(v) ==> indeg@[v] == 0,
        decreases vs@.len() - i,
    {
        indeg.insert(vs[i], 0);
        proof {
            assert forall|v: u128| #[trigger] indeg@.contains_key(v) <==> exists|j: int| 0 <= j < i + 1 && vs@[j] == v by {
                if v == vs@[i as int] {
                    assert(vs@[i as int] == v);
                }
            }
        }
        i += 1;
    }
    proof {
        assert forall|v: u128| #[trigger] indeg@.contains_key(v) <==> vs@.contains(v) by {
            if vs@.contains(v) {
                let j = choose|j: int| 0 <= j < vs@.len() && vs@[j] == v;
                assert(vs@[j] == v);
            }
        }
    }
    // Adjacency lists and edge counts.
    let mut adj: BTreeMap<u128, Vec<u128>> = BTreeMap::new();
    let mut k: usize = 0;
    while k < es.len()
        invariant
            e == es@,
            k <= e.len(),
            forall|k2: int| 0 <= k2 < e.len() ==> vs@.contains(#[trigger] e[k2].1),
            forall|v: u128| #[trigger] indeg@.contains_key(v) <==> vs@.contains(v),
            forall|v: u128| #[trigger] indeg@.contains_key(v) ==> indeg@[v] == count_in(e.take(k as int), v, Set::empty()),
            forall|v: u128| #[trigger] indeg@.contains_key(v) ==> indeg@[v] <= k,
            forall|s: u128| #[trigger] adj@.contains_key(s) ==> adj@[s]@ == targets_from(e.take(k as int), s),
            forall|s: u128| !adj@.contains_key(s) ==> #[trigger] targets_from(e.take(k as int), s) == Seq::<u128>::empty(),
        decreases e.len() - k,
    {
        let (s, t) = es[k];
        let mut list: Vec<u128> = match adj.remove(&s) {
            Some(l) => l,
            None => Vec::new(),
        };
        list.push(t);
        adj.insert(s, list);
        assert(vs@.contains(e[k as int].1));
        assert(indeg@.contains_key(t));
        let d = match indeg.get(&t) {
            Some(d) => *d,
            None => 0,
        };
        indeg.insert(t, d + 1);
        proof {
            assert(e.take(k + 1) =~= e.take(k as int).push(e[k as int]));
            assert forall|v: u128| #[trigger] indeg@.contains_key(v) implies indeg@[v] == count_in(e.take(k + 1), v, Set::empty()) by {
                lemma_count_in_push(e.take(k as int), e[k as int], v, Set::empty());
            }
            assert forall|s2: u128| #[trigger] adj@.contains_key(s2) implies adj@[s2]@ == targets_from(e.take(k + 1), s2) by {
                lemma_targets_push(e.take(k as int), e[k as int], s2);
            }
            assert forall|s2: u128| !adj@.contains_key(s2) implies #[trigger] targets_from(e.take(k + 1), s2) == Seq::<u128>::empty() by {
                lemma_targets_push(e.take(k as int), e[k as int], s2);
            }
        }
        k += 1;
    }
    proof {
        assert(e.take(e.len() as int) =~= e);
    }
    // The initial queue: vertices without incoming edges, in the order of `vs`.
    let mut queue: Vec<u128> = Vec::new();
    let mut i: usize = 0;
    while i < vs.len()
        invariant
            i <= vs@.len(),
            vs@.no_duplicates(),
            forall|v: u128| #[trigger] indeg@.contains_key(v) <==> vs@.contains(v),
            queue@.no_duplicates(),
            forall|j: int| 0 <= j < queue@.len() ==> #[trigger] indeg@[queue@[j]] == 0 && vs@.contains(queue@[j]),
            forall|j: int| 0 <= j < i && indeg@[vs@[j]] == 0 ==> #[trigger] queue@.contains(vs@[j]),
            forall|v: u128| #[trigger] queue@.contains(v) ==> exists|j: int| 0 <= j < i && vs@[j] == v,
        decreases vs@.len() - i,
    {
        let v = vs[i];
        assert(vs@.contains(v)) by {
            assert(vs@[i as int] == v);
        }
        assert(indeg@.contains_key(v));
        let d = match indeg.get(&v) {
            Some(d) => *d,
            None => 1,
        };
        let ghost q0 = queue@;
        if d == 0 {
            proof {
                if q0.contains(v) {
                    let j = choose|j: int| 0 <= j < i && vs@[j] == v;
                    assert(vs@[j] == vs@[i as int]);
                }
            }
            queue.push(v);
        }
        proof {
            assert forall|j: int| 0 <= j < i + 1 && indeg@[vs@[j]] == 0 implies #[trigger] queue@.contains(vs@[j]) by {
                if j < i {
                    assert(q0.contains(vs@[j]));
                    let j2 = choose|j2: int| 0 <= j2 < q0.len() && q0[j2] == vs@[j];
                    assert(queue@[j2] == vs@[j]);
                } else {
                    assert(queue@[queue@.len() - 1] == vs@[j]);
                }
            }
            assert forall|w: u128| #[trigger] queue@.contains(w) implies exists|j: int| 0 <= j < i + 1 && vs@[j] == w by {
                let j = choose|j: int| 0 <= j < queue@.len() && queue@[j] == w;
                if j < q0.len() {
                    assert(q0[j] == w);
                    assert(q0.contains(w));
                } else {
                    assert(vs@[i as int] == w);
                }
            }
        }
        i += 1;
    }
    proof {
        assert forall|v: u128| #[trigger] indeg@.contains_key(v) implies (queue@.contains(v) <==> indeg@[v] == 0) by {
            if queue@.contains(v) {
                let j = choose|j: int| 0 <= j < queue@.len() && queue@[j] == v;
                assert(indeg@[queue@[j]] == 0);
            }
            if indeg@[v] == 0 {
                let j = choose|j: int| 0 <= j < vs@.len() && vs@[j] == v;
                assert(queue@.contains(vs@[j]));
            }
        }
        assert forall|qi: int, k2: int| 0 <= qi < queue@.len() && 0 <= k2 < e.len() && #[trigger] e[k2].1 == #[trigger] queue@[qi]
            implies exists|j: int| 0 <= j < qi && queue@[j] == e[k2].0 by {
            let v = queue@[qi];
            assert(indeg@[queue@[qi]] == 0 && vs@.contains(queue@[qi]));
            assert(indeg@.contains_key(v));
            assert(indeg@[v] == count_in(e, v, Set::empty()));
            lemma_count_in_zero(e, v, Set::empty());
            assert(!Set::<u128>::empty().contains(e[k2].0));
        }
        assert forall|j: int| 0 <= j < queue@.len() implies vs@.contains(#[trigger] queue@[j]) by {
            assert(indeg@[queue@[j]] == 0 && vs@.contains(queue@[j]));
        }
        assert(queue@.take(0).to_set() =~= Set::<u128>::empty());
    }
    // Take vertices off the queue; a vertex joins it when its last incoming
    // edge from an unordered vertex is taken away.
    let mut head: usize = 0;
    while head < queue.len()
        invariant
            e == es@,
            vs@.no_duplicates(),
            forall|k2: int| 0 <= k2 < e.len() ==> vs@.contains(#[trigger] e[k2].1),
            head <= queue@.len(),
            queue@.no_duplicates(),
            forall|j: int| 0 <= j < queue@.len() ==> vs@.contains(#[trigger] queue@[j]),
            forall|v: u128| #[trigger] indeg@.contains_key(v) <==> vs@.contains(v),
            forall|v: u128| #[trigger] indeg@.contains_key(v) ==> indeg@[v] == count_in(e, v, queue@.take(head as int).to_set()),
            forall|v: u128| #[trigger] indeg@.contains_key(v) ==> (queue@.contains(v) <==> indeg@[v] == 0),
            forall|s: u128| #[trigger] adj@.contains_key(s) ==> adj@[s]@ == targets_from(e, s),
            forall|s: u128| !adj@.contains_key(s) ==> #[trigger] targets_from(e, s) == Seq::<u128>::empty(),
            forall|qi: int, k2: int| 0 <= qi < queue@.len() && 0 <= k2 < e.len() && #[trigger] e[k2].1 == #[trigger] queue@[qi]
                ==> exists|j: int| 0 <= j < qi && queue@[j] == e[k2].0,
        decreases vs@.len() - head,
    {
        proof {
            lemma_no_dup_len(queue@, vs@);
        }
        let u = queue[head];
        let ghost t1 = queue@.take(head as int);
        let ghost t2 = queue@.take(head + 1);
        let ghost done = t1.to_set();
        let ghost done2 = t2.to_set();
        proof {
            assert(!done.contains(u)) by {
                if done.contains(u) {
                    let j = choose|j: int| 0 <= j < t1.len() && t1[j] == u;
                    assert(queue@[j] == queue@[head as int]);
                }
            }
            assert(done2 =~= done.insert(u)) by {
                assert forall|x: u128| done2.contains(x) <==> done.insert(u).contains(x) by {
                    if done2.contains(x) {
                        let j = choose|j: int| 0 <= j < t2.len() && t2[j] == x;
                        if j < head {
                            assert(t1[j] == x);
                        }
                    }
                    if done.contains(x) {
                        let j = choose|j: int| 0 <= j < t1.len() && t1[j] == x;
                        assert(t2[j] == x);
                    }
                    if x == u {
                        assert(t2[head as int] == x);
                    }
                }
            }
            assert forall|x: u128| #[trigger] done2.contains(x) implies exists|q: int| 0 <= q <= head && queue@[q] == x by {
                let j = choose|j: int| 0 <= j < t2.len() && t2[j] == x;
                assert(queue@[j] == x);
            }
            assert forall|v: u128| #[trigger] indeg@.contains_key(v) implies occurrences(targets_from(e, u), v) <= count_in(e, v, done) by {
                lemma_count_in_step(e, v, done, u);
            }
        }
        match adj.get(&u) {
            Some(ns) => {
                let mut j: usize = 0;
                while j < ns.len()
                    invariant
                        e == es@,
                        ns@ == targets_from(e, u),
                        j <= ns@.len(),
                        vs@.no_duplicates(),
                        forall|k2: int| 0 <= k2 < e.len() ==> vs@.contains(#[trigger] e[k2].1),
                        head < queue@.len(),
                        queue@[head as int] == u,
                        !done.contains(u),
                        t1 == queue@.take(head as int),
                        t2 == queue@.take(head + 1),
                        done == t1.to_set(),
                        done2 == t2.to_set(),
                        done2 == done.insert(u),
                        queue@.no_duplicates(),
                        forall|q: int| 0 <= q < queue@.len() ==> vs@.contains(#[trigger] queue@[q]),
                        forall|v: u128| #[trigger] indeg@.contains_key(v) <==> vs@.contains(v),
                        forall|v: u128| #[trigger] indeg@.contains_key(v) ==> indeg@[v] + occurrences(ns@.take(j as int), v) == count_in(e, v, done),
                        forall|v: u128| #[trigger] indeg@.contains_key(v) ==> occurrences(ns@, v) <= count_in(e, v, done),
                        forall|v: u128| #[trigger] indeg@.contains_key(v) ==> (queue@.contains(v) <==> indeg@[v] == 0),
                        forall|qi: int, k2: int| 0 <= qi < queue@.len() && 0 <= k2 < e.len() && #[trigger] e[k2].1 == #[trigger] queue@[qi]
                            ==> exists|j2: int| 0 <= j2 < qi && queue@[j2] == e[k2].0,
                        forall|x: u128| #[trigger] done2.contains(x) ==> exists|q: int| 0 <= q <= head && queue@[q] == x,
                    decreases ns@.len() - j,
                {
                    let v = ns[j];
                    proof {
                        assert(ns@.contains(v)) by {
                            assert(ns@[j as int] == v);
                        }
                        lemma_targets_in(e, u, j as int);
                        let kk = choose|kk: int| 0 <= kk < e.len() && e[kk].0 == u && #[trigger] e[kk].1 == targets_from(e, u)[j as int];
                        assert(vs@.contains(e[kk].1));
                        assert(indeg@.contains_key(v));
                        lemma_occurrences_take(ns@, j as int, v);
                        lemma_occurrences_prefix(ns@, j + 1, v);
                    }
                    let d = match indeg.get(&v) {
                        Some(d) => *d,
                        None => 1,
                    };
                    let ghost q0 = queue@;
                    indeg.insert(v, d - 1);
                    if d - 1 == 0 {
                        proof {
                            assert(!q0.contains(v));
                            lemma_count_in_step(e, v, done, u);
                            lemma_count_in_zero(e, v, done2);
                            assert forall|k2: int| 0 <= k2 < e.len() && #[trigger] e[k2].1 == v implies exists|j2: int| 0 <= j2 < q0.len() && q0[j2] == e[k2].0 by {
                                assert(done2.contains(e[k2].0));
                                let q = choose|q: int| 0 <= q <= head && q0[q] == e[k2].0;
                            }
                        }
                        queue.push(v);
                        proof {
                            assert(queue@.take(head as int) =~= t1);
                            assert(queue@.take(head + 1) =~= t2);
                            assert forall|qi: int, k2: int| 0 <= qi < queue@.len() && 0 <= k2 < e.len() && #[trigger] e[k2].1 == #[trigger] queue@[qi]
                                implies exists|j2: int| 0 <= j2 < qi && queue@[j2] == e[k2].0 by {
                                if qi < q0.len() {
                                    assert(q0[qi] == queue@[qi]);
                                    let j2 = choose|j2: int| 0 <= j2 < qi && q0[j2] == e[k2].0;
                                    assert(queue@[j2] == e[k2].0);
                                } else {
                                    let j2 = choose|j2: int| 0 <= j2 < q0.len() && q0[j2] == e[k2].0;
                                    assert(queue@[j2] == e[k2].0);
                                }
                            }
                        }
                    }
                    proof {
                        assert forall|w: u128| #[trigger] indeg@.contains_key(w) implies indeg@[w] + occurrences(ns@.take(j + 1), w) == count_in(e, w, done) by {
                            lemma_occurrences_take(ns@, j as int, w);
                        }
                        assert forall|w: u128| #[trigger] indeg@.contains_key(w) implies (queue@.contains(w) <==> indeg@[w] == 0) by {
                            if w != v {
                                if queue@.contains(w) && !q0.contains(w) {
                                    let q = choose|q: int| 0 <= q < queue@.len() && queue@[q] == w;
                                    assert(q == q0.len());
                                }
                                if q0.contains(w) {
                                    let q = choose|q: int| 0 <= q < q0.len() && q0[q] == w;
                                    assert(queue@[q] == w);
                                }
                            } else if indeg@[w] == 0 {
                                assert(queue@[queue@.len() - 1] == w);
                            } else if queue@.contains(w) {
                                let q = choose|q: int| 0 <= q < queue@.len() && queue@[q] == w;
                                assert(q < q0.len());
                                assert(q0[q] == w);
                            }
                        }
                        assert forall|x: u128| #[trigger] done2.contains(x) implies exists|q: int| 0 <= q <= head && queue@[q] == x by {
                            let q = choose|q: int| 0 <= q <= head && q0[q] == x;
                            assert(queue@[q] == x);
                        }
                    }
                    j += 1;
                }
                proof {
                    assert(ns@.take(ns@.len() as int) =~= ns@);
                    assert forall|v: u128| #[trigger] indeg@.contains_key(v) implies indeg@[v] == count_in(e, v, done2) by {
                        lemma_count_in_step(e, v, done, u);
                    }
                }
            },
            None => {
                proof {
                    assert forall|v: u128| #[trigger] indeg@.contains_key(v) implies indeg@[v] == count_in(e, v, done2) by {
                        lemma_count_in_step(e, v, done, u);
                    }
                }
            },
        }
        head += 1;
    }
    proof {
        assert(queue@.take(queue@.len() as int) =~= queue@);
        let done = queue@.to_set();
        assert forall|i2: int| 0 <= i2 < queue@.len() implies vs@.to_set().contains(#[trigger] queue@[i2]) by {
            assert(vs@.contains(queue@[i2]));
        }
        assert forall|v: u128| #[trigger] vs@.to_set().contains(v) && !queue@.contains(v)
            implies exists|k2: int| 0 <= k2 < e.len() && e[k2].1 == v && !queue@.contains(e[k2].0) by {
            assert(vs@.contains(v));
            assert(indeg@.contains_key(v));
            assert(indeg@[v] != 0);
            lemma_count_in_zero(e, v, done);
            let k2 = choose|k2: int| 0 <= k2 < e.len() && #[trigger] e[k2].1 == v && !done.contains(e[k2].0);
            assert(!queue@.contains(e[k2].0));
        }
    }
    queue
}

proof fn lemma_targets_in(es: Seq<(u128, u128)>, s: u128, j: int)
    requires
        0 <= j < targets_from(es, s).len(),
    ensures
        exists|k: int| 0 <= k < es.len() && es[k].0 == s && #[trigger] es[k].1 == targets_from(es, s)[j],
    decreases es.len(),
{
    let p = es.drop_last();
    if es.last().0 == s && j == targets_from(p, s).len() {
        assert(es[es.len() - 1].1 == targets_from(es, s)[j]);
    } else {
        assert(targets_from(es, s)[j] == targets_from(p, s)[j]);
        lemma_targets_in(p, s, j);
        let k = choose|k: int| 0 <= k < p.len() && p[k].0 == s && #[trigger] p[k].1 == targets_from(p, s)[j];
        assert(es[k] == p[k]);
    }
}


// ── Orders on graphs ──────────────────

/// The (source node, target node) of an edge.
pub open spec fn pair_of(e: EdgeV) -> (u128, u128) {
    (e.source.node_id, e.target.node_id)
}

/// The edges of `g` taken into account: all, or only the causal (normal) ones.
pub open spec fn considered(e: EdgeV, causal_only: bool) -> bool {
    !causal_only || e.kind == EdgeKind::Normal
}

/// The pair of edge `k` of `g`, if it is considered.
pub open spec fn pair_at(g: GraphV, causal_only: bool) -> spec_fn(u128) -> Seq<(u128, u128)> {
    |k: u128| if considered(g.edges[k], causal_only) { seq![pair_of(g.edges[k])] } else { Seq::empty() }
}

/// The pairs of the considered edges of `g`, in identifier order.
pub open spec fn edge_pairs(g: GraphV, causal_only: bool) -> Seq<(u128, u128)> {
    gather(ordered_ids(g.edges), pair_at(g, causal_only))
}

/// The identifiers of a list of node identifiers.
pub open spec fn id_values(v: Seq<StableId>) -> Seq<u128> {
    v.map_values(|s: StableId| s.0)
}

/// An order that Kahn's algorithm yields (any two have the same elements).
pub open spec fn settled(vs: Set<u128>, es: Seq<(u128, u128)>) -> Seq<u128> {
    choose|o: Seq<u128>| kahn_order(vs, es, o)
}

proof fn lemma_kahn_in_other(vs: Set<u128>, es: Seq<(u128, u128)>, o1: Seq<u128>, o2: Seq<u128>, i: int)
    requires
        kahn_order(vs, es, o1),
        kahn_order(vs, es, o2),
        0 <= i < o1.len(),
    ensures
        o2.contains(o1[i]),
    decreases i,
{
    let x = o1[i];
    if !o2.contains(x) {
        assert(vs.contains(o1[i]));
        let k = choose|k: int| 0 <= k < es.len() && es[k].1 == x && !o2.contains(es[k].0);
        assert(es[k].1 == o1[i]);
        let j = choose|j: int| 0 <= j < i && o1[j] == es[k].0;
        lemma_kahn_in_other(vs, es, o1, o2, j);
    }
}

/// All orders that Kahn's algorithm may yield hold the same vertices.
pub proof fn lemma_kahn_unique(vs: Set<u128>, es: Seq<(u128, u128)>, o1: Seq<u128>, o2: Seq<u128>)
    requires
        kahn_order(vs, es, o1),
        kahn_order(vs, es, o2),
    ensures
        o1.to_set() == o2.to_set(),
        o1.len() == o2.len(),
{
    assert forall|x: u128| o1.to_set().contains(x) <==> o2.to_set().contains(x) by {
        if o1.contains(x) {
            let i = choose|i: int| 0 <= i < o1.len() && o1[i] == x;
            lemma_kahn_in_other(vs, es, o1, o2, i);
        }
        if o2.contains(x) {
            let i = choose|i: int| 0 <= i < o2.len() && o2[i] == x;
            lemma_kahn_in_other(vs, es, o2, o1, i);
        }
    }
    assert(o1.to_set() =~= o2.to_set());
    o1.unique_seq_to_set();
    o2.unique_seq_to_set();
}

pub proof fn lemma_settled(vs: Set<u128>, es: Seq<(u128, u128)>, o: Seq<u128>)
    requires
        kahn_order(vs, es, o),
    ensures
        kahn_order(vs, es, settled(vs, es)),
        settled(vs, es).len() == o.len(),
        settled(vs, es).to_set() == o.to_set(),
{
    lemma_kahn_unique(vs, es, settled(vs, es), o);
}

/// Every pair is that of a considered edge of `g`.
pub open spec fn pairs_witnessed(g: GraphV, causal_only: bool, s: Seq<(u128, u128)>) -> bool {
    forall|k: int| #![trigger s[k]] 0 <= k < s.len() ==> exists|id: u128| #[trigger] g.edges.contains_key(id)
        && considered(g.edges[id], causal_only) && s[k] == pair_of(g.edges[id])
}

proof fn lemma_witnessed_push(g: GraphV, causal_only: bool, s: Seq<(u128, u128)>, id: u128)
    requires
        pairs_witnessed(g, causal_only, s),
        g.edges.contains_key(id),
        considered(g.edges[id], causal_only),
    ensures
        pairs_witnessed(g, causal_only, s.push(pair_of(g.edges[id]))),
{
    let t = s.push(pair_of(g.edges[id]));
    assert forall|k: int| #![trigger t[k]] 0 <= k < t.len() implies exists|id2: u128| #[trigger] g.edges.contains_key(id2)
        && considered(g.edges[id2], causal_only) && t[k] == pair_of(g.edges[id2]) by {
        if k < s.len() {
            assert(t[k] == s[k]);
        } else {
            assert(g.edges.contains_key(id));
        }
    }
}

/// The considered edge pairs of a graph, in identifier order.
pub fn collect_edge_pairs(graph: &Graph, causal_only: bool) -> (es: Vec<(u128, u128)>)
    ensures
        es@ == edge_pairs(graph@, causal_only),
        pairs_witnessed(graph@, causal_only, es@),
        forall|id: u128| #[trigger] graph@.edges.contains_key(id) && considered(graph@.edges[id], causal_only)
            ==> es@.contains(pair_of(graph@.edges[id])),
{
    let ids = sorted_keys_of(&graph.edges);
    let ghost g = graph@;
    let ghost f = pair_at(g, causal_only);
    proof {
        assert(g.edges.dom() =~= graph.edges@.dom());
        lemma_ordered_ids(g.edges, ids@);
    }
    let mut es: Vec<(u128, u128)> = Vec::new();
    let mut i: usize = 0;
    while i < ids.len()
        invariant
            g == graph@,
            i <= ids@.len(),
            ids@ == ordered_ids(g.edges),
            forall|k: u128| graph.edges@.contains_key(k) <==> ids@.contains(k),
            f == pair_at(g, causal_only),
            es@ == gather(ids@.take(i as int), f),
            pairs_witnessed(g, causal_only, es@),
            forall|j: int| 0 <= j < i && considered(g.edges[ids@[j]], causal_only) ==> es@.contains(#[trigger] pair_of(g.edges[ids@[j]])),
        decreases ids@.len() - i,
    {
        let id = ids[i];
        let ghost before = es@;
        assert(ids@.contains(id));
        if let Some(e) = graph.edges.get(&id) {
            assert(g.edges[id] == e@);
            if !causal_only || e.kind == EdgeKind::Normal {
                es.push((e.source.node_id.0, e.target.node_id.0));
                proof {
                    assert(es@ =~= before + f(id));
                    assert(es@[es@.len() - 1] == pair_of(g.edges[id]));
                    assert(es@ == before.push(pair_of(g.edges[id])));
                    lemma_witnessed_push(g, causal_only, before, id);
                }
            } else {
                assert(es@ =~= before + f(id));
                assert(es@ == before);
            }
        }
        proof {
            lemma_gather_grown(Seq::<(u128, u128)>::empty(), before, es@, ids@, i as int, f);
            assert(Seq::<(u128, u128)>::empty() + gather(ids@.take(i + 1), f) =~= gather(ids@.take(i + 1), f));
            assert forall|j: int| 0 <= j < i + 1 && considered(g.edges[ids@[j]], causal_only) implies es@.contains(#[trigger] pair_of(g.edges[ids@[j]])) by {
                if j < i {
                    let q = choose|q: int| 0 <= q < before.len() && before[q] == pair_of(g.edges[ids@[j]]);
                    assert(es@[q] == before[q]);
                } else {
                    assert(es@[es@.len() - 1] == pair_of(g.edges[ids@[j]]));
                }
            }
        }
        i += 1;
    }
    proof {
        assert(ids@.take(ids@.len() as int) =~= ids@);
        assert forall|id: u128| #[trigger] g.edges.contains_key(id) && considered(g.edges[id], causal_only) implies es@.contains(pair_of(g.edges[id])) by {
            assert(ids@.contains(id));
            let j = choose|j: int| 0 <= j < ids@.len() && ids@[j] == id;
            assert(es@.contains(pair_of(g.edges[ids@[j]])));
        }
    }
    es
}

// ── Cycles ──────────────────

/// Whether edge `(p[i], p[i + 1])` is among `es`.
pub open spec fn path_step(es: Seq<(u128, u128)>, p: Seq<u128>, i: int) -> bool {
    es.contains((p[i], p[i + 1]))
}

/// Whether `p` is a walk of at least one edge of `es` through nodes of `within`.
pub open spec fn path_within(es: Seq<(u128, u128)>, within: Set<u128>, p: Seq<u128>) -> bool {
    &&& p.len() >= 2
    &&& forall|i: int| 0 <= i < p.len() ==> within.contains(#[trigger] p[i])
    &&& forall|i: int| 0 <= i < p.len() - 1 ==> #[trigger] path_step(es, p, i)
}

/// Whether `b` can be reached from `a` by at least one edge of `es`, through
/// nodes of `within` only.
pub open spec fn reaches(es: Seq<(u128, u128)>, within: Set<u128>, a: u128, b: u128) -> bool {
    exists|p: Seq<u128>| #[trigger] path_within(es, within, p) && p[0] == a && p.last() == b
}

/// Whether `v` lies on a cycle of edges of `es` through nodes of `within`.
pub open spec fn on_cycle(es: Seq<(u128, u128)>, within: Set<u128>, v: u128) -> bool {
    reaches(es, within, v, v)
}

/// The vertices of `vs` that `order` does not hold.
pub open spec fn unsorted(vs: Set<u128>, order: Seq<u128>) -> Set<u128> {
    Set::new(|x: u128| vs.contains(x) && !order.contains(x))
}

/// The identifier `id` if it is left out of `order` and lies on a cycle of
/// the nodes left out.
pub open spec fn cyclic(vs: Set<u128>, es: Seq<(u128, u128)>, order: Seq<u128>) -> spec_fn(u128) -> Seq<u128> {
    |id: u128| if !order.contains(id) && on_cycle(es, unsorted(vs, order), id) { seq![id] } else { Seq::empty() }
}

proof fn lemma_path_push(es: Seq<(u128, u128)>, within: Set<u128>, p: Seq<u128>, b: u128)
    requires
        path_within(es, within, p),
        within.contains(b),
        es.contains((p.last(), b)),
    ensures
        path_within(es, within, p.push(b)),
        p.push(b)[0] == p[0],
        p.push(b).last() == b,
{
    let q = p.push(b);
    assert forall|i: int| 0 <= i < q.len() implies within.contains(#[trigger] q[i]) by {
        if i < p.len() {
            assert(q[i] == p[i]);
        }
    }
    assert forall|i: int| 0 <= i < q.len() - 1 implies #[trigger] path_step(es, q, i) by {
        if i < p.len() - 1 {
            assert(path_step(es, p, i));
            assert(q[i] == p[i] && q[i + 1] == p[i + 1]);
        } else {
            assert(q[i] == p.last() && q[i + 1] == b);
        }
    }
}

/// A node reached from `v` (or a successor of `v`) reaches the successors
/// of that node within `within`.
proof fn lemma_reaches_step(es: Seq<(u128, u128)>, within: Set<u128>, v: u128, u: u128, k: int)
    requires
        within.contains(v),
        0 <= k < es.len(),
        within.contains(es[k].1),
        es[k].0 == u,
        u == v || reaches(es, within, v, u),
    ensures
        reaches(es, within, v, es[k].1),
{
    assert(es.contains(es[k]));
    if reaches(es, within, v, u) {
        let p = choose|p: Seq<u128>| #[trigger] path_within(es, within, p) && p[0] == v && p.last() == u;
        lemma_path_push(es, within, p, es[k].1);
    } else {
        let p = seq![v, es[k].1];
        assert(path_step(es, p, 0));
        assert(path_within(es, within, p));
    }
}

/// A set that holds the successors of `v` and is closed under the edges
/// within `within` holds every node reached from `v`.
proof fn lemma_closed_holds(es: Seq<(u128, u128)>, within: Set<u128>, vis: Set<u128>, v: u128, p: Seq<u128>)
    requires
        path_within(es, within, p),
        p[0] == v,
        forall|k: int| 0 <= k < es.len() && es[k].0 == v && within.contains(es[k].1) ==> #[trigger] vis.contains(es[k].1),
        forall|k: int| 0 <= k < es.len() && vis.contains(es[k].0) && within.contains(es[k].1) ==> #[trigger] vis.contains(es[k].1),
    ensures
        vis.contains(p.last()),
    decreases p.len(),
{
    let n = p.len();
    assert(path_step(es, p, n - 2));
    let k = choose|k: int| 0 <= k < es.len() && es[k] == (p[n - 2], p[n - 1]);
    assert(within.contains(p[n - 1]));
    assert(es[k].0 == p[n - 2] && es[k].1 == p[n - 1] && p.last() == p[n - 1]);
    if n == 2 {
        assert(vis.contains(es[k].1));
    } else {
        let q = p.drop_last();
        assert forall|i: int| 0 <= i < q.len() implies within.contains(#[trigger] q[i]) by {
            assert(q[i] == p[i]);
        }
        assert forall|i: int| 0 <= i < q.len() - 1 implies #[trigger] path_step(es, q, i) by {
            assert(path_step(es, p, i));
            assert(q[i] == p[i] && q[i + 1] == p[i + 1]);
        }
        lemma_closed_holds(es, within, vis, v, q);
        assert(q.last() == p[n - 2]);
        assert(vis.contains(es[k].1));
    }
}

/// Whether `x` is within `within` and reached from `v`.
pub open spec fn from_v(es: Seq<(u128, u128)>, within: Set<u128>, v: u128, x: u128) -> bool {
    within.contains(x) && reaches(es, within, v, x)
}

/// Whether `(u, x)` is among `es`.
pub open spec fn successor_of(es: Seq<(u128, u128)>, u: u128, x: u128) -> bool {
    exists|j: int| 0 <= j < es.len() && es[j] == (u, x)
}

/// Adds to `list` (and `visited`) the successors of `u` by edges of `es`
/// that `vs` holds and `marks` does not.
fn push_successors(
    u: u128,
    vs: &Vec<u128>,
    es: &Vec<(u128, u128)>,
    marks: &BTreeMap<u128, bool>,
    visited: &mut BTreeMap<u128, bool>,
    list: &mut Vec<u128>,
)
    requires
        forall|k: int| 0 <= k < es@.len() ==> vs@.contains(#[trigger] es@[k].1),
        forall|x: u128| #[trigger] old(visited)@.contains_key(x) <==> old(list)@.contains(x),
        old(list)@.no_duplicates(),
    ensures
        forall|x: u128| #[trigger] final(visited)@.contains_key(x) <==> final(list)@.contains(x),
        final(list)@.no_duplicates(),
        final(list)@.len() >= old(list)@.len(),
        forall|q: int| 0 <= q < old(list)@.len() ==> #[trigger] final(list)@[q] == old(list)@[q],
        forall|q: int| old(list)@.len() <= q < final(list)@.len() ==> successor_of(es@, u, #[trigger] final(list)@[q])
            && !marks@.contains_key(final(list)@[q]),
        forall|x: u128| old(visited)@.contains_key(x) ==> #[trigger] final(visited)@.contains_key(x),
        forall|k: int| 0 <= k < es@.len() && es@[k].0 == u && !marks@.contains_key(es@[k].1)
            ==> #[trigger] final(visited)@.contains_key(es@[k].1),
{
    let ghost start = list@;
    let ghost start_vis = visited@;
    let mut k: usize = 0;
    while k < es.len()
        invariant
            k <= es@.len(),
            forall|x: u128| #[trigger] visited@.contains_key(x) <==> list@.contains(x),
            list@.no_duplicates(),
            list@.len() >= start.len(),
            forall|q: int| 0 <= q < start.len() ==> #[trigger] list@[q] == start[q],
            forall|q: int| start.len() <= q < list@.len() ==> successor_of(es@, u, #[trigger] list@[q]) && !marks@.contains_key(list@[q]),
            forall|x: u128| start_vis.contains_key(x) ==> #[trigger] visited@.contains_key(x),
            forall|j: int| 0 <= j < k && es@[j].0 == u && !marks@.contains_key(es@[j].1)
                ==> #[trigger] visited@.contains_key(es@[j].1),
        decreases es@.len() - k,
    {
        let (a, b) = es[k];
        if a == u && !marks.contains_key(&b) && !visited.contains_key(&b) {
            let ghost before = list@;
            visited.insert(b, true);
            list.push(b);
            proof {
                assert forall|x: u128| #[trigger] visited@.contains_key(x) <==> list@.contains(x) by {
                    if x == b {
                        assert(list@[list@.len() - 1] == b);
                    } else if list@.contains(x) {
                        let q = choose|q: int| 0 <= q < list@.len() && list@[q] == x;
                        assert(before[q] == x);
                    } else if before.contains(x) {
                        let q = choose|q: int| 0 <= q < before.len() && before[q] == x;
                        assert(list@[q] == x);
                    }
                }
                assert forall|q: int, r: int| 0 <= q < list@.len() && 0 <= r < list@.len() && q != r implies list@[q] != list@[r] by {
                    if q < before.len() && r < before.len() {
                        assert(list@[q] == before[q] && list@[r] == before[r]);
                    } else if q < before.len() {
                        assert(before.contains(list@[q]));
                    } else if r < before.len() {
                        assert(before.contains(list@[r]));
                    }
                }
                assert forall|q: int| start.len() <= q < list@.len() implies successor_of(es@, u, #[trigger] list@[q]) && !marks@.contains_key(list@[q]) by {
                    if q < before.len() {
                        assert(list@[q] == before[q]);
                    } else {
                        assert(list@[q] == b);
                        assert(es@[k as int] == (u, b));
                    }
                }
                assert forall|q: int| 0 <= q < start.len() implies #[trigger] list@[q] == start[q] by {
                    assert(list@[q] == before[q]);
                }
            }
        }
        k += 1;
    }
}

/// Whether `v` lies on a cycle of edges of `es` through the nodes that `vs`
/// holds and `marks` does not.
fn reaches_itself(v: u128, vs: &Vec<u128>, es: &Vec<(u128, u128)>, marks: &BTreeMap<u128, bool>) -> (r: bool)
    requires
        vs@.no_duplicates(),
        vs@.contains(v),
        !marks@.contains_key(v),
        forall|k: int| 0 <= k < es@.len() ==> vs@.contains(#[trigger] es@[k].1),
    ensures
        r == on_cycle(es@, Set::new(|x: u128| vs@.contains(x) && !marks@.contains_key(x)), v),
{
    let ghost within = Set::new(|x: u128| vs@.contains(x) && !marks@.contains_key(x));
    let mut visited: BTreeMap<u128, bool> = BTreeMap::new();
    let mut list: Vec<u128> = Vec::new();
    push_successors(v, vs, es, marks, &mut visited, &mut list);
    proof {
        assert forall|q: int| 0 <= q < list@.len() implies from_v(es@, within, v, #[trigger] list@[q]) by {
            let x = list@[q];
            assert(successor_of(es@, v, x));
            let k = choose|k: int| 0 <= k < es@.len() && es@[k] == (v, x);
            assert(vs@.contains(es@[k].1));
            lemma_reaches_step(es@, within, v, v, k);
        }
    }
    let mut i: usize = 0;
    while i < list.len()
        invariant
            within == Set::new(|x: u128| vs@.contains(x) && !marks@.contains_key(x)),
            within.contains(v),
            vs@.no_duplicates(),
            forall|k: int| 0 <= k < es@.len() ==> vs@.contains(#[trigger] es@[k].1),
            i <= list@.len(),
            forall|x: u128| #[trigger] visited@.contains_key(x) <==> list@.contains(x),
            list@.no_duplicates(),
            forall|q: int| 0 <= q < list@.len() ==> from_v(es@, within, v, #[trigger] list@[q]),
            forall|k: int| 0 <= k < es@.len() && es@[k].0 == v && !marks@.contains_key(es@[k].1)
                ==> #[trigger] visited@.contains_key(es@[k].1),
            forall|k: int| 0 <= k < es@.len() && !marks@.contains_key(es@[k].1) && (exists|q: int| 0 <= q < i && list@[q] == es@[k].0)
                ==> #[trigger] visited@.contains_key(es@[k].1),
        decreases 2 * vs@.len() - i - list@.len(),
    {
        proof {
            assert forall|q: int| 0 <= q < list@.len() implies vs@.contains(#[trigger] list@[q]) by {
                assert(from_v(es@, within, v, list@[q]));
            }
            lemma_no_dup_len(list@, vs@);
        }
        let u = list[i];
        let ghost before = list@;
        push_successors(u, vs, es, marks, &mut visited, &mut list);
        proof {
            assert(from_v(es@, within, v, before[i as int]));
            assert(within.contains(u) && reaches(es@, within, v, u));
            assert forall|q: int| 0 <= q < list@.len() implies from_v(es@, within, v, #[trigger] list@[q]) by {
                if q < before.len() {
                    assert(list@[q] == before[q]);
                    assert(from_v(es@, within, v, before[q]));
                } else {
                    let x = list@[q];
                    assert(successor_of(es@, u, x));
                    let k = choose|k: int| 0 <= k < es@.len() && es@[k] == (u, x);
                    assert(vs@.contains(es@[k].1));
                    lemma_reaches_step(es@, within, v, u, k);
                }
            }
            assert forall|k: int| 0 <= k < es@.len() && !marks@.contains_key(es@[k].1) && (exists|q: int| 0 <= q < i + 1 && list@[q] == es@[k].0)
                implies #[trigger] visited@.contains_key(es@[k].1) by {
                let q = choose|q: int| 0 <= q < i + 1 && list@[q] == es@[k].0;
                if q < i {
                    assert(list@[q] == before[q]);
                    assert(exists|q2: int| 0 <= q2 < i && before[q2] == es@[k].0);
                } else {
                    assert(list@[q] == before[i as int]);
                }
            }
            assert forall|q: int| 0 <= q < list@.len() implies vs@.contains(#[trigger] list@[q]) by {
                assert(from_v(es@, within, v, list@[q]));
            }
            lemma_no_dup_len(list@, vs@);
        }
        i += 1;
    }
    let r = visited.contains_key(&v);
    proof {
        if r {
            assert(list@.contains(v));
            let q = choose|q: int| 0 <= q < list@.len() && list@[q] == v;
            assert(from_v(es@, within, v, list@[q]));
        }
        if on_cycle(es@, within, v) {
            let p = choose|p: Seq<u128>| #[trigger] path_within(es@, within, p) && p[0] == v && p.last() == v;
            let vis = Set::new(|x: u128| visited@.contains_key(x));
            assert forall|k: int| 0 <= k < es@.len() && es@[k].0 == v && within.contains(es@[k].1) implies #[trigger] vis.contains(es@[k].1) by {
                assert(visited@.contains_key(es@[k].1));
            }
            assert forall|k: int| 0 <= k < es@.len() && vis.contains(es@[k].0) && within.contains(es@[k].1) implies #[trigger] vis.contains(es@[k].1) by {
                assert(list@.contains(es@[k].0));
                let q = choose|q: int| 0 <= q < list@.len() && list@[q] == es@[k].0;
                assert(visited@.contains_key(es@[k].1));
            }
            lemma_closed_holds(es@, within, vis, v, p);
        }
    }
    r
}

/// Orders the nodes so that every edge goes forward. When some cannot be
/// ordered, the cycles are returned too: one group holding, in identifier
/// order, the nodes that lie on a cycle (nodes that are only behind a cycle
/// are in neither list).
pub fn topological_sort(graph: &Graph) -> (r: (Vec<StableId>, Vec<Vec<StableId>>))
    requires
        forall|e: u128| #[trigger] graph@.edges.contains_key(e) ==> graph@.nodes.contains_key(graph@.edges[e].source.node_id)
            && graph@.nodes.contains_key(graph@.edges[e].target.node_id),
    ensures
        kahn_order(graph@.nodes.dom(), edge_pairs(graph@, false), id_values(r.0@)),
        r.0@.len() == settled(graph@.nodes.dom(), edge_pairs(graph@, false)).len(),
        r.0@.len() < graph@.nodes.dom().len() ==> r.1@.len() == 1 && id_values(r.1@[0]@)
            == gather(ordered_ids(graph@.nodes), cyclic(graph@.nodes.dom(), edge_pairs(graph@, false), id_values(r.0@))),
        r.0@.len() >= graph@.nodes.dom().len() ==> r.1@.len() == 0,
{
    let vs = sorted_keys_of(&graph.nodes);
    let es = collect_edge_pairs(graph, false);
    proof {
        assert(graph@.nodes.dom() =~= graph.nodes@.dom());
        assert forall|k: int| 0 <= k < es@.len() implies vs@.contains(#[trigger] es@[k].1) by {
            let id = choose|id: u128| #[trigger] graph@.edges.contains_key(id) && considered(graph@.edges[id], false) && es@[k] == pair_of(graph@.edges[id]);
        }
    }
    let order = kahn(&vs, &es);
    proof {
        assert(vs@.to_set() =~= graph@.nodes.dom());
        lemma_settled(graph@.nodes.dom(), es@, order@);
    }
    let mut sorted: Vec<StableId> = Vec::new();
    let mut i: usize = 0;
    while i < order.len()
        invariant
            i <= order@.len(),
            sorted@.len() == i,
            id_values(sorted@) == order@.take(i as int),
        decreases order@.len() - i,
    {
        let ghost prev = sorted@;
        sorted.push(StableId(order[i]));
        proof {
            assert(sorted@ == prev.push(StableId(order@[i as int])));
            assert forall|j: int| 0 <= j < i + 1 implies #[trigger] id_values(sorted@)[j] == order@.take(i + 1)[j] by {
                if j < i {
                    assert(sorted@[j] == prev[j]);
                    assert(id_values(prev)[j] == order@.take(i as int)[j]);
                }
            }
            assert(id_values(sorted@) =~= order@.take(i + 1));
        }
        i += 1;
    }
    proof {
        assert(order@.take(order@.len() as int) =~= order@);
    }
    let mut cycles: Vec<Vec<StableId>> = Vec::new();
    if order.len() < vs.len() {
        let ghost f = cyclic(graph@.nodes.dom(), es@, order@);
        let mut marks: BTreeMap<u128, bool> = BTreeMap::new();
        let mut j: usize = 0;
        while j < order.len()
            invariant
                j <= order@.len(),
                forall|x: u128| #[trigger] marks@.contains_key(x) <==> exists|q: int| 0 <= q < j && order@[q] == x,
            decreases order@.len() - j,
        {
            marks.insert(order[j], true);
            proof {
                assert forall|x: u128| #[trigger] marks@.contains_key(x) <==> exists|q: int| 0 <= q < j + 1 && order@[q] == x by {
                    if x == order@[j as int] {
                        assert(order@[j as int] == x);
                    }
                }
            }
            j += 1;
        }
        let mut rest: Vec<StableId> = Vec::new();
        let mut k: usize = 0;
        proof {
            lemma_ordered_ids(graph@.nodes, vs@);
            assert forall|x: u128| #[trigger] vs@.contains(x) <==> graph@.nodes.dom().contains(x) by {
                assert(vs@.to_set().contains(x) == vs@.contains(x));
            }
            assert(Set::new(|x: u128| vs@.contains(x) && !marks@.contains_key(x)) =~= unsorted(graph@.nodes.dom(), order@));
        }
        while k < vs.len()
            invariant
                k <= vs@.len(),
                vs@ == ordered_ids(graph@.nodes),
                forall|x: u128| #[trigger] marks@.contains_key(x) <==> order@.contains(x),
                f == cyclic(graph@.nodes.dom(), es@, order@),
                vs@.no_duplicates(),
                vs@.to_set() == graph@.nodes.dom(),
                forall|x: u128| #[trigger] vs@.contains(x) <==> graph@.nodes.dom().contains(x),
                forall|q: int| 0 <= q < es@.len() ==> vs@.contains(#[trigger] es@[q].1),
                Set::new(|x: u128| vs@.contains(x) && !marks@.contains_key(x)) == unsorted(graph@.nodes.dom(), order@),
                id_values(rest@) == gather(vs@.take(k as int), f),
            decreases vs@.len() - k,
        {
            let ghost before = id_values(rest@);
            let ghost prev = rest@;
            let id = vs[k];
            proof {
                assert(vs@.contains(id)) by {
                    assert(vs@[k as int] == id);
                }
            }
            if !marks.contains_key(&id) && reaches_itself(id, &vs, &es, &marks) {
                rest.push(StableId(id));
                assert(rest@ == prev.push(StableId(id)));
            }
            proof {
                assert(id_values(rest@) =~= before + f(id));
                lemma_gather_grown(Seq::<u128>::empty(), before, id_values(rest@), vs@, k as int, f);
                assert(Seq::<u128>::empty() + gather(vs@.take(k + 1), f) =~= gather(vs@.take(k + 1), f));
                assert(Seq::<u128>::empty() + gather(vs@.take(k as int), f) =~= gather(vs@.take(k as int), f));
            }
            k += 1;
        }
        proof {
            assert(vs@.take(vs@.len() as int) =~= vs@);
        }
        cycles.push(rest);
    }
    proof {
        assert(id_values(sorted@) == order@);
    }
    (sorted, cycles)
}

} // verus!
