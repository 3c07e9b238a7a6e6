//! Differences between configurations and between graphs, as patches.
use vstd::prelude::*;
use crate::hash::patch_digest;
use crate::ids::StableId;
use crate::ir::{has_port, lemma_seq_model_push, seq_model, EdgeV, Graph, GraphV, NodeV};
use crate::keyed::{lemma_pairs_map, Keyed, Model};
use crate::patch::{
    apply_delta, apply_patch, edge_fits, edges_fitting, edges_without_node, op_step, ports_valid, run_ops, Operation,
    OperationV, Patch, PatchErrorV, PatchSet, PatchV,
};
use crate::types::{
    config_value_eq, lemma_value_eq_refl, nan_free, value_eq, ConfigChange, ConfigChangeV, ConfigDelta, ConfigSnapshot,
    ConfigValueV, PatchSourceV, TrustLevel, TypedPort,
};
use crate::walk::{gather, lemma_gather_grown, lemma_ordered_ids, lemma_ordered_ids_keys, ordered_ids, sorted_keys_of};

verus! {

/// The change of one key between two configurations.
pub open spec fn key_change(o: Map<Seq<char>, ConfigValueV>, n: Map<Seq<char>, ConfigValueV>, k: Seq<char>) -> ConfigChangeV {
    ConfigChangeV { old: o.get(k), new: n.get(k) }
}

/// Whether a key differs between two configurations: it is in one only, or
/// in both with values that are not equal (floats compared by IEEE-754).
pub open spec fn key_differs(o: Map<Seq<char>, ConfigValueV>, n: Map<Seq<char>, ConfigValueV>, k: Seq<char>) -> bool {
    (o.contains_key(k) || n.contains_key(k)) && !(o.contains_key(k) && n.contains_key(k) && value_eq(o[k], n[k]))
}

/// The delta from `o` to `n`: one change for each key that differs.
pub open spec fn config_diff_spec(o: Map<Seq<char>, ConfigValueV>, n: Map<Seq<char>, ConfigValueV>) -> Map<Seq<char>, ConfigChangeV> {
    Map::new(|k: Seq<char>| key_differs(o, n, k), |k: Seq<char>| key_change(o, n, k))
}

/// Equality of configurations as `==` compares them: the same keys, equal values.
pub open spec fn config_eq(o: Map<Seq<char>, ConfigValueV>, n: Map<Seq<char>, ConfigValueV>) -> bool {
    o.dom() == n.dom() && forall|k: Seq<char>| #[trigger] o.contains_key(k) ==> value_eq(o[k], n[k])
}

/// Whether configuration `r` stands for `n`: the same keys, each value the
/// same or equal to `n`'s.
pub open spec fn config_agrees(r: Map<Seq<char>, ConfigValueV>, n: Map<Seq<char>, ConfigValueV>) -> bool {
    r.dom() == n.dom() && forall|k: Seq<char>| #[trigger] n.contains_key(k) ==> r[k] == n[k] || value_eq(r[k], n[k])
}

/// The delta that turns configuration `old` into `new`.
pub fn config_diff(old: &ConfigSnapshot, new: &ConfigSnapshot) -> (d: ConfigDelta)
    ensures
        d@ == config_diff_spec(old@, new@),
{
    let mut delta: ConfigDelta = Keyed::new();
    let n_old = old.len();
    let mut i: usize = 0;
    while i < n_old
        invariant
            n_old == old.pairs().len(),
            i <= n_old,
            forall|k: Seq<char>| #[trigger] delta@.contains_key(k) <==> (key_differs(old@, new@, k) && exists|j: int| 0 <= j < i && old.pairs()[j].0 == k),
            forall|k: Seq<char>| #[trigger] delta@.contains_key(k) ==> delta@[k] == key_change(old@, new@, k),
        decreases n_old - i,
    {
        let (key, old_val) = old.entry(i);
        match new.get(key.as_str()) {
            Some(new_val) => {
                if !config_value_eq(old_val, new_val) {
                    delta.insert(key.clone(), ConfigChange { old: Some(old_val.duplicate()), new: Some(new_val.duplicate()) });
                }
            },
            None => {
                delta.insert(key.clone(), ConfigChange { old: Some(old_val.duplicate()), new: None });
            },
        }
        proof {
            let kk = old.pairs()[i as int].0;
            assert forall|k: Seq<char>| #[trigger] delta@.contains_key(k) <==> (key_differs(old@, new@, k) && exists|j: int| 0 <= j < i + 1 && old.pairs()[j].0 == k) by {
                if k == kk {
                    assert(old.pairs()[i as int].0 == k);
                } else if exists|j: int| 0 <= j < i + 1 && old.pairs()[j].0 == k {
                    let j = choose|j: int| 0 <= j < i + 1 && old.pairs()[j].0 == k;
                    assert(j != i);
                }
            }
        }
        i += 1;
    }
    let n_new = new.len();
    proof {
        lemma_pairs_map(old.pairs());
        assert forall|k: Seq<char>| #[trigger] delta@.contains_key(k) <==> (key_differs(old@, new@, k) && (old@.contains_key(k) || exists|j: int| 0 <= j < 0 && new.pairs()[j].0 == k)) by {
            if old@.contains_key(k) {
                let j = choose|j: int| 0 <= j < old.pairs().len() && old.pairs()[j].0 == k;
                assert(old.pairs()[j].0 == k);
            }
        }
    }
    let mut i: usize = 0;
    while i < n_new
        invariant
            n_new == new.pairs().len(),
            i <= n_new,
            forall|k: Seq<char>| #[trigger] delta@.contains_key(k) <==> (key_differs(old@, new@, k) && (old@.contains_key(k) || exists|j: int| 0 <= j < i && new.pairs()[j].0 == k)),
            forall|k: Seq<char>| #[trigger] delta@.contains_key(k) ==> delta@[k] == key_change(old@, new@, k),
        decreases n_new - i,
    {
        let (key, new_val) = new.entry(i);
        if !old.contains_key(key.as_str()) {
            delta.insert(key.clone(), ConfigChange { old: None, new: Some(new_val.duplicate()) });
        }
        proof {
            let kk = new.pairs()[i as int].0;
            assert forall|k: Seq<char>| #[trigger] delta@.contains_key(k) <==> (key_differs(old@, new@, k) && (old@.contains_key(k) || exists|j: int| 0 <= j < i + 1 && new.pairs()[j].0 == k)) by {
                if k == kk {
                    assert(new.pairs()[i as int].0 == k);
                } else if exists|j: int| 0 <= j < i + 1 && new.pairs()[j].0 == k {
                    let j = choose|j: int| 0 <= j < i + 1 && new.pairs()[j].0 == k;
                    assert(j != i);
                }
            }
        }
        i += 1;
    }
    proof {
        lemma_pairs_map(new.pairs());
        assert forall|k: Seq<char>| #[trigger] delta@.contains_key(k) <==> config_diff_spec(old@, new@).contains_key(k) by {
            if new@.contains_key(k) {
                let j = choose|j: int| 0 <= j < new.pairs().len() && new.pairs()[j].0 == k;
                assert(new.pairs()[j].0 == k);
            }
        }
        assert(delta@ =~= config_diff_spec(old@, new@));
    }
    delta
}

/// Applying the delta from `o` to `n` to `o` gives a configuration that
/// stands for `n`: the same keys, each value `n`'s or equal to it.
pub proof fn lemma_config_diff_applies(o: Map<Seq<char>, ConfigValueV>, n: Map<Seq<char>, ConfigValueV>)
    ensures
        config_agrees(apply_delta(o, config_diff_spec(o, n)), n),
{
    let r = apply_delta(o, config_diff_spec(o, n));
    assert(r.dom() =~= n.dom());
}

/// The delta between two configurations is empty exactly when they are equal.
pub proof fn lemma_config_diff_empty(o: Map<Seq<char>, ConfigValueV>, n: Map<Seq<char>, ConfigValueV>)
    ensures
        (config_diff_spec(o, n) == Map::<Seq<char>, ConfigChangeV>::empty()) == config_eq(o, n),
{
    if config_eq(o, n) {
        assert(config_diff_spec(o, n) =~= Map::<Seq<char>, ConfigChangeV>::empty());
    }
    if config_diff_spec(o, n) == Map::<Seq<char>, ConfigChangeV>::empty() {
        assert forall|k: Seq<char>| #[trigger] o.contains_key(k) implies value_eq(o[k], n[k]) by {
            assert(!config_diff_spec(o, n).contains_key(k));
        }
        assert forall|k: Seq<char>| o.dom().contains(k) <==> n.dom().contains(k) by {
            assert(!config_diff_spec(o, n).contains_key(k));
        }
        assert(o.dom() =~= n.dom());
    }
}

/// The delta between a configuration without NaN and itself is empty.
pub proof fn lemma_config_diff_same(o: Map<Seq<char>, ConfigValueV>)
    requires
        forall|k: Seq<char>| #[trigger] o.contains_key(k) ==> nan_free(o[k]),
    ensures
        config_diff_spec(o, o) == Map::<Seq<char>, ConfigChangeV>::empty(),
{
    assert forall|k: Seq<char>| #[trigger] o.contains_key(k) implies value_eq(o[k], o[k]) by {
        lemma_value_eq_refl(o[k]);
    }
    lemma_config_diff_empty(o, o);
}

// ── Graph differences ──────────────────

/// Whether node `x` differs from `y` in more than its configuration.
pub open spec fn reshaped(x: NodeV, y: NodeV) -> bool {
    x != (NodeV { config: x.config, ..y })
}

/// Removal of an edge of `a` that `b` lacks or holds differently.
pub open spec fn edge_removals(a: GraphV, b: GraphV) -> spec_fn(u128) -> Seq<OperationV> {
    |id: u128| if b.edges.contains_key(id) && b.edges[id] == a.edges[id] { Seq::empty() } else { seq![OperationV::RemoveEdge(id)] }
}

/// Removal of a node of `a` that `b` lacks.
pub open spec fn node_removals(a: GraphV, b: GraphV) -> spec_fn(u128) -> Seq<OperationV> {
    |id: u128| if b.nodes.contains_key(id) { Seq::empty() } else { seq![OperationV::RemoveNode(id)] }
}

/// Addition of a node of `b` that `a` lacks, its replacement when it differs
/// in more than its configuration, or the change of its configuration.
pub open spec fn node_changes(a: GraphV, b: GraphV) -> spec_fn(u128) -> Seq<OperationV> {
    |id: u128|
        if !a.nodes.contains_key(id) {
            seq![OperationV::AddNode(b.nodes[id])]
        } else if reshaped(a.nodes[id], b.nodes[id]) {
            seq![OperationV::ReplaceNode(b.nodes[id])]
        } else if !config_eq(a.nodes[id].config, b.nodes[id].config) {
            seq![OperationV::ModifyConfig { node_id: id, delta: config_diff_spec(a.nodes[id].config, b.nodes[id].config) }]
        } else {
            Seq::empty()
        }
}

/// Addition of an edge of `b` that `a` lacks or holds differently.
pub open spec fn edge_additions(a: GraphV, b: GraphV) -> spec_fn(u128) -> Seq<OperationV> {
    |id: u128| if a.edges.contains_key(id) && a.edges[id] == b.edges[id] { Seq::empty() } else { seq![OperationV::AddEdge(b.edges[id])] }
}

/// The operations from `a` to `b`: removals of the edges that change, node
/// removals, node additions and changes, additions of the edges that
/// change; each group in increasing identifier order.
pub open spec fn diff_ops(a: GraphV, b: GraphV) -> Seq<OperationV> {
    gather(ordered_ids(a.edges), edge_removals(a, b))
        + gather(ordered_ids(a.nodes), node_removals(a, b))
        + gather(ordered_ids(b.nodes), node_changes(a, b))
        + gather(ordered_ids(b.edges), edge_additions(a, b))
}

fn push_edge_removals(a: &Graph, b: &Graph, ops: &mut Vec<Operation>)
    ensures
        seq_model(final(ops)@) == seq_model(old(ops)@) + gather(ordered_ids(a@.edges), edge_removals(a@, b@)),
{
    let ids = sorted_keys_of(&a.edges);
    proof {
        assert(a@.edges.dom() =~= a.edges@.dom());
        lemma_ordered_ids(a@.edges, ids@);
    }
    let ghost start = seq_model(ops@);
    let ghost f = edge_removals(a@, b@);
    let mut i: usize = 0;
    while i < ids.len()
        invariant
            i <= ids@.len(),
            forall|k: u128| a.edges@.contains_key(k) <==> ids@.contains(k),
            seq_model(ops@) == start + gather(ids@.take(i as int), f),
            f == edge_removals(a@, b@),
        decreases ids@.len() - i,
    {
        let id = ids[i];
        let ghost before = seq_model(ops@);
        assert(ids@.contains(id));
        let keep = match (a.edges.get(&id), b.edges.get(&id)) {
            (Some(x), Some(y)) => x.same(y),
            _ => false,
        };
        proof {
            assert(a@.edges[id] == a.edges@[id]@);
        }
        if !keep {
            let op = Operation::RemoveEdge(StableId(id));
            proof {
                lemma_seq_model_push(ops@, op);
                assert(seq_model(ops@).push(op@) =~= before + f(id));
            }
            ops.push(op);
        } else {
            assert(before =~= before + f(id));
        }
        proof {
            lemma_gather_grown(start, before, seq_model(ops@), ids@, i as int, f);
        }
        i += 1;
    }
    proof {
        assert(ids@.take(ids@.len() as int) =~= ids@);
    }
}

fn push_node_removals(a: &Graph, b: &Graph, ops: &mut Vec<Operation>)
    ensures
        seq_model(final(ops)@) == seq_model(old(ops)@) + gather(ordered_ids(a@.nodes), node_removals(a@, b@)),
{
    let ids = sorted_keys_of(&a.nodes);
    proof {
        assert(a@.nodes.dom() =~= a.nodes@.dom());
        lemma_ordered_ids(a@.nodes, ids@);
    }
    let ghost start = seq_model(ops@);
    let ghost f = node_removals(a@, b@);
    let mut i: usize = 0;
    while i < ids.len()
        invariant
            i <= ids@.len(),
            seq_model(ops@) == start + gather(ids@.take(i as int), f),
            f == node_removals(a@, b@),
        decreases ids@.len() - i,
    {
        let id = ids[i];
        let ghost before = seq_model(ops@);
        if !b.nodes.contains_key(&id) {
            let op = Operation::RemoveNode(StableId(id));
            proof {
                lemma_seq_model_push(ops@, op);
                assert(seq_model(ops@).push(op@) =~= before + f(id));
            }
            ops.push(op);
        } else {
            assert(before =~= before + f(id));
        }
        proof {
            lemma_gather_grown(start, before, seq_model(ops@), ids@, i as int, f);
        }
        i += 1;
    }
    proof {
        assert(ids@.take(ids@.len() as int) =~= ids@);
    }
}

fn ports_same(x: &Vec<TypedPort>, y: &Vec<TypedPort>) -> (r: bool)
    ensures
        r == (seq_model(x@) == seq_model(y@)),
{
    if x.len() != y.len() {
        proof {
            assert(seq_model(x@).len() != seq_model(y@).len());
        }
        return false;
    }
    let mut i: usize = 0;
    while i < x.len()
        invariant
            i <= x@.len(),
            x@.len() == y@.len(),
            forall|j: int| 0 <= j < i ==> x@[j]@ == y@[j]@,
        decreases x@.len() - i,
    {
        if !x[i].same(&y[i]) {
            proof {
                assert(seq_model(x@)[i as int] != seq_model(y@)[i as int]);
            }
            return false;
        }
        i += 1;
    }
    proof {
        assert(seq_model(x@) =~= seq_model(y@));
    }
    true
}

fn push_node_changes(a: &Graph, b: &Graph, ops: &mut Vec<Operation>)
    ensures
        seq_model(final(ops)@) == seq_model(old(ops)@) + gather(ordered_ids(b@.nodes), node_changes(a@, b@)),
{
    let ids = sorted_keys_of(&b.nodes);
    proof {
        assert(b@.nodes.dom() =~= b.nodes@.dom());
        lemma_ordered_ids(b@.nodes, ids@);
    }
    let ghost start = seq_model(ops@);
    let ghost f = node_changes(a@, b@);
    let mut i: usize = 0;
    while i < ids.len()
        invariant
            i <= ids@.len(),
            forall|k: u128| b.nodes@.contains_key(k) <==> ids@.contains(k),
            seq_model(ops@) == start + gather(ids@.take(i as int), f),
            f == node_changes(a@, b@),
        decreases ids@.len() - i,
    {
        let id = ids[i];
        let ghost before = seq_model(ops@);
        assert(ids@.contains(id));
        if let Some(node) = b.nodes.get(&id) {
            assert(b@.nodes[id] == node@);
            match a.nodes.get(&id) {
                None => {
                    let op = Operation::AddNode(node.duplicate());
                    proof {
                        lemma_seq_model_push(ops@, op);
                        assert(seq_model(ops@).push(op@) =~= before + f(id));
                    }
                    ops.push(op);
                },
                Some(old_node) => {
                    assert(a@.nodes[id] == old_node@);
                    let same_shape = old_node.id.0 == node.id.0 && old_node.kind.same(&node.kind) && ports_same(
                        &old_node.ports,
                        &node.ports,
                    ) && old_node.metadata == node.metadata && old_node.confidence == node.confidence;
                    proof {
                        assert(same_shape == !reshaped(old_node@, node@));
                    }
                    if !same_shape {
                        let op = Operation::ReplaceNode(node.duplicate());
                        proof {
                            lemma_seq_model_push(ops@, op);
                            assert(seq_model(ops@).push(op@) =~= before + f(id));
                        }
                        ops.push(op);
                    } else {
                        let delta = config_diff(&old_node.config, &node.config);
                        proof {
                            lemma_config_diff_empty(old_node.config@, node.config@);
                        }
                        if !delta.is_empty() {
                            let op = Operation::ModifyConfig { node_id: StableId(id), delta };
                            proof {
                                lemma_seq_model_push(ops@, op);
                                assert(seq_model(ops@).push(op@) =~= before + f(id));
                            }
                            ops.push(op);
                        } else {
                            assert(before =~= before + f(id));
                        }
                    }
                },
            }
        }
        proof {
            lemma_gather_grown(start, before, seq_model(ops@), ids@, i as int, f);
        }
        i += 1;
    }
    proof {
        assert(ids@.take(ids@.len() as int) =~= ids@);
    }
}

fn push_edge_additions(a: &Graph, b: &Graph, ops: &mut Vec<Operation>)
    ensures
        seq_model(final(ops)@) == seq_model(old(ops)@) + gather(ordered_ids(b@.edges), edge_additions(a@, b@)),
{
    let ids = sorted_keys_of(&b.edges);
    proof {
        assert(b@.edges.dom() =~= b.edges@.dom());
        lemma_ordered_ids(b@.edges, ids@);
    }
    let ghost start = seq_model(ops@);
    let ghost f = edge_additions(a@, b@);
    let mut i: usize = 0;
    while i < ids.len()
        invariant
            i <= ids@.len(),
            forall|k: u128| b.edges@.contains_key(k) <==> ids@.contains(k),
            seq_model(ops@) == start + gather(ids@.take(i as int), f),
            f == edge_additions(a@, b@),
        decreases ids@.len() - i,
    {
        let id = ids[i];
        let ghost before = seq_model(ops@);
        assert(ids@.contains(id));
        if let Some(edge) = b.edges.get(&id) {
            assert(b@.edges[id] == edge@);
            let keep = match a.edges.get(&id) {
                Some(x) => x.same(edge),
                None => false,
            };
            proof {
                if a.edges@.contains_key(id) {
                    assert(a@.edges[id] == a.edges@[id]@);
                }
            }
            if !keep {
                let op = Operation::AddEdge(edge.duplicate());
                proof {
                    lemma_seq_model_push(ops@, op);
                    assert(seq_model(ops@).push(op@) =~= before + f(id));
                }
                ops.push(op);
            } else {
                assert(before =~= before + f(id));
            }
        }
        proof {
            lemma_gather_grown(start, before, seq_model(ops@), ids@, i as int, f);
        }
        i += 1;
    }
    proof {
        assert(ids@.take(ids@.len() as int) =~= ids@);
    }
}

impl Graph {
    /// The difference from this graph to `other`, as a set of one patch:
    /// edge removals, node removals, node additions and changes, edge
    /// additions. Applied to this graph it gives `other` (`lemma_diff_applies`).
    pub fn diff(&self, other: &Graph) -> (r: PatchSet)
        ensures
            r.patches@.len() == 1,
            r.patches@[0]@.operations == diff_ops(self@, other@),
            r.patches@[0]@.intent_ref is None,
            r.patches@[0]@.parents == Seq::<u128>::empty(),
            r.patches@[0]@.source == PatchSourceV::System,
            r.patches@[0]@.trust == TrustLevel::Trusted,
            r.patches@[0]@.hash == patch_digest(diff_ops(self@, other@), None, Seq::empty()),
    {
        let mut operations: Vec<Operation> = Vec::new();
        proof {
            assert(seq_model(operations@) =~= Seq::<OperationV>::empty());
        }
        push_edge_removals(self, other, &mut operations);
        push_node_removals(self, other, &mut operations);
        push_node_changes(self, other, &mut operations);
        push_edge_additions(self, other, &mut operations);
        proof {
            assert(seq_model(operations@) =~= diff_ops(self@, other@));
        }
        let patch = Patch::from_operations(operations);
        let mut patches: Vec<Patch> = Vec::new();
        patches.push(patch);
        PatchSet { patches }
    }
}

// ── Replaying a difference ──────────────────

/// Every node and every edge is stored under its own identifier.
pub open spec fn well_keyed(g: GraphV) -> bool {
    &&& forall|id: u128| #[trigger] g.nodes.contains_key(id) ==> g.nodes[id].id == id
    &&& forall|id: u128| #[trigger] g.edges.contains_key(id) ==> g.edges[id].id == id
}

/// The maps of the graph are finite (as those of every `Graph` are).
pub open spec fn graph_finite(g: GraphV) -> bool {
    &&& g.nodes.dom().finite()
    &&& g.edges.dom().finite()
}

/// The graphs between which a difference is taken: finite and well keyed,
/// the target's edges joined to ports that exist in it.
pub open spec fn diff_applicable(a: GraphV, b: GraphV) -> bool {
    &&& graph_finite(a)
    &&& graph_finite(b)
    &&& well_keyed(a)
    &&& well_keyed(b)
    &&& ports_valid(b)
}

proof fn lemma_run_ops_append(g: GraphV, s1: Seq<OperationV>, s2: Seq<OperationV>)
    ensures
        run_ops(g, s1 + s2) == (match run_ops(g, s1) {
            (g1, None) => run_ops(g1, s2),
            (g1, Some(e)) => (g1, Some(e)),
        }),
    decreases s1.len(),
{
    if s1.len() > 0 {
        assert((s1 + s2).drop_first() =~= s1.drop_first() + s2);
        assert((s1 + s2)[0] == s1[0]);
        match op_step(g, s1[0]) {
            Ok(g2) => lemma_run_ops_append(g2, s1.drop_first(), s2),
            Err(_) => {},
        }
    } else {
        assert(s1 + s2 =~= s2);
    }
}

proof fn lemma_run_one(g: GraphV, op: OperationV)
    ensures
        run_ops(g, seq![op]) == (match op_step(g, op) {
            Ok(g2) => (g2, None),
            Err(e) => (g, Some(e)),
        }),
{
    assert(seq![op].drop_first() =~= Seq::<OperationV>::empty());
    match op_step(g, op) {
        Ok(g2) => {
            assert(run_ops(g2, Seq::<OperationV>::empty()) == (g2, Option::<crate::patch::PatchErrorV>::None));
        },
        Err(_) => {},
    }
}

proof fn lemma_contains_last(ids: Seq<u128>)
    requires
        ids.len() > 0,
    ensures
        forall|k: u128| #[trigger] ids.contains(k) <==> (ids.drop_last().contains(k) || k == ids.last()),
        forall|k: u128| #[trigger] ids.drop_last().contains(k) ==> ids.contains(k),
{
    let prev = ids.drop_last();
    assert forall|k: u128| #[trigger] ids.contains(k) <==> (prev.contains(k) || k == ids.last()) by {
        if ids.contains(k) {
            let j = choose|j: int| 0 <= j < ids.len() && ids[j] == k;
            if j < ids.len() - 1 {
                assert(prev[j] == k);
            }
        }
        if prev.contains(k) {
            let j = choose|j: int| 0 <= j < prev.len() && prev[j] == k;
            assert(ids[j] == k);
        }
        if k == ids.last() {
            assert(ids[ids.len() - 1] == k);
        }
    }
    assert forall|k: u128| #[trigger] prev.contains(k) implies ids.contains(k) by {
        let j = choose|j: int| 0 <= j < prev.len() && prev[j] == k;
        assert(ids[j] == k);
    }
}

proof fn lemma_no_dup_last(ids: Seq<u128>)
    requires
        ids.len() > 0,
        ids.no_duplicates(),
    ensures
        ids.drop_last().no_duplicates(),
        !ids.drop_last().contains(ids.last()),
{
    let prev = ids.drop_last();
    assert forall|i: int, j: int| 0 <= i < prev.len() && 0 <= j < prev.len() && i != j implies prev[i] != prev[j] by {
        assert(prev[i] == ids[i] && prev[j] == ids[j]);
    }
    if prev.contains(ids.last()) {
        let j = choose|j: int| 0 <= j < prev.len() && prev[j] == ids.last();
        assert(ids[j] == ids[ids.len() - 1]);
    }
}

proof fn lemma_gather_nothing(ids: Seq<u128>, f: spec_fn(u128) -> Seq<OperationV>)
    requires
        forall|k: u128| #[trigger] ids.contains(k) ==> f(k) == Seq::<OperationV>::empty(),
    ensures
        gather(ids, f) == Seq::<OperationV>::empty(),
    decreases ids.len(),
{
    if ids.len() > 0 {
        lemma_contains_last(ids);
        lemma_gather_nothing(ids.drop_last(), f);
        assert(ids.contains(ids.last()));
        assert(gather(ids, f) =~= Seq::<OperationV>::empty());
    }
}

/// The edges of `a` that `b` holds unchanged.
spec fn common_edges(a: GraphV, b: GraphV) -> Map<u128, EdgeV> {
    Map::new(|k: u128| a.edges.contains_key(k) && b.edges.contains_key(k) && b.edges[k] == a.edges[k], |k: u128| a.edges[k])
}

/// The edges of `a` left once those among `ids` that change are removed.
spec fn edges_kept(a: GraphV, b: GraphV, ids: Seq<u128>) -> Map<u128, EdgeV> {
    Map::new(
        |k: u128| a.edges.contains_key(k) && (!ids.contains(k) || (b.edges.contains_key(k) && b.edges[k] == a.edges[k])),
        |k: u128| a.edges[k],
    )
}

/// The nodes of `a` left once those among `ids` that `b` lacks are removed.
spec fn nodes_kept(a: GraphV, b: GraphV, ids: Seq<u128>) -> Map<u128, NodeV> {
    Map::new(|k: u128| a.nodes.contains_key(k) && (!ids.contains(k) || b.nodes.contains_key(k)), |k: u128| a.nodes[k])
}

/// What the difference makes of node `k` of `b`.
spec fn diff_node(a: GraphV, b: GraphV, k: u128) -> NodeV {
    if !a.nodes.contains_key(k) || reshaped(a.nodes[k], b.nodes[k]) {
        b.nodes[k]
    } else if !config_eq(a.nodes[k].config, b.nodes[k].config) {
        NodeV { config: apply_delta(a.nodes[k].config, config_diff_spec(a.nodes[k].config, b.nodes[k].config)), ..a.nodes[k] }
    } else {
        a.nodes[k]
    }
}

/// The nodes common to `a` and `b`, with those among `ids` added or changed.
spec fn nodes_changed(a: GraphV, b: GraphV, ids: Seq<u128>) -> Map<u128, NodeV> {
    Map::new(
        |k: u128| b.nodes.contains_key(k) && (a.nodes.contains_key(k) || ids.contains(k)),
        |k: u128| if ids.contains(k) { diff_node(a, b, k) } else { a.nodes[k] },
    )
}

/// The common edges, with those of `b` among `ids` added.
spec fn edges_added(a: GraphV, b: GraphV, ids: Seq<u128>) -> Map<u128, EdgeV> {
    Map::new(
        |k: u128| b.edges.contains_key(k) && ((a.edges.contains_key(k) && a.edges[k] == b.edges[k]) || ids.contains(k)),
        |k: u128| b.edges[k],
    )
}

/// Whether node `x` stands for node `y`: the same but for its configuration,
/// which stands for `y`'s.
pub open spec fn node_agrees(x: NodeV, y: NodeV) -> bool {
    x == (NodeV { config: x.config, ..y }) && config_agrees(x.config, y.config)
}

proof fn lemma_diff_node(a: GraphV, b: GraphV, k: u128)
    requires
        b.nodes.contains_key(k),
    ensures
        diff_node(a, b, k).ports == b.nodes[k].ports,
        node_agrees(diff_node(a, b, k), b.nodes[k]),
{
    let y = b.nodes[k];
    if !a.nodes.contains_key(k) || reshaped(a.nodes[k], y) {
        assert(NodeV { config: y.config, ..y } == y);
    } else if !config_eq(a.nodes[k].config, y.config) {
        lemma_config_diff_applies(a.nodes[k].config, y.config);
    } else {
        let x = a.nodes[k];
        assert(x.config.dom() == y.config.dom());
    }
}

proof fn lemma_edge_removals_run(a: GraphV, b: GraphV, ids: Seq<u128>)
    requires
        ids.no_duplicates(),
        forall|k: u128| #[trigger] ids.contains(k) ==> a.edges.contains_key(k),
    ensures
        run_ops(a, gather(ids, edge_removals(a, b))) == (GraphV { edges: edges_kept(a, b, ids), ..a }, Option::<PatchErrorV>::None),
    decreases ids.len(),
{
    let f = edge_removals(a, b);
    if ids.len() == 0 {
        assert(edges_kept(a, b, ids) =~= a.edges);
    } else {
        let prev = ids.drop_last();
        let x = ids.last();
        lemma_contains_last(ids);
        lemma_no_dup_last(ids);
        lemma_edge_removals_run(a, b, prev);
        let s = GraphV { edges: edges_kept(a, b, prev), ..a };
        lemma_run_ops_append(a, gather(prev, f), f(x));
        assert(ids.contains(x));
        if b.edges.contains_key(x) && b.edges[x] == a.edges[x] {
            assert(edges_kept(a, b, prev) =~= edges_kept(a, b, ids));
        } else {
            lemma_run_one(s, OperationV::RemoveEdge(x));
            assert(edges_kept(a, b, prev).remove(x) =~= edges_kept(a, b, ids));
        }
    }
}

proof fn lemma_node_removals_run(a: GraphV, b: GraphV, ids: Seq<u128>)
    requires
        ids.no_duplicates(),
        forall|k: u128| #[trigger] ids.contains(k) ==> a.nodes.contains_key(k),
        ports_valid(b),
    ensures
        run_ops(GraphV { edges: common_edges(a, b), ..a }, gather(ids, node_removals(a, b)))
            == (GraphV { nodes: nodes_kept(a, b, ids), edges: common_edges(a, b), ..a }, Option::<PatchErrorV>::None),
    decreases ids.len(),
{
    let f = node_removals(a, b);
    let ce = common_edges(a, b);
    if ids.len() == 0 {
        assert(nodes_kept(a, b, ids) =~= a.nodes);
    } else {
        let prev = ids.drop_last();
        let x = ids.last();
        lemma_contains_last(ids);
        lemma_no_dup_last(ids);
        lemma_node_removals_run(a, b, prev);
        let s = GraphV { nodes: nodes_kept(a, b, prev), edges: ce, ..a };
        lemma_run_ops_append(GraphV { edges: ce, ..a }, gather(prev, f), f(x));
        assert(ids.contains(x));
        if b.nodes.contains_key(x) {
            assert(nodes_kept(a, b, prev) =~= nodes_kept(a, b, ids));
        } else {
            lemma_run_one(s, OperationV::RemoveNode(x));
            assert forall|k: u128| #[trigger] ce.contains_key(k) implies ce[k].source.node_id != x && ce[k].target.node_id != x by {
                assert(b.edges.contains_key(k));
            }
            assert(edges_without_node(ce, x) =~= ce);
            assert(nodes_kept(a, b, prev).remove(x) =~= nodes_kept(a, b, ids));
        }
    }
}

/// The common edges stay when a node of `b` replaces the node of its identifier.
proof fn lemma_common_edges_fit(a: GraphV, b: GraphV, x: u128)
    requires
        b.nodes.contains_key(x),
        well_keyed(b),
        ports_valid(b),
    ensures
        edges_fitting(common_edges(a, b), b.nodes[x]) == common_edges(a, b),
{
    let ce = common_edges(a, b);
    let n = b.nodes[x];
    assert forall|k: u128| #[trigger] ce.contains_key(k) implies edge_fits(ce[k], n) by {
        let e = b.edges[k];
        assert(b.edges.contains_key(k));
        if e.source.node_id == n.id {
            let i = choose|i: int| 0 <= i < b.nodes[e.source.node_id].ports.len() && #[trigger] b.nodes[e.source.node_id].ports[i].name == e.source.port_name;
            assert(n.ports[i].name == e.source.port_name);
        }
        if e.target.node_id == n.id {
            let i = choose|i: int| 0 <= i < b.nodes[e.target.node_id].ports.len() && #[trigger] b.nodes[e.target.node_id].ports[i].name == e.target.port_name;
            assert(n.ports[i].name == e.target.port_name);
        }
    }
    assert(edges_fitting(ce, n) =~= ce);
}

#[verifier::rlimit(40)]
proof fn lemma_node_changes_run(a: GraphV, b: GraphV, ids: Seq<u128>)
    requires
        ids.no_duplicates(),
        forall|k: u128| #[trigger] ids.contains(k) ==> b.nodes.contains_key(k),
        well_keyed(b),
        ports_valid(b),
    ensures
        run_ops(GraphV { nodes: nodes_changed(a, b, Seq::<u128>::empty()), edges: common_edges(a, b), ..a }, gather(ids, node_changes(a, b)))
            == (GraphV { nodes: nodes_changed(a, b, ids), edges: common_edges(a, b), ..a }, Option::<PatchErrorV>::None),
    decreases ids.len(),
{
    let f = node_changes(a, b);
    let ce = common_edges(a, b);
    let g0 = GraphV { nodes: nodes_changed(a, b, Seq::<u128>::empty()), edges: ce, ..a };
    if ids.len() == 0 {
        assert(nodes_changed(a, b, ids) =~= nodes_changed(a, b, Seq::<u128>::empty()));
    } else {
        let prev = ids.drop_last();
        let x = ids.last();
        lemma_contains_last(ids);
        lemma_no_dup_last(ids);
        lemma_node_changes_run(a, b, prev);
        let s = GraphV { nodes: nodes_changed(a, b, prev), edges: ce, ..a };
        lemma_run_ops_append(g0, gather(prev, f), f(x));
        assert(ids.contains(x));
        assert(b.nodes.contains_key(x));
        let y = b.nodes[x];
        assert(y.id == x);
        if !a.nodes.contains_key(x) {
            lemma_run_one(s, OperationV::AddNode(y));
            assert(nodes_changed(a, b, prev).insert(x, y) =~= nodes_changed(a, b, ids));
        } else if reshaped(a.nodes[x], y) {
            lemma_run_one(s, OperationV::ReplaceNode(y));
            lemma_common_edges_fit(a, b, x);
            assert(nodes_changed(a, b, prev).insert(x, y) =~= nodes_changed(a, b, ids));
        } else if !config_eq(a.nodes[x].config, y.config) {
            let d = config_diff_spec(a.nodes[x].config, y.config);
            lemma_run_one(s, OperationV::ModifyConfig { node_id: x, delta: d });
            assert(nodes_changed(a, b, prev).insert(x, diff_node(a, b, x)) =~= nodes_changed(a, b, ids));
        } else {
            assert(nodes_changed(a, b, prev) =~= nodes_changed(a, b, ids));
        }
    }
}

proof fn lemma_edge_additions_run(a: GraphV, b: GraphV, nodes: Map<u128, NodeV>, ids: Seq<u128>)
    requires
        ids.no_duplicates(),
        forall|k: u128| #[trigger] ids.contains(k) ==> b.edges.contains_key(k),
        forall|k: u128| #[trigger] b.nodes.contains_key(k) ==> nodes.contains_key(k) && nodes[k].ports == b.nodes[k].ports,
        well_keyed(b),
        ports_valid(b),
    ensures
        run_ops(GraphV { nodes, edges: edges_added(a, b, Seq::<u128>::empty()), ..a }, gather(ids, edge_additions(a, b)))
            == (GraphV { nodes, edges: edges_added(a, b, ids), ..a }, Option::<PatchErrorV>::None),
    decreases ids.len(),
{
    let f = edge_additions(a, b);
    let g0 = GraphV { nodes, edges: edges_added(a, b, Seq::<u128>::empty()), ..a };
    if ids.len() == 0 {
        assert(edges_added(a, b, ids) =~= edges_added(a, b, Seq::<u128>::empty()));
    } else {
        let prev = ids.drop_last();
        let x = ids.last();
        lemma_contains_last(ids);
        lemma_no_dup_last(ids);
        lemma_edge_additions_run(a, b, nodes, prev);
        let s = GraphV { nodes, edges: edges_added(a, b, prev), ..a };
        lemma_run_ops_append(g0, gather(prev, f), f(x));
        assert(ids.contains(x));
        assert(b.edges.contains_key(x));
        let e = b.edges[x];
        if a.edges.contains_key(x) && a.edges[x] == e {
            assert(edges_added(a, b, prev) =~= edges_added(a, b, ids));
        } else {
            assert(e.id == x);
            assert(has_port(b, e.source) && has_port(b, e.target));
            crate::patch::lemma_has_port_same_node(b, s, e.source);
            crate::patch::lemma_has_port_same_node(b, s, e.target);
            lemma_run_one(s, OperationV::AddEdge(e));
            assert(edges_added(a, b, prev).insert(x, e) =~= edges_added(a, b, ids));
        }
    }
}

/// Round trip: applying the difference from `a` to `b` to `a` succeeds and
/// gives `b`'s edges and `b`'s nodes, each the same as `b`'s but for
/// configuration values equal to `b`'s (floats compared by IEEE-754); the
/// modulations are `a`'s, the revision advances and the patch joins the
/// history.
#[verifier::rlimit(40)]
pub proof fn lemma_diff_applies(a: GraphV, b: GraphV, p: PatchV)
    requires
        diff_applicable(a, b),
        p.operations == diff_ops(a, b),
    ensures
        apply_patch(a, p).1 is None,
        apply_patch(a, p).0.nodes.dom() == b.nodes.dom(),
        forall|k: u128| #[trigger] b.nodes.contains_key(k) ==> node_agrees(apply_patch(a, p).0.nodes[k], b.nodes[k]),
        apply_patch(a, p).0.edges == b.edges,
        apply_patch(a, p).0.modulations == a.modulations,
        apply_patch(a, p).0.revision == (a.revision + 1) as u64,
        apply_patch(a, p).0.applied == a.applied.push(p.identity),
{
    let ea = ordered_ids(a.edges);
    let na = ordered_ids(a.nodes);
    let nb = ordered_ids(b.nodes);
    let eb = ordered_ids(b.edges);
    lemma_ordered_ids_keys(a.edges);
    lemma_ordered_ids_keys(a.nodes);
    lemma_ordered_ids_keys(b.nodes);
    lemma_ordered_ids_keys(b.edges);
    let s1 = gather(ea, edge_removals(a, b));
    let s2 = gather(na, node_removals(a, b));
    let s3 = gather(nb, node_changes(a, b));
    let s4 = gather(eb, edge_additions(a, b));
    let ce = common_edges(a, b);

    lemma_edge_removals_run(a, b, ea);
    assert(edges_kept(a, b, ea) =~= ce);
    let c1 = GraphV { edges: ce, ..a };

    lemma_node_removals_run(a, b, na);
    assert(nodes_kept(a, b, na) =~= nodes_changed(a, b, Seq::<u128>::empty()));
    lemma_run_ops_append(a, s1, s2);

    lemma_node_changes_run(a, b, nb);
    let nodes3 = nodes_changed(a, b, nb);
    lemma_run_ops_append(a, s1 + s2, s3);

    assert forall|k: u128| #[trigger] b.nodes.contains_key(k) implies nodes3.contains_key(k) && nodes3[k].ports == b.nodes[k].ports
        && node_agrees(nodes3[k], b.nodes[k]) by {
        assert(nb.contains(k));
        lemma_diff_node(a, b, k);
    }
    assert(ce =~= edges_added(a, b, Seq::<u128>::empty()));
    lemma_edge_additions_run(a, b, nodes3, eb);
    assert(edges_added(a, b, eb) =~= b.edges);
    lemma_run_ops_append(a, s1 + s2 + s3, s4);
    assert(nodes3.dom() =~= b.nodes.dom());
}

/// The difference from a graph to itself has no operations, when no
/// configuration value of its nodes holds a NaN (NaN is unequal to itself).
pub proof fn lemma_diff_self_empty(g: GraphV)
    requires
        graph_finite(g),
        forall|k: u128, c: Seq<char>|
            #![trigger g.nodes[k].config[c]]
            g.nodes.contains_key(k) && g.nodes[k].config.contains_key(c) ==> nan_free(g.nodes[k].config[c]),
    ensures
        diff_ops(g, g) == Seq::<OperationV>::empty(),
{
    lemma_ordered_ids_keys(g.edges);
    lemma_ordered_ids_keys(g.nodes);
    assert forall|k: u128| #[trigger] ordered_ids(g.edges).contains(k) implies edge_removals(g, g)(k) == Seq::<OperationV>::empty() by {}
    assert forall|k: u128| #[trigger] ordered_ids(g.nodes).contains(k) implies node_removals(g, g)(k) == Seq::<OperationV>::empty() by {}
    assert forall|k: u128| #[trigger] ordered_ids(g.nodes).contains(k) implies node_changes(g, g)(k) == Seq::<OperationV>::empty() by {
        let x = g.nodes[k];
        assert(NodeV { config: x.config, ..x } == x);
        assert forall|c: Seq<char>| #[trigger] x.config.contains_key(c) implies nan_free(x.config[c]) by {
            assert(nan_free(g.nodes[k].config[c]));
        }
        lemma_config_diff_same(x.config);
        lemma_config_diff_empty(x.config, x.config);
    }
    assert forall|k: u128| #[trigger] ordered_ids(g.edges).contains(k) implies edge_additions(g, g)(k) == Seq::<OperationV>::empty() by {}
    lemma_gather_nothing(ordered_ids(g.edges), edge_removals(g, g));
    lemma_gather_nothing(ordered_ids(g.nodes), node_removals(g, g));
    lemma_gather_nothing(ordered_ids(g.nodes), node_changes(g, g));
    lemma_gather_nothing(ordered_ids(g.edges), edge_additions(g, g));
    assert(diff_ops(g, g) =~= Seq::<OperationV>::empty());
}

} // verus!
