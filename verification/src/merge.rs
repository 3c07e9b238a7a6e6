//! Three-way merge of patch sets: what each side does to each node, and
//! where the two sides collide.
use vstd::prelude::*;
use std::collections::BTreeMap;
use crate::ids::{ulid_text, StableId};
use crate::ir::{lemma_seq_model_push, seq_model};
use crate::keyed::{entries_of, lemma_entries_of_finite, lemma_pairs_map, pairs_map, Keyed, Model};
use crate::patch::{Operation, OperationV, Patch, PatchSet, PatchV};
use crate::text::{owned, push_str};
use crate::types::{
    config_value_eq, lemma_value_eq_symm, option_model, value_eq, ConfigChange, ConfigChangeV, ConfigDelta, ConfigValue,
    ConfigValueV, PatchSource, PatchSourceV, TrustLevel,
};
use crate::walk::{gather, increasing, lemma_increasing_exists, lemma_ordered_ids, ordered_ids, sorted_keys_of};

verus! {

broadcast use {vstd::std_specs::btree::group_btree_axioms, vstd::laws_cmp::group_laws_cmp};

/// Why two patch sets cannot be merged.
#[derive(Debug, Clone, PartialEq)]
pub enum MergeError {
    /// Both sides changed the same key of a node differently.
    ConfigConflict { node_id: StableId, key: String },
    /// Both sides modified the same edge.
    EdgeConflict { edge_id: StableId },
    /// One side removed a node that the other side also touched.
    RemoveModifyConflict { node_id: StableId },
}

pub enum MergeErrorV {
    ConfigConflict { node_id: u128, key: Seq<char> },
    EdgeConflict { edge_id: u128 },
    RemoveModifyConflict { node_id: u128 },
}

impl View for MergeError {
    type V = MergeErrorV;

    open spec fn view(&self) -> MergeErrorV {
        match self {
            MergeError::ConfigConflict { node_id, key } => MergeErrorV::ConfigConflict { node_id: node_id.0, key: key@ },
            MergeError::EdgeConflict { edge_id } => MergeErrorV::EdgeConflict { edge_id: edge_id.0 },
            MergeError::RemoveModifyConflict { node_id } => MergeErrorV::RemoveModifyConflict { node_id: node_id.0 },
        }
    }
}

/// How a merge error reads.
pub open spec fn merge_error_text(e: MergeErrorV) -> Seq<char> {
    match e {
        MergeErrorV::ConfigConflict { node_id, key } => "Conflict on node "@ + ulid_text(node_id) + ": key '"@ + key
            + "' modified by both sides"@,
        MergeErrorV::EdgeConflict { edge_id } => "Conflict on edge "@ + ulid_text(edge_id) + ": both sides modified this edge"@,
        MergeErrorV::RemoveModifyConflict { node_id } => "Conflict on node "@ + ulid_text(node_id)
            + ": one side removed, other side modified"@,
    }
}

impl MergeError {
    /// The error as text.
    pub fn to_text(&self) -> (s: String)
        ensures
            s@ == merge_error_text(self@),
    {
        match self {
            MergeError::ConfigConflict { node_id, key } => {
                let mut s = owned("Conflict on node ");
                let t = node_id.to_text();
                push_str(&mut s, t.as_str());
                push_str(&mut s, ": key '");
                push_str(&mut s, key.as_str());
                push_str(&mut s, "' modified by both sides");
                s
            },
            MergeError::EdgeConflict { edge_id } => {
                let mut s = owned("Conflict on edge ");
                let t = edge_id.to_text();
                push_str(&mut s, t.as_str());
                push_str(&mut s, ": both sides modified this edge");
                s
            },
            MergeError::RemoveModifyConflict { node_id } => {
                let mut s = owned("Conflict on node ");
                let t = node_id.to_text();
                push_str(&mut s, t.as_str());
                push_str(&mut s, ": one side removed, other side modified");
                s
            },
        }
    }
}

// ── What a side does to each node ──────────────────

/// What a list of patches does to one node: whether it removes the node,
/// and the configuration changes it makes (later ones win).
struct NodeOpSummary {
    removed: bool,
    config_delta: ConfigDelta,
}

pub struct NodeSummaryV {
    pub removed: bool,
    pub delta: Map<Seq<char>, ConfigChangeV>,
}

impl View for NodeOpSummary {
    type V = NodeSummaryV;

    closed spec fn view(&self) -> NodeSummaryV {
        NodeSummaryV { removed: self.removed, delta: self.config_delta@ }
    }
}

/// The summary of one node before an operation touches it.
pub open spec fn summary_or_blank(m: Map<u128, NodeSummaryV>, id: u128) -> NodeSummaryV {
    if m.contains_key(id) {
        m[id]
    } else {
        NodeSummaryV { removed: false, delta: Map::empty() }
    }
}

/// The summaries after one more operation.
pub open spec fn summary_step(m: Map<u128, NodeSummaryV>, op: OperationV) -> Map<u128, NodeSummaryV> {
    match op {
        OperationV::RemoveNode(id) => m.insert(id, NodeSummaryV { removed: true, ..summary_or_blank(m, id) }),
        OperationV::ModifyConfig { node_id, delta } => m.insert(
            node_id,
            NodeSummaryV {
                delta: summary_or_blank(m, node_id).delta.union_prefer_right(delta),
                ..summary_or_blank(m, node_id)
            },
        ),
        _ => m,
    }
}

/// The summaries after a list of operations, from `m`.
pub open spec fn summarize_ops(m: Map<u128, NodeSummaryV>, ops: Seq<OperationV>) -> Map<u128, NodeSummaryV>
    decreases ops.len(),
{
    if ops.len() == 0 {
        m
    } else {
        summary_step(summarize_ops(m, ops.drop_last()), ops.last())
    }
}

/// The summaries of a list of patches: their operations in order.
pub open spec fn summarize_patches(ps: Seq<PatchV>) -> Map<u128, NodeSummaryV>
    decreases ps.len(),
{
    if ps.len() == 0 {
        Map::empty()
    } else {
        summarize_ops(summarize_patches(ps.drop_last()), ps.last().operations)
    }
}

struct OpTargets {
    nodes: BTreeMap<u128, NodeOpSummary>,
}

spec fn targets_view(t: &OpTargets) -> Map<u128, NodeSummaryV> {
    t.nodes@.map_values(|s: NodeOpSummary| s@)
}

/// The configuration delta `base` overlaid with `delta`.
fn overlay(base: &mut ConfigDelta, delta: &ConfigDelta)
    ensures
        final(base)@ == old(base)@.union_prefer_right(delta@),
{
    let n = delta.len();
    let ghost start = base@;
    let mut i: usize = 0;
    while i < n
        invariant
            n == delta.pairs().len(),
            i <= n,
            base@ == start.union_prefer_right(pairs_map(delta.pairs().take(i as int))),
        decreases n - i,
    {
        let (k, v) = delta.entry(i);
        base.insert(k.clone(), v.duplicate());
        proof {
            assert(delta.pairs().take(i + 1).drop_last() =~= delta.pairs().take(i as int));
            assert(base@ =~= start.union_prefer_right(pairs_map(delta.pairs().take(i + 1))));
        }
        i += 1;
    }
    proof {
        assert(delta.pairs().take(n as int) =~= delta.pairs());
    }
}

fn summarize_op(nodes: &mut BTreeMap<u128, NodeOpSummary>, op: &Operation)
    ensures
        final(nodes)@.map_values(|s: NodeOpSummary| s@) == summary_step(old(nodes)@.map_values(|s: NodeOpSummary| s@), op@),
{
    let ghost m = old(nodes)@.map_values(|s: NodeOpSummary| s@);
    match op {
        Operation::RemoveNode(id) => {
            let mut s = match nodes.remove(&id.0) {
                Some(s) => s,
                None => NodeOpSummary { removed: false, config_delta: Keyed::new() },
            };
            assert(s@ == summary_or_blank(m, id.0));
            s.removed = true;
            nodes.insert(id.0, s);
            proof {
                assert(nodes@.map_values(|s: NodeOpSummary| s@) =~= summary_step(m, op@));
            }
        },
        Operation::ModifyConfig { node_id, delta } => {
            let mut s = match nodes.remove(&node_id.0) {
                Some(s) => s,
                None => NodeOpSummary { removed: false, config_delta: Keyed::new() },
            };
            assert(s@ == summary_or_blank(m, node_id.0));
            overlay(&mut s.config_delta, delta);
            nodes.insert(node_id.0, s);
            proof {
                assert(nodes@.map_values(|s: NodeOpSummary| s@) =~= summary_step(m, op@));
            }
        },
        _ => {
            assert(nodes@.map_values(|s: NodeOpSummary| s@) =~= summary_step(m, op@));
        },
    }
}

fn collect_op_targets(patches: &[Patch]) -> (t: OpTargets)
    ensures
        targets_view(&t) == summarize_patches(seq_model(patches@)),
{
    let ghost ps = seq_model(patches@);
    let mut nodes: BTreeMap<u128, NodeOpSummary> = BTreeMap::new();
    proof {
        assert(nodes@.map_values(|s: NodeOpSummary| s@) =~= Map::<u128, NodeSummaryV>::empty());
    }
    let mut i: usize = 0;
    while i < patches.len()
        invariant
            ps == seq_model(patches@),
            i <= ps.len(),
            nodes@.map_values(|s: NodeOpSummary| s@) == summarize_patches(ps.take(i as int)),
        decreases ps.len() - i,
    {
        let patch = &patches[i];
        let ghost ops = patch@.operations;
        let ghost m0 = nodes@.map_values(|s: NodeOpSummary| s@);
        let mut j: usize = 0;
        proof {
            assert(ops.take(0) =~= Seq::<OperationV>::empty());
        }
        while j < patch.operations.len()
            invariant
                ops == patch@.operations,
                j <= ops.len(),
                nodes@.map_values(|s: NodeOpSummary| s@) == summarize_ops(m0, ops.take(j as int)),
            decreases ops.len() - j,
        {
            summarize_op(&mut nodes, &patch.operations[j]);
            proof {
                assert(ops.take(j + 1).drop_last() =~= ops.take(j as int));
                assert(ops[j as int] == patch.operations@[j as int]@);
            }
            j += 1;
        }
        proof {
            assert(ops.take(ops.len() as int) =~= ops);
            assert(ps.take(i + 1).drop_last() =~= ps.take(i as int));
            assert(ps[i as int] == patch@);
        }
        i += 1;
    }
    proof {
        assert(ps.take(ps.len() as int) =~= ps);
    }
    OpTargets { nodes }
}

// ── Merging ──────────────────

/// Equality of optional configuration values as `==` compares them.
pub open spec fn opt_value_eq(a: Option<ConfigValueV>, b: Option<ConfigValueV>) -> bool {
    match (a, b) {
        (Some(x), Some(y)) => value_eq(x, y),
        (None, None) => true,
        _ => false,
    }
}

/// Equality of two key changes as `==` compares them (floats by IEEE-754).
pub open spec fn change_eq(a: ConfigChangeV, b: ConfigChangeV) -> bool {
    opt_value_eq(a.old, b.old) && opt_value_eq(a.new, b.new)
}

/// The first key, in key order of `rs`, that `l` changes differently.
pub open spec fn first_conflict(l: Map<Seq<char>, ConfigChangeV>, rs: Seq<(Seq<char>, ConfigChangeV)>) -> Option<Seq<char>>
    decreases rs.len(),
{
    if rs.len() == 0 {
        None
    } else if l.contains_key(rs[0].0) && !change_eq(l[rs[0].0], rs[0].1) {
        Some(rs[0].0)
    } else {
        first_conflict(l, rs.drop_first())
    }
}

/// The operation that carries a configuration delta, unless it is empty.
pub open spec fn delta_op(id: u128, d: Map<Seq<char>, ConfigChangeV>) -> Seq<OperationV> {
    if d == Map::<Seq<char>, ConfigChangeV>::empty() {
        Seq::empty()
    } else {
        seq![OperationV::ModifyConfig { node_id: id, delta: d }]
    }
}

/// What one side alone does to a node, as operations.
pub open spec fn one_side(id: u128, s: NodeSummaryV) -> Seq<OperationV> {
    if s.removed {
        seq![OperationV::RemoveNode(id)]
    } else {
        delta_op(id, s.delta)
    }
}

/// The merge of what both sides do to node `id`: a node both sides remove
/// (and neither changes) is removed once; one that a side removes and the
/// other changes is a conflict; changes of both sides combine unless they
/// change one key differently, and where both change a key alike the left
/// side's change is kept.
pub open spec fn node_merge(left: Map<u128, NodeSummaryV>, right: Map<u128, NodeSummaryV>, id: u128) -> Result<Seq<OperationV>, MergeErrorV> {
    if left.contains_key(id) && right.contains_key(id) {
        let l = left[id];
        let r = right[id];
        if l.removed && r.removed && l.delta == Map::<Seq<char>, ConfigChangeV>::empty()
            && r.delta == Map::<Seq<char>, ConfigChangeV>::empty() {
            Ok(seq![OperationV::RemoveNode(id)])
        } else if l.removed || r.removed {
            Err(MergeErrorV::RemoveModifyConflict { node_id: id })
        } else {
            match first_conflict(l.delta, entries_of(r.delta)) {
                Some(k) => Err(MergeErrorV::ConfigConflict { node_id: id, key: k }),
                None => Ok(delta_op(id, r.delta.union_prefer_right(l.delta))),
            }
        }
    } else if left.contains_key(id) {
        Ok(one_side(id, left[id]))
    } else {
        Ok(one_side(id, right[id]))
    }
}

/// The merge over nodes `ids`, in order; the first conflict stops it.
pub open spec fn merge_nodes(left: Map<u128, NodeSummaryV>, right: Map<u128, NodeSummaryV>, ids: Seq<u128>) -> Result<Seq<OperationV>, MergeErrorV>
    decreases ids.len(),
{
    if ids.len() == 0 {
        Ok(Seq::empty())
    } else {
        match merge_nodes(left, right, ids.drop_last()) {
            Err(e) => Err(e),
            Ok(ops) => match node_merge(left, right, ids.last()) {
                Err(e) => Err(e),
                Ok(more) => Ok(ops + more),
            },
        }
    }
}

/// The nodes that either side touches, in identifier order.
pub open spec fn touched_nodes(left: Map<u128, NodeSummaryV>, right: Map<u128, NodeSummaryV>) -> Seq<u128> {
    ordered_ids(left.union_prefer_right(right))
}

/// The merged operations of two sides (the base is not consulted).
pub open spec fn merge_spec(left: Seq<PatchV>, right: Seq<PatchV>) -> Result<Seq<OperationV>, MergeErrorV> {
    merge_nodes(summarize_patches(left), summarize_patches(right), touched_nodes(summarize_patches(left), summarize_patches(right)))
}

fn option_equal(a: &Option<ConfigValue>, b: &Option<ConfigValue>) -> (r: bool)
    ensures
        r == opt_value_eq(option_model(*a), option_model(*b)),
{
    match (a, b) {
        (Some(x), Some(y)) => config_value_eq(x, y),
        (None, None) => true,
        _ => false,
    }
}

fn change_equal(a: &ConfigChange, b: &ConfigChange) -> (r: bool)
    ensures
        r == change_eq(a@, b@),
{
    option_equal(&a.old, &b.old) && option_equal(&a.new, &b.new)
}

fn merge_node(id: u128, l: Option<&NodeOpSummary>, r: Option<&NodeOpSummary>, ops: &mut Vec<Operation>) -> (res: Result<(), MergeError>)
    requires
        l is Some || r is Some,
    ensures
        ({
            let lm = match l { Some(s) => Map::<u128, NodeSummaryV>::empty().insert(id, s@), None => Map::<u128, NodeSummaryV>::empty() };
            let rm = match r { Some(s) => Map::<u128, NodeSummaryV>::empty().insert(id, s@), None => Map::<u128, NodeSummaryV>::empty() };
            match node_merge(lm, rm, id) {
                Ok(more) => res is Ok && seq_model(final(ops)@) == seq_model(old(ops)@) + more,
                Err(e) => res is Err && res->Err_0@ == e,
            }
        }),
{
    let ghost lm = match l { Some(s) => Map::<u128, NodeSummaryV>::empty().insert(id, s@), None => Map::<u128, NodeSummaryV>::empty() };
    let ghost rm = match r { Some(s) => Map::<u128, NodeSummaryV>::empty().insert(id, s@), None => Map::<u128, NodeSummaryV>::empty() };
    let ghost before = seq_model(ops@);
    match (l, r) {
        (Some(ls), Some(rs)) => {
            if ls.removed && rs.removed && ls.config_delta.is_empty() && rs.config_delta.is_empty() {
                let op = Operation::RemoveNode(StableId(id));
                proof {
                    lemma_seq_model_push(ops@, op);
                }
                ops.push(op);
                return Ok(());
            }
            if ls.removed || rs.removed {
                return Err(MergeError::RemoveModifyConflict { node_id: StableId(id) });
            }
            assert(lm[id] == ls@ && rm[id] == rs@);
            let mut merged = ls.config_delta.duplicate();
            let n = rs.config_delta.len();
            let ghost rp = rs.config_delta.pairs();
            let ghost ld = ls.config_delta@;
            proof {
                assert(rp.skip(0) =~= rp);
                assert(merged@ =~= pairs_map(rp.take(0)).union_prefer_right(ld));
            }
            let mut i: usize = 0;
            while i < n
                invariant
                    n == rp.len(),
                    rp == rs.config_delta.pairs(),
                    rp == entries_of(rs.config_delta@),
                    ld == ls.config_delta@,
                    lm.contains_key(id) && lm[id] == ls@,
                    rm.contains_key(id) && rm[id] == rs@,
                    !ls.removed && !rs.removed,
                    l == Some(ls),
                    r == Some(rs),
                    lm == (match l { Some(s) => Map::<u128, NodeSummaryV>::empty().insert(id, s@), None => Map::<u128, NodeSummaryV>::empty() }),
                    rm == (match r { Some(s) => Map::<u128, NodeSummaryV>::empty().insert(id, s@), None => Map::<u128, NodeSummaryV>::empty() }),
                    i <= n,
                    first_conflict(ld, rp) == first_conflict(ld, rp.skip(i as int)),
                    merged@ == pairs_map(rp.take(i as int)).union_prefer_right(ld),
                decreases n - i,
            {
                let (key, rc) = rs.config_delta.entry(i);
                proof {
                    assert(rp.skip(i as int)[0] == rp[i as int]);
                    assert(rp.skip(i as int).drop_first() =~= rp.skip(i + 1));
                    assert(rp.take(i + 1).drop_last() =~= rp.take(i as int));
                }
                match ls.config_delta.get(key.as_str()) {
                    Some(lc) => {
                        if !change_equal(lc, rc) {
                            assert(first_conflict(ld, rp.skip(i as int)) == Some(key@));
                            assert(lm[id] == ls@ && rm[id] == rs@);
                            assert(!lm[id].removed && !rm[id].removed);
                            assert(first_conflict(lm[id].delta, entries_of(rm[id].delta)) == Some(key@));
                            let err = MergeError::ConfigConflict { node_id: StableId(id), key: key.clone() };
                            assert(node_merge(lm, rm, id) == Err::<Seq<OperationV>, MergeErrorV>(err@));
                            return Err(err);
                        }
                    },
                    None => {
                        merged.insert(key.clone(), rc.duplicate());
                    },
                }
                proof {
                    assert(merged@ =~= pairs_map(rp.take(i + 1)).union_prefer_right(ld));
                }
                i += 1;
            }
            proof {
                assert(rp.take(n as int) =~= rp);
                assert(rp.skip(n as int).len() == 0);
                crate::keyed::lemma_pairs_map(rp);
            }
            if !merged.is_empty() {
                let op = Operation::ModifyConfig { node_id: StableId(id), delta: merged };
                proof {
                    lemma_seq_model_push(ops@, op);
                }
                ops.push(op);
            }
            proof {
                assert(seq_model(ops@) =~= before + delta_op(id, rs.config_delta@.union_prefer_right(ld)));
            }
            Ok(())
        },
        (Some(s), None) | (None, Some(s)) => {
            if s.removed {
                let op = Operation::RemoveNode(StableId(id));
                proof {
                    lemma_seq_model_push(ops@, op);
                }
                ops.push(op);
            } else {
                let d = s.config_delta.duplicate();
                if !d.is_empty() {
                    let op = Operation::ModifyConfig { node_id: StableId(id), delta: d };
                    proof {
                        lemma_seq_model_push(ops@, op);
                    }
                    ops.push(op);
                }
            }
            proof {
                assert(seq_model(ops@) =~= before + one_side(id, s@));
            }
            Ok(())
        },
        (None, None) => Ok(()),
    }
}


proof fn lemma_merge_err_persists(left: Map<u128, NodeSummaryV>, right: Map<u128, NodeSummaryV>, ids: Seq<u128>, k: int)
    requires
        0 <= k <= ids.len(),
        merge_nodes(left, right, ids.take(k)) is Err,
    ensures
        merge_nodes(left, right, ids) == merge_nodes(left, right, ids.take(k)),
    decreases ids.len() - k,
{
    if ids.len() == k {
        assert(ids.take(k) =~= ids);
    } else {
        assert(ids.drop_last().take(k) =~= ids.take(k));
        lemma_merge_err_persists(left, right, ids.drop_last(), k);
    }
}

/// Merges two patch sets that descend from a common base, node by node in
/// identifier order: removals and configuration changes that only one side
/// makes are kept; changes that both make are combined unless they collide.
pub fn merge_three_way(base: &PatchSet, left: &PatchSet, right: &PatchSet) -> (r: Result<PatchSet, MergeError>)
    ensures
        match merge_spec(seq_model(left.patches@), seq_model(right.patches@)) {
            Ok(ops) => r is Ok && r->Ok_0.patches@.len() == 1 && r->Ok_0.patches@[0]@.operations == ops
                && r->Ok_0.patches@[0]@.source == PatchSourceV::System && r->Ok_0.patches@[0]@.trust == TrustLevel::Trusted
                && r->Ok_0.patches@[0]@.intent_ref is None && r->Ok_0.patches@[0]@.parents == Seq::<u128>::empty()
                && crate::patch::hash_matches(r->Ok_0.patches@[0]@),
            Err(e) => r is Err && r->Err_0@ == e,
        },
{
    let lt = collect_op_targets(left.patches.as_slice());
    let rt = collect_op_targets(right.patches.as_slice());
    let ghost lv = targets_view(&lt);
    let ghost rv = targets_view(&rt);
    let lkeys = sorted_keys_of(&lt.nodes);
    let rkeys = sorted_keys_of(&rt.nodes);
    let mut all: BTreeMap<u128, bool> = BTreeMap::new();
    let mut i: usize = 0;
    while i < lkeys.len()
        invariant
            i <= lkeys@.len(),
            forall|x: u128| #[trigger] all@.contains_key(x) <==> exists|j: int| 0 <= j < i && lkeys@[j] == x,
        decreases lkeys@.len() - i,
    {
        all.insert(lkeys[i], true);
        proof {
            assert forall|x: u128| #[trigger] all@.contains_key(x) <==> exists|j: int| 0 <= j < i + 1 && lkeys@[j] == x by {
                if x == lkeys@[i as int] {
                    assert(lkeys@[i as int] == x);
                }
            }
        }
        i += 1;
    }
    let mut i: usize = 0;
    while i < rkeys.len()
        invariant
            i <= rkeys@.len(),
            forall|x: u128| #[trigger] all@.contains_key(x) <==> (lkeys@.contains(x) || exists|j: int| 0 <= j < i && rkeys@[j] == x),
        decreases rkeys@.len() - i,
    {
        all.insert(rkeys[i], true);
        proof {
            assert forall|x: u128| #[trigger] all@.contains_key(x) <==> (lkeys@.contains(x) || exists|j: int| 0 <= j < i + 1 && rkeys@[j] == x) by {
                if x == rkeys@[i as int] {
                    assert(rkeys@[i as int] == x);
                }
                if lkeys@.contains(x) {
                    let j = choose|j: int| 0 <= j < lkeys@.len() && lkeys@[j] == x;
                    assert(lkeys@[j] == x);
                }
            }
        }
        i += 1;
    }
    let ids = sorted_keys_of(&all);
    proof {
        assert(all@.dom() =~= lv.union_prefer_right(rv).dom()) by {
            assert forall|x: u128| all@.contains_key(x) <==> lv.union_prefer_right(rv).contains_key(x) by {
                if rkeys@.contains(x) {
                    let j = choose|j: int| 0 <= j < rkeys@.len() && rkeys@[j] == x;
                    assert(rkeys@[j] == x);
                }
            }
        }
        lemma_ordered_ids(lv.union_prefer_right(rv), ids@);
    }
    let mut ops: Vec<Operation> = Vec::new();
    proof {
        assert(seq_model(ops@) =~= Seq::<OperationV>::empty());
        assert(ids@.take(0) =~= Seq::<u128>::empty());
    }
    let mut k: usize = 0;
    while k < ids.len()
        invariant
            k <= ids@.len(),
            lv == targets_view(&lt),
            rv == targets_view(&rt),
            lv == summarize_patches(seq_model(left.patches@)),
            rv == summarize_patches(seq_model(right.patches@)),
            ids@ == touched_nodes(lv, rv),
            forall|x: u128| all@.contains_key(x) <==> ids@.contains(x),
            forall|x: u128| #[trigger] all@.contains_key(x) <==> (lv.contains_key(x) || rv.contains_key(x)),
            merge_nodes(lv, rv, ids@.take(k as int)) == Ok::<Seq<OperationV>, MergeErrorV>(seq_model(ops@)),
        decreases ids@.len() - k,
    {
        let id = ids[k];
        assert(ids@.contains(id)) by {
            assert(ids@[k as int] == id);
        }
        assert(all@.contains_key(id));
        let l = lt.nodes.get(&id);
        let r = rt.nodes.get(&id);
        let ghost before = seq_model(ops@);
        let ghost lm = match l { Some(s) => Map::<u128, NodeSummaryV>::empty().insert(id, s@), None => Map::<u128, NodeSummaryV>::empty() };
        let ghost rm = match r { Some(s) => Map::<u128, NodeSummaryV>::empty().insert(id, s@), None => Map::<u128, NodeSummaryV>::empty() };
        proof {
            assert(node_merge(lm, rm, id) == node_merge(lv, rv, id));
            assert(ids@.take(k + 1).drop_last() =~= ids@.take(k as int));
            assert(ids@.take(k + 1).last() == id);
        }
        let res = merge_node(id, l, r, &mut ops);
        match res {
            Ok(()) => {},
            Err(e) => {
                proof {
                    assert(merge_nodes(lv, rv, ids@.take(k + 1)) == Err::<Seq<OperationV>, MergeErrorV>(e@));
                    lemma_merge_err_persists(lv, rv, ids@, k + 1);
                    assert(lv == summarize_patches(seq_model(left.patches@)));
                    assert(rv == summarize_patches(seq_model(right.patches@)));
                }
                return Err(e);
            },
        }
        k += 1;
    }
    proof {
        assert(ids@.take(ids@.len() as int) =~= ids@);
    }
    let patch = Patch::from_operations_with_provenance(ops, PatchSource::System, TrustLevel::Trusted);
    let mut patches: Vec<Patch> = Vec::new();
    patches.push(patch);
    Ok(PatchSet { patches })
}

// ── Symmetry ──────────────────

/// Whether every configuration delta of a list of patches is finite, as
/// the deltas that a patch carries are.
pub open spec fn finite_deltas(ps: Seq<PatchV>) -> bool {
    forall|i: int, j: int|
        0 <= i < ps.len() && 0 <= j < ps[i].operations.len() && (#[trigger] ps[i].operations[j]) is ModifyConfig
            ==> ps[i].operations[j]->ModifyConfig_delta.dom().finite()
}

/// Whether a map of summaries is finite, with finite deltas.
pub open spec fn finite_summaries(m: Map<u128, NodeSummaryV>) -> bool {
    m.dom().finite() && forall|id: u128| #[trigger] m.contains_key(id) ==> m[id].delta.dom().finite()
}

/// Whether two deltas change every key they share alike.
pub open spec fn compatible(l: Map<Seq<char>, ConfigChangeV>, r: Map<Seq<char>, ConfigChangeV>) -> bool {
    forall|k: Seq<char>| #[trigger] l.contains_key(k) && r.contains_key(k) ==> change_eq(l[k], r[k])
}

/// Whether every key that two deltas change alike they change identically
/// (it fails only where the changes hold zeros of opposite signs).
pub open spec fn alike_is_identical(l: Map<Seq<char>, ConfigChangeV>, r: Map<Seq<char>, ConfigChangeV>) -> bool {
    forall|k: Seq<char>| #[trigger] l.contains_key(k) && r.contains_key(k) && change_eq(l[k], r[k]) ==> l[k] == r[k]
}

/// Whether, for every node both sides change, the changes they make alike
/// are identical.
pub open spec fn sides_alike_identical(left: Map<u128, NodeSummaryV>, right: Map<u128, NodeSummaryV>) -> bool {
    forall|id: u128| #[trigger] left.contains_key(id) && right.contains_key(id) ==> alike_is_identical(left[id].delta, right[id].delta)
}

proof fn lemma_change_eq_symm(a: ConfigChangeV, b: ConfigChangeV)
    ensures
        change_eq(a, b) == change_eq(b, a),
{
    if a.old is Some && b.old is Some {
        lemma_value_eq_symm(a.old.unwrap(), b.old.unwrap());
    }
    if a.new is Some && b.new is Some {
        lemma_value_eq_symm(a.new.unwrap(), b.new.unwrap());
    }
}

proof fn lemma_summarize_ops_finite(m: Map<u128, NodeSummaryV>, ops: Seq<OperationV>)
    requires
        finite_summaries(m),
        forall|j: int| 0 <= j < ops.len() && (#[trigger] ops[j]) is ModifyConfig ==> ops[j]->ModifyConfig_delta.dom().finite(),
    ensures
        finite_summaries(summarize_ops(m, ops)),
    decreases ops.len(),
{
    if ops.len() > 0 {
        let init = ops.drop_last();
        assert forall|j: int| 0 <= j < init.len() && (#[trigger] init[j]) is ModifyConfig implies init[j]->ModifyConfig_delta.dom().finite() by {
            assert(init[j] == ops[j]);
        }
        lemma_summarize_ops_finite(m, init);
        let p = summarize_ops(m, init);
        let op = ops.last();
        assert(op == ops[ops.len() - 1]);
        match op {
            OperationV::ModifyConfig { node_id, delta } => {
                let d = summary_or_blank(p, node_id).delta;
                assert(d.dom().finite());
                assert(d.union_prefer_right(delta).dom() =~= d.dom().union(delta.dom()));
            },
            _ => {},
        }
    }
}

proof fn lemma_summarize_patches_finite(ps: Seq<PatchV>)
    requires
        finite_deltas(ps),
    ensures
        finite_summaries(summarize_patches(ps)),
    decreases ps.len(),
{
    if ps.len() == 0 {
        assert(Map::<u128, NodeSummaryV>::empty().dom() =~= Set::<u128>::empty());
    } else {
        let init = ps.drop_last();
        assert forall|i: int, j: int|
            0 <= i < init.len() && 0 <= j < init[i].operations.len() && (#[trigger] init[i].operations[j]) is ModifyConfig
            implies init[i].operations[j]->ModifyConfig_delta.dom().finite() by {
            assert(init[i] == ps[i]);
        }
        lemma_summarize_patches_finite(init);
        let last = ps.last();
        assert(last == ps[ps.len() - 1]);
        assert forall|j: int| 0 <= j < last.operations.len() && (#[trigger] last.operations[j]) is ModifyConfig
            implies last.operations[j]->ModifyConfig_delta.dom().finite() by {
            assert(ps[ps.len() - 1].operations[j] == last.operations[j]);
        }
        lemma_summarize_ops_finite(summarize_patches(init), last.operations);
    }
}

proof fn lemma_first_conflict_none(l: Map<Seq<char>, ConfigChangeV>, rs: Seq<(Seq<char>, ConfigChangeV)>)
    ensures
        (first_conflict(l, rs) is None) == (forall|i: int|
            0 <= i < rs.len() && #[trigger] l.contains_key(rs[i].0) ==> change_eq(l[rs[i].0], rs[i].1)),
    decreases rs.len(),
{
    if rs.len() > 0 {
        lemma_first_conflict_none(l, rs.drop_first());
        if first_conflict(l, rs) is None {
            assert forall|i: int| 0 <= i < rs.len() && #[trigger] l.contains_key(rs[i].0) implies change_eq(l[rs[i].0], rs[i].1) by {
                if i > 0 {
                    assert(rs.drop_first()[i - 1] == rs[i]);
                }
            }
        } else if !(l.contains_key(rs[0].0) && !change_eq(l[rs[0].0], rs[0].1)) {
            let t = rs.drop_first();
            let i = choose|i: int| 0 <= i < t.len() && #[trigger] l.contains_key(t[i].0) && !change_eq(l[t[i].0], t[i].1);
            assert(t[i] == rs[i + 1]);
        }
    }
}

proof fn lemma_no_conflict_is_compatible(l: Map<Seq<char>, ConfigChangeV>, r: Map<Seq<char>, ConfigChangeV>)
    requires
        r.dom().finite(),
    ensures
        (first_conflict(l, entries_of(r)) is None) == compatible(l, r),
{
    let rs = entries_of(r);
    lemma_entries_of_finite(r);
    lemma_pairs_map(rs);
    lemma_first_conflict_none(l, rs);
    if first_conflict(l, rs) is None {
        assert forall|k: Seq<char>| #[trigger] l.contains_key(k) && r.contains_key(k) implies change_eq(l[k], r[k]) by {
            let i = choose|i: int| 0 <= i < rs.len() && rs[i].0 == k;
            assert(pairs_map(rs).contains_key(rs[i].0));
        }
    } else {
        let i = choose|i: int| 0 <= i < rs.len() && #[trigger] l.contains_key(rs[i].0) && !change_eq(l[rs[i].0], rs[i].1);
        assert(pairs_map(rs).contains_key(rs[i].0));
        assert(r.contains_key(rs[i].0) && r[rs[i].0] == rs[i].1);
    }
}

proof fn lemma_node_merge_symmetric(left: Map<u128, NodeSummaryV>, right: Map<u128, NodeSummaryV>, id: u128)
    requires
        finite_summaries(left),
        finite_summaries(right),
        left.contains_key(id) || right.contains_key(id),
    ensures
        (node_merge(left, right, id) is Ok) == (node_merge(right, left, id) is Ok),
        node_merge(left, right, id) is Ok && sides_alike_identical(left, right) ==> node_merge(left, right, id) == node_merge(right, left, id),
{
    if left.contains_key(id) && right.contains_key(id) {
        let l = left[id];
        let r = right[id];
        if !l.removed && !r.removed {
            lemma_no_conflict_is_compatible(l.delta, r.delta);
            lemma_no_conflict_is_compatible(r.delta, l.delta);
            assert forall|k: Seq<char>| #[trigger] l.delta.contains_key(k) && r.delta.contains_key(k) implies change_eq(l.delta[k], r.delta[k]) == change_eq(r.delta[k], l.delta[k]) by {
                lemma_change_eq_symm(l.delta[k], r.delta[k]);
            }
            assert(compatible(l.delta, r.delta) == compatible(r.delta, l.delta));
            if compatible(l.delta, r.delta) && sides_alike_identical(left, right) {
                assert(l.delta.union_prefer_right(r.delta) =~= r.delta.union_prefer_right(l.delta));
            }
        }
    }
}

proof fn lemma_merge_nodes_symmetric(left: Map<u128, NodeSummaryV>, right: Map<u128, NodeSummaryV>, ids: Seq<u128>)
    requires
        finite_summaries(left),
        finite_summaries(right),
        forall|i: int| 0 <= i < ids.len() ==> left.contains_key(#[trigger] ids[i]) || right.contains_key(ids[i]),
    ensures
        (merge_nodes(left, right, ids) is Ok) == (merge_nodes(right, left, ids) is Ok),
        merge_nodes(left, right, ids) is Ok && sides_alike_identical(left, right) ==> merge_nodes(left, right, ids) == merge_nodes(right, left, ids),
    decreases ids.len(),
{
    if ids.len() > 0 {
        let init = ids.drop_last();
        assert forall|i: int| 0 <= i < init.len() implies left.contains_key(#[trigger] init[i]) || right.contains_key(init[i]) by {
            assert(init[i] == ids[i]);
        }
        lemma_merge_nodes_symmetric(left, right, init);
        assert(ids.last() == ids[ids.len() - 1]);
        lemma_node_merge_symmetric(left, right, ids.last());
    }
}

/// Merging is symmetric: with the sides swapped, a merge succeeds exactly
/// when it did, and yields the same operations, unless the sides change a
/// key alike but not identically (to zeros of opposite signs), where each
/// order keeps its own left side's change.
pub proof fn lemma_merge_symmetric(left: Seq<PatchV>, right: Seq<PatchV>)
    requires
        finite_deltas(left),
        finite_deltas(right),
    ensures
        (merge_spec(left, right) is Ok) == (merge_spec(right, left) is Ok),
        merge_spec(left, right) is Ok && sides_alike_identical(summarize_patches(left), summarize_patches(right))
            ==> merge_spec(left, right) == merge_spec(right, left),
{
    let l = summarize_patches(left);
    let r = summarize_patches(right);
    lemma_summarize_patches_finite(left);
    lemma_summarize_patches_finite(right);
    let lr = l.union_prefer_right(r);
    let rl = r.union_prefer_right(l);
    assert(lr.dom() =~= l.dom().union(r.dom()));
    assert(rl.dom() =~= lr.dom());
    assert(touched_nodes(l, r) == touched_nodes(r, l));
    let ids = touched_nodes(l, r);
    lemma_increasing_exists(lr.dom());
    assert(increasing(ids) && ids.to_set() == lr.dom());
    assert forall|i: int| 0 <= i < ids.len() implies l.contains_key(#[trigger] ids[i]) || r.contains_key(ids[i]) by {
        assert(ids.to_set().contains(ids[i]));
    }
    lemma_merge_nodes_symmetric(l, r, ids);
}

// ── What a side does to a key ──────────────────

/// Whether operation `op` changes key `k` of node `id`.
pub open spec fn changes_key(op: OperationV, id: u128, k: Seq<char>) -> bool {
    op is ModifyConfig && op->ModifyConfig_node_id == id && op->ModifyConfig_delta.contains_key(k)
}

/// A node's change of a key stays in the summary while no later operation
/// changes that key of that node.
pub proof fn lemma_summary_keeps_change(m: Map<u128, NodeSummaryV>, ops: Seq<OperationV>, id: u128, k: Seq<char>)
    requires
        m.contains_key(id),
        m[id].delta.contains_key(k),
        forall|j: int| 0 <= j < ops.len() ==> !changes_key(#[trigger] ops[j], id, k),
    ensures
        summarize_ops(m, ops).contains_key(id),
        summarize_ops(m, ops)[id].delta.contains_key(k),
        summarize_ops(m, ops)[id].delta[k] == m[id].delta[k],
    decreases ops.len(),
{
    if ops.len() > 0 {
        let init = ops.drop_last();
        assert forall|j: int| 0 <= j < init.len() implies !changes_key(#[trigger] init[j], id, k) by {
            assert(init[j] == ops[j]);
        }
        lemma_summary_keeps_change(m, init, id, k);
        assert(!changes_key(ops[ops.len() - 1], id, k));
    }
}

/// Later changes win: in the summary of a list of operations, a key of a
/// node holds the change that the last operation changing it made.
pub proof fn lemma_summary_latest_change(m: Map<u128, NodeSummaryV>, ops: Seq<OperationV>, id: u128, k: Seq<char>, i: int)
    requires
        0 <= i < ops.len(),
        changes_key(ops[i], id, k),
        forall|j: int| i < j < ops.len() ==> !changes_key(#[trigger] ops[j], id, k),
    ensures
        summarize_ops(m, ops).contains_key(id),
        summarize_ops(m, ops)[id].delta.contains_key(k),
        summarize_ops(m, ops)[id].delta[k] == ops[i]->ModifyConfig_delta[k],
    decreases ops.len(),
{
    let init = ops.drop_last();
    if i < ops.len() - 1 {
        assert(init[i] == ops[i]);
        assert forall|j: int| i < j < init.len() implies !changes_key(#[trigger] init[j], id, k) by {
            assert(init[j] == ops[j]);
        }
        lemma_summary_latest_change(m, init, id, k, i);
        assert(!changes_key(ops[ops.len() - 1], id, k));
    } else {
        assert(ops.last() == ops[i]);
    }
}

/// Later changes win across patches: in the summary of a side, a key of a
/// node holds the change of the last operation, in patch order and then
/// operation order, that changes it.
pub proof fn lemma_side_latest_change(ps: Seq<PatchV>, id: u128, k: Seq<char>, p: int, i: int)
    requires
        0 <= p < ps.len(),
        0 <= i < ps[p].operations.len(),
        changes_key(ps[p].operations[i], id, k),
        forall|j: int| i < j < ps[p].operations.len() ==> !changes_key(#[trigger] ps[p].operations[j], id, k),
        forall|q: int, j: int| p < q < ps.len() && 0 <= j < ps[q].operations.len() ==> !changes_key(#[trigger] ps[q].operations[j], id, k),
    ensures
        summarize_patches(ps).contains_key(id),
        summarize_patches(ps)[id].delta.contains_key(k),
        summarize_patches(ps)[id].delta[k] == ps[p].operations[i]->ModifyConfig_delta[k],
    decreases ps.len(),
{
    let init = ps.drop_last();
    let last = ps.last();
    assert(last == ps[ps.len() - 1]);
    if p < ps.len() - 1 {
        assert(init[p] == ps[p]);
        assert forall|q: int, j: int| p < q < init.len() && 0 <= j < init[q].operations.len() implies !changes_key(#[trigger] init[q].operations[j], id, k) by {
            assert(init[q] == ps[q]);
        }
        lemma_side_latest_change(init, id, k, p, i);
        assert forall|j: int| 0 <= j < last.operations.len() implies !changes_key(#[trigger] last.operations[j], id, k) by {
            assert(ps[ps.len() - 1].operations[j] == last.operations[j]);
        }
        lemma_summary_keeps_change(summarize_patches(init), last.operations, id, k);
    } else {
        lemma_summary_latest_change(summarize_patches(init), last.operations, id, k, i);
    }
}

} // verus!
