//! Short human summaries: what a patch does, and which nodes could go.
use vstd::prelude::*;
use std::collections::BTreeMap;
use crate::actions::{name_of, node_name};
use crate::ids::StableId;
use crate::ir::{seq_model, Graph, GraphV};
use crate::keyed::entries_of;
use crate::patch::{Operation, OperationV};
use crate::text::{dec_digits, dec_u64, key_equal, owned, push_str};
use crate::validate::touched;
use crate::types::{ConfidenceScore, NodeKind, NodeKindV};
use crate::validate::{ConfidenceDebtV, ValidationReport, ValidationReportV};
use crate::walk::{gather, lemma_gather_grown, lemma_ordered_ids, ordered_ids, sorted_keys_of};

verus! {

broadcast use {vstd::std_specs::btree::group_btree_axioms, vstd::laws_cmp::group_laws_cmp};

/// Texts joined by a separator.
pub open spec fn join(parts: Seq<Seq<char>>, sep: Seq<char>) -> Seq<char>
    decreases parts.len(),
{
    if parts.len() == 0 {
        Seq::empty()
    } else if parts.len() == 1 {
        parts[0]
    } else {
        join(parts.drop_last(), sep) + sep + parts.last()
    }
}

/// What a list of operations counts: the names of the added nodes, the
/// connections, the configuration changes, the removals.
pub struct OpCounts {
    pub names: Seq<Seq<char>>,
    pub edges: nat,
    pub configs: nat,
    pub removes: nat,
}

pub open spec fn op_counts(ops: Seq<OperationV>) -> OpCounts
    decreases ops.len(),
{
    if ops.len() == 0 {
        OpCounts { names: Seq::empty(), edges: 0, configs: 0, removes: 0 }
    } else {
        let c = op_counts(ops.drop_last());
        match ops.last() {
            OperationV::AddNode(n) => OpCounts { names: c.names.push(name_of(n)), ..c },
            OperationV::AddEdge(_) => OpCounts { edges: c.edges + 1, ..c },
            OperationV::ModifyConfig { .. } => OpCounts { configs: c.configs + 1, ..c },
            OperationV::RemoveNode(_) => OpCounts { removes: c.removes + 1, ..c },
            OperationV::RemoveEdge(_) => OpCounts { removes: c.removes + 1, ..c },
            _ => c,
        }
    }
}

/// The parts of a summary, in order.
pub open spec fn summary_parts(c: OpCounts) -> Seq<Seq<char>> {
    (if c.names.len() == 0 {
        Seq::empty()
    } else if c.names.len() <= 3 {
        seq!["AddNode "@ + join(c.names, ", "@)]
    } else {
        seq!["AddNode "@ + dec_digits(c.names.len()) + " nodes"@]
    }) + (if c.edges > 0 { seq![dec_digits(c.edges) + " connection(s)"@] } else { Seq::empty() }) + (if c.configs > 0 {
        seq![dec_digits(c.configs) + " config change(s)"@]
    } else {
        Seq::empty()
    }) + (if c.removes > 0 { seq![dec_digits(c.removes) + " removal(s)"@] } else { Seq::empty() })
}

/// A one-line summary of operations, or "(empty)".
pub open spec fn summary_text(ops: Seq<OperationV>) -> Seq<char> {
    let parts = summary_parts(op_counts(ops));
    if parts.len() == 0 {
        "(empty)"@
    } else {
        join(parts, ", "@)
    }
}

/// The texts of a list of strings.
pub open spec fn texts(v: Seq<String>) -> Seq<Seq<char>> {
    v.map_values(|p: String| p@)
}

fn join_strings(parts: &Vec<String>, sep: &str) -> (s: String)
    ensures
        s@ == join(texts(parts@), sep@),
{
    let ghost ps = texts(parts@);
    let mut s = String::new();
    let mut i: usize = 0;
    proof {
        assert(ps.take(0) =~= Seq::<Seq<char>>::empty());
    }
    while i < parts.len()
        invariant
            ps == texts(parts@),
            i <= parts@.len(),
            s@ == join(ps.take(i as int), sep@),
        decreases parts@.len() - i,
    {
        if i > 0 {
            push_str(&mut s, sep);
        }
        push_str(&mut s, parts[i].as_str());
        proof {
            assert(ps.take(i + 1).drop_last() =~= ps.take(i as int));
            assert(ps.take(i + 1).last() == parts@[i as int]@);
            if i == 0 {
                assert(ps.take(1)[0] == parts@[0]@);
            }
            assert(s@ =~= join(ps.take(i + 1), sep@));
        }
        i += 1;
    }
    proof {
        assert(ps.take(ps.len() as int) =~= ps);
    }
    s
}

fn count_text(n: usize, suffix: &str) -> (s: String)
    ensures
        s@ == dec_digits(n as nat) + suffix@,
{
    let mut s = dec_u64(n as u64);
    push_str(&mut s, suffix);
    s
}

/// Summarizes what a list of operations does.
pub fn summarize_ops(ops: &[Operation]) -> (s: String)
    ensures
        s@ == summary_text(seq_model(ops@)),
{
    let ghost m = seq_model(ops@);
    let mut names: Vec<String> = Vec::new();
    let mut edges: usize = 0;
    let mut configs: usize = 0;
    let mut removes: usize = 0;
    let mut i: usize = 0;
    proof {
        assert(m.take(0) =~= Seq::<OperationV>::empty());
        assert(texts(names@) =~= Seq::<Seq<char>>::empty());
    }
    while i < ops.len()
        invariant
            m == seq_model(ops@),
            i <= m.len(),
            texts(names@) == op_counts(m.take(i as int)).names,
            edges == op_counts(m.take(i as int)).edges,
            configs == op_counts(m.take(i as int)).configs,
            removes == op_counts(m.take(i as int)).removes,
            edges + configs + removes + names@.len() <= i,
        decreases m.len() - i,
    {
        proof {
            assert(m.take(i + 1).drop_last() =~= m.take(i as int));
            assert(m.take(i + 1).last() == ops@[i as int]@);
        }
        match &ops[i] {
            Operation::AddNode(n) => {
                let ghost before = names@;
                names.push(node_name(n));
                proof {
                    assert(texts(names@) =~= texts(before).push(name_of(n@)));
                }
            },
            Operation::AddEdge(_) => {
                edges = edges + 1;
            },
            Operation::ModifyConfig { .. } => {
                configs = configs + 1;
            },
            Operation::RemoveNode(_) => {
                removes = removes + 1;
            },
            Operation::RemoveEdge(_) => {
                removes = removes + 1;
            },
            _ => {},
        }
        i += 1;
    }
    proof {
        assert(m.take(m.len() as int) =~= m);
    }
    let mut parts: Vec<String> = Vec::new();
    let ghost c = op_counts(m);
    let ghost p1: Seq<Seq<char>> = if c.names.len() == 0 {
        Seq::empty()
    } else if c.names.len() <= 3 {
        seq!["AddNode "@ + join(c.names, ", "@)]
    } else {
        seq!["AddNode "@ + dec_digits(c.names.len()) + " nodes"@]
    };
    let ghost p2: Seq<Seq<char>> = if c.edges > 0 { seq![dec_digits(c.edges) + " connection(s)"@] } else { Seq::empty() };
    let ghost p3: Seq<Seq<char>> = if c.configs > 0 { seq![dec_digits(c.configs) + " config change(s)"@] } else { Seq::empty() };
    let ghost p4: Seq<Seq<char>> = if c.removes > 0 { seq![dec_digits(c.removes) + " removal(s)"@] } else { Seq::empty() };
    proof {
        assert(texts(parts@) =~= Seq::<Seq<char>>::empty());
        assert(texts(names@).len() == names@.len());
        assert(names@.len() == c.names.len());
    }
    if names.len() > 0 {
        if names.len() <= 3 {
            let mut p = owned("AddNode ");
            let j = join_strings(&names, ", ");
            push_str(&mut p, j.as_str());
            let ghost pv = p@;
            parts.push(p);
            assert(texts(parts@) =~= seq![pv]);
        } else {
            let mut p = owned("AddNode ");
            let d = count_text(names.len(), " nodes");
            push_str(&mut p, d.as_str());
            let ghost pv = p@;
            assert(pv =~= "AddNode "@ + dec_digits(c.names.len()) + " nodes"@);
            parts.push(p);
            assert(texts(parts@) =~= seq![pv]);
        }
    }
    proof {
        assert(texts(parts@) =~= p1);
    }
    let ghost q = parts@;
    if edges > 0 {
        parts.push(count_text(edges, " connection(s)"));
    }
    proof {
        assert(texts(parts@) =~= p1 + p2);
    }
    if configs > 0 {
        parts.push(count_text(configs, " config change(s)"));
    }
    proof {
        assert(texts(parts@) =~= p1 + p2 + p3);
    }
    if removes > 0 {
        parts.push(count_text(removes, " removal(s)"));
    }
    proof {
        assert(texts(parts@) =~= p1 + p2 + p3 + p4);
        assert(summary_parts(c) == p1 + p2 + p3 + p4);
    }
    if parts.len() == 0 {
        owned("(empty)")
    } else {
        join_strings(&parts, ", ")
    }
}

// ── Disposable nodes ──────────────────

/// Whether a configuration holds a setting besides `name`.
pub open spec fn has_settings(cfg: Map<Seq<char>, crate::types::ConfigValueV>) -> bool {
    exists|k: Seq<char>| #[trigger] cfg.contains_key(k) && k != "name"@
}

/// A node that nothing connects (in a graph of several nodes), with why it
/// could be discarded.
pub open spec fn disposable_at(g: GraphV) -> spec_fn(u128) -> Seq<(u128, Seq<char>)> {
    |id: u128|
        if g.nodes.dom().len() > 1 && !touched(g, id) {
            if has_settings(g.nodes[id].config) {
                seq![(id, "isolated node \u{2014} not connected to signal path"@)]
            } else {
                seq![(id, "isolated node with no configuration"@)]
            }
        } else {
            Seq::empty()
        }
}

pub open spec fn disposables(g: GraphV) -> Seq<(u128, Seq<char>)> {
    gather(ordered_ids(g.nodes), disposable_at(g))
}

pub open spec fn disposable_views(v: Seq<(StableId, String)>) -> Seq<(u128, Seq<char>)> {
    v.map_values(|p: (StableId, String)| (p.0.0, p.1@))
}

/// The nodes that could be discarded: isolated ones, in identifier order.
pub fn find_disposables(graph: &Graph) -> (r: Vec<(StableId, String)>)
    ensures
        disposable_views(r@) == disposables(graph@),
{
    let ghost g = graph@;
    let edge_ids = sorted_keys_of(&graph.edges);
    proof {
        assert(g.edges.dom() =~= graph.edges@.dom());
        assert(g.nodes.dom() =~= graph.nodes@.dom());
    }
    let mut connected: BTreeMap<u128, bool> = BTreeMap::new();
    let mut i: usize = 0;
    while i < edge_ids.len()
        invariant
            g == graph@,
            i <= edge_ids@.len(),
            forall|k: u128| graph.edges@.contains_key(k) <==> edge_ids@.contains(k),
            forall|v: u128| #[trigger] connected@.contains_key(v) <==> exists|j: int| 0 <= j < i
                && (g.edges[edge_ids@[j]].source.node_id == v || g.edges[edge_ids@[j]].target.node_id == v),
        decreases edge_ids@.len() - i,
    {
        let id = edge_ids[i];
        assert(edge_ids@.contains(id)) by {
            assert(edge_ids@[i as int] == id);
        }
        if let Some(e) = graph.edges.get(&id) {
            assert(g.edges[id] == e@);
            connected.insert(e.source.node_id.0, true);
            connected.insert(e.target.node_id.0, true);
        }
        proof {
            assert forall|v: u128| #[trigger] connected@.contains_key(v) <==> exists|j: int| 0 <= j < i + 1
                && (g.edges[edge_ids@[j]].source.node_id == v || g.edges[edge_ids@[j]].target.node_id == v) by {
                if g.edges[edge_ids@[i as int]].source.node_id == v || g.edges[edge_ids@[i as int]].target.node_id == v {
                    assert(edge_ids@[i as int] == id);
                }
            }
        }
        i += 1;
    }
    proof {
        assert forall|v: u128| #[trigger] connected@.contains_key(v) <==> touched(g, v) by {
            if connected@.contains_key(v) {
                let j = choose|j: int| 0 <= j < edge_ids@.len()
                    && (g.edges[edge_ids@[j]].source.node_id == v || g.edges[edge_ids@[j]].target.node_id == v);
                assert(edge_ids@.contains(edge_ids@[j]));
                assert(g.edges.contains_key(edge_ids@[j]));
            }
            if touched(g, v) {
                let e = choose|e: u128| #[trigger] g.edges.contains_key(e) && (g.edges[e].source.node_id == v || g.edges[e].target.node_id == v);
                assert(edge_ids@.contains(e));
                let j = choose|j: int| 0 <= j < edge_ids@.len() && edge_ids@[j] == e;
                assert(edge_ids@[j] == e);
            }
        }
    }
    let node_ids = sorted_keys_of(&graph.nodes);
    let n = node_ids.len();
    proof {
        lemma_ordered_ids(g.nodes, node_ids@);
    }
    let ghost f = disposable_at(g);
    let mut out: Vec<(StableId, String)> = Vec::new();
    proof {
        assert(disposable_views(out@) =~= Seq::<(u128, Seq<char>)>::empty() + gather(node_ids@.take(0), f));
    }
    let mut k: usize = 0;
    while k < node_ids.len()
        invariant
            g == graph@,
            k <= node_ids@.len(),
            n == node_ids@.len(),
            n == g.nodes.dom().len(),
            node_ids@ == ordered_ids(g.nodes),
            forall|x: u128| graph.nodes@.contains_key(x) <==> node_ids@.contains(x),
            f == disposable_at(g),
            forall|v: u128| #[trigger] connected@.contains_key(v) <==> touched(g, v),
            disposable_views(out@) == Seq::<(u128, Seq<char>)>::empty() + gather(node_ids@.take(k as int), f),
        decreases node_ids@.len() - k,
    {
        let id = node_ids[k];
        let ghost before = disposable_views(out@);
        let ghost prev = out@;
        assert(node_ids@.contains(id)) by {
            assert(node_ids@[k as int] == id);
        }
        if n > 1 && !connected.contains_key(&id) {
            if let Some(node) = graph.nodes.get(&id) {
                assert(g.nodes[id] == node@);
                let settings = has_other_settings(node);
                if !settings {
                    out.push((StableId(id), owned("isolated node with no configuration")));
                } else {
                    out.push((StableId(id), owned("isolated node \u{2014} not connected to signal path")));
                }
                assert(disposable_views(out@) =~= disposable_views(prev).push(f(id)[0]));
            }
        }
        assert(disposable_views(out@) =~= before + f(id));
        proof {
            lemma_gather_grown(Seq::<(u128, Seq<char>)>::empty(), before, disposable_views(out@), node_ids@, k as int, f);
        }
        k += 1;
    }
    proof {
        assert(node_ids@.take(node_ids@.len() as int) =~= node_ids@);
        assert(disposable_views(out@) =~= disposables(g));
    }
    out
}

fn has_other_settings(node: &crate::ir::Node) -> (b: bool)
    ensures
        b == has_settings(node@.config),
{
    let n = node.config.len();
    let ghost es = node.config.pairs();
    proof {
        crate::keyed::lemma_pairs_map(es);
    }
    let mut j: usize = 0;
    while j < n
        invariant
            n == es.len(),
            es == node.config.pairs(),
            j <= n,
            forall|q: int| 0 <= q < j ==> #[trigger] es[q].0 == "name"@,
        decreases n - j,
    {
        let (key, _) = node.config.entry(j);
        if !key_equal(key.as_str(), "name") {
            return true;
        }
        j += 1;
    }
    proof {
        assert forall|k: Seq<char>| #[trigger] node@.config.contains_key(k) implies k == "name"@ by {
            let q = choose|q: int| 0 <= q < es.len() && es[q].0 == k;
            assert(es[q].0 == "name"@);
        }
    }
    false
}

// ── Diagnosis ──────────────────

/// How healthy a project is.
#[derive(Debug, Clone, Copy, PartialEq, Eq, Structural)]
pub enum Health {
    /// Everything is explainable; nothing to discard.
    Healthy,
    /// Validation errors or files whose hash does not match.
    InTrouble,
    /// Alive, but with confidence debt or disposable nodes.
    Concerning,
    /// Only the replay does not match.
    Unsettled,
}

/// Whether the report's replay matched, or no replay was made.
pub open spec fn replay_ok(r: ValidationReportV) -> bool {
    match r.replay {
        Some(p) => p.matches,
        None => true,
    }
}

/// The health of a project from its validation report, its number of
/// disposable nodes and its number of hash mismatches.
pub open spec fn health(r: ValidationReportV, disposables: nat, mismatches: nat) -> Health {
    if r.errors.len() == 0 && r.debt.len() == 0 && disposables == 0 && replay_ok(r) && mismatches == 0 {
        Health::Healthy
    } else if r.errors.len() > 0 || mismatches > 0 {
        Health::InTrouble
    } else if r.debt.len() > 0 || disposables > 0 {
        Health::Concerning
    } else {
        Health::Unsettled
    }
}

/// Judges the health of a project.
pub fn diagnose(report: &ValidationReport, disposables: usize, mismatches: usize) -> (h: Health)
    ensures
        h == health(report@, disposables as nat, mismatches as nat),
{
    let replay_fine = match &report.replay_proof {
        Some(p) => p.matches,
        None => true,
    };
    let errors = report.errors.len() > 0;
    let debt = report.confidence_debt.len() > 0;
    if !errors && !debt && disposables == 0 && replay_fine && mismatches == 0 {
        Health::Healthy
    } else if errors || mismatches > 0 {
        Health::InTrouble
    } else if debt || disposables > 0 {
        Health::Concerning
    } else {
        Health::Unsettled
    }
}

/// How many debts of a list have a given confidence.
pub open spec fn debts_at(d: Seq<ConfidenceDebtV>, c: ConfidenceScore) -> nat
    decreases d.len(),
{
    if d.len() == 0 {
        0
    } else {
        debts_at(d.drop_last(), c) + if d.last().confidence == c { 1nat } else { 0nat }
    }
}

/// How the nodes of a graph spread over the confidence levels: the nodes
/// without debt count as verified.
#[derive(Debug, Clone, Copy, PartialEq, Eq)]
pub struct ConfidenceTally {
    pub verified: usize,
    pub inferred: usize,
    pub suspicious: usize,
    pub unknown: usize,
}

proof fn lemma_debts_at_bound(d: Seq<ConfidenceDebtV>)
    ensures
        debts_at(d, ConfidenceScore::Inferred) + debts_at(d, ConfidenceScore::Suspicious) + debts_at(d, ConfidenceScore::Unknown) <= d.len(),
    decreases d.len(),
{
    if d.len() > 0 {
        lemma_debts_at_bound(d.drop_last());
    }
}

/// Counts the debts of a report by confidence; of `node_count` nodes, those
/// not counted in debt are verified (none when the debts outnumber them).
pub fn tally_confidence(report: &ValidationReport, node_count: usize) -> (t: ConfidenceTally)
    ensures
        t.inferred == debts_at(report@.debt, ConfidenceScore::Inferred),
        t.suspicious == debts_at(report@.debt, ConfidenceScore::Suspicious),
        t.unknown == debts_at(report@.debt, ConfidenceScore::Unknown),
        t.verified == if node_count >= t.inferred + t.suspicious + t.unknown {
            node_count - (t.inferred + t.suspicious + t.unknown)
        } else {
            0
        },
{
    let ghost d = report@.debt;
    let mut inferred: usize = 0;
    let mut suspicious: usize = 0;
    let mut unknown: usize = 0;
    let mut i: usize = 0;
    while i < report.confidence_debt.len()
        invariant
            i <= report.confidence_debt@.len(),
            d == report@.debt,
            d.len() == report.confidence_debt@.len(),
            inferred == debts_at(d.take(i as int), ConfidenceScore::Inferred),
            suspicious == debts_at(d.take(i as int), ConfidenceScore::Suspicious),
            unknown == debts_at(d.take(i as int), ConfidenceScore::Unknown),
            inferred + suspicious + unknown <= i,
        decreases report.confidence_debt@.len() - i,
    {
        proof {
            assert(d.take(i + 1).drop_last() =~= d.take(i as int));
            assert(d[i as int] == report.confidence_debt@[i as int]@);
        }
        match report.confidence_debt[i].confidence {
            ConfidenceScore::Inferred => inferred = inferred + 1,
            ConfidenceScore::Suspicious => suspicious = suspicious + 1,
            ConfidenceScore::Unknown => unknown = unknown + 1,
            ConfidenceScore::Verified => {},
        }
        i += 1;
    }
    proof {
        assert(d.take(d.len() as int) =~= d);
    }
    let counted = inferred + suspicious + unknown;
    let verified = if node_count >= counted { node_count - counted } else { 0 };
    ConfidenceTally { verified, inferred, suspicious, unknown }
}

// ── The node kinds of a graph ──────────────────

/// The name under which a node kind is counted: the variant's name, or the
/// plugin's own name for a foreign node.
pub open spec fn kind_label(k: NodeKindV) -> Seq<char> {
    match k {
        NodeKindV::Source => "Source"@,
        NodeKindV::Processor => "Processor"@,
        NodeKindV::Analyzer => "Analyzer"@,
        NodeKindV::Sink => "Sink"@,
        NodeKindV::Junction => "Junction"@,
        NodeKindV::Foreign(n) => n,
        NodeKindV::Intent => "Intent"@,
        NodeKindV::Metadata => "Metadata"@,
        NodeKindV::Boundary => "Boundary"@,
        NodeKindV::SubGraph => "SubGraph"@,
        NodeKindV::InputProxy => "InputProxy"@,
        NodeKindV::OutputProxy => "OutputProxy"@,
    }
}

/// The label under which a node kind is counted.
pub fn kind_label_of(kind: &NodeKind) -> (s: String)
    ensures
        s@ == kind_label(kind@),
{
    match kind {
        NodeKind::Source => owned("Source"),
        NodeKind::Processor => owned("Processor"),
        NodeKind::Analyzer => owned("Analyzer"),
        NodeKind::Sink => owned("Sink"),
        NodeKind::Junction => owned("Junction"),
        NodeKind::Foreign(n) => n.clone(),
        NodeKind::Intent => owned("Intent"),
        NodeKind::Metadata => owned("Metadata"),
        NodeKind::Boundary => owned("Boundary"),
        NodeKind::SubGraph => owned("SubGraph"),
        NodeKind::InputProxy => owned("InputProxy"),
        NodeKind::OutputProxy => owned("OutputProxy"),
    }
}

/// The kind labels of a graph's nodes, one per node.
pub open spec fn kind_labels(g: GraphV) -> Seq<Seq<char>> {
    ordered_ids(g.nodes).map_values(|id: u128| kind_label(g.nodes[id].kind))
}

/// How many times label `l` occurs in `ls`.
pub open spec fn label_count(ls: Seq<Seq<char>>, l: Seq<char>) -> nat
    decreases ls.len(),
{
    if ls.len() == 0 {
        0
    } else {
        label_count(ls.drop_last(), l) + if ls.last() == l { 1nat } else { 0nat }
    }
}

proof fn lemma_label_count_bound(ls: Seq<Seq<char>>, l: Seq<char>)
    ensures
        label_count(ls, l) <= ls.len(),
    decreases ls.len(),
{
    if ls.len() > 0 {
        lemma_label_count_bound(ls.drop_last(), l);
    }
}

/// The number of nodes of each kind: each label once, with the number of
/// nodes that carry it (in no promised order).
pub fn tally_kinds(graph: &Graph) -> (r: Vec<(String, usize)>)
    ensures
        forall|j: int| 0 <= j < r@.len() ==> r@[j].1 == label_count(kind_labels(graph@), #[trigger] r@[j].0@),
        forall|j: int, m: int| 0 <= j < m < r@.len() ==> r@[j].0@ != r@[m].0@,
        forall|l: Seq<char>| kind_labels(graph@).contains(l) <==> exists|j: int| 0 <= j < r@.len() && #[trigger] r@[j].0@ == l,
{
    let ghost g = graph@;
    let ids = sorted_keys_of(&graph.nodes);
    proof {
        assert(g.nodes.dom() =~= graph.nodes@.dom());
        lemma_ordered_ids(g.nodes, ids@);
    }
    let ghost labels = kind_labels(g);
    let mut r: Vec<(String, usize)> = Vec::new();
    let mut i: usize = 0;
    while i < ids.len()
        invariant
            g == graph@,
            labels == kind_labels(g),
            ids@ == ordered_ids(g.nodes),
            labels.len() == ids@.len(),
            i <= ids@.len(),
            forall|k: u128| graph.nodes@.contains_key(k) <==> ids@.contains(k),
            forall|j: int| 0 <= j < r@.len() ==> r@[j].1 == label_count(labels.take(i as int), #[trigger] r@[j].0@),
            forall|j: int, m: int| 0 <= j < m < r@.len() ==> r@[j].0@ != r@[m].0@,
            forall|l: Seq<char>| labels.take(i as int).contains(l) <==> exists|j: int| 0 <= j < r@.len() && #[trigger] r@[j].0@ == l,
        decreases ids@.len() - i,
    {
        let id = ids[i];
        assert(ids@.contains(id)) by {
            assert(ids@[i as int] == id);
        }
        let label = match graph.nodes.get(&id) {
            Some(node) => {
                assert(g.nodes[id] == node@);
                kind_label_of(&node.kind)
            },
            None => owned(""),
        };
        let ghost prev = labels.take(i as int);
        let ghost next = labels.take(i + 1);
        proof {
            assert(labels[i as int] == label@);
            assert(next =~= prev.push(label@));
            assert(next.drop_last() =~= prev);
            lemma_label_count_bound(prev, label@);
        }
        let mut j: usize = 0;
        let mut found = false;
        while j < r.len()
            invariant_except_break
                !found,
                forall|m: int| 0 <= m < j ==> r@[m].0@ != label@,
            invariant
                j <= r@.len(),
                found ==> j < r@.len() && r@[j as int].0@ == label@,
            ensures
                found ==> j < r@.len() && r@[j as int].0@ == label@,
                !found ==> forall|m: int| 0 <= m < r@.len() ==> r@[m].0@ != label@,
            decreases r@.len() - j,
        {
            if key_equal(r[j].0.as_str(), label.as_str()) {
                found = true;
                break;
            }
            j += 1;
        }
        let ghost old_r = r@;
        if found {
            let c = r[j].1;
            proof {
                assert(c == label_count(prev, label@));
            }
            let name = r[j].0.clone();
            r.set(j, (name, c + 1));
            proof {
                assert forall|m: int| 0 <= m < r@.len() implies r@[m].1 == label_count(next, #[trigger] r@[m].0@) by {
                    if m != j {
                        assert(r@[m] == old_r[m]);
                    }
                }
                assert forall|l: Seq<char>| next.contains(l) implies exists|m: int| 0 <= m < r@.len() && #[trigger] r@[m].0@ == l by {
                    if l == label@ {
                        assert(r@[j as int].0@ == l);
                    } else {
                        let k = choose|k: int| 0 <= k < next.len() && next[k] == l;
                        assert(prev[k] == l);
                        assert(prev.contains(l));
                        let m = choose|m: int| 0 <= m < old_r.len() && #[trigger] old_r[m].0@ == l;
                        assert(r@[m].0@ == l);
                    }
                }
                assert forall|l: Seq<char>| (exists|m: int| 0 <= m < r@.len() && #[trigger] r@[m].0@ == l) implies next.contains(l) by {
                    let m = choose|m: int| 0 <= m < r@.len() && #[trigger] r@[m].0@ == l;
                    if m != j {
                        assert(old_r[m].0@ == l);
                        assert(prev.contains(l));
                        let k = choose|k: int| 0 <= k < prev.len() && prev[k] == l;
                        assert(next[k] == l);
                    } else {
                        assert(next[i as int] == l);
                    }
                }
            }
        } else {
            proof {
                assert(!prev.contains(label@));
                assert(label_count(prev, label@) == 0) by {
                    lemma_label_absent(prev, label@);
                }
            }
            r.push((label, 1));
            proof {
                assert forall|m: int| 0 <= m < r@.len() implies r@[m].1 == label_count(next, #[trigger] r@[m].0@) by {
                    if m < old_r.len() {
                        assert(r@[m] == old_r[m]);
                    }
                }
                assert forall|l: Seq<char>| next.contains(l) implies exists|m: int| 0 <= m < r@.len() && #[trigger] r@[m].0@ == l by {
                    if l == r@[old_r.len() as int].0@ {
                    } else {
                        let k = choose|k: int| 0 <= k < next.len() && next[k] == l;
                        assert(prev[k] == l);
                        assert(prev.contains(l));
                        let m = choose|m: int| 0 <= m < old_r.len() && #[trigger] old_r[m].0@ == l;
                        assert(r@[m].0@ == l);
                    }
                }
                assert forall|l: Seq<char>| (exists|m: int| 0 <= m < r@.len() && #[trigger] r@[m].0@ == l) implies next.contains(l) by {
                    let m = choose|m: int| 0 <= m < r@.len() && #[trigger] r@[m].0@ == l;
                    if m < old_r.len() {
                        assert(old_r[m].0@ == l);
                        assert(prev.contains(l));
                        let k = choose|k: int| 0 <= k < prev.len() && prev[k] == l;
                        assert(next[k] == l);
                    } else {
                        assert(next[i as int] == l);
                    }
                }
            }
        }
        i += 1;
    }
    proof {
        assert(labels.take(ids@.len() as int) =~= labels);
    }
    r
}

proof fn lemma_label_absent(ls: Seq<Seq<char>>, l: Seq<char>)
    requires
        !ls.contains(l),
    ensures
        label_count(ls, l) == 0,
    decreases ls.len(),
{
    if ls.len() > 0 {
        assert(ls.last() != l) by {
            assert(ls[ls.len() - 1] == ls.last());
        }
        assert forall|k: int| 0 <= k < ls.drop_last().len() implies ls.drop_last()[k] != l by {
            assert(ls[k] == ls.drop_last()[k]);
        }
        lemma_label_absent(ls.drop_last(), l);
    }
}

} // verus!
