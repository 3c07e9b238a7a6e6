//! Commit validation: not pass/fail but errors (which block), warnings
//! (which do not) and confidence debt (which is tracked).
use vstd::prelude::*;
use std::collections::BTreeMap;
use crate::hash::{graph_digest, hash_graph};
use crate::ids::{ulid_text, StableId};
use crate::ir::{lemma_seq_model_push, seq_model, Edge, EdgeV, Graph, GraphV, Node};
use crate::patch::{digest_eq, empty_graph, replay_from, Patch, PatchV};
use crate::hex::encode as hex_encode;
use crate::text::{dec_digits, dec_u64, hex_seq, owned, push_str};
use crate::topo::{collect_edge_pairs, edge_pairs, kahn, lemma_settled, settled};
use crate::types::{ConfidenceScore, ExecutionDomain, NodeKind, NodeKindV, PortDirection, TypedPort, TypedPortV};
use crate::walk::{gather, lemma_gather_grown, lemma_ordered_ids, lemma_ordered_ids_keys, ordered_ids, sorted_keys_of};

verus! {

broadcast use {vstd::std_specs::btree::group_btree_axioms, vstd::laws_cmp::group_laws_cmp};

/// A problem that blocks a commit.
#[derive(Debug, Clone)]
pub struct ValidationError {
    pub code: &'static str,
    pub message: String,
    pub node: Option<StableId>,
}

/// A problem that does not block a commit.
#[derive(Debug, Clone)]
pub struct ValidationWarning {
    pub code: &'static str,
    pub message: String,
    pub node: Option<StableId>,
}

/// What errors and warnings say.
pub struct FindingV {
    pub code: Seq<char>,
    pub message: Seq<char>,
    pub node: Option<u128>,
}

pub open spec fn id_option(o: Option<StableId>) -> Option<u128> {
    match o {
        Some(s) => Some(s.0),
        None => None,
    }
}

impl View for ValidationError {
    type V = FindingV;

    open spec fn view(&self) -> FindingV {
        FindingV { code: self.code@, message: self.message@, node: id_option(self.node) }
    }
}

impl View for ValidationWarning {
    type V = FindingV;

    open spec fn view(&self) -> FindingV {
        FindingV { code: self.code@, message: self.message@, node: id_option(self.node) }
    }
}

/// Something that cannot be fully verified but does not block.
#[derive(Debug, Clone)]
pub struct ConfidenceDebt {
    pub source: StableId,
    pub reason: String,
    pub confidence: ConfidenceScore,
    pub weight: u32,
}

pub struct ConfidenceDebtV {
    pub source: u128,
    pub reason: Seq<char>,
    pub confidence: ConfidenceScore,
    pub weight: u32,
}

impl View for ConfidenceDebt {
    type V = ConfidenceDebtV;

    open spec fn view(&self) -> ConfidenceDebtV {
        ConfidenceDebtV { source: self.source.0, reason: self.reason@, confidence: self.confidence, weight: self.weight }
    }
}

/// Evidence that the graph replays deterministically from its patches.
#[derive(Debug, Clone)]
pub struct ReplayProof {
    pub graph_hash: [u8; 32],
    pub patch_count: usize,
    pub replayed_hash: [u8; 32],
    pub matches: bool,
}

pub struct ReplayProofV {
    pub graph_hash: Seq<u8>,
    pub patch_count: nat,
    pub replayed_hash: Seq<u8>,
    pub matches: bool,
}

impl View for ReplayProof {
    type V = ReplayProofV;

    open spec fn view(&self) -> ReplayProofV {
        ReplayProofV {
            graph_hash: self.graph_hash@,
            patch_count: self.patch_count as nat,
            replayed_hash: self.replayed_hash@,
            matches: self.matches,
        }
    }
}

/// The outcome of validating a commit.
#[derive(Debug, Clone)]
pub struct ValidationReport {
    pub errors: Vec<ValidationError>,
    pub warnings: Vec<ValidationWarning>,
    pub confidence_debt: Vec<ConfidenceDebt>,
    pub replay_proof: Option<ReplayProof>,
}

pub struct ValidationReportV {
    pub errors: Seq<FindingV>,
    pub warnings: Seq<FindingV>,
    pub debt: Seq<ConfidenceDebtV>,
    pub replay: Option<ReplayProofV>,
}

impl View for ValidationReport {
    type V = ValidationReportV;

    open spec fn view(&self) -> ValidationReportV {
        ValidationReportV {
            errors: seq_model(self.errors@),
            warnings: seq_model(self.warnings@),
            debt: seq_model(self.confidence_debt@),
            replay: match self.replay_proof {
                Some(p) => Some(p@),
                None => None,
            },
        }
    }
}

/// Sum of the weights of a list of debts.
pub open spec fn debt_sum(d: Seq<ConfidenceDebtV>) -> nat
    decreases d.len(),
{
    if d.len() == 0 {
        0
    } else {
        debt_sum(d.drop_last()) + d.last().weight as nat
    }
}

impl ValidationReport {
    /// Only errors block a commit.
    pub fn is_committable(&self) -> (b: bool)
        ensures
            b == (self.errors@.len() == 0),
    {
        self.errors.len() == 0
    }

    /// Total weight of the confidence debt.
    pub fn total_debt(&self) -> (r: u32)
        requires
            debt_sum(seq_model(self.confidence_debt@)) <= u32::MAX,
        ensures
            r == debt_sum(seq_model(self.confidence_debt@)),
    {
        let ghost d = seq_model(self.confidence_debt@);
        let mut total: u32 = 0;
        let mut i: usize = 0;
        while i < self.confidence_debt.len()
            invariant
                d == seq_model(self.confidence_debt@),
                debt_sum(d) <= u32::MAX,
                i <= d.len(),
                total == debt_sum(d.take(i as int)),
            decreases d.len() - i,
        {
            proof {
                assert(d.take(i + 1).drop_last() =~= d.take(i as int));
                lemma_debt_sum_prefix(d, i + 1);
            }
            total = total + self.confidence_debt[i].weight;
            i += 1;
        }
        proof {
            assert(d.take(d.len() as int) =~= d);
        }
        total
    }
}

proof fn lemma_debt_sum_prefix(d: Seq<ConfidenceDebtV>, n: int)
    requires
        0 <= n <= d.len(),
    ensures
        debt_sum(d.take(n)) <= debt_sum(d),
    decreases d.len() - n,
{
    if n < d.len() {
        lemma_debt_sum_prefix(d, n + 1);
        assert(d.take(n + 1).drop_last() =~= d.take(n));
    } else {
        assert(d.take(n) =~= d);
    }
}

// ── Topology ──────────────────

/// The vertices of the causal order: the nodes, and the targets of causal
/// edges (which may name a missing node).
pub open spec fn causal_vertices(g: GraphV) -> Set<u128> {
    Set::new(|v: u128| g.nodes.contains_key(v) || exists|k: int| 0 <= k < edge_pairs(g, true).len() && edge_pairs(g, true)[k].1 == v)
}

/// How many vertices Kahn's algorithm orders over the causal edges.
pub open spec fn ordered_count(g: GraphV) -> nat {
    settled(causal_vertices(g), edge_pairs(g, true)).len()
}

/// The cycle error: when there are edges, and fewer vertices can be ordered
/// than there are nodes.
pub open spec fn cycle_findings(g: GraphV) -> Seq<FindingV> {
    if !g.edges.is_empty() && ordered_count(g) < g.nodes.dom().len() {
        seq![FindingV {
            code: "CYCLE_DETECTED"@,
            message: "causal cycle detected: "@ + dec_digits((g.nodes.dom().len() - ordered_count(g)) as nat)
                + " nodes unreachable in topological sort"@,
            node: None,
        }]
    } else {
        Seq::empty()
    }
}

/// Whether some edge starts or ends at node `id`.
pub open spec fn touched(g: GraphV, id: u128) -> bool {
    exists|e: u128| #[trigger] g.edges.contains_key(e) && (g.edges[e].source.node_id == id || g.edges[e].target.node_id == id)
}

/// The warning for node `id` if it has no connection (and is not alone).
pub open spec fn isolated_at(g: GraphV) -> spec_fn(u128) -> Seq<FindingV> {
    |id: u128|
        if !touched(g, id) && g.nodes.dom().len() > 1 {
            seq![FindingV { code: "ISOLATED_NODE"@, message: "node "@ + ulid_text(id) + " has no connections"@, node: Some(id) }]
        } else {
            Seq::empty()
        }
}

pub open spec fn isolation_findings(g: GraphV) -> Seq<FindingV> {
    gather(ordered_ids(g.nodes), isolated_at(g))
}

fn cycle_check(graph: &Graph, errors: &mut Vec<ValidationError>)
    ensures
        seq_model(final(errors)@) == seq_model(old(errors)@) + cycle_findings(graph@),
{
    let ghost g = graph@;
    proof {
        assert(g.edges.dom() =~= graph.edges@.dom());
        assert(g.nodes.dom() =~= graph.nodes@.dom());
    }
    if graph.edges.is_empty() {
        assert(seq_model(errors@) =~= seq_model(errors@) + cycle_findings(g));
        return;
    }
    let es = collect_edge_pairs(graph, true);
    let node_ids = sorted_keys_of(&graph.nodes);
    let mut verts: BTreeMap<u128, bool> = BTreeMap::new();
    let mut i: usize = 0;
    while i < node_ids.len()
        invariant
            i <= node_ids@.len(),
            forall|v: u128| #[trigger] verts@.contains_key(v) <==> exists|j: int| 0 <= j < i && node_ids@[j] == v,
        decreases node_ids@.len() - i,
    {
        verts.insert(node_ids[i], true);
        proof {
            assert forall|v: u128| #[trigger] verts@.contains_key(v) <==> exists|j: int| 0 <= j < i + 1 && node_ids@[j] == v by {
                if v == node_ids@[i as int] {
                    assert(node_ids@[i as int] == v);
                }
            }
        }
        i += 1;
    }
    let mut k: usize = 0;
    while k < es.len()
        invariant
            k <= es@.len(),
            forall|v: u128| #[trigger] verts@.contains_key(v) <==> (node_ids@.contains(v) || exists|j: int| 0 <= j < k && es@[j].1 == v),
        decreases es@.len() - k,
    {
        verts.insert(es[k].1, true);
        proof {
            assert forall|v: u128| #[trigger] verts@.contains_key(v) <==> (node_ids@.contains(v) || exists|j: int| 0 <= j < k + 1 && es@[j].1 == v) by {
                if v == es@[k as int].1 {
                    assert(es@[k as int].1 == v);
                }
                if node_ids@.contains(v) {
                    let j = choose|j: int| 0 <= j < node_ids@.len() && node_ids@[j] == v;
                    assert(node_ids@[j] == v);
                }
            }
        }
        k += 1;
    }
    let vs = sorted_keys_of(&verts);
    proof {
        assert forall|k2: int| 0 <= k2 < es@.len() implies vs@.contains(#[trigger] es@[k2].1) by {
            assert(verts@.contains_key(es@[k2].1));
        }
        assert(vs@.to_set() =~= causal_vertices(g)) by {
            assert forall|v: u128| vs@.to_set().contains(v) <==> causal_vertices(g).contains(v) by {
                assert(vs@.to_set().contains(v) <==> verts@.contains_key(v));
                assert(node_ids@.contains(v) <==> g.nodes.contains_key(v));
            }
        }
    }
    let order = kahn(&vs, &es);
    proof {
        lemma_settled(causal_vertices(g), es@, order@);
    }
    let visited = order.len();
    let n = node_ids.len();
    if visited < n {
        let mut msg = owned("causal cycle detected: ");
        let count = dec_u64((n - visited) as u64);
        push_str(&mut msg, count.as_str());
        push_str(&mut msg, " nodes unreachable in topological sort");
        let err = ValidationError { code: "CYCLE_DETECTED", message: msg, node: None };
        proof {
            lemma_seq_model_push(errors@, err);
        }
        errors.push(err);
        proof {
            assert(seq_model(errors@) =~= seq_model(old(errors)@) + cycle_findings(g));
        }
    } else {
        assert(seq_model(errors@) =~= seq_model(errors@) + cycle_findings(g));
    }
}


fn isolation_check(graph: &Graph, warnings: &mut Vec<ValidationWarning>)
    ensures
        seq_model(final(warnings)@) == seq_model(old(warnings)@) + isolation_findings(graph@),
{
    let ghost g = graph@;
    let edge_ids = sorted_keys_of(&graph.edges);
    proof {
        assert(g.edges.dom() =~= graph.edges@.dom());
        assert(g.nodes.dom() =~= graph.nodes@.dom());
    }
    let mut connected: BTreeMap<u128, bool> = BTreeMap::new();
    let mut i: usize = 0;
    while i < edge_ids.len()
        invariant
            g == graph@,
            i <= edge_ids@.len(),
            forall|k: u128| graph.edges@.contains_key(k) <==> edge_ids@.contains(k),
            forall|v: u128| #[trigger] connected@.contains_key(v) <==> exists|j: int| 0 <= j < i
                && (g.edges[edge_ids@[j]].source.node_id == v || g.edges[edge_ids@[j]].target.node_id == v),
        decreases edge_ids@.len() - i,
    {
        let id = edge_ids[i];
        assert(edge_ids@.contains(id)) by {
            assert(edge_ids@[i as int] == id);
        }
        if let Some(e) = graph.edges.get(&id) {
            assert(g.edges[id] == e@);
            connected.insert(e.source.node_id.0, true);
            connected.insert(e.target.node_id.0, true);
        }
        proof {
            assert forall|v: u128| #[trigger] connected@.contains_key(v) <==> exists|j: int| 0 <= j < i + 1
                && (g.edges[edge_ids@[j]].source.node_id == v || g.edges[edge_ids@[j]].target.node_id == v) by {
                if g.edges[edge_ids@[i as int]].source.node_id == v || g.edges[edge_ids@[i as int]].target.node_id == v {
                    assert(edge_ids@[i as int] == id);
                }
            }
        }
        i += 1;
    }
    proof {
        assert forall|v: u128| #[trigger] connected@.contains_key(v) <==> touched(g, v) by {
            if connected@.contains_key(v) {
                let j = choose|j: int| 0 <= j < edge_ids@.len()
                    && (g.edges[edge_ids@[j]].source.node_id == v || g.edges[edge_ids@[j]].target.node_id == v);
                assert(edge_ids@.contains(edge_ids@[j]));
                assert(g.edges.contains_key(edge_ids@[j]));
            }
            if touched(g, v) {
                let e = choose|e: u128| #[trigger] g.edges.contains_key(e) && (g.edges[e].source.node_id == v || g.edges[e].target.node_id == v);
                assert(edge_ids@.contains(e));
                let j = choose|j: int| 0 <= j < edge_ids@.len() && edge_ids@[j] == e;
                assert(edge_ids@[j] == e);
            }
        }
    }
    let node_ids = sorted_keys_of(&graph.nodes);
    let n = node_ids.len();
    proof {
        lemma_ordered_ids(g.nodes, node_ids@);
    }
    let ghost start = seq_model(warnings@);
    let ghost f = isolated_at(g);
    let mut k: usize = 0;
    while k < node_ids.len()
        invariant
            k <= node_ids@.len(),
            n == node_ids@.len(),
            n == g.nodes.dom().len(),
            node_ids@ == ordered_ids(g.nodes),
            f == isolated_at(g),
            forall|v: u128| #[trigger] connected@.contains_key(v) <==> touched(g, v),
            seq_model(warnings@) == start + gather(node_ids@.take(k as int), f),
        decreases node_ids@.len() - k,
    {
        let id = node_ids[k];
        let ghost before = seq_model(warnings@);
        if !connected.contains_key(&id) && n > 1 {
            let mut msg = owned("node ");
            let text = StableId(id).to_text();
            push_str(&mut msg, text.as_str());
            push_str(&mut msg, " has no connections");
            let w = ValidationWarning { code: "ISOLATED_NODE", message: msg, node: Some(StableId(id)) };
            proof {
                lemma_seq_model_push(warnings@, w);
            }
            warnings.push(w);
            assert(seq_model(warnings@) =~= before + f(id));
        } else {
            assert(seq_model(warnings@) =~= before + f(id));
        }
        proof {
            lemma_gather_grown(start, before, seq_model(warnings@), node_ids@, k as int, f);
        }
        k += 1;
    }
    proof {
        assert(node_ids@.take(node_ids@.len() as int) =~= node_ids@);
    }
}

// ── Domain safety ──────────────────

/// The first port of the list with the given name.
pub open spec fn first_port(ports: Seq<TypedPortV>, name: Seq<char>) -> Option<TypedPortV>
    decreases ports.len(),
{
    if ports.len() == 0 {
        None
    } else if ports[0].name == name {
        Some(ports[0])
    } else {
        first_port(ports.drop_first(), name)
    }
}

/// The port that a reference names, if its node exists and has one.
pub open spec fn port_of(g: GraphV, p: crate::types::PortRefV) -> Option<TypedPortV> {
    if g.nodes.contains_key(p.node_id) {
        first_port(g.nodes[p.node_id].ports, p.port_name)
    } else {
        None
    }
}

/// How a domain prints.
pub open spec fn domain_name(d: ExecutionDomain) -> Seq<char> {
    match d {
        ExecutionDomain::Sample => "Sample"@,
        ExecutionDomain::Block => "Block"@,
        ExecutionDomain::Timeline => "Timeline"@,
        ExecutionDomain::Background => "Background"@,
    }
}

/// Errors of one edge whose two ports exist: a domain crossing, a source
/// that is not an output, a target that is not an input.
pub open spec fn edge_port_findings(e: EdgeV, src: TypedPortV, tgt: TypedPortV) -> Seq<FindingV> {
    (if src.domain != tgt.domain {
        seq![FindingV {
            code: "DOMAIN_CROSSING"@,
            message: "edge "@ + ulid_text(e.id) + " crosses domains: "@ + domain_name(src.domain) + " -> "@
                + domain_name(tgt.domain) + " (requires explicit bridge)"@,
            node: None,
        }]
    } else {
        Seq::empty()
    }) + (if src.direction != PortDirection::Output {
        seq![FindingV {
            code: "PORT_DIRECTION"@,
            message: "edge "@ + ulid_text(e.id) + " source port '"@ + e.source.port_name + "' is not an output"@,
            node: Some(e.source.node_id),
        }]
    } else {
        Seq::empty()
    }) + (if tgt.direction != PortDirection::Input {
        seq![FindingV {
            code: "PORT_DIRECTION"@,
            message: "edge "@ + ulid_text(e.id) + " target port '"@ + e.target.port_name + "' is not an input"@,
            node: Some(e.target.node_id),
        }]
    } else {
        Seq::empty()
    })
}

pub open spec fn domain_at(g: GraphV) -> spec_fn(u128) -> Seq<FindingV> {
    |k: u128|
        match (port_of(g, g.edges[k].source), port_of(g, g.edges[k].target)) {
            (Some(s), Some(t)) => edge_port_findings(g.edges[k], s, t),
            _ => Seq::empty(),
        }
}

pub open spec fn domain_findings(g: GraphV) -> Seq<FindingV> {
    gather(ordered_ids(g.edges), domain_at(g))
}

fn find_port<'a>(node: &'a Node, name: &String) -> (r: Option<&'a TypedPort>)
    ensures
        match r {
            Some(p) => first_port(node@.ports, name@) == Some(p@),
            None => first_port(node@.ports, name@) is None,
        },
{
    let ghost ps = node@.ports;
    assert(ps.skip(0) =~= ps);
    let mut i: usize = 0;
    while i < node.ports.len()
        invariant
            ps == node@.ports,
            ps == seq_model(node.ports@),
            i <= node.ports@.len(),
            first_port(ps, name@) == first_port(ps.skip(i as int), name@),
        decreases node.ports@.len() - i,
    {
        proof {
            assert(ps.skip(i as int)[0] == node.ports@[i as int]@);
            assert(ps.skip(i as int).drop_first() =~= ps.skip(i + 1));
        }
        if node.ports[i].name == *name {
            return Some(&node.ports[i]);
        }
        i += 1;
    }
    proof {
        assert(ps.skip(i as int).len() == 0);
    }
    None
}

fn domain_str(d: ExecutionDomain) -> (r: &'static str)
    ensures
        r@ == domain_name(d),
{
    match d {
        ExecutionDomain::Sample => "Sample",
        ExecutionDomain::Block => "Block",
        ExecutionDomain::Timeline => "Timeline",
        ExecutionDomain::Background => "Background",
    }
}

fn port_checks(e: &Edge, src: &TypedPort, tgt: &TypedPort, errors: &mut Vec<ValidationError>)
    ensures
        seq_model(final(errors)@) == seq_model(old(errors)@) + edge_port_findings(e@, src@, tgt@),
{
    let ghost start = seq_model(errors@);
    let id_text = e.id.to_text();
    let ghost s1 = seq_model(errors@);
    if src.domain != tgt.domain {
        let mut msg = owned("edge ");
        push_str(&mut msg, id_text.as_str());
        push_str(&mut msg, " crosses domains: ");
        push_str(&mut msg, domain_str(src.domain));
        push_str(&mut msg, " -> ");
        push_str(&mut msg, domain_str(tgt.domain));
        push_str(&mut msg, " (requires explicit bridge)");
        let err = ValidationError { code: "DOMAIN_CROSSING", message: msg, node: None };
        proof {
            lemma_seq_model_push(errors@, err);
        }
        errors.push(err);
    }
    let ghost s2 = seq_model(errors@);
    if src.direction != PortDirection::Output {
        let mut msg = owned("edge ");
        push_str(&mut msg, id_text.as_str());
        push_str(&mut msg, " source port '");
        push_str(&mut msg, e.source.port_name.as_str());
        push_str(&mut msg, "' is not an output");
        let err = ValidationError { code: "PORT_DIRECTION", message: msg, node: Some(e.source.node_id) };
        proof {
            lemma_seq_model_push(errors@, err);
        }
        errors.push(err);
    }
    let ghost s3 = seq_model(errors@);
    if tgt.direction != PortDirection::Input {
        let mut msg = owned("edge ");
        push_str(&mut msg, id_text.as_str());
        push_str(&mut msg, " target port '");
        push_str(&mut msg, e.target.port_name.as_str());
        push_str(&mut msg, "' is not an input");
        let err = ValidationError { code: "PORT_DIRECTION", message: msg, node: Some(e.target.node_id) };
        proof {
            lemma_seq_model_push(errors@, err);
        }
        errors.push(err);
    }
    proof {
        assert(seq_model(errors@) =~= seq_model(old(errors)@) + edge_port_findings(e@, src@, tgt@));
    }
}

fn domain_check(graph: &Graph, errors: &mut Vec<ValidationError>)
    ensures
        seq_model(final(errors)@) == seq_model(old(errors)@) + domain_findings(graph@),
{
    let ghost g = graph@;
    let edge_ids = sorted_keys_of(&graph.edges);
    proof {
        assert(g.edges.dom() =~= graph.edges@.dom());
        lemma_ordered_ids(g.edges, edge_ids@);
    }
    let ghost start = seq_model(errors@);
    let ghost f = domain_at(g);
    let mut k: usize = 0;
    while k < edge_ids.len()
        invariant
            g == graph@,
            k <= edge_ids@.len(),
            edge_ids@ == ordered_ids(g.edges),
            forall|x: u128| graph.edges@.contains_key(x) <==> edge_ids@.contains(x),
            f == domain_at(g),
            seq_model(errors@) == start + gather(edge_ids@.take(k as int), f),
        decreases edge_ids@.len() - k,
    {
        let id = edge_ids[k];
        let ghost before = seq_model(errors@);
        assert(edge_ids@.contains(id)) by {
            assert(edge_ids@[k as int] == id);
        }
        if let Some(e) = graph.edges.get(&id) {
            assert(g.edges[id] == e@);
            let src = match graph.nodes.get(&e.source.node_id.0) {
                Some(n) => {
                    assert(g.nodes[e.source.node_id.0] == n@);
                    find_port(n, &e.source.port_name)
                },
                None => None,
            };
            let tgt = match graph.nodes.get(&e.target.node_id.0) {
                Some(n) => {
                    assert(g.nodes[e.target.node_id.0] == n@);
                    find_port(n, &e.target.port_name)
                },
                None => None,
            };
            assert(port_of(g, e@.source) == match src { Some(p) => Some(p@), None => None::<TypedPortV> });
            assert(port_of(g, e@.target) == match tgt { Some(p) => Some(p@), None => None::<TypedPortV> });
            match (src, tgt) {
                (Some(s), Some(t)) => {
                    port_checks(e, s, t, errors);
                },
                _ => {
                    assert(seq_model(errors@) =~= before + f(id));
                },
            }
        }
        proof {
            lemma_gather_grown(start, before, seq_model(errors@), edge_ids@, k as int, f);
        }
        k += 1;
    }
    proof {
        assert(edge_ids@.take(edge_ids@.len() as int) =~= edge_ids@);
    }
}


// ── Dependency closure ──────────────────

/// The debt of a foreign (plugin) node.
pub open spec fn foreign_at(g: GraphV) -> spec_fn(u128) -> Seq<ConfidenceDebtV> {
    |id: u128|
        match g.nodes[id].kind {
            NodeKindV::Foreign(name) => seq![ConfidenceDebtV {
                source: id,
                reason: "foreign plugin '"@ + name + "' is nondeterministic by default"@,
                confidence: ConfidenceScore::Suspicious,
                weight: 30,
            }],
            _ => Seq::empty(),
        }
}

/// The debts of an edge whose source or target node is missing.
pub open spec fn dangling_at(g: GraphV) -> spec_fn(u128) -> Seq<ConfidenceDebtV> {
    |k: u128| {
        let e = g.edges[k];
        (if !g.nodes.contains_key(e.source.node_id) {
            seq![ConfidenceDebtV {
                source: e.id,
                reason: "edge source node "@ + ulid_text(e.source.node_id) + " missing"@,
                confidence: ConfidenceScore::Unknown,
                weight: 100,
            }]
        } else {
            Seq::empty()
        }) + (if !g.nodes.contains_key(e.target.node_id) {
            seq![ConfidenceDebtV {
                source: e.id,
                reason: "edge target node "@ + ulid_text(e.target.node_id) + " missing"@,
                confidence: ConfidenceScore::Unknown,
                weight: 100,
            }]
        } else {
            Seq::empty()
        })
    }
}

pub open spec fn dependency_debts(g: GraphV) -> Seq<ConfidenceDebtV> {
    gather(ordered_ids(g.nodes), foreign_at(g)) + gather(ordered_ids(g.edges), dangling_at(g))
}

fn dependency_check(graph: &Graph, debt: &mut Vec<ConfidenceDebt>)
    ensures
        seq_model(final(debt)@) == seq_model(old(debt)@) + dependency_debts(graph@),
{
    let ghost g = graph@;
    let node_ids = sorted_keys_of(&graph.nodes);
    proof {
        assert(g.nodes.dom() =~= graph.nodes@.dom());
        assert(g.edges.dom() =~= graph.edges@.dom());
        lemma_ordered_ids(g.nodes, node_ids@);
    }
    let ghost start = seq_model(debt@);
    let ghost f = foreign_at(g);
    let mut k: usize = 0;
    while k < node_ids.len()
        invariant
            g == graph@,
            k <= node_ids@.len(),
            node_ids@ == ordered_ids(g.nodes),
            forall|x: u128| graph.nodes@.contains_key(x) <==> node_ids@.contains(x),
            f == foreign_at(g),
            seq_model(debt@) == start + gather(node_ids@.take(k as int), f),
        decreases node_ids@.len() - k,
    {
        let id = node_ids[k];
        let ghost before = seq_model(debt@);
        assert(node_ids@.contains(id)) by {
            assert(node_ids@[k as int] == id);
        }
        if let Some(n) = graph.nodes.get(&id) {
            assert(g.nodes[id] == n@);
            match &n.kind {
                NodeKind::Foreign(name) => {
                    let mut reason = owned("foreign plugin '");
                    push_str(&mut reason, name.as_str());
                    push_str(&mut reason, "' is nondeterministic by default");
                    let d = ConfidenceDebt { source: StableId(id), reason, confidence: ConfidenceScore::Suspicious, weight: 30 };
                    proof {
                        lemma_seq_model_push(debt@, d);
                    }
                    debt.push(d);
                    assert(seq_model(debt@) =~= before + f(id));
                },
                _ => {
                    assert(seq_model(debt@) =~= before + f(id));
                },
            }
        }
        proof {
            lemma_gather_grown(start, before, seq_model(debt@), node_ids@, k as int, f);
        }
        k += 1;
    }
    proof {
        assert(node_ids@.take(node_ids@.len() as int) =~= node_ids@);
    }
    let edge_ids = sorted_keys_of(&graph.edges);
    proof {
        lemma_ordered_ids(g.edges, edge_ids@);
    }
    let ghost mid = seq_model(debt@);
    let ghost h = dangling_at(g);
    let mut k: usize = 0;
    while k < edge_ids.len()
        invariant
            g == graph@,
            k <= edge_ids@.len(),
            edge_ids@ == ordered_ids(g.edges),
            forall|x: u128| graph.edges@.contains_key(x) <==> edge_ids@.contains(x),
            h == dangling_at(g),
            seq_model(debt@) == mid + gather(edge_ids@.take(k as int), h),
        decreases edge_ids@.len() - k,
    {
        let id = edge_ids[k];
        let ghost before = seq_model(debt@);
        assert(edge_ids@.contains(id)) by {
            assert(edge_ids@[k as int] == id);
        }
        if let Some(e) = graph.edges.get(&id) {
            assert(g.edges[id] == e@);
            if !graph.nodes.contains_key(&e.source.node_id.0) {
                let mut reason = owned("edge source node ");
                let t = e.source.node_id.to_text();
                push_str(&mut reason, t.as_str());
                push_str(&mut reason, " missing");
                let d = ConfidenceDebt { source: e.id, reason, confidence: ConfidenceScore::Unknown, weight: 100 };
                proof {
                    lemma_seq_model_push(debt@, d);
                }
                debt.push(d);
            }
            if !graph.nodes.contains_key(&e.target.node_id.0) {
                let mut reason = owned("edge target node ");
                let t = e.target.node_id.to_text();
                push_str(&mut reason, t.as_str());
                push_str(&mut reason, " missing");
                let d = ConfidenceDebt { source: e.id, reason, confidence: ConfidenceScore::Unknown, weight: 100 };
                proof {
                    lemma_seq_model_push(debt@, d);
                }
                debt.push(d);
            }
            assert(seq_model(debt@) =~= before + h(id));
        }
        proof {
            lemma_gather_grown(mid, before, seq_model(debt@), edge_ids@, k as int, h);
        }
        k += 1;
    }
    proof {
        assert(edge_ids@.take(edge_ids@.len() as int) =~= edge_ids@);
        assert(seq_model(debt@) =~= seq_model(old(debt)@) + dependency_debts(g));
    }
}

// ── Deterministic replayability ──────────────────

/// Thirty-two zero bytes.
pub open spec fn zero_digest() -> Seq<u8> {
    Seq::new(32, |i: int| 0u8)
}

/// The replay proof for a graph and the patches that should rebuild it;
/// none without patches. A failed replay is recorded as a mismatch against
/// the zero digest.
pub open spec fn replay_proof_of(g: GraphV, ps: Seq<PatchV>) -> Option<ReplayProofV> {
    if ps.len() == 0 {
        None
    } else {
        match replay_from(empty_graph(), ps) {
            Ok(r) => Some(ReplayProofV {
                graph_hash: graph_digest(g),
                patch_count: ps.len(),
                replayed_hash: graph_digest(r),
                matches: graph_digest(g) == graph_digest(r),
            }),
            Err(_) => Some(ReplayProofV {
                graph_hash: graph_digest(g),
                patch_count: ps.len(),
                replayed_hash: zero_digest(),
                matches: false,
            }),
        }
    }
}

/// The error for a replay that does not match.
pub open spec fn mismatch_findings(p: Option<ReplayProofV>) -> Seq<FindingV> {
    match p {
        Some(q) => if q.matches {
            Seq::empty()
        } else {
            seq![FindingV {
                code: "REPLAY_MISMATCH"@,
                message: "replay produced different hash: expected "@ + hex_seq(q.graph_hash) + ", got "@ + hex_seq(q.replayed_hash),
                node: None,
            }]
        },
        None => Seq::empty(),
    }
}

fn zero_hash() -> (h: [u8; 32])
    ensures
        h@ == zero_digest(),
{
    let h = [0u8; 32];
    assert(h@ =~= zero_digest());
    h
}

fn check_determinism(graph: &Graph, patches: &[Patch]) -> (r: Option<ReplayProof>)
    requires
        patches@.len() < u64::MAX,
    ensures
        match r {
            Some(p) => replay_proof_of(graph@, seq_model(patches@)) == Some(p@),
            None => replay_proof_of(graph@, seq_model(patches@)) is None,
        },
{
    if patches.len() == 0 {
        return None;
    }
    let graph_hash = hash_graph(graph);
    match Graph::replay(patches) {
        Ok(replayed) => {
            let replayed_hash = hash_graph(&replayed);
            let matches = digest_eq(&graph_hash, &replayed_hash);
            Some(ReplayProof { graph_hash, patch_count: patches.len(), replayed_hash, matches })
        },
        Err(_) => Some(ReplayProof { graph_hash, patch_count: patches.len(), replayed_hash: zero_hash(), matches: false }),
    }
}

/// A graph rebuilt from its own patches carries a matching replay proof,
/// so no replay error is reported for it.
pub proof fn lemma_replayed_graph_matches(ps: Seq<PatchV>)
    requires
        ps.len() > 0,
        replay_from(empty_graph(), ps) is Ok,
    ensures
        replay_proof_of(replay_from(empty_graph(), ps)->Ok_0, ps) is Some,
        replay_proof_of(replay_from(empty_graph(), ps)->Ok_0, ps)->Some_0.matches,
        mismatch_findings(replay_proof_of(replay_from(empty_graph(), ps)->Ok_0, ps)) == Seq::<FindingV>::empty(),
{
}

// ── The report ──────────────────

/// The report on a graph and its patches: cycle, domain and replay errors;
/// isolation warnings; foreign and dangling debt; the replay proof.
pub open spec fn validation_report(g: GraphV, ps: Seq<PatchV>) -> ValidationReportV {
    ValidationReportV {
        errors: cycle_findings(g) + domain_findings(g) + mismatch_findings(replay_proof_of(g, ps)),
        warnings: isolation_findings(g),
        debt: dependency_debts(g),
        replay: replay_proof_of(g, ps),
    }
}

/// Validates a graph for commit.
pub fn validate_commit(graph: &Graph, patches: &[Patch]) -> (r: ValidationReport)
    requires
        patches@.len() < u64::MAX,
    ensures
        r@ == validation_report(graph@, seq_model(patches@)),
{
    let mut errors: Vec<ValidationError> = Vec::new();
    let mut warnings: Vec<ValidationWarning> = Vec::new();
    let mut confidence_debt: Vec<ConfidenceDebt> = Vec::new();
    proof {
        assert(seq_model(errors@) =~= Seq::<FindingV>::empty());
        assert(seq_model(warnings@) =~= Seq::<FindingV>::empty());
        assert(seq_model(confidence_debt@) =~= Seq::<ConfidenceDebtV>::empty());
    }
    cycle_check(graph, &mut errors);
    isolation_check(graph, &mut warnings);
    domain_check(graph, &mut errors);
    dependency_check(graph, &mut confidence_debt);
    let replay_proof = check_determinism(graph, patches);
    let ghost before = seq_model(errors@);
    if let Some(proof_of_replay) = &replay_proof {
        if !proof_of_replay.matches {
            let mut msg = owned("replay produced different hash: expected ");
            let a = hex_encode(&proof_of_replay.graph_hash);
            push_str(&mut msg, a.as_str());
            push_str(&mut msg, ", got ");
            let b = hex_encode(&proof_of_replay.replayed_hash);
            push_str(&mut msg, b.as_str());
            let err = ValidationError { code: "REPLAY_MISMATCH", message: msg, node: None };
            proof {
                lemma_seq_model_push(errors@, err);
            }
            errors.push(err);
        }
    }
    proof {
        assert(seq_model(errors@) =~= before + mismatch_findings(replay_proof_of(graph@, seq_model(patches@))));
        assert(seq_model(errors@) =~= cycle_findings(graph@) + domain_findings(graph@) + mismatch_findings(replay_proof_of(graph@, seq_model(patches@))));
        assert(seq_model(warnings@) =~= isolation_findings(graph@));
        assert(seq_model(confidence_debt@) =~= dependency_debts(graph@));
    }
    ValidationReport { errors, warnings, confidence_debt, replay_proof }
}

// ── Dangling edges ──────────────────

proof fn lemma_gather_holds<T>(ids: Seq<u128>, f: spec_fn(u128) -> Seq<T>, k: u128, x: T)
    requires
        ids.contains(k),
        f(k).contains(x),
    ensures
        gather(ids, f).contains(x),
    decreases ids.len(),
{
    let init = ids.drop_last();
    let g = gather(ids, f);
    if ids.last() == k {
        let fk = f(k);
        let j = choose|j: int| 0 <= j < fk.len() && fk[j] == x;
        assert(g[gather(init, f).len() + j] == x);
    } else {
        let i = choose|i: int| 0 <= i < ids.len() && ids[i] == k;
        assert(i != ids.len() - 1);
        assert(init[i] == k);
        lemma_gather_holds(init, f, k, x);
        let gi = gather(init, f);
        let j = choose|j: int| 0 <= j < gi.len() && gi[j] == x;
        assert(g[j] == x);
    }
}

/// An edge whose source node is missing is reported as debt of weight 100
/// (unknown confidence) on that edge, and so is one whose target node is
/// missing.
pub proof fn lemma_dangling_edges_are_debt(g: GraphV, ps: Seq<PatchV>, k: u128)
    requires
        g.edges.dom().finite(),
        g.edges.contains_key(k),
    ensures
        !g.nodes.contains_key(g.edges[k].source.node_id) ==> validation_report(g, ps).debt.contains(
            ConfidenceDebtV {
                source: g.edges[k].id,
                reason: "edge source node "@ + ulid_text(g.edges[k].source.node_id) + " missing"@,
                confidence: ConfidenceScore::Unknown,
                weight: 100,
            },
        ),
        !g.nodes.contains_key(g.edges[k].target.node_id) ==> validation_report(g, ps).debt.contains(
            ConfidenceDebtV {
                source: g.edges[k].id,
                reason: "edge target node "@ + ulid_text(g.edges[k].target.node_id) + " missing"@,
                confidence: ConfidenceScore::Unknown,
                weight: 100,
            },
        ),
{
    lemma_ordered_ids_keys(g.edges);
    let ids = ordered_ids(g.edges);
    assert(ids.contains(k));
    let f = dangling_at(g);
    let e = g.edges[k];
    let a = gather(ordered_ids(g.nodes), foreign_at(g));
    let b = gather(ids, f);
    let src = ConfidenceDebtV {
        source: e.id,
        reason: "edge source node "@ + ulid_text(e.source.node_id) + " missing"@,
        confidence: ConfidenceScore::Unknown,
        weight: 100,
    };
    let tgt = ConfidenceDebtV {
        source: e.id,
        reason: "edge target node "@ + ulid_text(e.target.node_id) + " missing"@,
        confidence: ConfidenceScore::Unknown,
        weight: 100,
    };
    if !g.nodes.contains_key(e.source.node_id) {
        assert(f(k)[0] == src);
        lemma_gather_holds(ids, f, k, src);
        let j = choose|j: int| 0 <= j < b.len() && b[j] == src;
        assert((a + b)[a.len() + j] == src);
    }
    if !g.nodes.contains_key(e.target.node_id) {
        assert(f(k)[f(k).len() - 1] == tgt);
        lemma_gather_holds(ids, f, k, tgt);
        let j = choose|j: int| 0 <= j < b.len() && b[j] == tgt;
        assert((a + b)[a.len() + j] == tgt);
    }
}

} // verus!
