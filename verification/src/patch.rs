//! Patches: the only way the graph changes. Apply, replay, diff.
use vstd::prelude::*;
use crate::ids::{ulid_text, IntentId, PatchId, StableId, Timestamp};
use crate::ir::{has_port, ports_have, Edge, EdgeKind, EdgeV, Graph, GraphV, Modulation, ModulationV, Node, NodeV};
use crate::keyed::{lemma_pairs_map, pairs_map, sorted_keys, Model};
use crate::types::{
    ConfigChange, ConfigChangeV, ConfigDelta, ConfigValueV, EdgeDelta, EdgeDeltaV, PatchSource, PatchSourceV,
    PortRef, PortRefV, TrustLevel,
};
use crate::walk::sorted_keys_of;
use std::collections::BTreeMap;
use crate::hash::{graph_digest, hash_graph, hash_patch, patch_digest};
use crate::hex::encode as hex_encode;
use crate::text::{hex_seq, owned, push_str};

verus! {

broadcast use {vstd::std_specs::btree::group_btree_axioms, vstd::laws_cmp::group_laws_cmp};

/// Atomic operations on the graph.
#[derive(Debug, Clone, PartialEq)]
pub enum Operation {
    AddNode(Node),
    RemoveNode(StableId),
    /// Replaces an existing node wholesale, keeping the edges whose ports it
    /// still has (the others go with the old node).
    ReplaceNode(Node),
    ModifyConfig { node_id: StableId, delta: ConfigDelta },
    AddEdge(Edge),
    RemoveEdge(StableId),
    ModifyEdge { edge_id: StableId, delta: EdgeDelta },
    AddModulation(Modulation),
    RemoveModulation(StableId),
}

pub enum OperationV {
    AddNode(NodeV),
    RemoveNode(u128),
    ReplaceNode(NodeV),
    ModifyConfig { node_id: u128, delta: Map<Seq<char>, ConfigChangeV> },
    AddEdge(EdgeV),
    RemoveEdge(u128),
    ModifyEdge { edge_id: u128, delta: EdgeDeltaV },
    AddModulation(ModulationV),
    RemoveModulation(u128),
}

impl View for Operation {
    type V = OperationV;

    open spec fn view(&self) -> OperationV {
        match self {
            Operation::AddNode(n) => OperationV::AddNode(n@),
            Operation::RemoveNode(id) => OperationV::RemoveNode(id.0),
            Operation::ReplaceNode(n) => OperationV::ReplaceNode(n@),
            Operation::ModifyConfig { node_id, delta } => OperationV::ModifyConfig { node_id: node_id.0, delta: delta@ },
            Operation::AddEdge(e) => OperationV::AddEdge(e@),
            Operation::RemoveEdge(id) => OperationV::RemoveEdge(id.0),
            Operation::ModifyEdge { edge_id, delta } => OperationV::ModifyEdge { edge_id: edge_id.0, delta: delta@ },
            Operation::AddModulation(m) => OperationV::AddModulation(m@),
            Operation::RemoveModulation(id) => OperationV::RemoveModulation(id.0),
        }
    }
}

/// Errors of patch application.
#[derive(Debug, Clone, PartialEq)]
pub enum PatchError {
    NodeNotFound(StableId),
    EdgeNotFound(StableId),
    NodeAlreadyExists(StableId),
    EdgeAlreadyExists(StableId),
    PortNotFound { node: StableId, port: String },
    HashMismatch { expected: String, actual: String },
    MergeConflict(String),
}

pub enum PatchErrorV {
    NodeNotFound(u128),
    EdgeNotFound(u128),
    NodeAlreadyExists(u128),
    EdgeAlreadyExists(u128),
    PortNotFound { node: u128, port: Seq<char> },
    HashMismatch { expected: Seq<char>, actual: Seq<char> },
    MergeConflict(Seq<char>),
}

impl View for PatchError {
    type V = PatchErrorV;

    open spec fn view(&self) -> PatchErrorV {
        match self {
            PatchError::NodeNotFound(id) => PatchErrorV::NodeNotFound(id.0),
            PatchError::EdgeNotFound(id) => PatchErrorV::EdgeNotFound(id.0),
            PatchError::NodeAlreadyExists(id) => PatchErrorV::NodeAlreadyExists(id.0),
            PatchError::EdgeAlreadyExists(id) => PatchErrorV::EdgeAlreadyExists(id.0),
            PatchError::PortNotFound { node, port } => PatchErrorV::PortNotFound { node: node.0, port: port@ },
            PatchError::HashMismatch { expected, actual } => PatchErrorV::HashMismatch { expected: expected@, actual: actual@ },
            PatchError::MergeConflict(s) => PatchErrorV::MergeConflict(s@),
        }
    }
}

/// How a patch error reads.
pub open spec fn patch_error_text(e: PatchErrorV) -> Seq<char> {
    match e {
        PatchErrorV::NodeNotFound(id) => "node "@ + ulid_text(id) + " not found"@,
        PatchErrorV::EdgeNotFound(id) => "edge "@ + ulid_text(id) + " not found"@,
        PatchErrorV::NodeAlreadyExists(id) => "node "@ + ulid_text(id) + " already exists"@,
        PatchErrorV::EdgeAlreadyExists(id) => "edge "@ + ulid_text(id) + " already exists"@,
        PatchErrorV::PortNotFound { node, port } => "port '"@ + port + "' not found on node "@ + ulid_text(node),
        PatchErrorV::HashMismatch { expected, actual } => "hash mismatch: expected "@ + expected + ", got "@ + actual,
        PatchErrorV::MergeConflict(s) => "merge conflict: "@ + s,
    }
}

fn id_sentence(before: &str, id: StableId, after: &str) -> (s: String)
    ensures
        s@ == before@ + ulid_text(id.0) + after@,
{
    let mut s = owned(before);
    let t = id.to_text();
    push_str(&mut s, t.as_str());
    push_str(&mut s, after);
    s
}

impl PatchError {
    /// The error as text.
    pub fn to_text(&self) -> (s: String)
        ensures
            s@ == patch_error_text(self@),
    {
        match self {
            PatchError::NodeNotFound(id) => id_sentence("node ", *id, " not found"),
            PatchError::EdgeNotFound(id) => id_sentence("edge ", *id, " not found"),
            PatchError::NodeAlreadyExists(id) => id_sentence("node ", *id, " already exists"),
            PatchError::EdgeAlreadyExists(id) => id_sentence("edge ", *id, " already exists"),
            PatchError::PortNotFound { node, port } => {
                let mut s = owned("port '");
                push_str(&mut s, port.as_str());
                push_str(&mut s, "' not found on node ");
                let t = node.to_text();
                push_str(&mut s, t.as_str());
                s
            },
            PatchError::HashMismatch { expected, actual } => {
                let mut s = owned("hash mismatch: expected ");
                push_str(&mut s, expected.as_str());
                push_str(&mut s, ", got ");
                push_str(&mut s, actual.as_str());
                s
            },
            PatchError::MergeConflict(m) => {
                let mut s = owned("merge conflict: ");
                push_str(&mut s, m.as_str());
                s
            },
        }
    }
}

// ── Copies of the graph ──────────────────

/// A value that can be copied with the same view.
trait Dup: View + Sized {
    fn dup(&self) -> (r: Self)
        ensures
            r@ == self@,
    ;
}

impl Dup for Node {
    fn dup(&self) -> (r: Self) {
        self.duplicate()
    }
}

impl Dup for Edge {
    fn dup(&self) -> (r: Self) {
        self.duplicate()
    }
}

impl Dup for Modulation {
    fn dup(&self) -> (r: Self) {
        self.duplicate()
    }
}

fn dup_map<T: Dup>(m: &BTreeMap<u128, T>) -> (r: BTreeMap<u128, T>)
    ensures
        r@.map_values(|t: T| t@) == m@.map_values(|t: T| t@),
{
    let keys = sorted_keys_of(m);
    let mut out: BTreeMap<u128, T> = BTreeMap::new();
    let mut i: usize = 0;
    while i < keys.len()
        invariant
            i <= keys@.len(),
            forall|k: u128| m@.contains_key(k) <==> keys@.contains(k),
            keys@.no_duplicates(),
            forall|k: u128| #[trigger] out@.contains_key(k) <==> exists|j: int| 0 <= j < i && keys@[j] == k,
            forall|k: u128| #[trigger] out@.contains_key(k) ==> m@.contains_key(k) && out@[k]@ == m@[k]@,
        decreases keys@.len() - i,
    {
        let k = keys[i];
        assert(keys@.contains(k));
        let v = m.get(&k).unwrap();
        out.insert(k, v.dup());
        proof {
            assert forall|x: u128| #[trigger] out@.contains_key(x) <==> exists|j: int| 0 <= j < i + 1 && keys@[j] == x by {
                if x == k {
                    assert(keys@[i as int] == x);
                }
            }
        }
        i += 1;
    }
    proof {
        assert forall|k: u128| m@.contains_key(k) implies #[trigger] out@.contains_key(k) by {
            assert(keys@.contains(k));
            let j = choose|j: int| 0 <= j < keys@.len() && keys@[j] == k;
        }
        assert(out@.map_values(|t: T| t@) =~= m@.map_values(|t: T| t@));
    }
    out
}

impl Graph {
    /// A copy of the graph.
    fn snapshot(&self) -> (r: Graph)
        ensures
            r@ == self@,
    {
        let mut applied: Vec<PatchId> = Vec::new();
        let mut i: usize = 0;
        while i < self.applied_patches.len()
            invariant
                i <= self.applied_patches@.len(),
                applied@ == self.applied_patches@.take(i as int),
            decreases self.applied_patches@.len() - i,
        {
            applied.push(self.applied_patches[i]);
            proof {
                assert(applied@ =~= self.applied_patches@.take(i + 1));
            }
            i += 1;
        }
        assert(self.applied_patches@.take(self.applied_patches@.len() as int) =~= self.applied_patches@);
        let r = Graph {
            nodes: dup_map(&self.nodes),
            edges: dup_map(&self.edges),
            modulations: dup_map(&self.modulations),
            revision: self.revision,
            applied_patches: applied,
        };
        assert(r@ =~= self@);
        r
    }
}

// ── The meaning of an operation ──────────────────

/// Applies one key change to a configuration.
pub open spec fn config_step(m: Map<Seq<char>, ConfigValueV>, k: Seq<char>, c: ConfigChangeV) -> Map<Seq<char>, ConfigValueV> {
    match c.new {
        Some(v) => m.insert(k, v),
        None => m.remove(k),
    }
}

/// A configuration after a delta: keys of the delta take their new value
/// (or disappear when it is `None`); other keys keep theirs.
pub open spec fn apply_delta(cfg: Map<Seq<char>, ConfigValueV>, delta: Map<Seq<char>, ConfigChangeV>) -> Map<Seq<char>, ConfigValueV> {
    Map::new(
        |k: Seq<char>| if delta.contains_key(k) { delta[k].new is Some } else { cfg.contains_key(k) },
        |k: Seq<char>| if delta.contains_key(k) { delta[k].new.unwrap() } else { cfg[k] },
    )
}

/// Applies the changes of a list, in order.
pub open spec fn delta_fold(cfg: Map<Seq<char>, ConfigValueV>, d: Seq<(Seq<char>, ConfigChangeV)>) -> Map<Seq<char>, ConfigValueV>
    decreases d.len(),
{
    if d.len() == 0 {
        cfg
    } else {
        config_step(delta_fold(cfg, d.drop_last()), d.last().0, d.last().1)
    }
}

proof fn lemma_delta_fold(cfg: Map<Seq<char>, ConfigValueV>, d: Seq<(Seq<char>, ConfigChangeV)>)
    ensures
        delta_fold(cfg, d) == apply_delta(cfg, pairs_map(d)),
    decreases d.len(),
{
    if d.len() > 0 {
        lemma_delta_fold(cfg, d.drop_last());
        assert(delta_fold(cfg, d) =~= apply_delta(cfg, pairs_map(d)));
    } else {
        assert(cfg =~= apply_delta(cfg, pairs_map(d)));
    }
}

/// Edges that do not touch node `id`.
pub open spec fn edges_without_node(edges: Map<u128, EdgeV>, id: u128) -> Map<u128, EdgeV> {
    Map::new(
        |k: u128| edges.contains_key(k) && edges[k].source.node_id != id && edges[k].target.node_id != id,
        |k: u128| edges[k],
    )
}

/// Whether node `n` has a port named `name`.
pub open spec fn node_has_port(n: NodeV, name: Seq<char>) -> bool {
    exists|i: int| 0 <= i < n.ports.len() && #[trigger] n.ports[i].name == name
}

/// Whether edge `e` can stay when node `n` takes its identifier's place:
/// each end of `e` at that node names a port that `n` has.
pub open spec fn edge_fits(e: EdgeV, n: NodeV) -> bool {
    &&& (e.source.node_id == n.id ==> node_has_port(n, e.source.port_name))
    &&& (e.target.node_id == n.id ==> node_has_port(n, e.target.port_name))
}

/// The edges that can stay when node `n` replaces the node of its identifier.
pub open spec fn edges_fitting(edges: Map<u128, EdgeV>, n: NodeV) -> Map<u128, EdgeV> {
    Map::new(|k: u128| edges.contains_key(k) && edge_fits(edges[k], n), |k: u128| edges[k])
}

/// Whether every edge joins ports that exist.
pub open spec fn ports_valid(g: GraphV) -> bool {
    forall|e: u128| #[trigger] g.edges.contains_key(e) ==> has_port(g, g.edges[e].source) && has_port(g, g.edges[e].target)
}

/// The error, if any, of requiring that a port exists.
pub open spec fn port_error(g: GraphV, p: PortRefV) -> Option<PatchErrorV> {
    if !g.nodes.contains_key(p.node_id) {
        Some(PatchErrorV::NodeNotFound(p.node_id))
    } else if !has_port(g, p) {
        Some(PatchErrorV::PortNotFound { node: p.node_id, port: p.port_name })
    } else {
        None
    }
}

/// An edge after a delta.
pub open spec fn edge_after(e: EdgeV, d: EdgeDeltaV) -> EdgeV {
    EdgeV {
        id: e.id,
        source: match d.source { Some(s) => s, None => e.source },
        target: match d.target { Some(t) => t, None => e.target },
        kind: match d.kind { Some(k) => k, None => e.kind },
    }
}

/// The graph after one operation, or the error it fails with.
pub open spec fn op_step(g: GraphV, op: OperationV) -> Result<GraphV, PatchErrorV> {
    match op {
        OperationV::AddNode(n) => if g.nodes.contains_key(n.id) {
            Err(PatchErrorV::NodeAlreadyExists(n.id))
        } else {
            Ok(GraphV { nodes: g.nodes.insert(n.id, n), ..g })
        },
        OperationV::RemoveNode(id) => if !g.nodes.contains_key(id) {
            Err(PatchErrorV::NodeNotFound(id))
        } else {
            Ok(GraphV { nodes: g.nodes.remove(id), edges: edges_without_node(g.edges, id), ..g })
        },
        OperationV::ReplaceNode(n) => if !g.nodes.contains_key(n.id) {
            Err(PatchErrorV::NodeNotFound(n.id))
        } else {
            Ok(GraphV { nodes: g.nodes.insert(n.id, n), edges: edges_fitting(g.edges, n), ..g })
        },
        OperationV::ModifyConfig { node_id, delta } => if !g.nodes.contains_key(node_id) {
            Err(PatchErrorV::NodeNotFound(node_id))
        } else {
            let n = g.nodes[node_id];
            Ok(GraphV { nodes: g.nodes.insert(node_id, NodeV { config: apply_delta(n.config, delta), ..n }), ..g })
        },
        OperationV::AddEdge(e) => if g.edges.contains_key(e.id) {
            Err(PatchErrorV::EdgeAlreadyExists(e.id))
        } else if port_error(g, e.source) is Some {
            Err(port_error(g, e.source).unwrap())
        } else if port_error(g, e.target) is Some {
            Err(port_error(g, e.target).unwrap())
        } else {
            Ok(GraphV { edges: g.edges.insert(e.id, e), ..g })
        },
        OperationV::RemoveEdge(id) => if !g.edges.contains_key(id) {
            Err(PatchErrorV::EdgeNotFound(id))
        } else {
            Ok(GraphV { edges: g.edges.remove(id), ..g })
        },
        OperationV::ModifyEdge { edge_id, delta } => if delta.source is Some && port_error(g, delta.source.unwrap()) is Some {
            Err(port_error(g, delta.source.unwrap()).unwrap())
        } else if delta.target is Some && port_error(g, delta.target.unwrap()) is Some {
            Err(port_error(g, delta.target.unwrap()).unwrap())
        } else if !g.edges.contains_key(edge_id) {
            Err(PatchErrorV::EdgeNotFound(edge_id))
        } else {
            Ok(GraphV { edges: g.edges.insert(edge_id, edge_after(g.edges[edge_id], delta)), ..g })
        },
        OperationV::AddModulation(m) => Ok(GraphV { modulations: g.modulations.insert(m.id, m), ..g }),
        OperationV::RemoveModulation(id) => Ok(GraphV { modulations: g.modulations.remove(id), ..g }),
    }
}

/// Runs operations in order; stops at the first failure. Returns the graph
/// reached and the error, if one occurred.
pub open spec fn run_ops(g: GraphV, ops: Seq<OperationV>) -> (GraphV, Option<PatchErrorV>)
    decreases ops.len(),
{
    if ops.len() == 0 {
        (g, None)
    } else {
        match op_step(g, ops[0]) {
            Err(e) => (g, Some(e)),
            Ok(g2) => run_ops(g2, ops.drop_first()),
        }
    }
}

/// A content hash (BLAKE3).
pub type Hash = [u8; 32];

/// A patch: the unit of change. Parents form a DAG (merges have several).
#[derive(Debug, Clone, PartialEq)]
pub struct Patch {
    pub identity: PatchId,
    pub operations: Vec<Operation>,
    pub intent_ref: Option<IntentId>,
    pub deterministic_hash: Hash,
    pub parents: Vec<PatchId>,
    pub timestamp: Timestamp,
    pub source: PatchSource,
    pub trust: TrustLevel,
}

pub struct PatchV {
    pub identity: u128,
    pub operations: Seq<OperationV>,
    pub intent_ref: Option<u128>,
    pub hash: Seq<u8>,
    pub parents: Seq<u128>,
    pub timestamp: i64,
    pub source: PatchSourceV,
    pub trust: TrustLevel,
}

impl View for Patch {
    type V = PatchV;

    open spec fn view(&self) -> PatchV {
        PatchV {
            identity: self.identity.0,
            operations: crate::ir::seq_model(self.operations@),
            intent_ref: match self.intent_ref {
                Some(i) => Some(i.0),
                None => None,
            },
            hash: self.deterministic_hash@,
            parents: self.parents@.map_values(|p: PatchId| p.0),
            timestamp: self.timestamp.0,
            source: self.source@,
            trust: self.trust,
        }
    }
}

/// Hash stability: the stored hash is the digest of the patch's content.
pub open spec fn hash_matches(p: PatchV) -> bool {
    p.hash == patch_digest(p.operations, p.intent_ref, p.parents)
}

impl Operation {
    /// A copy of this operation.
    pub fn duplicate(&self) -> (r: Self)
        ensures
            r@ == self@,
    {
        match self {
            Operation::AddNode(n) => Operation::AddNode(n.duplicate()),
            Operation::RemoveNode(id) => Operation::RemoveNode(*id),
            Operation::ReplaceNode(n) => Operation::ReplaceNode(n.duplicate()),
            Operation::ModifyConfig { node_id, delta } => Operation::ModifyConfig { node_id: *node_id, delta: delta.duplicate() },
            Operation::AddEdge(e) => Operation::AddEdge(e.duplicate()),
            Operation::RemoveEdge(id) => Operation::RemoveEdge(*id),
            Operation::ModifyEdge { edge_id, delta } => Operation::ModifyEdge { edge_id: *edge_id, delta: delta.duplicate() },
            Operation::AddModulation(m) => Operation::AddModulation(m.duplicate()),
            Operation::RemoveModulation(id) => Operation::RemoveModulation(*id),
        }
    }
}

fn ops_duplicate(v: &Vec<Operation>) -> (r: Vec<Operation>)
    ensures
        crate::ir::seq_model(r@) == crate::ir::seq_model(v@),
{
    let mut out: Vec<Operation> = Vec::new();
    let mut i: usize = 0;
    while i < v.len()
        invariant
            i <= v@.len(),
            out@.len() == i,
            forall|j: int| 0 <= j < i ==> (#[trigger] out@[j])@ == v@[j]@,
        decreases v@.len() - i,
    {
        out.push(v[i].duplicate());
        i += 1;
    }
    assert(crate::ir::seq_model(out@) =~= crate::ir::seq_model(v@));
    out
}

/// Whether two digests are equal, byte for byte.
pub fn digest_eq(a: &[u8; 32], b: &[u8; 32]) -> (r: bool)
    ensures
        r == (a@ == b@),
{
    let mut i: usize = 0;
    while i < 32
        invariant
            i <= 32,
            a@.len() == 32,
            b@.len() == 32,
            forall|j: int| 0 <= j < i ==> a@[j] == b@[j],
        decreases 32 - i,
    {
        if a[i] != b[i] {
            return false;
        }
        i += 1;
    }
    assert(a@ =~= b@);
    true
}

impl Patch {
    /// A patch of the given operations; its hash is computed from its content.
    pub fn from_operations(operations: Vec<Operation>) -> (p: Self)
        ensures
            p@.operations == crate::ir::seq_model(operations@),
            p@.intent_ref is None,
            p@.parents == Seq::<u128>::empty(),
            p@.source == PatchSourceV::System,
            p@.trust == TrustLevel::Trusted,
            p@.hash == patch_digest(p@.operations, None, Seq::empty()),
            hash_matches(p@),
    {
        let mut patch = Patch {
            identity: PatchId::new(),
            operations,
            intent_ref: None,
            deterministic_hash: [0u8; 32],
            parents: Vec::new(),
            timestamp: Timestamp::now(),
            source: PatchSource::System,
            trust: TrustLevel::Trusted,
        };
        assert(patch@.parents =~= Seq::<u128>::empty());
        patch.deterministic_hash = hash_patch(&patch);
        patch
    }

    /// A patch with an explicit source and trust level.
    pub fn from_operations_with_provenance(operations: Vec<Operation>, source: PatchSource, trust: TrustLevel) -> (p: Self)
        ensures
            p@.operations == crate::ir::seq_model(operations@),
            p@.intent_ref is None,
            p@.parents == Seq::<u128>::empty(),
            p@.source == source@,
            p@.trust == trust,
            p@.hash == patch_digest(p@.operations, None, Seq::empty()),
            hash_matches(p@),
    {
        let mut patch = Patch {
            identity: PatchId::new(),
            operations,
            intent_ref: None,
            deterministic_hash: [0u8; 32],
            parents: Vec::new(),
            timestamp: Timestamp::now(),
            source,
            trust,
        };
        assert(patch@.parents =~= Seq::<u128>::empty());
        patch.deterministic_hash = hash_patch(&patch);
        patch
    }

    /// Attaches an intent; the hash is recomputed, since the intent is content.
    pub fn with_intent(self, intent_id: IntentId) -> (p: Self)
        ensures
            p@ == (PatchV {
                intent_ref: Some(intent_id.0),
                hash: patch_digest(self@.operations, Some(intent_id.0), self@.parents),
                ..self@
            }),
            hash_matches(p@),
    {
        let mut p = self;
        p.intent_ref = Some(intent_id);
        p.deterministic_hash = hash_patch(&p);
        p
    }

    /// Sets the parent patches; the hash is recomputed, since lineage is content.
    pub fn with_parents(self, parents: Vec<PatchId>) -> (p: Self)
        ensures
            p@ == (PatchV {
                parents: parents@.map_values(|q: PatchId| q.0),
                hash: patch_digest(self@.operations, self@.intent_ref, parents@.map_values(|q: PatchId| q.0)),
                ..self@
            }),
            hash_matches(p@),
    {
        let mut p = self;
        p.parents = parents;
        p.deterministic_hash = hash_patch(&p);
        p
    }

    /// Whether the stored hash matches the content.
    pub fn verify_hash(&self) -> (b: bool)
        ensures
            b == hash_matches(self@),
    {
        let computed = hash_patch(self);
        digest_eq(&computed, &self.deterministic_hash)
    }

    /// A copy of this patch.
    pub fn duplicate(&self) -> (r: Self)
        ensures
            r@ == self@,
    {
        let mut parents: Vec<PatchId> = Vec::new();
        let mut i: usize = 0;
        while i < self.parents.len()
            invariant
                i <= self.parents@.len(),
                parents@ =~= self.parents@.take(i as int),
            decreases self.parents@.len() - i,
        {
            parents.push(self.parents[i]);
            i += 1;
        }
        assert(self.parents@.take(self.parents@.len() as int) =~= self.parents@);
        Patch {
            identity: self.identity,
            operations: ops_duplicate(&self.operations),
            intent_ref: self.intent_ref,
            deterministic_hash: self.deterministic_hash,
            parents,
            timestamp: self.timestamp,
            source: self.source.duplicate(),
            trust: self.trust,
        }
    }
}

/// The graph after a patch, and the error if the patch failed. A patch is
/// atomic: on success the revision advances and the patch joins the
/// history; on failure the graph is left as it was.
pub open spec fn apply_patch(g: GraphV, p: PatchV) -> (GraphV, Option<PatchErrorV>) {
    let (g2, err) = run_ops(g, p.operations);
    if err is None {
        (GraphV { revision: (g2.revision + 1) as u64, applied: g2.applied.push(p.identity), ..g2 }, None)
    } else {
        (g, err)
    }
}

/// The empty graph at revision zero.
pub open spec fn empty_graph() -> GraphV {
    GraphV {
        nodes: Map::empty(),
        edges: Map::empty(),
        modulations: Map::empty(),
        revision: 0,
        applied: Seq::empty(),
    }
}

/// Applies patches in order, from `g`.
pub open spec fn replay_from(g: GraphV, ps: Seq<PatchV>) -> Result<GraphV, PatchErrorV>
    decreases ps.len(),
{
    if ps.len() == 0 {
        Ok(g)
    } else {
        let (g2, err) = apply_patch(g, ps[0]);
        match err {
            Some(e) => Err(e),
            None => replay_from(g2, ps.drop_first()),
        }
    }
}

/// Operations never touch the revision or the history.
pub proof fn lemma_run_ops_keeps_history(g: GraphV, ops: Seq<OperationV>)
    ensures
        run_ops(g, ops).0.revision == g.revision,
        run_ops(g, ops).0.applied == g.applied,
    decreases ops.len(),
{
    if ops.len() > 0 {
        match op_step(g, ops[0]) {
            Ok(g2) => lemma_run_ops_keeps_history(g2, ops.drop_first()),
            Err(_) => {},
        }
    }
}

/// Replayability: replaying a list of patches and then one more is the
/// same as applying that patch to the replayed graph.
pub proof fn lemma_replay_push(g: GraphV, ps: Seq<PatchV>, p: PatchV)
    ensures
        replay_from(g, ps.push(p)) == (match replay_from(g, ps) {
            Ok(g1) => match apply_patch(g1, p) {
                (g2, None) => Ok(g2),
                (_, Some(e)) => Err(e),
            },
            Err(e) => Err(e),
        }),
    decreases ps.len(),
{
    if ps.len() == 0 {
        assert(ps.push(p).drop_first() =~= Seq::<PatchV>::empty());
        let (g2, err) = apply_patch(g, p);
        if err is None {
            assert(replay_from(g2, Seq::<PatchV>::empty()) == Ok::<GraphV, PatchErrorV>(g2));
        }
    } else {
        assert(ps.push(p)[0] == ps[0]);
        assert(ps.push(p).drop_first() =~= ps.drop_first().push(p));
        let (g2, err) = apply_patch(g, ps[0]);
        if err is None {
            lemma_replay_push(g2, ps.drop_first(), p);
        }
    }
}

/// Explainability: a successful replay records every patch, in order, and
/// advances the revision once per patch.
pub proof fn lemma_replay_explains(g: GraphV, ps: Seq<PatchV>)
    requires
        g.revision + ps.len() <= u64::MAX,
        replay_from(g, ps) is Ok,
    ensures
        replay_from(g, ps)->Ok_0.applied == g.applied + ps.map_values(|p: PatchV| p.identity),
        replay_from(g, ps)->Ok_0.revision == g.revision + ps.len(),
    decreases ps.len(),
{
    if ps.len() == 0 {
        assert(g.applied + ps.map_values(|p: PatchV| p.identity) =~= g.applied);
    } else {
        lemma_run_ops_keeps_history(g, ps[0].operations);
        let (g2, err) = apply_patch(g, ps[0]);
        lemma_replay_explains(g2, ps.drop_first());
        assert(g.applied + ps.map_values(|p: PatchV| p.identity)
            =~= g2.applied + ps.drop_first().map_values(|p: PatchV| p.identity));
    }
}

/// Patches applied one after another, as `Graph::apply` applies each: the
/// graph reached, or, at the first patch that fails, the graph before it and
/// that patch's error.
pub open spec fn apply_each(g: GraphV, ps: Seq<PatchV>) -> (GraphV, Option<PatchErrorV>)
    decreases ps.len(),
{
    if ps.len() == 0 {
        (g, None)
    } else {
        match apply_each(g, ps.drop_last()) {
            (h, Some(e)) => (h, Some(e)),
            (h, None) => apply_patch(h, ps.last()),
        }
    }
}

/// Replay is applying the patches one by one: replaying gives the graph
/// that applying each in turn reaches, or the error of the first patch
/// that fails; on success the revision has advanced once per patch and the
/// history holds the patches' identities in order.
pub proof fn lemma_replay_is_applying_each(g: GraphV, ps: Seq<PatchV>)
    ensures
        replay_from(g, ps) == (match apply_each(g, ps) {
            (h, None) => Ok::<GraphV, PatchErrorV>(h),
            (_, Some(e)) => Err(e),
        }),
        g.revision + ps.len() <= u64::MAX && apply_each(g, ps).1 is None ==> apply_each(g, ps).0.revision == g.revision + ps.len()
            && apply_each(g, ps).0.applied == g.applied + ps.map_values(|p: PatchV| p.identity),
    decreases ps.len(),
{
    if ps.len() > 0 {
        let init = ps.drop_last();
        lemma_replay_is_applying_each(g, init);
        lemma_replay_push(g, init, ps.last());
        assert(init.push(ps.last()) =~= ps);
    }
    if apply_each(g, ps).1 is None && g.revision + ps.len() <= u64::MAX {
        lemma_replay_explains(g, ps);
    }
}

/// A port reference stays valid when the node it names keeps its ports.
pub(crate) proof fn lemma_has_port_same_node(g: GraphV, h: GraphV, p: PortRefV)
    requires
        has_port(g, p),
        h.nodes.contains_key(p.node_id),
        h.nodes[p.node_id].ports == g.nodes[p.node_id].ports,
    ensures
        has_port(h, p),
{
    let i = choose|i: int| 0 <= i < g.nodes[p.node_id].ports.len() && #[trigger] g.nodes[p.node_id].ports[i].name == p.port_name;
    assert(h.nodes[p.node_id].ports[i].name == p.port_name);
}

/// Every operation that succeeds keeps every edge joined to existing ports.
pub proof fn lemma_op_step_ports_valid(g: GraphV, op: OperationV)
    requires
        ports_valid(g),
        op_step(g, op) is Ok,
    ensures
        ports_valid(op_step(g, op)->Ok_0),
{
    let h = op_step(g, op)->Ok_0;
    assert forall|e: u128| #[trigger] h.edges.contains_key(e) implies has_port(h, h.edges[e].source) && has_port(h, h.edges[e].target) by {
        match op {
            OperationV::AddEdge(x) => {
                if e != x.id {
                    assert(g.edges.contains_key(e));
                    lemma_has_port_same_node(g, h, g.edges[e].source);
                    lemma_has_port_same_node(g, h, g.edges[e].target);
                }
            },
            OperationV::ModifyEdge { edge_id, delta } => {
                assert(g.edges.contains_key(e));
                lemma_has_port_same_node(g, h, g.edges[e].source);
                lemma_has_port_same_node(g, h, g.edges[e].target);
            },
            OperationV::ReplaceNode(n) => {
                let x = g.edges[e];
                assert(g.edges.contains_key(e) && edge_fits(x, n));
                if x.source.node_id == n.id {
                    let i = choose|i: int| 0 <= i < n.ports.len() && #[trigger] n.ports[i].name == x.source.port_name;
                    assert(h.nodes[n.id].ports[i].name == x.source.port_name);
                } else {
                    lemma_has_port_same_node(g, h, x.source);
                }
                if x.target.node_id == n.id {
                    let i = choose|i: int| 0 <= i < n.ports.len() && #[trigger] n.ports[i].name == x.target.port_name;
                    assert(h.nodes[n.id].ports[i].name == x.target.port_name);
                } else {
                    lemma_has_port_same_node(g, h, x.target);
                }
            },
            _ => {
                assert(g.edges.contains_key(e) && g.edges[e] == h.edges[e]);
                lemma_has_port_same_node(g, h, g.edges[e].source);
                lemma_has_port_same_node(g, h, g.edges[e].target);
            },
        }
    }
}

proof fn lemma_run_ops_ports_valid(g: GraphV, ops: Seq<OperationV>)
    requires
        ports_valid(g),
    ensures
        ports_valid(run_ops(g, ops).0),
    decreases ops.len(),
{
    if ops.len() > 0 {
        match op_step(g, ops[0]) {
            Ok(g2) => {
                lemma_op_step_ports_valid(g, ops[0]);
                lemma_run_ops_ports_valid(g2, ops.drop_first());
            },
            Err(_) => {},
        }
    }
}

/// Applying a patch, whether it succeeds or fails, keeps every edge joined
/// to existing ports.
pub proof fn lemma_apply_ports_valid(g: GraphV, p: PatchV)
    requires
        ports_valid(g),
    ensures
        ports_valid(apply_patch(g, p).0),
{
    lemma_run_ops_ports_valid(g, p.operations);
    let g2 = run_ops(g, p.operations).0;
    let h = apply_patch(g, p).0;
    assert forall|e: u128| #[trigger] h.edges.contains_key(e) implies has_port(h, h.edges[e].source) && has_port(h, h.edges[e].target) by {
        if run_ops(g, p.operations).1 is None {
            assert(g2.edges.contains_key(e));
            lemma_has_port_same_node(g2, h, g2.edges[e].source);
            lemma_has_port_same_node(g2, h, g2.edges[e].target);
        }
    }
}

/// Explainability: when the revision counts the applied patches, it still
/// does after a patch is applied, whether it succeeds or fails.
pub proof fn lemma_apply_counts_history(g: GraphV, p: PatchV)
    requires
        g.revision == g.applied.len(),
        g.revision < u64::MAX,
    ensures
        apply_patch(g, p).0.revision == apply_patch(g, p).0.applied.len(),
        apply_patch(g, p).1 is None ==> apply_patch(g, p).0.applied == g.applied.push(p.identity),
        apply_patch(g, p).1 is Some ==> apply_patch(g, p).0 == g,
{
    lemma_run_ops_keeps_history(g, p.operations);
}

/// Every operation keeps each node and each edge under its own identifier.
pub proof fn lemma_op_step_well_keyed(g: GraphV, op: OperationV)
    requires
        crate::diff::well_keyed(g),
        op_step(g, op) is Ok,
    ensures
        crate::diff::well_keyed(op_step(g, op)->Ok_0),
{
}

/// Replaying patches from a well-keyed graph (the empty one, say) gives a
/// well-keyed graph.
pub proof fn lemma_replay_well_keyed(g: GraphV, ps: Seq<PatchV>)
    requires
        crate::diff::well_keyed(g),
        replay_from(g, ps) is Ok,
    ensures
        crate::diff::well_keyed(replay_from(g, ps)->Ok_0),
    decreases ps.len(),
{
    if ps.len() > 0 {
        lemma_run_ops_well_keyed(g, ps[0].operations);
        let (g2, err) = apply_patch(g, ps[0]);
        lemma_replay_well_keyed(g2, ps.drop_first());
    }
}

proof fn lemma_run_ops_well_keyed(g: GraphV, ops: Seq<OperationV>)
    requires
        crate::diff::well_keyed(g),
    ensures
        crate::diff::well_keyed(run_ops(g, ops).0),
    decreases ops.len(),
{
    if ops.len() > 0 {
        match op_step(g, ops[0]) {
            Ok(g2) => {
                lemma_op_step_well_keyed(g, ops[0]);
                lemma_run_ops_well_keyed(g2, ops.drop_first());
            },
            Err(_) => {},
        }
    }
}

// ── Graph mutation ──────────────────

impl Graph {
    fn require_port(&self, port_ref: &PortRef) -> (r: Result<(), PatchError>)
        ensures
            match port_error(self@, port_ref@) {
                Some(e) => r is Err && r->Err_0@ == e,
                None => r is Ok,
            },
    {
        match self.nodes.get(&port_ref.node_id.0) {
            None => Err(PatchError::NodeNotFound(port_ref.node_id)),
            Some(node) => {
                let found = ports_have(&node.ports, &port_ref.port_name);
                proof {
                    let nv = self@.nodes[port_ref.node_id.0];
                    assert(nv == node@);
                    if found {
                        let i = choose|i: int| 0 <= i < node.ports@.len() && #[trigger] node.ports@[i].name@ == port_ref.port_name@;
                        assert(nv.ports[i].name == port_ref.port_name@);
                    } else {
                        assert forall|i: int| 0 <= i < nv.ports.len() implies #[trigger] nv.ports[i].name != port_ref.port_name@ by {
                            assert(nv.ports[i] == node.ports@[i]@);
                        }
                    }
                }
                if !found {
                    Err(PatchError::PortNotFound { node: port_ref.node_id, port: port_ref.port_name.clone() })
                } else {
                    Ok(())
                }
            },
        }
    }

    fn remove_edges_touching(&mut self, id: u128)
        ensures
            final(self)@ == (GraphV { edges: edges_without_node(old(self)@.edges, id), ..old(self)@ }),
    {
        let keys = sorted_keys_of(&self.edges);
        let ghost orig = self.edges@;
        let mut i: usize = 0;
        while i < keys.len()
            invariant
                i <= keys@.len(),
                keys@.no_duplicates(),
                forall|k: u128| orig.contains_key(k) <==> keys@.contains(k),
                self.nodes == old(self).nodes,
                self.modulations == old(self).modulations,
                self.revision == old(self).revision,
                self.applied_patches == old(self).applied_patches,
                forall|k: u128| #[trigger] self.edges@.contains_key(k) <==> (orig.contains_key(k) && (
                    (exists|j: int| i <= j < keys@.len() && keys@[j] == k)
                    || (orig[k].source.node_id.0 != id && orig[k].target.node_id.0 != id))),
                forall|k: u128| #[trigger] self.edges@.contains_key(k) ==> self.edges@[k] == orig[k],
            decreases keys@.len() - i,
        {
            let k = keys[i];
            let touches = match self.edges.get(&k) {
                Some(e) => e.source.node_id.0 == id || e.target.node_id.0 == id,
                None => false,
            };
            if touches {
                self.edges.remove(&k);
            }
            proof {
                assert forall|kk: u128| #[trigger] self.edges@.contains_key(kk) <==> (orig.contains_key(kk) && (
                    (exists|j: int| i + 1 <= j < keys@.len() && keys@[j] == kk)
                    || (orig[kk].source.node_id.0 != id && orig[kk].target.node_id.0 != id))) by {
                    if kk == k {
                        assert(keys@[i as int] == kk);
                        assert forall|j: int| i + 1 <= j < keys@.len() implies keys@[j] != kk by {
                            assert(keys@[i as int] != keys@[j]);
                        }
                    } else {
                        if exists|j: int| i <= j < keys@.len() && keys@[j] == kk {
                            let j = choose|j: int| i <= j < keys@.len() && keys@[j] == kk;
                            assert(j != i);
                        }
                    }
                }
            }
            i += 1;
        }
        proof {
            let target = edges_without_node(old(self)@.edges, id);
            assert(self@.edges =~= target);
            assert(self@.nodes =~= old(self)@.nodes);
            assert(self@.modulations =~= old(self)@.modulations);
            assert(self@.applied =~= old(self)@.applied);
        }
    }

    /// Removes the edges that cannot stay when `node` replaces the node of
    /// its identifier.
    fn remove_edges_unfit(&mut self, node: &Node)
        ensures
            final(self)@ == (GraphV { edges: edges_fitting(old(self)@.edges, node@), ..old(self)@ }),
    {
        let keys = sorted_keys_of(&self.edges);
        let ghost orig = self.edges@;
        let ghost n = node@;
        let mut i: usize = 0;
        while i < keys.len()
            invariant
                i <= keys@.len(),
                keys@.no_duplicates(),
                n == node@,
                forall|k: u128| orig.contains_key(k) <==> keys@.contains(k),
                self.nodes == old(self).nodes,
                self.modulations == old(self).modulations,
                self.revision == old(self).revision,
                self.applied_patches == old(self).applied_patches,
                forall|k: u128| #[trigger] self.edges@.contains_key(k) <==> (orig.contains_key(k) && (
                    (exists|j: int| i <= j < keys@.len() && keys@[j] == k) || edge_fits(orig[k]@, n))),
                forall|k: u128| #[trigger] self.edges@.contains_key(k) ==> self.edges@[k] == orig[k],
            decreases keys@.len() - i,
        {
            let k = keys[i];
            let unfit = match self.edges.get(&k) {
                Some(e) => (e.source.node_id.0 == node.id.0 && !ports_have(&node.ports, &e.source.port_name))
                    || (e.target.node_id.0 == node.id.0 && !ports_have(&node.ports, &e.target.port_name)),
                None => false,
            };
            proof {
                if self.edges@.contains_key(k) {
                    let e = orig[k]@;
                    assert(n.ports.len() == node.ports@.len());
                    assert(forall|j: int| 0 <= j < n.ports.len() ==> #[trigger] n.ports[j] == node.ports@[j]@);
                    assert forall|name: Seq<char>| node_has_port(n, name) <==> (exists|j: int| 0 <= j < node.ports@.len() && #[trigger] node.ports@[j].name@ == name) by {
                        if node_has_port(n, name) {
                            let j = choose|j: int| 0 <= j < n.ports.len() && #[trigger] n.ports[j].name == name;
                            assert(node.ports@[j].name@ == name);
                        }
                        if exists|j: int| 0 <= j < node.ports@.len() && #[trigger] node.ports@[j].name@ == name {
                            let j = choose|j: int| 0 <= j < node.ports@.len() && #[trigger] node.ports@[j].name@ == name;
                            assert(n.ports[j].name == name);
                        }
                    }
                    assert(unfit == !edge_fits(e, n));
                }
            }
            if unfit {
                self.edges.remove(&k);
            }
            proof {
                assert forall|kk: u128| #[trigger] self.edges@.contains_key(kk) <==> (orig.contains_key(kk) && (
                    (exists|j: int| i + 1 <= j < keys@.len() && keys@[j] == kk) || edge_fits(orig[kk]@, n))) by {
                    if kk == k {
                        assert(keys@[i as int] == kk);
                        assert forall|j: int| i + 1 <= j < keys@.len() implies keys@[j] != kk by {
                            assert(keys@[i as int] != keys@[j]);
                        }
                    } else {
                        if exists|j: int| i <= j < keys@.len() && keys@[j] == kk {
                            let j = choose|j: int| i <= j < keys@.len() && keys@[j] == kk;
                            assert(j != i);
                        }
                    }
                }
            }
            i += 1;
        }
        proof {
            let target = edges_fitting(old(self)@.edges, n);
            assert(self@.edges =~= target);
            assert(self@.nodes =~= old(self)@.nodes);
            assert(self@.modulations =~= old(self)@.modulations);
            assert(self@.applied =~= old(self)@.applied);
        }
    }

    /// Applies a patch atomically: its operations in order, then advances the
    /// revision and records the patch. At the first failing operation the
    /// graph is restored and the error returned.
    pub fn apply(&mut self, patch: &Patch) -> (r: Result<(), PatchError>)
        requires
            old(self).revision.0 < u64::MAX,
        ensures
            match apply_patch(old(self)@, patch@) {
                (g, None) => r is Ok && final(self)@ == g,
                (g, Some(e)) => r is Err && r->Err_0@ == e && final(self)@ == g,
            },
            r is Err ==> final(self)@ == old(self)@,
    {
        let ghost ops = patch@.operations;
        let saved = self.snapshot();
        proof {
            assert(ops.skip(0) =~= ops);
        }
        let mut i: usize = 0;
        while i < patch.operations.len()
            invariant
                ops == patch@.operations,
                i <= ops.len(),
                saved@ == old(self)@,
                run_ops(old(self)@, ops) == run_ops(self@, ops.skip(i as int)),
            decreases ops.len() - i,
        {
            let ghost before = self@;
            let res = self.apply_operation(&patch.operations[i]);
            proof {
                assert(ops.skip(i as int)[0] == patch.operations@[i as int]@);
                assert(ops.skip(i as int).drop_first() =~= ops.skip(i + 1));
            }
            match res {
                Ok(()) => {},
                Err(e) => {
                    *self = saved;
                    return Err(e);
                },
            }
            i += 1;
        }
        proof {
            assert(ops.skip(ops.len() as int) =~= Seq::<OperationV>::empty());
            lemma_run_ops_keeps_history(old(self)@, ops);
        }
        self.revision = self.revision.next();
        self.applied_patches.push(patch.identity);
        proof {
            assert(self@.applied =~= old(self)@.applied.push(patch.identity.0));
        }
        Ok(())
    }

    /// Rebuilds a graph from the empty graph by applying patches in order.
    pub fn replay(patches: &[Patch]) -> (r: Result<Graph, PatchError>)
        requires
            patches@.len() < u64::MAX,
        ensures
            match replay_from(empty_graph(), crate::ir::seq_model(patches@)) {
                Ok(g) => r is Ok && r->Ok_0@ == g,
                Err(e) => r is Err && r->Err_0@ == e,
            },
    {
        let ghost ps = crate::ir::seq_model(patches@);
        let mut graph = Graph::new();
        proof {
            assert(graph@ =~= empty_graph());
            assert(ps.skip(0) =~= ps);
        }
        let mut i: usize = 0;
        while i < patches.len()
            invariant
                ps == crate::ir::seq_model(patches@),
                patches@.len() < u64::MAX,
                i <= patches@.len(),
                graph.revision.0 == i,
                replay_from(empty_graph(), ps) == replay_from(graph@, ps.skip(i as int)),
            decreases patches@.len() - i,
        {
            let ghost before = graph@;
            proof {
                lemma_run_ops_keeps_history(before, patches@[i as int]@.operations);
            }
            let res = graph.apply(&patches[i]);
            proof {
                assert(ps.skip(i as int)[0] == patches@[i as int]@);
                assert(ps.skip(i as int).drop_first() =~= ps.skip(i + 1));
            }
            match res {
                Ok(()) => {},
                Err(e) => {
                    return Err(e);
                },
            }
            i += 1;
        }
        proof {
            assert(ps.skip(patches@.len() as int) =~= Seq::<PatchV>::empty());
        }
        Ok(graph)
    }

    /// Replays patches, then checks that the graph's hash is the expected one.
    pub fn replay_and_verify(patches: &[Patch], expected_hash: &Hash) -> (r: Result<Graph, PatchError>)
        requires
            patches@.len() < u64::MAX,
        ensures
            match replay_from(empty_graph(), crate::ir::seq_model(patches@)) {
                Ok(g) => if graph_digest(g) == expected_hash@ {
                    r is Ok && r->Ok_0@ == g
                } else {
                    r is Err && r->Err_0@ == (PatchErrorV::HashMismatch {
                        expected: hex_seq(expected_hash@),
                        actual: hex_seq(graph_digest(g)),
                    })
                },
                Err(e) => r is Err && r->Err_0@ == e,
            },
    {
        let graph = Graph::replay(patches)?;
        let actual = hash_graph(&graph);
        if !digest_eq(&actual, expected_hash) {
            return Err(PatchError::HashMismatch {
                expected: hex_encode(expected_hash),
                actual: hex_encode(&actual),
            });
        }
        Ok(graph)
    }

    /// Applies one operation.
    pub fn apply_operation(&mut self, op: &Operation) -> (r: Result<(), PatchError>)
        ensures
            match op_step(old(self)@, op@) {
                Ok(g) => r is Ok && final(self)@ == g,
                Err(e) => r is Err && r->Err_0@ == e && final(self)@ == old(self)@,
            },
    {
        match op {
            Operation::AddNode(node) => {
                if self.nodes.contains_key(&node.id.0) {
                    return Err(PatchError::NodeAlreadyExists(node.id));
                }
                self.nodes.insert(node.id.0, node.duplicate());
                proof {
                    assert(self@.nodes =~= old(self)@.nodes.insert(node.id.0, node@));
                }
            },
            Operation::RemoveNode(id) => {
                if self.nodes.remove(&id.0).is_none() {
                    assert(self.nodes@ =~= old(self).nodes@);
                    return Err(PatchError::NodeNotFound(*id));
                }
                proof {
                    assert(self@.nodes =~= old(self)@.nodes.remove(id.0));
                }
                self.remove_edges_touching(id.0);
            },
            Operation::ReplaceNode(node) => {
                if !self.nodes.contains_key(&node.id.0) {
                    return Err(PatchError::NodeNotFound(node.id));
                }
                self.remove_edges_unfit(node);
                self.nodes.insert(node.id.0, node.duplicate());
                proof {
                    assert(self@.nodes =~= old(self)@.nodes.insert(node.id.0, node@));
                }
            },
            Operation::ModifyConfig { node_id, delta } => {
                let mut node = match self.nodes.remove(&node_id.0) {
                    Some(n) => n,
                    None => {
                        assert(self.nodes@ =~= old(self).nodes@);
                        return Err(PatchError::NodeNotFound(*node_id));
                    },
                };
                let ghost orig = node@;
                let n = delta.len();
                let mut i: usize = 0;
                while i < n
                    invariant
                        n == delta.pairs().len(),
                        i <= n,
                        node@ == (NodeV { config: delta_fold(orig.config, delta.pairs().take(i as int)), ..orig }),
                    decreases n - i,
                {
                    let (key, change) = delta.entry(i);
                    match &change.new {
                        Some(val) => {
                            node.config.insert(key.clone(), val.duplicate());
                        },
                        None => {
                            node.config.remove(key.as_str());
                        },
                    }
                    proof {
                        assert(delta.pairs().take(i + 1).drop_last() =~= delta.pairs().take(i as int));
                    }
                    i += 1;
                }
                proof {
                    assert(delta.pairs().take(n as int) =~= delta.pairs());
                    lemma_delta_fold(orig.config, delta.pairs());
                }
                self.nodes.insert(node_id.0, node);
                proof {
                    assert(self@.nodes =~= old(self)@.nodes.insert(node_id.0, NodeV { config: apply_delta(orig.config, delta@), ..orig }));
                }
            },
            Operation::AddEdge(edge) => {
                if self.edges.contains_key(&edge.id.0) {
                    return Err(PatchError::EdgeAlreadyExists(edge.id));
                }
                self.require_port(&edge.source)?;
                self.require_port(&edge.target)?;
                self.edges.insert(edge.id.0, edge.duplicate());
                proof {
                    assert(self@.edges =~= old(self)@.edges.insert(edge.id.0, edge@));
                }
            },
            Operation::RemoveEdge(id) => {
                if self.edges.remove(&id.0).is_none() {
                    assert(self.edges@ =~= old(self).edges@);
                    return Err(PatchError::EdgeNotFound(*id));
                }
                proof {
                    assert(self@.edges =~= old(self)@.edges.remove(id.0));
                }
            },
            Operation::ModifyEdge { edge_id, delta } => {
                if let Some(src) = &delta.source {
                    self.require_port(src)?;
                }
                if let Some(tgt) = &delta.target {
                    self.require_port(tgt)?;
                }
                let mut edge = match self.edges.remove(&edge_id.0) {
                    Some(e) => e,
                    None => {
                        assert(self.edges@ =~= old(self).edges@);
                        return Err(PatchError::EdgeNotFound(*edge_id));
                    },
                };
                if let Some(src) = &delta.source {
                    edge.source = src.duplicate();
                }
                if let Some(tgt) = &delta.target {
                    edge.target = tgt.duplicate();
                }
                if let Some(k) = delta.kind {
                    edge.kind = k;
                }
                self.edges.insert(edge_id.0, edge);
                proof {
                    let ov = old(self)@.edges[edge_id.0];
                    assert(self@.edges =~= old(self)@.edges.insert(edge_id.0, edge_after(ov, delta@)));
                }
            },
            Operation::AddModulation(m) => {
                self.modulations.insert(m.id.0, m.duplicate());
                proof {
                    assert(self@.modulations =~= old(self)@.modulations.insert(m.id.0, m@));
                }
            },
            Operation::RemoveModulation(id) => {
                self.modulations.remove(&id.0);
                proof {
                    assert(self@.modulations =~= old(self)@.modulations.remove(id.0));
                }
            },
        }
        Ok(())
    }
}


// ── Patch sets ──────────────────

/// An ordered collection of patches.
#[derive(Debug, Clone, PartialEq)]
pub struct PatchSet {
    pub patches: Vec<Patch>,
}

fn patches_duplicate(v: &Vec<Patch>) -> (r: Vec<Patch>)
    ensures
        crate::ir::seq_model(r@) == crate::ir::seq_model(v@),
{
    let mut out: Vec<Patch> = Vec::new();
    let mut i: usize = 0;
    while i < v.len()
        invariant
            i <= v@.len(),
            out@.len() == i,
            forall|j: int| 0 <= j < i ==> (#[trigger] out@[j])@ == v@[j]@,
        decreases v@.len() - i,
    {
        out.push(v[i].duplicate());
        i += 1;
    }
    assert(crate::ir::seq_model(out@) =~= crate::ir::seq_model(v@));
    out
}

impl PatchSet {
    pub fn new() -> (r: Self)
        ensures
            r.patches@.len() == 0,
    {
        PatchSet { patches: Vec::new() }
    }

    pub fn single(patch: Patch) -> (r: Self)
        ensures
            r.patches@ == seq![patch],
    {
        let mut patches = Vec::new();
        patches.push(patch);
        assert(patches@ =~= seq![patch]);
        PatchSet { patches }
    }

    /// Sequential composition: this set's patches, then the other's.
    pub fn merge(&self, other: &PatchSet) -> (r: Result<PatchSet, PatchError>)
        ensures
            r is Ok,
            crate::ir::seq_model(r->Ok_0.patches@) == crate::ir::seq_model(self.patches@) + crate::ir::seq_model(other.patches@),
    {
        let mut merged = patches_duplicate(&self.patches);
        let ghost first = crate::ir::seq_model(merged@);
        let mut i: usize = 0;
        while i < other.patches.len()
            invariant
                i <= other.patches@.len(),
                crate::ir::seq_model(merged@) == first + crate::ir::seq_model(other.patches@).take(i as int),
            decreases other.patches@.len() - i,
        {
            let ghost prev = merged@;
            let p = other.patches[i].duplicate();
            merged.push(p);
            proof {
                assert(merged@ == prev.push(p));
                assert(crate::ir::seq_model(merged@) =~= crate::ir::seq_model(prev).push(p@));
                assert(crate::ir::seq_model(other.patches@).take(i + 1) =~= crate::ir::seq_model(other.patches@).take(i as int).push(p@));
            }
            i += 1;
            assert(crate::ir::seq_model(merged@) =~= first + crate::ir::seq_model(other.patches@).take(i as int));
        }
        assert(crate::ir::seq_model(other.patches@).take(other.patches@.len() as int) =~= crate::ir::seq_model(other.patches@));
        Ok(PatchSet { patches: merged })
    }

    pub fn is_empty(&self) -> (b: bool)
        ensures
            b == (self.patches@.len() == 0),
    {
        self.patches.len() == 0
    }

    pub fn len(&self) -> (n: usize)
        ensures
            n == self.patches@.len(),
    {
        self.patches.len()
    }
}

} // verus!
