//! The canonical graph: nodes, edges and modulations keyed by identifier.
use vstd::prelude::*;
use std::collections::BTreeMap;
use crate::ids::{PatchId, Revision, StableId};
use crate::keyed::Model;
use crate::text::{key_lt, owned};
use crate::types::{
    ConfidenceScore, ConfigSnapshot, ConfigValue, ConfigValueV, DataType, ExecutionDomain, MetadataRef,
    NodeKind, NodeKindV, PortDirection, PortRef, PortRefV, TypedPort, TypedPortV,
};

verus! {

broadcast use {vstd::std_specs::btree::group_btree_axioms, vstd::laws_cmp::group_laws_cmp};

/// The type of connection between ports.
#[derive(Debug, Clone, Copy, PartialEq, Eq, Structural, Hash)]
pub enum EdgeKind {
    /// Feed-forward connection (causal dependency).
    Normal,
    /// Feedback connection (one-sample delay; exempt from the acyclicity rule).
    Feedback,
}

/// The models of a sequence of values.
pub open spec fn seq_model<T: View>(s: Seq<T>) -> Seq<T::V> {
    Seq::new(s.len(), |i: int| s[i]@)
}

pub proof fn lemma_seq_model_push<T: View>(s: Seq<T>, x: T)
    ensures
        seq_model(s.push(x)) == seq_model(s).push(x@),
{
    assert(seq_model(s.push(x)) =~= seq_model(s).push(x@));
}

/// A node of the graph.
#[derive(Debug, Clone, PartialEq)]
pub struct Node {
    pub id: StableId,
    pub kind: NodeKind,
    pub ports: Vec<TypedPort>,
    pub config: ConfigSnapshot,
    pub metadata: MetadataRef,
    pub confidence: ConfidenceScore,
}

pub struct NodeV {
    pub id: u128,
    pub kind: NodeKindV,
    pub ports: Seq<TypedPortV>,
    pub config: Map<Seq<char>, ConfigValueV>,
    pub metadata: MetadataRef,
    pub confidence: ConfidenceScore,
}

impl View for Node {
    type V = NodeV;

    open spec fn view(&self) -> NodeV {
        NodeV {
            id: self.id.0,
            kind: self.kind@,
            ports: seq_model(self.ports@),
            config: self.config@,
            metadata: self.metadata,
            confidence: self.confidence,
        }
    }
}

pub fn vec_duplicate<T: Model>(v: &Vec<T>) -> (r: Vec<T>)
    ensures
        seq_model(r@) == seq_model(v@),
{
    let mut out: Vec<T> = Vec::new();
    let mut i: usize = 0;
    while i < v.len()
        invariant
            i <= v@.len(),
            out@.len() == i,
            forall|j: int| 0 <= j < i ==> (#[trigger] out@[j])@ == v@[j]@,
        decreases v@.len() - i,
    {
        out.push(v[i].duplicate());
        i += 1;
    }
    assert(seq_model(out@) =~= seq_model(v@));
    out
}

impl Node {
    /// A copy of this node.
    pub fn duplicate(&self) -> (r: Self)
        ensures
            r@ == self@,
    {
        Node {
            id: self.id,
            kind: self.kind.duplicate(),
            ports: vec_duplicate(&self.ports),
            config: self.config.duplicate(),
            metadata: self.metadata,
            confidence: self.confidence,
        }
    }
}

/// A stereo audio port in the sample domain.
pub open spec fn audio_port(name: Seq<char>, direction: PortDirection, channels: u32) -> TypedPortV {
    TypedPortV { name, direction, domain: ExecutionDomain::Sample, data_type: DataType::Audio { channels } }
}

fn make_port(name: &str, direction: PortDirection, channels: u32) -> (p: TypedPort)
    ensures
        p@ == audio_port(name@, direction, channels),
{
    TypedPort { name: owned(name), direction, domain: ExecutionDomain::Sample, data_type: DataType::Audio { channels } }
}

/// A configuration holding only `name`.
pub fn named_config(name: &str) -> (c: ConfigSnapshot)
    ensures
        c.pairs() == seq![("name"@, ConfigValueV::Str(name@))],
        c@ == Map::empty().insert("name"@, ConfigValueV::Str(name@)),
{
    let mut c = ConfigSnapshot::new();
    c.insert(owned("name"), ConfigValue::String(owned(name)));
    c
}


/// The model of a node whose configuration holds only `name`.
pub open spec fn fresh_node(id: u128, kind: NodeKindV, ports: Seq<TypedPortV>, name: Seq<char>) -> NodeV {
    NodeV {
        id,
        kind,
        ports,
        config: Map::empty().insert("name"@, ConfigValueV::Str(name)),
        metadata: MetadataRef(None),
        confidence: ConfidenceScore::Verified,
    }
}

/// Stereo input then stereo output.
pub open spec fn io_ports() -> Seq<TypedPortV> {
    seq![audio_port("in"@, PortDirection::Input, 2), audio_port("out"@, PortDirection::Output, 2)]
}

fn io_port_vec() -> (v: Vec<TypedPort>)
    ensures
        seq_model(v@) == io_ports(),
{
    let mut v = Vec::new();
    v.push(make_port("in", PortDirection::Input, 2));
    v.push(make_port("out", PortDirection::Output, 2));
    assert(seq_model(v@) =~= io_ports());
    v
}

fn one_port_vec(name: &str, direction: PortDirection) -> (v: Vec<TypedPort>)
    ensures
        seq_model(v@) == seq![audio_port(name@, direction, 2)],
{
    let mut v = Vec::new();
    v.push(make_port(name, direction, 2));
    assert(seq_model(v@) =~= seq![audio_port(name@, direction, 2)]);
    v
}

impl Node {
    /// A processor with stereo audio input and output.
    pub fn new_processor(name: &str) -> (r: Self)
        ensures
            r@ == fresh_node(r.id.0, NodeKindV::Processor, io_ports(), name@),
    {
        Node {
            id: StableId::new(),
            kind: NodeKind::Processor,
            ports: io_port_vec(),
            config: named_config(name),
            metadata: MetadataRef(None),
            confidence: ConfidenceScore::Verified,
        }
    }

    /// A source (audio file, input device) with a stereo output.
    pub fn new_source(name: &str) -> (r: Self)
        ensures
            r@ == fresh_node(r.id.0, NodeKindV::Source, seq![audio_port("out"@, PortDirection::Output, 2)], name@),
    {
        Node {
            id: StableId::new(),
            kind: NodeKind::Source,
            ports: one_port_vec("out", PortDirection::Output),
            config: named_config(name),
            metadata: MetadataRef(None),
            confidence: ConfidenceScore::Verified,
        }
    }

    /// A sink (output, export target) with a stereo input.
    pub fn new_sink(name: &str) -> (r: Self)
        ensures
            r@ == fresh_node(r.id.0, NodeKindV::Sink, seq![audio_port("in"@, PortDirection::Input, 2)], name@),
    {
        Node {
            id: StableId::new(),
            kind: NodeKind::Sink,
            ports: one_port_vec("in", PortDirection::Input),
            config: named_config(name),
            metadata: MetadataRef(None),
            confidence: ConfidenceScore::Verified,
        }
    }

    /// A nested container; its configuration also holds an empty `graph_json`.
    pub fn new_subgraph(name: &str) -> (r: Self)
        ensures
            r@ == (NodeV {
                id: r.id.0,
                kind: NodeKindV::SubGraph,
                ports: io_ports(),
                config: Map::empty().insert("name"@, ConfigValueV::Str(name@)).insert("graph_json"@, ConfigValueV::Str("{}"@)),
                metadata: MetadataRef(None),
                confidence: ConfidenceScore::Verified,
            }),
    {
        let mut config = named_config(name);
        config.insert(owned("graph_json"), ConfigValue::String(owned("{}")));
        Node {
            id: StableId::new(),
            kind: NodeKind::SubGraph,
            ports: io_port_vec(),
            config,
            metadata: MetadataRef(None),
            confidence: ConfidenceScore::Verified,
        }
    }

    /// Bridge from the parent graph into a subgraph: a stereo output.
    pub fn new_input_proxy(name: &str) -> (r: Self)
        ensures
            r@ == fresh_node(r.id.0, NodeKindV::InputProxy, seq![audio_port("out"@, PortDirection::Output, 2)], name@),
    {
        Node {
            id: StableId::new(),
            kind: NodeKind::InputProxy,
            ports: one_port_vec("out", PortDirection::Output),
            config: named_config(name),
            metadata: MetadataRef(None),
            confidence: ConfidenceScore::Verified,
        }
    }

    /// Bridge from a subgraph back to the parent: a stereo input.
    pub fn new_output_proxy(name: &str) -> (r: Self)
        ensures
            r@ == fresh_node(r.id.0, NodeKindV::OutputProxy, seq![audio_port("in"@, PortDirection::Input, 2)], name@),
    {
        Node {
            id: StableId::new(),
            kind: NodeKind::OutputProxy,
            ports: one_port_vec("in", PortDirection::Input),
            config: named_config(name),
            metadata: MetadataRef(None),
            confidence: ConfidenceScore::Verified,
        }
    }
}

/// An edge connecting two ports.
#[derive(Debug, Clone, PartialEq)]
pub struct Edge {
    pub id: StableId,
    pub source: PortRef,
    pub target: PortRef,
    pub kind: EdgeKind,
}

pub struct EdgeV {
    pub id: u128,
    pub source: PortRefV,
    pub target: PortRefV,
    pub kind: EdgeKind,
}

impl View for Edge {
    type V = EdgeV;

    open spec fn view(&self) -> EdgeV {
        EdgeV { id: self.id.0, source: self.source@, target: self.target@, kind: self.kind }
    }
}

impl Model for Edge {
    fn duplicate(&self) -> (r: Self) {
        Edge { id: self.id, source: self.source.duplicate(), target: self.target.duplicate(), kind: self.kind }
    }

    fn same(&self, other: &Self) -> (r: bool) {
        self.id.0 == other.id.0 && self.source.same(&other.source) && self.target.same(&other.target)
            && self.kind == other.kind
    }
}

impl Edge {
    /// A causal edge between two ports, with a fresh identifier.
    pub fn new(source: PortRef, target: PortRef) -> (r: Self)
        ensures
            r.source == source,
            r.target == target,
            r.kind == EdgeKind::Normal,
    {
        Edge { id: StableId::new(), source, target, kind: EdgeKind::Normal }
    }

    /// A feedback edge (one-sample delay), with a fresh identifier.
    pub fn new_feedback(source: PortRef, target: PortRef) -> (r: Self)
        ensures
            r.source == source,
            r.target == target,
            r.kind == EdgeKind::Feedback,
    {
        Edge { id: StableId::new(), source, target, kind: EdgeKind::Feedback }
    }
}

/// A cable-less modulation of a parameter. The amount is the bit pattern
/// of an IEEE-754 single (`f32::to_bits`).
#[derive(Debug, Clone, PartialEq)]
pub struct Modulation {
    pub id: StableId,
    pub source: PortRef,
    pub target_node: StableId,
    pub target_param: String,
    pub amount: u32,
}

pub struct ModulationV {
    pub id: u128,
    pub source: PortRefV,
    pub target_node: u128,
    pub target_param: Seq<char>,
    pub amount: u32,
}

impl View for Modulation {
    type V = ModulationV;

    open spec fn view(&self) -> ModulationV {
        ModulationV {
            id: self.id.0,
            source: self.source@,
            target_node: self.target_node.0,
            target_param: self.target_param@,
            amount: self.amount,
        }
    }
}

impl Modulation {
    /// A modulation with a fresh identifier.
    pub fn new(source: PortRef, target_node: StableId, target_param: String, amount: u32) -> (r: Self)
        ensures
            r.source == source,
            r.target_node == target_node,
            r.target_param == target_param,
            r.amount == amount,
    {
        Modulation { id: StableId::new(), source, target_node, target_param, amount }
    }

    /// A copy of this modulation.
    pub fn duplicate(&self) -> (r: Self)
        ensures
            r@ == self@,
    {
        Modulation {
            id: self.id,
            source: self.source.duplicate(),
            target_node: self.target_node,
            target_param: self.target_param.clone(),
            amount: self.amount,
        }
    }
}

/// The canonical graph: the single source of truth, with its history.
#[derive(Debug, Clone, PartialEq)]
pub struct Graph {
    pub nodes: BTreeMap<u128, Node>,
    pub edges: BTreeMap<u128, Edge>,
    pub modulations: BTreeMap<u128, Modulation>,
    pub revision: Revision,
    /// Patches applied so far, in order.
    pub applied_patches: Vec<PatchId>,
}

pub struct GraphV {
    pub nodes: Map<u128, NodeV>,
    pub edges: Map<u128, EdgeV>,
    pub modulations: Map<u128, ModulationV>,
    pub revision: u64,
    pub applied: Seq<u128>,
}

impl View for Graph {
    type V = GraphV;

    open spec fn view(&self) -> GraphV {
        GraphV {
            nodes: self.nodes@.map_values(|n: Node| n@),
            edges: self.edges@.map_values(|e: Edge| e@),
            modulations: self.modulations@.map_values(|m: Modulation| m@),
            revision: self.revision.0,
            applied: self.applied_patches@.map_values(|p: PatchId| p.0),
        }
    }
}

/// Whether the graph has a node `p.node_id` with a port named `p.port_name`.
pub open spec fn has_port(g: GraphV, p: PortRefV) -> bool {
    g.nodes.contains_key(p.node_id) && exists|i: int|
        0 <= i < g.nodes[p.node_id].ports.len() && #[trigger] g.nodes[p.node_id].ports[i].name == p.port_name
}

/// Whether a port list has a port of the given name.
pub fn ports_have(ports: &Vec<TypedPort>, name: &String) -> (b: bool)
    ensures
        b == exists|i: int| 0 <= i < ports@.len() && #[trigger] ports@[i].name@ == name@,
{
    let mut i: usize = 0;
    while i < ports.len()
        invariant
            i <= ports@.len(),
            forall|j: int| 0 <= j < i ==> ports@[j].name@ != name@,
        decreases ports@.len() - i,
    {
        if ports[i].name == *name {
            return true;
        }
        i += 1;
    }
    false
}

impl Graph {
    /// An empty graph at revision zero.
    pub fn new() -> (g: Self)
        ensures
            g@.nodes == Map::<u128, NodeV>::empty(),
            g@.edges == Map::<u128, EdgeV>::empty(),
            g@.modulations == Map::<u128, ModulationV>::empty(),
            g@.revision == 0,
            g@.applied == Seq::<u128>::empty(),
    {
        let g = Graph {
            nodes: BTreeMap::new(),
            edges: BTreeMap::new(),
            modulations: BTreeMap::new(),
            revision: Revision::zero(),
            applied_patches: Vec::new(),
        };
        assert(g@.nodes =~= Map::<u128, NodeV>::empty());
        assert(g@.edges =~= Map::<u128, EdgeV>::empty());
        assert(g@.modulations =~= Map::<u128, ModulationV>::empty());
        assert(g@.applied =~= Seq::<u128>::empty());
        g
    }

    /// The node with the given identifier.
    pub fn node(&self, id: &StableId) -> (r: Option<&Node>)
        ensures
            match r {
                Some(n) => self.nodes@.contains_key(id.0) && *n == self.nodes@[id.0],
                None => !self.nodes@.contains_key(id.0),
            },
    {
        self.nodes.get(&id.0)
    }

    /// The edge with the given identifier.
    pub fn edge(&self, id: &StableId) -> (r: Option<&Edge>)
        ensures
            match r {
                Some(e) => self.edges@.contains_key(id.0) && *e == self.edges@[id.0],
                None => !self.edges@.contains_key(id.0),
            },
    {
        self.edges.get(&id.0)
    }

    /// Whether a port reference names an existing port.
    pub fn validate_port_ref(&self, port_ref: &PortRef) -> (b: bool)
        ensures
            b == has_port(self@, port_ref@),
    {
        match self.nodes.get(&port_ref.node_id.0) {
            Some(n) => {
                let b = ports_have(&n.ports, &port_ref.port_name);
                proof {
                    let nv = self@.nodes[port_ref.node_id.0];
                    assert(nv == n@);
                    if b {
                        let i = choose|i: int| 0 <= i < n.ports@.len() && #[trigger] n.ports@[i].name@ == port_ref.port_name@;
                        assert(nv.ports[i].name == port_ref.port_name@);
                    } else {
                        assert forall|i: int| 0 <= i < nv.ports.len() implies #[trigger] nv.ports[i].name != port_ref.port_name@ by {
                            assert(nv.ports[i] == n.ports@[i]@);
                        }
                    }
                }
                b
            },
            None => false,
        }
    }
}

} // verus!
