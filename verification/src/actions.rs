//! The user-facing action language: what people write ("add a processor
//! named Gain"), compiled into operations on the graph.
use vstd::prelude::*;
use std::collections::BTreeMap;
use crate::ids::{ulid_decode, ulid_text, StableId};
use crate::ir::{lemma_seq_model_push, seq_model, Edge, EdgeKind, EdgeV, Graph, GraphV, Modulation, ModulationV, Node, NodeV, audio_port};
use crate::keyed::{entries_of, pairs_map, Keyed, Model};
use crate::patch::{Operation, OperationV};
use crate::text::{key_equal, owned, push_str};
use crate::types::{
    config_list_model, config_table_model, ConfidenceScore, ConfigChange, ConfigChangeV, ConfigDelta, ConfigSnapshot,
    ConfigValue, ConfigValueV, DataType, ExecutionDomain, MetadataRef, NodeKind, NodeKindV, PortDirection, PortRef,
    PortRefV, TypedPort, TypedPortV,
};
use crate::walk::{gather, lemma_gather_grown, lemma_ordered_ids, ordered_ids, sorted_keys_of};

verus! {

broadcast use {vstd::std_specs::btree::group_btree_axioms, vstd::laws_cmp::group_laws_cmp};

// ── JSON values ──────────────────

/// A JSON value as the action language receives it. A number holds what
/// it reads as: the bit pattern of its `f64` reading, if it has one, and its
/// `i64` reading, if it has one.
#[derive(Debug, PartialEq)]
pub enum JsonValue {
    Null,
    Bool(bool),
    Number { as_f64: Option<u64>, as_i64: Option<i64> },
    String(String),
    Array(Vec<JsonValue>),
    Object(Vec<(String, JsonValue)>),
}

/// The configuration value a JSON value stands for, or why there is none.
/// Numbers become floats when they read as one; objects become tables in
/// key order, a later entry winning over an earlier one with the same key.
pub open spec fn json_config(v: JsonValue) -> Result<ConfigValueV, Seq<char>>
    decreases v,
{
    match v {
        JsonValue::Null => Err("null is not a valid config value"@),
        JsonValue::Bool(b) => Ok(ConfigValueV::Bool(b)),
        JsonValue::Number { as_f64, as_i64 } => match as_f64 {
            Some(f) => Ok(ConfigValueV::Float(f)),
            None => match as_i64 {
                Some(i) => Ok(ConfigValueV::Int(i)),
                None => Err("unsupported number type"@),
            },
        },
        JsonValue::String(s) => Ok(ConfigValueV::Str(s@)),
        JsonValue::Array(items) => match json_list(items@) {
            Ok(l) => Ok(ConfigValueV::List(l)),
            Err(e) => Err(e),
        },
        JsonValue::Object(entries) => match json_entries(entries@) {
            Ok(t) => Ok(ConfigValueV::Table(entries_of(pairs_map(t)))),
            Err(e) => Err(e),
        },
    }
}

/// The values of a list, or the first failure.
pub open spec fn json_list(items: Seq<JsonValue>) -> Result<Seq<ConfigValueV>, Seq<char>>
    decreases items,
{
    if items.len() == 0 {
        Ok(Seq::empty())
    } else {
        match json_list(items.subrange(0, items.len() - 1)) {
            Err(e) => Err(e),
            Ok(l) => match json_config(items[items.len() - 1]) {
                Err(e) => Err(e),
                Ok(x) => Ok(l.push(x)),
            },
        }
    }
}

/// The converted entries of an object, in their order, or the first failure.
pub open spec fn json_entries(entries: Seq<(String, JsonValue)>) -> Result<Seq<(Seq<char>, ConfigValueV)>, Seq<char>>
    decreases entries,
{
    if entries.len() == 0 {
        Ok(Seq::empty())
    } else {
        match json_entries(entries.subrange(0, entries.len() - 1)) {
            Err(e) => Err(e),
            Ok(l) => match json_config(entries[entries.len() - 1].1) {
                Err(e) => Err(e),
                Ok(x) => Ok(l.push((entries[entries.len() - 1].0@, x))),
            },
        }
    }
}

/// Converts a JSON value into a configuration value.
pub fn json_to_config_value(v: &JsonValue) -> (r: Result<ConfigValue, String>)
    ensures
        match json_config(*v) {
            Ok(c) => r is Ok && r->Ok_0@ == c,
            Err(e) => r is Err && r->Err_0@ == e,
        },
    decreases v,
{
    match v {
        JsonValue::Null => Err(owned("null is not a valid config value")),
        JsonValue::Bool(b) => Ok(ConfigValue::Bool(*b)),
        JsonValue::Number { as_f64, as_i64 } => match as_f64 {
            Some(f) => Ok(ConfigValue::Float(*f)),
            None => match as_i64 {
                Some(i) => Ok(ConfigValue::Int(*i)),
                None => Err(owned("unsupported number type")),
            },
        },
        JsonValue::String(s) => Ok(ConfigValue::String(s.clone())),
        JsonValue::Array(items) => {
            let mut out: Vec<ConfigValue> = Vec::new();
            proof {
                assert(config_list_model(out) =~= Seq::<ConfigValueV>::empty());
                assert(items@.subrange(0, 0) =~= Seq::<JsonValue>::empty());
            }
            let mut i: usize = 0;
            while i < items.len()
                invariant
                    *v == JsonValue::Array(*items),
                    i <= items@.len(),
                    json_list(items@.subrange(0, i as int)) == Ok::<Seq<ConfigValueV>, Seq<char>>(config_list_model(out)),
                decreases items@.len() - i,
            {
                proof {
                    let ghost vv = *v;
                    assert(decreases_to!(vv => vv->Array_0));
                    assert(decreases_to!(*items => items@));
                    assert(decreases_to!(items@ => items@[i as int]));
                    let s1 = items@.subrange(0, i + 1);
                    assert(s1.subrange(0, s1.len() - 1) =~= items@.subrange(0, i as int));
                    assert(s1[s1.len() - 1] == items@[i as int]);
                }
                let ghost before = config_list_model(out);
                match json_to_config_value(&items[i]) {
                    Ok(c) => {
                        out.push(c);
                        proof {
                            assert(config_list_model(out) =~= before.push(c@));
                        }
                    },
                    Err(e) => {
                        proof {
                            lemma_json_list_err(items@, i as int + 1);
                        }
                        return Err(e);
                    },
                }
                i += 1;
            }
            proof {
                assert(items@.subrange(0, items@.len() as int) =~= items@);
            }
            Ok(ConfigValue::List(out))
        },
        JsonValue::Object(entries) => {
            let mut table: ConfigSnapshot = Keyed::new();
            let ghost mut done: Seq<(Seq<char>, ConfigValueV)> = Seq::empty();
            proof {
                assert(entries@.subrange(0, 0) =~= Seq::<(String, JsonValue)>::empty());
            }
            let mut i: usize = 0;
            while i < entries.len()
                invariant
                    *v == JsonValue::Object(*entries),
                    i <= entries@.len(),
                    json_entries(entries@.subrange(0, i as int)) == Ok::<Seq<(Seq<char>, ConfigValueV)>, Seq<char>>(done),
                    table@ == pairs_map(done),
                decreases entries@.len() - i,
            {
                proof {
                    let ghost vv = *v;
                    assert(decreases_to!(vv => vv->Object_0));
                    assert(decreases_to!(*entries => entries@));
                    assert(decreases_to!(entries@ => entries@[i as int]));
                    assert(decreases_to!(entries@[i as int] => entries@[i as int].1));
                    let s1 = entries@.subrange(0, i + 1);
                    assert(s1.subrange(0, s1.len() - 1) =~= entries@.subrange(0, i as int));
                    assert(s1[s1.len() - 1] == entries@[i as int]);
                }
                match json_to_config_value(&entries[i].1) {
                    Ok(c) => {
                        let ghost cm = c@;
                        table.insert(entries[i].0.clone(), c);
                        proof {
                            let d2 = done.push((entries@[i as int].0@, cm));
                            assert(d2.drop_last() =~= done);
                            done = d2;
                        }
                    },
                    Err(e) => {
                        proof {
                            lemma_json_entries_err(entries@, i as int + 1);
                        }
                        return Err(e);
                    },
                }
                i += 1;
            }
            proof {
                assert(entries@.subrange(0, entries@.len() as int) =~= entries@);
            }
            let ghost m = table@;
            let pairs = table.into_entries();
            proof {
                assert(config_table_model(pairs) =~= entries_of(m));
            }
            Ok(ConfigValue::Table(pairs))
        },
    }
}

proof fn lemma_json_list_err(items: Seq<JsonValue>, k: int)
    requires
        0 < k <= items.len(),
        json_list(items.subrange(0, k)) is Err,
    ensures
        json_list(items) == json_list(items.subrange(0, k)),
    decreases items.len() - k,
{
    if k == items.len() {
        assert(items.subrange(0, k) =~= items);
    } else {
        let p = items.subrange(0, items.len() - 1);
        assert(p.subrange(0, k) =~= items.subrange(0, k));
        lemma_json_list_err(p, k);
    }
}

proof fn lemma_json_entries_err(entries: Seq<(String, JsonValue)>, k: int)
    requires
        0 < k <= entries.len(),
        json_entries(entries.subrange(0, k)) is Err,
    ensures
        json_entries(entries) == json_entries(entries.subrange(0, k)),
    decreases entries.len() - k,
{
    if k == entries.len() {
        assert(entries.subrange(0, k) =~= entries);
    } else {
        let p = entries.subrange(0, entries.len() - 1);
        assert(p.subrange(0, k) =~= entries.subrange(0, k));
        lemma_json_entries_err(p, k);
    }
}


// ── Actions ──────────────────

/// What people write. Floating-point amounts are held as the bit pattern of
/// an IEEE-754 single (`f32::to_bits`).
#[derive(Debug, PartialEq)]
pub enum UserAction {
    /// A source node (audio file, input).
    AddSource { name: String, channels: u32 },
    /// A processor node (EQ, gain, compressor...).
    AddProcessor { name: String, channels: u32 },
    /// An analyzer node (meter, spectrum).
    AddAnalyzer { name: String, channels: u32 },
    /// A sink node (output, export target).
    AddSink { name: String, channels: u32 },
    /// An external plugin node.
    AddForeign { name: String, plugin: String, channels: u32 },
    /// Connects `from.from_port` (default `out`) to `to.to_port` (default `in`).
    Connect { from: String, from_port: Option<String>, to: String, to_port: Option<String> },
    /// Removes the edge between two ports, if there is one.
    Disconnect { from: String, from_port: Option<String>, to: String, to_port: Option<String> },
    /// Removes a node by name.
    RemoveNode { name: String },
    /// Freezes a node into an asset (rendering is the caller's business).
    FreezeNode { name: String, length_secs: u32 },
    /// Sets a configuration value on a node.
    SetConfig { node: String, key: String, value: JsonValue },
    /// Assigns a modulation.
    AddModulation { source_node: String, source_port: String, target_node: String, target_param: String, amount: u32 },
    /// Renames a node's kind.
    ReplaceNode { name: String, new_kind_name: String },
    /// A container node.
    AddSubGraph { name: String },
    /// Removes a modulation.
    RemoveModulation { id: StableId },
    /// Duplicates a node (nothing yet).
    DuplicateNode { node_id: StableId },
}

/// The channel count of a node added without one.
pub fn default_channels() -> (r: u32)
    ensures
        r == 2,
{
    2
}

/// A user-facing patch file.
#[derive(Debug, PartialEq)]
pub struct UserPatchFile {
    pub description: Option<String>,
    pub intent: Option<String>,
    pub constraints: Vec<UserConstraint>,
    pub actions: Vec<UserAction>,
}

/// A user-facing constraint: its kind ("must", "prefer", "avoid", "never")
/// and what it says.
#[derive(Debug, PartialEq)]
pub struct UserConstraint {
    pub kind: String,
    pub description: String,
}

/// Why actions do not compile.
#[derive(Debug, PartialEq)]
pub enum ActionError {
    NodeNotFound(String),
    AmbiguousName(String),
    InvalidConfig(String, String),
}

pub enum ActionErrorV {
    NodeNotFound(Seq<char>),
    AmbiguousName(Seq<char>),
    InvalidConfig(Seq<char>, Seq<char>),
}

impl View for ActionError {
    type V = ActionErrorV;

    open spec fn view(&self) -> ActionErrorV {
        match self {
            ActionError::NodeNotFound(n) => ActionErrorV::NodeNotFound(n@),
            ActionError::AmbiguousName(n) => ActionErrorV::AmbiguousName(n@),
            ActionError::InvalidConfig(k, m) => ActionErrorV::InvalidConfig(k@, m@),
        }
    }
}

/// How an action error reads.
pub open spec fn action_error_text(e: ActionErrorV) -> Seq<char> {
    match e {
        ActionErrorV::NodeNotFound(n) => "node '"@ + n + "' not found in current graph"@,
        ActionErrorV::AmbiguousName(n) => "ambiguous node name '"@ + n + "': multiple nodes match"@,
        ActionErrorV::InvalidConfig(k, m) => "invalid config value for key '"@ + k + "': "@ + m,
    }
}

impl ActionError {
    /// The error as text.
    pub fn to_text(&self) -> (s: String)
        ensures
            s@ == action_error_text(self@),
    {
        match self {
            ActionError::NodeNotFound(n) => {
                let mut s = owned("node '");
                push_str(&mut s, n.as_str());
                push_str(&mut s, "' not found in current graph");
                s
            },
            ActionError::AmbiguousName(n) => {
                let mut s = owned("ambiguous node name '");
                push_str(&mut s, n.as_str());
                push_str(&mut s, "': multiple nodes match");
                s
            },
            ActionError::InvalidConfig(k, m) => {
                let mut s = owned("invalid config value for key '");
                push_str(&mut s, k.as_str());
                push_str(&mut s, "': ");
                push_str(&mut s, m.as_str());
                s
            },
        }
    }
}

// ── Nodes and names ──────────────────

/// The ports a new node of a kind gets: a source an output, a sink an
/// input, every other kind an input and an output.
pub open spec fn kind_ports(kind: NodeKindV, channels: u32) -> Seq<TypedPortV> {
    match kind {
        NodeKindV::Source => seq![audio_port("out"@, PortDirection::Output, channels)],
        NodeKindV::Sink => seq![audio_port("in"@, PortDirection::Input, channels)],
        _ => seq![audio_port("in"@, PortDirection::Input, channels), audio_port("out"@, PortDirection::Output, channels)],
    }
}

/// A new node named `name`.
pub open spec fn new_node(kind: NodeKindV, name: Seq<char>, channels: u32, id: u128) -> NodeV {
    NodeV {
        id,
        kind,
        ports: kind_ports(kind, channels),
        config: Map::empty().insert("name"@, ConfigValueV::Str(name)),
        metadata: MetadataRef(None),
        confidence: ConfidenceScore::Verified,
    }
}

/// A new container node named `name`.
pub open spec fn new_subgraph_node(name: Seq<char>, id: u128) -> NodeV {
    NodeV {
        id,
        kind: NodeKindV::SubGraph,
        ports: crate::ir::io_ports(),
        config: Map::empty().insert("name"@, ConfigValueV::Str(name)).insert("graph_json"@, ConfigValueV::Str("{}"@)),
        metadata: MetadataRef(None),
        confidence: ConfidenceScore::Verified,
    }
}

fn audio(name: &str, direction: PortDirection, channels: u32) -> (p: TypedPort)
    ensures
        p@ == audio_port(name@, direction, channels),
{
    TypedPort { name: owned(name), direction, domain: ExecutionDomain::Sample, data_type: DataType::Audio { channels } }
}

fn make_node(kind: NodeKind, name: &str, channels: u32) -> (r: Node)
    ensures
        r@ == new_node(kind@, name@, channels, r.id.0),
{
    let mut ports: Vec<TypedPort> = Vec::new();
    match kind {
        NodeKind::Source => {
            ports.push(audio("out", PortDirection::Output, channels));
        },
        NodeKind::Sink => {
            ports.push(audio("in", PortDirection::Input, channels));
        },
        _ => {
            ports.push(audio("in", PortDirection::Input, channels));
            ports.push(audio("out", PortDirection::Output, channels));
        },
    }
    proof {
        assert(seq_model(ports@) =~= kind_ports(kind@, channels));
    }
    Node {
        id: StableId::new(),
        kind,
        ports,
        config: crate::ir::named_config(name),
        metadata: MetadataRef(None),
        confidence: ConfidenceScore::Verified,
    }
}

/// A node's name: its `name` setting when that is text, else its identifier.
pub open spec fn name_of(n: NodeV) -> Seq<char> {
    if n.config.contains_key("name"@) && n.config["name"@] is Str {
        n.config["name"@]->Str_0
    } else {
        ulid_text(n.id)
    }
}

/// A node's name.
pub fn node_name(node: &Node) -> (s: String)
    ensures
        s@ == name_of(node@),
{
    match node.config.get("name") {
        Some(v) => match v {
            ConfigValue::String(s) => s.clone(),
            _ => node.id.to_text(),
        },
        None => node.id.to_text(),
    }
}

/// The identifier of node `id` when it bears `name`.
pub open spec fn bearing(g: GraphV, name: Seq<char>) -> spec_fn(u128) -> Seq<u128> {
    |id: u128| if name_of(g.nodes[id]) == name { seq![id] } else { Seq::empty() }
}

/// The nodes of the graph that bear a name, in identifier order.
pub open spec fn named(g: GraphV, name: Seq<char>) -> Seq<u128> {
    gather(ordered_ids(g.nodes), bearing(g, name))
}

/// What a name resolves to: a node created earlier in the batch; else the
/// one node of the graph that bears it; else, when none does, the node whose
/// identifier the name spells.
pub open spec fn resolve_spec(g: GraphV, created: Map<Seq<char>, u128>, name: Seq<char>) -> Result<u128, ActionErrorV> {
    if created.contains_key(name) {
        Ok(created[name])
    } else {
        let m = named(g, name);
        if m.len() == 0 {
            match ulid_decode(name) {
                Some(id) => if g.nodes.contains_key(id) {
                    Ok(id)
                } else {
                    Err(ActionErrorV::NodeNotFound(name))
                },
                None => Err(ActionErrorV::NodeNotFound(name)),
            }
        } else if m.len() == 1 {
            Ok(m[0])
        } else {
            Err(ActionErrorV::AmbiguousName(name))
        }
    }
}

fn resolve_name(name: &str, graph: &Graph, created: &Keyed<StableId>) -> (r: Result<StableId, ActionError>)
    ensures
        match resolve_spec(graph@, created@, name@) {
            Ok(id) => r is Ok && r->Ok_0.0 == id,
            Err(e) => r is Err && r->Err_0@ == e,
        },
{
    if let Some(id) = created.get(name) {
        return Ok(*id);
    }
    let ghost g = graph@;
    let ids = sorted_keys_of(&graph.nodes);
    proof {
        assert(g.nodes.dom() =~= graph.nodes@.dom());
        lemma_ordered_ids(g.nodes, ids@);
    }
    let ghost f = bearing(g, name@);
    let mut matches: Vec<u128> = Vec::new();
    proof {
        assert(Seq::<u128>::empty() + gather(ids@.take(0), f) =~= matches@);
    }
    let mut i: usize = 0;
    while i < ids.len()
        invariant
            g == graph@,
            i <= ids@.len(),
            ids@ == ordered_ids(g.nodes),
            forall|x: u128| graph.nodes@.contains_key(x) <==> ids@.contains(x),
            f == bearing(g, name@),
            matches@ == Seq::<u128>::empty() + gather(ids@.take(i as int), f),
        decreases ids@.len() - i,
    {
        let id = ids[i];
        let ghost before = matches@;
        assert(ids@.contains(id)) by {
            assert(ids@[i as int] == id);
        }
        if let Some(n) = graph.nodes.get(&id) {
            assert(g.nodes[id] == n@);
            let nm = node_name(n);
            if key_equal(nm.as_str(), name) {
                matches.push(id);
            }
        }
        assert(matches@ =~= before + f(id));
        proof {
            lemma_gather_grown(Seq::<u128>::empty(), before, matches@, ids@, i as int, f);
        }
        i += 1;
    }
    proof {
        assert(ids@.take(ids@.len() as int) =~= ids@);
        assert(matches@ =~= named(g, name@));
    }
    if matches.len() == 0 {
        if let Some(id) = StableId::parse(name) {
            if graph.nodes.contains_key(&id.0) {
                return Ok(id);
            }
        }
        Err(ActionError::NodeNotFound(owned(name)))
    } else if matches.len() == 1 {
        Ok(StableId(matches[0]))
    } else {
        Err(ActionError::AmbiguousName(owned(name)))
    }
}


// ── Compiling ──────────────────

/// Where a batch of actions stands: the operations so far, the nodes it
/// created by name, how many fresh identifiers it used, and its error.
pub struct CompileState {
    pub ops: Seq<OperationV>,
    pub created: Map<Seq<char>, u128>,
    pub used: nat,
    pub err: Option<ActionErrorV>,
}

/// The fresh identifiers that operations carry: those of added nodes,
/// edges and modulations, in order.
pub open spec fn minted(ops: Seq<OperationV>) -> Seq<u128>
    decreases ops.len(),
{
    if ops.len() == 0 {
        Seq::empty()
    } else {
        minted(ops.drop_last()) + match ops.last() {
            OperationV::AddNode(n) => seq![n.id],
            OperationV::AddEdge(e) => seq![e.id],
            OperationV::AddModulation(m) => seq![m.id],
            _ => Seq::empty(),
        }
    }
}

/// A port name, or its default.
pub open spec fn port_or(p: Option<String>, default: Seq<char>) -> Seq<char> {
    match p {
        Some(s) => s@,
        None => default,
    }
}

/// The identifier of an edge, if it is the one between two ports.
pub open spec fn edge_if_between(g: GraphV, src: PortRefV, tgt: PortRefV) -> spec_fn(u128) -> Seq<u128> {
    |k: u128| if g.edges[k].source == src && g.edges[k].target == tgt { seq![g.edges[k].id] } else { Seq::empty() }
}

/// The first edge of the graph, in identifier order, between two ports.
pub open spec fn edge_between(g: GraphV, src: PortRefV, tgt: PortRefV) -> Option<u128> {
    let m = gather(ordered_ids(g.edges), edge_if_between(g, src, tgt));
    if m.len() > 0 {
        Some(m[0])
    } else {
        None
    }
}

/// The state with an added node.
pub open spec fn with_node(s: CompileState, name: Seq<char>, n: NodeV) -> CompileState {
    CompileState { ops: s.ops.push(OperationV::AddNode(n)), created: s.created.insert(name, n.id), used: s.used + 1, err: None }
}

/// The state with one more operation.
pub open spec fn with_op(s: CompileState, op: OperationV) -> CompileState {
    CompileState { ops: s.ops.push(op), ..s }
}

/// The state after a failure.
pub open spec fn with_err(s: CompileState, e: ActionErrorV) -> CompileState {
    CompileState { err: Some(e), ..s }
}

/// The configuration change that sets `key` to `v`.
pub open spec fn set_delta(key: Seq<char>, v: ConfigValueV) -> Map<Seq<char>, ConfigChangeV> {
    Map::empty().insert(key, ConfigChangeV { old: None, new: Some(v) })
}

/// One action. A new node, edge or modulation takes the next fresh
/// identifier, `fresh[s.used]`.
pub open spec fn action_step(g: GraphV, s: CompileState, a: UserAction, fresh: Seq<u128>) -> CompileState {
    let id = fresh[s.used as int];
    if s.err is Some {
        s
    } else {
        match a {
            UserAction::AddSource { name, channels } => with_node(s, name@, new_node(NodeKindV::Source, name@, channels, id)),
            UserAction::AddProcessor { name, channels } => with_node(s, name@, new_node(NodeKindV::Processor, name@, channels, id)),
            UserAction::AddAnalyzer { name, channels } => with_node(s, name@, new_node(NodeKindV::Analyzer, name@, channels, id)),
            UserAction::AddSink { name, channels } => with_node(s, name@, new_node(NodeKindV::Sink, name@, channels, id)),
            UserAction::AddForeign { name, plugin, channels } => with_node(s, name@, new_node(NodeKindV::Foreign(plugin@), name@, channels, id)),
            UserAction::AddSubGraph { name } => with_node(s, name@, new_subgraph_node(name@, id)),
            UserAction::Connect { from, from_port, to, to_port } => match resolve_spec(g, s.created, from@) {
                Err(e) => with_err(s, e),
                Ok(src) => match resolve_spec(g, s.created, to@) {
                    Err(e) => with_err(s, e),
                    Ok(tgt) => CompileState {
                        ops: s.ops.push(OperationV::AddEdge(EdgeV {
                            id,
                            source: PortRefV { node_id: src, port_name: port_or(from_port, "out"@) },
                            target: PortRefV { node_id: tgt, port_name: port_or(to_port, "in"@) },
                            kind: EdgeKind::Normal,
                        })),
                        used: s.used + 1,
                        ..s
                    },
                },
            },
            UserAction::Disconnect { from, from_port, to, to_port } => match resolve_spec(g, s.created, from@) {
                Err(e) => with_err(s, e),
                Ok(src) => match resolve_spec(g, s.created, to@) {
                    Err(e) => with_err(s, e),
                    Ok(tgt) => match edge_between(
                        g,
                        PortRefV { node_id: src, port_name: port_or(from_port, "out"@) },
                        PortRefV { node_id: tgt, port_name: port_or(to_port, "in"@) },
                    ) {
                        Some(e) => with_op(s, OperationV::RemoveEdge(e)),
                        None => s,
                    },
                },
            },
            UserAction::RemoveNode { name } => match resolve_spec(g, s.created, name@) {
                Err(e) => with_err(s, e),
                Ok(n) => with_op(s, OperationV::RemoveNode(n)),
            },
            UserAction::FreezeNode { name, .. } => match resolve_spec(g, s.created, name@) {
                Err(e) => with_err(s, e),
                Ok(_) => s,
            },
            UserAction::SetConfig { node, key, value } => match resolve_spec(g, s.created, node@) {
                Err(e) => with_err(s, e),
                Ok(n) => match json_config(value) {
                    Err(m) => with_err(s, ActionErrorV::InvalidConfig(key@, m)),
                    Ok(v) => with_op(s, OperationV::ModifyConfig { node_id: n, delta: set_delta(key@, v) }),
                },
            },
            UserAction::AddModulation { source_node, source_port, target_node, target_param, amount } => match resolve_spec(g, s.created, source_node@) {
                Err(e) => with_err(s, e),
                Ok(src) => match resolve_spec(g, s.created, target_node@) {
                    Err(e) => with_err(s, e),
                    Ok(tgt) => CompileState {
                        ops: s.ops.push(OperationV::AddModulation(ModulationV {
                            id,
                            source: PortRefV { node_id: src, port_name: source_port@ },
                            target_node: tgt,
                            target_param: target_param@,
                            amount,
                        })),
                        used: s.used + 1,
                        ..s
                    },
                },
            },
            UserAction::ReplaceNode { name, new_kind_name } => match resolve_spec(g, s.created, name@) {
                Err(e) => with_err(s, e),
                Ok(n) => with_op(s, OperationV::ModifyConfig { node_id: n, delta: set_delta("name"@, ConfigValueV::Str(new_kind_name@)) }),
            },
            UserAction::RemoveModulation { id: m } => with_op(s, OperationV::RemoveModulation(m.0)),
            UserAction::DuplicateNode { .. } => s,
        }
    }
}

/// The state before any action.
pub open spec fn compile_start() -> CompileState {
    CompileState { ops: Seq::empty(), created: Map::empty(), used: 0, err: None }
}

/// The actions in order; the first failure stops the batch.
pub open spec fn compile_spec(g: GraphV, actions: Seq<UserAction>, fresh: Seq<u128>) -> CompileState
    decreases actions.len(),
{
    if actions.len() == 0 {
        compile_start()
    } else {
        action_step(g, compile_spec(g, actions.drop_last(), fresh), actions.last(), fresh)
    }
}

proof fn lemma_minted_push(ops: Seq<OperationV>, op: OperationV)
    ensures
        minted(ops.push(op)) == minted(ops) + match op {
            OperationV::AddNode(n) => seq![n.id],
            OperationV::AddEdge(e) => seq![e.id],
            OperationV::AddModulation(m) => seq![m.id],
            _ => Seq::<u128>::empty(),
        },
{
    assert(ops.push(op).drop_last() =~= ops);
}

/// The compilation of a prefix reads no fresh identifier beyond those it used.
proof fn lemma_compile_fresh(g: GraphV, actions: Seq<UserAction>, f1: Seq<u128>, f2: Seq<u128>)
    requires
        f1.len() >= compile_spec(g, actions, f1).used,
        f2.len() >= compile_spec(g, actions, f1).used,
        f1.take(compile_spec(g, actions, f1).used as int) == f2.take(compile_spec(g, actions, f1).used as int),
    ensures
        compile_spec(g, actions, f1) == compile_spec(g, actions, f2),
    decreases actions.len(),
{
    if actions.len() > 0 {
        let p = actions.drop_last();
        let s1 = compile_spec(g, p, f1);
        let n = compile_spec(g, actions, f1).used;
        assert(s1.used <= n);
        assert(f1.take(s1.used as int) =~= f1.take(n as int).take(s1.used as int));
        assert(f2.take(s1.used as int) =~= f2.take(n as int).take(s1.used as int));
        lemma_compile_fresh(g, p, f1, f2);
        if s1.err is None && n > s1.used {
            assert(f1[s1.used as int] == f1.take(n as int)[s1.used as int]);
            assert(f2[s1.used as int] == f2.take(n as int)[s1.used as int]);
        }
    }
}

/// Once a batch has failed, later actions change nothing.
proof fn lemma_compile_err_persists(g: GraphV, actions: Seq<UserAction>, fresh: Seq<u128>, k: int)
    requires
        0 <= k <= actions.len(),
        compile_spec(g, actions.take(k), fresh).err is Some,
    ensures
        compile_spec(g, actions, fresh) == compile_spec(g, actions.take(k), fresh),
    decreases actions.len() - k,
{
    if k == actions.len() {
        assert(actions.take(k) =~= actions);
    } else {
        let p = actions.drop_last();
        assert(p.take(k) =~= actions.take(k));
        lemma_compile_err_persists(g, p, fresh, k);
    }
}


fn find_edge(graph: &Graph, src: &PortRef, tgt: &PortRef) -> (r: Option<StableId>)
    ensures
        match edge_between(graph@, src@, tgt@) {
            Some(e) => r == Some(StableId(e)),
            None => r is None,
        },
{
    let ghost g = graph@;
    let ids = sorted_keys_of(&graph.edges);
    proof {
        assert(g.edges.dom() =~= graph.edges@.dom());
        lemma_ordered_ids(g.edges, ids@);
    }
    let ghost f = edge_if_between(g, src@, tgt@);
    let mut i: usize = 0;
    proof {
        assert(gather(ids@.take(0), f) =~= Seq::<u128>::empty());
    }
    while i < ids.len()
        invariant
            g == graph@,
            i <= ids@.len(),
            ids@ == ordered_ids(g.edges),
            forall|x: u128| graph.edges@.contains_key(x) <==> ids@.contains(x),
            f == edge_if_between(g, src@, tgt@),
            gather(ids@.take(i as int), f) == Seq::<u128>::empty(),
        decreases ids@.len() - i,
    {
        let id = ids[i];
        assert(ids@.contains(id)) by {
            assert(ids@[i as int] == id);
        }
        proof {
            lemma_gather_grown(Seq::<u128>::empty(), Seq::<u128>::empty(), Seq::<u128>::empty() + f(id), ids@, i as int, f);
        }
        if let Some(e) = graph.edges.get(&id) {
            assert(g.edges[id] == e@);
            if e.source.same(src) && e.target.same(tgt) {
                proof {
                    assert(gather(ids@.take(i + 1), f) =~= seq![e.id.0]);
                    lemma_gather_prefix(ids@, i + 1, f);
                }
                return Some(e.id);
            }
            proof {
                assert(gather(ids@.take(i + 1), f) =~= Seq::<u128>::empty());
            }
        }
        i += 1;
    }
    proof {
        assert(ids@.take(ids@.len() as int) =~= ids@);
    }
    None
}

proof fn lemma_gather_prefix(ids: Seq<u128>, k: int, f: spec_fn(u128) -> Seq<u128>)
    requires
        0 <= k <= ids.len(),
    ensures
        gather(ids, f).len() >= gather(ids.take(k), f).len(),
        forall|j: int| 0 <= j < gather(ids.take(k), f).len() ==> #[trigger] gather(ids, f)[j] == gather(ids.take(k), f)[j],
    decreases ids.len() - k,
{
    if k == ids.len() {
        assert(ids.take(k) =~= ids);
    } else {
        let p = ids.drop_last();
        assert(p.take(k) =~= ids.take(k));
        lemma_gather_prefix(p, k, f);
    }
}

/// The state of a batch as the loop of `compile_actions` holds it.
pub open spec fn state_of(ops: Seq<OperationV>, created: Map<Seq<char>, u128>) -> CompileState {
    CompileState { ops, created, used: minted(ops).len(), err: None }
}

fn compile_one(action: &UserAction, graph: &Graph, created: &mut Keyed<StableId>, ops: &mut Vec<Operation>) -> (r: Result<(), ActionError>)
    ensures
        ({
            let s = state_of(seq_model(old(ops)@), old(created)@);
            let f = minted(seq_model(final(ops)@));
            &&& f.len() >= s.used
            &&& f.take(s.used as int) == minted(seq_model(old(ops)@))
            &&& match r {
                Ok(()) => action_step(graph@, s, *action, f) == state_of(seq_model(final(ops)@), final(created)@),
                Err(e) => action_step(graph@, s, *action, f).err == Some(e@),
            }
        }),
{
    let ghost s = state_of(seq_model(ops@), created@);
    let ghost m0 = minted(seq_model(ops@));
    proof {
        assert(m0.take(m0.len() as int) =~= m0);
    }
    match action {
        UserAction::AddSource { name, channels } => {
            let node = make_node(NodeKind::Source, name.as_str(), *channels);
            created.insert(name.clone(), node.id);
            let op = Operation::AddNode(node);
            proof {
                lemma_seq_model_push(ops@, op);
                lemma_minted_push(seq_model(ops@), op@);
            }
            ops.push(op);
            proof {
                let f = minted(seq_model(ops@));
                assert(f.take(s.used as int) =~= m0);
            }
            Ok(())
        },
        UserAction::AddProcessor { name, channels } => {
            let node = make_node(NodeKind::Processor, name.as_str(), *channels);
            created.insert(name.clone(), node.id);
            let op = Operation::AddNode(node);
            proof {
                lemma_seq_model_push(ops@, op);
                lemma_minted_push(seq_model(ops@), op@);
            }
            ops.push(op);
            proof {
                let f = minted(seq_model(ops@));
                assert(f.take(s.used as int) =~= m0);
            }
            Ok(())
        },
        UserAction::AddAnalyzer { name, channels } => {
            let node = make_node(NodeKind::Analyzer, name.as_str(), *channels);
            created.insert(name.clone(), node.id);
            let op = Operation::AddNode(node);
            proof {
                lemma_seq_model_push(ops@, op);
                lemma_minted_push(seq_model(ops@), op@);
            }
            ops.push(op);
            proof {
                let f = minted(seq_model(ops@));
                assert(f.take(s.used as int) =~= m0);
            }
            Ok(())
        },
        UserAction::AddSink { name, channels } => {
            let node = make_node(NodeKind::Sink, name.as_str(), *channels);
            created.insert(name.clone(), node.id);
            let op = Operation::AddNode(node);
            proof {
                lemma_seq_model_push(ops@, op);
                lemma_minted_push(seq_model(ops@), op@);
            }
            ops.push(op);
            proof {
                let f = minted(seq_model(ops@));
                assert(f.take(s.used as int) =~= m0);
            }
            Ok(())
        },
        UserAction::AddForeign { name, plugin, channels } => {
            let node = make_node(NodeKind::Foreign(plugin.clone()), name.as_str(), *channels);
            created.insert(name.clone(), node.id);
            let op = Operation::AddNode(node);
            proof {
                lemma_seq_model_push(ops@, op);
                lemma_minted_push(seq_model(ops@), op@);
            }
            ops.push(op);
            proof {
                let f = minted(seq_model(ops@));
                assert(f.take(s.used as int) =~= m0);
            }
            Ok(())
        },
        UserAction::AddSubGraph { name } => {
            let node = Node::new_subgraph(name.as_str());
            created.insert(name.clone(), node.id);
            let op = Operation::AddNode(node);
            proof {
                lemma_seq_model_push(ops@, op);
                lemma_minted_push(seq_model(ops@), op@);
            }
            ops.push(op);
            proof {
                let f = minted(seq_model(ops@));
                assert(f.take(s.used as int) =~= m0);
            }
            Ok(())
        },
        UserAction::Connect { from, from_port, to, to_port } => {
            let src = resolve_name(from.as_str(), graph, created)?;
            let tgt = resolve_name(to.as_str(), graph, created)?;
            let sp = match from_port {
                Some(p) => p.clone(),
                None => owned("out"),
            };
            let tp = match to_port {
                Some(p) => p.clone(),
                None => owned("in"),
            };
            let edge = Edge::new(PortRef { node_id: src, port_name: sp }, PortRef { node_id: tgt, port_name: tp });
            let op = Operation::AddEdge(edge);
            proof {
                lemma_seq_model_push(ops@, op);
                lemma_minted_push(seq_model(ops@), op@);
            }
            ops.push(op);
            proof {
                let f = minted(seq_model(ops@));
                assert(f.take(s.used as int) =~= m0);
            }
            Ok(())
        },
        UserAction::Disconnect { from, from_port, to, to_port } => {
            let src = resolve_name(from.as_str(), graph, created)?;
            let tgt = resolve_name(to.as_str(), graph, created)?;
            let sp = match from_port {
                Some(p) => p.clone(),
                None => owned("out"),
            };
            let tp = match to_port {
                Some(p) => p.clone(),
                None => owned("in"),
            };
            let src_ref = PortRef { node_id: src, port_name: sp };
            let tgt_ref = PortRef { node_id: tgt, port_name: tp };
            if let Some(edge_id) = find_edge(graph, &src_ref, &tgt_ref) {
                let op = Operation::RemoveEdge(edge_id);
                proof {
                    lemma_seq_model_push(ops@, op);
                    lemma_minted_push(seq_model(ops@), op@);
                }
                ops.push(op);
            }
            proof {
                let f = minted(seq_model(ops@));
                assert(f.take(s.used as int) =~= m0);
            }
            Ok(())
        },
        UserAction::RemoveNode { name } => {
            let id = resolve_name(name.as_str(), graph, created)?;
            let op = Operation::RemoveNode(id);
            proof {
                lemma_seq_model_push(ops@, op);
                lemma_minted_push(seq_model(ops@), op@);
            }
            ops.push(op);
            proof {
                let f = minted(seq_model(ops@));
                assert(f.take(s.used as int) =~= m0);
            }
            Ok(())
        },
        UserAction::FreezeNode { name, .. } => {
            let _id = resolve_name(name.as_str(), graph, created)?;
            Ok(())
        },
        UserAction::SetConfig { node, key, value } => {
            let id = resolve_name(node.as_str(), graph, created)?;
            let v = match json_to_config_value(value) {
                Ok(v) => v,
                Err(m) => {
                    return Err(ActionError::InvalidConfig(key.clone(), m));
                },
            };
            let mut delta: ConfigDelta = Keyed::new();
            delta.insert(key.clone(), ConfigChange { old: None, new: Some(v) });
            let op = Operation::ModifyConfig { node_id: id, delta };
            proof {
                lemma_seq_model_push(ops@, op);
                lemma_minted_push(seq_model(ops@), op@);
            }
            ops.push(op);
            proof {
                let f = minted(seq_model(ops@));
                assert(f.take(s.used as int) =~= m0);
            }
            Ok(())
        },
        UserAction::AddModulation { source_node, source_port, target_node, target_param, amount } => {
            let src = resolve_name(source_node.as_str(), graph, created)?;
            let tgt = resolve_name(target_node.as_str(), graph, created)?;
            let m = Modulation::new(PortRef { node_id: src, port_name: source_port.clone() }, tgt, target_param.clone(), *amount);
            let op = Operation::AddModulation(m);
            proof {
                lemma_seq_model_push(ops@, op);
                lemma_minted_push(seq_model(ops@), op@);
            }
            ops.push(op);
            proof {
                let f = minted(seq_model(ops@));
                assert(f.take(s.used as int) =~= m0);
            }
            Ok(())
        },
        UserAction::ReplaceNode { name, new_kind_name } => {
            let id = resolve_name(name.as_str(), graph, created)?;
            let mut delta: ConfigDelta = Keyed::new();
            delta.insert(owned("name"), ConfigChange { old: None, new: Some(ConfigValue::String(new_kind_name.clone())) });
            let op = Operation::ModifyConfig { node_id: id, delta };
            proof {
                lemma_seq_model_push(ops@, op);
                lemma_minted_push(seq_model(ops@), op@);
            }
            ops.push(op);
            proof {
                let f = minted(seq_model(ops@));
                assert(f.take(s.used as int) =~= m0);
            }
            Ok(())
        },
        UserAction::RemoveModulation { id } => {
            let op = Operation::RemoveModulation(*id);
            proof {
                lemma_seq_model_push(ops@, op);
                lemma_minted_push(seq_model(ops@), op@);
            }
            ops.push(op);
            proof {
                let f = minted(seq_model(ops@));
                assert(f.take(s.used as int) =~= m0);
            }
            Ok(())
        },
        UserAction::DuplicateNode { .. } => Ok(()),
    }
}


proof fn lemma_resolve_dom(g: GraphV, c1: Map<Seq<char>, u128>, c2: Map<Seq<char>, u128>, name: Seq<char>)
    requires
        c1.dom() == c2.dom(),
    ensures
        resolve_spec(g, c1, name) is Ok <==> resolve_spec(g, c2, name) is Ok,
        resolve_spec(g, c1, name) is Err ==> resolve_spec(g, c1, name) == resolve_spec(g, c2, name),
{
    assert(c1.contains_key(name) == c2.contains_key(name));
}

/// Whether a batch of actions compiles, and with which error, depends on
/// the actions and the graph only, not on the fresh identifiers it mints.
pub proof fn lemma_compile_outcome(g: GraphV, actions: Seq<UserAction>, f1: Seq<u128>, f2: Seq<u128>)
    ensures
        compile_spec(g, actions, f1).err == compile_spec(g, actions, f2).err,
        compile_spec(g, actions, f1).created.dom() == compile_spec(g, actions, f2).created.dom(),
    decreases actions.len(),
{
    if actions.len() > 0 {
        let p = actions.drop_last();
        lemma_compile_outcome(g, p, f1, f2);
        let s1 = compile_spec(g, p, f1);
        let s2 = compile_spec(g, p, f2);
        let a = actions.last();
        match a {
            UserAction::Connect { from, to, .. } => {
                lemma_resolve_dom(g, s1.created, s2.created, from@);
                lemma_resolve_dom(g, s1.created, s2.created, to@);
            },
            UserAction::Disconnect { from, to, .. } => {
                lemma_resolve_dom(g, s1.created, s2.created, from@);
                lemma_resolve_dom(g, s1.created, s2.created, to@);
            },
            UserAction::RemoveNode { name } => {
                lemma_resolve_dom(g, s1.created, s2.created, name@);
            },
            UserAction::FreezeNode { name, .. } => {
                lemma_resolve_dom(g, s1.created, s2.created, name@);
            },
            UserAction::SetConfig { node, .. } => {
                lemma_resolve_dom(g, s1.created, s2.created, node@);
            },
            UserAction::AddModulation { source_node, target_node, .. } => {
                lemma_resolve_dom(g, s1.created, s2.created, source_node@);
                lemma_resolve_dom(g, s1.created, s2.created, target_node@);
            },
            UserAction::ReplaceNode { name, .. } => {
                lemma_resolve_dom(g, s1.created, s2.created, name@);
            },
            _ => {},
        }
        let t1 = compile_spec(g, actions, f1);
        let t2 = compile_spec(g, actions, f2);
        assert(t1.created.dom() =~= t2.created.dom());
    }
}

/// Compiles user actions into operations; names resolve against the nodes
/// created earlier in the batch, then against the graph. New nodes, edges
/// and modulations get fresh identifiers, which are the only part of the
/// result that the actions and the graph do not fix.
pub fn compile_actions(actions: &[UserAction], graph: &Graph) -> (r: Result<Vec<Operation>, ActionError>)
    ensures
        match r {
            Ok(ops) => compile_spec(graph@, actions@, minted(seq_model(ops@))) == state_of(
                seq_model(ops@),
                compile_spec(graph@, actions@, minted(seq_model(ops@))).created,
            ),
            Err(e) => exists|fresh: Seq<u128>| #[trigger] compile_spec(graph@, actions@, fresh).err == Some(e@),
        },
{
    let mut ops: Vec<Operation> = Vec::new();
    let mut created: Keyed<StableId> = Keyed::new();
    proof {
        assert(seq_model(ops@) =~= Seq::<OperationV>::empty());
        assert(actions@.take(0) =~= Seq::<UserAction>::empty());
        assert(minted(seq_model(ops@)) =~= Seq::<u128>::empty());
        assert(created@ =~= Map::<Seq<char>, u128>::empty());
    }
    let mut i: usize = 0;
    while i < actions.len()
        invariant
            i <= actions@.len(),
            compile_spec(graph@, actions@.take(i as int), minted(seq_model(ops@))) == state_of(seq_model(ops@), created@),
        decreases actions@.len() - i,
    {
        let ghost f0 = minted(seq_model(ops@));
        let ghost s = state_of(seq_model(ops@), created@);
        let res = compile_one(&actions[i], graph, &mut created, &mut ops);
        let ghost f1 = minted(seq_model(ops@));
        proof {
            assert(f0.take(f0.len() as int) =~= f0);
            lemma_compile_fresh(graph@, actions@.take(i as int), f0, f1);
            assert(actions@.take(i + 1).drop_last() =~= actions@.take(i as int));
            assert(actions@.take(i + 1).last() == actions@[i as int]);
        }
        match res {
            Ok(()) => {},
            Err(e) => {
                proof {
                    lemma_compile_err_persists(graph@, actions@, f1, i + 1);
                    assert(compile_spec(graph@, actions@, f1).err == Some(e@));
                }
                return Err(e);
            },
        }
        i += 1;
    }
    proof {
        assert(actions@.take(actions@.len() as int) =~= actions@);
    }
    Ok(ops)
}

// ── What adding a node makes ──────────────────

/// Whether the last operation adds a node of kind `kind` named `name`.
pub open spec fn adds_last(ops: Seq<OperationV>, kind: NodeKindV, name: Seq<char>) -> bool {
    &&& ops.len() > 0
    &&& ops.last() is AddNode
    &&& ops.last()->AddNode_0.kind == kind
    &&& name_of(ops.last()->AddNode_0) == name
}

/// Each action that adds a node adds exactly one node, of the action's kind
/// and with the action's name: a source for `AddSource`, a processor for
/// `AddProcessor`, an analyzer for `AddAnalyzer`, a sink for `AddSink`, the
/// plugin for `AddForeign`, a container for `AddSubGraph`.
pub proof fn lemma_add_actions_add_their_kind(g: GraphV, actions: Seq<UserAction>, a: UserAction, fresh: Seq<u128>)
    requires
        compile_spec(g, actions, fresh).err is None,
    ensures
        ({
            let before = compile_spec(g, actions, fresh).ops;
            let after = compile_spec(g, actions.push(a), fresh).ops;
            match a {
                UserAction::AddSource { name, .. } => after.len() == before.len() + 1 && adds_last(after, NodeKindV::Source, name@),
                UserAction::AddProcessor { name, .. } => after.len() == before.len() + 1 && adds_last(after, NodeKindV::Processor, name@),
                UserAction::AddAnalyzer { name, .. } => after.len() == before.len() + 1 && adds_last(after, NodeKindV::Analyzer, name@),
                UserAction::AddSink { name, .. } => after.len() == before.len() + 1 && adds_last(after, NodeKindV::Sink, name@),
                UserAction::AddForeign { name, plugin, .. } => after.len() == before.len() + 1 && adds_last(
                    after,
                    NodeKindV::Foreign(plugin@),
                    name@,
                ),
                UserAction::AddSubGraph { name } => after.len() == before.len() + 1 && adds_last(after, NodeKindV::SubGraph, name@),
                _ => true,
            }
        }),
{
    assert(actions.push(a).drop_last() =~= actions);
    assert(actions.push(a).last() == a);
    reveal_strlit("name");
    reveal_strlit("graph_json");
    assert("name"@ != "graph_json"@) by {
        assert("name"@.len() != "graph_json"@.len());
    }
}

} // verus!
