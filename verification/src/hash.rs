//! Deterministic content hashing. A value is framed into bytes by a fixed
//! canonical encoding (maps in key order), and the bytes are hashed with
//! BLAKE3.
use vstd::prelude::*;
use vstd::utf8::encode_utf8;
use crate::ids::{ulid_string, ulid_text};
use crate::ir::{Edge, EdgeKind, EdgeV, Graph, GraphV, Modulation, ModulationV, Node, NodeV, seq_model};
use crate::keyed::{entries_of, Keyed, Model};
use crate::text::{dec_digits, dec_i64, dec_int, dec_u64};
use crate::types::{
    config_list_model, config_model, config_table_model, ConfigValue, ConfigValueV, DataType, ExecutionDomain,
    MetadataRef, NodeKind, NodeKindV, PortDirection, PortRef, PortRefV, TypedPort, TypedPortV,
};
use crate::walk::{ordered_ids, sorted_keys_of};
use crate::patch::{Operation, OperationV, Patch};
use crate::types::{option_model, ConfigChange, ConfigChangeV, EdgeDelta, EdgeDeltaV};

verus! {

broadcast use {vstd::std_specs::btree::group_btree_axioms, vstd::laws_cmp::group_laws_cmp};

/// The BLAKE3 digest of a byte sequence.
pub uninterp spec fn blake3_digest(data: Seq<u8>) -> Seq<u8>;

/// Calls `blake3::hash`; the 32-byte digest is a function of the input.
#[verifier::external_body]
fn blake3_hash(data: &[u8]) -> (r: [u8; 32])
    ensures
        r@ == blake3_digest(data@),
{
    *blake3::hash(data).as_bytes()
}

/// Hashes arbitrary bytes.
pub fn hash_bytes(bytes: &[u8]) -> (r: [u8; 32])
    ensures
        r@ == blake3_digest(bytes@),
{
    blake3_hash(bytes)
}

// ── Primitive framing ──────────────────

/// A natural number: its decimal digits, then `;`.
pub open spec fn enc_nat(n: nat) -> Seq<u8> {
    encode_utf8(dec_digits(n)) + seq![59u8]
}

/// An integer: its signed decimal digits, then `;`.
pub open spec fn enc_int(i: int) -> Seq<u8> {
    encode_utf8(dec_int(i)) + seq![59u8]
}

/// A text: its UTF-8 byte count, then its UTF-8 bytes.
pub open spec fn enc_text(s: Seq<char>) -> Seq<u8> {
    enc_nat(encode_utf8(s).len()) + encode_utf8(s)
}

/// An identifier: its ULID text.
pub open spec fn enc_id(v: u128) -> Seq<u8> {
    encode_utf8(ulid_text(v))
}

fn append_bytes(out: &mut Vec<u8>, b: &[u8])
    ensures
        final(out)@ == old(out)@ + b@,
{
    let mut i: usize = 0;
    while i < b.len()
        invariant
            i <= b@.len(),
            out@ == old(out)@ + b@.take(i as int),
        decreases b@.len() - i,
    {
        out.push(b[i]);
        i += 1;
        assert(out@ =~= old(out)@ + b@.take(i as int));
    }
    assert(b@.take(b@.len() as int) =~= b@);
}

fn put_byte(out: &mut Vec<u8>, b: u8)
    ensures
        final(out)@ == old(out)@ + seq![b],
{
    out.push(b);
    assert(out@ =~= old(out)@ + seq![b]);
}

fn put_lit(out: &mut Vec<u8>, s: &str)
    ensures
        final(out)@ == old(out)@ + encode_utf8(s@),
{
    append_bytes(out, s.as_bytes());
}

fn put_nat(out: &mut Vec<u8>, n: u64)
    ensures
        final(out)@ == old(out)@ + enc_nat(n as nat),
{
    let d = dec_u64(n);
    append_bytes(out, d.as_str().as_bytes());
    put_byte(out, 59u8);
    assert(out@ =~= old(out)@ + enc_nat(n as nat));
}

fn put_int(out: &mut Vec<u8>, i: i64)
    ensures
        final(out)@ == old(out)@ + enc_int(i as int),
{
    let d = dec_i64(i);
    append_bytes(out, d.as_str().as_bytes());
    put_byte(out, 59u8);
    assert(out@ =~= old(out)@ + enc_int(i as int));
}

fn put_text(out: &mut Vec<u8>, s: &str)
    ensures
        final(out)@ == old(out)@ + enc_text(s@),
{
    let b = s.as_bytes();
    put_nat(out, b.len() as u64);
    append_bytes(out, b);
    assert(out@ =~= old(out)@ + enc_text(s@));
}

fn put_id(out: &mut Vec<u8>, v: u128)
    ensures
        final(out)@ == old(out)@ + enc_id(v),
{
    let t = ulid_string(v);
    append_bytes(out, t.as_str().as_bytes());
}

// ── Configuration values ──────────────────

pub open spec fn enc_value(v: ConfigValueV) -> Seq<u8>
    decreases v,
{
    match v {
        ConfigValueV::Float(b) => seq![1u8] + enc_nat(b as nat),
        ConfigValueV::Int(i) => seq![2u8] + enc_int(i as int),
        ConfigValueV::Bool(b) => seq![3u8, if b { 1u8 } else { 0u8 }],
        ConfigValueV::Str(s) => seq![4u8] + enc_text(s),
        ConfigValueV::List(l) => seq![5u8] + enc_nat(l.len()) + enc_values(l),
        ConfigValueV::Table(t) => seq![6u8] + enc_nat(t.len()) + enc_entries(t),
    }
}

pub open spec fn enc_values(l: Seq<ConfigValueV>) -> Seq<u8>
    decreases l,
{
    if l.len() == 0 {
        Seq::empty()
    } else {
        enc_values(l.subrange(0, l.len() - 1)) + enc_value(l[l.len() - 1])
    }
}

pub open spec fn enc_entries(t: Seq<(Seq<char>, ConfigValueV)>) -> Seq<u8>
    decreases t,
{
    if t.len() == 0 {
        Seq::empty()
    } else {
        enc_entries(t.subrange(0, t.len() - 1)) + enc_text(t[t.len() - 1].0) + enc_value(t[t.len() - 1].1)
    }
}

fn put_value(out: &mut Vec<u8>, v: &ConfigValue)
    ensures
        final(out)@ == old(out)@ + enc_value(config_model(*v)),
    decreases v,
{
    match v {
        ConfigValue::Float(b) => {
            put_byte(out, 1u8);
            put_nat(out, *b);
            assert(out@ =~= old(out)@ + enc_value(config_model(*v)));
        },
        ConfigValue::Int(i) => {
            put_byte(out, 2u8);
            put_int(out, *i);
            assert(out@ =~= old(out)@ + enc_value(config_model(*v)));
        },
        ConfigValue::Bool(b) => {
            put_byte(out, 3u8);
            put_byte(out, if *b { 1u8 } else { 0u8 });
            assert(out@ =~= old(out)@ + enc_value(config_model(*v)));
        },
        ConfigValue::String(s) => {
            put_byte(out, 4u8);
            put_text(out, s.as_str());
            assert(out@ =~= old(out)@ + enc_value(config_model(*v)));
        },
        ConfigValue::List(l) => {
            let ghost m = config_list_model(*l);
            put_byte(out, 5u8);
            put_nat(out, l.len() as u64);
            let ghost start = out@;
            let mut i: usize = 0;
            while i < l.len()
                invariant
                    *v == ConfigValue::List(*l),
                    m == config_list_model(*l),
                    i <= l@.len(),
                    out@ == start + enc_values(m.subrange(0, i as int)),
                decreases l@.len() - i,
            {
                proof {
                    let ghost vv = *v;
                    assert(decreases_to!(vv => vv->List_0));
                    assert(decreases_to!(*l => l@));
                    assert(decreases_to!(l@ => l@[i as int]));
                }
                put_value(out, &l[i]);
                proof {
                    let s1 = m.subrange(0, i + 1);
                    assert(s1.subrange(0, s1.len() - 1) =~= m.subrange(0, i as int));
                    assert(s1[s1.len() - 1] == config_model(l@[i as int]));
                }
                i += 1;
            }
            assert(m.subrange(0, l@.len() as int) =~= m);
            assert(out@ =~= old(out)@ + enc_value(config_model(*v)));
        },
        ConfigValue::Table(t) => {
            let ghost m = config_table_model(*t);
            put_byte(out, 6u8);
            put_nat(out, t.len() as u64);
            let ghost start = out@;
            let mut i: usize = 0;
            while i < t.len()
                invariant
                    *v == ConfigValue::Table(*t),
                    m == config_table_model(*t),
                    i <= t@.len(),
                    out@ == start + enc_entries(m.subrange(0, i as int)),
                decreases t@.len() - i,
            {
                proof {
                    let ghost vv = *v;
                    assert(decreases_to!(vv => vv->Table_0));
                    assert(decreases_to!(*t => t@));
                    assert(decreases_to!(t@ => t@[i as int]));
                    assert(decreases_to!(t@[i as int] => t@[i as int].1));
                }
                put_text(out, t[i].0.as_str());
                put_value(out, &t[i].1);
                proof {
                    let s1 = m.subrange(0, i + 1);
                    assert(s1.subrange(0, s1.len() - 1) =~= m.subrange(0, i as int));
                    assert(s1[s1.len() - 1] == (t@[i as int].0@, config_model(t@[i as int].1)));
                }
                i += 1;
            }
            assert(m.subrange(0, t@.len() as int) =~= m);
            assert(out@ =~= old(out)@ + enc_value(config_model(*v)));
        },
    }
}


/// The key-ordered entries of a configuration map, with their count.
pub open spec fn enc_config(m: Map<Seq<char>, ConfigValueV>) -> Seq<u8> {
    enc_nat(entries_of(m).len()) + enc_entries(entries_of(m))
}

fn put_config(out: &mut Vec<u8>, c: &Keyed<ConfigValue>)
    ensures
        final(out)@ == old(out)@ + enc_config(c@),
{
    let n = c.len();
    put_nat(out, n as u64);
    let ghost m = c.pairs();
    let ghost start = out@;
    let mut i: usize = 0;
    while i < n
        invariant
            n == m.len(),
            m == c.pairs(),
            i <= n,
            out@ == start + enc_entries(m.subrange(0, i as int)),
        decreases n - i,
    {
        let (k, v) = c.entry(i);
        put_text(out, k.as_str());
        put_value(out, v);
        proof {
            let s1 = m.subrange(0, i + 1);
            assert(s1.subrange(0, s1.len() - 1) =~= m.subrange(0, i as int));
        }
        i += 1;
    }
    assert(m.subrange(0, n as int) =~= m);
    assert(out@ =~= old(out)@ + enc_config(c@));
}

// ── Nodes, edges, modulations ──────────────────

pub open spec fn enc_kind(k: NodeKindV) -> Seq<u8> {
    match k {
        NodeKindV::Source => seq![1u8],
        NodeKindV::Processor => seq![2u8],
        NodeKindV::Analyzer => seq![3u8],
        NodeKindV::Sink => seq![4u8],
        NodeKindV::Junction => seq![5u8],
        NodeKindV::Foreign(s) => seq![6u8] + enc_text(s),
        NodeKindV::Intent => seq![7u8],
        NodeKindV::SubGraph => seq![8u8],
        NodeKindV::InputProxy => seq![9u8],
        NodeKindV::OutputProxy => seq![10u8],
        NodeKindV::Metadata => seq![11u8],
        NodeKindV::Boundary => seq![12u8],
    }
}

fn put_kind(out: &mut Vec<u8>, k: &NodeKind)
    ensures
        final(out)@ == old(out)@ + enc_kind(k@),
{
    match k {
        NodeKind::Source => put_byte(out, 1u8),
        NodeKind::Processor => put_byte(out, 2u8),
        NodeKind::Analyzer => put_byte(out, 3u8),
        NodeKind::Sink => put_byte(out, 4u8),
        NodeKind::Junction => put_byte(out, 5u8),
        NodeKind::Foreign(s) => {
            put_byte(out, 6u8);
            put_text(out, s.as_str());
            assert(out@ =~= old(out)@ + enc_kind(k@));
        },
        NodeKind::Intent => put_byte(out, 7u8),
        NodeKind::SubGraph => put_byte(out, 8u8),
        NodeKind::InputProxy => put_byte(out, 9u8),
        NodeKind::OutputProxy => put_byte(out, 10u8),
        NodeKind::Metadata => put_byte(out, 11u8),
        NodeKind::Boundary => put_byte(out, 12u8),
    }
}

pub open spec fn enc_direction(d: PortDirection) -> u8 {
    match d {
        PortDirection::Input => 1u8,
        PortDirection::Output => 2u8,
    }
}

pub open spec fn enc_domain(d: ExecutionDomain) -> u8 {
    match d {
        ExecutionDomain::Sample => 1u8,
        ExecutionDomain::Block => 2u8,
        ExecutionDomain::Timeline => 3u8,
        ExecutionDomain::Background => 4u8,
    }
}

pub open spec fn enc_data_type(t: DataType) -> Seq<u8> {
    match t {
        DataType::Audio { channels } => seq![1u8] + enc_nat(channels as nat),
        DataType::Control => seq![2u8],
        DataType::Midi => seq![3u8],
        DataType::Spectral { bins } => seq![4u8] + enc_nat(bins as nat),
        DataType::Blob => seq![5u8],
        DataType::Meta => seq![6u8],
    }
}

pub open spec fn enc_port(p: TypedPortV) -> Seq<u8> {
    enc_text(p.name) + seq![enc_direction(p.direction), enc_domain(p.domain)] + enc_data_type(p.data_type)
}

pub open spec fn enc_ports(ps: Seq<TypedPortV>) -> Seq<u8>
    decreases ps.len(),
{
    if ps.len() == 0 {
        Seq::empty()
    } else {
        enc_ports(ps.drop_last()) + enc_port(ps.last())
    }
}

fn put_port(out: &mut Vec<u8>, p: &TypedPort)
    ensures
        final(out)@ == old(out)@ + enc_port(p@),
{
    put_text(out, p.name.as_str());
    let d: u8 = match p.direction {
        PortDirection::Input => 1u8,
        PortDirection::Output => 2u8,
    };
    put_byte(out, d);
    let m: u8 = match p.domain {
        ExecutionDomain::Sample => 1u8,
        ExecutionDomain::Block => 2u8,
        ExecutionDomain::Timeline => 3u8,
        ExecutionDomain::Background => 4u8,
    };
    put_byte(out, m);
    match p.data_type {
        DataType::Audio { channels } => {
            put_byte(out, 1u8);
            put_nat(out, channels as u64);
        },
        DataType::Control => put_byte(out, 2u8),
        DataType::Midi => put_byte(out, 3u8),
        DataType::Spectral { bins } => {
            put_byte(out, 4u8);
            put_nat(out, bins as u64);
        },
        DataType::Blob => put_byte(out, 5u8),
        DataType::Meta => put_byte(out, 6u8),
    }
    assert(out@ =~= old(out)@ + enc_port(p@));
}

pub open spec fn enc_meta(m: MetadataRef) -> Seq<u8> {
    match m.0 {
        None => seq![0u8],
        Some(id) => seq![1u8] + enc_id(id.0),
    }
}

pub open spec fn enc_node(n: NodeV) -> Seq<u8> {
    encode_utf8("node:"@) + enc_id(n.id) + enc_kind(n.kind) + enc_nat(n.ports.len()) + enc_ports(n.ports)
        + enc_config(n.config) + enc_meta(n.metadata)
}

fn put_node(out: &mut Vec<u8>, n: &Node)
    ensures
        final(out)@ == old(out)@ + enc_node(n@),
{
    put_lit(out, "node:");
    put_id(out, n.id.0);
    put_kind(out, &n.kind);
    put_nat(out, n.ports.len() as u64);
    let ghost ps = seq_model(n.ports@);
    let ghost start = out@;
    let mut i: usize = 0;
    while i < n.ports.len()
        invariant
            ps == seq_model(n.ports@),
            i <= n.ports@.len(),
            out@ == start + enc_ports(ps.take(i as int)),
        decreases n.ports@.len() - i,
    {
        put_port(out, &n.ports[i]);
        proof {
            assert(ps.take(i + 1).drop_last() =~= ps.take(i as int));
        }
        i += 1;
    }
    assert(ps.take(n.ports@.len() as int) =~= ps);
    let ghost before_config = out@;
    put_config(out, &n.config);
    match n.metadata.0 {
        None => put_byte(out, 0u8),
        Some(id) => {
            put_byte(out, 1u8);
            put_id(out, id.0);
        },
    }
    assert(out@ =~= old(out)@ + enc_node(n@));
}

pub open spec fn enc_port_ref(p: PortRefV) -> Seq<u8> {
    enc_id(p.node_id) + enc_text(p.port_name)
}

fn put_port_ref(out: &mut Vec<u8>, p: &PortRef)
    ensures
        final(out)@ == old(out)@ + enc_port_ref(p@),
{
    put_id(out, p.node_id.0);
    put_text(out, p.port_name.as_str());
    assert(out@ =~= old(out)@ + enc_port_ref(p@));
}

pub open spec fn enc_edge_kind(k: EdgeKind) -> u8 {
    match k {
        EdgeKind::Normal => 0u8,
        EdgeKind::Feedback => 1u8,
    }
}

fn edge_kind_byte(k: EdgeKind) -> (b: u8)
    ensures
        b == enc_edge_kind(k),
{
    match k {
        EdgeKind::Normal => 0u8,
        EdgeKind::Feedback => 1u8,
    }
}

pub open spec fn enc_edge(e: EdgeV) -> Seq<u8> {
    encode_utf8("edge:"@) + enc_id(e.id) + enc_port_ref(e.source) + enc_port_ref(e.target) + seq![enc_edge_kind(e.kind)]
}

fn put_edge(out: &mut Vec<u8>, e: &Edge)
    ensures
        final(out)@ == old(out)@ + enc_edge(e@),
{
    put_lit(out, "edge:");
    put_id(out, e.id.0);
    put_port_ref(out, &e.source);
    put_port_ref(out, &e.target);
    put_byte(out, edge_kind_byte(e.kind));
    assert(out@ =~= old(out)@ + enc_edge(e@));
}

pub open spec fn enc_modulation(m: ModulationV) -> Seq<u8> {
    encode_utf8("modulation:"@) + enc_id(m.id) + enc_port_ref(m.source) + enc_id(m.target_node) + enc_text(m.target_param)
        + enc_nat(m.amount as nat)
}

fn put_modulation(out: &mut Vec<u8>, m: &Modulation)
    ensures
        final(out)@ == old(out)@ + enc_modulation(m@),
{
    put_lit(out, "modulation:");
    put_id(out, m.id.0);
    put_port_ref(out, &m.source);
    put_id(out, m.target_node.0);
    put_text(out, m.target_param.as_str());
    put_nat(out, m.amount as u64);
    assert(out@ =~= old(out)@ + enc_modulation(m@));
}

// ── Whole graph ──────────────────

pub open spec fn enc_node_list(m: Map<u128, NodeV>, ids: Seq<u128>) -> Seq<u8>
    decreases ids.len(),
{
    if ids.len() == 0 {
        Seq::empty()
    } else {
        enc_node_list(m, ids.drop_last()) + enc_node(m[ids.last()])
    }
}

pub open spec fn enc_edge_list(m: Map<u128, EdgeV>, ids: Seq<u128>) -> Seq<u8>
    decreases ids.len(),
{
    if ids.len() == 0 {
        Seq::empty()
    } else {
        enc_edge_list(m, ids.drop_last()) + enc_edge(m[ids.last()])
    }
}

pub open spec fn enc_modulation_list(m: Map<u128, ModulationV>, ids: Seq<u128>) -> Seq<u8>
    decreases ids.len(),
{
    if ids.len() == 0 {
        Seq::empty()
    } else {
        enc_modulation_list(m, ids.drop_last()) + enc_modulation(m[ids.last()])
    }
}

/// The canonical bytes of a graph: nodes, edges and modulations in key
/// order, then the revision. The applied-patch history is not included.
pub open spec fn enc_graph(g: GraphV) -> Seq<u8> {
    encode_utf8("dirtydata:graph:v1:"@) + enc_node_list(g.nodes, ordered_ids(g.nodes)) + enc_edge_list(
        g.edges,
        ordered_ids(g.edges),
    ) + enc_modulation_list(g.modulations, ordered_ids(g.modulations)) + enc_nat(g.revision as nat)
}

/// The hash of a graph, for integrity verification.
pub open spec fn graph_digest(g: GraphV) -> Seq<u8> {
    blake3_digest(enc_graph(g))
}

/// Hashes a graph for integrity verification.
pub fn hash_graph(graph: &Graph) -> (r: [u8; 32])
    ensures
        r@ == graph_digest(graph@),
{
    let mut out: Vec<u8> = Vec::new();
    put_lit(&mut out, "dirtydata:graph:v1:");
    let ghost g = graph@;
    let nk = sorted_keys_of(&graph.nodes);
    proof {
        assert(g.nodes.dom() =~= graph.nodes@.dom());
        crate::walk::lemma_ordered_ids(g.nodes, nk@);
    }
    let ghost s0 = out@;
    let mut i: usize = 0;
    while i < nk.len()
        invariant
            g == graph@,
            i <= nk@.len(),
            forall|k: u128| graph.nodes@.contains_key(k) <==> nk@.contains(k),
            out@ == s0 + enc_node_list(g.nodes, nk@.take(i as int)),
        decreases nk@.len() - i,
    {
        let k = nk[i];
        assert(nk@.contains(k));
        let n = graph.nodes.get(&k).unwrap();
        put_node(&mut out, n);
        proof {
            assert(nk@.take(i + 1).drop_last() =~= nk@.take(i as int));
            assert(g.nodes[k] == n@);
        }
        i += 1;
    }
    assert(nk@.take(nk@.len() as int) =~= nk@);
    let ek = sorted_keys_of(&graph.edges);
    proof {
        assert(g.edges.dom() =~= graph.edges@.dom());
        crate::walk::lemma_ordered_ids(g.edges, ek@);
    }
    let ghost s1 = out@;
    let mut i: usize = 0;
    while i < ek.len()
        invariant
            g == graph@,
            i <= ek@.len(),
            forall|k: u128| graph.edges@.contains_key(k) <==> ek@.contains(k),
            out@ == s1 + enc_edge_list(g.edges, ek@.take(i as int)),
        decreases ek@.len() - i,
    {
        let k = ek[i];
        assert(ek@.contains(k));
        let e = graph.edges.get(&k).unwrap();
        put_edge(&mut out, e);
        proof {
            assert(ek@.take(i + 1).drop_last() =~= ek@.take(i as int));
            assert(g.edges[k] == e@);
        }
        i += 1;
    }
    assert(ek@.take(ek@.len() as int) =~= ek@);
    let mk = sorted_keys_of(&graph.modulations);
    proof {
        assert(g.modulations.dom() =~= graph.modulations@.dom());
        crate::walk::lemma_ordered_ids(g.modulations, mk@);
    }
    let ghost s2 = out@;
    let mut i: usize = 0;
    while i < mk.len()
        invariant
            g == graph@,
            i <= mk@.len(),
            forall|k: u128| graph.modulations@.contains_key(k) <==> mk@.contains(k),
            out@ == s2 + enc_modulation_list(g.modulations, mk@.take(i as int)),
        decreases mk@.len() - i,
    {
        let k = mk[i];
        assert(mk@.contains(k));
        let m = graph.modulations.get(&k).unwrap();
        put_modulation(&mut out, m);
        proof {
            assert(mk@.take(i + 1).drop_last() =~= mk@.take(i as int));
            assert(g.modulations[k] == m@);
        }
        i += 1;
    }
    assert(mk@.take(mk@.len() as int) =~= mk@);
    put_nat(&mut out, graph.revision.0);
    assert(out@ =~= enc_graph(g));
    blake3_hash(out.as_slice())
}


// ── Operations and patches ──────────────────

pub open spec fn enc_opt_value(o: Option<ConfigValueV>) -> Seq<u8> {
    match o {
        None => seq![0u8],
        Some(v) => seq![1u8] + enc_value(v),
    }
}

pub open spec fn enc_change(c: ConfigChangeV) -> Seq<u8> {
    enc_opt_value(c.old) + enc_opt_value(c.new)
}

pub open spec fn enc_changes(t: Seq<(Seq<char>, ConfigChangeV)>) -> Seq<u8>
    decreases t.len(),
{
    if t.len() == 0 {
        Seq::empty()
    } else {
        enc_changes(t.drop_last()) + enc_text(t.last().0) + enc_change(t.last().1)
    }
}

/// The key-ordered entries of a configuration delta, with their count.
pub open spec fn enc_delta(m: Map<Seq<char>, ConfigChangeV>) -> Seq<u8> {
    enc_nat(entries_of(m).len()) + enc_changes(entries_of(m))
}

fn put_opt_value(out: &mut Vec<u8>, o: &Option<ConfigValue>)
    ensures
        final(out)@ == old(out)@ + enc_opt_value(option_model(*o)),
{
    match o {
        None => put_byte(out, 0u8),
        Some(v) => {
            put_byte(out, 1u8);
            put_value(out, v);
            assert(out@ =~= old(out)@ + enc_opt_value(option_model(*o)));
        },
    }
}

fn put_delta(out: &mut Vec<u8>, c: &Keyed<ConfigChange>)
    ensures
        final(out)@ == old(out)@ + enc_delta(c@),
{
    let n = c.len();
    put_nat(out, n as u64);
    let ghost m = c.pairs();
    let ghost start = out@;
    let mut i: usize = 0;
    while i < n
        invariant
            n == m.len(),
            m == c.pairs(),
            i <= n,
            out@ == start + enc_changes(m.take(i as int)),
        decreases n - i,
    {
        let (k, v) = c.entry(i);
        put_text(out, k.as_str());
        put_opt_value(out, &v.old);
        put_opt_value(out, &v.new);
        proof {
            assert(m.take(i + 1).drop_last() =~= m.take(i as int));
        }
        i += 1;
    }
    assert(m.take(n as int) =~= m);
    assert(out@ =~= old(out)@ + enc_delta(c@));
}

pub open spec fn enc_opt_port_ref(o: Option<PortRefV>) -> Seq<u8> {
    match o {
        None => seq![0u8],
        Some(p) => seq![1u8] + enc_port_ref(p),
    }
}

pub open spec fn enc_edge_delta(d: EdgeDeltaV) -> Seq<u8> {
    enc_opt_port_ref(d.source) + enc_opt_port_ref(d.target) + match d.kind {
        None => seq![0u8],
        Some(k) => seq![1u8, enc_edge_kind(k)],
    }
}

fn put_opt_port_ref(out: &mut Vec<u8>, o: &Option<PortRef>)
    ensures
        final(out)@ == old(out)@ + enc_opt_port_ref(option_model(*o)),
{
    match o {
        None => put_byte(out, 0u8),
        Some(p) => {
            put_byte(out, 1u8);
            put_port_ref(out, p);
            assert(out@ =~= old(out)@ + enc_opt_port_ref(option_model(*o)));
        },
    }
}

fn put_edge_delta(out: &mut Vec<u8>, d: &EdgeDelta)
    ensures
        final(out)@ == old(out)@ + enc_edge_delta(d@),
{
    put_opt_port_ref(out, &d.source);
    put_opt_port_ref(out, &d.target);
    match d.kind {
        None => put_byte(out, 0u8),
        Some(k) => {
            put_byte(out, 1u8);
            put_byte(out, edge_kind_byte(k));
        },
    }
    assert(out@ =~= old(out)@ + enc_edge_delta(d@));
}

pub open spec fn enc_op(op: OperationV) -> Seq<u8> {
    match op {
        OperationV::AddNode(n) => encode_utf8("op:add_node:"@) + enc_node(n),
        OperationV::RemoveNode(id) => encode_utf8("op:remove_node:"@) + enc_id(id),
        OperationV::ReplaceNode(n) => encode_utf8("op:replace_node:"@) + enc_node(n),
        OperationV::ModifyConfig { node_id, delta } => encode_utf8("op:modify_config:"@) + enc_id(node_id) + enc_delta(delta),
        OperationV::AddEdge(e) => encode_utf8("op:add_edge:"@) + enc_edge(e),
        OperationV::RemoveEdge(id) => encode_utf8("op:remove_edge:"@) + enc_id(id),
        OperationV::ModifyEdge { edge_id, delta } => encode_utf8("op:modify_edge:"@) + enc_id(edge_id) + enc_edge_delta(delta),
        OperationV::AddModulation(m) => encode_utf8("op:add_modulation:"@) + enc_modulation(m),
        OperationV::RemoveModulation(id) => encode_utf8("op:remove_modulation:"@) + enc_id(id),
    }
}

fn put_op(out: &mut Vec<u8>, op: &Operation)
    ensures
        final(out)@ == old(out)@ + enc_op(op@),
{
    match op {
        Operation::AddNode(n) => {
            put_lit(out, "op:add_node:");
            put_node(out, n);
        },
        Operation::RemoveNode(id) => {
            put_lit(out, "op:remove_node:");
            put_id(out, id.0);
        },
        Operation::ReplaceNode(n) => {
            put_lit(out, "op:replace_node:");
            put_node(out, n);
        },
        Operation::ModifyConfig { node_id, delta } => {
            put_lit(out, "op:modify_config:");
            put_id(out, node_id.0);
            put_delta(out, delta);
        },
        Operation::AddEdge(e) => {
            put_lit(out, "op:add_edge:");
            put_edge(out, e);
        },
        Operation::RemoveEdge(id) => {
            put_lit(out, "op:remove_edge:");
            put_id(out, id.0);
        },
        Operation::ModifyEdge { edge_id, delta } => {
            put_lit(out, "op:modify_edge:");
            put_id(out, edge_id.0);
            put_edge_delta(out, delta);
        },
        Operation::AddModulation(m) => {
            put_lit(out, "op:add_modulation:");
            put_modulation(out, m);
        },
        Operation::RemoveModulation(id) => {
            put_lit(out, "op:remove_modulation:");
            put_id(out, id.0);
        },
    }
    assert(out@ =~= old(out)@ + enc_op(op@));
}

pub open spec fn enc_ops(ops: Seq<OperationV>) -> Seq<u8>
    decreases ops.len(),
{
    if ops.len() == 0 {
        Seq::empty()
    } else {
        enc_ops(ops.drop_last()) + enc_op(ops.last())
    }
}

pub open spec fn enc_parents(ps: Seq<u128>) -> Seq<u8>
    decreases ps.len(),
{
    if ps.len() == 0 {
        Seq::empty()
    } else {
        enc_parents(ps.drop_last()) + encode_utf8("parent:"@) + enc_id(ps.last())
    }
}

/// The canonical bytes of a patch: its operations in order, its intent
/// reference and its parents in order. Identity, timestamp, source and
/// trust are not part of it.
pub open spec fn enc_patch(ops: Seq<OperationV>, intent: Option<u128>, parents: Seq<u128>) -> Seq<u8> {
    encode_utf8("dirtydata:patch:v1:"@) + enc_ops(ops) + match intent {
        Some(i) => encode_utf8("intent:"@) + enc_id(i),
        None => Seq::empty(),
    } + enc_parents(parents)
}

/// The content hash of a patch.
pub open spec fn patch_digest(ops: Seq<OperationV>, intent: Option<u128>, parents: Seq<u128>) -> Seq<u8> {
    blake3_digest(enc_patch(ops, intent, parents))
}

/// Hashes a patch by its content: operations, intent and parents.
pub fn hash_patch(patch: &Patch) -> (r: [u8; 32])
    ensures
        r@ == patch_digest(patch@.operations, patch@.intent_ref, patch@.parents),
{
    let mut out: Vec<u8> = Vec::new();
    put_lit(&mut out, "dirtydata:patch:v1:");
    let ghost ops = patch@.operations;
    let ghost s0 = out@;
    let mut i: usize = 0;
    while i < patch.operations.len()
        invariant
            ops == patch@.operations,
            i <= patch.operations@.len(),
            out@ == s0 + enc_ops(ops.take(i as int)),
        decreases patch.operations@.len() - i,
    {
        put_op(&mut out, &patch.operations[i]);
        proof {
            assert(ops.take(i + 1).drop_last() =~= ops.take(i as int));
        }
        i += 1;
    }
    assert(ops.take(patch.operations@.len() as int) =~= ops);
    let ghost s1 = out@;
    match patch.intent_ref {
        Some(id) => {
            put_lit(&mut out, "intent:");
            put_id(&mut out, id.0);
        },
        None => {},
    }
    let ghost s2 = out@;
    let ghost ps = patch@.parents;
    let mut i: usize = 0;
    while i < patch.parents.len()
        invariant
            ps == patch@.parents,
            i <= patch.parents@.len(),
            out@ == s2 + enc_parents(ps.take(i as int)),
        decreases patch.parents@.len() - i,
    {
        put_lit(&mut out, "parent:");
        put_id(&mut out, patch.parents[i].0);
        proof {
            assert(ps.take(i + 1).drop_last() =~= ps.take(i as int));
        }
        i += 1;
    }
    assert(ps.take(patch.parents@.len() as int) =~= ps);
    assert(out@ =~= enc_patch(ops, patch@.intent_ref, ps));
    blake3_hash(out.as_slice())
}

} // verus!
