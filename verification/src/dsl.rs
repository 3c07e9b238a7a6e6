//! The review language: a read-only text rendering of the graph.
//!
//! ```text
//! source "Sine" {
//!   out: audio(2ch) @sample
//! }
//! Sine.out -> Gain.in  # normal
//! ```
//!
//! Floating-point settings are printed from texts that the caller supplies,
//! keyed by bit pattern (this library does no floating-point arithmetic).
use vstd::prelude::*;
use std::collections::BTreeMap;
use crate::actions::{name_of, node_name};
use crate::hash::{graph_digest, hash_graph};
use crate::ids::{ulid_text, StableId};
use crate::ir::{seq_model, Edge, EdgeKind, EdgeV, Graph, GraphV, Node, NodeV};
use crate::keyed::{entries_of, lemma_pairs_map};
use crate::hex::hex_short;
use crate::text::{dec_digits, dec_int, dec_i64, dec_u64, hex_seq, key_equal, owned, push_str};
use crate::types::{
    config_list_model, config_model, config_table_model, ConfigValue, ConfigValueV, DataType, ExecutionDomain, NodeKind,
    NodeKindV, PortDirection, TypedPort, TypedPortV,
};
use crate::walk::{gather, lemma_gather_grown, lemma_ordered_ids, ordered_ids, sorted_keys_of};

verus! {

broadcast use {vstd::std_specs::btree::group_btree_axioms, vstd::laws_cmp::group_laws_cmp};

/// The text of a float, from the caller's table; a float missing from the
/// table prints as `?`.
pub open spec fn float_str(texts: Map<u64, String>, bits: u64) -> Seq<char> {
    if texts.contains_key(bits) {
        texts[bits]@
    } else {
        "?"@
    }
}

/// How a configuration value prints.
pub open spec fn fmt_value(v: ConfigValueV, texts: Map<u64, String>) -> Seq<char>
    decreases v,
{
    match v {
        ConfigValueV::Float(b) => float_str(texts, b),
        ConfigValueV::Int(i) => dec_int(i as int),
        ConfigValueV::Bool(b) => if b { "true"@ } else { "false"@ },
        ConfigValueV::Str(s) => "\""@ + s + "\""@,
        ConfigValueV::List(l) => "["@ + fmt_list(l, texts) + "]"@,
        ConfigValueV::Table(t) => "{"@ + fmt_entries(t, texts) + "}"@,
    }
}

/// Values joined by ", ".
pub open spec fn fmt_list(l: Seq<ConfigValueV>, texts: Map<u64, String>) -> Seq<char>
    decreases l,
{
    if l.len() == 0 {
        Seq::empty()
    } else if l.len() == 1 {
        fmt_value(l[0], texts)
    } else {
        fmt_list(l.subrange(0, l.len() - 1), texts) + ", "@ + fmt_value(l[l.len() - 1], texts)
    }
}

/// Entries `key: value` joined by ", ".
pub open spec fn fmt_entries(t: Seq<(Seq<char>, ConfigValueV)>, texts: Map<u64, String>) -> Seq<char>
    decreases t,
{
    if t.len() == 0 {
        Seq::empty()
    } else if t.len() == 1 {
        t[0].0 + ": "@ + fmt_value(t[0].1, texts)
    } else {
        fmt_entries(t.subrange(0, t.len() - 1), texts) + ", "@ + t[t.len() - 1].0 + ": "@ + fmt_value(t[t.len() - 1].1, texts)
    }
}

/// Formats a configuration value.
pub fn format_config_value(v: &ConfigValue, texts: &BTreeMap<u64, String>) -> (s: String)
    ensures
        s@ == fmt_value(v@, texts@),
    decreases v,
{
    match v {
        ConfigValue::Float(b) => match texts.get(b) {
            Some(t) => t.clone(),
            None => owned("?"),
        },
        ConfigValue::Int(i) => dec_i64(*i),
        ConfigValue::Bool(b) => if *b { owned("true") } else { owned("false") },
        ConfigValue::String(t) => {
            let mut s = owned("\"");
            push_str(&mut s, t.as_str());
            push_str(&mut s, "\"");
            s
        },
        ConfigValue::List(items) => {
            let ghost m = config_list_model(*items);
            let mut s = owned("[");
            let ghost start = s@;
            let mut i: usize = 0;
            while i < items.len()
                invariant
                    *v == ConfigValue::List(*items),
                    m == config_list_model(*items),
                    i <= items@.len(),
                    s@ == start + fmt_list(m.subrange(0, i as int), texts@),
                decreases items@.len() - i,
            {
                proof {
                    let ghost vv = *v;
                    assert(decreases_to!(vv => vv->List_0));
                    assert(decreases_to!(*items => items@));
                    assert(decreases_to!(items@ => items@[i as int]));
                }
                if i > 0 {
                    push_str(&mut s, ", ");
                }
                let t = format_config_value(&items[i], texts);
                push_str(&mut s, t.as_str());
                proof {
                    let s1 = m.subrange(0, i + 1);
                    assert(s1.subrange(0, s1.len() - 1) =~= m.subrange(0, i as int));
                    assert(s1[s1.len() - 1] == config_model(items@[i as int]));
                    if i == 0 {
                        assert(s1[0] == config_model(items@[0]));
                        assert(m.subrange(0, 0).len() == 0);
                    }
                    assert(s@ =~= start + fmt_list(s1, texts@));
                }
                i += 1;
            }
            proof {
                assert(m.subrange(0, items@.len() as int) =~= m);
            }
            push_str(&mut s, "]");
            s
        },
        ConfigValue::Table(t) => {
            let ghost m = config_table_model(*t);
            let mut s = owned("{");
            let ghost start = s@;
            let mut i: usize = 0;
            while i < t.len()
                invariant
                    *v == ConfigValue::Table(*t),
                    m == config_table_model(*t),
                    i <= t@.len(),
                    s@ == start + fmt_entries(m.subrange(0, i as int), texts@),
                decreases t@.len() - i,
            {
                proof {
                    let ghost vv = *v;
                    assert(decreases_to!(vv => vv->Table_0));
                    assert(decreases_to!(*t => t@));
                    assert(decreases_to!(t@ => t@[i as int]));
                    assert(decreases_to!(t@[i as int] => t@[i as int].1));
                }
                if i > 0 {
                    push_str(&mut s, ", ");
                }
                push_str(&mut s, t[i].0.as_str());
                push_str(&mut s, ": ");
                let x = format_config_value(&t[i].1, texts);
                push_str(&mut s, x.as_str());
                proof {
                    let s1 = m.subrange(0, i + 1);
                    assert(s1.subrange(0, s1.len() - 1) =~= m.subrange(0, i as int));
                    assert(s1[s1.len() - 1] == (t@[i as int].0@, config_model(t@[i as int].1)));
                    if i == 0 {
                        assert(s1[0] == (t@[0].0@, config_model(t@[0].1)));
                    }
                    assert(s@ =~= start + fmt_entries(s1, texts@));
                }
                i += 1;
            }
            proof {
                assert(m.subrange(0, t@.len() as int) =~= m);
            }
            push_str(&mut s, "}");
            s
        },
    }
}

/// How a data type prints.
pub open spec fn fmt_data_type(dt: DataType) -> Seq<char> {
    match dt {
        DataType::Audio { channels } => "audio("@ + dec_digits(channels as nat) + "ch)"@,
        DataType::Control => "control"@,
        DataType::Midi => "midi"@,
        DataType::Spectral { bins } => "spectral("@ + dec_digits(bins as nat) + ")"@,
        DataType::Blob => "blob"@,
        DataType::Meta => "meta"@,
    }
}

/// Formats a data type.
pub fn format_data_type(dt: &DataType) -> (s: String)
    ensures
        s@ == fmt_data_type(*dt),
{
    match dt {
        DataType::Audio { channels } => {
            let mut s = owned("audio(");
            let d = dec_u64(*channels as u64);
            push_str(&mut s, d.as_str());
            push_str(&mut s, "ch)");
            s
        },
        DataType::Control => owned("control"),
        DataType::Midi => owned("midi"),
        DataType::Spectral { bins } => {
            let mut s = owned("spectral(");
            let d = dec_u64(*bins as u64);
            push_str(&mut s, d.as_str());
            push_str(&mut s, ")");
            s
        },
        DataType::Blob => owned("blob"),
        DataType::Meta => owned("meta"),
    }
}


// ── Nodes ──────────────────

pub open spec fn dir_word(d: PortDirection) -> Seq<char> {
    match d {
        PortDirection::Input => "in"@,
        PortDirection::Output => "out"@,
    }
}

pub open spec fn domain_tag(d: ExecutionDomain) -> Seq<char> {
    match d {
        ExecutionDomain::Sample => "@sample"@,
        ExecutionDomain::Block => "@block"@,
        ExecutionDomain::Timeline => "@timeline"@,
        ExecutionDomain::Background => "@background"@,
    }
}

/// The line of a port; its name shows only when it differs from its direction.
pub open spec fn port_line(p: TypedPortV) -> Seq<char> {
    if p.name == dir_word(p.direction) {
        "  "@ + dir_word(p.direction) + ": "@ + fmt_data_type(p.data_type) + " "@ + domain_tag(p.domain) + "\n"@
    } else {
        "  "@ + dir_word(p.direction) + " \""@ + p.name + "\": "@ + fmt_data_type(p.data_type) + " "@ + domain_tag(p.domain) + "\n"@
    }
}

pub open spec fn port_lines(ps: Seq<TypedPortV>) -> Seq<char>
    decreases ps.len(),
{
    if ps.len() == 0 {
        Seq::empty()
    } else {
        port_lines(ps.drop_last()) + port_line(ps.last())
    }
}

/// The lines of the settings other than `name`, in key order.
pub open spec fn config_lines(es: Seq<(Seq<char>, ConfigValueV)>, texts: Map<u64, String>) -> Seq<char>
    decreases es.len(),
{
    if es.len() == 0 {
        Seq::empty()
    } else {
        config_lines(es.drop_last(), texts) + if es.last().0 == "name"@ {
            Seq::empty()
        } else {
            "    "@ + es.last().0 + ": "@ + fmt_value(es.last().1, texts) + "\n"@
        }
    }
}

/// The body of a node block: its ports, then its settings (if any besides
/// `name`).
pub open spec fn node_body(n: NodeV, texts: Map<u64, String>) -> Seq<char> {
    let lines = config_lines(entries_of(n.config), texts);
    port_lines(n.ports) + if lines.len() == 0 { Seq::empty() } else { "  config {\n"@ + lines + "  }\n"@ }
}

fn dir_str(d: PortDirection) -> (r: &'static str)
    ensures
        r@ == dir_word(d),
{
    match d {
        PortDirection::Input => "in",
        PortDirection::Output => "out",
    }
}

fn domain_str(d: ExecutionDomain) -> (r: &'static str)
    ensures
        r@ == domain_tag(d),
{
    match d {
        ExecutionDomain::Sample => "@sample",
        ExecutionDomain::Block => "@block",
        ExecutionDomain::Timeline => "@timeline",
        ExecutionDomain::Background => "@background",
    }
}

fn write_port_line(out: &mut String, port: &TypedPort)
    ensures
        final(out)@ == old(out)@ + port_line(port@),
{
    let dir = dir_str(port.direction);
    let dtype = format_data_type(&port.data_type);
    let mut line = owned("  ");
    push_str(&mut line, dir);
    if key_equal(port.name.as_str(), dir) {
        push_str(&mut line, ": ");
    } else {
        push_str(&mut line, " \"");
        push_str(&mut line, port.name.as_str());
        push_str(&mut line, "\": ");
    }
    push_str(&mut line, dtype.as_str());
    push_str(&mut line, " ");
    push_str(&mut line, domain_str(port.domain));
    push_str(&mut line, "\n");
    assert(line@ =~= port_line(port@));
    push_str(out, line.as_str());
}

/// Writes the body of a node block.
pub fn render_node_body(out: &mut String, node: &Node, texts: &BTreeMap<u64, String>)
    ensures
        final(out)@ == old(out)@ + node_body(node@, texts@),
{
    let ghost ps = node@.ports;
    let ghost start = out@;
    let mut i: usize = 0;
    proof {
        assert(ps.take(0) =~= Seq::<TypedPortV>::empty());
        assert(out@ =~= start + port_lines(ps.take(0)));
    }
    while i < node.ports.len()
        invariant
            ps == node@.ports,
            ps == seq_model(node.ports@),
            i <= ps.len(),
            out@ == start + port_lines(ps.take(i as int)),
        decreases ps.len() - i,
    {
        let port = &node.ports[i];
        write_port_line(out, port);
        proof {
            assert(ps.take(i + 1).drop_last() =~= ps.take(i as int));
            assert(ps[i as int] == port@);
            assert(out@ =~= start + port_lines(ps.take(i + 1)));
        }
        i += 1;
    }
    proof {
        assert(ps.take(ps.len() as int) =~= ps);
    }
    let n = node.config.len();
    let ghost es = node.config.pairs();
    let mut lines = String::new();
    let mut any = false;
    let mut j: usize = 0;
    proof {
        assert(es.take(0) =~= Seq::<(Seq<char>, ConfigValueV)>::empty());
    }
    while j < n
        invariant
            n == es.len(),
            es == node.config.pairs(),
            es == entries_of(node@.config),
            j <= n,
            lines@ == config_lines(es.take(j as int), texts@),
            any == (lines@.len() > 0),
        decreases n - j,
    {
        let (key, value) = node.config.entry(j);
        proof {
            assert(es.take(j + 1).drop_last() =~= es.take(j as int));
            reveal_strlit("name");
        }
        if !key_equal(key.as_str(), "name") {
            push_str(&mut lines, "    ");
            push_str(&mut lines, key.as_str());
            push_str(&mut lines, ": ");
            let t = format_config_value(value, texts);
            push_str(&mut lines, t.as_str());
            push_str(&mut lines, "\n");
            any = true;
            proof {
                reveal_strlit("\n");
            }
        }
        proof {
            assert(lines@ =~= config_lines(es.take(j + 1), texts@));
        }
        j += 1;
    }
    proof {
        assert(es.take(n as int) =~= es);
    }
    if any {
        push_str(out, "  config {\n");
        push_str(out, lines.as_str());
        push_str(out, "  }\n");
    }
    proof {
        assert(out@ =~= start + node_body(node@, texts@));
    }
}


/// The keyword of a node kind (foreign nodes print differently).
pub open spec fn kind_word(k: NodeKindV) -> Seq<char> {
    match k {
        NodeKindV::Source => "source"@,
        NodeKindV::Processor => "processor"@,
        NodeKindV::Analyzer => "analyzer"@,
        NodeKindV::Sink => "sink"@,
        NodeKindV::Junction => "junction"@,
        NodeKindV::Foreign(_) => "foreign"@,
        NodeKindV::Intent => "intent"@,
        NodeKindV::Metadata => "metadata"@,
        NodeKindV::Boundary => "boundary"@,
        NodeKindV::SubGraph => "subgraph"@,
        NodeKindV::InputProxy => "input_proxy"@,
        NodeKindV::OutputProxy => "output_proxy"@,
    }
}

/// The block of one node.
pub open spec fn node_block(n: NodeV, texts: Map<u64, String>) -> Seq<char> {
    let head = match n.kind {
        NodeKindV::Foreign(plugin) => "foreign \""@ + name_of(n) + "\" \""@ + plugin + "\" {\n"@,
        k => kind_word(k) + " \""@ + name_of(n) + "\" {\n"@,
    };
    head + node_body(n, texts) + "}\n"@ + "\n"@
}

pub open spec fn block_at(g: GraphV, texts: Map<u64, String>) -> spec_fn(u128) -> Seq<char> {
    |id: u128| node_block(g.nodes[id], texts)
}

/// How a node is called in a connection line.
pub open spec fn label(g: GraphV, id: u128) -> Seq<char> {
    if g.nodes.contains_key(id) {
        name_of(g.nodes[id])
    } else {
        ulid_text(id)
    }
}

pub open spec fn edge_tag(k: EdgeKind) -> Seq<char> {
    match k {
        EdgeKind::Normal => "normal"@,
        EdgeKind::Feedback => "feedback"@,
    }
}

/// The line of one edge.
pub open spec fn edge_line(g: GraphV, e: EdgeV) -> Seq<char> {
    label(g, e.source.node_id) + "."@ + e.source.port_name + " -> "@ + label(g, e.target.node_id) + "."@ + e.target.port_name
        + "  # "@ + edge_tag(e.kind) + "\n"@
}

pub open spec fn line_at(g: GraphV) -> spec_fn(u128) -> Seq<char> {
    |k: u128| edge_line(g, g.edges[k])
}

/// The rendering of a graph: a header (revision, short hash, patch count),
/// a block per node and a line per connection, each in identifier order.
pub open spec fn dsl_text(g: GraphV, texts: Map<u64, String>) -> Seq<char> {
    "# DirtyData Surface DSL \u{2014} revision "@ + dec_digits(g.revision as nat) + "\n"@
        + "# Hash: blake3:"@ + hex_seq(graph_digest(g).take(8)) + "\n"@
        + "# Patches: "@ + dec_digits(g.applied.len()) + "\n"@ + "\n"@
        + gather(ordered_ids(g.nodes), block_at(g, texts))
        + if g.edges.is_empty() { Seq::empty() } else { "# Connections\n"@ + gather(ordered_ids(g.edges), line_at(g)) }
}

fn kind_str(k: &NodeKind) -> (r: &'static str)
    ensures
        r@ == kind_word(k@),
{
    match k {
        NodeKind::Source => "source",
        NodeKind::Processor => "processor",
        NodeKind::Analyzer => "analyzer",
        NodeKind::Sink => "sink",
        NodeKind::Junction => "junction",
        NodeKind::Foreign(_) => "foreign",
        NodeKind::Intent => "intent",
        NodeKind::Metadata => "metadata",
        NodeKind::Boundary => "boundary",
        NodeKind::SubGraph => "subgraph",
        NodeKind::InputProxy => "input_proxy",
        NodeKind::OutputProxy => "output_proxy",
    }
}

fn write_node_block(out: &mut String, node: &Node, texts: &BTreeMap<u64, String>)
    ensures
        final(out)@ == old(out)@ + node_block(node@, texts@),
{
    let name = node_name(node);
    match &node.kind {
        NodeKind::Foreign(plugin) => {
            push_str(out, "foreign \"");
            push_str(out, name.as_str());
            push_str(out, "\" \"");
            push_str(out, plugin.as_str());
            push_str(out, "\" {\n");
        },
        k => {
            push_str(out, kind_str(k));
            push_str(out, " \"");
            push_str(out, name.as_str());
            push_str(out, "\" {\n");
        },
    }
    let ghost mid = out@;
    render_node_body(out, node, texts);
    push_str(out, "}\n");
    push_str(out, "\n");
    proof {
        assert(out@ =~= old(out)@ + node_block(node@, texts@));
    }
}

fn node_label(graph: &Graph, id: &StableId) -> (s: String)
    ensures
        s@ == label(graph@, id.0),
{
    match graph.nodes.get(&id.0) {
        Some(n) => {
            assert(graph@.nodes[id.0] == n@);
            node_name(n)
        },
        None => id.to_text(),
    }
}

fn write_edge_line(out: &mut String, graph: &Graph, edge: &Edge)
    ensures
        final(out)@ == old(out)@ + edge_line(graph@, edge@),
{
    let src = node_label(graph, &edge.source.node_id);
    let tgt = node_label(graph, &edge.target.node_id);
    let mut line = src;
    push_str(&mut line, ".");
    push_str(&mut line, edge.source.port_name.as_str());
    push_str(&mut line, " -> ");
    push_str(&mut line, tgt.as_str());
    push_str(&mut line, ".");
    push_str(&mut line, edge.target.port_name.as_str());
    push_str(&mut line, "  # ");
    match edge.kind {
        EdgeKind::Normal => push_str(&mut line, "normal"),
        EdgeKind::Feedback => push_str(&mut line, "feedback"),
    }
    push_str(&mut line, "\n");
    assert(line@ =~= edge_line(graph@, edge@));
    push_str(out, line.as_str());
}

/// Renders the graph in the review language; `texts` gives the text of
/// each floating-point setting, by bit pattern.
pub fn render_dsl(graph: &Graph, texts: &BTreeMap<u64, String>) -> (s: String)
    ensures
        s@ == dsl_text(graph@, texts@),
{
    let ghost g = graph@;
    let mut out = owned("# DirtyData Surface DSL \u{2014} revision ");
    let rev = dec_u64(graph.revision.0);
    push_str(&mut out, rev.as_str());
    push_str(&mut out, "\n");
    push_str(&mut out, "# Hash: blake3:");
    let digest = hash_graph(graph);
    let short = hex_short(&digest);
    push_str(&mut out, short.as_str());
    push_str(&mut out, "\n");
    push_str(&mut out, "# Patches: ");
    let count = dec_u64(graph.applied_patches.len() as u64);
    push_str(&mut out, count.as_str());
    push_str(&mut out, "\n");
    push_str(&mut out, "\n");
    proof {
        assert(g.applied.len() == graph.applied_patches@.len());
    }
    let ghost head = out@;
    let ids = sorted_keys_of(&graph.nodes);
    proof {
        assert(g.nodes.dom() =~= graph.nodes@.dom());
        assert(g.edges.dom() =~= graph.edges@.dom());
        lemma_ordered_ids(g.nodes, ids@);
        assert(out@ =~= head + gather(ids@.take(0), block_at(g, texts@)));
    }
    let ghost f = block_at(g, texts@);
    let mut i: usize = 0;
    while i < ids.len()
        invariant
            g == graph@,
            i <= ids@.len(),
            ids@ == ordered_ids(g.nodes),
            forall|x: u128| graph.nodes@.contains_key(x) <==> ids@.contains(x),
            f == block_at(g, texts@),
            out@ == head + gather(ids@.take(i as int), f),
        decreases ids@.len() - i,
    {
        let id = ids[i];
        let ghost before = out@;
        assert(ids@.contains(id)) by {
            assert(ids@[i as int] == id);
        }
        if let Some(n) = graph.nodes.get(&id) {
            assert(g.nodes[id] == n@);
            write_node_block(&mut out, n, texts);
        }
        proof {
            lemma_gather_grown(head, before, out@, ids@, i as int, f);
        }
        i += 1;
    }
    proof {
        assert(ids@.take(ids@.len() as int) =~= ids@);
    }
    let ghost nodes_done = out@;
    if !graph.edges.is_empty() {
        push_str(&mut out, "# Connections\n");
        let ghost chead = out@;
        let eids = sorted_keys_of(&graph.edges);
        proof {
            lemma_ordered_ids(g.edges, eids@);
            assert(out@ =~= chead + gather(eids@.take(0), line_at(g)));
        }
        let ghost h = line_at(g);
        let mut k: usize = 0;
        while k < eids.len()
            invariant
                g == graph@,
                k <= eids@.len(),
                eids@ == ordered_ids(g.edges),
                forall|x: u128| graph.edges@.contains_key(x) <==> eids@.contains(x),
                h == line_at(g),
                out@ == chead + gather(eids@.take(k as int), h),
            decreases eids@.len() - k,
        {
            let id = eids[k];
            let ghost before = out@;
            assert(eids@.contains(id)) by {
                assert(eids@[k as int] == id);
            }
            if let Some(e) = graph.edges.get(&id) {
                assert(g.edges[id] == e@);
                write_edge_line(&mut out, graph, e);
            }
            proof {
                lemma_gather_grown(chead, before, out@, eids@, k as int, h);
            }
            k += 1;
        }
        proof {
            assert(eids@.take(eids@.len() as int) =~= eids@);
        }
    }
    proof {
        assert(out@ =~= dsl_text(g, texts@));
    }
    out
}

} // verus!
