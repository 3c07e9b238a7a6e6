use std::collections::BTreeMap;

use dirtydata::dsl::{format_config_value, format_data_type, render_dsl, render_node_body};
use dirtydata::ir::{Edge, Graph, Node};
use dirtydata::patch::{Operation, Patch};
use dirtydata::types::{ConfigValue, DataType, PortRef};

fn float_texts(values: &[f64]) -> BTreeMap<u64, String> {
    values.iter().map(|v| (v.to_bits(), format!("{}", v))).collect()
}

#[test]
fn test_render_basic_chain() {
    let src = Node::new_source("Sine");
    let gain = Node::new_processor("Gain");
    let sink = Node::new_sink("Output");

    let edge1 = Edge::new(
        PortRef { node_id: src.id, port_name: "out".into() },
        PortRef { node_id: gain.id, port_name: "in".into() },
    );
    let edge2 = Edge::new(
        PortRef { node_id: gain.id, port_name: "out".into() },
        PortRef { node_id: sink.id, port_name: "in".into() },
    );

    let patch = Patch::from_operations(vec![
        Operation::AddNode(src),
        Operation::AddNode(gain),
        Operation::AddNode(sink),
        Operation::AddEdge(edge1),
        Operation::AddEdge(edge2),
    ]);

    let mut graph = Graph::new();
    graph.apply(&patch).unwrap();

    let dsl = render_dsl(&graph, &BTreeMap::new());

    assert!(dsl.contains("source \"Sine\""));
    assert!(dsl.contains("processor \"Gain\""));
    assert!(dsl.contains("sink \"Output\""));
    assert!(dsl.contains("Sine.out -> Gain.in"));
    assert!(dsl.contains("Gain.out -> Output.in"));
    assert!(dsl.contains("@sample"));
    assert!(dsl.contains("# normal"));
}

#[test]
fn test_render_with_config() {
    let mut gain = Node::new_processor("Gain");
    gain.config.insert("gain_db".into(), ConfigValue::Float(2.5f64.to_bits()));

    let patch = Patch::from_operations(vec![Operation::AddNode(gain)]);
    let mut graph = Graph::new();
    graph.apply(&patch).unwrap();

    let dsl = render_dsl(&graph, &float_texts(&[2.5]));
    assert!(dsl.contains("gain_db: 2.5"));
}

#[test]
fn render_header_and_node_block_exactly() {
    let mut graph = Graph::new();
    let src = Node::new_source("Sine");
    graph.apply(&Patch::from_operations(vec![Operation::AddNode(src)])).unwrap();
    let dsl = render_dsl(&graph, &BTreeMap::new());
    let digest = dirtydata::hash::hash_graph(&graph);
    let expected = format!(
        "# DirtyData Surface DSL \u{2014} revision 1\n# Hash: blake3:{}\n# Patches: 1\n\nsource \"Sine\" {{\n  out: audio(2ch) @sample\n}}\n\n",
        dirtydata::hex::hex_short(&digest)
    );
    assert_eq!(dsl, expected);
}

#[test]
fn node_body_lists_ports_and_settings() {
    let mut n = Node::new_processor("Mixer");
    n.config.insert("mode".into(), ConfigValue::String("wide".into()));
    n.config.insert("count".into(), ConfigValue::Int(-4));
    let mut out = String::new();
    render_node_body(&mut out, &n, &BTreeMap::new());
    assert_eq!(
        out,
        "  in: audio(2ch) @sample\n  out: audio(2ch) @sample\n  config {\n    count: -4\n    mode: \"wide\"\n  }\n"
    );
}

#[test]
fn values_format_like_the_review_language() {
    let texts = float_texts(&[0.5]);
    let list = ConfigValue::List(vec![ConfigValue::Bool(true), ConfigValue::Float(0.5f64.to_bits()), ConfigValue::Int(7)]);
    assert_eq!(format_config_value(&list, &texts), "[true, 0.5, 7]");
    let table = ConfigValue::Table(vec![("a".into(), ConfigValue::Bool(false)), ("b".into(), ConfigValue::String("s".into()))]);
    assert_eq!(format_config_value(&table, &texts), "{a: false, b: \"s\"}");
    assert_eq!(format_config_value(&ConfigValue::Float(1.25f64.to_bits()), &texts), "?");
    assert_eq!(format_config_value(&ConfigValue::List(vec![]), &texts), "[]");
}

#[test]
fn data_types_format() {
    assert_eq!(format_data_type(&DataType::Audio { channels: 2 }), "audio(2ch)");
    assert_eq!(format_data_type(&DataType::Spectral { bins: 1024 }), "spectral(1024)");
    assert_eq!(format_data_type(&DataType::Control), "control");
    assert_eq!(format_data_type(&DataType::Midi), "midi");
    assert_eq!(format_data_type(&DataType::Blob), "blob");
    assert_eq!(format_data_type(&DataType::Meta), "meta");
}

#[test]
fn foreign_nodes_and_feedback_edges_render() {
    let mut graph = Graph::new();
    let mut fx = Node::new_processor("Verb");
    fx.kind = dirtydata::types::NodeKind::Foreign("Valhalla".into());
    let src = Node::new_source("Sine");
    let e = Edge::new_feedback(
        PortRef { node_id: src.id, port_name: "out".into() },
        PortRef { node_id: fx.id, port_name: "in".into() },
    );
    graph
        .apply(&Patch::from_operations(vec![Operation::AddNode(fx), Operation::AddNode(src), Operation::AddEdge(e)]))
        .unwrap();
    let dsl = render_dsl(&graph, &BTreeMap::new());
    assert!(dsl.contains("foreign \"Verb\" \"Valhalla\" {"));
    assert!(dsl.contains("# Connections\nSine.out -> Verb.in  # feedback\n"));
}
