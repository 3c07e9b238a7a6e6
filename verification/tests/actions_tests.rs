use dirtydata::actions::{compile_actions, default_channels, json_to_config_value, node_name, ActionError, JsonValue, UserAction};
use dirtydata::ids::StableId;
use dirtydata::ir::{Edge, Graph, Node};
use dirtydata::patch::{Operation, Patch};
use dirtydata::types::{ConfigValue, NodeKind, PortRef};

fn number(f: f64) -> JsonValue {
    JsonValue::Number { as_f64: Some(f.to_bits()), as_i64: None }
}

#[test]
fn test_compile_add_source() {
    let actions = vec![UserAction::AddSource { name: "Sine".into(), channels: 2 }];
    let graph = Graph::new();
    let ops = compile_actions(&actions, &graph).unwrap();
    assert_eq!(ops.len(), 1);
    match &ops[0] {
        Operation::AddNode(n) => {
            assert_eq!(n.kind, NodeKind::Source);
            assert_eq!(node_name(n), "Sine");
        }
        _ => panic!("expected AddNode"),
    }
}

#[test]
fn test_compile_connect() {
    let actions = vec![
        UserAction::AddSource { name: "Sine".into(), channels: 2 },
        UserAction::AddSink { name: "Output".into(), channels: 2 },
        UserAction::Connect { from: "Sine".into(), from_port: None, to: "Output".into(), to_port: None },
    ];
    let graph = Graph::new();
    let ops = compile_actions(&actions, &graph).unwrap();
    assert_eq!(ops.len(), 3);
    assert!(matches!(&ops[2], Operation::AddEdge(_)));
}

#[test]
fn test_compile_set_config() {
    let actions = vec![
        UserAction::AddProcessor { name: "Gain".into(), channels: 2 },
        UserAction::SetConfig { node: "Gain".into(), key: "gain_db".into(), value: number(2.5) },
    ];
    let graph = Graph::new();
    let ops = compile_actions(&actions, &graph).unwrap();
    assert_eq!(ops.len(), 2);
    assert!(matches!(&ops[1], Operation::ModifyConfig { .. }));
}

#[test]
fn connect_uses_default_ports_and_created_ids() {
    let actions = vec![
        UserAction::AddSource { name: "Sine".into(), channels: 2 },
        UserAction::AddSink { name: "Output".into(), channels: 1 },
        UserAction::Connect { from: "Sine".into(), from_port: None, to: "Output".into(), to_port: Some("side".into()) },
    ];
    let ops = compile_actions(&actions, &Graph::new()).unwrap();
    let (a, b) = match (&ops[0], &ops[1]) {
        (Operation::AddNode(a), Operation::AddNode(b)) => (a.clone(), b.clone()),
        _ => panic!("expected two nodes"),
    };
    assert_eq!(b.ports.len(), 1);
    assert_eq!(b.ports[0].data_type, dirtydata::types::DataType::Audio { channels: 1 });
    match &ops[2] {
        Operation::AddEdge(e) => {
            assert_eq!(e.source, PortRef { node_id: a.id, port_name: "out".into() });
            assert_eq!(e.target, PortRef { node_id: b.id, port_name: "side".into() });
        }
        _ => panic!("expected an edge"),
    }
}

#[test]
fn unknown_name_is_not_found() {
    let actions = vec![UserAction::RemoveNode { name: "Nobody".into() }];
    let r = compile_actions(&actions, &Graph::new());
    assert_eq!(r.err(), Some(ActionError::NodeNotFound("Nobody".into())));
    assert_eq!(ActionError::NodeNotFound("Nobody".into()).to_text(), "node 'Nobody' not found in current graph");
}

#[test]
fn names_resolve_against_the_graph() {
    let gain = Node::new_processor("Gain");
    let mut graph = Graph::new();
    graph.apply(&Patch::from_operations(vec![Operation::AddNode(gain.clone())])).unwrap();
    let ops = compile_actions(&[UserAction::RemoveNode { name: "Gain".into() }], &graph).unwrap();
    assert_eq!(ops.len(), 1);
    assert!(matches!(&ops[0], Operation::RemoveNode(id) if *id == gain.id));
    // The identifier text of a node names it too.
    let ops2 = compile_actions(&[UserAction::RemoveNode { name: gain.id.to_text() }], &graph).unwrap();
    assert!(matches!(&ops2[0], Operation::RemoveNode(id) if *id == gain.id));
}

#[test]
fn duplicate_names_in_graph_are_ambiguous() {
    let mut graph = Graph::new();
    graph
        .apply(&Patch::from_operations(vec![
            Operation::AddNode(Node::new_processor("Gain")),
            Operation::AddNode(Node::new_processor("Gain")),
        ]))
        .unwrap();
    let r = compile_actions(&[UserAction::RemoveNode { name: "Gain".into() }], &graph);
    assert_eq!(r.err(), Some(ActionError::AmbiguousName("Gain".into())));
    assert_eq!(ActionError::AmbiguousName("Gain".into()).to_text(), "ambiguous node name 'Gain': multiple nodes match");
}

#[test]
fn null_config_value_is_invalid() {
    let actions = vec![
        UserAction::AddProcessor { name: "Gain".into(), channels: 2 },
        UserAction::SetConfig { node: "Gain".into(), key: "gain_db".into(), value: JsonValue::Null },
    ];
    let r = compile_actions(&actions, &Graph::new());
    let expected = ActionError::InvalidConfig("gain_db".into(), "null is not a valid config value".into());
    assert_eq!(r.err(), Some(expected));
    assert_eq!(
        ActionError::InvalidConfig("gain_db".into(), "null is not a valid config value".into()).to_text(),
        "invalid config value for key 'gain_db': null is not a valid config value"
    );
}

#[test]
fn disconnect_finds_the_edge() {
    let src = Node::new_source("Sine");
    let sink = Node::new_sink("Output");
    let edge = Edge::new(
        PortRef { node_id: src.id, port_name: "out".into() },
        PortRef { node_id: sink.id, port_name: "in".into() },
    );
    let mut graph = Graph::new();
    graph
        .apply(&Patch::from_operations(vec![
            Operation::AddNode(src),
            Operation::AddNode(sink),
            Operation::AddEdge(edge.clone()),
        ]))
        .unwrap();
    let ops = compile_actions(
        &[UserAction::Disconnect { from: "Sine".into(), from_port: None, to: "Output".into(), to_port: None }],
        &graph,
    )
    .unwrap();
    assert_eq!(ops.len(), 1);
    assert!(matches!(&ops[0], Operation::RemoveEdge(id) if *id == edge.id));
    let none = compile_actions(
        &[UserAction::Disconnect { from: "Sine".into(), from_port: Some("x".into()), to: "Output".into(), to_port: None }],
        &graph,
    )
    .unwrap();
    assert!(none.is_empty());
}

#[test]
fn replace_node_renames_kind_and_modulation_compiles() {
    let actions = vec![
        UserAction::AddSource { name: "Lfo".into(), channels: 1 },
        UserAction::AddProcessor { name: "Gain".into(), channels: 2 },
        UserAction::ReplaceNode { name: "Gain".into(), new_kind_name: "Compressor".into() },
        UserAction::AddModulation {
            source_node: "Lfo".into(),
            source_port: "out".into(),
            target_node: "Gain".into(),
            target_param: "gain_db".into(),
            amount: 0.25f32.to_bits(),
        },
        UserAction::FreezeNode { name: "Gain".into(), length_secs: 1.0f32.to_bits() },
        UserAction::DuplicateNode { node_id: StableId::new() },
    ];
    let ops = compile_actions(&actions, &Graph::new()).unwrap();
    assert_eq!(ops.len(), 4);
    match &ops[2] {
        Operation::ModifyConfig { delta, .. } => {
            assert_eq!(delta.get("name").unwrap().new, Some(ConfigValue::String("Compressor".into())));
        }
        _ => panic!("expected a config change"),
    }
    match &ops[3] {
        Operation::AddModulation(m) => {
            assert_eq!(m.target_param, "gain_db");
            assert_eq!(m.amount, 0.25f32.to_bits());
        }
        _ => panic!("expected a modulation"),
    }
}

#[test]
fn json_values_convert() {
    assert_eq!(json_to_config_value(&number(2.5)), Ok(ConfigValue::Float(2.5f64.to_bits())));
    assert_eq!(
        json_to_config_value(&JsonValue::Number { as_f64: None, as_i64: Some(-3) }),
        Ok(ConfigValue::Int(-3))
    );
    assert_eq!(
        json_to_config_value(&JsonValue::Number { as_f64: None, as_i64: None }),
        Err("unsupported number type".to_string())
    );
    assert_eq!(json_to_config_value(&JsonValue::Bool(true)), Ok(ConfigValue::Bool(true)));
    let arr = JsonValue::Array(vec![JsonValue::Bool(false), JsonValue::String("x".into())]);
    assert_eq!(
        json_to_config_value(&arr),
        Ok(ConfigValue::List(vec![ConfigValue::Bool(false), ConfigValue::String("x".into())]))
    );
    let obj = JsonValue::Object(vec![
        ("b".into(), JsonValue::Bool(true)),
        ("a".into(), JsonValue::Bool(false)),
        ("b".into(), JsonValue::Bool(false)),
    ]);
    assert_eq!(
        json_to_config_value(&obj),
        Ok(ConfigValue::Table(vec![("a".into(), ConfigValue::Bool(false)), ("b".into(), ConfigValue::Bool(false))]))
    );
    let bad = JsonValue::Array(vec![JsonValue::Bool(true), JsonValue::Null]);
    assert_eq!(json_to_config_value(&bad), Err("null is not a valid config value".to_string()));
}

#[test]
fn default_channel_count_is_two() {
    assert_eq!(default_channels(), 2);
}

#[test]
fn node_name_falls_back_to_identifier() {
    let mut n = Node::new_processor("Gain");
    assert_eq!(node_name(&n), "Gain");
    n.config.remove("name");
    assert_eq!(node_name(&n), n.id.to_text());
    assert_eq!(n.id.to_text().len(), 26);
}
