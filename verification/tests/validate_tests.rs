use dirtydata::ids::StableId;
use dirtydata::ir::{Edge, Graph, Node};
use dirtydata::keyed::Keyed;
use dirtydata::patch::{Operation, Patch};
use dirtydata::topo::topological_sort;
use dirtydata::types::{
    ConfidenceScore, DataType, ExecutionDomain, MetadataRef, NodeKind, PortDirection, PortRef, TypedPort,
};
use dirtydata::validate::validate_commit;

fn port(node: &Node, name: &str) -> PortRef {
    PortRef { node_id: node.id, port_name: name.to_string() }
}

fn bare(kind: NodeKind, ports: Vec<TypedPort>) -> Node {
    Node {
        id: StableId::new(),
        kind,
        ports,
        config: Keyed::new(),
        metadata: MetadataRef(None),
        confidence: ConfidenceScore::Verified,
    }
}

fn typed(name: &str, direction: PortDirection, domain: ExecutionDomain) -> TypedPort {
    TypedPort { name: name.to_string(), direction, domain, data_type: DataType::Audio { channels: 2 } }
}

#[test]
fn test_valid_linear_graph() {
    let src = Node::new_source("Sine");
    let gain = Node::new_processor("Gain");
    let sink = Node::new_sink("Output");

    let e1 = Edge::new(port(&src, "out"), port(&gain, "in"));
    let e2 = Edge::new(port(&gain, "out"), port(&sink, "in"));

    let patch = Patch::from_operations(vec![
        Operation::AddNode(src),
        Operation::AddNode(gain),
        Operation::AddNode(sink),
        Operation::AddEdge(e1),
        Operation::AddEdge(e2),
    ]);

    let mut graph = Graph::new();
    graph.apply(&patch).unwrap();

    let report = validate_commit(&graph, &[patch]);
    assert!(report.is_committable(), "errors: {:?}", report.errors);
    assert!(report.replay_proof.is_some());
    assert!(report.replay_proof.unwrap().matches);
}

#[test]
fn test_isolated_node_warning() {
    let src = Node::new_source("Sine");
    let orphan = Node::new_processor("Orphan");

    let patch = Patch::from_operations(vec![Operation::AddNode(src), Operation::AddNode(orphan)]);

    let mut graph = Graph::new();
    graph.apply(&patch).unwrap();

    let report = validate_commit(&graph, &[patch]);
    assert!(report.is_committable());
    assert!(!report.warnings.is_empty());
    assert!(report.warnings.iter().any(|w| w.code == "ISOLATED_NODE"));
}

#[test]
fn test_foreign_node_confidence_debt() {
    let foreign = bare(NodeKind::Foreign("SomeVST".into()), vec![]);

    let patch = Patch::from_operations(vec![Operation::AddNode(foreign)]);
    let mut graph = Graph::new();
    graph.apply(&patch).unwrap();

    let report = validate_commit(&graph, &[patch]);
    assert!(!report.confidence_debt.is_empty());
}

#[test]
fn test_domain_crossing_error() {
    let src = bare(NodeKind::Source, vec![typed("out", PortDirection::Output, ExecutionDomain::Sample)]);
    let analyzer = bare(NodeKind::Analyzer, vec![typed("in", PortDirection::Input, ExecutionDomain::Block)]);

    let edge = Edge::new(port(&src, "out"), port(&analyzer, "in"));

    let patch = Patch::from_operations(vec![
        Operation::AddNode(src),
        Operation::AddNode(analyzer),
        Operation::AddEdge(edge),
    ]);

    let mut graph = Graph::new();
    graph.apply(&patch).unwrap();

    let report = validate_commit(&graph, &[patch]);
    assert!(!report.is_committable());
    assert!(report.errors.iter().any(|e| e.code == "DOMAIN_CROSSING"));
}

#[test]
fn foreign_debt_has_weight_thirty_and_names_the_plugin() {
    let foreign = bare(NodeKind::Foreign("SomeVST".into()), vec![]);
    let id = foreign.id;
    let patch = Patch::from_operations(vec![Operation::AddNode(foreign)]);
    let mut graph = Graph::new();
    graph.apply(&patch).unwrap();
    let report = validate_commit(&graph, &[patch]);
    assert_eq!(report.confidence_debt.len(), 1);
    let d = &report.confidence_debt[0];
    assert_eq!(d.source, id);
    assert_eq!(d.weight, 30);
    assert_eq!(d.confidence, ConfidenceScore::Suspicious);
    assert_eq!(d.reason, "foreign plugin 'SomeVST' is nondeterministic by default");
    assert_eq!(report.total_debt(), 30);
}

fn cycle_graph() -> (Graph, Vec<Patch>) {
    let a = Node::new_processor("A");
    let b = Node::new_processor("B");
    let e1 = Edge::new(port(&a, "out"), port(&b, "in"));
    let e2 = Edge::new(port(&b, "out"), port(&a, "in"));
    let patch = Patch::from_operations(vec![
        Operation::AddNode(a),
        Operation::AddNode(b),
        Operation::AddEdge(e1),
        Operation::AddEdge(e2),
    ]);
    let mut graph = Graph::new();
    graph.apply(&patch).unwrap();
    (graph, vec![patch])
}

#[test]
fn causal_cycle_blocks_commit() {
    let (graph, patches) = cycle_graph();
    let report = validate_commit(&graph, &patches);
    assert!(!report.is_committable());
    let cycle: Vec<_> = report.errors.iter().filter(|e| e.code == "CYCLE_DETECTED").collect();
    assert_eq!(cycle.len(), 1);
    assert_eq!(cycle[0].message, "causal cycle detected: 2 nodes unreachable in topological sort");
}

#[test]
fn feedback_edges_do_not_make_cycles() {
    let a = Node::new_processor("A");
    let b = Node::new_processor("B");
    let e1 = Edge::new(port(&a, "out"), port(&b, "in"));
    let e2 = Edge::new_feedback(port(&b, "out"), port(&a, "in"));
    let patch = Patch::from_operations(vec![
        Operation::AddNode(a),
        Operation::AddNode(b),
        Operation::AddEdge(e1),
        Operation::AddEdge(e2),
    ]);
    let mut graph = Graph::new();
    graph.apply(&patch).unwrap();
    let report = validate_commit(&graph, &[patch]);
    assert!(report.is_committable(), "errors: {:?}", report.errors);
}

#[test]
fn port_direction_errors_name_the_node() {
    let src = bare(NodeKind::Source, vec![typed("x", PortDirection::Input, ExecutionDomain::Sample)]);
    let sink = bare(NodeKind::Sink, vec![typed("y", PortDirection::Output, ExecutionDomain::Sample)]);
    let edge = Edge::new(port(&src, "x"), port(&sink, "y"));
    let patch = Patch::from_operations(vec![
        Operation::AddNode(src.clone()),
        Operation::AddNode(sink.clone()),
        Operation::AddEdge(edge.clone()),
    ]);
    let mut graph = Graph::new();
    graph.apply(&patch).unwrap();
    let report = validate_commit(&graph, &[patch]);
    let dirs: Vec<_> = report.errors.iter().filter(|e| e.code == "PORT_DIRECTION").collect();
    assert_eq!(dirs.len(), 2);
    assert_eq!(dirs[0].node, Some(src.id));
    assert_eq!(dirs[0].message, format!("edge {} source port 'x' is not an output", edge.id.to_text()));
    assert_eq!(dirs[1].node, Some(sink.id));
    assert_eq!(dirs[1].message, format!("edge {} target port 'y' is not an input", edge.id.to_text()));
}

#[test]
fn replay_mismatch_is_an_error() {
    let (graph, _) = cycle_graph();
    let other = Patch::from_operations(vec![Operation::AddNode(Node::new_source("Else"))]);
    let report = validate_commit(&graph, &[other]);
    let proof = report.replay_proof.clone().unwrap();
    assert!(!proof.matches);
    assert_eq!(proof.patch_count, 1);
    assert!(report.errors.iter().any(|e| e.code == "REPLAY_MISMATCH"));
}

#[test]
fn no_patches_means_no_replay_proof() {
    let graph = Graph::new();
    let report = validate_commit(&graph, &[]);
    assert!(report.replay_proof.is_none());
    assert!(report.is_committable());
    assert!(report.warnings.is_empty());
    assert_eq!(report.total_debt(), 0);
}

#[test]
fn dangling_edges_are_debt() {
    let mut graph = Graph::new();
    let a = Node::new_processor("A");
    let ghost = StableId::new();
    let e = Edge::new(port(&a, "out"), PortRef { node_id: ghost, port_name: "in".into() });
    let eid = e.id;
    graph.nodes.insert(a.id.0, a);
    graph.edges.insert(eid.0, e);
    let report = validate_commit(&graph, &[]);
    assert_eq!(report.confidence_debt.len(), 1);
    assert_eq!(report.confidence_debt[0].source, eid);
    assert_eq!(report.confidence_debt[0].weight, 100);
    assert_eq!(report.confidence_debt[0].reason, format!("edge target node {} missing", ghost.to_text()));
}

#[test]
fn topological_sort_orders_sources_first() {
    let src = Node::new_source("Sine");
    let gain = Node::new_processor("Gain");
    let sink = Node::new_sink("Output");
    let e1 = Edge::new(port(&src, "out"), port(&gain, "in"));
    let e2 = Edge::new(port(&gain, "out"), port(&sink, "in"));
    let patch = Patch::from_operations(vec![
        Operation::AddNode(src.clone()),
        Operation::AddNode(gain.clone()),
        Operation::AddNode(sink.clone()),
        Operation::AddEdge(e1),
        Operation::AddEdge(e2),
    ]);
    let mut graph = Graph::new();
    graph.apply(&patch).unwrap();
    let (sorted, cycles) = topological_sort(&graph);
    assert_eq!(sorted, vec![src.id, gain.id, sink.id]);
    assert!(cycles.is_empty());
}

#[test]
fn topological_sort_reports_cycle_members() {
    let (graph, _) = cycle_graph();
    let (sorted, cycles) = topological_sort(&graph);
    assert!(sorted.is_empty());
    assert_eq!(cycles.len(), 1);
    let mut expected: Vec<StableId> = graph.nodes.keys().map(|k| StableId(*k)).collect();
    expected.sort();
    assert_eq!(cycles[0], expected);
}

#[test]
fn topological_sort_leaves_nodes_behind_a_cycle_out_of_it() {
    let a = Node::new_processor("A");
    let b = Node::new_processor("B");
    let c = Node::new_processor("C");
    let mut graph = Graph::new();
    graph
        .apply(&Patch::from_operations(vec![
            Operation::AddNode(a.clone()),
            Operation::AddNode(b.clone()),
            Operation::AddNode(c.clone()),
            Operation::AddEdge(Edge::new(port(&a, "out"), port(&b, "in"))),
            Operation::AddEdge(Edge::new(port(&b, "out"), port(&a, "in"))),
            Operation::AddEdge(Edge::new(port(&b, "out"), port(&c, "in"))),
        ]))
        .unwrap();
    let (sorted, cycles) = topological_sort(&graph);
    assert!(sorted.is_empty());
    assert_eq!(cycles.len(), 1);
    let mut expected = vec![a.id, b.id];
    expected.sort();
    assert_eq!(cycles[0], expected);
}
