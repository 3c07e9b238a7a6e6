use dirtydata::hash::{hash_graph, hash_patch};
use dirtydata::ids::{PatchId, Revision, StableId};
use dirtydata::ir::{Edge, Graph, Node};
use dirtydata::keyed::Keyed;
use dirtydata::patch::{Operation, Patch, PatchError, PatchSet};
use dirtydata::types::{ConfigChange, ConfigValue, NodeKind, PatchSource, PortRef, TrustLevel};

fn make_source() -> Node {
    Node::new_source("Sine")
}

fn make_gain() -> Node {
    Node::new_processor("Gain")
}

fn make_sink() -> Node {
    Node::new_sink("Output")
}

fn port(node: &Node, name: &str) -> PortRef {
    PortRef { node_id: node.id, port_name: name.to_string() }
}

#[test]
fn test_apply_add_node() {
    let mut graph = Graph::new();
    let node = make_source();
    let patch = Patch::from_operations(vec![Operation::AddNode(node.clone())]);

    graph.apply(&patch).unwrap();

    assert_eq!(graph.nodes.len(), 1);
    assert_eq!(graph.nodes.get(&node.id.0).unwrap().kind, NodeKind::Source);
    assert_eq!(graph.revision, Revision(1));
    assert_eq!(graph.applied_patches.len(), 1);
}

#[test]
fn test_apply_remove_node() {
    let mut graph = Graph::new();
    let node = make_source();

    let add = Patch::from_operations(vec![Operation::AddNode(node.clone())]);
    let remove = Patch::from_operations(vec![Operation::RemoveNode(node.id)]);

    graph.apply(&add).unwrap();
    graph.apply(&remove).unwrap();

    assert!(graph.nodes.is_empty());
    assert_eq!(graph.revision, Revision(2));
}

#[test]
fn test_apply_modify_config() {
    let mut graph = Graph::new();
    let node = make_gain();

    let add = Patch::from_operations(vec![Operation::AddNode(node.clone())]);
    graph.apply(&add).unwrap();

    let mut delta = Keyed::new();
    delta.insert(
        "gain_db".to_string(),
        ConfigChange { old: None, new: Some(ConfigValue::Float(2.0f64.to_bits())) },
    );
    let modify = Patch::from_operations(vec![Operation::ModifyConfig { node_id: node.id, delta }]);
    graph.apply(&modify).unwrap();

    let n = graph.node(&node.id).unwrap();
    assert_eq!(n.config.get("gain_db"), Some(&ConfigValue::Float(2.0f64.to_bits())));
}

#[test]
fn test_apply_add_edge() {
    let mut graph = Graph::new();
    let src = make_source();
    let sink = make_sink();

    let edge = Edge::new(port(&src, "out"), port(&sink, "in"));

    let patch = Patch::from_operations(vec![
        Operation::AddNode(src.clone()),
        Operation::AddNode(sink.clone()),
        Operation::AddEdge(edge.clone()),
    ]);

    graph.apply(&patch).unwrap();

    assert_eq!(graph.nodes.len(), 2);
    assert_eq!(graph.edges.len(), 1);
}

#[test]
fn test_remove_node_cascades_edges() {
    let mut graph = Graph::new();
    let src = make_source();
    let sink = make_sink();
    let edge = Edge::new(port(&src, "out"), port(&sink, "in"));

    graph
        .apply(&Patch::from_operations(vec![
            Operation::AddNode(src.clone()),
            Operation::AddNode(sink.clone()),
            Operation::AddEdge(edge),
        ]))
        .unwrap();

    graph.apply(&Patch::from_operations(vec![Operation::RemoveNode(src.id)])).unwrap();

    assert_eq!(graph.nodes.len(), 1);
    assert!(graph.edges.is_empty());
}

#[test]
fn test_duplicate_node_error() {
    let mut graph = Graph::new();
    let node = make_source();

    graph.apply(&Patch::from_operations(vec![Operation::AddNode(node.clone())])).unwrap();

    let result = graph.apply(&Patch::from_operations(vec![Operation::AddNode(node)]));
    assert!(result.is_err());
}

#[test]
fn test_diff_and_apply() {
    let mut g1 = Graph::new();
    let src = make_source();
    g1.apply(&Patch::from_operations(vec![Operation::AddNode(src.clone())])).unwrap();

    let mut g2 = g1.clone();
    let gain = make_gain();
    g2.apply(&Patch::from_operations(vec![Operation::AddNode(gain.clone())])).unwrap();

    let diff = g1.diff(&g2);
    assert_eq!(diff.patches.len(), 1);

    let mut g1_patched = g1.clone();
    for p in &diff.patches {
        g1_patched.apply(p).unwrap();
    }
    assert!(g1_patched.nodes.contains_key(&gain.id.0));
}

#[test]
fn test_deterministic_replay() {
    let src = make_source();
    let gain = make_gain();
    let sink = make_sink();

    let p1 = Patch::from_operations(vec![
        Operation::AddNode(src.clone()),
        Operation::AddNode(gain.clone()),
        Operation::AddNode(sink.clone()),
    ]);
    let edge = Edge::new(port(&src, "out"), port(&gain, "in"));
    let p2 = Patch::from_operations(vec![Operation::AddEdge(edge)]);

    let g1 = Graph::replay(&[p1.clone(), p2.clone()]).unwrap();
    let g2 = Graph::replay(&[p1, p2]).unwrap();

    assert_eq!(hash_graph(&g1), hash_graph(&g2));
}

#[test]
fn test_patch_hash_integrity() {
    let node = make_source();
    let patch = Patch::from_operations(vec![Operation::AddNode(node)]);
    assert!(patch.verify_hash());
}

#[test]
fn test_patch_merge() {
    let p1 = PatchSet::single(Patch::from_operations(vec![Operation::AddNode(make_source())]));
    let p2 = PatchSet::single(Patch::from_operations(vec![Operation::AddNode(make_gain())]));

    let merged = p1.merge(&p2).unwrap();
    assert_eq!(merged.len(), 2);
}

#[test]
fn test_provenance_tracking() {
    let patch = Patch::from_operations_with_provenance(
        vec![Operation::AddNode(make_gain())],
        PatchSource::AiGenerated("gpt-4".into()),
        TrustLevel::ReviewRequired,
    );
    assert_eq!(patch.source, PatchSource::AiGenerated("gpt-4".into()));
    assert_eq!(patch.trust, TrustLevel::ReviewRequired);
}

// ── Hashing ──────────────────

#[test]
fn test_graph_hash_deterministic() {
    let mut g = Graph::new();
    let node = Node::new_source("Sine");
    let patch = Patch::from_operations(vec![Operation::AddNode(node)]);
    g.apply(&patch).unwrap();

    let h1 = hash_graph(&g);
    let h2 = hash_graph(&g);
    assert_eq!(h1, h2);
}

#[test]
fn test_different_graphs_different_hashes() {
    let mut g1 = Graph::new();
    g1.apply(&Patch::from_operations(vec![Operation::AddNode(Node::new_source("Sine"))])).unwrap();

    let mut g2 = Graph::new();
    g2.apply(&Patch::from_operations(vec![Operation::AddNode(Node::new_source("Noise"))])).unwrap();

    assert_ne!(hash_graph(&g1), hash_graph(&g2));
}

#[test]
fn test_patch_hash_stable() {
    let node = Node::new_processor("EQ");
    let patch = Patch::from_operations(vec![Operation::AddNode(node.clone())]);
    let h1 = hash_patch(&patch);
    let h2 = hash_patch(&patch);
    assert_eq!(h1, h2);
}

// ── Invariants of the graph's history ──────────────────

#[test]
fn constitution_hash_stability() {
    let node = Node::new_processor("TestGain");
    let ops = vec![Operation::AddNode(node.clone())];
    let patch1 = Patch::from_operations(ops.clone());
    let recomputed_hash = hash_patch(&patch1);
    assert_eq!(patch1.deterministic_hash, recomputed_hash, "Hash stability violation");
}

#[test]
fn constitution_modify_replay() {
    let node = Node::new_processor("Gain");
    let p1 = Patch::from_operations(vec![Operation::AddNode(node.clone())]);
    let mut delta = Keyed::new();
    delta.insert(
        "gain_db".to_string(),
        ConfigChange { old: None, new: Some(ConfigValue::Float(3.5f64.to_bits())) },
    );
    let p2 = Patch::from_operations(vec![Operation::ModifyConfig { node_id: node.id, delta }]);

    let mut graph = Graph::new();
    graph.apply(&p1).unwrap();
    graph.apply(&p2).unwrap();

    let replayed = Graph::replay(&[p1, p2]).unwrap();
    assert_eq!(hash_graph(&graph), hash_graph(&replayed), "Modify-replay round-trip failed");
}

#[test]
fn constitution_edge_replay() {
    let src = Node::new_source("Sine");
    let gain = Node::new_processor("Gain");
    let sink = Node::new_sink("Output");

    let edge1 = Edge::new(port(&src, "out"), port(&gain, "in"));
    let edge2 = Edge::new(port(&gain, "out"), port(&sink, "in"));

    let p1 = Patch::from_operations(vec![
        Operation::AddNode(src),
        Operation::AddNode(gain),
        Operation::AddNode(sink),
    ]);
    let p2 = Patch::from_operations(vec![Operation::AddEdge(edge1), Operation::AddEdge(edge2)]);

    let mut graph = Graph::new();
    graph.apply(&p1).unwrap();
    graph.apply(&p2).unwrap();

    let replayed = Graph::replay(&[p1, p2]).unwrap();
    assert_eq!(hash_graph(&graph), hash_graph(&replayed), "Edge replay round-trip failed");
}

#[test]
fn replay_equals_sequential_application() {
    for node_count in 1..8 {
        let mut nodes = Vec::new();
        for i in 0..node_count {
            nodes.push(Node::new_processor(&format!("node_{}", i)));
        }
        let patch = Patch::from_operations(nodes.iter().map(|n| Operation::AddNode(n.clone())).collect());
        let mut graph = Graph::new();
        graph.apply(&patch).unwrap();
        let replayed = Graph::replay(&[patch]).unwrap();
        assert_eq!(hash_graph(&graph), hash_graph(&replayed));
    }
}

#[test]
fn applied_patches_explain_the_graph() {
    for patch_count in 1..6 {
        let mut graph = Graph::new();
        let mut all = Vec::new();
        for i in 0..patch_count {
            let node = Node::new_processor(&format!("node_{}", i));
            let patch = Patch::from_operations(vec![Operation::AddNode(node)]);
            graph.apply(&patch).unwrap();
            all.push(patch);
        }
        assert_eq!(graph.applied_patches.len(), all.len());
        assert_eq!(graph.revision, Revision(patch_count as u64));
        for (applied, patch) in graph.applied_patches.iter().zip(all.iter()) {
            assert_eq!(applied, &patch.identity);
        }
        let replayed = Graph::replay(&all).unwrap();
        assert_eq!(hash_graph(&graph), hash_graph(&replayed));
    }
}

// ── Errors and edge cases ──────────────────

#[test]
fn remove_missing_node_fails() {
    let mut graph = Graph::new();
    let id = StableId::new();
    let r = graph.apply(&Patch::from_operations(vec![Operation::RemoveNode(id)]));
    assert_eq!(r, Err(PatchError::NodeNotFound(id)));
    assert_eq!(graph.revision, Revision(0));
}

#[test]
fn edge_to_missing_port_fails() {
    let mut graph = Graph::new();
    let src = make_source();
    let sink = make_sink();
    graph.apply(&Patch::from_operations(vec![Operation::AddNode(src.clone()), Operation::AddNode(sink.clone())])).unwrap();
    let bad = Edge::new(port(&src, "sidechain"), port(&sink, "in"));
    let r = graph.apply(&Patch::from_operations(vec![Operation::AddEdge(bad)]));
    assert_eq!(r, Err(PatchError::PortNotFound { node: src.id, port: "sidechain".to_string() }));
    let ghost = Node::new_sink("Ghost");
    let dangling = Edge::new(port(&src, "out"), port(&ghost, "in"));
    let r2 = graph.apply(&Patch::from_operations(vec![Operation::AddEdge(dangling)]));
    assert_eq!(r2, Err(PatchError::NodeNotFound(ghost.id)));
}

#[test]
fn duplicate_edge_and_missing_edge_fail() {
    let mut graph = Graph::new();
    let src = make_source();
    let sink = make_sink();
    let edge = Edge::new(port(&src, "out"), port(&sink, "in"));
    graph
        .apply(&Patch::from_operations(vec![
            Operation::AddNode(src.clone()),
            Operation::AddNode(sink.clone()),
            Operation::AddEdge(edge.clone()),
        ]))
        .unwrap();
    let r = graph.apply(&Patch::from_operations(vec![Operation::AddEdge(edge.clone())]));
    assert_eq!(r, Err(PatchError::EdgeAlreadyExists(edge.id)));
    let other = StableId::new();
    let r2 = graph.apply(&Patch::from_operations(vec![Operation::RemoveEdge(other)]));
    assert_eq!(r2, Err(PatchError::EdgeNotFound(other)));
}

#[test]
fn replay_and_verify_reports_mismatch() {
    let patch = Patch::from_operations(vec![Operation::AddNode(make_source())]);
    let good = hash_graph(&Graph::replay(&[patch.clone()]).unwrap());
    assert!(Graph::replay_and_verify(&[patch.clone()], &good).is_ok());
    let zero = [0u8; 32];
    match Graph::replay_and_verify(&[patch], &zero) {
        Err(PatchError::HashMismatch { expected, actual }) => {
            assert_eq!(expected, "0".repeat(64));
            assert_eq!(actual, dirtydata::hex::encode(&good));
        }
        other => panic!("expected a hash mismatch, got {:?}", other),
    }
}

#[test]
fn intent_and_parents_change_the_hash() {
    let patch = Patch::from_operations(vec![Operation::AddNode(make_source())]);
    let plain = patch.deterministic_hash;
    let with_intent = patch.clone().with_intent(dirtydata::ids::IntentId::new());
    assert_ne!(with_intent.deterministic_hash, plain);
    assert!(with_intent.verify_hash());
    let with_parent = patch.with_parents(vec![PatchId::new()]);
    assert_ne!(with_parent.deterministic_hash, plain);
    assert!(with_parent.verify_hash());
}

#[test]
fn tampered_patch_fails_verification() {
    let mut patch = Patch::from_operations(vec![Operation::AddNode(make_source())]);
    patch.operations.push(Operation::AddNode(make_gain()));
    assert!(!patch.verify_hash());
}

#[test]
fn modulations_are_added_and_removed() {
    let mut graph = Graph::new();
    let src = make_source();
    let gain = make_gain();
    let m = dirtydata::ir::Modulation::new(port(&src, "out"), gain.id, "gain_db".to_string(), 0.5f32.to_bits());
    let mid = m.id;
    graph.apply(&Patch::from_operations(vec![Operation::AddModulation(m)])).unwrap();
    assert!(graph.modulations.contains_key(&mid.0));
    graph.apply(&Patch::from_operations(vec![Operation::RemoveModulation(mid)])).unwrap();
    assert!(graph.modulations.is_empty());
}

#[test]
fn replace_node_requires_existing_node() {
    let mut graph = Graph::new();
    let a = make_gain();
    let r = graph.apply(&Patch::from_operations(vec![Operation::ReplaceNode(a.clone())]));
    assert_eq!(r, Err(PatchError::NodeNotFound(a.id)));
    graph.apply(&Patch::from_operations(vec![Operation::AddNode(a.clone())])).unwrap();
    let mut renamed = a.clone();
    renamed.kind = NodeKind::Analyzer;
    graph.apply(&Patch::from_operations(vec![Operation::ReplaceNode(renamed)])).unwrap();
    assert_eq!(graph.nodes.get(&a.id.0).unwrap().kind, NodeKind::Analyzer);
}

#[test]
fn failed_patch_leaves_the_graph_unchanged() {
    let mut graph = Graph::new();
    let a = make_gain();
    let before = graph.clone();
    let r = graph.apply(&Patch::from_operations(vec![Operation::AddNode(a.clone()), Operation::AddNode(a.clone())]));
    assert_eq!(r, Err(PatchError::NodeAlreadyExists(a.id)));
    assert_eq!(graph, before);
    assert!(graph.nodes.is_empty());
    assert_eq!(graph.revision, Revision(0));
    assert!(graph.applied_patches.is_empty());
}

#[test]
fn replace_node_drops_edges_whose_port_vanished() {
    let mut graph = Graph::new();
    let src = make_source();
    let gain = make_gain();
    let e = Edge::new(port(&src, "out"), port(&gain, "in"));
    graph
        .apply(&Patch::from_operations(vec![
            Operation::AddNode(src.clone()),
            Operation::AddNode(gain.clone()),
            Operation::AddEdge(e.clone()),
        ]))
        .unwrap();
    let mut bare = gain.clone();
    bare.ports.clear();
    graph.apply(&Patch::from_operations(vec![Operation::ReplaceNode(bare)])).unwrap();
    assert!(graph.edges.is_empty());
    let mut same = gain.clone();
    same.kind = NodeKind::Analyzer;
    graph.apply(&Patch::from_operations(vec![Operation::ReplaceNode(same)])).unwrap();
    graph.apply(&Patch::from_operations(vec![Operation::AddEdge(e.clone())])).unwrap();
    graph.apply(&Patch::from_operations(vec![Operation::ReplaceNode(gain.clone())])).unwrap();
    assert!(graph.edges.contains_key(&e.id.0));
}
