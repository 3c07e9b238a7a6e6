use dirtydata::hash::hash_bytes;
use dirtydata::hex::encode;
use dirtydata::ids::{StableId, Timestamp};
use dirtydata::intent::{IntentState, IntentStatus};
use dirtydata::ir::{Graph, Node};
use dirtydata::observer::{
    decode_digest, repair_operation, wants_contents, Evidence, FileFacts, Observation, Observer, ObserverState, Probe,
};
use dirtydata::patch::{Operation, Patch, PatchError};
use dirtydata::report::{diagnose, tally_confidence, ConfidenceTally, Health};
use dirtydata::types::{ConfidenceScore, ConfigValue, NodeKind};
use dirtydata::validate::{ConfidenceDebt, ReplayProof, ValidationError, ValidationReport};

fn source_with_file(name: &str, file: &str, expected: Option<&str>) -> Node {
    let mut n = Node::new_source(name);
    n.config.insert("file".to_string(), ConfigValue::String(file.to_string()));
    if let Some(h) = expected {
        n.config.insert("expected_hash".to_string(), ConfigValue::String(h.to_string()));
    }
    n
}

fn facts(contents: &[u8]) -> FileFacts {
    FileFacts { exists: true, metadata: Ok((contents.len() as u64, 1_700_000_000)), contents: Some(contents.to_vec()) }
}

fn empty_report() -> ValidationReport {
    ValidationReport { errors: Vec::new(), warnings: Vec::new(), confidence_debt: Vec::new(), replay_proof: None }
}

fn debt(c: ConfidenceScore) -> ConfidenceDebt {
    ConfidenceDebt { source: StableId(1), reason: "r".to_string(), confidence: c, weight: 1 }
}

// ── Planning ──────────────────

#[test]
fn plan_follows_node_kinds() {
    let file_node = source_with_file("Kick", "kick.wav", Some("abc"));
    let id = file_node.id;
    match Observer::plan_node(id, &file_node, "/proj") {
        Probe::File { target, target_name, path, expected_hash } => {
            assert_eq!(target, id);
            assert_eq!(target_name, "Kick");
            assert_eq!(path, "/proj/kick.wav");
            assert_eq!(expected_hash.as_deref(), Some("abc"));
        },
        other => panic!("unexpected probe {:?}", other),
    }
    let live = Node::new_source("Mic");
    match Observer::plan_node(live.id, &live, "/proj") {
        Probe::Known { confidence, evidence, .. } => {
            assert_eq!(confidence, ConfidenceScore::Unknown);
            assert_eq!(evidence, Evidence::Unobservable("Live audio input".to_string()));
        },
        other => panic!("unexpected probe {:?}", other),
    }
    let mut plugin = Node::new_processor("Verb");
    plugin.kind = NodeKind::Foreign("vst".to_string());
    match Observer::plan_node(plugin.id, &plugin, "/proj") {
        Probe::Known { confidence, evidence, .. } => {
            assert_eq!(confidence, ConfidenceScore::Suspicious);
            assert_eq!(evidence, Evidence::InherentNondeterminism { plugin_name: "vst".to_string() });
        },
        other => panic!("unexpected probe {:?}", other),
    }
    let gain = Node::new_processor("Gain");
    match Observer::plan_node(gain.id, &gain, "/proj") {
        Probe::Known { confidence, evidence, .. } => {
            assert_eq!(confidence, ConfidenceScore::Inferred);
            assert_eq!(evidence, Evidence::InferredFromContext("Internal deterministic node".to_string()));
        },
        other => panic!("unexpected probe {:?}", other),
    }
}

#[test]
fn plan_graph_walks_nodes_in_id_order() {
    let mut g = Graph::new();
    let mut a = Node::new_processor("A");
    a.id = StableId(20);
    let mut b = source_with_file("B", "b.wav", None);
    b.id = StableId(10);
    g.nodes.insert(20, a);
    g.nodes.insert(10, b);
    let probes = Observer::plan_graph(&g, "root");
    assert_eq!(probes.len(), 2);
    match &probes[0] {
        Probe::File { target, path, expected_hash, .. } => {
            assert_eq!(*target, StableId(10));
            assert_eq!(path, "root/b.wav");
            assert_eq!(*expected_hash, None);
        },
        other => panic!("unexpected probe {:?}", other),
    }
    match &probes[1] {
        Probe::Known { target, .. } => assert_eq!(*target, StableId(20)),
        other => panic!("unexpected probe {:?}", other),
    }
}

// ── Judging files ──────────────────

#[test]
fn observe_file_outcomes() {
    let id = StableId(7);
    let missing = FileFacts { exists: false, metadata: Err("gone".to_string()), contents: None };
    let o = Observer::observe_file(id, "n".to_string(), "a.wav", None, &missing);
    assert_eq!(o.confidence, ConfidenceScore::Unknown);
    assert_eq!(o.evidence, Evidence::Unobservable("File not found: a.wav".to_string()));

    let no_meta = FileFacts { exists: true, metadata: Err("denied".to_string()), contents: None };
    let o = Observer::observe_file(id, "n".to_string(), "a.wav", None, &no_meta);
    assert_eq!(o.evidence, Evidence::Unobservable("Cannot read metadata: denied".to_string()));

    let o = Observer::observe_file(id, "n".to_string(), "a.mp3", None, &facts(b"x"));
    assert_eq!(o.confidence, ConfidenceScore::Suspicious);
    assert_eq!(o.evidence, Evidence::ExtensionUnknown { path: "a.mp3".to_string(), ext: "mp3".to_string() });

    let o = Observer::observe_file(id, "n".to_string(), "a.wav", None, &facts(b"abc"));
    assert_eq!(o.confidence, ConfidenceScore::Inferred);
    assert_eq!(o.evidence, Evidence::FileStatOnly { path: "a.wav".to_string(), size: 3, mtime: 1_700_000_000 });

    let unread = FileFacts { exists: true, metadata: Ok((3, 5)), contents: None };
    let o = Observer::observe_file(id, "n".to_string(), "a.wav", Some("00"), &unread);
    assert_eq!(o.evidence, Evidence::Unobservable("Failed to read file contents".to_string()));

    // An expected hash that is not 64 hex digits falls back to the metadata.
    let o = Observer::observe_file(id, "n".to_string(), "a.flac", Some("xyz"), &facts(b"abc"));
    assert_eq!(o.confidence, ConfidenceScore::Inferred);

    let good = encode(&hash_bytes(b"abc"));
    let o = Observer::observe_file(id, "n".to_string(), "a.json", Some(&good), &facts(b"abc"));
    assert_eq!(o.confidence, ConfidenceScore::Verified);
    assert_eq!(o.evidence, Evidence::FileHashMatch { path: "a.json".to_string(), hash: hash_bytes(b"abc") });
    assert_eq!(o.target, id);
    assert_eq!(o.target_name, "n");

    let upper = good.to_uppercase();
    let o = Observer::observe_file(id, "n".to_string(), "a.json", Some(&upper), &facts(b"abc"));
    assert_eq!(o.confidence, ConfidenceScore::Verified);

    let o = Observer::observe_file(id, "n".to_string(), "a.wav", Some(&good), &facts(b"abd"));
    assert_eq!(o.confidence, ConfidenceScore::Unknown);
    assert_eq!(
        o.evidence,
        Evidence::FileHashMismatch { path: "a.wav".to_string(), expected: hash_bytes(b"abc"), actual: hash_bytes(b"abd") }
    );
}

#[test]
fn digests_decode_from_hex() {
    let d = hash_bytes(b"");
    assert_eq!(encode(&d), "af1349b9f5f9a1a6a0404dea36dcc9499bcb25c9adc112b7cc9a93cae41f3262");
    assert_eq!(decode_digest(&encode(&d)), Some(d));
    assert_eq!(decode_digest("af13"), None);
    let mut bad = encode(&d);
    bad.replace_range(0..1, "g");
    assert_eq!(decode_digest(&bad), None);
    assert!(wants_contents("x.wav", Some("h")));
    assert!(!wants_contents("x.wav", None));
    assert!(!wants_contents("x.ogg", Some("h")));
}

// ── Mismatches and repair ──────────────────

#[test]
fn mismatches_are_listed_in_id_order() {
    let mut s = ObserverState::new();
    let mismatch = |id: u128| Observation {
        target: StableId(id),
        target_name: format!("n{}", id),
        confidence: ConfidenceScore::Unknown,
        evidence: Evidence::FileHashMismatch { path: "p.wav".to_string(), expected: [0; 32], actual: [1; 32] },
        timestamp: Timestamp(0),
    };
    s.record(mismatch(9));
    s.record(Observation {
        target: StableId(5),
        target_name: "ok".to_string(),
        confidence: ConfidenceScore::Inferred,
        evidence: Evidence::InferredFromContext("x".to_string()),
        timestamp: Timestamp(0),
    });
    s.record(mismatch(3));
    assert_eq!(s.mismatches(), vec![3, 9]);
    assert_eq!(ObserverState::new().mismatches(), Vec::<u128>::new());
}

#[test]
fn repair_clears_a_mismatch() {
    let wrong = encode(&hash_bytes(b"old take"));
    let node = source_with_file("Kick", "kick.wav", Some(&wrong));
    let id = node.id;
    let mut g = Graph::new();
    g.nodes.insert(id.0, node);

    let contents = facts(b"new take");
    let first = Observer::observe_file(id, "Kick".to_string(), "kick.wav", Some(&wrong), &contents);
    assert_eq!(first.confidence, ConfidenceScore::Unknown);

    let op = repair_operation(id, &first.evidence).expect("a mismatch is repaired");
    match &op {
        Operation::ModifyConfig { node_id, delta } => {
            assert_eq!(*node_id, id);
            assert_eq!(delta.len(), 1);
            let change = delta.get("expected_hash").unwrap();
            assert_eq!(change.old, None);
            assert_eq!(change.new, Some(ConfigValue::String(encode(&hash_bytes(b"new take")))));
        },
        other => panic!("unexpected operation {:?}", other),
    }
    g.apply(&Patch::from_operations(vec![op])).unwrap();

    let expected = match Observer::plan_node(id, g.nodes.get(&id.0).unwrap(), "") {
        Probe::File { expected_hash, .. } => expected_hash.unwrap(),
        other => panic!("unexpected probe {:?}", other),
    };
    let second = Observer::observe_file(id, "Kick".to_string(), "kick.wav", Some(&expected), &contents);
    assert_eq!(second.confidence, ConfidenceScore::Verified);
    assert_eq!(second.evidence, Evidence::FileHashMatch { path: "kick.wav".to_string(), hash: hash_bytes(b"new take") });

    assert_eq!(repair_operation(id, &second.evidence), None);
    assert_eq!(repair_operation(id, &Evidence::Unobservable("x".to_string())), None);
}

// ── Diagnosis ──────────────────

#[test]
fn doctor_verdicts() {
    let mut r = empty_report();
    assert_eq!(diagnose(&r, 0, 0), Health::Healthy);
    assert_eq!(diagnose(&r, 1, 0), Health::Concerning);
    assert_eq!(diagnose(&r, 0, 2), Health::InTrouble);
    r.replay_proof = Some(ReplayProof { graph_hash: [0; 32], patch_count: 1, replayed_hash: [1; 32], matches: false });
    assert_eq!(diagnose(&r, 0, 0), Health::Unsettled);
    r.confidence_debt.push(debt(ConfidenceScore::Suspicious));
    assert_eq!(diagnose(&r, 0, 0), Health::Concerning);
    r.errors.push(ValidationError { code: "E001", message: "m".to_string(), node: None });
    assert_eq!(diagnose(&r, 0, 0), Health::InTrouble);
}

#[test]
fn confidence_tally_counts_debts() {
    let mut r = empty_report();
    r.confidence_debt.push(debt(ConfidenceScore::Suspicious));
    r.confidence_debt.push(debt(ConfidenceScore::Unknown));
    r.confidence_debt.push(debt(ConfidenceScore::Suspicious));
    r.confidence_debt.push(debt(ConfidenceScore::Inferred));
    assert_eq!(tally_confidence(&r, 10), ConfidenceTally { verified: 6, inferred: 1, suspicious: 2, unknown: 1 });
    assert_eq!(tally_confidence(&r, 3).verified, 0);
}

// ── Intents ──────────────────

#[test]
fn intents_by_description_and_in_play() {
    let mut s = IntentState::new();
    let a = s.add("warmer".to_string(), Vec::new());
    let b = s.add("louder".to_string(), Vec::new());
    assert_eq!(s.find_by_description("louder"), Some(b));
    assert_eq!(s.find_by_description("quieter"), None);
    s.intents.get_mut(&a.0).unwrap().status = IntentStatus::Resolved;
    assert_eq!(s.active(), vec![b]);
    let mut ids = vec![a, b];
    ids.sort();
    s.intents.get_mut(&a.0).unwrap().status = IntentStatus::Attached;
    assert_eq!(s.active(), ids);
}

#[test]
fn patch_errors_read_as_text() {
    assert_eq!(PatchError::NodeNotFound(StableId(0)).to_text(), "node 00000000000000000000000000 not found");
    assert_eq!(
        PatchError::PortNotFound { node: StableId(1), port: "in".to_string() }.to_text(),
        "port 'in' not found on node 00000000000000000000000001"
    );
    assert_eq!(
        PatchError::HashMismatch { expected: "a".to_string(), actual: "b".to_string() }.to_text(),
        "hash mismatch: expected a, got b"
    );
    assert_eq!(PatchError::MergeConflict("x".to_string()).to_text(), "merge conflict: x");
    assert_eq!(PatchError::EdgeAlreadyExists(StableId(2)).to_text(), "edge 00000000000000000000000002 already exists");
}
