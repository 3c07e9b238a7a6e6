use dirtydata::diff::config_diff;
use dirtydata::hex::{encode, hex_short};
use dirtydata::ids::{IntentId, PatchId, Revision, StableId, Timestamp};
use dirtydata::intent::{Attributor, IntentState, IntentStatus};
use dirtydata::ir::{Edge, Graph, Node};
use dirtydata::keyed::Keyed;
use dirtydata::merge::{merge_three_way, MergeError};
use dirtydata::palette::CommandPalette;
use dirtydata::patch::{Operation, Patch, PatchSet};
use dirtydata::report::{find_disposables, summarize_ops};
use dirtydata::storage::{branch_content, head_content, join_path, parse_branch, parse_head, PatchIndex, Storage, StorageError};
use dirtydata::types::{ConfigChange, ConfigValue, IntentConstraint, PatchSource, PortRef, TrustLevel};

fn set(key: &str, v: ConfigValue) -> Keyed<ConfigChange> {
    let mut d = Keyed::new();
    d.insert(key.to_string(), ConfigChange { old: None, new: Some(v) });
    d
}

// ── Differences ──────────────────

#[test]
fn config_diff_applies_back() {
    let mut a = Keyed::new();
    a.insert("gain".to_string(), ConfigValue::Int(1));
    a.insert("mode".to_string(), ConfigValue::String("x".into()));
    let mut b = Keyed::new();
    b.insert("gain".to_string(), ConfigValue::Int(2));
    b.insert("pan".to_string(), ConfigValue::Int(0));
    let d = config_diff(&a, &b);
    assert_eq!(d.len(), 3);
    assert_eq!(d.get("gain").unwrap().old, Some(ConfigValue::Int(1)));
    assert_eq!(d.get("gain").unwrap().new, Some(ConfigValue::Int(2)));
    assert_eq!(d.get("mode").unwrap().new, None);
    assert_eq!(d.get("pan").unwrap().old, None);
    assert!(config_diff(&a, &a).is_empty());
}

#[test]
fn diff_replays_to_the_other_graph() {
    let src = Node::new_source("Sine");
    let gain = Node::new_processor("Gain");
    let sink = Node::new_sink("Output");
    let e1 = Edge::new(
        PortRef { node_id: src.id, port_name: "out".into() },
        PortRef { node_id: gain.id, port_name: "in".into() },
    );
    let mut a = Graph::new();
    a.apply(&Patch::from_operations(vec![
        Operation::AddNode(src.clone()),
        Operation::AddNode(gain.clone()),
        Operation::AddEdge(e1.clone()),
    ]))
    .unwrap();
    let mut b = a.clone();
    let e2 = Edge::new(
        PortRef { node_id: gain.id, port_name: "out".into() },
        PortRef { node_id: sink.id, port_name: "in".into() },
    );
    b.apply(&Patch::from_operations(vec![
        Operation::AddNode(sink.clone()),
        Operation::AddEdge(e2),
        Operation::RemoveEdge(e1.id),
        Operation::ModifyConfig { node_id: gain.id, delta: set("gain_db", ConfigValue::Int(3)) },
    ]))
    .unwrap();
    let d = a.diff(&b);
    let mut c = a.clone();
    c.apply(&d.patches[0]).unwrap();
    assert_eq!(c.nodes, b.nodes);
    assert_eq!(c.edges, b.edges);
    assert!(a.diff(&a).patches[0].operations.is_empty());
}

// ── Merging ──────────────────

#[test]
fn merge_combines_disjoint_changes() {
    let n1 = StableId::new();
    let n2 = StableId::new();
    let left = PatchSet::single(Patch::from_operations(vec![Operation::ModifyConfig { node_id: n1, delta: set("a", ConfigValue::Int(1)) }]));
    let right = PatchSet::single(Patch::from_operations(vec![Operation::RemoveNode(n2)]));
    let merged = merge_three_way(&PatchSet::new(), &left, &right).unwrap();
    assert_eq!(merged.patches.len(), 1);
    let ops = &merged.patches[0].operations;
    assert_eq!(ops.len(), 2);
    assert_eq!(merged.patches[0].source, PatchSource::System);
    assert_eq!(merged.patches[0].trust, TrustLevel::Trusted);
}

#[test]
fn merge_reports_conflicts() {
    let n = StableId::new();
    let left = PatchSet::single(Patch::from_operations(vec![Operation::ModifyConfig { node_id: n, delta: set("a", ConfigValue::Int(1)) }]));
    let right = PatchSet::single(Patch::from_operations(vec![Operation::ModifyConfig { node_id: n, delta: set("a", ConfigValue::Int(2)) }]));
    let r = merge_three_way(&PatchSet::new(), &left, &right);
    assert_eq!(r.err(), Some(MergeError::ConfigConflict { node_id: n, key: "a".into() }));
    let removal = PatchSet::single(Patch::from_operations(vec![Operation::RemoveNode(n)]));
    let r2 = merge_three_way(&PatchSet::new(), &left, &removal);
    assert_eq!(r2.err(), Some(MergeError::RemoveModifyConflict { node_id: n }));
    assert_eq!(
        MergeError::RemoveModifyConflict { node_id: n }.to_text(),
        format!("Conflict on node {}: one side removed, other side modified", n.to_text())
    );
    let same = merge_three_way(&PatchSet::new(), &left, &left).unwrap();
    assert_eq!(same.patches[0].operations.len(), 1);
}

#[test]
fn merge_does_not_depend_on_the_order_of_the_sides() {
    let n1 = StableId(1);
    let n2 = StableId(2);
    let mut both = Keyed::new();
    both.insert("a".to_string(), ConfigChange { old: None, new: Some(ConfigValue::Int(1)) });
    both.insert("b".to_string(), ConfigChange { old: None, new: Some(ConfigValue::Int(2)) });
    let left = PatchSet::single(Patch::from_operations(vec![
        Operation::ModifyConfig { node_id: n1, delta: both },
        Operation::RemoveNode(n2),
    ]));
    let right = PatchSet::single(Patch::from_operations(vec![Operation::ModifyConfig { node_id: n1, delta: set("a", ConfigValue::Int(1)) }]));
    let lr = merge_three_way(&PatchSet::new(), &left, &right).unwrap();
    let rl = merge_three_way(&PatchSet::new(), &right, &left).unwrap();
    assert_eq!(lr.patches[0].operations, rl.patches[0].operations);
    assert_eq!(lr.patches[0].operations.len(), 2);
    let clash = PatchSet::single(Patch::from_operations(vec![Operation::ModifyConfig { node_id: n1, delta: set("b", ConfigValue::Int(9)) }]));
    assert!(merge_three_way(&PatchSet::new(), &left, &clash).is_err());
    assert!(merge_three_way(&PatchSet::new(), &clash, &left).is_err());
}

// ── Intents ──────────────────

#[test]
fn intents_are_added_and_attached() {
    let mut state = IntentState::new();
    let id = state.add("louder".into(), vec![IntentConstraint::Must("no clipping".into())]);
    assert_eq!(state.intents.get(&id.0).unwrap().status, IntentStatus::Proposal);
    let p = PatchId::new();
    state.attach(id, p).unwrap();
    state.attach(id, p).unwrap();
    let node = state.intents.get(&id.0).unwrap();
    assert_eq!(node.status, IntentStatus::Attached);
    assert_eq!(node.attached_patches, vec![p]);
    let missing = IntentId::new();
    assert_eq!(state.attach(missing, p), Err(format!("Intent {} not found", missing.to_text())));
    let prefix = &id.to_text()[..13];
    assert_eq!(state.find_by_prefix(prefix), Some(id));
    assert_eq!(state.find_by_prefix("!"), None);
}

#[test]
fn attribution_finds_the_latest_patch() {
    let n = StableId::new();
    let p1 = Patch::from_operations(vec![Operation::ModifyConfig { node_id: n, delta: set("gain", ConfigValue::Int(1)) }]);
    let p2 = Patch::from_operations_with_provenance(
        vec![Operation::ModifyConfig { node_id: n, delta: set("gain", ConfigValue::Int(2)) }],
        PatchSource::Script("mix \"a\"".into()),
        TrustLevel::Untrusted,
    );
    let p3 = Patch::from_operations(vec![Operation::ModifyConfig { node_id: n, delta: set("pan", ConfigValue::Int(0)) }]);
    let a = Attributor::trace_parameter(n, "gain", &[p1, p2.clone(), p3]).unwrap();
    assert_eq!(a.patch_id, p2.identity);
    assert_eq!(a.source, "Script(\"mix \\\"a\\\"\")");
    assert!(a.intent_description.is_none());
    assert!(Attributor::trace_parameter(StableId::new(), "gain", &[p2]).is_none());
}

// ── Summaries ──────────────────

#[test]
fn summaries_of_operations() {
    assert_eq!(summarize_ops(&[]), "(empty)");
    let ops = vec![
        Operation::AddNode(Node::new_source("Sine")),
        Operation::AddNode(Node::new_sink("Out")),
        Operation::RemoveNode(StableId::new()),
        Operation::RemoveEdge(StableId::new()),
        Operation::ModifyConfig { node_id: StableId::new(), delta: Keyed::new() },
    ];
    assert_eq!(summarize_ops(&ops), "AddNode Sine, Out, 1 config change(s), 2 removal(s)");
    let many: Vec<Operation> = (0..4).map(|i| Operation::AddNode(Node::new_processor(&format!("n{}", i)))).collect();
    assert_eq!(summarize_ops(&many), "AddNode 4 nodes");
}

#[test]
fn disposables_are_isolated_nodes() {
    let lonely = Node::new_processor("Lonely");
    let mut tuned = Node::new_processor("Tuned");
    tuned.config.insert("gain".into(), ConfigValue::Int(3));
    let mut g = Graph::new();
    g.apply(&Patch::from_operations(vec![Operation::AddNode(lonely.clone()), Operation::AddNode(tuned.clone())])).unwrap();
    let d = find_disposables(&g);
    assert_eq!(d.len(), 2);
    let reason_of = |id: StableId| d.iter().find(|(i, _)| *i == id).unwrap().1.clone();
    assert_eq!(reason_of(lonely.id), "isolated node with no configuration");
    assert_eq!(reason_of(tuned.id), "isolated node \u{2014} not connected to signal path");
    let mut single = Graph::new();
    single.apply(&Patch::from_operations(vec![Operation::AddNode(lonely)])).unwrap();
    assert!(find_disposables(&single).is_empty());
}

// ── Store ──────────────────

#[test]
fn store_paths_and_files() {
    assert_eq!(Storage::open("/p", false).err(), Some(StorageError::NotInitialized));
    let s = Storage::open("/p", true).unwrap();
    assert_eq!(s.root(), "/p/.dirtydata");
    assert_eq!(s.path_of("HEAD"), "/p/.dirtydata/HEAD");
    assert_eq!(join_path("/p/", "x"), "/p/x");
    assert_eq!(join_path("", "x"), "x");
    assert_eq!(head_content("main"), "ref: refs/heads/main");
    assert_eq!(parse_head("ref: refs/heads/dev\n"), "dev");
    assert_eq!(parse_head("  detached "), "detached");
    let id = PatchId::new();
    assert_eq!(parse_branch(&format!("{}\n", id.to_text())), Some(id));
    assert_eq!(parse_branch("   "), None);
    assert_eq!(parse_branch("nonsense"), None);
    assert_eq!(StorageError::NotInitialized.to_text(), "project not initialized \u{2014} run `dirtydata init`");
}

#[test]
fn patch_index_records_each_patch_once() {
    let mut idx = PatchIndex::new();
    let p = Patch::from_operations(vec![]).with_parents(vec![PatchId::new()]);
    assert!(idx.record(&p));
    assert!(!idx.record(&p));
    assert_eq!(idx.patches.len(), 1);
    assert_eq!(idx.patches[0].parents, p.parents);
    assert_eq!(idx.patches[0].hash, p.deterministic_hash);
}

// ── Palette ──────────────────

#[test]
fn palette_matches_labels_and_aliases() {
    let mut p = CommandPalette::new();
    p.query = "lpf".into();
    p.selected_idx = 5;
    p.update_search();
    assert_eq!(p.results.len(), 1);
    assert_eq!(p.results[0].label, "LPF (Biquad)");
    assert_eq!(p.selected_idx, 0);
    p.query = "VCA".into();
    p.update_search();
    assert_eq!(p.results.len(), 1);
    assert_eq!(p.results[0].label, "Gain / Amp");
    p.query = "".into();
    p.selected_idx = 3;
    p.update_search();
    assert_eq!(p.results.len(), 7);
    assert_eq!(p.selected_idx, 3);
    p.query = "e".into();
    p.update_search();
    let labels: Vec<&str> = p.results.iter().map(|r| r.label.as_str()).collect();
    assert_eq!(labels, vec!["Sine Oscillator", "Noise", "Compressor", "Delay", "ADSR Envelope"]);
}

#[test]
fn head_and_branch_files_read_back() {
    for b in ["main", "feature/x", "", "dev-2"] {
        assert_eq!(parse_head(&head_content(b)), b);
    }
    // A branch named after the prefix itself loses it on the way back.
    assert_eq!(parse_head(&head_content("ref: refs/heads/x")), "x");
    for id in [PatchId(0), PatchId(u128::MAX), PatchId::new()] {
        let text = branch_content(id);
        assert_eq!(text, id.to_text());
        assert_eq!(parse_branch(&text), Some(id));
    }
    assert_eq!(PatchId(u128::MAX).to_text(), "7ZZZZZZZZZZZZZZZZZZZZZZZZZ");
    assert_eq!(PatchId::parse("7zzzzzzzzzzzzzzzzzzzzzzzzz"), Some(PatchId(u128::MAX)));
    assert_eq!(PatchId::parse("0000000000000000000000000I"), None);
}

// ── Small helpers ──────────────────

#[test]
fn hex_and_identifiers() {
    assert_eq!(encode(&[0x00, 0xab, 0x10]), "00ab10");
    assert_eq!(hex_short(&[1, 2, 3, 4, 5, 6, 7, 8, 9]), "0102030405060708");
    let id = StableId::new();
    assert_eq!(StableId::parse(&id.to_text()), Some(id));
    assert_eq!(StableId::parse("not a ulid"), None);
    assert_eq!(Revision::zero(), Revision(0));
    assert_eq!(Revision(4).next(), Revision(5));
    assert!(Timestamp::now().0 > 0);
}

#[test]
fn config_diff_compares_floats_by_value() {
    let mut a = Keyed::new();
    a.insert("x".to_string(), ConfigValue::Float(0.0f64.to_bits()));
    a.insert("n".to_string(), ConfigValue::Float(f64::NAN.to_bits()));
    let mut b = Keyed::new();
    b.insert("x".to_string(), ConfigValue::Float((-0.0f64).to_bits()));
    b.insert("n".to_string(), ConfigValue::Float(f64::NAN.to_bits()));
    let d = config_diff(&a, &b);
    assert_eq!(d.len(), 1);
    assert!(d.get("x").is_none());
    assert_eq!(d.get("n").unwrap().old, Some(ConfigValue::Float(f64::NAN.to_bits())));
    let mut c = Keyed::new();
    c.insert("x".to_string(), ConfigValue::Float(1.5f64.to_bits()));
    assert_eq!(config_diff(&a, &c).get("x").unwrap().new, Some(ConfigValue::Float(1.5f64.to_bits())));
}

#[test]
fn diff_replaces_reshaped_nodes_and_drops_edges_first() {
    let src = Node::new_source("Sine");
    let gain = Node::new_processor("Gain");
    let sink = Node::new_sink("Output");
    let e1 = Edge::new(
        PortRef { node_id: src.id, port_name: "out".into() },
        PortRef { node_id: gain.id, port_name: "in".into() },
    );
    let e2 = Edge::new(
        PortRef { node_id: gain.id, port_name: "out".into() },
        PortRef { node_id: sink.id, port_name: "in".into() },
    );
    let mut a = Graph::new();
    a.apply(&Patch::from_operations(vec![
        Operation::AddNode(src.clone()),
        Operation::AddNode(gain.clone()),
        Operation::AddNode(sink.clone()),
        Operation::AddEdge(e1.clone()),
        Operation::AddEdge(e2.clone()),
    ]))
    .unwrap();
    // In `b` the sink is gone (with its edge) and the gain node is an analyzer.
    let mut b = Graph::new();
    let mut analyzer = gain.clone();
    analyzer.kind = dirtydata::types::NodeKind::Analyzer;
    b.apply(&Patch::from_operations(vec![
        Operation::AddNode(src.clone()),
        Operation::AddNode(analyzer.clone()),
        Operation::AddEdge(e1.clone()),
    ]))
    .unwrap();
    let d = a.diff(&b);
    let ops = &d.patches[0].operations;
    assert_eq!(ops[0], Operation::RemoveEdge(e2.id));
    assert_eq!(ops[1], Operation::RemoveNode(sink.id));
    assert_eq!(ops[2], Operation::ReplaceNode(analyzer.clone()));
    assert_eq!(ops.len(), 3);
    let mut c = a.clone();
    c.apply(&d.patches[0]).unwrap();
    assert_eq!(c.nodes, b.nodes);
    assert_eq!(c.edges, b.edges);
    assert_eq!(c.revision, Revision(2));
}

#[test]
fn merge_of_a_double_removal_removes_once() {
    let n = StableId::new();
    let l = PatchSet::single(Patch::from_operations(vec![Operation::RemoveNode(n)]));
    let r = l.clone();
    let merged = merge_three_way(&PatchSet::new(), &l, &r).unwrap();
    assert_eq!(merged.patches[0].operations, vec![Operation::RemoveNode(n)]);
}

#[test]
fn join_path_takes_an_absolute_part_as_is() {
    assert_eq!(join_path("/p", "/abs/x.wav"), "/abs/x.wav");
    assert_eq!(join_path("/p", "rel/x.wav"), "/p/rel/x.wav");
}

#[test]
fn kinds_are_tallied_per_label() {
    let mut g = Graph::new();
    let mut plugin = Node::new_processor("Verb");
    plugin.kind = dirtydata::types::NodeKind::Foreign("Reverb".into());
    g.apply(&Patch::from_operations(vec![
        Operation::AddNode(Node::new_source("A")),
        Operation::AddNode(Node::new_source("B")),
        Operation::AddNode(Node::new_sink("C")),
        Operation::AddNode(plugin),
    ]))
    .unwrap();
    let mut t = dirtydata::report::tally_kinds(&g);
    t.sort();
    assert_eq!(t, vec![("Reverb".to_string(), 1), ("Sink".to_string(), 1), ("Source".to_string(), 2)]);
    assert!(dirtydata::report::tally_kinds(&Graph::new()).is_empty());
}

#[test]
fn merge_compares_changes_by_value() {
    let n = StableId(7);
    let zero = PatchSet::single(Patch::from_operations(vec![Operation::ModifyConfig {
        node_id: n,
        delta: set("x", ConfigValue::Float(0.0f64.to_bits())),
    }]));
    let negative_zero = PatchSet::single(Patch::from_operations(vec![Operation::ModifyConfig {
        node_id: n,
        delta: set("x", ConfigValue::Float((-0.0f64).to_bits())),
    }]));
    let merged = merge_three_way(&PatchSet::new(), &zero, &negative_zero).unwrap();
    assert_eq!(merged.patches[0].operations, zero.patches[0].operations);
    let nan = PatchSet::single(Patch::from_operations(vec![Operation::ModifyConfig {
        node_id: n,
        delta: set("x", ConfigValue::Float(f64::NAN.to_bits())),
    }]));
    assert_eq!(
        merge_three_way(&PatchSet::new(), &nan, &nan).err(),
        Some(MergeError::ConfigConflict { node_id: n, key: "x".into() })
    );
}

#[test]
fn head_parsing_trims_unicode_white_space_and_every_prefix() {
    assert_eq!(parse_head("\u{3000} ref: refs/heads/main\t\n"), "main");
    assert_eq!(parse_head("ref: refs/heads/ref: refs/heads/x"), "x");
    assert_eq!(parse_head("  plain  "), "plain");
    assert_eq!(parse_head(" \n "), "");
}
