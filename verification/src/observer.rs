//! The observer: what the file system says of the graph's external files,
//! and how much each node can be trusted because of it. The caller probes
//! the files; this module decides what to probe and what the findings mean.
use vstd::prelude::*;
use std::collections::BTreeMap;
use crate::actions::{name_of, node_name};
use crate::hash::{blake3_digest, hash_bytes};
use crate::ids::StableId;
use crate::ir::{Graph, GraphV, Node, NodeV};
use crate::storage::joined;
use crate::keyed::Keyed;
use crate::patch::{op_step, Operation, OperationV};
use crate::text::{chars_of, hex_byte, hex_char, hex_seq, owned, push_str};
use crate::walk::ordered_ids;
use crate::types::{ConfidenceScore, ConfigChange, ConfigChangeV, ConfigValue, ConfigValueV, NodeKind, NodeKindV};

verus! {

broadcast use {vstd::std_specs::btree::group_btree_axioms, vstd::laws_cmp::group_laws_cmp};

/// Why a node has the confidence it has.
#[derive(Debug, PartialEq)]
pub enum Evidence {
    /// The file's hash is the expected one.
    FileHashMatch { path: String, hash: [u8; 32] },
    /// Only the file's size and modification time were read.
    FileStatOnly { path: String, size: u64, mtime: u64 },
    /// The file's hash is not the expected one.
    FileHashMismatch { path: String, expected: [u8; 32], actual: [u8; 32] },
    /// The file's extension is not one that is checked.
    ExtensionUnknown { path: String, ext: String },
    /// A plugin: nondeterministic by nature.
    InherentNondeterminism { plugin_name: String },
    /// Inferred from the context.
    InferredFromContext(String),
    /// Nothing could be observed.
    Unobservable(String),
}

/// What was observed of one node.
#[derive(Debug, PartialEq)]
pub struct Observation {
    pub target: StableId,
    pub target_name: String,
    pub confidence: ConfidenceScore,
    pub evidence: Evidence,
    pub timestamp: crate::ids::Timestamp,
}

/// The observations, by node.
#[derive(Debug, PartialEq)]
pub struct ObserverState {
    pub observations: BTreeMap<u128, Observation>,
}

/// What the caller found on disk for a file.
#[derive(Debug, PartialEq)]
pub struct FileFacts {
    /// Whether the path exists.
    pub exists: bool,
    /// The file's size and modification time (seconds since the epoch), or
    /// the system's message when its metadata could not be read.
    pub metadata: Result<(u64, u64), String>,
    /// The file's contents when they were read; `None` when reading failed
    /// or was not asked for.
    pub contents: Option<Vec<u8>>,
}

/// The extension that `Path::extension` finds in a path, as text (empty
/// when there is none or it is not valid text).
pub uninterp spec fn path_extension(path: Seq<char>) -> Seq<char>;

/// Calls `Path::extension`; the result is a function of the path text.
#[verifier::external_body]
fn extension_of(path: &str) -> (r: String)
    ensures
        r@ == path_extension(path@),
{
    std::path::Path::new(path).extension().and_then(|s| s.to_str()).unwrap_or("").to_string()
}

/// Reads the clock: milliseconds since the Unix epoch. Nothing is claimed
/// of the value.
#[verifier::external_body]
fn clock_millis() -> i64 {
    std::time::SystemTime::now().duration_since(std::time::UNIX_EPOCH).map(|d| d.as_millis() as i64).unwrap_or(0)
}

/// Whether an extension is one whose files are checked.
pub open spec fn known_extension(ext: Seq<char>) -> bool {
    ext == "wav"@ || ext == "flac"@ || ext == "json"@
}

/// Whether a character is an ASCII hexadecimal digit.
pub open spec fn hex_digit_char(c: char) -> bool {
    ('0' <= c && c <= '9') || ('a' <= c && c <= 'f') || ('A' <= c && c <= 'F')
}

/// The value of a hexadecimal digit.
pub open spec fn hex_value(c: char) -> u8 {
    if '0' <= c && c <= '9' {
        (c as u32 - '0' as u32) as u8
    } else if 'a' <= c && c <= 'f' {
        (c as u32 - 'a' as u32 + 10) as u8
    } else {
        (c as u32 - 'A' as u32 + 10) as u8
    }
}

/// Whether a text is a full digest in hexadecimal: 64 hexadecimal digits.
pub open spec fn is_digest_hex(s: Seq<char>) -> bool {
    s.len() == 64 && forall|i: int| 0 <= i < 64 ==> hex_digit_char(#[trigger] s[i])
}

/// The digest that 64 hexadecimal digits spell.
pub open spec fn digest_of_hex(s: Seq<char>) -> Seq<u8> {
    Seq::new(32, |i: int| (hex_value(s[2 * i]) * 16 + hex_value(s[2 * i + 1])) as u8)
}

fn digit_value(c: char) -> (v: u8)
    requires
        hex_digit_char(c),
    ensures
        v == hex_value(c),
        v < 16,
{
    if '0' <= c && c <= '9' {
        (c as u32 - '0' as u32) as u8
    } else if 'a' <= c && c <= 'f' {
        (c as u32 - 'a' as u32 + 10) as u8
    } else {
        (c as u32 - 'A' as u32 + 10) as u8
    }
}

/// Decodes 64 hexadecimal digits into a digest.
pub fn decode_digest(s: &str) -> (r: Option<[u8; 32]>)
    ensures
        is_digest_hex(s@) ==> r is Some && r->Some_0@ == digest_of_hex(s@),
        !is_digest_hex(s@) ==> r is None,
{
    let cs = chars_of(s);
    if cs.len() != 64 {
        return None;
    }
    let mut i: usize = 0;
    while i < 64
        invariant
            cs@ == s@,
            cs@.len() == 64,
            i <= 64,
            forall|j: int| 0 <= j < i ==> hex_digit_char(#[trigger] cs@[j]),
        decreases 64 - i,
    {
        let c = cs[i];
        if !(('0' <= c && c <= '9') || ('a' <= c && c <= 'f') || ('A' <= c && c <= 'F')) {
            return None;
        }
        i += 1;
    }
    let mut out = [0u8; 32];
    let mut k: usize = 0;
    while k < 32
        invariant
            cs@ == s@,
            cs@.len() == 64,
            is_digest_hex(s@),
            k <= 32,
            out@.len() == 32,
            forall|j: int| 0 <= j < k ==> out@[j] == digest_of_hex(s@)[j],
        decreases 32 - k,
    {
        let hi = digit_value(cs[2 * k]);
        let lo = digit_value(cs[2 * k + 1]);
        out.set(k, hi * 16 + lo);
        k += 1;
    }
    proof {
        assert(out@ =~= digest_of_hex(s@));
    }
    Some(out)
}

/// The confidence and the evidence for a file.
pub open spec fn file_judgement(path: Seq<char>, expected: Option<Seq<char>>, facts: FileFacts) -> (ConfidenceScore, EvidenceV) {
    if !facts.exists {
        (ConfidenceScore::Unknown, EvidenceV::Unobservable("File not found: "@ + path))
    } else if facts.metadata is Err {
        (ConfidenceScore::Unknown, EvidenceV::Unobservable("Cannot read metadata: "@ + facts.metadata->Err_0@))
    } else if !known_extension(path_extension(path)) {
        (ConfidenceScore::Suspicious, EvidenceV::ExtensionUnknown { path, ext: path_extension(path) })
    } else if expected is Some && facts.contents is None {
        (ConfidenceScore::Unknown, EvidenceV::Unobservable("Failed to read file contents"@))
    } else if expected is Some && is_digest_hex(expected->Some_0) {
        let actual = blake3_digest(facts.contents->Some_0@);
        let want = digest_of_hex(expected->Some_0);
        if want == actual {
            (ConfidenceScore::Verified, EvidenceV::FileHashMatch { path, hash: actual })
        } else {
            (ConfidenceScore::Unknown, EvidenceV::FileHashMismatch { path, expected: want, actual })
        }
    } else {
        (ConfidenceScore::Inferred, EvidenceV::FileStatOnly { path, size: facts.metadata->Ok_0.0, mtime: facts.metadata->Ok_0.1 })
    }
}

/// The evidence, as values.
pub enum EvidenceV {
    FileHashMatch { path: Seq<char>, hash: Seq<u8> },
    FileStatOnly { path: Seq<char>, size: u64, mtime: u64 },
    FileHashMismatch { path: Seq<char>, expected: Seq<u8>, actual: Seq<u8> },
    ExtensionUnknown { path: Seq<char>, ext: Seq<char> },
    InherentNondeterminism { plugin_name: Seq<char> },
    InferredFromContext(Seq<char>),
    Unobservable(Seq<char>),
}

impl View for Evidence {
    type V = EvidenceV;

    open spec fn view(&self) -> EvidenceV {
        match self {
            Evidence::FileHashMatch { path, hash } => EvidenceV::FileHashMatch { path: path@, hash: hash@ },
            Evidence::FileStatOnly { path, size, mtime } => EvidenceV::FileStatOnly { path: path@, size: *size, mtime: *mtime },
            Evidence::FileHashMismatch { path, expected, actual } => EvidenceV::FileHashMismatch {
                path: path@,
                expected: expected@,
                actual: actual@,
            },
            Evidence::ExtensionUnknown { path, ext } => EvidenceV::ExtensionUnknown { path: path@, ext: ext@ },
            Evidence::InherentNondeterminism { plugin_name } => EvidenceV::InherentNondeterminism { plugin_name: plugin_name@ },
            Evidence::InferredFromContext(s) => EvidenceV::InferredFromContext(s@),
            Evidence::Unobservable(s) => EvidenceV::Unobservable(s@),
        }
    }
}

/// Whether the contents of a file are needed to judge it.
pub fn wants_contents(path: &str, expected: Option<&str>) -> (b: bool)
    ensures
        b == (expected is Some && known_extension(path_extension(path@))),
{
    let ext = extension_of(path);
    expected.is_some() && (eq(ext.as_str(), "wav") || eq(ext.as_str(), "flac") || eq(ext.as_str(), "json"))
}

fn eq(a: &str, b: &str) -> (r: bool)
    ensures
        r == (a@ == b@),
{
    crate::text::key_equal(a, b)
}

/// The path of a file that a source node refers to.
pub open spec fn file_of(n: NodeV) -> Option<Seq<char>> {
    if n.config.contains_key("file"@) && n.config["file"@] is Str {
        Some(n.config["file"@]->Str_0)
    } else {
        None
    }
}

/// The hash a source node expects of its file.
pub open spec fn expected_of(n: NodeV) -> Option<Seq<char>> {
    if n.config.contains_key("expected_hash"@) && n.config["expected_hash"@] is Str {
        Some(n.config["expected_hash"@]->Str_0)
    } else {
        None
    }
}

/// What to do for one node: probe a file, or record a finding right away.
#[derive(Debug, PartialEq)]
pub enum Probe {
    /// Probe the file at `path` (relative to the project).
    File { target: StableId, target_name: String, path: String, expected_hash: Option<String> },
    /// Nothing to probe: the confidence and evidence are known.
    Known { target: StableId, target_name: String, confidence: ConfidenceScore, evidence: Evidence },
}

/// Whether `p` is the probe for node `n` (identifier `id`) of a project at
/// `root`: a source with a `file` setting is probed at that file; a source
/// without one is a live input; a plugin is suspicious; any other node is
/// deterministic by construction.
pub open spec fn plan_of(id: StableId, n: NodeV, root: Seq<char>, p: Probe) -> bool {
    match n.kind {
        NodeKindV::Source => match file_of(n) {
            Some(f) => p matches Probe::File { target, target_name, path, expected_hash } && target == id && target_name@ == name_of(n)
                && path@ == joined(root, f)
                && match expected_of(n) {
                    Some(h) => expected_hash is Some && expected_hash->Some_0@ == h,
                    None => expected_hash is None,
                },
            None => p matches Probe::Known { target, target_name, confidence, evidence } && target == id
                && target_name@ == name_of(n) && confidence == ConfidenceScore::Unknown
                && evidence@ == EvidenceV::Unobservable("Live audio input"@),
        },
        NodeKindV::Foreign(plugin) => p matches Probe::Known { target, target_name, confidence, evidence } && target == id
            && target_name@ == name_of(n) && confidence == ConfidenceScore::Suspicious
            && evidence@ == EvidenceV::InherentNondeterminism { plugin_name: plugin },
        _ => p matches Probe::Known { target, target_name, confidence, evidence } && target == id
            && target_name@ == name_of(n) && confidence == ConfidenceScore::Inferred
            && evidence@ == EvidenceV::InferredFromContext("Internal deterministic node"@),
    }
}

impl Observer {
    /// The probe for a node: a source with a `file` setting is probed; a
    /// source without one is a live input; a plugin is suspicious; any other
    /// node is deterministic by construction.
    pub fn plan_node(id: StableId, node: &Node, project_root: &str) -> (p: Probe)
        ensures
            plan_of(id, node@, project_root@, p),
    {
        let name = node_name(node);
        match &node.kind {
            NodeKind::Source => {
                let file = match node.config.get("file") {
                    Some(ConfigValue::String(f)) => Some(f),
                    _ => None,
                };
                match file {
                    Some(f) => {
                        let path = crate::storage::join_path(project_root, f.as_str());
                        let expected = match node.config.get("expected_hash") {
                            Some(ConfigValue::String(h)) => Some(h.clone()),
                            _ => None,
                        };
                        Probe::File { target: id, target_name: name, path, expected_hash: expected }
                    },
                    None => Probe::Known {
                        target: id,
                        target_name: name,
                        confidence: ConfidenceScore::Unknown,
                        evidence: Evidence::Unobservable(owned("Live audio input")),
                    },
                }
            },
            NodeKind::Foreign(plugin) => Probe::Known {
                target: id,
                target_name: name,
                confidence: ConfidenceScore::Suspicious,
                evidence: Evidence::InherentNondeterminism { plugin_name: plugin.clone() },
            },
            _ => Probe::Known {
                target: id,
                target_name: name,
                confidence: ConfidenceScore::Inferred,
                evidence: Evidence::InferredFromContext(owned("Internal deterministic node")),
            },
        }
    }

    /// The probes for a graph, one per node in identifier order.
    pub fn plan_graph(graph: &Graph, project_root: &str) -> (r: Vec<Probe>)
        ensures
            r@.len() == ordered_ids(graph@.nodes).len(),
            forall|j: int| 0 <= j < r@.len() ==> plan_of(
                StableId(#[trigger] ordered_ids(graph@.nodes)[j]),
                graph@.nodes[ordered_ids(graph@.nodes)[j]],
                project_root@,
                r@[j],
            ),
    {
        let ids = crate::walk::sorted_keys_of(&graph.nodes);
        let mut out: Vec<Probe> = Vec::new();
        let mut i: usize = 0;
        proof {
            assert(graph@.nodes.dom() =~= graph.nodes@.dom());
            assert(ordered_ids(graph@.nodes) == ordered_ids(graph.nodes@));
        }
        while i < ids.len()
            invariant
                i <= ids@.len(),
                ids@ == ordered_ids(graph@.nodes),
                forall|j: int| 0 <= j < ids@.len() ==> graph.nodes@.contains_key(#[trigger] ids@[j]),
                out@.len() == i,
                forall|j: int| 0 <= j < i ==> plan_of(StableId(#[trigger] ids@[j]), graph@.nodes[ids@[j]], project_root@, out@[j]),
            decreases ids@.len() - i,
        {
            let id = ids[i];
            assert(graph.nodes@.contains_key(ids@[i as int]));
            match graph.nodes.get(&id) {
                Some(n) => {
                    let p = Observer::plan_node(StableId(id), n, project_root);
                    out.push(p);
                },
                None => {},
            }
            i += 1;
        }
        out
    }

    /// Judges a file from what the caller found on disk: missing, without
    /// metadata, of an unchecked kind, unreadable, matching or not its
    /// expected hash, or (without a valid expected hash) known by its
    /// metadata only.
    pub fn observe_file(target: StableId, target_name: String, path: &str, expected_hash_hex: Option<&str>, facts: &FileFacts) -> (o: Observation)
        ensures
            o.target == target,
            o.target_name == target_name,
            (o.confidence, o.evidence@) == file_judgement(path@, match expected_hash_hex { Some(h) => Some(h@), None => None }, *facts),
    {
        let ts = crate::ids::Timestamp(clock_millis());
        if !facts.exists {
            let mut msg = owned("File not found: ");
            push_str(&mut msg, path);
            return Observation { target, target_name, confidence: ConfidenceScore::Unknown, evidence: Evidence::Unobservable(msg), timestamp: ts };
        }
        let (size, mtime) = match &facts.metadata {
            Ok(m) => *m,
            Err(e) => {
                let mut msg = owned("Cannot read metadata: ");
                push_str(&mut msg, e.as_str());
                return Observation { target, target_name, confidence: ConfidenceScore::Unknown, evidence: Evidence::Unobservable(msg), timestamp: ts };
            },
        };
        let ext = extension_of(path);
        if !(eq(ext.as_str(), "wav") || eq(ext.as_str(), "flac") || eq(ext.as_str(), "json")) {
            return Observation {
                target,
                target_name,
                confidence: ConfidenceScore::Suspicious,
                evidence: Evidence::ExtensionUnknown { path: owned(path), ext },
                timestamp: ts,
            };
        }
        if let Some(expected_hex) = expected_hash_hex {
            let bytes = match &facts.contents {
                Some(b) => b,
                None => {
                    return Observation {
                        target,
                        target_name,
                        confidence: ConfidenceScore::Unknown,
                        evidence: Evidence::Unobservable(owned("Failed to read file contents")),
                        timestamp: ts,
                    };
                },
            };
            let actual = hash_bytes(bytes.as_slice());
            if let Some(expected) = decode_digest(expected_hex) {
                if crate::patch::digest_eq(&expected, &actual) {
                    return Observation {
                        target,
                        target_name,
                        confidence: ConfidenceScore::Verified,
                        evidence: Evidence::FileHashMatch { path: owned(path), hash: actual },
                        timestamp: ts,
                    };
                } else {
                    return Observation {
                        target,
                        target_name,
                        confidence: ConfidenceScore::Unknown,
                        evidence: Evidence::FileHashMismatch { path: owned(path), expected, actual },
                        timestamp: ts,
                    };
                }
            }
        }
        Observation {
            target,
            target_name,
            confidence: ConfidenceScore::Inferred,
            evidence: Evidence::FileStatOnly { path: owned(path), size, mtime },
            timestamp: ts,
        }
    }
}

/// The observer.
pub struct Observer;

impl ObserverState {
    /// No observations.
    pub fn new() -> (s: Self)
        ensures
            s.observations@ == Map::<u128, Observation>::empty(),
    {
        ObserverState { observations: BTreeMap::new() }
    }

    /// Records the finding of a probe that needed no file.
    pub fn record(&mut self, o: Observation)
        ensures
            final(self).observations@ == old(self).observations@.insert(o.target.0, o),
    {
        self.observations.insert(o.target.0, o);
    }

    /// The nodes whose observation is a hash mismatch, in identifier order.
    pub fn mismatches(&self) -> (r: Vec<u128>)
        ensures
            r@ == mismatch_ids(self.observations@),
    {
        let ids = crate::walk::sorted_keys_of(&self.observations);
        let mut out: Vec<u128> = Vec::new();
        let mut i: usize = 0;
        proof {
            reveal(Seq::filter);
            assert(ids@.take(0) =~= Seq::<u128>::empty());
        }
        while i < ids.len()
            invariant
                i <= ids@.len(),
                ids@ == ordered_ids(self.observations@),
                forall|k: u128| self.observations@.contains_key(k) <==> ids@.contains(k),
                out@ == ids@.take(i as int).filter(|k: u128| is_mismatch(self.observations@[k])),
            decreases ids@.len() - i,
        {
            let id = ids[i];
            proof {
                reveal(Seq::filter);
                assert(ids@.take(i + 1).drop_last() =~= ids@.take(i as int));
                assert(ids@.take(i + 1).last() == ids@[i as int]);
                assert(ids@.contains(ids@[i as int]));
            }
            match self.observations.get(&id) {
                Some(o) => {
                    if let Evidence::FileHashMismatch { .. } = &o.evidence {
                        out.push(id);
                    }
                },
                None => {},
            }
            i += 1;
        }
        proof {
            assert(ids@.take(ids@.len() as int) =~= ids@);
        }
        out
    }
}

/// Whether an observation is a hash mismatch.
pub open spec fn is_mismatch(o: Observation) -> bool {
    o.evidence is FileHashMismatch
}

/// The observed nodes whose observation is a hash mismatch, in identifier order.
pub open spec fn mismatch_ids(m: Map<u128, Observation>) -> Seq<u128> {
    ordered_ids(m).filter(|k: u128| is_mismatch(m[k]))
}

// ── Repair ──────────────────

/// The operation that repairs a hash mismatch of node `id`: it sets the
/// node's `expected_hash` to the hexadecimal digest that was found.
pub open spec fn repair_op(id: u128, actual: Seq<u8>) -> OperationV {
    OperationV::ModifyConfig {
        node_id: id,
        delta: Map::empty().insert("expected_hash"@, ConfigChangeV { old: None, new: Some(ConfigValueV::Str(hex_seq(actual))) }),
    }
}

/// The operation that repairs node `node_id` given its observed evidence:
/// only a hash mismatch is repaired.
pub fn repair_operation(node_id: StableId, evidence: &Evidence) -> (r: Option<Operation>)
    ensures
        match evidence@ {
            EvidenceV::FileHashMismatch { actual, .. } => r is Some && r->Some_0@ == repair_op(node_id.0, actual),
            _ => r is None,
        },
{
    match evidence {
        Evidence::FileHashMismatch { actual, .. } => {
            let hex = crate::hex::encode(actual);
            let mut delta: Keyed<ConfigChange> = Keyed::new();
            delta.insert(owned("expected_hash"), ConfigChange { old: None, new: Some(ConfigValue::String(hex)) });
            let op = Operation::ModifyConfig { node_id, delta };
            proof {
                assert(op@ == repair_op(node_id.0, actual@));
            }
            Some(op)
        },
        _ => None,
    }
}

proof fn lemma_hex_char_value(d: nat)
    requires
        d < 16,
    ensures
        hex_digit_char(hex_char(d)),
        hex_value(hex_char(d)) == d,
{
}

proof fn lemma_hex_seq_shape(b: Seq<u8>)
    ensures
        hex_seq(b).len() == 2 * b.len(),
        forall|i: int| 0 <= i < b.len() ==> hex_seq(b)[2 * i] == hex_char((#[trigger] b[i] / 16) as nat)
            && hex_seq(b)[2 * i + 1] == hex_char((b[i] % 16) as nat),
    decreases b.len(),
{
    if b.len() > 0 {
        lemma_hex_seq_shape(b.drop_last());
        assert forall|i: int| 0 <= i < b.len() implies hex_seq(b)[2 * i] == hex_char((#[trigger] b[i] / 16) as nat)
            && hex_seq(b)[2 * i + 1] == hex_char((b[i] % 16) as nat) by {
            if i < b.len() - 1 {
                assert(b.drop_last()[i] == b[i]);
            } else {
                assert(b.last() == b[i]);
                assert(hex_byte(b[i]) == seq![hex_char((b[i] / 16) as nat), hex_char((b[i] % 16) as nat)]);
            }
        }
    }
}

/// Decoding the hexadecimal notation of a 32-byte digest gives the digest back.
pub proof fn lemma_digest_hex_roundtrip(b: Seq<u8>)
    requires
        b.len() == 32,
    ensures
        is_digest_hex(hex_seq(b)),
        digest_of_hex(hex_seq(b)) == b,
{
    let s = hex_seq(b);
    lemma_hex_seq_shape(b);
    assert forall|i: int| 0 <= i < 64 implies hex_digit_char(#[trigger] s[i]) by {
        let j = i / 2;
        assert(0 <= j < 32);
        assert(b[j] / 16 < 16);
        lemma_hex_char_value((b[j] / 16) as nat);
        lemma_hex_char_value((b[j] % 16) as nat);
        if i % 2 == 0 {
            assert(i == 2 * j);
        } else {
            assert(i == 2 * j + 1);
        }
    }
    assert forall|i: int| 0 <= i < 32 implies #[trigger] digest_of_hex(s)[i] == b[i] by {
        lemma_hex_char_value((b[i] / 16) as nat);
        lemma_hex_char_value((b[i] % 16) as nat);
        assert(hex_value(s[2 * i]) == b[i] / 16);
        assert(hex_value(s[2 * i + 1]) == b[i] % 16);
        assert((b[i] / 16) * 16 + b[i] % 16 == b[i]);
    }
    assert(digest_of_hex(s) =~= b);
}

/// Repair clears a mismatch: when observing a file found a hash mismatch,
/// the repair operation applies to the node, leaves it expecting the digest
/// that was found, and observing the unchanged file again finds a match.
pub proof fn lemma_repair_clears_mismatch(g: GraphV, o: Observation, path: Seq<char>, expected: Option<Seq<char>>, facts: FileFacts)
    requires
        g.nodes.contains_key(o.target.0),
        (o.confidence, o.evidence@) == file_judgement(path, expected, facts),
        o.evidence is FileHashMismatch,
    ensures
        ({
            let actual = o.evidence->FileHashMismatch_actual@;
            &&& op_step(g, repair_op(o.target.0, actual)) is Ok
            &&& expected_of(op_step(g, repair_op(o.target.0, actual))->Ok_0.nodes[o.target.0]) == Some(hex_seq(actual))
            &&& file_judgement(path, Some(hex_seq(actual)), facts) == (ConfidenceScore::Verified, EvidenceV::FileHashMatch { path, hash: actual })
        }),
{
    let actual = o.evidence->FileHashMismatch_actual@;
    lemma_digest_hex_roundtrip(actual);
    let g2 = op_step(g, repair_op(o.target.0, actual))->Ok_0;
    assert(g2.nodes[o.target.0].config.contains_key("expected_hash"@));
    assert(g2.nodes[o.target.0].config["expected_hash"@] == ConfigValueV::Str(hex_seq(actual)));
}

} // verus!
