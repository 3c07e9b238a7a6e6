//! Intents: what a series of patches is meant to achieve, and which patch
//! last touched a parameter.
use vstd::prelude::*;
use std::collections::BTreeMap;
use crate::ids::{ulid_text, IntentId, PatchId, StableId, Timestamp};
use crate::ir::seq_model;
use crate::patch::{Operation, OperationV, Patch, PatchV};
use crate::text::{chars_of, owned, push_str};
use crate::walk::ordered_ids;
use crate::types::{IntentConstraint, IntentConstraintV, PatchSource, PatchSourceV};

verus! {

broadcast use {vstd::std_specs::btree::group_btree_axioms, vstd::laws_cmp::group_laws_cmp};

/// The state of an intent.
#[derive(Debug, Clone, Copy, PartialEq, Eq, Structural)]
pub enum IntentStatus {
    /// Proposed; nothing applied yet.
    Proposal,
    /// Some patches are attached.
    Attached,
    /// Done and fixed.
    Resolved,
    /// Dropped.
    Discarded,
}

/// What someone means to achieve.
#[derive(Debug)]
pub struct IntentNode {
    pub id: IntentId,
    pub description: String,
    pub constraints: Vec<IntentConstraint>,
    pub status: IntentStatus,
    pub attached_patches: Vec<PatchId>,
}

pub struct IntentNodeV {
    pub id: u128,
    pub description: Seq<char>,
    pub constraints: Seq<IntentConstraintV>,
    pub status: IntentStatus,
    pub attached: Seq<u128>,
}

impl View for IntentNode {
    type V = IntentNodeV;

    open spec fn view(&self) -> IntentNodeV {
        IntentNodeV {
            id: self.id.0,
            description: self.description@,
            constraints: seq_model(self.constraints@),
            status: self.status,
            attached: self.attached_patches@.map_values(|p: PatchId| p.0),
        }
    }
}

/// All intents, by identifier.
#[derive(Debug)]
pub struct IntentState {
    pub intents: BTreeMap<u128, IntentNode>,
}

impl View for IntentState {
    type V = Map<u128, IntentNodeV>;

    open spec fn view(&self) -> Map<u128, IntentNodeV> {
        self.intents@.map_values(|n: IntentNode| n@)
    }
}

/// An intent after a patch is attached: the patch joins the list unless it
/// is there already, and a proposal becomes attached.
pub open spec fn attached_to(n: IntentNodeV, patch: u128) -> IntentNodeV {
    IntentNodeV {
        attached: if n.attached.contains(patch) { n.attached } else { n.attached.push(patch) },
        status: if n.status == IntentStatus::Proposal { IntentStatus::Attached } else { n.status },
        ..n
    }
}

/// Attaching a patch that is attached already changes nothing.
pub proof fn lemma_attach_idempotent(n: IntentNodeV, patch: u128)
    ensures
        attached_to(attached_to(n, patch), patch) == attached_to(n, patch),
{
    let once = attached_to(n, patch);
    assert(once.attached.contains(patch)) by {
        if !n.attached.contains(patch) {
            assert(n.attached.push(patch)[n.attached.len() as int] == patch);
        }
    }
}

impl IntentState {
    /// No intents.
    pub fn new() -> (s: Self)
        ensures
            s@ == Map::<u128, IntentNodeV>::empty(),
    {
        let s = IntentState { intents: BTreeMap::new() };
        assert(s@ =~= Map::<u128, IntentNodeV>::empty());
        s
    }

    /// Records a new proposal and returns its fresh identifier.
    pub fn add(&mut self, description: String, constraints: Vec<IntentConstraint>) -> (id: IntentId)
        ensures
            final(self)@ == old(self)@.insert(id.0, IntentNodeV {
                id: id.0,
                description: description@,
                constraints: seq_model(constraints@),
                status: IntentStatus::Proposal,
                attached: Seq::empty(),
            }),
    {
        let id = IntentId::new();
        let node = IntentNode { id, description, constraints, status: IntentStatus::Proposal, attached_patches: Vec::new() };
        proof {
            assert(node@.attached =~= Seq::<u128>::empty());
        }
        self.intents.insert(id.0, node);
        proof {
            assert(self@ =~= old(self)@.insert(id.0, node@));
        }
        id
    }

    /// Attaches a patch to an intent.
    pub fn attach(&mut self, id: IntentId, patch_id: PatchId) -> (r: Result<(), String>)
        ensures
            old(self)@.contains_key(id.0) ==> r is Ok && final(self)@ == old(self)@.insert(id.0, attached_to(old(self)@[id.0], patch_id.0)),
            !old(self)@.contains_key(id.0) ==> r is Err && r->Err_0@ == "Intent "@ + ulid_text(id.0) + " not found"@
                && final(self)@ == old(self)@,
    {
        let mut node = match self.intents.remove(&id.0) {
            Some(n) => n,
            None => {
                proof {
                    assert(self@ =~= old(self)@);
                }
                let mut msg = owned("Intent ");
                let t = ulid_text_of(id);
                push_str(&mut msg, t.as_str());
                push_str(&mut msg, " not found");
                return Err(msg);
            },
        };
        let ghost before = node@;
        assert(before == old(self)@[id.0]);
        let mut present = false;
        let mut i: usize = 0;
        while i < node.attached_patches.len()
            invariant
                i <= node.attached_patches@.len(),
                present == exists|j: int| 0 <= j < i && node.attached_patches@[j].0 == patch_id.0,
            decreases node.attached_patches@.len() - i,
        {
            if node.attached_patches[i].0 == patch_id.0 {
                present = true;
            }
            i += 1;
        }
        proof {
            let a = node.attached_patches@.map_values(|p: PatchId| p.0);
            if present {
                let j = choose|j: int| 0 <= j < node.attached_patches@.len() && node.attached_patches@[j].0 == patch_id.0;
                assert(a[j] == patch_id.0);
            } else {
                assert forall|j: int| 0 <= j < a.len() implies a[j] != patch_id.0 by {
                    assert(a[j] == node.attached_patches@[j].0);
                }
            }
        }
        if !present {
            node.attached_patches.push(patch_id);
            proof {
                assert(node.attached_patches@.map_values(|p: PatchId| p.0) =~= before.attached.push(patch_id.0));
            }
        }
        if node.status == IntentStatus::Proposal {
            node.status = IntentStatus::Attached;
        }
        proof {
            assert(node@ == attached_to(before, patch_id.0));
        }
        self.intents.insert(id.0, node);
        proof {
            assert(self@ =~= old(self)@.insert(id.0, attached_to(old(self)@[id.0], patch_id.0)));
        }
        Ok(())
    }

    /// The first intent, in identifier order, whose identifier text starts
    /// with `prefix`.
    pub fn find_by_prefix(&self, prefix: &str) -> (r: Option<IntentId>)
        ensures
            match r {
                Some(id) => self@.contains_key(id.0) && ulid_text(id.0).take(prefix@.len() as int) == prefix@
                    && prefix@.len() <= ulid_text(id.0).len()
                    && forall|k: u128| #[trigger] self@.contains_key(k) && k < id.0 ==> !(prefix@.len() <= ulid_text(k).len() && ulid_text(k).take(prefix@.len() as int) == prefix@),
                None => forall|k: u128| #[trigger] self@.contains_key(k) ==> !(prefix@.len() <= ulid_text(k).len() && ulid_text(k).take(prefix@.len() as int) == prefix@),
            },
    {
        let ids = crate::walk::sorted_keys_of(&self.intents);
        proof {
            assert(self@.dom() =~= self.intents@.dom());
        }
        let mut i: usize = 0;
        while i < ids.len()
            invariant
                i <= ids@.len(),
                forall|k: u128| self.intents@.contains_key(k) <==> ids@.contains(k),
                forall|a: int, b: int| 0 <= a < b < ids@.len() ==> ids@[a] < ids@[b],
                forall|j: int| 0 <= j < i ==> !(prefix@.len() <= #[trigger] ulid_text(ids@[j]).len() && ulid_text(ids@[j]).take(prefix@.len() as int) == prefix@),
            decreases ids@.len() - i,
        {
            let t = ulid_text_of(IntentId(ids[i]));
            if starts_with(t.as_str(), prefix) {
                proof {
                    assert forall|k: u128| #[trigger] self@.contains_key(k) && k < ids@[i as int] implies !(prefix@.len() <= ulid_text(k).len() && ulid_text(k).take(prefix@.len() as int) == prefix@) by {
                        assert(ids@.contains(k));
                        let j = choose|j: int| 0 <= j < ids@.len() && ids@[j] == k;
                        if j >= i {
                            if j > i {
                                assert(ids@[i as int] < ids@[j]);
                            }
                        }
                    }
                    assert(ids@.contains(ids@[i as int]));
                }
                return Some(IntentId(ids[i]));
            }
            i += 1;
        }
        proof {
            assert forall|k: u128| #[trigger] self@.contains_key(k) implies !(prefix@.len() <= ulid_text(k).len() && ulid_text(k).take(prefix@.len() as int) == prefix@) by {
                assert(ids@.contains(k));
                let j = choose|j: int| 0 <= j < ids@.len() && ids@[j] == k;
            }
        }
        None
    }

    /// The first intent, in identifier order, with the given description.
    pub fn find_by_description(&self, description: &str) -> (r: Option<IntentId>)
        ensures
            match r {
                Some(id) => self@.contains_key(id.0) && self@[id.0].description == description@
                    && forall|k: u128| #[trigger] self@.contains_key(k) && k < id.0 ==> self@[k].description != description@,
                None => forall|k: u128| #[trigger] self@.contains_key(k) ==> self@[k].description != description@,
            },
    {
        let ids = crate::walk::sorted_keys_of(&self.intents);
        proof {
            assert(self@.dom() =~= self.intents@.dom());
        }
        let mut i: usize = 0;
        while i < ids.len()
            invariant
                i <= ids@.len(),
                forall|k: u128| self.intents@.contains_key(k) <==> ids@.contains(k),
                forall|a: int, b: int| 0 <= a < b < ids@.len() ==> ids@[a] < ids@[b],
                forall|j: int| 0 <= j < i ==> self.intents@[#[trigger] ids@[j]].description@ != description@,
            decreases ids@.len() - i,
        {
            let id = ids[i];
            proof {
                assert(ids@.contains(ids@[i as int]));
            }
            match self.intents.get(&id) {
                Some(n) => {
                    if crate::text::key_equal(n.description.as_str(), description) {
                        proof {
                            assert forall|k: u128| #[trigger] self@.contains_key(k) && k < id implies self@[k].description != description@ by {
                                assert(ids@.contains(k));
                                let j = choose|j: int| 0 <= j < ids@.len() && ids@[j] == k;
                                if j > i {
                                    assert(ids@[i as int] < ids@[j]);
                                }
                            }
                        }
                        return Some(IntentId(id));
                    }
                },
                None => {},
            }
            i += 1;
        }
        proof {
            assert forall|k: u128| #[trigger] self@.contains_key(k) implies self@[k].description != description@ by {
                assert(ids@.contains(k));
                let j = choose|j: int| 0 <= j < ids@.len() && ids@[j] == k;
            }
        }
        None
    }

    /// The intents still in play (neither resolved nor discarded), in
    /// identifier order.
    pub fn active(&self) -> (r: Vec<IntentId>)
        ensures
            r@.map_values(|i: IntentId| i.0) == active_ids(self@),
    {
        let ids = crate::walk::sorted_keys_of(&self.intents);
        proof {
            assert(self@.dom() =~= self.intents@.dom());
            assert(ordered_ids(self@) == ordered_ids(self.intents@));
            reveal(Seq::filter);
            assert(ids@.take(0) =~= Seq::<u128>::empty());
        }
        let mut out: Vec<IntentId> = Vec::new();
        let mut i: usize = 0;
        while i < ids.len()
            invariant
                i <= ids@.len(),
                ids@ == ordered_ids(self@),
                forall|k: u128| self.intents@.contains_key(k) <==> ids@.contains(k),
                out@.map_values(|x: IntentId| x.0) == ids@.take(i as int).filter(|k: u128| in_play(self@[k].status)),
            decreases ids@.len() - i,
        {
            let id = ids[i];
            proof {
                reveal(Seq::filter);
                assert(ids@.take(i + 1).drop_last() =~= ids@.take(i as int));
                assert(ids@.take(i + 1).last() == ids@[i as int]);
                assert(ids@.contains(ids@[i as int]));
            }
            match self.intents.get(&id) {
                Some(n) => {
                    let live = match n.status {
                        IntentStatus::Resolved => false,
                        IntentStatus::Discarded => false,
                        _ => true,
                    };
                    if live {
                        let ghost before = out@;
                        out.push(IntentId(id));
                        proof {
                            assert(out@.map_values(|x: IntentId| x.0) =~= before.map_values(|x: IntentId| x.0).push(id));
                        }
                    }
                },
                None => {},
            }
            i += 1;
        }
        proof {
            assert(ids@.take(ids@.len() as int) =~= ids@);
        }
        out
    }
}

/// Whether an intent in this state is still in play.
pub open spec fn in_play(s: IntentStatus) -> bool {
    s != IntentStatus::Resolved && s != IntentStatus::Discarded
}

/// The intents in play, in identifier order.
pub open spec fn active_ids(m: Map<u128, IntentNodeV>) -> Seq<u128> {
    ordered_ids(m).filter(|k: u128| in_play(m[k].status))
}

fn ulid_text_of(id: IntentId) -> (s: String)
    ensures
        s@ == ulid_text(id.0),
{
    crate::ids::ulid_string(id.0)
}

/// Whether `s` starts with `prefix`.
pub fn starts_with(s: &str, prefix: &str) -> (b: bool)
    ensures
        b == (prefix@.len() <= s@.len() && s@.take(prefix@.len() as int) == prefix@),
{
    let a = chars_of(s);
    let p = chars_of(prefix);
    if p.len() > a.len() {
        return false;
    }
    let mut i: usize = 0;
    while i < p.len()
        invariant
            a@ == s@,
            p@ == prefix@,
            p@.len() <= a@.len(),
            i <= p@.len(),
            forall|j: int| 0 <= j < i ==> a@[j] == p@[j],
        decreases p@.len() - i,
    {
        if a[i] != p[i] {
            proof {
                assert(s@.take(prefix@.len() as int)[i as int] != prefix@[i as int]);
            }
            return false;
        }
        i += 1;
    }
    proof {
        assert(s@.take(prefix@.len() as int) =~= prefix@);
    }
    true
}

// ── Attribution ──────────────────

/// Which patch last changed a parameter, and where it came from.
#[derive(Debug)]
pub struct Attribution {
    pub intent_id: Option<IntentId>,
    pub intent_description: Option<String>,
    pub patch_id: PatchId,
    pub source: String,
    pub timestamp: Timestamp,
    pub commit_hash: Option<String>,
}

/// The text that `{:?}` gives a string (quoted and escaped).
pub uninterp spec fn debug_quoted(s: Seq<char>) -> Seq<char>;

/// Formats a string with `{:?}`; the text is a function of the string.
#[verifier::external_body]
fn quoted(s: &str) -> (r: String)
    ensures
        r@ == debug_quoted(s@),
{
    format!("{:?}", s)
}

/// How a patch source prints with `{:?}`.
pub open spec fn source_text(s: PatchSourceV) -> Seq<char> {
    match s {
        PatchSourceV::UserDirect => "UserDirect"@,
        PatchSourceV::UserDsl => "UserDsl"@,
        PatchSourceV::Script(t) => "Script("@ + debug_quoted(t) + ")"@,
        PatchSourceV::AiGenerated(t) => "AiGenerated("@ + debug_quoted(t) + ")"@,
        PatchSourceV::Extension(t) => "Extension("@ + debug_quoted(t) + ")"@,
        PatchSourceV::System => "System"@,
    }
}

fn source_string(s: &PatchSource) -> (r: String)
    ensures
        r@ == source_text(s@),
{
    match s {
        PatchSource::UserDirect => owned("UserDirect"),
        PatchSource::UserDsl => owned("UserDsl"),
        PatchSource::Script(t) => {
            let mut r = owned("Script(");
            let q = quoted(t.as_str());
            push_str(&mut r, q.as_str());
            push_str(&mut r, ")");
            r
        },
        PatchSource::AiGenerated(t) => {
            let mut r = owned("AiGenerated(");
            let q = quoted(t.as_str());
            push_str(&mut r, q.as_str());
            push_str(&mut r, ")");
            r
        },
        PatchSource::Extension(t) => {
            let mut r = owned("Extension(");
            let q = quoted(t.as_str());
            push_str(&mut r, q.as_str());
            push_str(&mut r, ")");
            r
        },
        PatchSource::System => owned("System"),
    }
}

/// Whether an operation changes `param` of node `node`.
pub open spec fn touches_param(op: OperationV, node: u128, param: Seq<char>) -> bool {
    match op {
        OperationV::ModifyConfig { node_id, delta } => node_id == node && delta.contains_key(param),
        _ => false,
    }
}

/// Whether a patch changes `param` of node `node`.
pub open spec fn patch_touches(p: PatchV, node: u128, param: Seq<char>) -> bool {
    exists|j: int| 0 <= j < p.operations.len() && touches_param(#[trigger] p.operations[j], node, param)
}

/// Traces which patch last set a parameter.
pub struct Attributor;

impl Attributor {
    /// The latest patch that changed `param_name` of `node_id`, if any.
    pub fn trace_parameter(node_id: StableId, param_name: &str, patches: &[Patch]) -> (r: Option<Attribution>)
        ensures
            match r {
                Some(a) => exists|i: int| {
                    &&& 0 <= i < patches@.len()
                    &&& patch_touches(patches@[i]@, node_id.0, param_name@)
                    &&& (forall|j: int| i < j < patches@.len() ==> !patch_touches(#[trigger] patches@[j]@, node_id.0, param_name@))
                    &&& a.patch_id == patches@[i].identity
                    &&& a.intent_id == patches@[i].intent_ref
                    &&& a.intent_description is None
                    &&& a.source@ == source_text(patches@[i].source@)
                    &&& a.timestamp == patches@[i].timestamp
                    &&& a.commit_hash is None
                },
                None => forall|j: int| 0 <= j < patches@.len() ==> !patch_touches(#[trigger] patches@[j]@, node_id.0, param_name@),
            },
    {
        let mut i: usize = patches.len();
        while i > 0
            invariant
                i <= patches@.len(),
                forall|j: int| i <= j < patches@.len() ==> !patch_touches(#[trigger] patches@[j]@, node_id.0, param_name@),
            decreases i,
        {
            i -= 1;
            let patch = &patches[i];
            let mut k: usize = 0;
            while k < patch.operations.len()
                invariant
                    k <= patch.operations@.len(),
                    i < patches@.len(),
                    patch == patches@[i as int],
                    forall|j: int| i < j < patches@.len() ==> !patch_touches(#[trigger] patches@[j]@, node_id.0, param_name@),
                    forall|j: int| 0 <= j < k ==> !touches_param(#[trigger] patch@.operations[j], node_id.0, param_name@),
                decreases patch.operations@.len() - k,
            {
                proof {
                    assert(patch@.operations[k as int] == patch.operations@[k as int]@);
                }
                match &patch.operations[k] {
                    Operation::ModifyConfig { node_id: id, delta } => {
                        if id.0 == node_id.0 && delta.contains_key(param_name) {
                            let a = Attribution {
                                intent_id: patch.intent_ref,
                                intent_description: None,
                                patch_id: patch.identity,
                                source: source_string(&patch.source),
                                timestamp: patch.timestamp,
                                commit_hash: None,
                            };
                            proof {
                                assert(touches_param(patch@.operations[k as int], node_id.0, param_name@));
                                assert(patch_touches(patches@[i as int]@, node_id.0, param_name@));
                            }
                            return Some(a);
                        }
                    },
                    _ => {},
                }
                k += 1;
            }
            proof {
                assert(!patch_touches(patches@[i as int]@, node_id.0, param_name@));
            }
        }
        None
    }
}

} // verus!
