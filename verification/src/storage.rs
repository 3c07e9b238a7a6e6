//! The project store: where its files are, and what they say. Reading and
//! writing the files is the caller's part; this module decides paths and
//! parses and produces their contents.
//!
//! ```text
//! .dirtydata/
//! ├── HEAD                 # ref: refs/heads/main
//! ├── refs/heads/main      # latest patch of branch main
//! ├── ir/current.json      # current graph
//! └── patches/             # one file per patch, and index.json
//! ```
use vstd::prelude::*;
use crate::ids::{lemma_ulid_round_trip, lemma_ulid_text_len, ulid_decode, ulid_text, PatchId, Timestamp};
use crate::text::contains_seq;
use crate::patch::{Patch, PatchV};
use crate::text::{owned, push_str};

verus! {

/// The name of the data directory inside a project.
pub const DIRTYDATA_DIR: &'static str = ".dirtydata";

/// Errors of the store.
#[derive(Debug, PartialEq)]
pub enum StorageError {
    /// A file could not be read or written (the system's message).
    Io(String),
    /// A file did not hold what it should (the parser's message).
    Serialize(String),
    /// There is no data directory.
    NotInitialized,
    /// A patch file is missing.
    PatchNotFound(PatchId),
}

/// How a store error reads.
pub open spec fn storage_error_text(e: StorageError) -> Seq<char> {
    match e {
        StorageError::Io(m) => "I/O error: "@ + m@,
        StorageError::Serialize(m) => "serialization error: "@ + m@,
        StorageError::NotInitialized => "project not initialized \u{2014} run `dirtydata init`"@,
        StorageError::PatchNotFound(id) => "patch "@ + ulid_text(id.0) + " not found"@,
    }
}

impl StorageError {
    /// The error as text.
    pub fn to_text(&self) -> (s: String)
        ensures
            s@ == storage_error_text(*self),
    {
        match self {
            StorageError::Io(m) => {
                let mut s = owned("I/O error: ");
                push_str(&mut s, m.as_str());
                s
            },
            StorageError::Serialize(m) => {
                let mut s = owned("serialization error: ");
                push_str(&mut s, m.as_str());
                s
            },
            StorageError::NotInitialized => owned("project not initialized \u{2014} run `dirtydata init`"),
            StorageError::PatchNotFound(id) => {
                let mut s = owned("patch ");
                let t = id.to_text();
                push_str(&mut s, t.as_str());
                push_str(&mut s, " not found");
                s
            },
        }
    }
}

/// A path joined with one more component, as `Path::join` forms it on Unix:
/// an absolute component replaces the path; otherwise a separator goes
/// between them unless the path is empty or already ends with one.
pub open spec fn joined(base: Seq<char>, part: Seq<char>) -> Seq<char> {
    if part.len() > 0 && part[0] == '/' {
        part
    } else if base.len() == 0 {
        part
    } else if base.last() == '/' {
        base + part
    } else {
        base + seq!['/'] + part
    }
}

/// Joins a component to a path.
pub fn join_path(base: &str, part: &str) -> (r: String)
    ensures
        r@ == joined(base@, part@),
{
    let ps = crate::text::chars_of(part);
    if ps.len() > 0 && ps[0] == '/' {
        return owned(part);
    }
    let cs = crate::text::chars_of(base);
    let mut r = owned(base);
    if cs.len() > 0 && cs[cs.len() - 1] != '/' {
        crate::text::push_char(&mut r, '/');
    }
    push_str(&mut r, part);
    r
}

/// The store of a project.
#[derive(Debug)]
pub struct Storage {
    root: String,
}

impl Storage {
    /// The store's directory, as a path text.
    pub closed spec fn root_path(&self) -> Seq<char> {
        self.root@
    }

    /// Opens the store of the project at `project_root`; `data_dir_exists`
    /// tells whether its data directory is on disk.
    pub fn open(project_root: &str, data_dir_exists: bool) -> (r: Result<Storage, StorageError>)
        ensures
            data_dir_exists ==> r is Ok && r->Ok_0.root_path() == joined(project_root@, DIRTYDATA_DIR@),
            !data_dir_exists ==> r == Err::<Storage, StorageError>(StorageError::NotInitialized),
    {
        let root = join_path(project_root, DIRTYDATA_DIR);
        if !data_dir_exists {
            return Err(StorageError::NotInitialized);
        }
        Ok(Storage { root })
    }

    /// The store's directory.
    pub fn root(&self) -> (r: &str)
        ensures
            r@ == self.root_path(),
    {
        self.root.as_str()
    }

    /// The path of a file inside the store.
    pub fn path_of(&self, relative: &str) -> (r: String)
        ensures
            r@ == joined(self.root_path(), relative@),
    {
        join_path(self.root.as_str(), relative)
    }
}

// ── HEAD and branches ──────────────────

/// The prefix of a HEAD that names a branch.
pub const HEAD_PREFIX: &'static str = "ref: refs/heads/";

/// Whether a character has the Unicode White_Space property, as
/// `char::is_whitespace` tests it.
pub open spec fn white_space(c: char) -> bool {
    ('\u{9}' <= c && c <= '\u{d}') || c == ' ' || c == '\u{85}' || c == '\u{a0}' || c == '\u{1680}' || ('\u{2000}' <= c
        && c <= '\u{200a}') || c == '\u{2028}' || c == '\u{2029}' || c == '\u{202f}' || c == '\u{205f}' || c == '\u{3000}'
}

/// A text without its leading whitespace.
pub open spec fn trim_start(s: Seq<char>) -> Seq<char>
    decreases s.len(),
{
    if s.len() > 0 && white_space(s[0]) {
        trim_start(s.drop_first())
    } else {
        s
    }
}

/// A text without its trailing whitespace.
pub open spec fn trim_end(s: Seq<char>) -> Seq<char>
    decreases s.len(),
{
    if s.len() > 0 && white_space(s.last()) {
        trim_end(s.drop_last())
    } else {
        s
    }
}

/// The text that `str::trim` leaves: without leading and trailing whitespace.
pub open spec fn trimmed(s: Seq<char>) -> Seq<char> {
    trim_end(trim_start(s))
}

/// The text that `str::replace(pattern, "")` leaves: the matches of a
/// non-empty pattern, found left to right without overlap, taken out.
pub open spec fn without_all(s: Seq<char>, pattern: Seq<char>) -> Seq<char>
    decreases s.len(),
{
    if pattern.len() == 0 || s.len() < pattern.len() {
        s
    } else if s.take(pattern.len() as int) == pattern {
        without_all(s.skip(pattern.len() as int), pattern)
    } else {
        seq![s[0]] + without_all(s.drop_first(), pattern)
    }
}

/// Whether a character is white space (see `white_space`).
fn is_white_space(c: char) -> (r: bool)
    ensures
        r == white_space(c),
{
    ('\u{9}' <= c && c <= '\u{d}') || c == ' ' || c == '\u{85}' || c == '\u{a0}' || c == '\u{1680}' || ('\u{2000}' <= c
        && c <= '\u{200a}') || c == '\u{2028}' || c == '\u{2029}' || c == '\u{202f}' || c == '\u{205f}' || c == '\u{3000}'
}

proof fn lemma_trim_start(s: Seq<char>, i: int)
    requires
        0 <= i <= s.len(),
        forall|j: int| 0 <= j < i ==> white_space(#[trigger] s[j]),
        i == s.len() || !white_space(s[i]),
    ensures
        trim_start(s) == s.skip(i),
    decreases i,
{
    if i > 0 {
        let t = s.drop_first();
        assert forall|j: int| 0 <= j < i - 1 implies white_space(#[trigger] t[j]) by {
            assert(t[j] == s[j + 1]);
        }
        if i < s.len() {
            assert(t[i - 1] == s[i]);
        }
        lemma_trim_start(t, i - 1);
        assert(t.skip(i - 1) =~= s.skip(i));
        assert(white_space(s[0]));
    } else {
        assert(s.skip(0) =~= s);
    }
}

proof fn lemma_trim_end(s: Seq<char>, k: int)
    requires
        0 <= k <= s.len(),
        forall|j: int| k <= j < s.len() ==> white_space(#[trigger] s[j]),
        k == 0 || !white_space(s[k - 1]),
    ensures
        trim_end(s) == s.take(k),
    decreases s.len() - k,
{
    if k < s.len() {
        let t = s.drop_last();
        assert forall|j: int| k <= j < t.len() implies white_space(#[trigger] t[j]) by {
            assert(t[j] == s[j]);
        }
        if k > 0 {
            assert(t[k - 1] == s[k - 1]);
        }
        assert(white_space(s[s.len() - 1]));
        lemma_trim_end(t, k);
        assert(t.take(k) =~= s.take(k));
    } else {
        assert(s.take(k) =~= s);
    }
}

/// The text without leading and trailing white space, as `str::trim` gives it.
fn trim_text(s: &str) -> (r: String)
    ensures
        r@ == trimmed(s@),
{
    let cs = crate::text::chars_of(s);
    let n = cs.len();
    let mut i: usize = 0;
    while i < n && is_white_space(cs[i])
        invariant
            n == cs@.len(),
            cs@ == s@,
            i <= n,
            forall|j: int| 0 <= j < i ==> white_space(#[trigger] cs@[j]),
        decreases n - i,
    {
        i += 1;
    }
    let mut k: usize = n;
    while k > i && is_white_space(cs[k - 1])
        invariant
            n == cs@.len(),
            i <= k <= n,
            forall|j: int| k <= j < n ==> white_space(#[trigger] cs@[j]),
        decreases k,
    {
        k -= 1;
    }
    let ghost rest = cs@.skip(i as int);
    proof {
        lemma_trim_start(cs@, i as int);
        assert forall|j: int| k - i <= j < rest.len() implies white_space(#[trigger] rest[j]) by {
            assert(rest[j] == cs@[j + i]);
        }
        if k > i {
            assert(rest[k - i - 1] == cs@[k - 1]);
        }
        lemma_trim_end(rest, k - i);
    }
    let mut r = owned("");
    proof {
        reveal_strlit("");
    }
    let mut q: usize = i;
    while q < k
        invariant
            n == cs@.len(),
            i <= q <= k <= n,
            r@ == cs@.subrange(i as int, q as int),
        decreases k - q,
    {
        crate::text::push_char(&mut r, cs[q]);
        proof {
            assert(cs@.subrange(i as int, q + 1) =~= cs@.subrange(i as int, q as int).push(cs@[q as int]));
        }
        q += 1;
    }
    proof {
        assert(rest.take(k - i) =~= cs@.subrange(i as int, k as int));
    }
    r
}

/// Whether `cs` holds `ps` at position `i`.
fn matches_at(cs: &Vec<char>, ps: &Vec<char>, i: usize) -> (r: bool)
    requires
        i + ps@.len() <= cs@.len(),
    ensures
        r == (cs@.skip(i as int).take(ps@.len() as int) == ps@),
{
    let cl = cs.len();
    let mut q: usize = 0;
    while q < ps.len()
        invariant
            cl == cs@.len(),
            i + ps@.len() <= cs@.len(),
            q <= ps@.len(),
            forall|j: int| 0 <= j < q ==> cs@[i + j] == ps@[j],
        decreases ps@.len() - q,
    {
        if cs[i + q] != ps[q] {
            proof {
                assert(cs@.skip(i as int).take(ps@.len() as int)[q as int] == cs@[i + q]);
            }
            return false;
        }
        q += 1;
    }
    proof {
        assert forall|j: int| 0 <= j < ps@.len() implies cs@.skip(i as int).take(ps@.len() as int)[j] == ps@[j] by {
            assert(cs@[i + j] == ps@[j]);
        }
        assert(cs@.skip(i as int).take(ps@.len() as int) =~= ps@);
    }
    true
}

/// The text with every match of a non-empty pattern taken out, left to
/// right without overlap, as `str::replace(pattern, "")` gives it.
fn remove_all(s: &str, pattern: &str) -> (r: String)
    requires
        pattern@.len() > 0,
    ensures
        r@ == without_all(s@, pattern@),
{
    let cs = crate::text::chars_of(s);
    let ps = crate::text::chars_of(pattern);
    let n = cs.len();
    let m = ps.len();
    let mut r = owned("");
    proof {
        reveal_strlit("");
        assert(cs@.skip(0) =~= cs@);
    }
    let mut i: usize = 0;
    while i < n
        invariant
            n == cs@.len(),
            m == ps@.len(),
            m > 0,
            cs@ == s@,
            ps@ == pattern@,
            i <= n,
            r@ + without_all(cs@.skip(i as int), ps@) == without_all(cs@, ps@),
        decreases n - i,
    {
        let ghost t = cs@.skip(i as int);
        if m <= n - i && matches_at(&cs, &ps, i) {
            proof {
                assert(t.skip(m as int) =~= cs@.skip(i + m));
            }
            i += m;
        } else {
            let ghost before = r@;
            crate::text::push_char(&mut r, cs[i]);
            proof {
                assert(t[0] == cs@[i as int]);
                assert(t.drop_first() =~= cs@.skip(i + 1));
                if t.len() >= m {
                    assert(t.take(m as int) != ps@);
                }
                assert(without_all(t, ps@) == seq![t[0]] + without_all(t.drop_first(), ps@));
                assert(r@ + without_all(cs@.skip(i + 1), ps@) =~= before + without_all(t, ps@));
            }
            i += 1;
        }
    }
    proof {
        assert(cs@.skip(n as int).len() == 0);
        assert(r@ + without_all(cs@.skip(n as int), ps@) =~= r@);
    }
    r
}

/// The HEAD file's content for a branch.
pub fn head_content(branch: &str) -> (s: String)
    ensures
        s@ == HEAD_PREFIX@ + branch@,
{
    let mut s = owned(HEAD_PREFIX);
    push_str(&mut s, branch);
    s
}

/// The branch that a HEAD file names: the trimmed content without the
/// branch prefix when it starts with it, else the trimmed content.
pub open spec fn head_branch(content: Seq<char>) -> Seq<char> {
    let t = trimmed(content);
    if HEAD_PREFIX@.len() <= t.len() && t.take(HEAD_PREFIX@.len() as int) == HEAD_PREFIX@ {
        without_all(t, HEAD_PREFIX@)
    } else {
        t
    }
}

/// Reads the branch out of a HEAD file's content.
pub fn parse_head(content: &str) -> (s: String)
    ensures
        s@ == head_branch(content@),
{
    let t = trim_text(content);
    if crate::intent::starts_with(t.as_str(), HEAD_PREFIX) {
        proof {
            reveal_strlit("ref: refs/heads/");
        }
        remove_all(t.as_str(), HEAD_PREFIX)
    } else {
        t
    }
}

/// The patch that a branch file names: none when it is blank or not a
/// patch identifier.
pub open spec fn branch_tip(content: Seq<char>) -> Option<u128> {
    let t = trimmed(content);
    if t.len() == 0 {
        None
    } else {
        ulid_decode(t)
    }
}

/// Reads the patch out of a branch file's content.
pub fn parse_branch(content: &str) -> (r: Option<PatchId>)
    ensures
        match branch_tip(content@) {
            Some(v) => r == Some(PatchId(v)),
            None => r is None,
        },
{
    let t = trim_text(content);
    let cs = crate::text::chars_of(t.as_str());
    if cs.len() == 0 {
        return None;
    }
    PatchId::parse(t.as_str())
}

/// The patch before this one in a linear history: its first parent.
pub fn previous_patch(patch: &Patch) -> (r: Option<PatchId>)
    ensures
        patch@.parents.len() == 0 ==> r is None,
        patch@.parents.len() > 0 ==> r is Some && r->Some_0.0 == patch@.parents[0],
{
    if patch.parents.len() == 0 {
        None
    } else {
        Some(patch.parents[0])
    }
}

// ── The patch index ──────────────────

/// What the index records of a patch.
#[derive(Debug, PartialEq)]
pub struct PatchIndexEntry {
    pub id: PatchId,
    pub parents: Vec<PatchId>,
    pub timestamp: Timestamp,
    pub hash: [u8; 32],
}

/// The index of stored patches, in the order they were stored.
#[derive(Debug, PartialEq)]
pub struct PatchIndex {
    pub patches: Vec<PatchIndexEntry>,
}

impl PatchIndex {
    /// An empty index.
    pub fn new() -> (r: Self)
        ensures
            r.patches@.len() == 0,
    {
        PatchIndex { patches: Vec::new() }
    }

    /// Whether the index records a patch.
    pub fn has(&self, id: PatchId) -> (b: bool)
        ensures
            b == exists|i: int| 0 <= i < self.patches@.len() && #[trigger] self.patches@[i].id == id,
    {
        let mut i: usize = 0;
        while i < self.patches.len()
            invariant
                i <= self.patches@.len(),
                forall|j: int| 0 <= j < i ==> #[trigger] self.patches@[j].id != id,
            decreases self.patches@.len() - i,
        {
            if self.patches[i].id.0 == id.0 {
                return true;
            }
            i += 1;
        }
        false
    }

    /// Records a patch unless it is recorded already; says whether it added it.
    pub fn record(&mut self, patch: &Patch) -> (added: bool)
        ensures
            added == !exists|i: int| 0 <= i < old(self).patches@.len() && #[trigger] old(self).patches@[i].id == patch.identity,
            !added ==> final(self).patches@ == old(self).patches@,
            added ==> final(self).patches@.len() == old(self).patches@.len() + 1
                && final(self).patches@.take(old(self).patches@.len() as int) == old(self).patches@
                && final(self).patches@.last().id == patch.identity
                && final(self).patches@.last().parents@.map_values(|p: PatchId| p.0) == patch@.parents
                && final(self).patches@.last().timestamp == patch.timestamp
                && final(self).patches@.last().hash@ == patch@.hash,
    {
        if self.has(patch.identity) {
            return false;
        }
        let mut parents: Vec<PatchId> = Vec::new();
        let mut i: usize = 0;
        while i < patch.parents.len()
            invariant
                i <= patch.parents@.len(),
                parents@ == patch.parents@.take(i as int),
            decreases patch.parents@.len() - i,
        {
            parents.push(patch.parents[i]);
            proof {
                assert(parents@ =~= patch.parents@.take(i + 1));
            }
            i += 1;
        }
        proof {
            assert(patch.parents@.take(patch.parents@.len() as int) =~= patch.parents@);
        }
        let ghost before = self.patches@;
        self.patches.push(PatchIndexEntry { id: patch.identity, parents, timestamp: patch.timestamp, hash: patch.deterministic_hash });
        proof {
            assert(self.patches@.take(before.len() as int) =~= before);
        }
        true
    }
}

// ── Reading back what was written ──────────────────

proof fn lemma_without_absent(s: Seq<char>, p: Seq<char>)
    requires
        p.len() > 0,
        !contains_seq(s, p),
    ensures
        without_all(s, p) == s,
    decreases s.len(),
{
    if s.len() >= p.len() {
        if s.take(p.len() as int) == p {
            assert(s.subrange(0, 0 + p.len() as int) =~= p);
            assert(contains_seq(s, p));
        }
        let t = s.drop_first();
        assert(!contains_seq(t, p)) by {
            if contains_seq(t, p) {
                let i = choose|i: int| 0 <= i <= t.len() - p.len() && #[trigger] t.subrange(i, i + p.len()) == p;
                assert(s.subrange(i + 1, i + 1 + p.len()) =~= t.subrange(i, i + p.len()));
            }
        }
        lemma_without_absent(t, p);
        assert(seq![s[0]] + t =~= s);
    }
}

/// The branch that HEAD names reads back as written: for a branch name
/// that does not end in whitespace and does not hold the HEAD prefix.
pub proof fn lemma_head_round_trip(branch: Seq<char>)
    requires
        branch.len() == 0 || !white_space(branch.last()),
        !contains_seq(branch, HEAD_PREFIX@),
    ensures
        head_branch(HEAD_PREFIX@ + branch) == branch,
{
    reveal_strlit("ref: refs/heads/");
    let p = HEAD_PREFIX@;
    let c = p + branch;
    assert(c[0] == 'r');
    assert(trim_start(c) == c);
    assert(c.last() == if branch.len() == 0 { '/' } else { branch.last() });
    assert(trim_end(c) == c);
    assert(c.take(p.len() as int) =~= p);
    assert(c.skip(p.len() as int) =~= branch);
    lemma_without_absent(branch, p);
}

/// What a branch file holds for a patch: its identifier's text.
pub fn branch_content(id: PatchId) -> (s: String)
    ensures
        s@ == ulid_text(id.0),
        branch_tip(s@) == Some(id.0),
{
    proof {
        lemma_branch_round_trip(id.0);
    }
    id.to_text()
}

/// A branch file written with a patch's identifier reads back as that patch.
pub proof fn lemma_branch_round_trip(id: u128)
    ensures
        branch_tip(ulid_text(id)) == Some(id),
{
    let t = ulid_text(id);
    lemma_ulid_text_len(id);
    lemma_ulid_round_trip(id);
    assert(!white_space(t[0]) && !white_space(t.last())) by {
        reveal(ulid_text);
    }
    assert(trim_start(t) == t);
    assert(trim_end(t) == t);
}

} // verus!
