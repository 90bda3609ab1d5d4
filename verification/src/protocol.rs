//! The messages that host and clients exchange, and their mathematical views.
//!
//! Each message type has a view of the same shape in which strings are
//! sequences of characters, byte buffers are sequences of bytes and counters
//! are natural numbers. Contracts elsewhere in the library speak of the views.

use vstd::prelude::*;

verus! {

/// The protocol version that both sides must share.
pub const PROTOCOL_VERSION: u32 = 1;

/// The view of an optional string.
pub open spec fn opt_text(o: Option<String>) -> Option<Seq<char>> {
    match o {
        Some(s) => Some(s@),
        None => None,
    }
}

/// The view of an optional counter.
pub open spec fn opt_count(o: Option<u64>) -> Option<nat> {
    match o {
        Some(n) => Some(n as nat),
        None => None,
    }
}

/// Copies an optional string.
pub fn clone_opt_text(o: &Option<String>) -> (r: Option<String>)
    ensures
        r == *o,
{
    match o {
        Some(s) => Some(s.clone()),
        None => None,
    }
}

/// One file of a manifest: its path, revision and fingerprint.
#[derive(Debug)]
pub struct FileEntry {
    pub path: String,
    pub rev: u64,
    pub hash: String,
}

/// View of [`FileEntry`].
pub struct FileEntryView {
    pub path: Seq<char>,
    pub rev: nat,
    pub hash: Seq<char>,
}

impl View for FileEntry {
    type V = FileEntryView;

    open spec fn view(&self) -> FileEntryView {
        FileEntryView { path: self.path@, rev: self.rev as nat, hash: self.hash@ }
    }
}

impl Clone for FileEntry {
    fn clone(&self) -> (r: Self)
        ensures
            r == *self,
    {
        FileEntry { path: self.path.clone(), rev: self.rev, hash: self.hash.clone() }
    }
}

impl PartialEq for FileEntry {
    fn eq(&self, other: &Self) -> (r: bool) {
        self.path == other.path && self.rev == other.rev && self.hash == other.hash
    }
}

impl vstd::std_specs::cmp::PartialEqSpecImpl for FileEntry {
    open spec fn obeys_eq_spec() -> bool {
        true
    }

    open spec fn eq_spec(&self, other: &Self) -> bool {
        self.path@ == other.path@ && self.rev == other.rev && self.hash@ == other.hash@
    }
}

/// What a client sends to authenticate.
#[derive(Debug)]
pub struct AuthRequest {
    pub token: Option<String>,
    pub protocol_version: u32,
}

/// View of [`AuthRequest`].
pub struct AuthRequestView {
    pub token: Option<Seq<char>>,
    pub protocol_version: u32,
}

impl View for AuthRequest {
    type V = AuthRequestView;

    open spec fn view(&self) -> AuthRequestView {
        AuthRequestView { token: opt_text(self.token), protocol_version: self.protocol_version }
    }
}

impl Clone for AuthRequest {
    fn clone(&self) -> (r: Self)
        ensures
            r == *self,
    {
        AuthRequest { token: clone_opt_text(&self.token), protocol_version: self.protocol_version }
    }
}

/// The host's answer to an [`AuthRequest`].
#[derive(Debug)]
pub struct AuthResponse {
    pub session_id: u32,
    pub ok: bool,
    pub error: Option<String>,
}

/// View of [`AuthResponse`].
pub struct AuthResponseView {
    pub session_id: u32,
    pub ok: bool,
    pub error: Option<Seq<char>>,
}

impl View for AuthResponse {
    type V = AuthResponseView;

    open spec fn view(&self) -> AuthResponseView {
        AuthResponseView { session_id: self.session_id, ok: self.ok, error: opt_text(self.error) }
    }
}

impl Clone for AuthResponse {
    fn clone(&self) -> (r: Self)
        ensures
            r == *self,
    {
        AuthResponse {
            session_id: self.session_id,
            ok: self.ok,
            error: clone_opt_text(&self.error),
        }
    }
}

/// The files a host tracks, sorted by path, with the sequence number of the
/// newest change.
#[derive(Debug)]
pub struct Manifest {
    pub files: Vec<FileEntry>,
    pub head_rev: u64,
}

/// View of [`Manifest`].
pub struct ManifestView {
    pub files: Seq<FileEntryView>,
    pub head_rev: nat,
}

impl View for Manifest {
    type V = ManifestView;

    open spec fn view(&self) -> ManifestView {
        ManifestView {
            files: self.files@.map_values(|e: FileEntry| e@),
            head_rev: self.head_rev as nat,
        }
    }
}

/// Copies a list of manifest entries.
pub fn clone_entries(v: &Vec<FileEntry>) -> (r: Vec<FileEntry>)
    ensures
        r@ == v@,
{
    let mut out: Vec<FileEntry> = Vec::new();
    let mut i: usize = 0;
    while i < v.len()
        invariant
            i <= v.len(),
            out@ == v@.take(i as int),
        decreases v.len() - i,
    {
        out.push(v[i].clone());
        proof {
            assert(out@ =~= v@.take(i + 1));
        }
        i += 1;
    }
    proof {
        assert(v@.take(i as int) =~= v@);
    }
    out
}

impl Clone for Manifest {
    fn clone(&self) -> (r: Self)
        ensures
            r@ == self@,
            r.files@ == self.files@,
    {
        Manifest { files: clone_entries(&self.files), head_rev: self.head_rev }
    }
}

/// One file as the host serves it: content with revision and fingerprint.
#[derive(Debug)]
pub struct FileContent {
    pub path: String,
    pub content: Vec<u8>,
    pub rev: u64,
    pub hash: String,
}

/// View of [`FileContent`].
pub struct FileContentView {
    pub path: Seq<char>,
    pub content: Seq<u8>,
    pub rev: nat,
    pub hash: Seq<char>,
}

impl View for FileContent {
    type V = FileContentView;

    open spec fn view(&self) -> FileContentView {
        FileContentView {
            path: self.path@,
            content: self.content@,
            rev: self.rev as nat,
            hash: self.hash@,
        }
    }
}

impl Clone for FileContent {
    fn clone(&self) -> (r: Self)
        ensures
            r@ == self@,
    {
        FileContent {
            path: self.path.clone(),
            content: self.content.clone(),
            rev: self.rev,
            hash: self.hash.clone(),
        }
    }
}

/// A change that a client proposes, based on the revision it last saw.
#[derive(Debug)]
pub struct ChangeProposal {
    pub session_id: u32,
    pub path: String,
    pub base_rev: u64,
    pub content: Vec<u8>,
}

/// View of [`ChangeProposal`].
pub struct ChangeProposalView {
    pub session_id: u32,
    pub path: Seq<char>,
    pub base_rev: nat,
    pub content: Seq<u8>,
}

impl View for ChangeProposal {
    type V = ChangeProposalView;

    open spec fn view(&self) -> ChangeProposalView {
        ChangeProposalView {
            session_id: self.session_id,
            path: self.path@,
            base_rev: self.base_rev as nat,
            content: self.content@,
        }
    }
}

impl Clone for ChangeProposal {
    fn clone(&self) -> (r: Self)
        ensures
            r@ == self@,
    {
        ChangeProposal {
            session_id: self.session_id,
            path: self.path.clone(),
            base_rev: self.base_rev,
            content: self.content.clone(),
        }
    }
}

/// The host's verdict on a [`ChangeProposal`].
#[derive(Debug)]
pub struct ChangeResult {
    pub path: String,
    pub accepted: bool,
    pub new_rev: Option<u64>,
    pub conflict_rev: Option<u64>,
    pub conflict_hash: Option<String>,
    pub error: Option<String>,
}

/// View of [`ChangeResult`].
pub struct ChangeResultView {
    pub path: Seq<char>,
    pub accepted: bool,
    pub new_rev: Option<nat>,
    pub conflict_rev: Option<nat>,
    pub conflict_hash: Option<Seq<char>>,
    pub error: Option<Seq<char>>,
}

impl View for ChangeResult {
    type V = ChangeResultView;

    open spec fn view(&self) -> ChangeResultView {
        ChangeResultView {
            path: self.path@,
            accepted: self.accepted,
            new_rev: opt_count(self.new_rev),
            conflict_rev: opt_count(self.conflict_rev),
            conflict_hash: opt_text(self.conflict_hash),
            error: opt_text(self.error),
        }
    }
}

impl Clone for ChangeResult {
    fn clone(&self) -> (r: Self)
        ensures
            r == *self,
    {
        ChangeResult {
            path: self.path.clone(),
            accepted: self.accepted,
            new_rev: self.new_rev,
            conflict_rev: self.conflict_rev,
            conflict_hash: clone_opt_text(&self.conflict_hash),
            error: clone_opt_text(&self.error),
        }
    }
}

/// The query of a poll: the last sequence number the client has seen.
#[derive(Debug, Clone, Copy)]
pub struct ChangesSinceQuery {
    pub since_rev: u64,
}

/// One committed change as clients receive it.
#[derive(Debug)]
pub struct BroadcastEntry {
    pub path: String,
    pub content: Vec<u8>,
    pub rev: u64,
    pub hash: String,
    /// The session that proposed the change; `None` for the host's own disk.
    pub from_session: Option<u32>,
}

/// View of [`BroadcastEntry`].
pub struct BroadcastEntryView {
    pub path: Seq<char>,
    pub content: Seq<u8>,
    pub rev: nat,
    pub hash: Seq<char>,
    pub from_session: Option<u32>,
}

impl View for BroadcastEntry {
    type V = BroadcastEntryView;

    open spec fn view(&self) -> BroadcastEntryView {
        BroadcastEntryView {
            path: self.path@,
            content: self.content@,
            rev: self.rev as nat,
            hash: self.hash@,
            from_session: self.from_session,
        }
    }
}

impl Clone for BroadcastEntry {
    fn clone(&self) -> (r: Self)
        ensures
            r@ == self@,
    {
        BroadcastEntry {
            path: self.path.clone(),
            content: self.content.clone(),
            rev: self.rev,
            hash: self.hash.clone(),
            from_session: self.from_session,
        }
    }
}

/// The views of a list of broadcast entries, in order.
pub open spec fn entries_view(s: Seq<BroadcastEntry>) -> Seq<BroadcastEntryView> {
    s.map_values(|e: BroadcastEntry| e@)
}

/// The answer to a poll: the changes after the queried sequence number, in
/// commit order, and the newest sequence number.
#[derive(Debug)]
pub struct ChangesBatch {
    pub entries: Vec<BroadcastEntry>,
    pub head_rev: u64,
}

/// View of [`ChangesBatch`].
pub struct ChangesBatchView {
    pub entries: Seq<BroadcastEntryView>,
    pub head_rev: nat,
}

impl View for ChangesBatch {
    type V = ChangesBatchView;

    open spec fn view(&self) -> ChangesBatchView {
        ChangesBatchView { entries: entries_view(self.entries@), head_rev: self.head_rev as nat }
    }
}

/// Copies a list of broadcast entries.
pub fn clone_broadcasts(v: &Vec<BroadcastEntry>) -> (r: Vec<BroadcastEntry>)
    ensures
        entries_view(r@) == entries_view(v@),
{
    let mut out: Vec<BroadcastEntry> = Vec::new();
    let mut i: usize = 0;
    while i < v.len()
        invariant
            i <= v.len(),
            out@.len() == i,
            forall|j: int| 0 <= j < i ==> (#[trigger] out@[j])@ == v@[j]@,
        decreases v.len() - i,
    {
        out.push(v[i].clone());
        i += 1;
    }
    proof {
        assert(entries_view(out@) =~= entries_view(v@));
    }
    out
}

impl Clone for ChangesBatch {
    fn clone(&self) -> (r: Self)
        ensures
            r@ == self@,
    {
        ChangesBatch { entries: clone_broadcasts(&self.entries), head_rev: self.head_rev }
    }
}

} // verus!
