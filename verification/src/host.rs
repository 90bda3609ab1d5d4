//! What the host decides for each request and for each file its watcher
//! finds changed.
//!
//! Every function here is one step under the host's lock: it reads or changes
//! the authoritative state and says what to answer. Network and disk are the
//! caller's part; in particular the caller writes an accepted proposal to
//! disk after the step, outside the lock, and reports a failure with
//! [`write_failed_reply`] without undoing the step.

use vstd::prelude::*;
use vstd::string::*;
use crate::fingerprint::{fingerprint, hash_content};
use crate::manifest::{
    entry_views, lemma_sorted_distinct_is_strict, lemma_sorted_listing_is_unique,
    lemma_with_path_members, lemma_with_path_two, names, sort_entries, strictly_sorted_by_path,
    with_path,
};
use crate::protocol::{
    opt_text, AuthRequest, AuthRequestView, AuthResponse, AuthResponseView,
    ChangeProposal, ChangeProposalView, ChangeResult, ChangeResultView, ChangesBatch,
    ChangesSinceQuery, FileContent, FileContentView, FileEntry, FileEntryView, Manifest,
    PROTOCOL_VERSION,
};
use crate::state::{applied, changes_after, next_rev, CollabState, CollabStateView};
use crate::text::{decimal, render_decimal};

verus! {

/// Status of a request that was served.
pub const STATUS_OK: u16 = 200;

/// Status of an authentication with another protocol version.
pub const STATUS_BAD_REQUEST: u16 = 400;

/// Status of a request with a wrong token or an unknown session.
pub const STATUS_UNAUTHORIZED: u16 = 401;

/// Status of a request for a file that is not tracked.
pub const STATUS_NOT_FOUND: u16 = 404;

/// Status of a proposal that is not based on the file's current revision.
pub const STATUS_CONFLICT: u16 = 409;

/// Status of an accepted proposal that could not be written to disk.
pub const STATUS_INTERNAL_ERROR: u16 = 500;

/// Whether a client's token opens a host: a host without a token is open to
/// all, a host with a token to those who present exactly that token.
pub open spec fn token_accepted(token: Option<Seq<char>>, expected: Option<Seq<char>>) -> bool {
    match expected {
        None => true,
        Some(e) => token == Some(e),
    }
}

/// Decides whether `token` opens a host that expects `expected`.
pub fn check_auth(token: &Option<String>, expected: &Option<String>) -> (r: bool)
    ensures
        r == token_accepted(opt_text(*token), opt_text(*expected)),
{
    match (token, expected) {
        (_, None) => true,
        (Some(t), Some(e)) => *t == *e,
        (None, Some(_)) => false,
    }
}

/// What a host tells a client that speaks another protocol version.
pub open spec fn version_mismatch_message(client_version: u32) -> Seq<char> {
    "protocol version mismatch: server="@ + decimal(PROTOCOL_VERSION as nat) + ", client="@
        + decimal(client_version as nat)
}

/// What a host tells a client whose proposal is based on a stale revision.
pub open spec fn conflict_message(base_rev: nat, current_rev: nat) -> Seq<char> {
    "conflict: base_rev="@ + decimal(base_rev) + " but current_rev="@ + decimal(current_rev)
}

/// What a host answers to a request for an untracked file.
pub open spec fn file_not_found_message(path: Seq<char>) -> Seq<char> {
    "file not found: "@ + path
}

/// The refusal of an authentication, with the reason.
pub open spec fn auth_refused(reason: Seq<char>) -> AuthResponseView {
    AuthResponseView { session_id: 0, ok: false, error: Some(reason) }
}

/// The state that [`authenticate`] leaves: one more session where the request
/// is accepted, the same state where it is not.
pub open spec fn after_auth(
    s: CollabStateView,
    expected: Option<Seq<char>>,
    request: AuthRequestView,
) -> CollabStateView {
    if request.protocol_version == PROTOCOL_VERSION && token_accepted(request.token, expected) {
        CollabStateView {
            sessions: s.sessions.push(s.next_session_id as u32),
            next_session_id: s.next_session_id + 1,
            ..s
        }
    } else {
        s
    }
}

/// The status and the answer of [`authenticate`]. The version is judged
/// first, then the token.
pub open spec fn auth_reply(
    s: CollabStateView,
    expected: Option<Seq<char>>,
    request: AuthRequestView,
) -> (u16, AuthResponseView) {
    if request.protocol_version != PROTOCOL_VERSION {
        (STATUS_BAD_REQUEST, auth_refused(version_mismatch_message(request.protocol_version)))
    } else if !token_accepted(request.token, expected) {
        (STATUS_UNAUTHORIZED, auth_refused("invalid token"@))
    } else {
        (
            STATUS_OK,
            AuthResponseView { session_id: s.next_session_id as u32, ok: true, error: None },
        )
    }
}

/// Serves an authentication request: refuses another protocol version,
/// refuses a token that does not open this host, and otherwise registers a
/// fresh session.
pub fn authenticate(
    state: &mut CollabState,
    expected: &Option<String>,
    request: &AuthRequest,
) -> (r: (u16, AuthResponse))
    requires
        old(state).wf(),
        old(state)@.next_session_id < u32::MAX,
    ensures
        (r.0, r.1@) == auth_reply(old(state)@, opt_text(*expected), request@),
        final(state)@ == after_auth(old(state)@, opt_text(*expected), request@),
        final(state).wf(),
{
    if request.protocol_version != PROTOCOL_VERSION {
        let mut message = String::from_str("protocol version mismatch: server=");
        message.append(render_decimal(PROTOCOL_VERSION as u64).as_str());
        message.append(", client=");
        message.append(render_decimal(request.protocol_version as u64).as_str());
        return (
            STATUS_BAD_REQUEST,
            AuthResponse { session_id: 0, ok: false, error: Some(message) },
        );
    }
    if !check_auth(&request.token, expected) {
        return (
            STATUS_UNAUTHORIZED,
            AuthResponse {
                session_id: 0,
                ok: false,
                error: Some(String::from_str("invalid token")),
            },
        );
    }
    let session_id = state.add_session();
    (STATUS_OK, AuthResponse { session_id, ok: true, error: None })
}

/// The revision that a proposal for `path` must be based on: the file's
/// revision, or 0 for a file that is not tracked.
pub open spec fn current_rev(s: CollabStateView, path: Seq<char>) -> nat {
    if s.files.contains_key(path) {
        s.files[path].rev
    } else {
        0
    }
}

/// The fingerprint of the file at `path`, if it is tracked.
pub open spec fn current_hash(s: CollabStateView, path: Seq<char>) -> Option<Seq<char>> {
    if s.files.contains_key(path) {
        Some(s.files[path].hash)
    } else {
        None
    }
}

/// What a host decides on a proposal while it holds the lock.
#[derive(Debug)]
pub enum Verdict {
    /// The session is not registered; nothing was changed.
    UnknownSession(ChangeResult),
    /// The proposal is based on another revision than the file's current
    /// one; nothing was changed.
    Conflict(ChangeResult),
    /// The change was committed. It is now to be written to disk.
    Committed(FileEntry),
}

/// View of [`Verdict`].
pub enum VerdictView {
    UnknownSession(ChangeResultView),
    Conflict(ChangeResultView),
    Committed(FileEntryView),
}

impl View for Verdict {
    type V = VerdictView;

    open spec fn view(&self) -> VerdictView {
        match self {
            Verdict::UnknownSession(r) => VerdictView::UnknownSession(r@),
            Verdict::Conflict(r) => VerdictView::Conflict(r@),
            Verdict::Committed(e) => VerdictView::Committed(e@),
        }
    }
}

/// A rejection of a proposal for `path`.
pub open spec fn rejection(
    path: Seq<char>,
    conflict_rev: Option<nat>,
    conflict_hash: Option<Seq<char>>,
    reason: Seq<char>,
) -> ChangeResultView {
    ChangeResultView {
        path,
        accepted: false,
        new_rev: None,
        conflict_rev,
        conflict_hash,
        error: Some(reason),
    }
}

/// Whether a proposal is committed in state `s`: its session is registered
/// and it is based on the file's current revision.
pub open spec fn proposal_commits(s: CollabStateView, p: ChangeProposalView) -> bool {
    s.sessions.contains(p.session_id) && p.base_rev == current_rev(s, p.path)
}

/// The verdict on a proposal in state `s`. The session is judged first, then
/// the revision.
pub open spec fn verdict_on(s: CollabStateView, p: ChangeProposalView) -> VerdictView {
    if !s.sessions.contains(p.session_id) {
        VerdictView::UnknownSession(
            rejection(p.path, None, None, "unknown session; re-authenticate"@),
        )
    } else if p.base_rev != current_rev(s, p.path) {
        VerdictView::Conflict(
            rejection(
                p.path,
                Some(current_rev(s, p.path)),
                current_hash(s, p.path),
                conflict_message(p.base_rev, current_rev(s, p.path)),
            ),
        )
    } else {
        VerdictView::Committed(
            FileEntryView {
                path: p.path,
                rev: next_rev(s, p.path),
                hash: fingerprint(p.content),
            },
        )
    }
}

/// The state after a proposal: the change is committed on behalf of the
/// proposing session, or nothing is changed.
pub open spec fn after_proposal(s: CollabStateView, p: ChangeProposalView) -> CollabStateView {
    if proposal_commits(s, p) {
        applied(s, p.path, p.content, Some(p.session_id))
    } else {
        s
    }
}

/// Of two proposals for one file that are based on the same revision, the
/// host commits the one it judges first and answers the other with a
/// conflict that names the first one's revision and fingerprint.
pub proof fn lemma_second_proposal_conflicts(
    s: CollabStateView,
    first: ChangeProposalView,
    second: ChangeProposalView,
)
    requires
        proposal_commits(s, first),
        s.sessions.contains(second.session_id),
        second.path == first.path,
        second.base_rev == first.base_rev,
    ensures
        verdict_on(after_proposal(s, first), second) == VerdictView::Conflict(
            rejection(
                second.path,
                Some(first.base_rev + 1),
                Some(fingerprint(first.content)),
                conflict_message(second.base_rev, first.base_rev + 1),
            ),
        ),
        after_proposal(after_proposal(s, first), second) == after_proposal(s, first),
{
}

/// The status that goes with a verdict, before the disk is written.
pub fn verdict_status(verdict: &Verdict) -> (r: u16)
    ensures
        r == match verdict {
            Verdict::UnknownSession(_) => STATUS_UNAUTHORIZED,
            Verdict::Conflict(_) => STATUS_CONFLICT,
            Verdict::Committed(_) => STATUS_OK,
        },
{
    match verdict {
        Verdict::UnknownSession(_) => STATUS_UNAUTHORIZED,
        Verdict::Conflict(_) => STATUS_CONFLICT,
        Verdict::Committed(_) => STATUS_OK,
    }
}

/// Whether `id` is one of `sessions`.
pub fn session_known(sessions: &Vec<u32>, id: u32) -> (r: bool)
    ensures
        r == sessions@.contains(id),
{
    let mut i: usize = 0;
    while i < sessions.len()
        invariant
            i <= sessions.len(),
            forall|k: int| 0 <= k < i ==> sessions@[k] != id,
        decreases sessions.len() - i,
    {
        if sessions[i] == id {
            return true;
        }
        i += 1;
    }
    false
}

/// Judges a proposal and, if its session is registered and it is based on
/// the file's current revision, commits it.
pub fn propose(state: &mut CollabState, proposal: &ChangeProposal) -> (verdict: Verdict)
    requires
        old(state).wf(),
        old(state)@.global_seq < u64::MAX,
    ensures
        verdict@ == verdict_on(old(state)@, proposal@),
        final(state)@ == after_proposal(old(state)@, proposal@),
        final(state).wf(),
{
    if !session_known(&state.sessions, proposal.session_id) {
        return Verdict::UnknownSession(
            ChangeResult {
                path: proposal.path.clone(),
                accepted: false,
                new_rev: None,
                conflict_rev: None,
                conflict_hash: None,
                error: Some(String::from_str("unknown session; re-authenticate")),
            },
        );
    }
    let (current, known_hash): (u64, Option<String>) = match state.files.get(
        proposal.path.as_str(),
    ) {
        Some(f) => (f.rev, Some(f.hash.clone())),
        None => (0, None),
    };
    if proposal.base_rev != current {
        let mut message = String::from_str("conflict: base_rev=");
        message.append(render_decimal(proposal.base_rev).as_str());
        message.append(" but current_rev=");
        message.append(render_decimal(current).as_str());
        return Verdict::Conflict(
            ChangeResult {
                path: proposal.path.clone(),
                accepted: false,
                new_rev: None,
                conflict_rev: Some(current),
                conflict_hash: known_hash,
                error: Some(message),
            },
        );
    }
    let entry = state.apply_change(
        proposal.path.clone(),
        proposal.content.clone(),
        Some(proposal.session_id),
    );
    Verdict::Committed(entry)
}

/// The answer to a proposal that was committed and written to disk.
pub fn accepted_reply(entry: &FileEntry) -> (r: ChangeResult)
    ensures
        r@ == (ChangeResultView {
            path: entry@.path,
            accepted: true,
            new_rev: Some(entry@.rev),
            conflict_rev: None,
            conflict_hash: None,
            error: None,
        }),
{
    ChangeResult {
        path: entry.path.clone(),
        accepted: true,
        new_rev: Some(entry.rev),
        conflict_rev: None,
        conflict_hash: None,
        error: None,
    }
}

/// Which step of writing an accepted change to disk failed.
#[derive(Debug, Clone, Copy)]
pub enum WriteStep {
    /// Creating the directories above the file.
    CreateParent,
    /// Writing the file itself.
    WriteFile,
}

/// What a host reports when a step of the write failed with `cause`.
pub open spec fn write_failed_message(step: WriteStep, cause: Seq<char>) -> Seq<char> {
    match step {
        WriteStep::CreateParent => "failed to create parent dir: "@ + cause,
        WriteStep::WriteFile => "failed to write file: "@ + cause,
    }
}

/// The answer to a proposal that was committed but could not be written to
/// disk. The commit stands: other clients may already have seen it.
pub fn write_failed_reply(path: &str, step: WriteStep, cause: &str) -> (r: ChangeResult)
    ensures
        r@ == rejection(path@, None, None, write_failed_message(step, cause@)),
{
    let mut message = match step {
        WriteStep::CreateParent => String::from_str("failed to create parent dir: "),
        WriteStep::WriteFile => String::from_str("failed to write file: "),
    };
    message.append(cause);
    ChangeResult {
        path: String::from_str(path),
        accepted: false,
        new_rev: None,
        conflict_rev: None,
        conflict_hash: None,
        error: Some(message),
    }
}

/// The file at `path` as the host serves it, if it is tracked.
pub open spec fn file_view(s: CollabStateView, path: Seq<char>) -> Option<FileContentView> {
    if s.files.contains_key(path) {
        Some(
            FileContentView {
                path,
                content: s.files[path].content,
                rev: s.files[path].rev,
                hash: s.files[path].hash,
            },
        )
    } else {
        None
    }
}

/// The view of an optional file.
pub open spec fn opt_file(o: Option<FileContent>) -> Option<FileContentView> {
    match o {
        Some(f) => Some(f@),
        None => None,
    }
}

/// Serves a request for one file: its content, revision and fingerprint, or
/// `None` if no such file is tracked.
pub fn file_content(state: &CollabState, path: &str) -> (r: Option<FileContent>)
    ensures
        opt_file(r) == file_view(state@, path@),
{
    match state.files.get(path) {
        Some(f) => Some(
            FileContent {
                path: String::from_str(path),
                content: f.content.clone(),
                rev: f.rev,
                hash: f.hash.clone(),
            },
        ),
        None => None,
    }
}

/// The body of the answer to a request for an untracked file.
pub fn file_not_found(path: &str) -> (r: String)
    ensures
        r@ == file_not_found_message(path@),
{
    let mut message = String::from_str("file not found: ");
    message.append(path);
    message
}

/// Whether `m` is the manifest of state `s`: it lists every tracked file once
/// with its revision and fingerprint, in the strict order of the paths, and
/// carries the global sequence number.
pub open spec fn is_manifest_of(m: crate::protocol::ManifestView, s: CollabStateView) -> bool {
    &&& m.head_rev == s.global_seq
    &&& strictly_sorted_by_path(m.files)
    &&& forall|i: int|
        0 <= i < m.files.len() ==> s.files.contains_key((#[trigger] m.files[i]).path)
            && m.files[i].rev == s.files[m.files[i].path].rev && m.files[i].hash
            == s.files[m.files[i].path].hash
    &&& forall|p: Seq<char>| #[trigger] s.files.contains_key(p) ==> names(m.files, p)
}

/// A state has one manifest.
pub proof fn lemma_manifest_is_unique(
    a: crate::protocol::ManifestView,
    b: crate::protocol::ManifestView,
    s: CollabStateView,
)
    requires
        is_manifest_of(a, s),
        is_manifest_of(b, s),
    ensures
        a == b,
{
    assert forall|p: Seq<char>| names(a.files, p) == names(b.files, p) by {
        if names(a.files, p) {
            let i = choose|i: int| 0 <= i < a.files.len() && (#[trigger] a.files[i]).path == p;
            assert(s.files.contains_key(a.files[i].path));
        }
        if names(b.files, p) {
            let i = choose|i: int| 0 <= i < b.files.len() && (#[trigger] b.files[i]).path == p;
            assert(s.files.contains_key(b.files[i].path));
        }
    }
    lemma_sorted_listing_is_unique(a.files, b.files);
    assert(a.files =~= b.files);
}

/// Serves a request for the manifest: every tracked file with its revision
/// and fingerprint, sorted by path, and the current global sequence number.
pub fn manifest(state: &CollabState) -> (r: Manifest)
    requires
        state.wf(),
    ensures
        is_manifest_of(r@, state@),
        r.files@.len() == state.paths@.len(),
{
    let mut listed: Vec<FileEntry> = Vec::new();
    let mut i: usize = 0;
    while i < state.paths.len()
        invariant
            i <= state.paths.len(),
            state.wf(),
            listed@.len() == i,
            forall|k: int|
                0 <= k < i ==> (#[trigger] listed@[k])@.path == state.paths@[k]@ && listed@[k]@.rev
                    == state@.files[state.paths@[k]@].rev && listed@[k]@.hash
                    == state@.files[state.paths@[k]@].hash,
        decreases state.paths.len() - i,
    {
        let path = &state.paths[i];
        match state.files.get(path.as_str()) {
            Some(f) => {
                listed.push(FileEntry { path: path.clone(), rev: f.rev, hash: f.hash.clone() });
            },
            None => {
                proof {
                    assert(state@.files.contains_key(state@.paths[i as int]));
                }
                listed.push(FileEntry { path: path.clone(), rev: 0, hash: String::new() });
            },
        }
        i += 1;
    }
    let ghost given = entry_views(listed@);
    let sorted = sort_entries(listed);
    let r = Manifest { files: sorted, head_rev: state.global_seq };
    proof {
        let out = entry_views(sorted@);
        assert(r@.files =~= out);
        assert forall|p: Seq<char>| #[trigger] with_path(out, p).len() <= 1 by {
            assert(with_path(out, p) == with_path(given, p));
            if with_path(given, p).len() >= 2 {
                lemma_single_occurrence(given, p);
                let (a, b) = choose|a: int, b: int|
                    0 <= a < b < given.len() && given[a].path == p && given[b].path == p;
                assert(given[a] == listed@[a]@ && given[b] == listed@[b]@);
                assert(state@.paths[a] != state@.paths[b]);
            }
        }
        lemma_sorted_distinct_is_strict(out);
        assert forall|k: int| 0 <= k < out.len() implies state@.files.contains_key(
            (#[trigger] out[k]).path,
        ) && out[k].rev == state@.files[out[k].path].rev && out[k].hash
            == state@.files[out[k].path].hash by {
            let e = out[k];
            lemma_with_path_members(out, e.path);
            lemma_with_path_members(given, e.path);
            assert(with_path(out, e.path) == with_path(given, e.path));
            assert(with_path(out, e.path).len() == 1);
            let only = with_path(given, e.path)[0];
            assert(out.contains(only));
            let j = choose|j: int| 0 <= j < out.len() && out[j] == only;
            if j != k {
                if j < k {
                    lemma_with_path_two(out, j, k);
                } else {
                    lemma_with_path_two(out, k, j);
                }
            }
            assert(given.contains(only));
            let g = choose|g: int| 0 <= g < given.len() && given[g] == only;
            assert(given[g] == listed@[g]@);
            assert(state@.files.contains_key(state@.paths[g]));
        }
        assert forall|p: Seq<char>| #[trigger] state@.files.contains_key(p) implies names(
            out,
            p,
        ) by {
            assert(state@.paths.contains(p));
            let g = choose|g: int| 0 <= g < state@.paths.len() && state@.paths[g] == p;
            assert(given[g] == listed@[g]@);
            assert(given[g].path == p);
            lemma_with_path_members(given, p);
            lemma_with_path_members(out, p);
            assert(with_path(out, p) == with_path(given, p));
            let e = with_path(out, p)[0];
            assert(out.contains(e));
            let i = choose|i: int| 0 <= i < out.len() && out[i] == e;
            assert(out[i].path == p);
        }
    }
    r
}

/// In a list whose paths are all different, a path selects at most one entry.
proof fn lemma_single_occurrence(s: Seq<FileEntryView>, p: Seq<char>)
    requires
        with_path(s, p).len() >= 2,
    ensures
        exists|i: int, j: int| 0 <= i < j < s.len() && s[i].path == p && s[j].path == p,
    decreases s.len(),
{
    if s.len() > 0 {
        let rest = s.drop_last();
        if s.last().path == p {
            lemma_with_path_members(rest, p);
            let e = with_path(rest, p)[0];
            assert(rest.contains(e));
            let i = choose|i: int| 0 <= i < rest.len() && rest[i] == e;
            assert(s[i].path == p && s[s.len() - 1].path == p);
        } else {
            lemma_single_occurrence(rest, p);
            let (i, j) = choose|i: int, j: int|
                0 <= i < j < rest.len() && rest[i].path == p && rest[j].path == p;
            assert(s[i].path == p && s[j].path == p);
        }
    }
}

/// Serves a poll: the changes after the queried sequence number, in commit
/// order, and the current global sequence number.
pub fn changes(state: &CollabState, query: &ChangesSinceQuery) -> (r: ChangesBatch)
    ensures
        r@.entries == changes_after(state@.change_log, query.since_rev as nat),
        r@.head_rev == state@.global_seq,
{
    let (entries, head_rev) = state.changes_since(query.since_rev);
    ChangesBatch { entries, head_rev }
}

/// The state after the watcher found `content` at `path`: the change is
/// committed on behalf of the host's disk unless the file is tracked with
/// exactly the fingerprint of `content`.
pub open spec fn after_disk_change(
    s: CollabStateView,
    path: Seq<char>,
    content: Seq<u8>,
) -> CollabStateView {
    if disk_change_is_echo(s, path, content) {
        s
    } else {
        applied(s, path, content, None)
    }
}

/// Whether what the watcher found is what the state already holds: the file
/// is tracked and its fingerprint is that of the content found. This is the
/// case after the host itself wrote an accepted proposal to disk.
pub open spec fn disk_change_is_echo(
    s: CollabStateView,
    path: Seq<char>,
    content: Seq<u8>,
) -> bool {
    s.files.contains_key(path) && s.files[path].hash == fingerprint(content)
}

/// The view of an optional manifest entry.
pub open spec fn opt_entry(o: Option<FileEntry>) -> Option<FileEntryView> {
    match o {
        Some(e) => Some(e@),
        None => None,
    }
}

/// Takes in a file that the host's watcher found changed on disk. If the
/// content has the fingerprint that the state already holds for the file,
/// nothing happens; otherwise the change is committed as the host's own.
pub fn disk_change(state: &mut CollabState, path: String, content: Vec<u8>) -> (r: Option<
    FileEntry,
>)
    requires
        old(state).wf(),
        old(state)@.global_seq < u64::MAX,
    ensures
        final(state)@ == after_disk_change(old(state)@, path@, content@),
        final(state).wf(),
        opt_entry(r) == if disk_change_is_echo(old(state)@, path@, content@) {
            None
        } else {
            Some(
                FileEntryView {
                    path: path@,
                    rev: next_rev(old(state)@, path@),
                    hash: fingerprint(content@),
                },
            )
        },
{
    let new_hash = hash_content(content.as_slice());
    let already_current = match state.files.get(path.as_str()) {
        Some(f) => f.hash == new_hash,
        None => false,
    };
    if already_current {
        return None;
    }
    Some(state.apply_change(path, content, None))
}

} // verus!
