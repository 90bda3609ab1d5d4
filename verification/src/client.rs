//! What a client decides while it keeps its mirror in step with the host.
//!
//! The client's loop alternates two phases. Inbound, it polls the host and
//! writes every change it receives into its mirror. Outbound, it walks the
//! mirror and proposes every file that it finds changed, unless the change
//! is its own write of a moment ago. Network and disk are the caller's part;
//! the functions here keep the client's books and say what to do next.

use vstd::prelude::*;
use vstd::string::*;
use vstd::hash_map::StringHashMap;
use crate::fingerprint::{fingerprint, hash_content};
use crate::host::is_manifest_of;
use crate::protocol::{
    AuthResponse, AuthResponseView, BroadcastEntry, BroadcastEntryView, ChangeProposal,
    ChangeProposalView, ChangeResult, ChangeResultView, FileContent, FileContentView,
    FileEntryView, Manifest, ManifestView,
};
use crate::state::{changes_after, lemma_caught_up, CollabStateView};
use crate::paths::Walk;
use crate::watch::{after_visit, must_read, opt_path, Mtime, MtimeCache};

verus! {

/// The pause at the end of each round of the client's loop, in milliseconds.
pub const IDLE_MILLIS: u64 = 500;

/// The pause after a poll that did not reach the host, in milliseconds.
pub const UNREACHABLE_RETRY_MILLIS: u64 = 3000;

/// The pause after a poll whose answer could not be read, in milliseconds.
pub const UNREADABLE_RETRY_MILLIS: u64 = 1000;

/// Why a host did not let a client in, as the client reports it.
pub open spec fn auth_failure_message(reason: Option<Seq<char>>) -> Seq<char> {
    "Authentication failed: "@ + match reason {
        Some(r) => r,
        None => "unknown error"@,
    }
}

/// What an authentication response means for the client: its session, or the
/// report of a failure.
pub open spec fn auth_outcome(response: AuthResponseView) -> Result<u32, Seq<char>> {
    if response.ok {
        Ok(response.session_id)
    } else {
        Err(auth_failure_message(response.error))
    }
}

/// The view of a session or a failure report.
pub open spec fn outcome_view(r: Result<u32, String>) -> Result<u32, Seq<char>> {
    match r {
        Ok(id) => Ok(id),
        Err(e) => Err(e@),
    }
}

/// Reads the host's answer to an authentication: the session that the client
/// now has, or why it has none.
pub fn session_from(response: &AuthResponse) -> (r: Result<u32, String>)
    ensures
        outcome_view(r) == auth_outcome(response@),
{
    if response.ok {
        return Ok(response.session_id);
    }
    let mut message = String::from_str("Authentication failed: ");
    match &response.error {
        Some(reason) => message.append(reason.as_str()),
        None => message.append("unknown error"),
    }
    Err(message)
}

/// The books of a client.
pub struct ClientState {
    /// The session that the host assigned.
    pub session_id: u32,
    /// Revision and fingerprint that the host last reported for each file.
    pub local_revs: StringHashMap<(u64, String)>,
    /// The files that an inbound change has written since the last walk
    /// came by them.
    pub host_applied: StringHashMap<()>,
    /// The newest global sequence number that the client has seen.
    pub last_seen_rev: u64,
    /// The modification times that the walk over the mirror last saw.
    pub mtimes: MtimeCache,
}

/// View of [`ClientState`].
pub struct ClientView {
    pub session_id: u32,
    pub local_revs: Map<Seq<char>, (nat, Seq<char>)>,
    pub host_applied: Set<Seq<char>>,
    pub last_seen_rev: nat,
    pub mtimes: Map<Seq<char>, Mtime>,
}

impl View for ClientState {
    type V = ClientView;

    open spec fn view(&self) -> ClientView {
        ClientView {
            session_id: self.session_id,
            local_revs: self.local_revs@.map_values(|v: (u64, String)| (v.0 as nat, v.1@)),
            host_applied: self.host_applied@.dom(),
            last_seen_rev: self.last_seen_rev as nat,
            mtimes: self.mtimes@,
        }
    }
}

/// The revisions that a manifest reports, by path. Where a path is listed
/// more than once, the last listing counts.
pub open spec fn revs_of(files: Seq<FileEntryView>) -> Map<Seq<char>, (nat, Seq<char>)>
    decreases files.len(),
{
    if files.len() == 0 {
        Map::empty()
    } else {
        revs_of(files.drop_last()).insert(files.last().path, (files.last().rev, files.last().hash))
    }
}

/// The books of a client that has just materialized the manifest `m`.
pub open spec fn joined(session_id: u32, m: ManifestView) -> ClientView {
    ClientView {
        session_id,
        local_revs: revs_of(m.files),
        host_applied: Set::empty(),
        last_seen_rev: m.head_rev,
        mtimes: Map::empty(),
    }
}

/// The books after an inbound change was written into the mirror: the host's
/// revision and fingerprint are noted, the file is marked as written by the
/// host, and the modification time that the write left, if it could be read,
/// is remembered.
pub open spec fn after_inbound(
    c: ClientView,
    entry: BroadcastEntryView,
    mtime: Option<Mtime>,
) -> ClientView {
    ClientView {
        local_revs: c.local_revs.insert(entry.path, (entry.rev, entry.hash)),
        host_applied: c.host_applied.insert(entry.path),
        mtimes: match mtime {
            Some(t) => c.mtimes.insert(entry.path, t),
            None => c.mtimes,
        },
        ..c
    }
}

/// The revision that the client bases a proposal for `path` on: the one the
/// host last reported, or 0 for a file the host has not reported.
pub open spec fn base_rev(c: ClientView, path: Seq<char>) -> nat {
    if c.local_revs.contains_key(path) {
        c.local_revs[path].0
    } else {
        0
    }
}

/// What the client does with a file that its walk found changed.
#[derive(Debug)]
pub enum Outbound {
    /// The change is the client's own write of an inbound change: skip it.
    Echo,
    /// The content has the fingerprint that the host last reported: skip it.
    Unchanged,
    /// Propose the change to the host. `new_hash` is the content's
    /// fingerprint, to be noted once the host accepts.
    Propose { proposal: ChangeProposal, new_hash: String },
}

/// View of [`Outbound`].
pub enum OutboundView {
    Echo,
    Unchanged,
    Propose { proposal: ChangeProposalView, new_hash: Seq<char> },
}

impl View for Outbound {
    type V = OutboundView;

    open spec fn view(&self) -> OutboundView {
        match self {
            Outbound::Echo => OutboundView::Echo,
            Outbound::Unchanged => OutboundView::Unchanged,
            Outbound::Propose { proposal, new_hash } => OutboundView::Propose {
                proposal: proposal@,
                new_hash: new_hash@,
            },
        }
    }
}

/// What the client does with the changed file `path`, now holding `content`.
/// A file marked as written by the host is skipped; so is one whose
/// fingerprint is the one the host last reported.
pub open spec fn outbound_for(c: ClientView, path: Seq<char>, content: Seq<u8>) -> OutboundView {
    if c.host_applied.contains(path) {
        OutboundView::Echo
    } else if c.local_revs.contains_key(path) && c.local_revs[path].1 == fingerprint(content) {
        OutboundView::Unchanged
    } else {
        OutboundView::Propose {
            proposal: ChangeProposalView {
                session_id: c.session_id,
                path,
                base_rev: base_rev(c, path),
                content,
            },
            new_hash: fingerprint(content),
        }
    }
}

/// The books after the walk came by the changed file `path`: its mark as
/// written by the host, if it had one, is used up.
pub open spec fn after_outbound(c: ClientView, path: Seq<char>) -> ClientView {
    ClientView { host_applied: c.host_applied.remove(path), ..c }
}

/// What the client does after the host answered a proposal.
#[derive(Debug)]
pub enum Settlement {
    /// The proposal is settled; nothing more to do.
    Settled,
    /// The host rejected the proposal for `reason`: fetch the host's copy of
    /// the file and put it in place of the local one.
    Refetch { reason: String },
}

/// View of [`Settlement`].
pub enum SettlementView {
    Settled,
    Refetch { reason: Seq<char> },
}

impl View for Settlement {
    type V = SettlementView;

    open spec fn view(&self) -> SettlementView {
        match self {
            Settlement::Settled => SettlementView::Settled,
            Settlement::Refetch { reason } => SettlementView::Refetch { reason: reason@ },
        }
    }
}

/// What follows from the host's answer: an accepted proposal is settled, a
/// rejected one calls for the host's copy. The reason is the host's, or
/// "conflict" where the host gave none.
pub open spec fn settlement_for(result: ChangeResultView) -> SettlementView {
    if result.accepted {
        SettlementView::Settled
    } else {
        SettlementView::Refetch {
            reason: match result.error {
                Some(e) => e,
                None => "conflict"@,
            },
        }
    }
}

/// The books after the host answered the proposal for `path`: where it
/// accepted and named the new revision, that revision and the proposed
/// content's fingerprint are noted.
pub open spec fn after_answer(
    c: ClientView,
    path: Seq<char>,
    new_hash: Seq<char>,
    result: ChangeResultView,
) -> ClientView {
    match result.new_rev {
        Some(rev) if result.accepted => ClientView {
            local_revs: c.local_revs.insert(path, (rev, new_hash)),
            ..c
        },
        _ => c,
    }
}

/// The books after the host's copy of `path` replaced the local file: the
/// host's revision and fingerprint are noted and the file is marked as
/// written by the host.
pub open spec fn after_refetch(
    c: ClientView,
    path: Seq<char>,
    file: FileContentView,
) -> ClientView {
    ClientView {
        local_revs: c.local_revs.insert(path, (file.rev, file.hash)),
        host_applied: c.host_applied.insert(path),
        ..c
    }
}

impl ClientState {
    /// The books of a client that has materialized `manifest` under the
    /// session `session_id`: the manifest's revisions, no file marked, the
    /// manifest's sequence number as the newest seen, and no modification
    /// time remembered yet.
    pub fn join(session_id: u32, manifest: &Manifest) -> (r: Self)
        ensures
            r@ == joined(session_id, manifest@),
    {
        let mut local_revs: StringHashMap<(u64, String)> = StringHashMap::new();
        let ghost files = manifest@.files;
        let mut i: usize = 0;
        proof {
            assert(local_revs@.map_values(|v: (u64, String)| (v.0 as nat, v.1@)) =~= revs_of(
                files.take(0),
            ));
        }
        while i < manifest.files.len()
            invariant
                i <= manifest.files.len(),
                files == manifest@.files,
                local_revs@.map_values(|v: (u64, String)| (v.0 as nat, v.1@)) == revs_of(
                    files.take(i as int),
                ),
            decreases manifest.files.len() - i,
        {
            let f = &manifest.files[i];
            let ghost before = local_revs@;
            local_revs.insert(f.path.clone(), (f.rev, f.hash.clone()));
            proof {
                assert(files.take(i + 1).drop_last() =~= files.take(i as int));
                assert(files.take(i + 1).last() == f@);
                assert(local_revs@.map_values(|v: (u64, String)| (v.0 as nat, v.1@))
                    =~= before.map_values(|v: (u64, String)| (v.0 as nat, v.1@)).insert(
                    f@.path,
                    (f@.rev, f@.hash),
                ));
            }
            i += 1;
        }
        let r = ClientState {
            session_id,
            local_revs,
            host_applied: StringHashMap::new(),
            last_seen_rev: manifest.head_rev,
            mtimes: MtimeCache::new(),
        };
        proof {
            assert(files.take(i as int) =~= files);
            assert(r@.host_applied =~= Set::<Seq<char>>::empty());
        }
        r
    }

    /// Notes the modification time of a file of the mirror that the first
    /// walk came by, unless a client walk skips its path. `raw` is the file's
    /// path relative to the mirror, in the platform's form.
    pub fn note_mtime(&mut self, raw: &str, mtime: Mtime)
        ensures
            final(self)@ == (ClientView {
                mtimes: after_visit(old(self)@.mtimes, Walk::Client, raw@, mtime),
                ..old(self)@
            }),
    {
        self.mtimes.note(Walk::Client, raw, mtime);
    }

    /// Keeps the books after the inbound change `entry` was written into the
    /// mirror. `mtime` is the modification time that the write left, if it
    /// could be read. A change that could not be written is not booked.
    pub fn host_change_written(&mut self, entry: &BroadcastEntry, mtime: Option<Mtime>)
        ensures
            final(self)@ == after_inbound(old(self)@, entry@, mtime),
    {
        let ghost before = self.local_revs@;
        self.local_revs.insert(entry.path.clone(), (entry.rev, entry.hash.clone()));
        self.host_applied.insert(entry.path.clone(), ());
        match mtime {
            Some(t) => self.mtimes.record(entry.path.clone(), t),
            None => {},
        }
        proof {
            let t = after_inbound(old(self)@, entry@, mtime);
            assert(self@.local_revs =~= t.local_revs);
            assert(self@.host_applied =~= t.host_applied);
        }
    }

    /// Ends an inbound phase: the batch's sequence number is the newest seen.
    pub fn poll_done(&mut self, head_rev: u64)
        ensures
            final(self)@ == (ClientView { last_seen_rev: head_rev as nat, ..old(self)@ }),
    {
        self.last_seen_rev = head_rev;
    }

    /// Comes by a file of the mirror during a walk. `raw` is the file's path
    /// relative to the mirror, in the platform's form. Returns the file's
    /// canonical path if the file has to be read and handed to
    /// [`ClientState::outbound`]: a client walk does not skip the path, and
    /// the file's modification time is not the remembered one.
    pub fn file_seen(&mut self, raw: &str, mtime: Mtime) -> (r: Option<String>)
        ensures
            opt_path(r) == if must_read(old(self)@.mtimes, Walk::Client, raw@, mtime) {
                Some(crate::paths::normalized(raw@))
            } else {
                None
            },
            final(self)@ == (ClientView {
                mtimes: after_visit(old(self)@.mtimes, Walk::Client, raw@, mtime),
                ..old(self)@
            }),
    {
        self.mtimes.visit(Walk::Client, raw, mtime)
    }

    /// Decides what to do with a file that the walk found changed, and uses
    /// up the file's mark as written by the host.
    pub fn outbound(&mut self, path: String, content: Vec<u8>) -> (r: Outbound)
        ensures
            r@ == outbound_for(old(self)@, path@, content@),
            final(self)@ == after_outbound(old(self)@, path@),
    {
        let marked = self.host_applied.contains_key(path.as_str());
        self.host_applied.remove(path.as_str());
        proof {
            assert(self@.host_applied =~= old(self)@.host_applied.remove(path@));
        }
        if marked {
            return Outbound::Echo;
        }
        let new_hash = hash_content(content.as_slice());
        let (base, same): (u64, bool) = match self.local_revs.get(path.as_str()) {
            Some(known) => (known.0, known.1 == new_hash),
            None => (0, false),
        };
        if same {
            return Outbound::Unchanged;
        }
        Outbound::Propose {
            proposal: ChangeProposal {
                session_id: self.session_id,
                path,
                base_rev: base,
                content,
            },
            new_hash,
        }
    }

    /// Keeps the books after the host answered the proposal for `path`, and
    /// says what to do next.
    pub fn answered(&mut self, path: String, new_hash: String, result: &ChangeResult) -> (r:
        Settlement)
        ensures
            r@ == settlement_for(result@),
            final(self)@ == after_answer(old(self)@, path@, new_hash@, result@),
    {
        if result.accepted {
            match result.new_rev {
                Some(rev) => {
                    let ghost before = self.local_revs@;
                    self.local_revs.insert(path, (rev, new_hash));
                    proof {
                        assert(self@.local_revs =~= old(self)@.local_revs.insert(
                            path@,
                            (rev as nat, new_hash@),
                        ));
                    }
                },
                None => {},
            }
            return Settlement::Settled;
        }
        let reason = match &result.error {
            Some(e) => e.clone(),
            None => String::from_str("conflict"),
        };
        Settlement::Refetch { reason }
    }

    /// Keeps the books after the host's copy `file` replaced the local file
    /// at `path`.
    pub fn refetched(&mut self, path: String, file: &FileContent)
        ensures
            final(self)@ == after_refetch(old(self)@, path@, file@),
    {
        self.local_revs.insert(path.clone(), (file.rev, file.hash.clone()));
        self.host_applied.insert(path, ());
        proof {
            let t = after_refetch(old(self)@, path@, file@);
            assert(self@.local_revs =~= t.local_revs);
            assert(self@.host_applied =~= t.host_applied);
        }
    }
}

/// A client that has just joined with the host's manifest is caught up: a
/// poll with the sequence number it has noted brings no change.
pub proof fn lemma_fresh_client_is_caught_up(s: CollabStateView, m: ManifestView, session_id: u32)
    requires
        s.wf(),
        is_manifest_of(m, s),
    ensures
        changes_after(s.change_log, joined(session_id, m).last_seen_rev) == Seq::<
            BroadcastEntryView,
        >::empty(),
{
    lemma_caught_up(s);
}

/// A file that an inbound change wrote is not proposed back: the next walk
/// that comes by it skips it as an echo, whatever it holds by then, and the
/// walk after that judges it by its content again.
pub proof fn lemma_inbound_is_not_echoed(
    c: ClientView,
    entry: BroadcastEntryView,
    mtime: Option<Mtime>,
    content: Seq<u8>,
)
    ensures
        outbound_for(after_inbound(c, entry, mtime), entry.path, content) == OutboundView::Echo,
        !after_outbound(after_inbound(c, entry, mtime), entry.path).host_applied.contains(
            entry.path,
        ),
{
}

} // verus!
