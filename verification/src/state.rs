//! The host's authoritative state: tracked files with their revisions, the
//! global change log, and the registry of client sessions.
//!
//! The state is described by its view, [`CollabStateView`]. The one mutation
//! of files and log is [`CollabState::apply_change`], whose effect on the view
//! is the function [`applied`]; the invariants that every reachable state
//! satisfies are spelled out in [`CollabStateView::wf`].

use vstd::prelude::*;
use vstd::hash_map::StringHashMap;
use crate::fingerprint::{fingerprint, hash_content};
use crate::protocol::{BroadcastEntry, BroadcastEntryView, FileEntry, FileEntryView};

verus! {

/// What the host knows of one tracked file.
#[derive(Debug)]
pub struct FileState {
    pub rev: u64,
    pub hash: String,
    pub content: Vec<u8>,
}

/// View of [`FileState`].
pub struct FileStateView {
    pub rev: nat,
    pub hash: Seq<char>,
    pub content: Seq<u8>,
}

impl View for FileState {
    type V = FileStateView;

    open spec fn view(&self) -> FileStateView {
        FileStateView { rev: self.rev as nat, hash: self.hash@, content: self.content@ }
    }
}

impl Clone for FileState {
    fn clone(&self) -> (r: Self)
        ensures
            r@ == self@,
    {
        FileState { rev: self.rev, hash: self.hash.clone(), content: self.content.clone() }
    }
}

/// One committed change, numbered in commit order.
#[derive(Debug)]
pub struct ChangeRecord {
    pub global_seq: u64,
    pub entry: BroadcastEntry,
}

/// View of [`ChangeRecord`].
pub struct ChangeRecordView {
    pub global_seq: nat,
    pub entry: BroadcastEntryView,
}

impl View for ChangeRecord {
    type V = ChangeRecordView;

    open spec fn view(&self) -> ChangeRecordView {
        ChangeRecordView { global_seq: self.global_seq as nat, entry: self.entry@ }
    }
}

impl Clone for ChangeRecord {
    fn clone(&self) -> (r: Self)
        ensures
            r@ == self@,
    {
        ChangeRecord { global_seq: self.global_seq, entry: self.entry.clone() }
    }
}

/// The authoritative collaboration state held by the host.
pub struct CollabState {
    /// Tracked files by canonical (forward-slash) relative path.
    pub files: StringHashMap<FileState>,
    /// Number of the newest committed change; 0 before the first.
    pub global_seq: u64,
    /// Every committed change, oldest first.
    pub change_log: Vec<ChangeRecord>,
    /// The registered client sessions.
    pub sessions: Vec<u32>,
    /// The identifier that the next session will get; starts at 1.
    pub next_session_id: u32,
    /// The keys of `files`, each once, in the order of first appearance.
    pub paths: Vec<String>,
}

/// View of [`CollabState`].
pub struct CollabStateView {
    pub files: Map<Seq<char>, FileStateView>,
    pub global_seq: nat,
    pub change_log: Seq<ChangeRecordView>,
    pub sessions: Seq<u32>,
    pub next_session_id: nat,
    pub paths: Seq<Seq<char>>,
}

/// How many of the first `n` records of `log` are changes to `path`.
#[verifier::opaque]
pub open spec fn occurrences_upto(log: Seq<ChangeRecordView>, n: int, path: Seq<char>) -> nat
    decreases n,
{
    if n <= 0 {
        0
    } else {
        occurrences_upto(log, n - 1, path) + if log[n - 1].entry.path == path {
            1nat
        } else {
            0nat
        }
    }
}

/// How many records of `log` are changes to `path`.
pub open spec fn occurrences(log: Seq<ChangeRecordView>, path: Seq<char>) -> nat {
    occurrences_upto(log, log.len() as int, path)
}

/// The index of the newest of the first `n` records of `log` that changes
/// `path`, or -1 if there is none.
#[verifier::opaque]
pub open spec fn latest_upto(log: Seq<ChangeRecordView>, n: int, path: Seq<char>) -> int
    decreases n,
{
    if n <= 0 {
        -1
    } else if log[n - 1].entry.path == path {
        n - 1
    } else {
        latest_upto(log, n - 1, path)
    }
}

/// The index of the newest record of `log` that changes `path`, or -1 if
/// there is none.
pub open spec fn latest(log: Seq<ChangeRecordView>, path: Seq<char>) -> int {
    latest_upto(log, log.len() as int, path)
}

/// The file state that a change record leaves behind.
pub open spec fn file_of(r: ChangeRecordView) -> FileStateView {
    FileStateView { rev: r.entry.rev, hash: r.entry.hash, content: r.entry.content }
}

/// The state before anything has happened.
pub open spec fn initial() -> CollabStateView {
    CollabStateView {
        files: Map::empty(),
        global_seq: 0,
        change_log: Seq::empty(),
        sessions: Seq::empty(),
        next_session_id: 1,
        paths: Seq::empty(),
    }
}

/// The revision that a change to `path` gets in state `s`: one more than the
/// file's revision, or 1 for a file not tracked before.
pub open spec fn next_rev(s: CollabStateView, path: Seq<char>) -> nat {
    if s.files.contains_key(path) {
        s.files[path].rev + 1
    } else {
        1
    }
}

/// The record that a change to `path` appends in state `s`.
pub open spec fn record_of(
    s: CollabStateView,
    path: Seq<char>,
    content: Seq<u8>,
    from_session: Option<u32>,
) -> ChangeRecordView {
    ChangeRecordView {
        global_seq: s.global_seq + 1,
        entry: BroadcastEntryView {
            path,
            content,
            rev: next_rev(s, path),
            hash: fingerprint(content),
            from_session,
        },
    }
}

/// The state after committing a change to `path` in state `s`.
pub open spec fn applied(
    s: CollabStateView,
    path: Seq<char>,
    content: Seq<u8>,
    from_session: Option<u32>,
) -> CollabStateView {
    let record = record_of(s, path, content, from_session);
    CollabStateView {
        files: s.files.insert(path, file_of(record)),
        global_seq: s.global_seq + 1,
        change_log: s.change_log.push(record),
        sessions: s.sessions,
        next_session_id: s.next_session_id,
        paths: if s.files.contains_key(path) {
            s.paths
        } else {
            s.paths.push(path)
        },
    }
}

/// The changes of `log` that a client has not seen if the newest number it
/// has seen is `since`: the records numbered above `since`, in order.
pub open spec fn changes_after(log: Seq<ChangeRecordView>, since: nat) -> Seq<BroadcastEntryView> {
    log.filter(|r: ChangeRecordView| r.global_seq > since).map_values(
        |r: ChangeRecordView| r.entry,
    )
}

impl CollabStateView {
    /// Every tracked file carries the fingerprint of its content.
    pub open spec fn hashes_match(self) -> bool {
        forall|p: Seq<char>| #[trigger]
            self.files.contains_key(p) ==> self.files[p].hash == fingerprint(
                self.files[p].content,
            )
    }

    /// The log is numbered 1, 2, 3, ... without gaps.
    pub open spec fn log_is_numbered(self) -> bool {
        forall|i: int|
            0 <= i < self.change_log.len() ==> (#[trigger] self.change_log[i]).global_seq == i + 1
    }

    /// The global sequence number is the length of the log, and the number of
    /// its newest record.
    pub open spec fn head_is_newest(self) -> bool {
        &&& self.global_seq == self.change_log.len()
        &&& self.change_log.len() > 0 ==> self.change_log.last().global_seq == self.global_seq
    }

    /// The records of any one path carry the revisions 1, 2, 3, ... in order:
    /// each record's revision is the number of records for its path up to
    /// and including itself.
    pub open spec fn revs_count_up(self) -> bool {
        forall|i: int|
            0 <= i < self.change_log.len() ==> (#[trigger] self.change_log[i]).entry.rev
                == occurrences_upto(self.change_log, i + 1, self.change_log[i].entry.path)
    }

    /// The tracked files are the paths that the log mentions, and each file is
    /// what the newest record for its path says.
    pub open spec fn files_are_latest(self) -> bool {
        forall|p: Seq<char>|
            {
                &&& #[trigger] self.files.contains_key(p) <==> latest(self.change_log, p) >= 0
                &&& self.files.contains_key(p) ==> self.files[p] == file_of(
                    self.change_log[latest(self.change_log, p)],
                )
            }
    }

    /// Every record carries the fingerprint of its content.
    pub open spec fn records_are_hashed(self) -> bool {
        forall|i: int|
            0 <= i < self.change_log.len() ==> (#[trigger] self.change_log[i]).entry.hash
                == fingerprint(self.change_log[i].entry.content)
    }

    /// Session identifiers are handed out upwards from 1, so none is ever
    /// given twice: every registered one is below the next to be given, and
    /// they are registered in increasing order.
    pub open spec fn sessions_are_fresh(self) -> bool {
        &&& self.next_session_id >= 1
        &&& forall|k: int|
            0 <= k < self.sessions.len() ==> 1 <= #[trigger] self.sessions[k]
                < self.next_session_id
        &&& forall|j: int, k: int|
            0 <= j < k < self.sessions.len() ==> self.sessions[j] < self.sessions[k]
    }

    /// The list of paths names every tracked file once, and nothing else.
    pub open spec fn paths_list_files(self) -> bool {
        &&& forall|i: int, j: int| 0 <= i < j < self.paths.len() ==> self.paths[i] != self.paths[j]
        &&& forall|i: int|
            0 <= i < self.paths.len() ==> self.files.contains_key(#[trigger] self.paths[i])
        &&& forall|p: Seq<char>| #[trigger] self.files.contains_key(p) ==> self.paths.contains(p)
    }

    /// The invariants of the authoritative state.
    pub open spec fn wf(self) -> bool {
        &&& self.paths_list_files()
        &&& self.hashes_match()
        &&& self.log_is_numbered()
        &&& self.head_is_newest()
        &&& self.revs_count_up()
        &&& self.files_are_latest()
        &&& self.records_are_hashed()
        &&& self.sessions_are_fresh()
    }
}

impl View for CollabState {
    type V = CollabStateView;

    open spec fn view(&self) -> CollabStateView {
        CollabStateView {
            files: self.files@.map_values(|f: FileState| f@),
            global_seq: self.global_seq as nat,
            change_log: self.change_log@.map_values(|r: ChangeRecord| r@),
            sessions: self.sessions@,
            next_session_id: self.next_session_id as nat,
            paths: self.paths@.map_values(|p: String| p@),
        }
    }
}

/// The sessions of `sessions` other than `id`, in order.
pub open spec fn sessions_without(sessions: Seq<u32>, id: u32) -> Seq<u32> {
    sessions.filter(|s: u32| s != id)
}

/// Copies the sessions other than `id`.
fn without_session(sessions: &Vec<u32>, id: u32) -> (r: Vec<u32>)
    ensures
        r@ == sessions_without(sessions@, id),
{
    let mut kept: Vec<u32> = Vec::new();
    let mut i: usize = 0;
    proof {
        reveal(Seq::filter);
        assert(sessions_without(sessions@.take(0), id) =~= Seq::<u32>::empty());
    }
    while i < sessions.len()
        invariant
            i <= sessions.len(),
            kept@ == sessions_without(sessions@.take(i as int), id),
        decreases sessions.len() - i,
    {
        let s = sessions[i];
        proof {
            reveal(Seq::filter);
            assert(sessions@.take(i + 1).drop_last() =~= sessions@.take(i as int));
            assert(sessions@.take(i + 1).last() == s);
        }
        if s != id {
            kept.push(s);
        }
        i += 1;
    }
    proof {
        assert(sessions@.take(i as int) =~= sessions@);
    }
    kept
}

impl CollabState {
    /// The state satisfies the invariants of [`CollabStateView::wf`].
    pub open spec fn wf(&self) -> bool {
        self@.wf()
    }

    /// A state with no files, no changes and no sessions.
    pub fn new() -> (r: Self)
        ensures
            r@ == initial(),
            r.wf(),
    {
        let r = CollabState {
            files: StringHashMap::new(),
            global_seq: 0,
            change_log: Vec::new(),
            sessions: Vec::new(),
            next_session_id: 1,
            paths: Vec::new(),
        };
        proof {
            assert(r@.files =~= initial().files);
            assert(r@.change_log =~= initial().change_log);
            assert(r@.paths =~= initial().paths);
            lemma_initial_wf();
        }
        r
    }

    /// Registers a new client session and returns its identifier, which no
    /// session of this state has had before.
    pub fn add_session(&mut self) -> (id: u32)
        requires
            old(self).wf(),
            old(self)@.next_session_id < u32::MAX,
        ensures
            id as nat == old(self)@.next_session_id,
            final(self)@ == (CollabStateView {
                sessions: old(self)@.sessions.push(id),
                next_session_id: old(self)@.next_session_id + 1,
                ..old(self)@
            }),
            final(self).wf(),
            final(self)@.sessions.contains(id),
            !old(self)@.sessions.contains(id),
            forall|other: u32| #[trigger]
                old(self)@.sessions.contains(other) ==> final(self)@.sessions.contains(other),
    {
        let id = self.next_session_id;
        self.next_session_id += 1;
        self.sessions.push(id);
        proof {
            let t = self@;
            assert(t.files == old(self)@.files);
            assert(t.change_log == old(self)@.change_log);
            assert(t.paths == old(self)@.paths);
            assert forall|j: int, k: int| 0 <= j < k < t.sessions.len() implies t.sessions[j]
                < t.sessions[k] by {
                if k == t.sessions.len() - 1 {
                    assert(1 <= old(self)@.sessions[j] < old(self)@.next_session_id);
                }
            }
            assert(t.sessions[t.sessions.len() - 1] == id);
            assert forall|other: u32| #[trigger]
                old(self)@.sessions.contains(other) implies t.sessions.contains(other) by {
                let k = choose|k: int|
                    0 <= k < old(self)@.sessions.len() && old(self)@.sessions[k] == other;
                assert(t.sessions[k] == other);
            }
        }
        id
    }

    /// Forgets the session `id`; does nothing if it is not registered.
    pub fn remove_session(&mut self, id: u32)
        ensures
            final(self)@ == (CollabStateView {
                sessions: sessions_without(old(self)@.sessions, id),
                ..old(self)@
            }),
            old(self).wf() ==> final(self).wf(),
    {
        let kept = without_session(&self.sessions, id);
        proof {
            if self.wf() {
                lemma_without_keeps_fresh(self.sessions@, id, self@.next_session_id);
            }
        }
        self.sessions = kept;
        proof {
            assert(self@.files == old(self)@.files);
            assert(self@.change_log == old(self)@.change_log);
            assert(self@.paths == old(self)@.paths);
        }
    }

    /// Commits a change: the file at `path` now has `content`. The global
    /// sequence number and the file's revision go up by one, the file gets
    /// the fingerprint of its new content, and a record of all this is
    /// appended to the log. Returns the file's manifest entry.
    ///
    /// Nothing is compared with the previous content: a caller that wants to
    /// skip unchanged files does so itself.
    pub fn apply_change(
        &mut self,
        path: String,
        content: Vec<u8>,
        from_session: Option<u32>,
    ) -> (entry: FileEntry)
        requires
            old(self).wf(),
            old(self)@.global_seq < u64::MAX,
        ensures
            final(self)@ == applied(old(self)@, path@, content@, from_session),
            final(self).wf(),
            entry@ == (FileEntryView {
                path: path@,
                rev: next_rev(old(self)@, path@),
                hash: fingerprint(content@),
            }),
    {
        proof {
            lemma_rev_is_occurrences(self@, path@);
            lemma_applied_preserves_wf(self@, path@, content@, from_session);
        }
        self.global_seq += 1;
        let seq = self.global_seq;
        let hash = hash_content(content.as_slice());
        let known: Option<u64> = match self.files.get(path.as_str()) {
            Some(f) => Some(f.rev),
            None => None,
        };
        let file_rev: u64 = match known {
            Some(rev) => rev + 1,
            None => 1,
        };
        if known.is_none() {
            self.paths.push(path.clone());
        }
        self.files.insert(
            path.clone(),
            FileState { rev: file_rev, hash: hash.clone(), content: content.clone() },
        );
        let record = ChangeRecord {
            global_seq: seq,
            entry: BroadcastEntry {
                path: path.clone(),
                content,
                rev: file_rev,
                hash: hash.clone(),
                from_session,
            },
        };
        self.change_log.push(record);
        proof {
            let t = applied(old(self)@, path@, content@, from_session);
            assert(self@.files =~= t.files);
            assert(self@.change_log =~= t.change_log);
            assert(self@.paths =~= t.paths);
            assert(self@ == t);
        }
        FileEntry { path, rev: file_rev, hash }
    }

    /// Returns the changes that a client has not seen if the newest sequence
    /// number it has seen is `since_rev`, in commit order, together with the
    /// current global sequence number. The log is scanned from its start and
    /// every record numbered above `since_rev` is copied.
    ///
    /// In a well-formed state, for `since_rev` up to the global sequence
    /// number, these are the records from position `since_rev` on.
    pub fn changes_since(&self, since_rev: u64) -> (r: (Vec<BroadcastEntry>, u64))
        ensures
            crate::protocol::entries_view(r.0@) == changes_after(
                self@.change_log,
                since_rev as nat,
            ),
            r.1 == self.global_seq,
            self.wf() && since_rev <= self.global_seq ==> crate::protocol::entries_view(r.0@)
                == self@.change_log.skip(since_rev as int).map_values(
                |r: ChangeRecordView| r.entry,
            ),
    {
        let ghost log = self@.change_log;
        let ghost pred = |r: ChangeRecordView| r.global_seq > since_rev as nat;
        let mut entries: Vec<BroadcastEntry> = Vec::new();
        let mut i: usize = 0;
        proof {
            reveal(Seq::filter);
            assert(log.take(0).filter(pred) =~= Seq::<ChangeRecordView>::empty());
            assert(crate::protocol::entries_view(entries@) =~= changes_after(
                log.take(0),
                since_rev as nat,
            ));
        }
        while i < self.change_log.len()
            invariant
                i <= self.change_log.len(),
                log == self@.change_log,
                pred == |r: ChangeRecordView| r.global_seq > since_rev as nat,
                crate::protocol::entries_view(entries@) == changes_after(
                    log.take(i as int),
                    since_rev as nat,
                ),
            decreases self.change_log.len() - i,
        {
            let record = &self.change_log[i];
            proof {
                reveal(Seq::filter);
                assert(log.take(i + 1).drop_last() =~= log.take(i as int));
                assert(log.take(i + 1).last() == record@);
            }
            let ghost before = entries@;
            if record.global_seq > since_rev {
                entries.push(record.entry.clone());
                proof {
                    assert(crate::protocol::entries_view(entries@)
                        =~= crate::protocol::entries_view(before).push(record@.entry));
                    assert(log.take(i + 1).filter(pred) == log.take(i as int).filter(pred).push(
                        record@,
                    ));
                    assert(changes_after(log.take(i + 1), since_rev as nat)
                        =~= changes_after(log.take(i as int), since_rev as nat).push(
                        record@.entry,
                    ));
                }
            }
            i += 1;
        }
        proof {
            assert(log.take(i as int) =~= log);
            if self.wf() && since_rev <= self.global_seq {
                lemma_changes_after_is_suffix(self@, since_rev as nat);
            }
        }
        (entries, self.global_seq)
    }
}

/// Removing a session from a fresh registry leaves a fresh registry.
proof fn lemma_without_keeps_fresh(sessions: Seq<u32>, id: u32, bound: nat)
    requires
        forall|k: int| 0 <= k < sessions.len() ==> 1 <= #[trigger] sessions[k] < bound,
        forall|j: int, k: int| 0 <= j < k < sessions.len() ==> sessions[j] < sessions[k],
    ensures
        forall|k: int|
            0 <= k < sessions_without(sessions, id).len() ==> 1 <= #[trigger] sessions_without(
                sessions,
                id,
            )[k] < bound,
        forall|j: int, k: int|
            0 <= j < k < sessions_without(sessions, id).len() ==> sessions_without(
                sessions,
                id,
            )[j] < sessions_without(sessions, id)[k],
        forall|k: int|
            0 <= k < sessions_without(sessions, id).len() ==> sessions.contains(
                #[trigger] sessions_without(sessions, id)[k],
            ),
    decreases sessions.len(),
{
    reveal(Seq::filter);
    let pred = |s: u32| s != id;
    if sessions.len() > 0 {
        let rest = sessions.drop_last();
        lemma_without_keeps_fresh(rest, id, bound);
        let out = sessions_without(sessions, id);
        let sub = sessions_without(rest, id);
        assert forall|k: int| 0 <= k < sub.len() implies #[trigger] sub[k] < sessions.last() by {
            assert(rest.contains(sub[k]));
            let j = choose|j: int| 0 <= j < rest.len() && rest[j] == sub[k];
            assert(sessions[j] == rest[j]);
        }
        assert forall|k: int| 0 <= k < out.len() implies sessions.contains(#[trigger] out[k]) by {
            if k < sub.len() {
                assert(rest.contains(sub[k]));
                let j = choose|j: int| 0 <= j < rest.len() && rest[j] == sub[k];
                assert(sessions[j] == out[k]);
            } else {
                assert(sessions[sessions.len() - 1] == out[k]);
            }
        }
    }
}

/// How counting and searching go on from one record to the next.
pub proof fn lemma_upto_step(log: Seq<ChangeRecordView>, n: int, path: Seq<char>)
    ensures
        n <= 0 ==> occurrences_upto(log, n, path) == 0 && latest_upto(log, n, path) == -1,
        n > 0 ==> occurrences_upto(log, n, path) == occurrences_upto(log, n - 1, path) + if log[n
            - 1].entry.path == path {
            1nat
        } else {
            0nat
        },
        n > 0 ==> latest_upto(log, n, path) == if log[n - 1].entry.path == path {
            n - 1
        } else {
            latest_upto(log, n - 1, path)
        },
{
    reveal(occurrences_upto);
    reveal(latest_upto);
}

/// Among the first `n` records a path occurs at most `n` times.
pub proof fn lemma_occurrences_bounded(log: Seq<ChangeRecordView>, n: int, path: Seq<char>)
    requires
        0 <= n,
    ensures
        occurrences_upto(log, n, path) <= n,
    decreases n,
{
    lemma_upto_step(log, n, path);
    if n > 0 {
        lemma_occurrences_bounded(log, n - 1, path);
    }
}

/// Counting and searching among the first `n` records looks at those
/// records only.
pub proof fn lemma_upto_agree(
    a: Seq<ChangeRecordView>,
    b: Seq<ChangeRecordView>,
    n: int,
    path: Seq<char>,
)
    requires
        n <= a.len(),
        n <= b.len(),
        forall|k: int| 0 <= k < n ==> a[k] == b[k],
    ensures
        occurrences_upto(a, n, path) == occurrences_upto(b, n, path),
        latest_upto(a, n, path) == latest_upto(b, n, path),
    decreases n,
{
    lemma_upto_step(a, n, path);
    lemma_upto_step(b, n, path);
    if n > 0 {
        lemma_upto_agree(a, b, n - 1, path);
    }
}

/// The newest record for a path among the first `n`, where there is one, is
/// a record for that path, no later one among them is, and the path occurs
/// as often among the first `n` as up to that record.
pub proof fn lemma_latest(log: Seq<ChangeRecordView>, n: int, path: Seq<char>)
    requires
        0 <= n <= log.len(),
    ensures
        -1 <= latest_upto(log, n, path) < n,
        latest_upto(log, n, path) >= 0 ==> log[latest_upto(log, n, path)].entry.path == path,
        latest_upto(log, n, path) >= 0 ==> occurrences_upto(log, n, path) == occurrences_upto(
            log,
            latest_upto(log, n, path) + 1,
            path,
        ),
        latest_upto(log, n, path) >= 0 <==> occurrences_upto(log, n, path) > 0,
        forall|i: int| latest_upto(log, n, path) < i < n ==> (#[trigger] log[i]).entry.path != path,
    decreases n,
{
    lemma_upto_step(log, n, path);
    if n > 0 {
        lemma_latest(log, n - 1, path);
        lemma_upto_step(log, latest_upto(log, n, path) + 1, path);
    }
}

/// In a well-formed state a file's revision is the number of changes that
/// the log holds for its path, and an untracked path has none.
pub proof fn lemma_rev_is_occurrences(s: CollabStateView, path: Seq<char>)
    requires
        s.wf(),
    ensures
        s.files.contains_key(path) ==> s.files[path].rev == occurrences(s.change_log, path),
        !s.files.contains_key(path) ==> occurrences(s.change_log, path) == 0,
        next_rev(s, path) == occurrences(s.change_log, path) + 1,
        next_rev(s, path) <= s.global_seq + 1,
{
    let n = s.change_log.len() as int;
    lemma_latest(s.change_log, n, path);
    lemma_occurrences_bounded(s.change_log, n, path);
    assert(s.files.contains_key(path) <==> latest(s.change_log, path) >= 0);
    if s.files.contains_key(path) {
        let k = latest(s.change_log, path);
        assert(s.files[path] == file_of(s.change_log[k]));
        assert(s.change_log[k].entry.rev == occurrences_upto(s.change_log, k + 1, path));
    }
}

/// Committing a change keeps the state well-formed.
pub proof fn lemma_applied_preserves_wf(
    s: CollabStateView,
    path: Seq<char>,
    content: Seq<u8>,
    from_session: Option<u32>,
)
    requires
        s.wf(),
    ensures
        applied(s, path, content, from_session).wf(),
{
    let t = applied(s, path, content, from_session);
    let record = record_of(s, path, content, from_session);
    let n = s.change_log.len() as int;
    lemma_rev_is_occurrences(s, path);
    assert(t.change_log[n] == record);
    lemma_upto_step(t.change_log, n + 1, path);
    assert forall|i: int| 0 <= i < t.change_log.len() implies (#[trigger] t.change_log[i]).entry.rev
        == occurrences_upto(t.change_log, i + 1, t.change_log[i].entry.path) by {
        if i < n {
            assert(t.change_log[i] == s.change_log[i]);
            lemma_upto_agree(t.change_log, s.change_log, i + 1, s.change_log[i].entry.path);
        } else {
            lemma_upto_agree(t.change_log, s.change_log, n, path);
        }
    }
    assert forall|p: Seq<char>|
        {
            &&& #[trigger] t.files.contains_key(p) <==> latest(t.change_log, p) >= 0
            &&& t.files.contains_key(p) ==> t.files[p] == file_of(
                t.change_log[latest(t.change_log, p)],
            )
        } by {
        lemma_upto_agree(t.change_log, s.change_log, n, p);
        lemma_upto_step(t.change_log, n + 1, p);
        if p != path {
            assert(s.files.contains_key(p) <==> latest(s.change_log, p) >= 0);
            lemma_latest(s.change_log, n, p);
            if s.files.contains_key(p) {
                assert(t.change_log[latest(s.change_log, p)] == s.change_log[latest(
                    s.change_log,
                    p,
                )]);
            }
        }
    }
    assert forall|p: Seq<char>| #[trigger] t.files.contains_key(p) implies t.files[p].hash
        == fingerprint(t.files[p].content) by {
        if p != path {
            assert(s.files.contains_key(p));
        }
    }
    assert forall|p: Seq<char>| #[trigger] t.files.contains_key(p) implies t.paths.contains(p) by {
        if s.files.contains_key(p) {
            assert(s.paths.contains(p));
            let i = choose|i: int| 0 <= i < s.paths.len() && s.paths[i] == p;
            assert(t.paths[i] == p);
        } else {
            assert(t.paths[s.paths.len() as int] == p);
        }
    }
}

/// One change that a host commits: the path, the new content and where it
/// came from.
pub struct ChangeInput {
    pub path: Seq<char>,
    pub content: Seq<u8>,
    pub from_session: Option<u32>,
}

/// The state after committing `changes`, first to last, starting from `s`.
pub open spec fn run(s: CollabStateView, changes: Seq<ChangeInput>) -> CollabStateView
    decreases changes.len(),
{
    if changes.len() == 0 {
        s
    } else {
        let c = changes.last();
        applied(run(s, changes.drop_last()), c.path, c.content, c.from_session)
    }
}

/// The initial state is well-formed.
pub proof fn lemma_initial_wf()
    ensures
        initial().wf(),
{
    assert forall|p: Seq<char>| latest(initial().change_log, p) == -1 by {
        lemma_upto_step(initial().change_log, 0, p);
    }
}

/// Whatever changes a host commits, starting from a well-formed state, the
/// invariants hold after each of them.
pub proof fn lemma_every_step_wf(s: CollabStateView, changes: Seq<ChangeInput>, steps: int)
    requires
        s.wf(),
        0 <= steps <= changes.len(),
    ensures
        run(s, changes.take(steps)).wf(),
    decreases steps,
{
    let prefix = changes.take(steps);
    if steps > 0 {
        lemma_every_step_wf(s, changes, steps - 1);
        assert(prefix.drop_last() =~= changes.take(steps - 1));
        let c = prefix.last();
        lemma_applied_preserves_wf(
            run(s, changes.take(steps - 1)),
            c.path,
            c.content,
            c.from_session,
        );
    }
}

/// In a well-formed state the changes after `since` are the records from
/// position `since` on: exactly the suffix of the log numbered above `since`.
pub proof fn lemma_changes_after_is_suffix(s: CollabStateView, since: nat)
    requires
        s.wf(),
        since <= s.global_seq,
    ensures
        changes_after(s.change_log, since) == s.change_log.skip(since as int).map_values(
            |r: ChangeRecordView| r.entry,
        ),
{
    lemma_filter_numbered(s.change_log, since);
}

/// Filtering a gaplessly numbered log by "numbered above `since`" keeps the
/// records from position `since` on.
proof fn lemma_filter_numbered(log: Seq<ChangeRecordView>, since: nat)
    requires
        forall|i: int| 0 <= i < log.len() ==> (#[trigger] log[i]).global_seq == i + 1,
    ensures
        log.filter(|r: ChangeRecordView| r.global_seq > since) == if since <= log.len() {
            log.skip(since as int)
        } else {
            Seq::empty()
        },
    decreases log.len(),
{
    let pred = |r: ChangeRecordView| r.global_seq > since;
    reveal(Seq::filter);
    if log.len() > 0 {
        let rest = log.drop_last();
        assert forall|i: int| 0 <= i < rest.len() implies (#[trigger] rest[i]).global_seq == i
            + 1 by {
            assert(rest[i] == log[i]);
        }
        lemma_filter_numbered(rest, since);
        assert(log.last() == log[log.len() - 1]);
        if since < log.len() {
            assert(rest.skip(since as int).push(log.last()) =~= log.skip(since as int));
        } else if since == log.len() {
            assert(log.skip(since as int) =~= Seq::<ChangeRecordView>::empty());
            assert(rest.filter(pred) =~= Seq::<ChangeRecordView>::empty());
        }
    } else {
        assert(log.skip(0) =~= log);
    }
}

/// Committing changes only appends to the log: what was logged stays as it
/// was, and one record is added for each change.
pub proof fn lemma_run_appends(s: CollabStateView, changes: Seq<ChangeInput>)
    ensures
        run(s, changes).change_log.len() == s.change_log.len() + changes.len(),
        run(s, changes).change_log.take(s.change_log.len() as int) == s.change_log,
        run(s, changes).global_seq == s.global_seq + changes.len(),
        run(s, changes).sessions == s.sessions,
        run(s, changes).next_session_id == s.next_session_id,
    decreases changes.len(),
{
    if changes.len() > 0 {
        let rest = changes.drop_last();
        lemma_run_appends(s, rest);
        let before = run(s, rest).change_log;
        let after = run(s, changes).change_log;
        assert(after.take(s.change_log.len() as int) =~= before.take(s.change_log.len() as int));
    } else {
        assert(s.change_log.take(s.change_log.len() as int) =~= s.change_log);
    }
}

/// A client that polls again and again, each time with the sequence number
/// that its last poll returned, receives every change once and in commit
/// order: a poll after further changes returns exactly the records that
/// these changes appended.
pub proof fn lemma_poll_returns_what_came_since(s: CollabStateView, changes: Seq<ChangeInput>)
    requires
        s.wf(),
    ensures
        changes_after(run(s, changes).change_log, s.global_seq) == run(
            s,
            changes,
        ).change_log.skip(s.change_log.len() as int).map_values(|r: ChangeRecordView| r.entry),
        changes_after(run(s, changes).change_log, s.global_seq).len() == changes.len(),
{
    let t = run(s, changes);
    lemma_every_step_wf(s, changes, changes.len() as int);
    assert(changes.take(changes.len() as int) =~= changes);
    lemma_run_appends(s, changes);
    lemma_changes_after_is_suffix(t, s.global_seq);
}

/// The identifier that the next session gets is not in use.
pub proof fn lemma_next_session_is_unused(s: CollabStateView)
    requires
        s.wf(),
    ensures
        forall|k: int| 0 <= k < s.sessions.len() ==> s.sessions[k] != s.next_session_id,
{
}

/// A client that polls with the newest sequence number gets nothing.
pub proof fn lemma_caught_up(s: CollabStateView)
    requires
        s.wf(),
    ensures
        changes_after(s.change_log, s.global_seq) == Seq::<BroadcastEntryView>::empty(),
{
    lemma_changes_after_is_suffix(s, s.global_seq);
    assert(s.change_log.skip(s.global_seq as int).map_values(|r: ChangeRecordView| r.entry)
        =~= Seq::<BroadcastEntryView>::empty());
}

} // verus!
