//! Loading a walked project directory into the authoritative state, and what
//! materializing a snapshot does to a directory.
//!
//! Reading and writing the disk is the caller's part. A directory is handed
//! in as the list of its files, each a relative path with the file's content;
//! a directory being written is modelled as a map from path to content.

use vstd::prelude::*;
use crate::fingerprint::fingerprint;
use crate::manifest::{entry_views, is_stable_sort_of, sort_entries, with_path};
use crate::paths::{has_skipped_component, normalize_path, normalized, path_is_ignored, Walk};
use crate::protocol::{FileEntry, FileEntryView, Manifest};
use crate::state::{
    applied, latest, lemma_run_appends, next_rev, run, ChangeInput, ChangeRecordView, CollabState,
    CollabStateView, FileStateView,
};

verus! {

/// A file of a walked directory: its relative path and its content.
pub type DirFile = (String, Vec<u8>);

/// A directory's files as pairs of path and content.
pub open spec fn dir_view(files: Seq<DirFile>) -> Seq<(Seq<char>, Seq<u8>)> {
    files.map_values(|f: DirFile| (f.0@, f.1@))
}

/// The changes that loading a walked directory commits: one per file, in the
/// order of the walk, under the file's canonical path and on behalf of no
/// session. Files that a host walk skips, by their own name or by that of a
/// directory above them, are left out.
pub open spec fn load_changes(files: Seq<(Seq<char>, Seq<u8>)>) -> Seq<ChangeInput>
    decreases files.len(),
{
    if files.len() == 0 {
        Seq::empty()
    } else {
        let rest = load_changes(files.drop_last());
        let path = normalized(files.last().0);
        if has_skipped_component(Walk::Host, path) {
            rest
        } else {
            rest.push(ChangeInput { path, content: files.last().1, from_session: None })
        }
    }
}

/// The manifest entries that committing `changes` in state `s` returns, one
/// per change, in order.
pub open spec fn entries_of(s: CollabStateView, changes: Seq<ChangeInput>) -> Seq<FileEntryView>
    decreases changes.len(),
{
    if changes.len() == 0 {
        Seq::empty()
    } else {
        let c = changes.last();
        entries_of(s, changes.drop_last()).push(
            FileEntryView {
                path: c.path,
                rev: next_rev(run(s, changes.drop_last()), c.path),
                hash: fingerprint(c.content),
            },
        )
    }
}

/// A directory after writing `files` into it, first to last: each write
/// replaces what the directory held at that path, and nothing is removed.
pub open spec fn written(disk: Map<Seq<char>, Seq<u8>>, files: Seq<(Seq<char>, Seq<u8>)>) -> Map<
    Seq<char>,
    Seq<u8>,
>
    decreases files.len(),
{
    if files.len() == 0 {
        disk
    } else {
        written(disk, files.drop_last()).insert(files.last().0, files.last().1)
    }
}

/// The content of every tracked file, by path.
pub open spec fn contents(s: CollabStateView) -> Map<Seq<char>, Seq<u8>> {
    s.files.map_values(|f: FileStateView| f.content)
}

/// The writes that replaying a log makes: each record's content to its path.
pub open spec fn replayed(log: Seq<ChangeRecordView>) -> Seq<(Seq<char>, Seq<u8>)> {
    log.map_values(|r: ChangeRecordView| (r.entry.path, r.entry.content))
}

/// `snapshot` lists files of `s` with their current content, and lists every
/// file of `s` at least once.
pub open spec fn is_snapshot_of(snapshot: Seq<(Seq<char>, Seq<u8>)>, s: CollabStateView) -> bool {
    &&& forall|i: int|
        0 <= i < snapshot.len() ==> s.files.contains_key((#[trigger] snapshot[i]).0)
            && snapshot[i].1 == s.files[snapshot[i].0].content
    &&& forall|p: Seq<char>| #[trigger]
        s.files.contains_key(p) ==> exists|i: int|
            0 <= i < snapshot.len() && (#[trigger] snapshot[i]).0 == p
}

/// Loading commits at most one change per file, none for a skipped path.
pub proof fn lemma_load_changes(files: Seq<(Seq<char>, Seq<u8>)>)
    ensures
        load_changes(files).len() <= files.len(),
        forall|i: int|
            0 <= i < load_changes(files).len() ==> !has_skipped_component(
                Walk::Host,
                (#[trigger] load_changes(files)[i]).path,
            ),
    decreases files.len(),
{
    if files.len() > 0 {
        lemma_load_changes(files.drop_last());
    }
}

/// The entries that a run of changes returns name the paths of the changes.
pub proof fn lemma_entries_of(s: CollabStateView, changes: Seq<ChangeInput>)
    ensures
        entries_of(s, changes).len() == changes.len(),
        forall|i: int|
            0 <= i < changes.len() ==> (#[trigger] entries_of(s, changes)[i]).path
                == changes[i].path,
    decreases changes.len(),
{
    if changes.len() > 0 {
        lemma_entries_of(s, changes.drop_last());
    }
}

/// Loads a walked directory into `state` and returns its manifest.
///
/// `files` are the directory's files in the order of the walk, each with its
/// path relative to the directory's root, in the platform's form or in
/// canonical form, and its content. Every file whose canonical path has no
/// component that a host walk skips is committed as a change from the host's
/// own disk. The manifest lists the committed files sorted by path, with the
/// global sequence number after the load.
pub fn build_manifest_from_dir(files: Vec<DirFile>, state: &mut CollabState) -> (manifest: Manifest)
    requires
        old(state).wf(),
        old(state)@.global_seq + files@.len() <= u64::MAX,
    ensures
        final(state)@ == run(old(state)@, load_changes(dir_view(files@))),
        final(state).wf(),
        manifest.head_rev == final(state).global_seq,
        is_stable_sort_of(
            entry_views(manifest.files@),
            entries_of(old(state)@, load_changes(dir_view(files@))),
        ),
        forall|i: int|
            0 <= i < manifest.files@.len() ==> !has_skipped_component(
                Walk::Host,
                (#[trigger] manifest.files@[i])@.path,
            ),
{
    let ghost dir = dir_view(files@);
    let ghost start = state@;
    let mut entries: Vec<FileEntry> = Vec::new();
    proof {
        assert(dir.take(0) =~= Seq::<(Seq<char>, Seq<u8>)>::empty());
        assert(entry_views(entries@) =~= Seq::<FileEntryView>::empty());
    }
    for file in it: files
        invariant
            dir == dir_view(it.seq()),
            start == old(state)@,
            start.global_seq + dir.len() <= u64::MAX,
            state.wf(),
            state@ == run(start, load_changes(dir.take(it.index() as int))),
            entry_views(entries@) == entries_of(start, load_changes(dir.take(it.index() as int))),
    {
        let ghost i = it.index() as int;
        let ghost done = load_changes(dir.take(i));
        let ghost before = entry_views(entries@);
        let path = normalize_path(file.0.as_str());
        proof {
            assert(dir.take(i + 1).drop_last() =~= dir.take(i));
            assert(dir.take(i + 1).last() == dir[i]);
            lemma_load_changes(dir.take(i));
            lemma_run_appends(start, done);
        }
        if !path_is_ignored(Walk::Host, path.as_str()) {
            let entry = state.apply_change(path, file.1, None);
            entries.push(entry);
            proof {
                let next = load_changes(dir.take(i + 1));
                assert(next.drop_last() =~= done);
                assert(entry_views(entries@) =~= before.push(entry@));
            }
        }
    }
    proof {
        assert(dir.take(dir.len() as int) =~= dir);
    }
    let ghost given = entry_views(entries@);
    let sorted = sort_entries(entries);
    proof {
        let changes = load_changes(dir);
        lemma_load_changes(dir);
        lemma_entries_of(start, changes);
        assert forall|k: int| 0 <= k < sorted@.len() implies !has_skipped_component(
            Walk::Host,
            (#[trigger] sorted@[k])@.path,
        ) by {
            let e = entry_views(sorted@)[k];
            crate::manifest::lemma_with_path_members(entry_views(sorted@), e.path);
            crate::manifest::lemma_with_path_members(given, e.path);
            assert(with_path(entry_views(sorted@), e.path) == with_path(given, e.path));
            let first = with_path(given, e.path)[0];
            assert(given.contains(first));
            let j = choose|j: int| 0 <= j < given.len() && given[j] == first;
            assert(given[j].path == changes[j].path);
        }
    }
    Manifest { files: sorted, head_rev: state.global_seq }
}

/// What a directory holds at a path after some writes: what the last write
/// to that path put there, or what it held before if nothing was written.
pub proof fn lemma_written(
    disk: Map<Seq<char>, Seq<u8>>,
    files: Seq<(Seq<char>, Seq<u8>)>,
    p: Seq<char>,
)
    ensures
        (forall|i: int| 0 <= i < files.len() ==> (#[trigger] files[i]).0 != p) ==> (written(
            disk,
            files,
        ).contains_key(p) <==> disk.contains_key(p)) && (disk.contains_key(p) ==> written(
            disk,
            files,
        )[p] == disk[p]),
        (exists|i: int| 0 <= i < files.len() && (#[trigger] files[i]).0 == p) ==> written(
            disk,
            files,
        ).contains_key(p) && exists|j: int|
            0 <= j < files.len() && (#[trigger] files[j]).0 == p && written(disk, files)[p]
                == files[j].1 && forall|k: int|
                j < k < files.len() ==> (#[trigger] files[k]).0 != p,
    decreases files.len(),
{
    if files.len() > 0 {
        let rest = files.drop_last();
        let n = files.len() - 1;
        lemma_written(disk, rest, p);
        assert(files.last() == files[n]);
        assert forall|i: int| 0 <= i < rest.len() implies rest[i] == files[i] by {}
        if files[n].0 == p {
            assert(files[n].0 == p && written(disk, files)[p] == files[n].1);
        } else if exists|i: int| 0 <= i < files.len() && (#[trigger] files[i]).0 == p {
            let i = choose|i: int| 0 <= i < files.len() && (#[trigger] files[i]).0 == p;
            assert(rest[i].0 == p);
            let j = choose|j: int|
                0 <= j < rest.len() && (#[trigger] rest[j]).0 == p && written(disk, rest)[p]
                    == rest[j].1 && forall|k: int|
                    j < k < rest.len() ==> (#[trigger] rest[k]).0 != p;
            assert(files[j].0 == p && written(disk, files)[p] == files[j].1);
            assert forall|k: int| j < k < files.len() implies (#[trigger] files[k]).0 != p by {
                if k < n {
                    assert(rest[k].0 != p);
                }
            }
        } else {
            assert forall|i: int| 0 <= i < rest.len() implies (#[trigger] rest[i]).0 != p by {
                assert(files[i].0 != p);
            }
        }
    }
}

/// Writing a snapshot of a state into an empty directory leaves exactly the
/// state's files there, each with its content.
pub proof fn lemma_snapshot_materializes(snapshot: Seq<(Seq<char>, Seq<u8>)>, s: CollabStateView)
    requires
        is_snapshot_of(snapshot, s),
    ensures
        written(Map::empty(), snapshot) == contents(s),
{
    let out = written(Map::empty(), snapshot);
    assert forall|p: Seq<char>|
        (#[trigger] out.contains_key(p)) == s.files.contains_key(p) && (out.contains_key(p)
            ==> out[p] == s.files[p].content) by {
        lemma_written(Map::empty(), snapshot, p);
        if s.files.contains_key(p) {
            let i = choose|i: int| 0 <= i < snapshot.len() && (#[trigger] snapshot[i]).0 == p;
            assert(snapshot[i].0 == p);
        } else {
            assert forall|i: int| 0 <= i < snapshot.len() implies (#[trigger] snapshot[i]).0
                != p by {
                assert(s.files.contains_key(snapshot[i].0));
            }
        }
    }
    assert(out.dom() =~= contents(s).dom());
    assert(out =~= contents(s));
}

/// Replaying the whole log of a well-formed state into an empty directory
/// leaves exactly the state's files there, each with its content.
pub proof fn lemma_replay_materializes(s: CollabStateView)
    requires
        s.wf(),
    ensures
        written(Map::empty(), replayed(s.change_log)) == contents(s),
{
    let log = s.change_log;
    let writes = replayed(log);
    let out = written(Map::empty(), writes);
    assert forall|p: Seq<char>|
        (#[trigger] out.contains_key(p)) == s.files.contains_key(p) && (out.contains_key(p)
            ==> out[p] == s.files[p].content) by {
        lemma_written(Map::empty(), writes, p);
        crate::state::lemma_latest(log, log.len() as int, p);
        let last = latest(log, p);
        assert(s.files.contains_key(p) <==> last >= 0);
        if last >= 0 {
            assert(writes[last].0 == p);
            let j = choose|j: int|
                0 <= j < writes.len() && (#[trigger] writes[j]).0 == p && out[p] == writes[j].1
                    && forall|k: int| j < k < writes.len() ==> (#[trigger] writes[k]).0 != p;
            assert(log[j].entry.path == p);
            if j < last {
                assert(writes[last].0 != p);
            }
            assert(j == last);
            assert(s.files[p] == crate::state::file_of(log[last]));
        } else {
            assert forall|i: int| 0 <= i < writes.len() implies (#[trigger] writes[i]).0 != p by {
                assert(log[i].entry.path != p);
            }
        }
    }
    assert(out.dom() =~= contents(s).dom());
    assert(out =~= contents(s));
}

/// Materializing a snapshot of the final files into an empty directory gives
/// the same content at every path as replaying each record of the log in
/// order.
pub proof fn lemma_snapshot_equals_replay(snapshot: Seq<(Seq<char>, Seq<u8>)>, s: CollabStateView)
    requires
        s.wf(),
        is_snapshot_of(snapshot, s),
    ensures
        written(Map::empty(), snapshot) == written(Map::empty(), replayed(s.change_log)),
{
    lemma_snapshot_materializes(snapshot, s);
    lemma_replay_materializes(s);
}

/// The writes that a run of changes amounts to: each change's content to its
/// path.
pub open spec fn writes_of(changes: Seq<ChangeInput>) -> Seq<(Seq<char>, Seq<u8>)> {
    changes.map_values(|c: ChangeInput| (c.path, c.content))
}

/// Committing changes does to the tracked contents what writing them does to
/// a directory.
pub proof fn lemma_run_writes(s: CollabStateView, changes: Seq<ChangeInput>)
    ensures
        contents(run(s, changes)) == written(contents(s), writes_of(changes)),
    decreases changes.len(),
{
    if changes.len() > 0 {
        let rest = changes.drop_last();
        let c = changes.last();
        lemma_run_writes(s, rest);
        assert(writes_of(changes).drop_last() =~= writes_of(rest));
        assert(writes_of(changes).last() == (c.path, c.content));
        let before = run(s, rest);
        assert(contents(applied(before, c.path, c.content, c.from_session)) =~= contents(
            before,
        ).insert(c.path, c.content));
    }
}

/// Loading a directory into a fresh state and materializing a snapshot of
/// that state into an empty directory reproduces the directory: every file
/// that the walk does not skip is there under its canonical path with its
/// content, and nothing else is.
pub proof fn lemma_load_then_materialize(
    files: Seq<(Seq<char>, Seq<u8>)>,
    snapshot: Seq<(Seq<char>, Seq<u8>)>,
)
    requires
        is_snapshot_of(snapshot, run(crate::state::initial(), load_changes(files))),
    ensures
        written(Map::empty(), snapshot) == written(Map::empty(), writes_of(load_changes(files))),
{
    let s = run(crate::state::initial(), load_changes(files));
    lemma_snapshot_materializes(snapshot, s);
    lemma_run_writes(crate::state::initial(), load_changes(files));
    assert(contents(crate::state::initial()) =~= Map::<Seq<char>, Seq<u8>>::empty());
}

} // verus!
