//! Detecting changed files by their modification times.
//!
//! Both watchers, the host's and a client's, walk a directory again and
//! again and remember the modification time that each file had when they
//! last looked. A file counts as changed when it is new to the watcher or
//! its modification time is not the remembered one.

use vstd::prelude::*;
use vstd::hash_map::StringHashMap;
use crate::paths::{has_skipped_component, normalize_path, normalized, path_is_ignored, Walk};

verus! {

/// The pause between two walks of the host's watcher, in milliseconds.
pub const HOST_WALK_MILLIS: u64 = 1000;

/// A modification time in nanoseconds since the Unix epoch, negative before it.
pub type Mtime = i128;

/// The modification times that a watcher last saw, by canonical path.
pub struct MtimeCache {
    pub seen: StringHashMap<Mtime>,
}

impl View for MtimeCache {
    type V = Map<Seq<char>, Mtime>;

    open spec fn view(&self) -> Map<Seq<char>, Mtime> {
        self.seen@
    }
}

/// Whether a file with modification time `mtime` counts as changed for a
/// watcher that remembers `seen`.
pub open spec fn is_stale(seen: Map<Seq<char>, Mtime>, path: Seq<char>, mtime: Mtime) -> bool {
    !seen.contains_key(path) || seen[path] != mtime
}

impl MtimeCache {
    /// A cache that has seen no file.
    pub fn new() -> (r: Self)
        ensures
            r@ == Map::<Seq<char>, Mtime>::empty(),
    {
        MtimeCache { seen: StringHashMap::new() }
    }

    /// Remembers `mtime` for `path`.
    pub fn record(&mut self, path: String, mtime: Mtime)
        ensures
            final(self)@ == old(self)@.insert(path@, mtime),
    {
        self.seen.insert(path, mtime);
    }

    /// Looks at a file during a walk: says whether it counts as changed, and
    /// remembers its modification time.
    pub fn observe(&mut self, path: String, mtime: Mtime) -> (stale: bool)
        ensures
            stale == is_stale(old(self)@, path@, mtime),
            final(self)@ == old(self)@.insert(path@, mtime),
    {
        let stale = match self.seen.get(path.as_str()) {
            Some(previous) => *previous != mtime,
            None => true,
        };
        if stale {
            self.seen.insert(path, mtime);
        } else {
            proof {
                assert(self@ =~= self@.insert(path@, mtime));
            }
        }
        stale
    }
}

/// What a walk remembers after it came by the file at `raw`, a path in the
/// platform's form or in canonical form: the file's modification time under
/// its canonical path, unless the walk skips the path.
pub open spec fn after_visit(
    seen: Map<Seq<char>, Mtime>,
    walk: Walk,
    raw: Seq<char>,
    mtime: Mtime,
) -> Map<Seq<char>, Mtime> {
    if has_skipped_component(walk, normalized(raw)) {
        seen
    } else {
        seen.insert(normalized(raw), mtime)
    }
}

/// Whether a walk that comes by the file at `raw` has to read it: the walk
/// does not skip the path, and the file counts as changed.
pub open spec fn must_read(
    seen: Map<Seq<char>, Mtime>,
    walk: Walk,
    raw: Seq<char>,
    mtime: Mtime,
) -> bool {
    !has_skipped_component(walk, normalized(raw)) && is_stale(seen, normalized(raw), mtime)
}

/// The view of an optional path.
pub open spec fn opt_path(o: Option<String>) -> Option<Seq<char>> {
    match o {
        Some(p) => Some(p@),
        None => None,
    }
}

impl MtimeCache {
    /// Notes the modification time of a file that a walk came by, unless the
    /// walk skips its path.
    pub fn note(&mut self, walk: Walk, raw: &str, mtime: Mtime)
        ensures
            final(self)@ == after_visit(old(self)@, walk, raw@, mtime),
    {
        let path = normalize_path(raw);
        if !path_is_ignored(walk, path.as_str()) {
            self.record(path, mtime);
        }
    }

    /// Comes by a file during a walk. Returns the file's canonical path if
    /// the file has to be read: the walk does not skip the path, and the file
    /// is new to the cache or its modification time is not the remembered
    /// one. The modification time is remembered either way, unless the walk
    /// skips the path.
    pub fn visit(&mut self, walk: Walk, raw: &str, mtime: Mtime) -> (r: Option<String>)
        ensures
            opt_path(r) == if must_read(old(self)@, walk, raw@, mtime) {
                Some(normalized(raw@))
            } else {
                None
            },
            final(self)@ == after_visit(old(self)@, walk, raw@, mtime),
    {
        let path = normalize_path(raw);
        if path_is_ignored(walk, path.as_str()) {
            return None;
        }
        if self.observe(path.clone(), mtime) {
            Some(path)
        } else {
            None
        }
    }
}

/// A file that was just looked at does not count as changed until its
/// modification time changes.
pub proof fn lemma_observed_is_fresh(seen: Map<Seq<char>, Mtime>, path: Seq<char>, mtime: Mtime)
    ensures
        !is_stale(seen.insert(path, mtime), path, mtime),
        forall|other: Mtime| other != mtime ==> is_stale(seen.insert(path, mtime), path, other),
{
}

} // verus!
