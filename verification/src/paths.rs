//! Relative paths in canonical form, and the names that a directory walk skips.
//!
//! The canonical form of a path separates its components with forward
//! slashes. Paths enter in the platform's form and are normalized; they leave
//! through [`to_platform`].

use vstd::prelude::*;
use vstd::string::*;
use crate::text::{chars_of, str_eq};

verus! {

/// `text` with every `from` replaced by `to`.
pub open spec fn replaced(text: Seq<char>, from: char, to: char) -> Seq<char> {
    Seq::new(text.len(), |i: int| if text[i] == from { to } else { text[i] })
}

/// The canonical form of a path: every backslash becomes a forward slash.
pub open spec fn normalized(raw: Seq<char>) -> Seq<char> {
    replaced(raw, '\\', '/')
}

/// Whether `c` separates path components on some platform.
pub open spec fn is_separator(c: char) -> bool {
    c == '/' || c == '\\'
}

/// Two paths of equal length that differ at most in which separator they use.
pub open spec fn same_but_separators(a: Seq<char>, b: Seq<char>) -> bool {
    &&& a.len() == b.len()
    &&& forall|i: int|
        0 <= i < a.len() ==> a[i] == b[i] || (is_separator(#[trigger] a[i]) && is_separator(b[i]))
}

/// Copies `text`, replacing every `from` by the one character of `to`.
pub fn replace_char(text: &str, from: char, to: &str) -> (r: String)
    requires
        to@.len() == 1,
    ensures
        r@ == replaced(text@, from, to@[0]),
{
    let chars = chars_of(text);
    let n = chars.len();
    let ghost goal = replaced(text@, from, to@[0]);
    let mut out = String::new();
    // The characters before `start` are copied; those from `start` up to `i`
    // hold no `from` and are copied in one piece when the next `from` comes.
    let mut start: usize = 0;
    let mut i: usize = 0;
    while i < n
        invariant
            start <= i <= n,
            n == text@.len(),
            chars@ == text@,
            to@.len() == 1,
            goal == replaced(text@, from, to@[0]),
            out@ == goal.take(start as int),
            forall|k: int| start <= k < i ==> text@[k] != from,
        decreases n - i,
    {
        if chars[i] == from {
            out.append(text.substring_char(start, i));
            out.append(to);
            proof {
                assert(to@ =~= seq![to@[0]]);
                assert(out@ =~= goal.take(i + 1));
            }
            start = i + 1;
        }
        i += 1;
    }
    out.append(text.substring_char(start, n));
    proof {
        assert(out@ =~= goal);
    }
    out
}

/// Brings a relative path into canonical form.
pub fn normalize_path(raw: &str) -> (r: String)
    ensures
        r@ == normalized(raw@),
{
    proof {
        reveal_strlit("/");
    }
    replace_char(raw, '\\', "/")
}

/// Turns a canonical path into the platform's form, whose separator is the
/// one character of `separator`.
pub fn to_platform(path: &str, separator: &str) -> (r: String)
    requires
        separator@.len() == 1,
    ensures
        r@ == replaced(path@, '/', separator@[0]),
{
    replace_char(path, '/', separator)
}

/// Normalizing a canonical path changes nothing: normalization is idempotent.
pub proof fn lemma_normalized_idempotent(raw: Seq<char>)
    ensures
        normalized(normalized(raw)) == normalized(raw),
{
    assert(normalized(normalized(raw)) =~= normalized(raw));
}

/// A path without backslashes is its own canonical form.
pub proof fn lemma_normalized_keeps_forward(raw: Seq<char>)
    requires
        forall|i: int| 0 <= i < raw.len() ==> raw[i] != '\\',
    ensures
        normalized(raw) == raw,
{
    assert(normalized(raw) =~= raw);
}

/// Two paths that differ only in their separators have the same canonical
/// form; so a path written with backslashes normalizes to what the same
/// path written with forward slashes normalizes to.
pub proof fn lemma_normalized_ignores_separator(a: Seq<char>, b: Seq<char>)
    requires
        same_but_separators(a, b),
    ensures
        normalized(a) == normalized(b),
{
    assert forall|i: int| 0 <= i < a.len() implies normalized(a)[i] == normalized(b)[i] by {
        assert(a[i] == b[i] || (is_separator(a[i]) && is_separator(b[i])));
    }
    assert(normalized(a) =~= normalized(b));
}

/// A canonical path holds no backslash.
pub proof fn lemma_normalized_has_no_backslash(raw: Seq<char>)
    ensures
        forall|i: int| 0 <= i < normalized(raw).len() ==> normalized(raw)[i] != '\\',
{
}

/// The name of the directory in which a client keeps backups of what it
/// overwrites. Every walk skips it, so a backup never counts as project
/// content.
pub const BACKUP_DIR: &'static str = ".vasc-collab-backup";

/// Which walk a name is judged for.
#[derive(Debug, Clone, Copy)]
pub enum Walk {
    /// The host's walks over the project directory.
    Host,
    /// A client's walks over its mirror.
    Client,
}

/// The names that every walk skips.
pub open spec fn skipped_everywhere(name: Seq<char>) -> bool {
    name == ".git"@ || name == BACKUP_DIR@ || name == "node_modules"@
}

/// The names that a walk skips: version-control data, the backup directory
/// and package caches everywhere, and on the host the file managers'
/// droppings as well.
pub open spec fn skipped(walk: Walk, name: Seq<char>) -> bool {
    match walk {
        Walk::Host => skipped_everywhere(name) || name == ".DS_Store"@ || name == "Thumbs.db"@,
        Walk::Client => skipped_everywhere(name),
    }
}

/// Whether a walk skips the directory entry called `name`.
pub fn is_ignored(walk: Walk, name: &str) -> (r: bool)
    ensures
        r == skipped(walk, name@),
{
    if str_eq(name, ".git") || str_eq(name, BACKUP_DIR) || str_eq(name, "node_modules") {
        return true;
    }
    match walk {
        Walk::Host => str_eq(name, ".DS_Store") || str_eq(name, "Thumbs.db"),
        Walk::Client => false,
    }
}

/// Whether the characters of `path` from `start` up to `end` form one whole
/// component: they hold no slash, and a slash or an end of the path stands
/// on either side.
pub open spec fn is_component(path: Seq<char>, start: int, end: int) -> bool {
    &&& 0 <= start <= end <= path.len()
    &&& start == 0 || path[start - 1] == '/'
    &&& end == path.len() || path[end] == '/'
    &&& forall|k: int| start <= k < end ==> path[k] != '/'
}

/// Whether some component of `path`, be it a directory on the way or the
/// file's own name, is a name that the walk skips.
pub open spec fn has_skipped_component(walk: Walk, path: Seq<char>) -> bool {
    exists|start: int, end: int|
        #[trigger] is_component(path, start, end) && skipped(walk, path.subrange(start, end))
}

/// Whether a walk would have skipped the file at the canonical path `path`,
/// or a directory above it.
pub fn path_is_ignored(walk: Walk, path: &str) -> (r: bool)
    ensures
        r == has_skipped_component(walk, path@),
{
    let chars = chars_of(path);
    let n = chars.len();
    let mut start: usize = 0;
    let mut i: usize = 0;
    while i < n
        invariant
            start <= i <= n,
            n == path@.len(),
            chars@ == path@,
            start == 0 || path@[start - 1] == '/',
            forall|k: int| start <= k < i ==> path@[k] != '/',
            forall|a: int, b: int|
                #[trigger] is_component(path@, a, b) && b < i ==> !skipped(
                    walk,
                    path@.subrange(a, b),
                ),
        decreases n - i,
    {
        if chars[i] == '/' {
            if is_ignored(walk, path.substring_char(start, i)) {
                proof {
                    assert(is_component(path@, start as int, i as int));
                }
                return true;
            }
            proof {
                assert forall|a: int, b: int| #[trigger]
                    is_component(path@, a, b) && b < i + 1 implies !skipped(
                    walk,
                    path@.subrange(a, b),
                ) by {
                    if b == i {
                        if a > start {
                            assert(path@[a - 1] == '/');
                        } else if a < start {
                            assert(path@[start - 1] == '/');
                        }
                        assert(a == start);
                    }
                }
            }
            start = i + 1;
        }
        i += 1;
    }
    let last = is_ignored(walk, path.substring_char(start, n));
    proof {
        if last {
            assert(is_component(path@, start as int, n as int));
        } else {
            assert forall|a: int, b: int| #[trigger]
                is_component(path@, a, b) implies !skipped(walk, path@.subrange(a, b)) by {
                if b == n {
                    if a > start {
                        assert(path@[a - 1] == '/');
                    } else if a < start {
                        assert(path@[start - 1] == '/');
                    }
                    assert(a == start);
                }
            }
        }
    }
    last
}

} // verus!
