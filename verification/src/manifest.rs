//! Ordering manifest entries by path.
//!
//! A manifest lists its files in the order of their paths; entries with the
//! same path keep the order in which they were produced.

use vstd::prelude::*;
use crate::protocol::{FileEntry, FileEntryView};
use crate::text::{
    lemma_path_le_antisym, lemma_path_le_total, lemma_path_le_trans, path_le, path_lt, str_le,
};

verus! {

/// The views of a list of manifest entries, in order.
pub open spec fn entry_views(s: Seq<FileEntry>) -> Seq<FileEntryView> {
    s.map_values(|e: FileEntry| e@)
}

/// Every entry's path is at most the path of each later entry.
pub open spec fn sorted_by_path(s: Seq<FileEntryView>) -> bool {
    forall|i: int, j: int|
        0 <= i < j < s.len() ==> path_le(#[trigger] s[i].path, #[trigger] s[j].path)
}

/// Every entry's path is strictly before the path of each later entry.
pub open spec fn strictly_sorted_by_path(s: Seq<FileEntryView>) -> bool {
    forall|i: int, j: int|
        0 <= i < j < s.len() ==> path_lt(#[trigger] s[i].path, #[trigger] s[j].path)
}

/// The entries of `s` for the path `p`, in order.
pub open spec fn with_path(s: Seq<FileEntryView>, p: Seq<char>) -> Seq<FileEntryView>
    decreases s.len(),
{
    if s.len() == 0 {
        Seq::empty()
    } else if s.last().path == p {
        with_path(s.drop_last(), p).push(s.last())
    } else {
        with_path(s.drop_last(), p)
    }
}

/// `sorted` holds the entries of `given` in the order of their paths, and
/// entries with the same path in the order they have in `given`.
pub open spec fn is_stable_sort_of(sorted: Seq<FileEntryView>, given: Seq<FileEntryView>) -> bool {
    &&& sorted.len() == given.len()
    &&& sorted_by_path(sorted)
    &&& forall|p: Seq<char>| #[trigger] with_path(sorted, p) == with_path(given, p)
}

/// Selecting by path distributes over concatenation.
pub proof fn lemma_with_path_concat(a: Seq<FileEntryView>, b: Seq<FileEntryView>, p: Seq<char>)
    ensures
        with_path(a + b, p) == with_path(a, p) + with_path(b, p),
    decreases b.len(),
{
    if b.len() == 0 {
        assert(a + b =~= a);
        assert(with_path(a, p) + with_path(b, p) =~= with_path(a, p));
    } else {
        lemma_with_path_concat(a, b.drop_last(), p);
        assert((a + b).drop_last() =~= a + b.drop_last());
        assert((a + b).last() == b.last());
        if b.last().path == p {
            assert((with_path(a, p) + with_path(b.drop_last(), p)).push(b.last()) =~= with_path(
                a,
                p,
            ) + with_path(b, p));
        }
    }
}

/// Every entry selected by `p` has the path `p` and is an entry of the list;
/// an entry of the list with path `p` makes the selection non-empty.
pub proof fn lemma_with_path_members(s: Seq<FileEntryView>, p: Seq<char>)
    ensures
        forall|k: int|
            0 <= k < with_path(s, p).len() ==> (#[trigger] with_path(s, p)[k]).path == p
                && s.contains(with_path(s, p)[k]),
        forall|i: int|
            0 <= i < s.len() && (#[trigger] s[i]).path == p ==> with_path(s, p).len() > 0,
        with_path(s, p).len() <= s.len(),
    decreases s.len(),
{
    if s.len() > 0 {
        let rest = s.drop_last();
        lemma_with_path_members(rest, p);
        assert forall|k: int| 0 <= k < with_path(s, p).len() implies (#[trigger] with_path(
            s,
            p,
        )[k]).path == p && s.contains(with_path(s, p)[k]) by {
            if k < with_path(rest, p).len() {
                let e = with_path(rest, p)[k];
                assert(rest.contains(e));
                let j = choose|j: int| 0 <= j < rest.len() && rest[j] == e;
                assert(s[j] == e);
            } else {
                assert(s[s.len() - 1] == s.last());
            }
        }
        assert forall|i: int| 0 <= i < s.len() && (#[trigger] s[i]).path == p implies with_path(
            s,
            p,
        ).len() > 0 by {
            if i < rest.len() {
                assert(rest[i] == s[i]);
            }
        }
    }
}

/// Two entries with the same path at different places make the selection by
/// that path hold at least two entries.
pub proof fn lemma_with_path_two(s: Seq<FileEntryView>, i: int, j: int)
    requires
        0 <= i < j < s.len(),
        s[i].path == s[j].path,
    ensures
        with_path(s, s[i].path).len() >= 2,
    decreases s.len(),
{
    let p = s[i].path;
    let rest = s.drop_last();
    if j == s.len() - 1 {
        lemma_with_path_members(rest, p);
        assert(rest[i] == s[i]);
    } else {
        assert(rest[i] == s[i]);
        assert(rest[j] == s[j]);
        lemma_with_path_two(rest, i, j);
    }
}

/// A sorted list in which no path occurs twice is strictly sorted.
pub proof fn lemma_sorted_distinct_is_strict(s: Seq<FileEntryView>)
    requires
        sorted_by_path(s),
        forall|p: Seq<char>| #[trigger] with_path(s, p).len() <= 1,
    ensures
        strictly_sorted_by_path(s),
{
    assert forall|i: int, j: int| 0 <= i < j < s.len() implies path_lt(
        #[trigger] s[i].path,
        #[trigger] s[j].path,
    ) by {
        if s[i].path == s[j].path {
            lemma_with_path_two(s, i, j);
            assert(with_path(s, s[i].path).len() <= 1);
        }
    }
}

/// Whether some entry of `s` has the path `p`.
pub open spec fn names(s: Seq<FileEntryView>, p: Seq<char>) -> bool {
    exists|i: int| 0 <= i < s.len() && (#[trigger] s[i]).path == p
}

/// Two strictly sorted lists that name the same paths agree on the path at
/// each of their first `n` places.
proof fn lemma_sorted_prefixes_agree(x: Seq<FileEntryView>, y: Seq<FileEntryView>, n: int)
    requires
        strictly_sorted_by_path(x),
        strictly_sorted_by_path(y),
        forall|p: Seq<char>| names(x, p) == names(y, p),
        0 <= n <= x.len(),
        n <= y.len(),
    ensures
        forall|i: int| 0 <= i < n ==> (#[trigger] x[i]).path == y[i].path,
    decreases n,
{
    if n > 0 {
        lemma_sorted_prefixes_agree(x, y, n - 1);
        let i = n - 1;
        assert(names(x, x[i].path));
        assert(names(y, x[i].path));
        let j = choose|j: int| 0 <= j < y.len() && (#[trigger] y[j]).path == x[i].path;
        assert(names(y, y[i].path));
        assert(names(x, y[i].path));
        let k = choose|k: int| 0 <= k < x.len() && (#[trigger] x[k]).path == y[i].path;
        if j < i {
            assert(x[j].path == y[j].path);
            assert(path_lt(x[j].path, x[i].path));
        }
        if k < i {
            assert(x[k].path == y[k].path);
            assert(path_lt(y[k].path, y[i].path));
        }
        if j > i && k > i {
            assert(path_lt(y[i].path, y[j].path));
            assert(path_lt(x[i].path, x[k].path));
            lemma_path_le_antisym(x[i].path, y[i].path);
        }
        if j > i && k == i {
            assert(path_lt(y[i].path, y[j].path));
        }
    }
}

/// Two strictly sorted lists that name the same paths have the same length
/// and the same path at every place: a set of paths has one sorted listing.
pub proof fn lemma_sorted_listing_is_unique(x: Seq<FileEntryView>, y: Seq<FileEntryView>)
    requires
        strictly_sorted_by_path(x),
        strictly_sorted_by_path(y),
        forall|p: Seq<char>| names(x, p) == names(y, p),
    ensures
        x.len() == y.len(),
        forall|i: int| 0 <= i < x.len() ==> (#[trigger] x[i]).path == y[i].path,
{
    let n = if x.len() <= y.len() {
        x.len() as int
    } else {
        y.len() as int
    };
    lemma_sorted_prefixes_agree(x, y, n);
    if x.len() < y.len() {
        assert(names(y, y[n].path));
        assert(names(x, y[n].path));
        let k = choose|k: int| 0 <= k < x.len() && (#[trigger] x[k]).path == y[n].path;
        assert(x[k].path == y[k].path);
        assert(path_lt(y[k].path, y[n].path));
    }
    if y.len() < x.len() {
        assert(names(x, x[n].path));
        assert(names(y, x[n].path));
        let k = choose|k: int| 0 <= k < y.len() && (#[trigger] y[k]).path == x[n].path;
        assert(x[k].path == y[k].path);
        assert(path_lt(x[k].path, x[n].path));
    }
}

/// No entry of `s` from place `from` on has the path `p`.
pub open spec fn none_from(s: Seq<FileEntryView>, from: int, p: Seq<char>) -> bool {
    forall|m: int| from <= m < s.len() ==> (#[trigger] s[m]).path != p
}

/// Merges two sorted lists into one. Where an entry of `left` and an entry
/// of `right` have the same path, the one of `left` comes first.
fn merge(left: &Vec<FileEntry>, right: &Vec<FileEntry>) -> (out: Vec<FileEntry>)
    requires
        sorted_by_path(entry_views(left@)),
        sorted_by_path(entry_views(right@)),
    ensures
        sorted_by_path(entry_views(out@)),
        out@.len() == left@.len() + right@.len(),
        forall|p: Seq<char>| #[trigger]
            with_path(entry_views(out@), p) == with_path(entry_views(left@), p) + with_path(
                entry_views(right@),
                p,
            ),
{
    let ghost a = entry_views(left@);
    let ghost b = entry_views(right@);
    let mut out: Vec<FileEntry> = Vec::new();
    let mut i: usize = 0;
    let mut j: usize = 0;
    proof {
        assert(a.take(0) =~= Seq::<FileEntryView>::empty());
        assert(b.take(0) =~= Seq::<FileEntryView>::empty());
        assert(entry_views(out@) =~= Seq::<FileEntryView>::empty());
        assert forall|p: Seq<char>| #[trigger]
            with_path(entry_views(out@), p) == with_path(a.take(0), p) + with_path(
                b.take(0),
                p,
            ) by {
            assert(with_path(a.take(0), p) + with_path(b.take(0), p) =~= Seq::<
                FileEntryView,
            >::empty());
        }
    }
    while i < left.len() || j < right.len()
        invariant
            i <= left.len(),
            j <= right.len(),
            a == entry_views(left@),
            b == entry_views(right@),
            sorted_by_path(a),
            sorted_by_path(b),
            out@.len() == i + j,
            sorted_by_path(entry_views(out@)),
            // What is merged comes before what is still to come.
            forall|k: int, m: int|
                0 <= k < out@.len() && i <= m < a.len() ==> path_le(
                    #[trigger] entry_views(out@)[k].path,
                    #[trigger] a[m].path,
                ),
            forall|k: int, m: int|
                0 <= k < out@.len() && j <= m < b.len() ==> path_le(
                    #[trigger] entry_views(out@)[k].path,
                    #[trigger] b[m].path,
                ),
            forall|p: Seq<char>| #[trigger]
                with_path(entry_views(out@), p) == with_path(a.take(i as int), p) + with_path(
                    b.take(j as int),
                    p,
                ),
            // Once an entry of `right` is merged, no entry with its path is
            // still to come from `left`.
            forall|p: Seq<char>|
                (#[trigger] with_path(b.take(j as int), p)).len() > 0 ==> none_from(
                    a,
                    i as int,
                    p,
                ),
        decreases left.len() - i + right.len() - j,
    {
        let ghost merged = entry_views(out@);
        let from_left = if i == left.len() {
            false
        } else if j == right.len() {
            true
        } else {
            str_le(left[i].path.as_str(), right[j].path.as_str())
        };
        if from_left {
            let e = left[i].clone();
            out.push(e);
            proof {
                let x = a[i as int];
                let next = entry_views(out@);
                assert(next =~= merged.push(x));
                assert(a.take(i + 1).drop_last() =~= a.take(i as int));
                assert(a.take(i + 1).last() == x);
                assert forall|k: int, m: int| 0 <= k < next.len() && j <= m < b.len() implies path_le(
                    #[trigger] next[k].path,
                    #[trigger] b[m].path,
                ) by {
                    if k == merged.len() {
                        if m > j {
                            lemma_path_le_trans(x.path, b[j as int].path, b[m].path);
                        }
                    }
                }
                assert forall|p: Seq<char>| #[trigger]
                    with_path(next, p) == with_path(a.take(i + 1), p) + with_path(
                        b.take(j as int),
                        p,
                    ) by {
                    assert(next.drop_last() =~= merged);
                    assert(with_path(merged, p) == with_path(a.take(i as int), p) + with_path(
                        b.take(j as int),
                        p,
                    ));
                    if x.path == p {
                        if with_path(b.take(j as int), p).len() > 0 {
                            assert(none_from(a, i as int, p));
                            assert(a[i as int].path != p);
                        }
                        assert(with_path(b.take(j as int), p) =~= Seq::<FileEntryView>::empty());
                        assert(with_path(next, p) =~= with_path(a.take(i + 1), p) + with_path(
                            b.take(j as int),
                            p,
                        ));
                    }
                }
                assert forall|p: Seq<char>|
                    (#[trigger] with_path(b.take(j as int), p)).len() > 0 implies none_from(
                    a,
                    i + 1,
                    p,
                ) by {
                    assert(none_from(a, i as int, p));
                }
            }
            i += 1;
        } else {
            let e = right[j].clone();
            out.push(e);
            proof {
                let y = b[j as int];
                let next = entry_views(out@);
                assert(next =~= merged.push(y));
                assert(b.take(j + 1).drop_last() =~= b.take(j as int));
                assert(b.take(j + 1).last() == y);
                if i < a.len() {
                    lemma_path_le_total(a[i as int].path, y.path);
                }
                assert forall|k: int, m: int| 0 <= k < next.len() && i <= m < a.len() implies path_le(
                    #[trigger] next[k].path,
                    #[trigger] a[m].path,
                ) by {
                    if k == merged.len() {
                        if m > i {
                            lemma_path_le_trans(y.path, a[i as int].path, a[m].path);
                        }
                    }
                }
                assert forall|p: Seq<char>| #[trigger]
                    with_path(next, p) == with_path(a.take(i as int), p) + with_path(
                        b.take(j + 1),
                        p,
                    ) by {
                    assert(next.drop_last() =~= merged);
                    assert(with_path(merged, p) == with_path(a.take(i as int), p) + with_path(
                        b.take(j as int),
                        p,
                    ));
                    if y.path == p {
                        assert(with_path(next, p) =~= with_path(a.take(i as int), p) + with_path(
                            b.take(j + 1),
                            p,
                        ));
                    }
                }
                assert forall|p: Seq<char>|
                    (#[trigger] with_path(b.take(j + 1), p)).len() > 0 implies none_from(
                    a,
                    i as int,
                    p,
                ) by {
                    if y.path == p {
                        assert forall|m: int| i <= m < a.len() implies (#[trigger] a[m]).path
                            != p by {
                            if a[m].path == p && m > i {
                                assert(path_le(a[i as int].path, a[m].path));
                            }
                        }
                    } else {
                        assert(with_path(b.take(j as int), p).len() > 0);
                        assert(none_from(a, i as int, p));
                    }
                }
            }
            j += 1;
        }
    }
    proof {
        assert(a.take(i as int) =~= a);
        assert(b.take(j as int) =~= b);
    }
    out
}

/// Sorts the entries of `entries` from place `lo` up to place `hi`.
fn sort_range(entries: &Vec<FileEntry>, lo: usize, hi: usize) -> (r: Vec<FileEntry>)
    requires
        lo <= hi <= entries@.len(),
    ensures
        is_stable_sort_of(entry_views(r@), entry_views(entries@).subrange(lo as int, hi as int)),
    decreases hi - lo,
{
    let ghost given = entry_views(entries@).subrange(lo as int, hi as int);
    if hi - lo == 0 {
        let r: Vec<FileEntry> = Vec::new();
        proof {
            assert(entry_views(r@) =~= given);
        }
        r
    } else if hi - lo == 1 {
        let mut r: Vec<FileEntry> = Vec::new();
        r.push(entries[lo].clone());
        proof {
            assert(entry_views(r@) =~= given);
        }
        r
    } else {
        let mid = lo + (hi - lo) / 2;
        let left = sort_range(entries, lo, mid);
        let right = sort_range(entries, mid, hi);
        let r = merge(&left, &right);
        proof {
            let first = entry_views(entries@).subrange(lo as int, mid as int);
            let second = entry_views(entries@).subrange(mid as int, hi as int);
            assert(given =~= first + second);
            assert forall|p: Seq<char>| #[trigger]
                with_path(entry_views(r@), p) == with_path(given, p) by {
                lemma_with_path_concat(first, second, p);
                assert(with_path(entry_views(left@), p) == with_path(first, p));
                assert(with_path(entry_views(right@), p) == with_path(second, p));
            }
        }
        r
    }
}

/// Sorts manifest entries by path. Entries with the same path keep their
/// order.
pub fn sort_entries(entries: Vec<FileEntry>) -> (r: Vec<FileEntry>)
    ensures
        is_stable_sort_of(entry_views(r@), entry_views(entries@)),
{
    proof {
        assert(entry_views(entries@).subrange(0, entries@.len() as int) =~= entry_views(
            entries@,
        ));
    }
    sort_range(&entries, 0, entries.len())
}

} // verus!
