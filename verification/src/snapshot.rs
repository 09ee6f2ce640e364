//! A directory hierarchy as it was found at one moment.

use crate::names::{
    ascending, lemma_ascending_unique, lemma_insert_at, lemma_sort_by_name, lemma_sort_keeps_names,
    name_precedes, names_at, precedes, sort_by_name,
};
use vstd::prelude::*;

verus! {

/// What an entry of a directory is, links followed.
#[derive(Clone, Copy, Debug, PartialEq, Eq, Structural)]
pub enum EntryKind {
    /// A regular file.
    File,
    /// A directory.
    Dir,
    /// Anything else.
    Other,
}

/// One entry of a directory: a file, a directory with its own entries, or
/// something else.
///
/// `children` holds the entries of a directory in the order in which they
/// were listed; a directory that could not be listed has none. `text` holds
/// what a file contains, where the scan read it.
#[derive(Debug)]
pub struct Entry {
    pub name: String,
    pub kind: EntryKind,
    pub children: Vec<Entry>,
    pub text: Option<String>,
}

/// The name of the statement directory of a problem.
pub const STATEMENT_DIR: &'static str = "enunt";

/// The name of the tests directory of a problem.
pub const TESTS_DIR: &'static str = "teste";

/// The name of the editorial directory of a problem.
pub const EDITORIAL_DIR: &'static str = "editorial";

/// The name of the sources directory of a problem.
pub const SOURCES_DIR: &'static str = "surse";

/// `e` has this name and is of this kind.
pub open spec fn entry_is(e: Entry, name: Seq<char>, kind: EntryKind) -> bool {
    e.kind == kind && e.name@ == name
}

/// `dir` has an entry with this name and kind.
pub open spec fn has_child(dir: Entry, name: Seq<char>, kind: EntryKind) -> bool {
    exists|i: int| 0 <= i < dir.children@.len() && entry_is(#[trigger] dir.children@[i], name, kind)
}

/// No two entries of `dir` have the same name.
#[verifier::opaque]
pub open spec fn distinct_names(dir: Entry) -> bool {
    forall|i: int, j: int|
        0 <= i < dir.children@.len() && 0 <= j < dir.children@.len() && i != j ==> (
        #[trigger] dir.children@[i]).name@ != (#[trigger] dir.children@[j]).name@
}

/// Two entries of a directory without a name that stands twice have
/// different names.
pub proof fn lemma_distinct(dir: Entry, i: int, j: int)
    requires
        distinct_names(dir),
        0 <= i < dir.children@.len(),
        0 <= j < dir.children@.len(),
        i != j,
    ensures
        dir.children@[i].name@ != dir.children@[j].name@,
{
    reveal(distinct_names);
}

/// A problem is a directory that holds the four required directories.
pub open spec fn spec_is_problem(dir: Entry) -> bool {
    &&& has_child(dir, EDITORIAL_DIR@, EntryKind::Dir)
    &&& has_child(dir, TESTS_DIR@, EntryKind::Dir)
    &&& has_child(dir, SOURCES_DIR@, EntryKind::Dir)
    &&& has_child(dir, STATEMENT_DIR@, EntryKind::Dir)
}

/// The positions, in ascending order, of the directories among the first `n`
/// entries of `dir`.
pub open spec fn dirs_among(dir: Entry, n: int) -> Seq<usize>
    decreases n,
{
    if n <= 0 || n > dir.children@.len() {
        Seq::empty()
    } else if dir.children@[n - 1].kind == EntryKind::Dir {
        dirs_among(dir, n - 1).push((n - 1) as usize)
    } else {
        dirs_among(dir, n - 1)
    }
}

/// The positions of the directories among the entries of `dir`, in the order
/// of the listing.
pub open spec fn dir_positions(dir: Entry) -> Seq<usize> {
    dirs_among(dir, dir.children@.len() as int)
}

/// The names of the entries of `dir`, position by position.
pub open spec fn child_names(dir: Entry) -> Seq<Seq<char>> {
    Seq::new(dir.children@.len(), |i: int| dir.children@[i].name@)
}

/// Whether two texts are the same.
pub fn same_text(a: &str, b: &str) -> (r: bool)
    ensures
        r == (a@ == b@),
{
    let x = String::from_str(a);
    let y = String::from_str(b);
    x == y
}

/// Finds the first entry of `dir` with this name and kind.
pub fn find_child(dir: &Entry, name: &str, kind: EntryKind) -> (r: Option<usize>)
    ensures
        r is Some == has_child(*dir, name@, kind),
        r matches Some(i) ==> {
            &&& i < dir.children@.len()
            &&& entry_is(dir.children@[i as int], name@, kind)
            &&& forall|j: int| 0 <= j < i ==> !entry_is(#[trigger] dir.children@[j], name@, kind)
        },
{
    let mut i: usize = 0;
    while i < dir.children.len()
        invariant
            i <= dir.children@.len(),
            forall|j: int| 0 <= j < i ==> !entry_is(#[trigger] dir.children@[j], name@, kind),
        decreases dir.children@.len() - i,
    {
        if dir.children[i].kind == kind && same_text(dir.children[i].name.as_str(), name) {
            return Some(i);
        }
        i += 1;
    }
    None
}

/// Whether `dir` is a problem: it holds, as directories, all four of
/// `editorial`, `teste`, `surse` and `enunt`.
pub fn is_problem(dir: &Entry) -> (r: bool)
    ensures
        r == spec_is_problem(*dir),
{
    find_child(dir, EDITORIAL_DIR, EntryKind::Dir).is_some() && find_child(
        dir,
        TESTS_DIR,
        EntryKind::Dir,
    ).is_some() && find_child(dir, SOURCES_DIR, EntryKind::Dir).is_some() && find_child(
        dir,
        STATEMENT_DIR,
        EntryKind::Dir,
    ).is_some()
}

/// The directories among the entries of `dir`, as positions in
/// `dir.children`, in the order of the listing.
pub fn get_dir_entries(dir: &Entry) -> (r: Vec<usize>)
    ensures
        r@ == dir_positions(*dir),
        forall|k: int| 0 <= k < r@.len() ==> #[trigger] r@[k] < dir.children@.len(),
{
    let mut r: Vec<usize> = Vec::new();
    let mut i: usize = 0;
    while i < dir.children.len()
        invariant
            i <= dir.children@.len(),
            r@ == dirs_among(*dir, i as int),
            forall|k: int| 0 <= k < r@.len() ==> #[trigger] r@[k] < dir.children@.len(),
        decreases dir.children@.len() - i,
    {
        if dir.children[i].kind == EntryKind::Dir {
            r.push(i);
        }
        i += 1;
    }
    r
}

/// The positions of the directories among the entries of `dir`, in
/// ascending order of their names.
pub open spec fn sorted_positions(dir: Entry) -> Seq<usize> {
    sort_by_name(child_names(dir), dir_positions(dir))
}

/// The directories among the entries of `dir`, as positions in
/// `dir.children`, in ascending order of their names; directories of the
/// same name keep the order of the listing.
pub fn sorted_dirs(dir: &Entry) -> (r: Vec<usize>)
    ensures
        r@ == sorted_positions(*dir),
        forall|k: int| 0 <= k < r@.len() ==> #[trigger] r@[k] < dir.children@.len(),
{
    let items = get_dir_entries(dir);
    let ghost texts = child_names(*dir);
    let mut out: Vec<usize> = Vec::new();
    let mut k: usize = 0;
    assert(items@.take(0) =~= Seq::empty());
    while k < items.len()
        invariant
            k <= items@.len(),
            texts == child_names(*dir),
            forall|j: int| 0 <= j < items@.len() ==> #[trigger] items@[j] < dir.children@.len(),
            out@ == sort_by_name(texts, items@.take(k as int)),
            forall|j: int| 0 <= j < out@.len() ==> #[trigger] out@[j] < dir.children@.len(),
        decreases items@.len() - k,
    {
        let x: usize = items[k];
        let mut p: usize = out.len();
        while p > 0 && name_precedes(dir.children[x].name.as_str(), dir.children[out[p - 1]].name.as_str())
            invariant
                p <= out@.len(),
                x < dir.children@.len(),
                texts == child_names(*dir),
                forall|j: int| 0 <= j < out@.len() ==> #[trigger] out@[j] < dir.children@.len(),
                forall|j: int|
                    p <= j < out@.len() ==> precedes(texts[x as int], texts[#[trigger] out@[j] as int]),
            decreases p,
        {
            p -= 1;
        }
        proof {
            lemma_insert_at(texts, out@, x, p as int);
            assert(items@.take(k + 1).drop_last() =~= items@.take(k as int));
            assert(items@.take(k + 1).last() == x);
        }
        out.insert(p, x);
        k += 1;
    }
    assert(items@.take(k as int) =~= items@);
    out
}

/// The positions among the first `n` entries that are directories, and no
/// others, are in `dirs_among`.
pub proof fn lemma_dirs_among(dir: Entry, n: int, i: usize)
    requires
        0 <= n <= dir.children@.len(),
    ensures
        dirs_among(dir, n).contains(i) <==> (i < n && dir.children@[i as int].kind == EntryKind::Dir),
    decreases n,
{
    if n > 0 {
        lemma_dirs_among(dir, n - 1, i);
        assert(n <= dir.children.len());
        let front = dirs_among(dir, n - 1);
        let last = (n - 1) as usize;
        if dir.children@[n - 1].kind == EntryKind::Dir {
            let all = front.push(last);
            assert(dirs_among(dir, n) == all);
            if front.contains(i) {
                let k = choose|k: int| 0 <= k < front.len() && front[k] == i;
                assert(all[k] == i);
            }
            if i == last {
                assert(all[all.len() - 1] == i);
            }
            if all.contains(i) {
                let k = choose|k: int| 0 <= k < all.len() && all[k] == i;
                if k < front.len() {
                    assert(front[k] == i);
                }
            }
        }
    }
}

/// The order of siblings: whatever the order of the listing, the directories
/// of `dir` are taken in ascending order of their names, each of them once
/// and nothing else.
pub proof fn lemma_sorted_positions(dir: Entry)
    ensures
        ascending(child_names(dir), sorted_positions(dir)),
        sorted_positions(dir).to_multiset() == dir_positions(dir).to_multiset(),
        sorted_positions(dir).len() == dir_positions(dir).len(),
        forall|i: usize|
            sorted_positions(dir).contains(i) <==> (i < dir.children@.len() && dir.children@[i as int].kind
                == EntryKind::Dir),
{
    lemma_sort_by_name(child_names(dir), dir_positions(dir));
    assert forall|i: usize|
        sorted_positions(dir).contains(i) <==> (i < dir.children@.len() && dir.children@[i as int].kind
            == EntryKind::Dir) by {
        vstd::seq_lib::to_multiset_contains(sorted_positions(dir), i);
        vstd::seq_lib::to_multiset_contains(dir_positions(dir), i);
        lemma_dirs_among(dir, dir.children@.len() as int, i);
    }
}

/// The names of the directories of `dir` in the order of the listing.
pub open spec fn listed_names(dir: Entry) -> Seq<Seq<char>> {
    names_at(child_names(dir), dir_positions(dir))
}

/// The names of the directories of `dir` in the order in which they are
/// taken.
pub open spec fn sorted_names(dir: Entry) -> Seq<Seq<char>> {
    names_at(child_names(dir), sorted_positions(dir))
}

/// The order in which directories are taken does not depend on the order of
/// the listing: two listings that hold the same directory names, each as
/// often in the one as in the other, give the same sequence of names.
pub proof fn lemma_order_independent(a: Entry, b: Entry)
    requires
        listed_names(a).to_multiset() == listed_names(b).to_multiset(),
    ensures
        sorted_names(a) == sorted_names(b),
{
    lemma_sort_keeps_names(child_names(a), dir_positions(a));
    lemma_sort_keeps_names(child_names(b), dir_positions(b));
    lemma_ascending_unique(sorted_names(a), sorted_names(b));
}

/// The positions in `dirs_among` are below `n` and ascend.
pub proof fn lemma_dirs_among_ascend(dir: Entry, n: int)
    requires
        0 <= n <= dir.children@.len(),
    ensures
        forall|k: int| 0 <= k < dirs_among(dir, n).len() ==> #[trigger] dirs_among(dir, n)[k] < n,
        forall|i: int, j: int|
            0 <= i < j < dirs_among(dir, n).len() ==> #[trigger] dirs_among(dir, n)[i] < #[trigger] dirs_among(
                dir,
                n,
            )[j],
    decreases n,
{
    if n > 0 {
        lemma_dirs_among_ascend(dir, n - 1);
        assert(n <= dir.children.len());
        let front = dirs_among(dir, n - 1);
        let all = dirs_among(dir, n);
        assert forall|k: int| 0 <= k < all.len() implies #[trigger] all[k] < n by {
            if k < front.len() {
                assert(all[k] == front[k]);
            }
        }
        assert forall|i: int, j: int| 0 <= i < j < all.len() implies #[trigger] all[i] < #[trigger] all[j] by {
            assert(all[i] == front[i]);
            if j < front.len() {
                assert(all[j] == front[j]);
            }
        }
    }
}

/// No directory is taken twice.
pub proof fn lemma_positions_distinct(dir: Entry)
    ensures
        dir_positions(dir).no_duplicates(),
        sorted_positions(dir).no_duplicates(),
{
    lemma_dirs_among_ascend(dir, dir.children@.len() as int);
    dir_positions(dir).lemma_multiset_has_no_duplicates();
    lemma_sort_by_name(child_names(dir), dir_positions(dir));
    sorted_positions(dir).lemma_multiset_has_no_duplicates_conv();
}

} // verus!
