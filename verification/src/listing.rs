//! What does not depend on the order in which directories were listed.

use crate::mirrors::option_text;
use crate::names::{
    lemma_names_totally_ordered, lemma_strictly_ascending_unique, names_at, not_after, precedes,
    strictly_ascending,
};
use crate::snapshot::{
    child_names, distinct_names, entry_is, has_child, lemma_distinct, lemma_positions_distinct,
    lemma_sorted_positions, sorted_names, sorted_positions, spec_is_problem, Entry, EntryKind, EDITORIAL_DIR,
    SOURCES_DIR, STATEMENT_DIR, TESTS_DIR,
};
use crate::render::{spec_readme, spec_table};
use crate::report::{readme_text, spec_create_readme, Options, README_FILE};
use crate::tree::{
    first_child, leaves, problem_view, sidecar_text, spec_forest, spec_tree, subdir_facts, MIRRORS_FILE,
};
use crate::verdict::{spec_facts, BROKEN_MARK, MISSING_MARK};
use vstd::prelude::*;

verus! {

/// `a` and `b` are two snapshots of one hierarchy in which no directory
/// holds a name twice: they differ at most in the order in which the
/// entries of their directories are listed.
pub open spec fn same_but_order(a: Entry, b: Entry) -> bool
    decreases a, 2nat,
{
    &&& a.name@ == b.name@
    &&& a.kind == b.kind
    &&& option_text(a.text) == option_text(b.text)
    &&& a.children@.len() == b.children@.len()
    &&& distinct_names(a)
    &&& distinct_names(b)
    &&& forall|i: int| 0 <= i < a.children@.len() ==> has_partner(#[trigger] a.children@[i], b, a)
    &&& forall|j: int| 0 <= j < b.children@.len() ==> is_partner(#[trigger] b.children@[j], a)
}

/// The entry `x` of `a` is found among the entries of `b`.
pub open spec fn has_partner(x: Entry, b: Entry, a: Entry) -> bool
    decreases a, 1nat,
{
    exists|j: int| 0 <= j < b.children@.len() && paired(x, #[trigger] b.children@[j], a)
}

/// The entry `y` is found among the entries of `a`.
pub open spec fn is_partner(y: Entry, a: Entry) -> bool
    decreases a, 1nat,
{
    exists|i: int| 0 <= i < a.children@.len() && paired(#[trigger] a.children@[i], y, a)
}

/// The entry `x` of `a` and the entry `y` are the same but for the order
/// of their listings.
pub open spec fn paired(x: Entry, y: Entry, a: Entry) -> bool
    decreases a, 0nat,
{
    decreases_to!(a => x) && same_but_order(x, y)
}

/// Two snapshots of one hierarchy hold entries of the same names and kinds,
/// and the entries of one name and kind are again two snapshots of one
/// hierarchy.
pub proof fn lemma_same_children(a: Entry, b: Entry, name: Seq<char>, kind: EntryKind)
    requires
        same_but_order(a, b),
    ensures
        has_child(a, name, kind) == has_child(b, name, kind),
        has_child(a, name, kind) ==> {
            &&& 0 <= first_child(a, name, kind) < a.children@.len()
            &&& 0 <= first_child(b, name, kind) < b.children@.len()
            &&& paired(a.children@[first_child(a, name, kind)], b.children@[first_child(b, name, kind)], a)
        },
{
    if has_child(a, name, kind) {
        let i = choose|i: int| 0 <= i < a.children@.len() && entry_is(#[trigger] a.children@[i], name, kind);
        assert forall|k: int| 0 <= k < i implies !entry_is(#[trigger] a.children@[k], name, kind) by {
            lemma_distinct(a, k, i);
        }
        let fa = first_child(a, name, kind);
        assert(entry_is(a.children@[fa], name, kind));
        if fa != i {
            lemma_distinct(a, fa, i);
        }
        assert(has_partner(a.children@[i], b, a));
        let j = choose|j: int| 0 <= j < b.children@.len() && paired(a.children@[i], #[trigger] b.children@[j], a);
        assert(entry_is(b.children@[j], name, kind));
        assert forall|k: int| 0 <= k < j implies !entry_is(#[trigger] b.children@[k], name, kind) by {
            lemma_distinct(b, k, j);
        }
        let fb = first_child(b, name, kind);
        assert(entry_is(b.children@[fb], name, kind));
        if fb != j {
            lemma_distinct(b, fb, j);
        }
    }
    if has_child(b, name, kind) {
        let j = choose|j: int| 0 <= j < b.children@.len() && entry_is(#[trigger] b.children@[j], name, kind);
        assert(is_partner(b.children@[j], a));
        let i = choose|i: int| 0 <= i < a.children@.len() && paired(#[trigger] a.children@[i], b.children@[j], a);
        assert(entry_is(a.children@[i], name, kind));
    }
}

/// Two snapshots of one directory show the same facts about it.
pub proof fn lemma_same_facts(a: Entry, b: Entry)
    requires
        same_but_order(a, b),
    ensures
        spec_facts(a) == spec_facts(b),
{
    lemma_same_children(a, b, MISSING_MARK@, EntryKind::File);
    lemma_same_children(a, b, BROKEN_MARK@, EntryKind::File);
    assert(a.children.len() == b.children.len());
}

/// Two snapshots of one directory show the same facts about the directory
/// `name` in it.
pub proof fn lemma_same_subdir(a: Entry, b: Entry, name: Seq<char>)
    requires
        same_but_order(a, b),
    ensures
        has_child(a, name, EntryKind::Dir) == has_child(b, name, EntryKind::Dir),
        subdir_facts(a, name) == subdir_facts(b, name),
{
    lemma_same_children(a, b, name, EntryKind::Dir);
    if has_child(a, name, EntryKind::Dir) {
        let x = a.children@[first_child(a, name, EntryKind::Dir)];
        let y = b.children@[first_child(b, name, EntryKind::Dir)];
        assert(paired(x, y, a));
        lemma_same_facts(x, y);
    }
}

/// Two snapshots of one directory hold the same sidecar text.
pub proof fn lemma_same_sidecar(a: Entry, b: Entry)
    requires
        same_but_order(a, b),
    ensures
        sidecar_text(a) == sidecar_text(b),
{
    lemma_same_children(a, b, MIRRORS_FILE@, EntryKind::File);
    if has_child(a, MIRRORS_FILE@, EntryKind::File) {
        let x = a.children@[first_child(a, MIRRORS_FILE@, EntryKind::File)];
        let y = b.children@[first_child(b, MIRRORS_FILE@, EntryKind::File)];
        assert(paired(x, y, a));
    }
}

/// Two snapshots of one directory agree on whether it is a problem and,
/// taken as a problem, show the same problem.
pub proof fn lemma_same_problem(a: Entry, b: Entry, path: Seq<Seq<char>>)
    requires
        same_but_order(a, b),
    ensures
        spec_is_problem(a) == spec_is_problem(b),
        problem_view(a, path) == problem_view(b, path),
{
    lemma_same_subdir(a, b, STATEMENT_DIR@);
    lemma_same_subdir(a, b, TESTS_DIR@);
    lemma_same_subdir(a, b, EDITORIAL_DIR@);
    lemma_same_subdir(a, b, SOURCES_DIR@);
    lemma_same_sidecar(a, b);
}

/// A name under which the first snapshot takes a directory is one under
/// which the second does.
pub proof fn lemma_name_carries(a: Entry, b: Entry, x: Seq<char>)
    requires
        same_but_order(a, b),
        sorted_names(a).contains(x),
    ensures
        sorted_names(b).contains(x),
{
    let oa = sorted_positions(a);
    let ob = sorted_positions(b);
    let sa = sorted_names(a);
    let sb = sorted_names(b);
    lemma_sorted_positions(a);
    lemma_sorted_positions(b);
    assert(b.children@.len() == b.children.len());
    let k = choose|k: int| 0 <= k < sa.len() && sa[k] == x;
    assert(oa.contains(oa[k]));
    let i = oa[k] as int;
    assert(has_partner(a.children@[i], b, a));
    let j = choose|j: int| 0 <= j < b.children@.len() && paired(a.children@[i], #[trigger] b.children@[j], a);
    let at = j as usize;
    assert(ob.contains(at));
    let m = choose|m: int| 0 <= m < ob.len() && ob[m] == at;
    assert(sb[m] == x);
}

/// A name under which the second snapshot takes a directory is one under
/// which the first does.
pub proof fn lemma_name_carries_back(a: Entry, b: Entry, x: Seq<char>)
    requires
        same_but_order(a, b),
        sorted_names(b).contains(x),
    ensures
        sorted_names(a).contains(x),
{
    let oa = sorted_positions(a);
    let ob = sorted_positions(b);
    let sa = sorted_names(a);
    let sb = sorted_names(b);
    lemma_sorted_positions(a);
    lemma_sorted_positions(b);
    assert(a.children@.len() == a.children.len());
    let k = choose|k: int| 0 <= k < sb.len() && sb[k] == x;
    assert(ob.contains(ob[k]));
    let j = ob[k] as int;
    assert(is_partner(b.children@[j], a));
    let i = choose|i: int| 0 <= i < a.children@.len() && paired(#[trigger] a.children@[i], b.children@[j], a);
    let at = i as usize;
    assert(oa.contains(at));
    let m = choose|m: int| 0 <= m < oa.len() && oa[m] == at;
    assert(sa[m] == x);
}

/// Two snapshots of one directory take its directories under the same
/// names in the same order.
pub proof fn lemma_same_names(a: Entry, b: Entry)
    requires
        same_but_order(a, b),
    ensures
        sorted_names(a) == sorted_names(b),
        sorted_positions(a).len() == sorted_positions(b).len(),
{
    lemma_strict(a);
    lemma_strict(b);
    assert forall|x: Seq<char>| sorted_names(a).contains(x) <==> sorted_names(b).contains(x) by {
        if sorted_names(a).contains(x) {
            lemma_name_carries(a, b, x);
        }
        if sorted_names(b).contains(x) {
            lemma_name_carries_back(a, b, x);
        }
    }
    lemma_strictly_ascending_unique(sorted_names(a), sorted_names(b));
    assert(sorted_names(a).len() == sorted_positions(a).len());
    assert(sorted_names(b).len() == sorted_positions(b).len());
}

/// The directories that two snapshots of one directory take at the same
/// place are two snapshots of one directory.
pub proof fn lemma_same_order_at(a: Entry, b: Entry, k: int)
    requires
        same_but_order(a, b),
        0 <= k < sorted_positions(a).len(),
    ensures
        sorted_positions(a).len() == sorted_positions(b).len(),
        sorted_positions(a)[k] < a.children@.len(),
        sorted_positions(b)[k] < b.children@.len(),
        paired(a.children@[sorted_positions(a)[k] as int], b.children@[sorted_positions(b)[k] as int], a),
{
    let oa = sorted_positions(a);
    let ob = sorted_positions(b);
    lemma_same_names(a, b);
    lemma_sorted_positions(a);
    lemma_sorted_positions(b);
    assert(oa.contains(oa[k]));
    assert(ob.contains(ob[k]));
    let i = oa[k] as int;
    let to = ob[k] as int;
    assert(has_partner(a.children@[i], b, a));
    let j = choose|j: int| 0 <= j < b.children@.len() && paired(a.children@[i], #[trigger] b.children@[j], a);
    assert(sorted_names(a)[k] == a.children@[i].name@);
    assert(sorted_names(b)[k] == b.children@[to].name@);
    if j != to {
        lemma_distinct(b, j, to);
    }
}

/// Where no name stands twice, each directory that is taken has a name that
/// comes after the names of those taken before it.
pub proof fn lemma_strict(dir: Entry)
    requires
        distinct_names(dir),
    ensures
        strictly_ascending(sorted_names(dir)),
{
    let order = sorted_positions(dir);
    let names = sorted_names(dir);
    lemma_sorted_positions(dir);
    lemma_positions_distinct(dir);
    assert forall|i: int, j: int| 0 <= i < j < names.len() implies precedes(#[trigger] names[i], #[trigger] names[j]) by {
        assert(order.contains(order[i]));
        assert(order.contains(order[j]));
        assert(order[i] != order[j]);
        lemma_distinct(dir, order[i] as int, order[j] as int);
        assert(names[i] == child_names(dir)[order[i] as int]);
        assert(names[j] == child_names(dir)[order[j] as int]);
        assert(not_after(child_names(dir)[order[i] as int], child_names(dir)[order[j] as int]));
        lemma_names_totally_ordered(names[i], names[j], names[i]);
    }
}

/// What the first `n` directories give does not depend on the order of the
/// listings.
pub proof fn lemma_same_forest(a: Entry, b: Entry, path: Seq<Seq<char>>, n: nat)
    requires
        same_but_order(a, b),
        n <= sorted_positions(a).len(),
    ensures
        spec_forest(a, path, sorted_positions(a), n) == spec_forest(b, path, sorted_positions(b), n),
    decreases a, 0nat, n,
{
    if n > 0 {
        lemma_same_order_at(a, b, n - 1);
        lemma_same_forest(a, b, path, (n - 1) as nat);
        let x = a.children@[sorted_positions(a)[n - 1] as int];
        let y = b.children@[sorted_positions(b)[n - 1] as int];
        assert(paired(x, y, a));
        lemma_same_tree(x, y, path.push(x.name@));
    }
}

/// The output does not depend on the order in which directories are
/// listed: two snapshots of one hierarchy give the same pruned hierarchy,
/// node for node.
pub proof fn lemma_same_tree(a: Entry, b: Entry, path: Seq<Seq<char>>)
    requires
        same_but_order(a, b),
    ensures
        spec_tree(a, path) == spec_tree(b, path),
    decreases a, 1nat, 0nat,
{
    lemma_same_problem(a, b, path);
    if !spec_is_problem(a) {
        lemma_same_names(a, b);
        lemma_same_forest(a, b, path, sorted_positions(a).len());
    }
}

/// No rendered output depends on the order in which directories are
/// listed: two snapshots of one hierarchy give the same problems in the
/// same order, the same flat table, the same nested report, and the same
/// text for the file of the directory.
pub proof fn lemma_same_reports(a: Entry, b: Entry, path: Seq<Seq<char>>, options: Options)
    requires
        same_but_order(a, b),
    ensures
        leaves(spec_tree(a, path)) == leaves(spec_tree(b, path)),
        spec_table(leaves(spec_tree(a, path)), path) == spec_table(leaves(spec_tree(b, path)), path),
        spec_readme(spec_tree(a, path), path) == spec_readme(spec_tree(b, path), path),
        readme_text(a) == readme_text(b),
        spec_create_readme(a, path, options) == spec_create_readme(b, path, options),
{
    lemma_same_tree(a, b, path);
    lemma_same_children(a, b, README_FILE@, EntryKind::File);
    if has_child(a, README_FILE@, EntryKind::File) {
        let x = a.children@[first_child(a, README_FILE@, EntryKind::File)];
        let y = b.children@[first_child(b, README_FILE@, EntryKind::File)];
        assert(paired(x, y, a));
    }
}

} // verus!
