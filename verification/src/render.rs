//! The pruned hierarchy as markdown: one flat table, or headings with a
//! table under each run of problems.

use crate::mirrors::{mirror_cell, mirrors_cell};
use crate::snapshot::{same_text, Entry};
use crate::tree::{
    build_tree, collect_problems, leaves, lemma_tree, path_view, problem_views, spec_tree, starts_with,
    tree_views, Problem, ProblemView, Tree, TreeView,
};
use crate::verdict::{classify, spec_classify, verdict_text, DirFacts};
use vstd::prelude::*;

verus! {

/// The first line of a table: the names of the columns.
pub const TABLE_TITLES: &'static str = "| Nume | Enunt | Teste | Editorial | Surse | Mirrors |\n";

/// The second line of a table.
pub const TABLE_RULE: &'static str = "| ---- | ----- | ----- | --------- | ----- | ------- |\n";

/// A report cannot be written: a required directory of a problem counts as
/// empty and is marked as broken as well.
#[derive(Clone, Copy, Debug, PartialEq, Eq, Structural)]
pub struct Conflict {
    /// Where the first such problem stands in the sequence that was to be
    /// rendered.
    pub position: usize,
}

/// The two lines that open a table.
pub open spec fn table_head() -> Seq<char> {
    TABLE_TITLES@ + TABLE_RULE@
}

/// The last name of a path; nothing for the empty path.
pub open spec fn dirname(path: Seq<Seq<char>>) -> Seq<char> {
    if path.len() > 0 {
        path.last()
    } else {
        Seq::empty()
    }
}

/// The names with a slash between two of them, and nothing in front or
/// behind.
pub open spec fn joined(names: Seq<Seq<char>>) -> Seq<char>
    decreases names.len(),
{
    if names.len() == 0 {
        Seq::empty()
    } else if names.len() == 1 {
        names[0]
    } else {
        joined(names.drop_last()) + "/"@ + names.last()
    }
}

/// How a problem at `path` is called in the table of the directory at
/// `prefix`: by the names that lead from there to it, with a slash between
/// two of them. The directory at `prefix` itself has the empty name, and so
/// has a path that does not begin with `prefix`.
pub open spec fn relative_name(path: Seq<Seq<char>>, prefix: Seq<Seq<char>>) -> Seq<char> {
    if starts_with(path, prefix) {
        joined(path.skip(prefix.len() as int))
    } else {
        Seq::empty()
    }
}

/// The level of the heading of the directory at `path` in the report of the
/// directory at `prefix`: the number of names of `path` behind the parent of
/// `prefix`, so that `prefix` itself has level 1. A path that does not
/// begin with the parent of `prefix` has level 0.
pub open spec fn heading_level(path: Seq<Seq<char>>, prefix: Seq<Seq<char>>) -> nat {
    let parent = if prefix.len() > 0 {
        prefix.drop_last()
    } else {
        prefix
    };
    if starts_with(path, parent) {
        (path.len() - prefix.len() + 1) as nat
    } else {
        0
    }
}

/// `n` hash signs.
pub open spec fn hashes(n: nat) -> Seq<char> {
    Seq::new(n, |i: int| '#')
}

/// The heading of the directory at `path` in the report of the directory at
/// `prefix`, with the empty line behind it.
pub open spec fn heading_text(path: Seq<Seq<char>>, prefix: Seq<Seq<char>>) -> Seq<char> {
    hashes(heading_level(path, prefix)) + " "@ + dirname(path) + "\n\n"@
}

/// The cell for a required directory; nothing where no verdict can be given.
pub open spec fn cell_text(facts: DirFacts) -> Seq<char> {
    match spec_classify(facts) {
        Ok(v) => verdict_text(v),
        Err(_) => Seq::empty(),
    }
}

/// The row of a problem that is called `name`.
pub open spec fn row_text(name: Seq<char>, p: ProblemView) -> Seq<char> {
    "| "@ + name + " | "@ + cell_text(p.statement) + " | "@ + cell_text(p.tests) + " | "@ + cell_text(
        p.editorial,
    ) + " | "@ + cell_text(p.sources) + " | "@ + mirror_cell(p.mirrors) + " |\n"@
}

/// A required directory of the problem has no verdict.
pub open spec fn has_conflict(p: ProblemView) -> bool {
    spec_classify(p.statement) is Err || spec_classify(p.tests) is Err || spec_classify(p.editorial) is Err
        || spec_classify(p.sources) is Err
}

/// The node is a problem of which a required directory has no verdict.
pub open spec fn node_has_conflict(node: TreeView) -> bool {
    match node {
        TreeView::Leaf(p) => has_conflict(p),
        TreeView::Node(_) => false,
    }
}

/// The first position below `n` at which `flags` holds.
pub open spec fn first_true(flags: Seq<bool>, n: int) -> Option<int>
    decreases n,
{
    if n <= 0 || n > flags.len() {
        None
    } else {
        match first_true(flags, n - 1) {
            Some(i) => Some(i),
            None => if flags[n - 1] {
                Some(n - 1)
            } else {
                None
            },
        }
    }
}

/// Which of the problems have a conflict.
pub open spec fn problem_flags(problems: Seq<ProblemView>) -> Seq<bool> {
    Seq::new(problems.len(), |i: int| has_conflict(problems[i]))
}

/// Which of the nodes have a conflict.
pub open spec fn node_flags(nodes: Seq<TreeView>) -> Seq<bool> {
    Seq::new(nodes.len(), |i: int| node_has_conflict(nodes[i]))
}

/// The rows of the first `n` problems.
pub open spec fn flat_rows(problems: Seq<ProblemView>, prefix: Seq<Seq<char>>, n: int) -> Seq<char>
    decreases n,
{
    if n <= 0 || n > problems.len() {
        Seq::empty()
    } else {
        flat_rows(problems, prefix, n - 1) + row_text(
            relative_name(problems[n - 1].path, prefix),
            problems[n - 1],
        )
    }
}

/// The flat table of the problems for the directory at `prefix`: the head and
/// one row for each problem, or the first conflict.
pub open spec fn spec_table(problems: Seq<ProblemView>, prefix: Seq<Seq<char>>) -> Result<Seq<char>, Conflict> {
    match first_true(problem_flags(problems), problems.len() as int) {
        Some(i) => Err(Conflict { position: i as usize }),
        None => Ok(table_head() + flat_rows(problems, prefix, problems.len() as int)),
    }
}

/// What the node at position `i` adds to the report. A directory adds its
/// heading, behind an empty line where a table stands in front of it. A
/// problem adds its row, behind the head of a table where no row stands in
/// front of it.
pub open spec fn node_text(nodes: Seq<TreeView>, prefix: Seq<Seq<char>>, i: int) -> Seq<char> {
    let after_row = i > 0 && nodes[i - 1] is Leaf;
    match nodes[i] {
        TreeView::Node(path) => (if after_row {
            "\n"@
        } else {
            Seq::empty()
        }) + heading_text(path, prefix),
        TreeView::Leaf(p) => (if after_row {
            Seq::empty()
        } else {
            table_head()
        }) + row_text(dirname(p.path), p),
    }
}

/// What the first `n` nodes add to the report.
pub open spec fn tree_text(nodes: Seq<TreeView>, prefix: Seq<Seq<char>>, n: int) -> Seq<char>
    decreases n,
{
    if n <= 0 || n > nodes.len() {
        Seq::empty()
    } else {
        tree_text(nodes, prefix, n - 1) + node_text(nodes, prefix, n - 1)
    }
}

/// The nested report of the nodes for the directory at `prefix`, or the
/// first conflict.
pub open spec fn spec_readme(nodes: Seq<TreeView>, prefix: Seq<Seq<char>>) -> Result<Seq<char>, Conflict> {
    match first_true(node_flags(nodes), nodes.len() as int) {
        Some(i) => Err(Conflict { position: i as usize }),
        None => Ok(tree_text(nodes, prefix, nodes.len() as int)),
    }
}

/// A rendering as a mathematical value.
pub open spec fn rendered(r: Result<String, Conflict>) -> Result<Seq<char>, Conflict> {
    match r {
        Ok(s) => Ok(s@),
        Err(c) => Err(c),
    }
}

/// What `first_true` finds: the least position below `n` at which `flags`
/// holds, or nothing where it holds at none of them.
pub proof fn lemma_first_true(flags: Seq<bool>, n: int)
    requires
        0 <= n <= flags.len(),
    ensures
        match first_true(flags, n) {
            Some(i) => 0 <= i < n && flags[i] && forall|j: int| 0 <= j < i ==> !flags[j],
            None => forall|j: int| 0 <= j < n ==> !flags[j],
        },
    decreases n,
{
    if n > 0 {
        lemma_first_true(flags, n - 1);
    }
}

/// A flat table is written exactly where no problem has a conflict; else
/// the first problem with a conflict is named.
pub proof fn lemma_table_conflicts(problems: Seq<ProblemView>, prefix: Seq<Seq<char>>)
    requires
        problems.len() <= usize::MAX,
    ensures
        spec_table(problems, prefix) is Ok <==> forall|j: int|
            0 <= j < problems.len() ==> !has_conflict(#[trigger] problems[j]),
        spec_table(problems, prefix) matches Err(c) ==> {
            &&& c.position < problems.len()
            &&& has_conflict(problems[c.position as int])
            &&& forall|j: int| 0 <= j < c.position ==> !has_conflict(#[trigger] problems[j])
        },
{
    let flags = problem_flags(problems);
    lemma_first_true(flags, problems.len() as int);
    match first_true(flags, problems.len() as int) {
        Some(i) => {
            assert(flags[i] == has_conflict(problems[i]));
            assert forall|j: int| 0 <= j < i implies !has_conflict(#[trigger] problems[j]) by {
                assert(flags[j] == has_conflict(problems[j]));
            }
        },
        None => {
            assert forall|j: int| 0 <= j < problems.len() implies !has_conflict(#[trigger] problems[j]) by {
                assert(flags[j] == has_conflict(problems[j]));
            }
        },
    }
}

/// A nested report is written exactly where no node has a conflict; else
/// the first node with a conflict is named.
pub proof fn lemma_readme_conflicts(nodes: Seq<TreeView>, prefix: Seq<Seq<char>>)
    requires
        nodes.len() <= usize::MAX,
    ensures
        spec_readme(nodes, prefix) is Ok <==> forall|j: int|
            0 <= j < nodes.len() ==> !node_has_conflict(#[trigger] nodes[j]),
        spec_readme(nodes, prefix) matches Err(c) ==> {
            &&& c.position < nodes.len()
            &&& node_has_conflict(nodes[c.position as int])
            &&& forall|j: int| 0 <= j < c.position ==> !node_has_conflict(#[trigger] nodes[j])
        },
{
    let flags = node_flags(nodes);
    lemma_first_true(flags, nodes.len() as int);
    match first_true(flags, nodes.len() as int) {
        Some(i) => {
            assert(flags[i] == node_has_conflict(nodes[i]));
            assert forall|j: int| 0 <= j < i implies !node_has_conflict(#[trigger] nodes[j]) by {
                assert(flags[j] == node_has_conflict(nodes[j]));
            }
        },
        None => {
            assert forall|j: int| 0 <= j < nodes.len() implies !node_has_conflict(#[trigger] nodes[j]) by {
                assert(flags[j] == node_has_conflict(nodes[j]));
            }
        },
    }
}

/// The first position stays the first when more flags are looked at.
pub proof fn lemma_first_true_stays(flags: Seq<bool>, n: int, m: int)
    requires
        0 <= n <= m <= flags.len(),
        first_true(flags, n) is Some,
    ensures
        first_true(flags, m) == first_true(flags, n),
    decreases m - n,
{
    if n < m {
        lemma_first_true_stays(flags, n, m - 1);
    }
}

/// The level of a heading follows from the path alone: in the report of the
/// directory `dir`, found at `path`, the heading of a directory has as many
/// hash signs as its path has names behind the parent of `path`. The
/// heading of `dir` itself has one.
pub proof fn lemma_heading_levels(dir: Entry, path: Seq<Seq<char>>, i: int)
    requires
        0 <= i < spec_tree(dir, path).len(),
        spec_tree(dir, path)[i] is Node,
    ensures
        heading_level(spec_tree(dir, path)[i]->Node_0, path) == spec_tree(dir, path)[i]->Node_0.len()
            - path.len() + 1,
        heading_level(spec_tree(dir, path)[i]->Node_0, path) >= 1,
        i == 0 ==> heading_level(spec_tree(dir, path)[i]->Node_0, path) == 1,
{
    lemma_tree(dir, path);
    let at = spec_tree(dir, path)[i]->Node_0;
    assert(starts_with(crate::tree::node_path(spec_tree(dir, path)[i]), path));
    if path.len() > 0 {
        assert forall|j: int| 0 <= j < path.drop_last().len() implies at[j] == path.drop_last()[j] by {
            assert(at[j] == path[j]);
        }
    }
}

/// The last name of a path; the empty text for the empty path.
pub fn get_dirname_from_path(path: &Vec<String>) -> (r: &str)
    ensures
        r@ == dirname(path_view(*path)),
{
    if path.len() > 0 {
        path[path.len() - 1].as_str()
    } else {
        proof {
            reveal_strlit("");
            assert(""@ =~= Seq::<char>::empty());
        }
        ""
    }
}

/// Whether `path` begins with the first `n` names of `prefix`.
fn begins_with(path: &Vec<String>, prefix: &Vec<String>, n: usize) -> (r: bool)
    requires
        n <= prefix@.len(),
    ensures
        r == starts_with(path_view(*path), path_view(*prefix).take(n as int)),
{
    if path.len() < n {
        return false;
    }
    let mut i: usize = 0;
    while i < n
        invariant
            i <= n,
            n <= prefix@.len(),
            n <= path@.len(),
            forall|j: int| 0 <= j < i ==> path@[j]@ == prefix@[j]@,
        decreases n - i,
    {
        if !same_text(path[i].as_str(), prefix[i].as_str()) {
            assert(path_view(*path)[i as int] != path_view(*prefix).take(n as int)[i as int]);
            return false;
        }
        i += 1;
    }
    true
}

/// The name of the problem at `path` in the table of the directory at
/// `prefix`: the names of `path` behind `prefix`, with a slash between two
/// of them.
pub fn relative_name_of(path: &Vec<String>, prefix: &Vec<String>) -> (r: String)
    ensures
        r@ == relative_name(path_view(*path), path_view(*prefix)),
{
    let mut r = String::new();
    assert(path_view(*prefix).take(prefix@.len() as int) =~= path_view(*prefix));
    if !begins_with(path, prefix, prefix.len()) {
        return r;
    }
    let ghost rest = path_view(*path).skip(prefix@.len() as int);
    let mut i: usize = prefix.len();
    assert(rest.take(0) =~= Seq::empty());
    while i < path.len()
        invariant
            prefix@.len() <= i <= path@.len(),
            rest == path_view(*path).skip(prefix@.len() as int),
            r@ == joined(rest.take(i - prefix@.len())),
        decreases path@.len() - i,
    {
        proof {
            let k = i - prefix@.len();
            assert(rest.take(k + 1).drop_last() =~= rest.take(k));
            assert(rest.take(k + 1).last() == path@[i as int]@);
            assert(rest.take(k + 1).len() == k + 1);
            if k == 0 {
                assert(rest.take(1)[0] == path@[i as int]@);
            }
        }
        if i > prefix.len() {
            r.append("/");
            r.append(path[i].as_str());
        } else {
            r.append(path[i].as_str());
            assert(r@ =~= path@[i as int]@);
        }
        i += 1;
    }
    assert(rest.take(i - prefix@.len()) =~= rest);
    r
}

/// The heading of the directory at `path` in the report of the directory at
/// `prefix`: as many hash signs as `path` has names behind the parent of
/// `prefix`, the last name of `path`, and an empty line.
pub fn heading_of(path: &Vec<String>, prefix: &Vec<String>) -> (r: String)
    ensures
        r@ == heading_text(path_view(*path), path_view(*prefix)),
{
    let mut r = String::new();
    let parent: usize = if prefix.len() > 0 {
        prefix.len() - 1
    } else {
        0
    };
    proof {
        reveal_strlit("#");
        assert(r@ =~= hashes(0));
        assert(path_view(*prefix).take(parent as int) =~= if prefix@.len() > 0 {
            path_view(*prefix).drop_last()
        } else {
            path_view(*prefix)
        });
    }
    if begins_with(path, prefix, parent) {
        let mut i: usize = parent;
        while i < path.len()
            invariant
                parent <= i <= path@.len(),
                r@ == hashes((i - parent) as nat),
            decreases path@.len() - i,
        {
            r.append("#");
            proof {
                reveal_strlit("#");
                assert(r@ =~= hashes((i + 1 - parent) as nat));
            }
            i += 1;
        }
        if prefix.len() == 0 {
            r.append("#");
            proof {
                reveal_strlit("#");
                assert(r@ =~= hashes((path@.len() + 1) as nat));
            }
        }
    }
    r.append(" ");
    r.append(get_dirname_from_path(path));
    r.append("\n\n");
    r
}

/// The word for a required directory with these facts.
fn cell_of(facts: DirFacts) -> (r: &'static str)
    ensures
        r@ == cell_text(facts),
{
    match classify(facts) {
        Ok(v) => v.label(),
        Err(_) => {
            proof {
                reveal_strlit("");
                assert(""@ =~= Seq::<char>::empty());
            }
            ""
        },
    }
}

/// The row of a problem under the name given.
pub fn row_of(name: &str, problem: &Problem) -> (r: String)
    ensures
        r@ == row_text(name@, problem@),
{
    let mirrors = mirrors_cell(&problem.mirrors);
    let mut r = String::from_str("| ");
    r.append(name);
    r.append(" | ");
    r.append(cell_of(problem.statement));
    r.append(" | ");
    r.append(cell_of(problem.tests));
    r.append(" | ");
    r.append(cell_of(problem.editorial));
    r.append(" | ");
    r.append(cell_of(problem.sources));
    r.append(" | ");
    r.append(mirrors.as_str());
    r.append(" |\n");
    r
}

/// Whether a required directory of the problem has no verdict.
pub fn in_conflict(problem: &Problem) -> (r: bool)
    ensures
        r == has_conflict(problem@),
{
    classify(problem.statement).is_err() || classify(problem.tests).is_err() || classify(
        problem.editorial,
    ).is_err() || classify(problem.sources).is_err()
}

/// The flat table of the problems `files` for the directory at `prefix`:
/// the head, then a row for each problem in the order given, under the name
/// that leads from `prefix` to it. Where a required directory of a problem
/// has no verdict there is no table, and the first such problem is named.
pub fn markdown_from_problems(files: &Vec<Problem>, prefix: &Vec<String>) -> (r: Result<String, Conflict>)
    ensures
        rendered(r) == spec_table(problem_views(files@), path_view(*prefix)),
{
    let ghost problems = problem_views(files@);
    let ghost flags = problem_flags(problems);
    let mut result = String::new();
    result.append(TABLE_TITLES);
    result.append(TABLE_RULE);
    assert(result@ =~= table_head() + flat_rows(problems, path_view(*prefix), 0));
    let mut i: usize = 0;
    while i < files.len()
        invariant
            i <= files@.len(),
            problems == problem_views(files@),
            flags == problem_flags(problems),
            first_true(flags, i as int) is None,
            result@ == table_head() + flat_rows(problems, path_view(*prefix), i as int),
        decreases files@.len() - i,
    {
        let e = &files[i];
        assert(problems[i as int] == e@);
        if in_conflict(e) {
            proof {
                assert(first_true(flags, i + 1) == Some(i as int));
                lemma_first_true_stays(flags, i + 1, files@.len() as int);
            }
            return Err(Conflict { position: i });
        }
        let name = relative_name_of(&e.path, prefix);
        let row = row_of(name.as_str(), e);
        let ghost before = flat_rows(problems, path_view(*prefix), i as int);
        result.append(row.as_str());
        assert(result@ =~= table_head() + (before + row@));
        i += 1;
    }
    Ok(result)
}

/// The nested report of the nodes `tree` for the directory at `prefix`. A
/// directory gives a heading whose level is the number of names of its path
/// behind the parent of `prefix`; a run of problems gives a table with one
/// row for each, under its last name; an empty line closes a table in front
/// of a heading. Where a required directory of a problem has no verdict
/// there is no report, and the first such node is named.
pub fn markdown_from_tree(tree: &Vec<Tree>, prefix: &Vec<String>) -> (r: Result<String, Conflict>)
    ensures
        rendered(r) == spec_readme(tree_views(tree@), path_view(*prefix)),
{
    let ghost nodes = tree_views(tree@);
    let ghost flags = node_flags(nodes);
    let mut result = String::new();
    let mut started_table = false;
    let mut i: usize = 0;
    while i < tree.len()
        invariant
            i <= tree@.len(),
            nodes == tree_views(tree@),
            flags == node_flags(nodes),
            first_true(flags, i as int) is None,
            started_table == (i > 0 && nodes[i - 1] is Leaf),
            result@ == tree_text(nodes, path_view(*prefix), i as int),
        decreases tree@.len() - i,
    {
        let ghost before = result@;
        assert(nodes[i as int] == tree@[i as int]@);
        match &tree[i] {
            Tree::Node(path) => {
                if started_table {
                    result.append("\n");
                    started_table = false;
                }
                let heading = heading_of(path, prefix);
                result.append(heading.as_str());
                assert(result@ =~= before + node_text(nodes, path_view(*prefix), i as int));
            },
            Tree::Leaf(problem) => {
                if in_conflict(problem) {
                    proof {
                        assert(first_true(flags, i + 1) == Some(i as int));
                        lemma_first_true_stays(flags, i + 1, tree@.len() as int);
                    }
                    return Err(Conflict { position: i });
                }
                if !started_table {
                    started_table = true;
                    result.append(TABLE_TITLES);
                    result.append(TABLE_RULE);
                }
                let row = row_of(get_dirname_from_path(&problem.path), problem);
                result.append(row.as_str());
                assert(result@ =~= before + node_text(nodes, path_view(*prefix), i as int));
            },
        }
        i += 1;
    }
    Ok(result)
}

/// The flat table of the problems at and below `dir`, which is found at
/// `path`.
pub fn make_markdown_table(dir: &Entry, path: &Vec<String>) -> (r: Result<String, Conflict>)
    ensures
        rendered(r) == spec_table(leaves(spec_tree(*dir, path_view(*path))), path_view(*path)),
{
    let mut problems: Vec<Problem> = Vec::new();
    collect_problems(dir, path, &mut problems);
    assert(problem_views(problems@) =~= leaves(spec_tree(*dir, path_view(*path))));
    markdown_from_problems(&problems, path)
}

/// The nested report of the pruned hierarchy of `dir`, which is found at
/// `path`.
pub fn make_markdown_readme(dir: &Entry, path: &Vec<String>) -> (r: Result<String, Conflict>)
    ensures
        rendered(r) == spec_readme(spec_tree(*dir, path_view(*path)), path_view(*path)),
{
    let mut tree: Vec<Tree> = Vec::new();
    build_tree(dir, path, &mut tree);
    assert(tree_views(tree@) =~= spec_tree(*dir, path_view(*path)));
    markdown_from_tree(&tree, path)
}

} // verus!
