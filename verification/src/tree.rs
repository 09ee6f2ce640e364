//! The pruned hierarchy: the problems of a snapshot and the directories
//! that lead to them.

use crate::mirrors::option_text;
use crate::names::not_after;
use crate::snapshot::{
    child_names, distinct_names, entry_is, find_child, has_child, is_problem, lemma_distinct,
    lemma_sorted_positions, sorted_dirs, sorted_positions, spec_is_problem, Entry, EntryKind, EDITORIAL_DIR,
    SOURCES_DIR, STATEMENT_DIR, TESTS_DIR,
};
use crate::verdict::{facts_of, spec_facts, DirFacts};
use vstd::prelude::*;

verus! {

/// The name of the sidecar file that lists the mirrors of a problem.
pub const MIRRORS_FILE: &'static str = "mirrors.json";

/// A problem: where it is, what its four required directories hold, and the
/// text of its sidecar, if it has one.
#[derive(Debug)]
pub struct Problem {
    /// The path of the problem, one name per directory.
    pub path: Vec<String>,
    pub statement: DirFacts,
    pub tests: DirFacts,
    pub editorial: DirFacts,
    pub sources: DirFacts,
    /// The text of `mirrors.json`.
    pub mirrors: Option<String>,
}

/// A node of the pruned hierarchy.
#[derive(Debug)]
pub enum Tree {
    /// A directory that is no problem and leads to one.
    Node(Vec<String>),
    /// A problem.
    Leaf(Problem),
}

/// A problem as a mathematical value.
pub struct ProblemView {
    pub path: Seq<Seq<char>>,
    pub statement: DirFacts,
    pub tests: DirFacts,
    pub editorial: DirFacts,
    pub sources: DirFacts,
    pub mirrors: Option<Seq<char>>,
}

/// A node as a mathematical value.
pub enum TreeView {
    Node(Seq<Seq<char>>),
    Leaf(ProblemView),
}

/// A path as a sequence of names.
pub open spec fn path_view(path: Vec<String>) -> Seq<Seq<char>> {
    path@.map_values(|s: String| s@)
}

impl View for Problem {
    type V = ProblemView;

    open spec fn view(&self) -> ProblemView {
        ProblemView {
            path: path_view(self.path),
            statement: self.statement,
            tests: self.tests,
            editorial: self.editorial,
            sources: self.sources,
            mirrors: option_text(self.mirrors),
        }
    }
}

impl View for Tree {
    type V = TreeView;

    open spec fn view(&self) -> TreeView {
        match self {
            Tree::Node(path) => TreeView::Node(path_view(*path)),
            Tree::Leaf(problem) => TreeView::Leaf(problem@),
        }
    }
}

/// A sequence of nodes as mathematical values.
pub open spec fn tree_views(nodes: Seq<Tree>) -> Seq<TreeView> {
    nodes.map_values(|t: Tree| t@)
}

/// A sequence of problems as mathematical values.
pub open spec fn problem_views(problems: Seq<Problem>) -> Seq<ProblemView> {
    problems.map_values(|p: Problem| p@)
}

/// The first entry of `dir` with this name and kind.
pub open spec fn first_child(dir: Entry, name: Seq<char>, kind: EntryKind) -> int {
    choose|i: int|
        0 <= i < dir.children@.len() && entry_is(#[trigger] dir.children@[i], name, kind) && forall|j: int|
            0 <= j < i ==> !entry_is(#[trigger] dir.children@[j], name, kind)
}

/// The facts about the directory `name` in `dir`; those of a directory
/// without entries where there is none.
pub open spec fn subdir_facts(dir: Entry, name: Seq<char>) -> DirFacts {
    if has_child(dir, name, EntryKind::Dir) {
        spec_facts(dir.children@[first_child(dir, name, EntryKind::Dir)])
    } else {
        DirFacts { entries: 0, has_missing: false, has_broken: false }
    }
}

/// The text of the sidecar of `dir`.
pub open spec fn sidecar_text(dir: Entry) -> Option<Seq<char>> {
    if has_child(dir, MIRRORS_FILE@, EntryKind::File) {
        option_text(dir.children@[first_child(dir, MIRRORS_FILE@, EntryKind::File)].text)
    } else {
        None
    }
}

/// The directory `dir`, found at `path`, taken as a problem.
pub open spec fn problem_view(dir: Entry, path: Seq<Seq<char>>) -> ProblemView {
    ProblemView {
        path: path,
        statement: subdir_facts(dir, STATEMENT_DIR@),
        tests: subdir_facts(dir, TESTS_DIR@),
        editorial: subdir_facts(dir, EDITORIAL_DIR@),
        sources: subdir_facts(dir, SOURCES_DIR@),
        mirrors: sidecar_text(dir),
    }
}

/// The pruned hierarchy below and including `dir`, which is found at `path`,
/// in pre-order: a problem is one leaf and is not looked into; any other
/// directory stands in front of what its directories give, taken in
/// ascending order of their names, and is left out where they give nothing.
pub open spec fn spec_tree(dir: Entry, path: Seq<Seq<char>>) -> Seq<TreeView>
    decreases dir, 1nat, 0nat,
{
    if spec_is_problem(dir) {
        seq![TreeView::Leaf(problem_view(dir, path))]
    } else {
        let order = sorted_positions(dir);
        let below = spec_forest(dir, path, order, order.len());
        if below.len() == 0 {
            Seq::empty()
        } else {
            seq![TreeView::Node(path)] + below
        }
    }
}

/// What the first `n` of the directories `order` of `dir` give, one after
/// the other.
pub open spec fn spec_forest(dir: Entry, path: Seq<Seq<char>>, order: Seq<usize>, n: nat) -> Seq<TreeView>
    decreases dir, 0nat, n,
{
    if n == 0 || n > order.len() {
        Seq::empty()
    } else {
        let p = order[n - 1] as int;
        let front = spec_forest(dir, path, order, (n - 1) as nat);
        if p < dir.children@.len() {
            front + spec_tree(dir.children@[p], path.push(dir.children@[p].name@))
        } else {
            front
        }
    }
}

/// The problems among the nodes, in their order.
pub open spec fn leaves(nodes: Seq<TreeView>) -> Seq<ProblemView>
    decreases nodes.len(),
{
    if nodes.len() == 0 {
        Seq::empty()
    } else {
        match nodes.last() {
            TreeView::Leaf(p) => leaves(nodes.drop_last()).push(p),
            TreeView::Node(_) => leaves(nodes.drop_last()),
        }
    }
}

/// The paths of the directories among the nodes that are no problems, in
/// their order.
pub open spec fn branches(nodes: Seq<TreeView>) -> Seq<Seq<Seq<char>>>
    decreases nodes.len(),
{
    if nodes.len() == 0 {
        Seq::empty()
    } else {
        match nodes.last() {
            TreeView::Node(path) => branches(nodes.drop_last()).push(path),
            TreeView::Leaf(_) => branches(nodes.drop_last()),
        }
    }
}

/// `dir` is a problem, or a directory somewhere below it is one and can be
/// reached through directories that are no problems.
pub open spec fn leads_to_problem(dir: Entry) -> bool
    decreases dir,
{
    spec_is_problem(dir) || exists|i: int|
        0 <= i < dir.children@.len() && is_dir_that_leads(#[trigger] dir.children@[i], dir)
}

/// `child`, an entry of `dir`, is a directory that leads to a problem.
pub open spec fn is_dir_that_leads(child: Entry, dir: Entry) -> bool
    decreases dir, 0nat,
{
    decreases_to!(dir => child) && child.kind == EntryKind::Dir && leads_to_problem(child)
}

/// The path of a node.
pub open spec fn node_path(node: TreeView) -> Seq<Seq<char>> {
    match node {
        TreeView::Node(path) => path,
        TreeView::Leaf(p) => p.path,
    }
}

/// `path` begins with the names of `prefix`.
pub open spec fn starts_with(path: Seq<Seq<char>>, prefix: Seq<Seq<char>>) -> bool {
    prefix.len() <= path.len() && forall|i: int| 0 <= i < prefix.len() ==> path[i] == prefix[i]
}

/// What the first `n` directories give is something exactly where one of
/// them leads to a problem, and every path in it begins with `path`.
pub proof fn lemma_forest(dir: Entry, path: Seq<Seq<char>>, order: Seq<usize>, n: nat)
    requires
        n <= order.len(),
        forall|k: int| 0 <= k < order.len() ==> #[trigger] order[k] < dir.children@.len(),
    ensures
        spec_forest(dir, path, order, n).len() > 0 <==> exists|k: int|
            0 <= k < n && leads_to_problem(dir.children@[#[trigger] order[k] as int]),
        forall|i: int|
            0 <= i < spec_forest(dir, path, order, n).len() ==> starts_with(
                node_path(#[trigger] spec_forest(dir, path, order, n)[i]),
                path,
            ),
        leaves(spec_forest(dir, path, order, n)).len() > 0 <==> spec_forest(dir, path, order, n).len() > 0,
    decreases dir, 0nat, n,
{
    if n > 0 {
        let p = order[n - 1] as int;
        let child = dir.children@[p];
        let at = path.push(child.name@);
        let front = spec_forest(dir, path, order, (n - 1) as nat);
        lemma_forest(dir, path, order, (n - 1) as nat);
        lemma_tree(child, at);
        let all = spec_forest(dir, path, order, n);
        assert(all == front + spec_tree(child, at));
        lemma_leaves_add(front, spec_tree(child, at));
        if all.len() > 0 {
            if front.len() > 0 {
                let k = choose|k: int|
                    0 <= k < n - 1 && leads_to_problem(dir.children@[#[trigger] order[k] as int]);
                assert(leads_to_problem(dir.children@[order[k] as int]));
            } else {
                assert(leads_to_problem(dir.children@[order[n - 1] as int]));
            }
        }
        if exists|k: int| 0 <= k < n && leads_to_problem(dir.children@[#[trigger] order[k] as int]) {
            let k = choose|k: int| 0 <= k < n && leads_to_problem(dir.children@[#[trigger] order[k] as int]);
            if k < n - 1 {
                assert(front.len() > 0);
            }
        }
        assert forall|i: int| 0 <= i < all.len() implies starts_with(node_path(#[trigger] all[i]), path) by {
            if i >= front.len() {
                assert(all[i] == spec_tree(child, at)[i - front.len()]);
                assert(starts_with(node_path(all[i]), at));
                assert forall|j: int| 0 <= j < path.len() implies node_path(all[i])[j] == path[j] by {
                    assert(at[j] == path[j]);
                }
            } else {
                assert(all[i] == front[i]);
            }
        }
    }
}

/// The pruning: the hierarchy of `dir` holds something exactly where `dir`
/// is a problem or leads to one, and then it holds a problem. A problem
/// gives its one leaf; any other directory that leads to a problem stands
/// first, as a node. Every path in the hierarchy begins with the path of
/// `dir`.
pub proof fn lemma_tree(dir: Entry, path: Seq<Seq<char>>)
    ensures
        spec_tree(dir, path).len() > 0 <==> leads_to_problem(dir),
        spec_is_problem(dir) ==> spec_tree(dir, path) == seq![TreeView::Leaf(problem_view(dir, path))],
        !spec_is_problem(dir) && leads_to_problem(dir) ==> spec_tree(dir, path)[0] == TreeView::Node(path),
        forall|i: int|
            0 <= i < spec_tree(dir, path).len() ==> starts_with(node_path(#[trigger] spec_tree(dir, path)[i]), path),
        leaves(spec_tree(dir, path)).len() > 0 <==> leads_to_problem(dir),
    decreases dir, 1nat, 0nat,
{
    if spec_is_problem(dir) {
        let leaf = spec_tree(dir, path);
        assert(leaf.drop_last() =~= Seq::empty());
        assert(leaves(leaf.drop_last()) =~= Seq::empty());
    } else {
        let order = sorted_positions(dir);
        let below = spec_forest(dir, path, order, order.len());
        lemma_sorted_positions(dir);
        assert forall|k: int| 0 <= k < order.len() implies #[trigger] order[k] < dir.children@.len() by {
            assert(order.contains(order[k]));
        }
        lemma_forest(dir, path, order, order.len());
        if below.len() > 0 {
            let k = choose|k: int|
                0 <= k < order.len() && leads_to_problem(dir.children@[#[trigger] order[k] as int]);
            assert(order.contains(order[k]));
            assert(is_dir_that_leads(dir.children@[order[k] as int], dir));
        }
        if leads_to_problem(dir) {
            let i = choose|i: int|
                0 <= i < dir.children@.len() && is_dir_that_leads(#[trigger] dir.children@[i], dir);
            assert(dir.children@.len() == dir.children.len());
            let at = i as usize;
            assert(at as int == i);
            assert(order.contains(at));
            let k = choose|k: int| 0 <= k < order.len() && order[k] == at;
            assert(leads_to_problem(dir.children@[order[k] as int]));
        }
        let all = spec_tree(dir, path);
        assert forall|i: int| 0 <= i < all.len() implies starts_with(node_path(#[trigger] all[i]), path) by {
            if i > 0 {
                assert(all[i] == below[i - 1]);
            }
        }
        if below.len() > 0 {
            let node = seq![TreeView::Node(path)];
            lemma_leaves_add(node, below);
            assert(node.drop_last() =~= Seq::empty());
            assert(leaves(node.drop_last()) =~= Seq::empty());
            assert(leaves(node) =~= Seq::empty());
            assert(Seq::<ProblemView>::empty() + leaves(below) =~= leaves(below));
        }
    }
}

/// The directories among two runs of nodes are those of the first run and
/// then those of the second.
pub proof fn lemma_branches_add(a: Seq<TreeView>, b: Seq<TreeView>)
    ensures
        branches(a + b) == branches(a) + branches(b),
    decreases b.len(),
{
    if b.len() == 0 {
        assert(a + b =~= a);
        assert(branches(a) + branches(b) =~= branches(a));
    } else {
        lemma_branches_add(a, b.drop_last());
        assert((a + b).drop_last() =~= a + b.drop_last());
        assert((a + b).last() == b.last());
        match b.last() {
            TreeView::Node(path) => {
                assert((branches(a) + branches(b.drop_last())).push(path) =~= branches(a) + branches(
                    b.drop_last(),
                ).push(path));
            },
            TreeView::Leaf(_) => {},
        }
    }
}

/// The problems among two runs of nodes are those of the first run and
/// then those of the second.
pub proof fn lemma_leaves_add(a: Seq<TreeView>, b: Seq<TreeView>)
    ensures
        leaves(a + b) == leaves(a) + leaves(b),
    decreases b.len(),
{
    if b.len() == 0 {
        assert(a + b =~= a);
        assert(leaves(a) + leaves(b) =~= leaves(a));
    } else {
        lemma_leaves_add(a, b.drop_last());
        assert((a + b).drop_last() =~= a + b.drop_last());
        assert((a + b).last() == b.last());
        match b.last() {
            TreeView::Leaf(p) => {
                assert((leaves(a) + leaves(b.drop_last())).push(p) =~= leaves(a) + leaves(b.drop_last()).push(
                    p,
                ));
            },
            TreeView::Node(_) => {},
        }
    }
}

/// What the first `k` directories give stands at the front of what the
/// first `n` give.
pub proof fn lemma_forest_prefix(dir: Entry, path: Seq<Seq<char>>, order: Seq<usize>, k: nat, n: nat)
    requires
        k <= n <= order.len(),
    ensures
        spec_forest(dir, path, order, k).len() <= spec_forest(dir, path, order, n).len(),
        spec_forest(dir, path, order, n).take(spec_forest(dir, path, order, k).len() as int) == spec_forest(
            dir,
            path,
            order,
            k,
        ),
    decreases n - k,
{
    let front = spec_forest(dir, path, order, k);
    let all = spec_forest(dir, path, order, n);
    if k < n {
        lemma_forest_prefix(dir, path, order, k, (n - 1) as nat);
        let most = spec_forest(dir, path, order, (n - 1) as nat);
        assert(most.take(front.len() as int) == front);
        assert(all.take(front.len() as int) =~= most.take(front.len() as int));
    } else {
        assert(all.take(front.len() as int) =~= front);
    }
}

/// The hierarchy of each directory stands in one piece in what the
/// directories give together, behind what the directories in front of it
/// give.
pub proof fn lemma_forest_run(dir: Entry, path: Seq<Seq<char>>, order: Seq<usize>, k: nat, n: nat)
    requires
        k < n <= order.len(),
        order[k as int] < dir.children@.len(),
    ensures
        spec_forest(dir, path, order, k + 1) == spec_forest(dir, path, order, k) + child_tree(
            dir,
            path,
            order[k as int] as int,
        ),
        spec_forest(dir, path, order, k + 1).len() <= spec_forest(dir, path, order, n).len(),
        spec_forest(dir, path, order, n).subrange(
            spec_forest(dir, path, order, k).len() as int,
            spec_forest(dir, path, order, k + 1).len() as int,
        ) == child_tree(dir, path, order[k as int] as int),
{
    let front = spec_forest(dir, path, order, k);
    let with = spec_forest(dir, path, order, k + 1);
    let all = spec_forest(dir, path, order, n);
    let tree = child_tree(dir, path, order[k as int] as int);
    lemma_forest_prefix(dir, path, order, k + 1, n);
    assert(with == front + tree);
    assert(all.take(with.len() as int) == with);
    assert forall|j: int| 0 <= j < tree.len() implies all.subrange(front.len() as int, with.len() as int)[j]
        == tree[j] by {
        assert(all.take(with.len() as int)[front.len() + j] == all[front.len() + j]);
        assert(with[front.len() + j] == tree[j]);
    }
    assert(all.subrange(front.len() as int, with.len() as int) =~= tree);
}

/// The pruned hierarchy of the entry at position `p` of `dir`.
pub open spec fn child_tree(dir: Entry, path: Seq<Seq<char>>, p: int) -> Seq<TreeView> {
    spec_tree(dir.children@[p], path.push(dir.children@[p].name@))
}

/// What the directories of `dir` give together.
pub open spec fn spec_below(dir: Entry, path: Seq<Seq<char>>) -> Seq<TreeView> {
    spec_forest(dir, path, sorted_positions(dir), sorted_positions(dir).len())
}

/// Where in `spec_below` the hierarchy of the `k`-th directory begins, the
/// directories counted in ascending order of their names.
pub open spec fn run_start(dir: Entry, path: Seq<Seq<char>>, k: nat) -> int {
    spec_forest(dir, path, sorted_positions(dir), k).len() as int
}

/// The order of the whole output: below a directory the hierarchies of its
/// directories stand one after the other, each in one piece, in ascending
/// order of the directories' names. So of two nodes that stand at or below
/// two different directories of one directory, the one comes first whose
/// directory is taken first, and no directory is taken before one whose name
/// comes before its own.
pub proof fn lemma_sibling_runs(dir: Entry, path: Seq<Seq<char>>, k1: nat, k2: nat)
    requires
        k1 < k2 < sorted_positions(dir).len(),
    ensures
        sorted_positions(dir)[k1 as int] < dir.children@.len(),
        sorted_positions(dir)[k2 as int] < dir.children@.len(),
        not_after(
            dir.children@[sorted_positions(dir)[k1 as int] as int].name@,
            dir.children@[sorted_positions(dir)[k2 as int] as int].name@,
        ),
        run_start(dir, path, k1) <= run_start(dir, path, k1 + 1) <= run_start(dir, path, k2) <= run_start(
            dir,
            path,
            k2 + 1,
        ) <= spec_below(dir, path).len(),
        spec_below(dir, path).subrange(run_start(dir, path, k1), run_start(dir, path, k1 + 1)) == child_tree(
            dir,
            path,
            sorted_positions(dir)[k1 as int] as int,
        ),
        spec_below(dir, path).subrange(run_start(dir, path, k2), run_start(dir, path, k2 + 1)) == child_tree(
            dir,
            path,
            sorted_positions(dir)[k2 as int] as int,
        ),
        !spec_is_problem(dir) && spec_below(dir, path).len() > 0 ==> spec_tree(dir, path) == seq![
            TreeView::Node(path),
        ] + spec_below(dir, path),
{
    let order = sorted_positions(dir);
    lemma_sorted_positions(dir);
    assert(order.contains(order[k1 as int]));
    assert(order.contains(order[k2 as int]));
    assert(child_names(dir)[order[k1 as int] as int] == dir.children@[order[k1 as int] as int].name@);
    assert(child_names(dir)[order[k2 as int] as int] == dir.children@[order[k2 as int] as int].name@);
    lemma_forest_run(dir, path, order, k1, order.len());
    lemma_forest_run(dir, path, order, k2, order.len());
    lemma_forest_prefix(dir, path, order, k1 + 1, k2);
}

/// The directory `d` at `d_path` is the directory `root` at `root_path`, or
/// is reached from it through directories none of which is a problem.
pub open spec fn reaches(root: Entry, root_path: Seq<Seq<char>>, d: Entry, d_path: Seq<Seq<char>>) -> bool
    decreases root,
{
    (d == root && d_path == root_path) || (!spec_is_problem(root) && exists|i: int|
        0 <= i < root.children@.len() && reaches_through(#[trigger] root.children@[i], root, root_path, d, d_path))
}

/// `child`, an entry of `root`, is a directory from which `d` is reached.
pub open spec fn reaches_through(
    child: Entry,
    root: Entry,
    root_path: Seq<Seq<char>>,
    d: Entry,
    d_path: Seq<Seq<char>>,
) -> bool
    decreases root, 0nat,
{
    decreases_to!(root => child) && child.kind == EntryKind::Dir && reaches(
        child,
        root_path.push(child.name@),
        d,
        d_path,
    )
}

/// `part` stands in one piece in `whole`, from position `start` on.
pub open spec fn stands_in(part: Seq<TreeView>, whole: Seq<TreeView>, start: int) -> bool {
    0 <= start && start + part.len() <= whole.len() && whole.subrange(start, start + part.len()) == part
}

/// The pruning, for every directory of a hierarchy: the pruned hierarchy of
/// a directory that is reached from `root` stands in one piece in the
/// pruned hierarchy of `root`. So such a directory that is no problem has
/// its node in the output of `root` where it leads to a problem, and gives
/// nothing to it where it leads to none; one that is a problem has its leaf
/// there.
pub proof fn lemma_reached(root: Entry, root_path: Seq<Seq<char>>, d: Entry, d_path: Seq<Seq<char>>)
    requires
        reaches(root, root_path, d, d_path),
    ensures
        exists|start: int| stands_in(spec_tree(d, d_path), spec_tree(root, root_path), start),
        !leads_to_problem(d) ==> spec_tree(d, d_path).len() == 0,
        leads_to_problem(d) && !spec_is_problem(d) ==> spec_tree(root, root_path).contains(
            TreeView::Node(d_path),
        ),
        spec_is_problem(d) ==> spec_tree(root, root_path).contains(TreeView::Leaf(problem_view(d, d_path))),
    decreases root,
{
    let whole = spec_tree(root, root_path);
    let part = spec_tree(d, d_path);
    lemma_tree(d, d_path);
    if d == root && d_path == root_path {
        assert(whole.subrange(0, whole.len() as int) =~= whole);
        assert(stands_in(part, whole, 0));
    } else {
        let i = choose|i: int|
            0 <= i < root.children@.len() && reaches_through(#[trigger] root.children@[i], root, root_path, d, d_path);
        let child = root.children@[i];
        let order = sorted_positions(root);
        lemma_reached(child, root_path.push(child.name@), d, d_path);
        let tree = child_tree(root, root_path, i);
        let inner = choose|start: int| stands_in(part, tree, start);
        lemma_sorted_positions(root);
        assert(root.children@.len() == root.children.len());
        let at = i as usize;
        assert(at as int == i);
        assert(order.contains(at));
        let k = choose|k: int| 0 <= k < order.len() && order[k] == at;
        lemma_forest_run(root, root_path, order, k as nat, order.len());
        let below = spec_below(root, root_path);
        let first = run_start(root, root_path, k as nat);
        if below.len() == 0 {
            assert(part.len() == 0);
            assert(whole.subrange(0, 0) =~= part);
            assert(stands_in(part, whole, 0));
        } else {
            assert(whole == seq![TreeView::Node(root_path)] + below);
            let start = 1 + first + inner;
            assert forall|j: int| 0 <= j < part.len() implies whole.subrange(start, start + part.len())[j]
                == part[j] by {
                assert(tree.subrange(inner, inner + part.len())[j] == tree[inner + j]);
                assert(below.subrange(first, first + tree.len())[inner + j] == below[first + inner + j]);
                assert(whole[1 + first + inner + j] == below[first + inner + j]);
            }
            assert(whole.subrange(start, start + part.len()) =~= part);
            assert(stands_in(part, whole, start));
        }
    }
    let start = choose|start: int| stands_in(part, whole, start);
    if part.len() > 0 {
        assert(whole.subrange(start, start + part.len())[0] == whole[start]);
        assert(whole.contains(part[0]));
    }
}

/// No directory at or below `root` holds a name twice.
pub open spec fn names_distinct_below(root: Entry) -> bool
    decreases root,
{
    distinct_names(root) && forall|i: int|
        0 <= i < root.children@.len() ==> distinct_in(#[trigger] root.children@[i], root)
}

/// No directory at or below `child`, an entry of `root`, holds a name twice.
pub open spec fn distinct_in(child: Entry, root: Entry) -> bool
    decreases root, 0nat,
{
    decreases_to!(root => child) && names_distinct_below(child)
}

/// The path of a directory that is reached from `root` begins with the path
/// of `root`.
pub proof fn lemma_reaches_path(root: Entry, root_path: Seq<Seq<char>>, d: Entry, d_path: Seq<Seq<char>>)
    requires
        reaches(root, root_path, d, d_path),
    ensures
        starts_with(d_path, root_path),
    decreases root,
{
    if !(d == root && d_path == root_path) {
        let i = choose|i: int|
            0 <= i < root.children@.len() && reaches_through(#[trigger] root.children@[i], root, root_path, d, d_path);
        let at = root_path.push(root.children@[i].name@);
        lemma_reaches_path(root.children@[i], at, d, d_path);
        assert forall|j: int| 0 <= j < root_path.len() implies d_path[j] == root_path[j] by {
            assert(at[j] == root_path[j]);
        }
    }
}

/// A node of what the first `n` directories give is a node of what one of
/// them gives.
pub proof fn lemma_forest_member(
    dir: Entry,
    path: Seq<Seq<char>>,
    order: Seq<usize>,
    n: nat,
    node: TreeView,
)
    requires
        n <= order.len(),
        spec_forest(dir, path, order, n).contains(node),
    ensures
        exists|k: int|
            0 <= k < n && (#[trigger] order[k]) < dir.children@.len() && child_tree(
                dir,
                path,
                order[k] as int,
            ).contains(node),
    decreases n,
{
    let all = spec_forest(dir, path, order, n);
    let idx = choose|idx: int| 0 <= idx < all.len() && all[idx] == node;
    if n > 0 {
        let front = spec_forest(dir, path, order, (n - 1) as nat);
        if idx < front.len() {
            assert(front[idx] == node);
            lemma_forest_member(dir, path, order, (n - 1) as nat, node);
        } else {
            let tree = child_tree(dir, path, order[n - 1] as int);
            assert(all == front + tree);
            assert(tree[idx - front.len()] == node);
            assert(order[n - 1] < dir.children@.len());
        }
    }
}

/// The pruning, the other way round: where no directory holds a name twice,
/// a directory that is reached from `root`, is no problem and has its node
/// in the output of `root` leads to a problem.
pub proof fn lemma_node_origin(root: Entry, root_path: Seq<Seq<char>>, d: Entry, d_path: Seq<Seq<char>>)
    requires
        reaches(root, root_path, d, d_path),
        names_distinct_below(root),
        !spec_is_problem(d),
        spec_tree(root, root_path).contains(TreeView::Node(d_path)),
    ensures
        leads_to_problem(d),
    decreases root,
{
    let whole = spec_tree(root, root_path);
    let node = TreeView::Node(d_path);
    lemma_tree(root, root_path);
    if !(d == root && d_path == root_path) {
        let i = choose|i: int|
            0 <= i < root.children@.len() && reaches_through(#[trigger] root.children@[i], root, root_path, d, d_path);
        let child = root.children@[i];
        let at = root_path.push(child.name@);
        lemma_reaches_path(child, at, d, d_path);
        let order = sorted_positions(root);
        let below = spec_below(root, root_path);
        let idx = choose|idx: int| 0 <= idx < whole.len() && whole[idx] == node;
        assert(whole == seq![TreeView::Node(root_path)] + below);
        assert(idx > 0);
        assert(below[idx - 1] == node);
        lemma_forest_member(root, root_path, order, order.len(), node);
        let k = choose|k: int|
            0 <= k < order.len() && (#[trigger] order[k]) < root.children@.len() && child_tree(
                root,
                root_path,
                order[k] as int,
            ).contains(node);
        let j = order[k] as int;
        let other = root.children@[j];
        let there = root_path.push(other.name@);
        lemma_tree(other, there);
        let inner = choose|inner: int| 0 <= inner < spec_tree(other, there).len() && spec_tree(other, there)[inner] == node;
        assert(starts_with(node_path(spec_tree(other, there)[inner]), there));
        assert(d_path[root_path.len() as int] == there[root_path.len() as int]);
        assert(d_path[root_path.len() as int] == at[root_path.len() as int]);
        if j != i {
            lemma_distinct(root, i, j);
        }
        assert(distinct_in(child, root));
        lemma_node_origin(child, at, d, d_path);
    }
}

/// A copy of a path.
pub fn clone_path(path: &Vec<String>) -> (r: Vec<String>)
    ensures
        path_view(r) == path_view(*path),
{
    let mut r: Vec<String> = Vec::new();
    let mut i: usize = 0;
    while i < path.len()
        invariant
            i <= path@.len(),
            r@.len() == i,
            forall|j: int| 0 <= j < i ==> r@[j]@ == path@[j]@,
        decreases path@.len() - i,
    {
        r.push(path[i].clone());
        i += 1;
    }
    assert(path_view(r) =~= path_view(*path));
    r
}

/// A copy of an optional text.
pub fn clone_text(text: &Option<String>) -> (r: Option<String>)
    ensures
        option_text(r) == option_text(*text),
{
    match text {
        Some(t) => Some(t.clone()),
        None => None,
    }
}

/// A copy of a problem.
pub fn clone_problem(problem: &Problem) -> (r: Problem)
    ensures
        r@ == problem@,
{
    Problem {
        path: clone_path(&problem.path),
        statement: problem.statement,
        tests: problem.tests,
        editorial: problem.editorial,
        sources: problem.sources,
        mirrors: clone_text(&problem.mirrors),
    }
}

/// The facts about the directory `name` in `dir`.
fn facts_in(dir: &Entry, name: &str) -> (r: DirFacts)
    ensures
        r == subdir_facts(*dir, name@),
{
    match find_child(dir, name, EntryKind::Dir) {
        Some(i) => facts_of(&dir.children[i]),
        None => DirFacts { entries: 0, has_missing: false, has_broken: false },
    }
}

/// Takes the directory `dir`, found at `path`, as a problem: collects the
/// facts about its four required directories and the text of its sidecar.
pub fn problem_of(dir: &Entry, path: Vec<String>) -> (r: Problem)
    ensures
        r@ == problem_view(*dir, path_view(path)),
{
    let mirrors = match find_child(dir, MIRRORS_FILE, EntryKind::File) {
        Some(i) => clone_text(&dir.children[i].text),
        None => None,
    };
    Problem {
        path: path,
        statement: facts_in(dir, STATEMENT_DIR),
        tests: facts_in(dir, TESTS_DIR),
        editorial: facts_in(dir, EDITORIAL_DIR),
        sources: facts_in(dir, SOURCES_DIR),
        mirrors: mirrors,
    }
}

/// The path of the entry `name` of the directory at `path`.
pub fn child_path(path: &Vec<String>, name: &String) -> (r: Vec<String>)
    ensures
        path_view(r) == path_view(*path).push(name@),
{
    let mut r = clone_path(path);
    r.push(name.clone());
    assert(path_view(r) =~= path_view(*path).push(name@));
    r
}

/// What the directories of `dir` give, taken in ascending order of their
/// names: the pruned hierarchy of each, one after the other.
pub fn build_below(dir: &Entry, path: &Vec<String>) -> (below: Vec<Tree>)
    ensures
        tree_views(below@) == spec_forest(
            *dir,
            path_view(*path),
            sorted_positions(*dir),
            sorted_positions(*dir).len(),
        ),
    decreases dir, 0nat,
{
    let order = sorted_dirs(dir);
    let mut below: Vec<Tree> = Vec::new();
    let mut k: usize = 0;
    assert(tree_views(below@) =~= Seq::empty());
    while k < order.len()
        invariant
            k <= order@.len(),
            order@ == sorted_positions(*dir),
            forall|j: int| 0 <= j < order@.len() ==> #[trigger] order@[j] < dir.children@.len(),
            tree_views(below@) == spec_forest(*dir, path_view(*path), order@, k as nat),
        decreases order@.len() - k,
    {
        let p: usize = order[k];
        let child = &dir.children[p];
        let at = child_path(path, &child.name);
        build_tree(child, &at, &mut below);
        k += 1;
    }
    below
}

/// The view of a sequence behind which a node and more nodes were put.
pub proof fn lemma_tree_views_branch(before: Seq<Tree>, node: Tree, below: Seq<Tree>)
    ensures
        tree_views(before.push(node) + below) == tree_views(before) + (seq![node@] + tree_views(below)),
        tree_views(before.push(node)) == tree_views(before) + seq![node@],
        tree_views(before) + Seq::<TreeView>::empty() == tree_views(before),
        tree_views(below).len() == below.len(),
{
    assert(tree_views(before.push(node) + below) =~= tree_views(before) + (seq![node@] + tree_views(below)));
    assert(tree_views(before.push(node)) =~= tree_views(before) + seq![node@]);
    assert(tree_views(before) + Seq::<TreeView>::empty() =~= tree_views(before));
}

/// Appends to `result` the pruned hierarchy of `dir`, which is found at
/// `path`, and says whether `dir` is a problem or leads to one.
pub fn build_tree(dir: &Entry, path: &Vec<String>, result: &mut Vec<Tree>) -> (important: bool)
    ensures
        tree_views(final(result)@) == tree_views(old(result)@) + spec_tree(*dir, path_view(*path)),
        important == (spec_tree(*dir, path_view(*path)).len() > 0),
    decreases dir, 1nat,
{
    if is_problem(dir) {
        let leaf = Tree::Leaf(problem_of(dir, clone_path(path)));
        proof {
            lemma_tree_views_branch(result@, leaf, Seq::empty());
        }
        result.push(leaf);
        return true;
    }
    let mut below = build_below(dir, path);
    let node = Tree::Node(clone_path(path));
    proof {
        lemma_tree_views_branch(result@, node, below@);
    }
    if below.len() == 0 {
        return false;
    }
    result.push(node);
    result.append(&mut below);
    true
}

/// Appends to `result` the problems at and below `dir`, which is found at
/// `path`, in the order of the pruned hierarchy.
pub fn collect_problems(dir: &Entry, path: &Vec<String>, result: &mut Vec<Problem>)
    ensures
        problem_views(final(result)@) == problem_views(old(result)@) + leaves(
            spec_tree(*dir, path_view(*path)),
        ),
{
    let mut nodes: Vec<Tree> = Vec::new();
    build_tree(dir, path, &mut nodes);
    assert(tree_views(nodes@) =~= spec_tree(*dir, path_view(*path)));
    let ghost before = problem_views(result@);
    let mut i: usize = 0;
    assert(tree_views(nodes@).take(0) =~= Seq::empty());
    while i < nodes.len()
        invariant
            i <= nodes@.len(),
            problem_views(result@) == before + leaves(tree_views(nodes@).take(i as int)),
        decreases nodes@.len() - i,
    {
        proof {
            let tv = tree_views(nodes@);
            assert(tv.take(i + 1).drop_last() =~= tv.take(i as int));
            assert(tv.take(i + 1).last() == nodes@[i as int]@);
        }
        let ghost so_far = problem_views(result@);
        match &nodes[i] {
            Tree::Leaf(problem) => {
                result.push(clone_problem(problem));
                assert(problem_views(result@) =~= so_far.push(problem@));
            },
            Tree::Node(_) => {},
        }
        i += 1;
    }
    assert(tree_views(nodes@).take(i as int) =~= tree_views(nodes@));
}

} // verus!
