//! A report put together with what a file already holds.

use crate::mirrors::option_text;
use crate::names::chars_of;
use crate::render::{
    make_markdown_readme, make_markdown_table, rendered, spec_readme, spec_table, Conflict,
};
use crate::snapshot::{
    find_child, has_child, is_problem, sorted_dirs, sorted_positions, spec_is_problem, Entry, EntryKind,
};
use crate::tree::{
    branches, build_tree, child_path, clone_path, first_child, leaves, lemma_branches_add, path_view,
    spec_forest, spec_tree, Tree, TreeView,
};
use vstd::prelude::*;

verus! {

/// The line behind which a file belongs to the report.
pub const MARKER: &'static str = "# Generated Summary";

/// The name of the file that holds the report of a directory.
pub const README_FILE: &'static str = "README.md";

/// How a report is to be made.
#[derive(Clone, Copy, Debug, PartialEq, Eq, Structural)]
pub struct Options {
    /// One flat table; else headings with tables.
    pub table: bool,
    /// Replace what the file holds; else keep what stands before the marker.
    pub overwrite: bool,
}

/// The report of one directory.
#[derive(Debug)]
pub struct Readme {
    /// The path of the directory.
    pub path: Vec<String>,
    /// The text for its file, or the conflict that stands against it.
    pub content: Result<String, Conflict>,
}

/// The report of one directory as a mathematical value.
pub struct ReadmeView {
    pub path: Seq<Seq<char>>,
    pub content: Result<Seq<char>, Conflict>,
}

impl View for Readme {
    type V = ReadmeView;

    open spec fn view(&self) -> ReadmeView {
        ReadmeView { path: path_view(self.path), content: rendered(self.content) }
    }
}

/// A sequence of reports as mathematical values.
pub open spec fn readme_views(readmes: Seq<Readme>) -> Seq<ReadmeView> {
    readmes.map_values(|r: Readme| r@)
}

/// `pattern` stands in `text` at position `i`.
pub open spec fn occurs_at(text: Seq<char>, pattern: Seq<char>, i: int) -> bool {
    0 <= i && i + pattern.len() <= text.len() && text.subrange(i, i + pattern.len()) == pattern
}

/// `pattern` stands somewhere in `text`.
pub open spec fn occurs(text: Seq<char>, pattern: Seq<char>) -> bool {
    exists|i: int| occurs_at(text, pattern, i)
}

/// The first position at which `pattern` stands in `text`.
pub open spec fn first_occurrence(text: Seq<char>, pattern: Seq<char>) -> int {
    choose|i: int| occurs_at(text, pattern, i) && forall|j: int| j < i ==> !occurs_at(text, pattern, j)
}

/// What is kept of a text: all that stands before the first marker, or all
/// of it where it has no marker.
pub open spec fn kept_part(text: Seq<char>) -> Seq<char> {
    if occurs(text, MARKER@) {
        text.take(first_occurrence(text, MARKER@))
    } else {
        text
    }
}

/// What is kept of the old text, the marker, an empty line, the new content.
pub open spec fn spec_merge(existing: Seq<char>, new_content: Seq<char>) -> Seq<char> {
    kept_part(existing) + MARKER@ + "\n\n"@ + new_content
}

/// The text that the file of `dir` holds; none where it has no such file or
/// the file was not read.
pub open spec fn readme_text(dir: Entry) -> Option<Seq<char>> {
    if has_child(dir, README_FILE@, EntryKind::File) {
        option_text(dir.children@[first_child(dir, README_FILE@, EntryKind::File)].text)
    } else {
        None
    }
}

/// The new content merged with the old text, where there is one.
pub open spec fn spec_replace_summary(existing: Option<Seq<char>>, new_content: Seq<char>) -> Seq<char> {
    match existing {
        Some(text) => spec_merge(text, new_content),
        None => spec_merge(Seq::empty(), new_content),
    }
}

/// The report of `dir`, which is found at `path`.
pub open spec fn spec_create_readme(dir: Entry, path: Seq<Seq<char>>, options: Options) -> Result<
    Seq<char>,
    Conflict,
> {
    let markdown = if options.table {
        spec_table(leaves(spec_tree(dir, path)), path)
    } else {
        spec_readme(spec_tree(dir, path), path)
    };
    match markdown {
        Ok(text) => Ok(
            if options.overwrite {
                text
            } else {
                spec_replace_summary(readme_text(dir), text)
            },
        ),
        Err(c) => Err(c),
    }
}

/// The reports of `dir` and of the directories below it, in pre-order: one
/// for each directory that is no problem and leads to one.
pub open spec fn spec_readmes(dir: Entry, path: Seq<Seq<char>>, options: Options) -> Seq<ReadmeView>
    decreases dir, 1nat, 0nat,
{
    if spec_is_problem(dir) || spec_tree(dir, path).len() == 0 {
        Seq::empty()
    } else {
        let order = sorted_positions(dir);
        seq![ReadmeView { path: path, content: spec_create_readme(dir, path, options) }] + spec_readmes_below(
            dir,
            path,
            options,
            order,
            order.len(),
        )
    }
}

/// The reports of the first `n` of the directories `order` of `dir`, and of
/// the directories below them.
pub open spec fn spec_readmes_below(
    dir: Entry,
    path: Seq<Seq<char>>,
    options: Options,
    order: Seq<usize>,
    n: nat,
) -> Seq<ReadmeView>
    decreases dir, 0nat, n,
{
    if n == 0 || n > order.len() {
        Seq::empty()
    } else {
        let p = order[n - 1] as int;
        let front = spec_readmes_below(dir, path, options, order, (n - 1) as nat);
        if p < dir.children@.len() {
            front + spec_readmes(dir.children@[p], path.push(dir.children@[p].name@), options)
        } else {
            front
        }
    }
}

/// `i` is the first position at which `pattern` stands in `text`.
pub open spec fn is_first_occurrence(text: Seq<char>, pattern: Seq<char>, i: int) -> bool {
    occurs_at(text, pattern, i) && forall|j: int| j < i ==> !occurs_at(text, pattern, j)
}

/// A pattern that stands in a text stands at a first position.
pub proof fn lemma_first_occurrence(text: Seq<char>, pattern: Seq<char>, i: int)
    requires
        occurs_at(text, pattern, i),
    ensures
        occurs(text, pattern),
        is_first_occurrence(text, pattern, first_occurrence(text, pattern)),
        first_occurrence(text, pattern) <= i,
    decreases i,
{
    if exists|j: int| j < i && occurs_at(text, pattern, j) {
        let j = choose|j: int| j < i && occurs_at(text, pattern, j);
        lemma_first_occurrence(text, pattern, j);
    } else {
        assert(is_first_occurrence(text, pattern, i));
    }
}

/// The marker begins with a hash sign and holds no other.
pub proof fn lemma_marker_shape()
    ensures
        MARKER@.len() == 19,
        MARKER@[0] == '#',
        forall|k: int| 1 <= k < 19 ==> MARKER@[k] != '#',
{
    reveal_strlit("# Generated Summary");
}

/// In a merged text the first marker is the one that the merge wrote.
pub proof fn lemma_merged_marker(existing: Seq<char>, new_content: Seq<char>)
    ensures
        is_first_occurrence(spec_merge(existing, new_content), MARKER@, kept_part(existing).len() as int),
{
    let m = MARKER@;
    let kept = kept_part(existing);
    let merged = spec_merge(existing, new_content);
    let at = kept.len() as int;
    lemma_marker_shape();
    assert(merged.subrange(at, at + m.len()) =~= m);
    assert forall|j: int| j < at implies !occurs_at(merged, m, j) by {
        if occurs_at(merged, m, j) {
            let window = merged.subrange(j, j + m.len());
            if occurs(existing, m) {
                let i = choose|i: int| occurs_at(existing, m, i);
                lemma_first_occurrence(existing, m, i);
                let p = first_occurrence(existing, m);
                assert(kept == existing.take(p));
                assert forall|k: int| 0 <= k < m.len() implies existing.subrange(j, j + m.len())[k] == m[k] by {
                    assert(window[k] == merged[j + k]);
                    if j + k >= p {
                        assert(existing.subrange(p, p + m.len())[j + k - p] == m[j + k - p]);
                    }
                }
                assert(existing.subrange(j, j + m.len()) =~= m);
                assert(occurs_at(existing, m, j));
            } else if j + m.len() <= at {
                assert(existing.subrange(j, j + m.len()) =~= window);
                assert(occurs_at(existing, m, j));
            } else {
                let k = at - j;
                assert(window[k] == merged[at]);
                assert(merged[at] == m[0]);
            }
        }
    }
}

/// Merging is idempotent: to merge the same content into a merged text
/// again changes nothing.
pub proof fn lemma_merge_idempotent(existing: Seq<char>, new_content: Seq<char>)
    ensures
        spec_merge(spec_merge(existing, new_content), new_content) == spec_merge(existing, new_content),
{
    let kept = kept_part(existing);
    let merged = spec_merge(existing, new_content);
    let at = kept.len() as int;
    lemma_merged_marker(existing, new_content);
    lemma_first_occurrence(merged, MARKER@, at);
    assert(first_occurrence(merged, MARKER@) == at);
    assert(merged.take(at) =~= kept);
}

/// What a merge keeps of the old text holds no marker, and the old text
/// begins with it.
pub proof fn lemma_kept_part(existing: Seq<char>)
    ensures
        !occurs(kept_part(existing), MARKER@),
        kept_part(existing).len() <= existing.len(),
        kept_part(existing) == existing.take(kept_part(existing).len() as int),
{
    let m = MARKER@;
    let kept = kept_part(existing);
    lemma_marker_shape();
    if occurs(existing, m) {
        let i = choose|i: int| occurs_at(existing, m, i);
        lemma_first_occurrence(existing, m, i);
        let p = first_occurrence(existing, m);
        assert forall|j: int| !occurs_at(kept, m, j) by {
            if occurs_at(kept, m, j) {
                assert(existing.subrange(j, j + m.len()) =~= kept.subrange(j, j + m.len()));
                assert(occurs_at(existing, m, j));
            }
        }
        assert(kept.take(kept.len() as int) =~= kept);
    } else {
        assert(existing.take(existing.len() as int) =~= existing);
    }
}

/// The paths of the reports, in their order.
pub open spec fn readme_paths(readmes: Seq<ReadmeView>) -> Seq<Seq<Seq<char>>> {
    readmes.map_values(|r: ReadmeView| r.path)
}

/// The reports of the first `n` directories are those of the directories
/// that their pruned hierarchies hold.
pub proof fn lemma_readmes_below(dir: Entry, path: Seq<Seq<char>>, options: Options, order: Seq<usize>, n: nat)
    ensures
        readme_paths(spec_readmes_below(dir, path, options, order, n)) == branches(
            spec_forest(dir, path, order, n),
        ),
    decreases dir, 0nat, n,
{
    if n == 0 || n > order.len() {
        assert(readme_paths(Seq::empty()) =~= Seq::empty());
    } else {
        let p = order[n - 1] as int;
        let front = spec_readmes_below(dir, path, options, order, (n - 1) as nat);
        lemma_readmes_below(dir, path, options, order, (n - 1) as nat);
        if p < dir.children@.len() {
            let child = dir.children@[p];
            let at = path.push(child.name@);
            lemma_readmes(child, at, options);
            lemma_branches_add(spec_forest(dir, path, order, (n - 1) as nat), spec_tree(child, at));
            assert(readme_paths(front + spec_readmes(child, at, options)) =~= readme_paths(front)
                + readme_paths(spec_readmes(child, at, options)));
        }
    }
}

/// There is one report for each directory of the pruned hierarchy that is
/// no problem, and the reports come in the order of the hierarchy.
pub proof fn lemma_readmes(dir: Entry, path: Seq<Seq<char>>, options: Options)
    ensures
        readme_paths(spec_readmes(dir, path, options)) == branches(spec_tree(dir, path)),
    decreases dir, 1nat, 0nat,
{
    if spec_is_problem(dir) {
        let leaf = spec_tree(dir, path);
        assert(leaf.drop_last() =~= Seq::empty());
        assert(branches(leaf.drop_last()) =~= Seq::empty());
        assert(readme_paths(Seq::empty()) =~= Seq::empty());
    } else if spec_tree(dir, path).len() == 0 {
        assert(readme_paths(Seq::empty()) =~= Seq::empty());
    } else {
        let order = sorted_positions(dir);
        let own = ReadmeView { path: path, content: spec_create_readme(dir, path, options) };
        let below = spec_readmes_below(dir, path, options, order, order.len());
        let node = seq![TreeView::Node(path)];
        lemma_readmes_below(dir, path, options, order, order.len());
        lemma_branches_add(node, spec_forest(dir, path, order, order.len()));
        assert(node.drop_last() =~= Seq::empty());
        assert(branches(node.drop_last()) =~= Seq::empty());
        assert(node.last() == TreeView::Node(path));
        assert(branches(node) =~= seq![path]);
        assert(readme_paths(seq![own] + below) =~= seq![path] + readme_paths(below));
    }
}

/// Whether `pattern` stands in `text` at position `i`.
fn stands_at(text: &Vec<char>, pattern: &Vec<char>, i: usize) -> (r: bool)
    requires
        i + pattern@.len() <= text@.len(),
    ensures
        r == occurs_at(text@, pattern@, i as int),
{
    let n: usize = text.len();
    let mut j: usize = 0;
    while j < pattern.len()
        invariant
            j <= pattern@.len(),
            i + pattern@.len() <= text@.len(),
            text@.len() == n,
            forall|k: int| 0 <= k < j ==> text@[i + k] == pattern@[k],
        decreases pattern@.len() - j,
    {
        if text[i + j] != pattern[j] {
            assert(text@.subrange(i as int, i + pattern@.len())[j as int] != pattern@[j as int]);
            return false;
        }
        j += 1;
    }
    assert(text@.subrange(i as int, i + pattern@.len()) =~= pattern@);
    true
}

/// The first position at which `pattern` stands in `text`.
fn find_first(text: &Vec<char>, pattern: &Vec<char>) -> (r: Option<usize>)
    ensures
        r is Some == occurs(text@, pattern@),
        r matches Some(p) ==> p == first_occurrence(text@, pattern@) && p + pattern@.len() <= text@.len(),
{
    if text.len() < pattern.len() {
        return None;
    }
    let last: usize = text.len() - pattern.len();
    let mut i: usize = 0;
    loop
        invariant
            i <= last,
            last == text@.len() - pattern@.len(),
            forall|j: int| j < i ==> !occurs_at(text@, pattern@, j),
        decreases last - i,
    {
        if stands_at(text, pattern, i) {
            return Some(i);
        }
        if i == last {
            return None;
        }
        i += 1;
    }
}

/// Merges a new report with the text that a file holds: what stands before
/// the first marker is kept, or all of the text where it has no marker; the
/// marker, an empty line and the new content follow.
pub fn merge(existing: &str, new_content: &str) -> (r: String)
    ensures
        r@ == spec_merge(existing@, new_content@),
{
    let text = chars_of(existing);
    let pattern = chars_of(MARKER);
    let kept: &str = match find_first(&text, &pattern) {
        Some(p) => existing.substring_char(0, p),
        None => existing,
    };
    let mut r = String::from_str(kept);
    r.append(MARKER);
    r.append("\n\n");
    r.append(new_content);
    r
}

/// Merges a new report with the text of a file, if there is one; a file
/// that is not there counts as empty.
pub fn replace_summary(existing: &Option<String>, new_content: &str) -> (r: String)
    ensures
        r@ == spec_replace_summary(option_text(*existing), new_content@),
{
    match existing {
        Some(text) => merge(text.as_str(), new_content),
        None => {
            proof {
                reveal_strlit("");
                assert(""@ =~= Seq::<char>::empty());
            }
            merge("", new_content)
        },
    }
}

/// The report of `dir`, which is found at `path`: the flat table or the
/// nested report, as `options.table` says, merged with the text of the
/// file `README.md` of `dir` unless `options.overwrite` is set.
pub fn create_readme(dir: &Entry, path: &Vec<String>, options: &Options) -> (r: Result<String, Conflict>)
    ensures
        rendered(r) == spec_create_readme(*dir, path_view(*path), *options),
{
    let markdown = if options.table {
        make_markdown_table(dir, path)
    } else {
        make_markdown_readme(dir, path)
    };
    match markdown {
        Err(c) => Err(c),
        Ok(text) => {
            if options.overwrite {
                Ok(text)
            } else {
                match find_child(dir, README_FILE, EntryKind::File) {
                    Some(i) => Ok(replace_summary(&dir.children[i].text, text.as_str())),
                    None => Ok(replace_summary(&None, text.as_str())),
                }
            }
        },
    }
}

/// The view of a sequence with one more report.
pub proof fn lemma_readme_views_push(readmes: Seq<Readme>, r: Readme)
    ensures
        readme_views(readmes.push(r)) == readme_views(readmes).push(r@),
{
    assert(readme_views(readmes.push(r)) =~= readme_views(readmes).push(r@));
}

/// Appends to `result` the reports of the directories below `dir`.
fn readmes_below(dir: &Entry, path: &Vec<String>, options: &Options, result: &mut Vec<Readme>)
    ensures
        readme_views(final(result)@) == readme_views(old(result)@) + spec_readmes_below(
            *dir,
            path_view(*path),
            *options,
            sorted_positions(*dir),
            sorted_positions(*dir).len(),
        ),
    decreases dir, 0nat,
{
    let order = sorted_dirs(dir);
    let ghost before = readme_views(result@);
    let mut k: usize = 0;
    assert(before + Seq::<ReadmeView>::empty() =~= before);
    while k < order.len()
        invariant
            k <= order@.len(),
            order@ == sorted_positions(*dir),
            forall|j: int| 0 <= j < order@.len() ==> #[trigger] order@[j] < dir.children@.len(),
            readme_views(result@) == before + spec_readmes_below(
                *dir,
                path_view(*path),
                *options,
                order@,
                k as nat,
            ),
        decreases order@.len() - k,
    {
        let p: usize = order[k];
        let child = &dir.children[p];
        let at = child_path(path, &child.name);
        let ghost front = spec_readmes_below(*dir, path_view(*path), *options, order@, k as nat);
        let ghost more = spec_readmes(*child, path_view(at), *options);
        create_readme_recursive(child, &at, options, result);
        assert((before + front) + more =~= before + (front + more));
        k += 1;
    }
}

/// Appends to `result` one report for each directory of the pruned
/// hierarchy of `dir`, which is found at `path`, in pre-order. A problem
/// gets none, nor does a directory that leads to no problem.
pub fn create_readme_recursive(dir: &Entry, path: &Vec<String>, options: &Options, result: &mut Vec<Readme>)
    ensures
        readme_views(final(result)@) == readme_views(old(result)@) + spec_readmes(
            *dir,
            path_view(*path),
            *options,
        ),
    decreases dir, 1nat,
{
    let mut tree: Vec<Tree> = Vec::new();
    let important = !is_problem(dir) && build_tree(dir, path, &mut tree);
    if !important {
        assert(readme_views(result@) + Seq::<ReadmeView>::empty() =~= readme_views(result@));
        return;
    }
    let own = Readme { path: clone_path(path), content: create_readme(dir, path, options) };
    let ghost before = readme_views(result@);
    let ghost below = spec_readmes_below(
        *dir,
        path_view(*path),
        *options,
        sorted_positions(*dir),
        sorted_positions(*dir).len(),
    );
    proof {
        lemma_readme_views_push(result@, own);
        assert(before.push(own@) + below =~= before + (seq![own@] + below));
    }
    result.push(own);
    readmes_below(dir, path, options, result);
}

} // verus!
