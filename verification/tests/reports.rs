use problem_summary::mirrors::{get_mirror_links, markdown_link, mirrors_to_markdown, string_links, MirrorError};
use problem_summary::names::name_precedes;
use problem_summary::render::{
    get_dirname_from_path, heading_of, make_markdown_readme, make_markdown_table, markdown_from_problems,
    markdown_from_tree, relative_name_of, row_of, Conflict,
};
use problem_summary::report::{create_readme, create_readme_recursive, merge, replace_summary, Options, Readme};
use problem_summary::snapshot::{find_child, get_dir_entries, is_problem, sorted_dirs, Entry, EntryKind};
use problem_summary::tree::{build_tree, collect_problems, problem_of, Problem, Tree};
use problem_summary::verdict::{
    classify, facts_of, get_verdict, is_dir_broken, is_dir_empty, DirFacts, Verdict, VerdictError,
};

const HEAD: &str = "| Nume | Enunt | Teste | Editorial | Surse | Mirrors |\n| ---- | ----- | ----- | --------- | ----- | ------- |\n";

fn dir(name: &str, children: Vec<Entry>) -> Entry {
    Entry { name: name.to_string(), kind: EntryKind::Dir, children, text: None }
}

fn file(name: &str) -> Entry {
    Entry { name: name.to_string(), kind: EntryKind::File, children: Vec::new(), text: None }
}

fn file_with(name: &str, text: &str) -> Entry {
    Entry { name: name.to_string(), kind: EntryKind::File, children: Vec::new(), text: Some(text.to_string()) }
}

fn full(name: &str) -> Entry {
    dir(name, vec![file("data.txt")])
}

fn problem(name: &str) -> Entry {
    dir(name, vec![full("surse"), full("enunt"), full("teste"), full("editorial")])
}

fn path(names: &[&str]) -> Vec<String> {
    names.iter().map(|s| s.to_string()).collect()
}

fn options(table: bool, overwrite: bool) -> Options {
    Options { table, overwrite }
}

fn shape(tree: &Vec<Tree>) -> Vec<String> {
    tree.iter()
        .map(|node| match node {
            Tree::Node(p) => format!("N:{}", p.join("/")),
            Tree::Leaf(p) => format!("L:{}", p.path.join("/")),
        })
        .collect()
}

#[test]
fn problem_needs_all_four_directories() {
    assert!(is_problem(&problem("p")));
    assert!(is_problem(&dir("p", vec![full("enunt"), file("x"), full("teste"), full("surse"), full("editorial")])));
    assert!(!is_problem(&dir("p", vec![full("enunt"), full("teste"), full("surse")])));
    assert!(!is_problem(&dir("p", vec![])));
}

#[test]
fn required_name_as_file_is_no_problem() {
    let d = dir("p", vec![full("enunt"), full("teste"), full("surse"), file("editorial")]);
    assert!(!is_problem(&d));
}

#[test]
fn required_names_are_case_sensitive_and_exact() {
    let d = dir("p", vec![full("enunt"), full("teste"), full("surse"), full("Editorial")]);
    assert!(!is_problem(&d));
    let e = dir("p", vec![full("enunt"), full("teste"), full("surse"), full("editorial2")]);
    assert!(!is_problem(&e));
}

#[test]
fn dir_entries_are_the_directories_in_listing_order() {
    let d = dir("r", vec![full("z"), file("f"), full("a"), Entry {
        name: "dev".to_string(),
        kind: EntryKind::Other,
        children: Vec::new(),
        text: None,
    }, full("m")]);
    assert_eq!(get_dir_entries(&d), vec![0, 2, 4]);
    assert_eq!(sorted_dirs(&d), vec![2, 4, 0]);
    assert_eq!(find_child(&d, "a", EntryKind::Dir), Some(2));
    assert_eq!(find_child(&d, "a", EntryKind::File), None);
    assert_eq!(find_child(&d, "f", EntryKind::File), Some(1));
}

#[test]
fn sorting_is_by_code_point_and_stable() {
    let d = dir("r", vec![full("b"), full("B"), full("a10"), full("a2"), full("a"), full("é"), full("z"), full("a")]);
    assert_eq!(sorted_dirs(&d), vec![1, 4, 7, 2, 3, 0, 6, 5]);
}

#[test]
fn names_compare_like_strings() {
    let names = ["", "a", "A", "ab", "b", "é", "z", "a/b", "a b", "日本"];
    for x in names {
        for y in names {
            assert_eq!(name_precedes(x, y), x < y);
        }
    }
}

#[test]
fn classify_covers_every_combination() {
    let f = |entries, has_missing, has_broken| DirFacts { entries, has_missing, has_broken };
    assert_eq!(classify(f(0, false, false)), Ok(Verdict::Empty));
    assert_eq!(classify(f(3, true, false)), Ok(Verdict::Empty));
    assert_eq!(classify(f(0, true, false)), Ok(Verdict::Empty));
    assert_eq!(classify(f(2, false, true)), Ok(Verdict::Incomplete));
    assert_eq!(classify(f(2, false, false)), Ok(Verdict::Complete));
    assert_eq!(classify(f(2, true, true)), Err(VerdictError::EmptyAndBroken));
    assert_eq!(classify(f(0, false, true)), Err(VerdictError::EmptyAndBroken));
    assert_eq!(classify(f(2, false, true)), classify(f(2, false, true)));
}

#[test]
fn verdict_labels() {
    assert_eq!(Verdict::Empty.label(), "Gol");
    assert_eq!(Verdict::Incomplete.label(), "Incomplet");
    assert_eq!(Verdict::Complete.label(), "Ok");
}

#[test]
fn verdict_of_directories() {
    let empty = dir("teste", vec![]);
    assert!(is_dir_empty(&empty));
    assert!(!is_dir_broken(&empty));
    assert_eq!(get_verdict(&empty), Ok(Verdict::Empty));

    let missing = dir("teste", vec![file("missing.md"), file("x")]);
    assert!(is_dir_empty(&missing));
    assert_eq!(get_verdict(&missing), Ok(Verdict::Empty));

    let broken = dir("surse", vec![file("broken.md"), file("x")]);
    assert!(!is_dir_empty(&broken));
    assert!(is_dir_broken(&broken));
    assert_eq!(get_verdict(&broken), Ok(Verdict::Incomplete));
    assert_eq!(facts_of(&broken), DirFacts { entries: 2, has_missing: false, has_broken: true });

    let both = dir("surse", vec![file("broken.md"), file("missing.md")]);
    assert_eq!(get_verdict(&both), Err(VerdictError::EmptyAndBroken));

    let marker_dir = dir("surse", vec![dir("broken.md", vec![]), dir("missing.md", vec![])]);
    assert_eq!(get_verdict(&marker_dir), Ok(Verdict::Complete));
}

#[test]
fn flat_table_lists_problems_in_name_order() {
    let root = dir("root", vec![dir("b", vec![problem("c")]), problem("a")]);
    let text = make_markdown_table(&root, &path(&["root"])).unwrap();
    let expected = format!("{}| a | Ok | Ok | Ok | Ok |  |\n| b/c | Ok | Ok | Ok | Ok |  |\n", HEAD);
    assert_eq!(text, expected);
}

#[test]
fn empty_tests_directory_renders_gol() {
    let p = dir("p", vec![full("surse"), full("enunt"), dir("teste", vec![]), full("editorial")]);
    let root = dir("root", vec![p]);
    let text = make_markdown_table(&root, &path(&["root"])).unwrap();
    assert_eq!(text, format!("{}| p | Ok | Gol | Ok | Ok |  |\n", HEAD));
}

#[test]
fn broken_sources_render_incomplet() {
    let p = dir("p", vec![
        dir("surse", vec![file("broken.md"), file("main.cpp")]),
        full("enunt"),
        full("teste"),
        full("editorial"),
    ]);
    let root = dir("root", vec![p]);
    let text = make_markdown_table(&root, &path(&["root"])).unwrap();
    assert_eq!(text, format!("{}| p | Ok | Ok | Ok | Incomplet |  |\n", HEAD));
    let nested = make_markdown_readme(&root, &path(&["root"])).unwrap();
    assert_eq!(nested, format!("# root\n\n{}| p | Ok | Ok | Ok | Incomplet |  |\n", HEAD));
}

#[test]
fn branch_without_problems_gives_empty_report() {
    let root = dir("root", vec![dir("x", vec![dir("y", vec![])]), file("notes.txt")]);
    assert_eq!(make_markdown_readme(&root, &path(&["root"])), Ok(String::new()));
    let mut tree = Vec::new();
    assert!(!build_tree(&root, &path(&["root"]), &mut tree));
    assert!(tree.is_empty());
    let mut readmes = Vec::new();
    create_readme_recursive(&root, &path(&["root"]), &options(false, true), &mut readmes);
    assert!(readmes.is_empty());
}

#[test]
fn mirror_sidecar_renders_as_link() {
    let mut p = problem("p");
    p.children.push(file_with("mirrors.json", "{\"codeforces\": \"https://cf.example/123\"}"));
    let root = dir("root", vec![p]);
    let text = make_markdown_table(&root, &path(&["root"])).unwrap();
    assert_eq!(
        text,
        format!("{}| p | Ok | Ok | Ok | Ok | [codeforces](https://cf.example/123) |\n", HEAD)
    );
}

#[test]
fn merge_replaces_what_follows_the_marker() {
    assert_eq!(
        merge("Intro text\n# Generated Summary\nold stuff", "new stuff"),
        "Intro text\n# Generated Summary\n\nnew stuff"
    );
}

#[test]
fn merge_without_marker_keeps_everything() {
    assert_eq!(merge("Intro text\n", "new"), "Intro text\n# Generated Summary\n\nnew");
    assert_eq!(merge("", "new"), "# Generated Summary\n\nnew");
    assert_eq!(merge("# Generated Summar", "n"), "# Generated Summar# Generated Summary\n\nn");
}

#[test]
fn merge_cuts_at_the_first_marker() {
    let old = "a# Generated Summary b # Generated Summary c";
    assert_eq!(merge(old, "x"), "a# Generated Summary\n\nx");
    assert_eq!(merge("é日# Generated Summary tail", "ü"), "é日# Generated Summary\n\nü");
}

#[test]
fn merge_is_idempotent_on_examples() {
    for old in ["", "intro", "intro\n# Generated Summary\nold", "# Generated Summary", "x# Generated Summar"] {
        for new in ["", "new", "# Generated Summary", "a\n# Generated Summary\nb"] {
            let once = merge(old, new);
            assert_eq!(merge(&once, new), once);
        }
    }
}

#[test]
fn replace_summary_without_file() {
    assert_eq!(replace_summary(&None, "body"), "# Generated Summary\n\nbody");
    assert_eq!(
        replace_summary(&Some("keep\n# Generated Summary\n\nold".to_string()), "body"),
        "keep\n# Generated Summary\n\nbody"
    );
}

#[test]
fn mirror_links_from_sidecar() {
    assert_eq!(get_mirror_links(&None), Err(MirrorError::Unreadable));
    assert_eq!(get_mirror_links(&Some("not json".to_string())), Err(MirrorError::Malformed));
    assert_eq!(get_mirror_links(&Some("[1, 2]".to_string())), Err(MirrorError::Malformed));
    assert_eq!(get_mirror_links(&Some("{}".to_string())), Ok(vec![]));
    let text = "{\"a\": \"u1\", \"n\": 3, \"b\": \"u2\", \"o\": {\"x\": \"y\"}, \"z\": null}".to_string();
    assert_eq!(
        get_mirror_links(&Some(text)),
        Ok(vec![("a".to_string(), "u1".to_string()), ("b".to_string(), "u2".to_string())])
    );
}

#[test]
fn string_links_skip_other_values() {
    let entries = vec![
        ("a".to_string(), None),
        ("b".to_string(), Some("x".to_string())),
        ("c".to_string(), None),
        ("d".to_string(), Some("y".to_string())),
    ];
    assert_eq!(
        string_links(entries),
        vec![("b".to_string(), "x".to_string()), ("d".to_string(), "y".to_string())]
    );
    assert_eq!(string_links(vec![]), vec![]);
}

#[test]
fn links_in_markdown() {
    assert_eq!(markdown_link("cf".to_string(), "https://x".to_string()), "[cf](https://x)");
    assert_eq!(mirrors_to_markdown(vec![]), "");
    assert_eq!(mirrors_to_markdown(vec![("a".to_string(), "1".to_string())]), "[a](1)");
    assert_eq!(
        mirrors_to_markdown(vec![
            ("b".to_string(), "2".to_string()),
            ("a".to_string(), "1".to_string()),
            ("c".to_string(), "3".to_string()),
        ]),
        "[b](2), [a](1), [c](3)"
    );
}

#[test]
fn tree_is_pruned_and_ordered() {
    let root = dir("root", vec![
        dir("z", vec![dir("empty", vec![]), problem("p2"), problem("p1")]),
        dir("void", vec![dir("deep", vec![dir("deeper", vec![file("f")])])]),
        problem("m"),
        dir("a", vec![dir("b", vec![dir("c", vec![problem("leaf")])])]),
        file("README.md"),
    ]);
    let mut tree = Vec::new();
    assert!(build_tree(&root, &path(&["root"]), &mut tree));
    assert_eq!(
        shape(&tree),
        vec![
            "N:root", "N:root/a", "N:root/a/b", "N:root/a/b/c", "L:root/a/b/c/leaf", "L:root/m", "N:root/z",
            "L:root/z/p1", "L:root/z/p2",
        ]
    );
    let mut problems = Vec::new();
    collect_problems(&root, &path(&["root"]), &mut problems);
    let names: Vec<String> = problems.iter().map(|p| p.path.join("/")).collect();
    assert_eq!(names, vec!["root/a/b/c/leaf", "root/m", "root/z/p1", "root/z/p2"]);
}

#[test]
fn build_tree_appends_to_what_is_there() {
    let mut tree = vec![Tree::Node(path(&["kept"]))];
    assert!(build_tree(&problem("p"), &path(&["p"]), &mut tree));
    assert_eq!(shape(&tree), vec!["N:kept", "L:p"]);
}

#[test]
fn problem_is_not_looked_into() {
    let mut p = problem("outer");
    p.children.push(problem("inner"));
    let root = dir("root", vec![p]);
    let mut tree = Vec::new();
    build_tree(&root, &path(&["root"]), &mut tree);
    assert_eq!(shape(&tree), vec!["N:root", "L:root/outer"]);
}

#[test]
fn root_that_is_a_problem() {
    let root = problem("solo");
    let flat = make_markdown_table(&root, &path(&["solo"])).unwrap();
    assert_eq!(flat, format!("{}|  | Ok | Ok | Ok | Ok |  |\n", HEAD));
    let nested = make_markdown_readme(&root, &path(&["solo"])).unwrap();
    assert_eq!(nested, format!("{}| solo | Ok | Ok | Ok | Ok |  |\n", HEAD));
}

#[test]
fn nested_report_levels_follow_the_path() {
    let root = dir("root", vec![
        dir("a", vec![dir("b", vec![problem("p")])]),
        dir("c", vec![problem("q"), problem("r")]),
        problem("s"),
    ]);
    let text = make_markdown_readme(&root, &path(&["home", "root"])).unwrap();
    let expected = format!(
        "# root\n\n## a\n\n### b\n\n{h}| p | Ok | Ok | Ok | Ok |  |\n\n## c\n\n{h}| q | Ok | Ok | Ok | Ok |  |\n| r | Ok | Ok | Ok | Ok |  |\n",
        h = HEAD
    );
    let expected = expected + "| s | Ok | Ok | Ok | Ok |  |\n";
    assert_eq!(text, expected);
}

#[test]
fn headings() {
    assert_eq!(heading_of(&path(&["r"]), &path(&["r"])), "# r\n\n");
    assert_eq!(heading_of(&path(&["r", "a", "b"]), &path(&["r"])), "### b\n\n");
    assert_eq!(heading_of(&path(&["x", "r", "a"]), &path(&["x", "r"])), "## a\n\n");
    assert_eq!(heading_of(&path(&["y", "r", "a"]), &path(&["x", "r"])), " a\n\n");
    assert_eq!(heading_of(&path(&["x"]), &path(&["x", "r", "s"])), " x\n\n");
    assert_eq!(heading_of(&path(&[]), &path(&[])), "# \n\n");
    assert_eq!(heading_of(&path(&["a"]), &path(&[])), "## a\n\n");
    assert_eq!(get_dirname_from_path(&path(&["a", "b"])), "b");
    assert_eq!(get_dirname_from_path(&path(&[])), "");
}

#[test]
fn relative_names() {
    assert_eq!(relative_name_of(&path(&["r", "a", "b"]), &path(&["r"])), "a/b");
    assert_eq!(relative_name_of(&path(&["r", "a"]), &path(&["r"])), "a");
    assert_eq!(relative_name_of(&path(&["r", "a", "b", "c"]), &path(&["r", "a"])), "b/c");
    assert_eq!(relative_name_of(&path(&["r"]), &path(&["r"])), "");
    assert_eq!(relative_name_of(&path(&["q", "a"]), &path(&["r"])), "");
    assert_eq!(relative_name_of(&path(&["r"]), &path(&["r", "a"])), "");
    assert_eq!(relative_name_of(&path(&["a"]), &path(&[])), "a");
    assert_eq!(relative_name_of(&path(&["a", "b"]), &path(&[])), "a/b");
}

fn plain(names: &[&str]) -> Problem {
    let ok = DirFacts { entries: 1, has_missing: false, has_broken: false };
    Problem { path: path(names), statement: ok, tests: ok, editorial: ok, sources: ok, mirrors: None }
}

#[test]
fn rows_and_tables_from_values() {
    let mut p = plain(&["r", "p"]);
    p.tests = DirFacts { entries: 0, has_missing: false, has_broken: false };
    p.editorial = DirFacts { entries: 4, has_missing: false, has_broken: true };
    p.mirrors = Some("{\"b\": \"2\", \"a\": \"1\", \"k\": 7}".to_string());
    assert_eq!(row_of("name", &p), "| name | Ok | Gol | Incomplet | Ok | [a](1), [b](2) |\n");
    let table = markdown_from_problems(&vec![p, plain(&["r", "q"])], &path(&["r"])).unwrap();
    assert_eq!(
        table,
        format!("{}| p | Ok | Gol | Incomplet | Ok | [a](1), [b](2) |\n| q | Ok | Ok | Ok | Ok |  |\n", HEAD)
    );
    assert_eq!(markdown_from_problems(&vec![], &path(&["r"])), Ok(HEAD.to_string()));
    assert_eq!(markdown_from_tree(&vec![], &path(&["r"])), Ok(String::new()));
}

#[test]
fn malformed_sidecar_gives_empty_cell() {
    let mut p = plain(&["r", "p"]);
    p.mirrors = Some("{oops".to_string());
    assert_eq!(row_of("p", &p), "| p | Ok | Ok | Ok | Ok |  |\n");
}

#[test]
fn conflict_stops_the_report() {
    let mut bad = plain(&["r", "bad"]);
    bad.sources = DirFacts { entries: 2, has_missing: true, has_broken: true };
    let mut worse = plain(&["r", "worse"]);
    worse.statement = DirFacts { entries: 2, has_missing: true, has_broken: true };
    let files = vec![plain(&["r", "a"]), bad, worse];
    assert_eq!(markdown_from_problems(&files, &path(&["r"])), Err(Conflict { position: 1 }));
    let tree: Vec<Tree> = vec![Tree::Node(path(&["r"]))].into_iter().chain(files.into_iter().map(Tree::Leaf)).collect();
    assert_eq!(markdown_from_tree(&tree, &path(&["r"])), Err(Conflict { position: 2 }));
}

#[test]
fn conflict_in_a_snapshot() {
    let p = dir("p", vec![
        dir("surse", vec![file("broken.md"), file("missing.md")]),
        full("enunt"),
        full("teste"),
        full("editorial"),
    ]);
    let root = dir("root", vec![problem("a"), p]);
    assert_eq!(make_markdown_table(&root, &path(&["root"])), Err(Conflict { position: 1 }));
    assert_eq!(make_markdown_readme(&root, &path(&["root"])), Err(Conflict { position: 2 }));
    assert_eq!(create_readme(&root, &path(&["root"]), &options(true, false)), Err(Conflict { position: 1 }));
}

#[test]
fn problem_facts_come_from_the_snapshot() {
    let p = dir("p", vec![
        dir("surse", vec![file("broken.md"), file("main.cpp")]),
        dir("enunt", vec![file("missing.md")]),
        dir("teste", vec![]),
        dir("editorial", vec![file("a"), file("b"), file("c")]),
        file_with("mirrors.json", "{}"),
    ]);
    let got = problem_of(&p, path(&["r", "p"]));
    assert_eq!(got.path, path(&["r", "p"]));
    assert_eq!(got.sources, DirFacts { entries: 2, has_missing: false, has_broken: true });
    assert_eq!(got.statement, DirFacts { entries: 1, has_missing: true, has_broken: false });
    assert_eq!(got.tests, DirFacts { entries: 0, has_missing: false, has_broken: false });
    assert_eq!(got.editorial, DirFacts { entries: 3, has_missing: false, has_broken: false });
    assert_eq!(got.mirrors, Some("{}".to_string()));
}

#[test]
fn readme_keeps_the_text_before_the_marker() {
    let root = dir("root", vec![problem("a"), file_with("README.md", "Hello\n# Generated Summary\n\nstale")]);
    let merged = create_readme(&root, &path(&["root"]), &options(true, false)).unwrap();
    assert_eq!(merged, format!("Hello\n# Generated Summary\n\n{}| a | Ok | Ok | Ok | Ok |  |\n", HEAD));
    let fresh = create_readme(&root, &path(&["root"]), &options(true, true)).unwrap();
    assert_eq!(fresh, format!("{}| a | Ok | Ok | Ok | Ok |  |\n", HEAD));
    let nested = create_readme(&root, &path(&["root"]), &options(false, false)).unwrap();
    assert_eq!(
        nested,
        format!("Hello\n# Generated Summary\n\n# root\n\n{}| a | Ok | Ok | Ok | Ok |  |\n", HEAD)
    );
}

#[test]
fn recursive_reports_one_per_branch() {
    let root = dir("root", vec![
        dir("b", vec![problem("q"), dir("none", vec![])]),
        dir("a", vec![dir("x", vec![problem("p")])]),
        problem("c"),
    ]);
    let mut readmes: Vec<Readme> = Vec::new();
    create_readme_recursive(&root, &path(&["root"]), &options(false, true), &mut readmes);
    let paths: Vec<String> = readmes.iter().map(|r| r.path.join("/")).collect();
    assert_eq!(paths, vec!["root", "root/a", "root/a/x", "root/b"]);
    assert_eq!(
        readmes[2].content,
        Ok(format!("# x\n\n{}| p | Ok | Ok | Ok | Ok |  |\n", HEAD))
    );
    assert_eq!(
        readmes[1].content,
        Ok(format!("# a\n\n## x\n\n{}| p | Ok | Ok | Ok | Ok |  |\n", HEAD))
    );
    assert_eq!(
        readmes[3].content,
        Ok(format!("# b\n\n{}| q | Ok | Ok | Ok | Ok |  |\n", HEAD))
    );
}

#[test]
fn report_does_not_depend_on_listing_order() {
    let one = dir("root", vec![problem("b"), dir("d", vec![problem("y"), problem("x")]), problem("a"), problem("c")]);
    let two = dir("root", vec![problem("c"), problem("a"), problem("b"), dir("d", vec![problem("x"), problem("y")])]);
    let at = path(&["root"]);
    assert_eq!(make_markdown_readme(&one, &at), make_markdown_readme(&two, &at));
    assert_eq!(make_markdown_table(&one, &at), make_markdown_table(&two, &at));
    let expected = format!(
        "{}| a | Ok | Ok | Ok | Ok |  |\n| b | Ok | Ok | Ok | Ok |  |\n| c | Ok | Ok | Ok | Ok |  |\n| d/x | Ok | Ok | Ok | Ok |  |\n| d/y | Ok | Ok | Ok | Ok |  |\n",
        HEAD
    );
    assert_eq!(make_markdown_table(&one, &at), Ok(expected));
}

#[test]
fn shallower_branch_after_a_deep_one_gets_its_own_level() {
    let root = dir("root", vec![
        dir("a", vec![dir("b", vec![dir("c", vec![problem("p")])])]),
        dir("z", vec![problem("q")]),
    ]);
    let text = make_markdown_readme(&root, &path(&["root"])).unwrap();
    let expected = format!(
        "# root\n\n## a\n\n### b\n\n#### c\n\n{h}| p | Ok | Ok | Ok | Ok |  |\n\n## z\n\n{h}| q | Ok | Ok | Ok | Ok |  |\n",
        h = HEAD
    );
    assert_eq!(text, expected);
}

#[test]
fn rows_are_in_byte_order_of_the_names() {
    let root = dir("root", vec![problem("b"), problem("B"), problem("a9"), problem("a10")]);
    let text = make_markdown_readme(&root, &path(&["root"])).unwrap();
    let expected = format!(
        "# root\n\n{}| B | Ok | Ok | Ok | Ok |  |\n| a10 | Ok | Ok | Ok | Ok |  |\n| a9 | Ok | Ok | Ok | Ok |  |\n| b | Ok | Ok | Ok | Ok |  |\n",
        HEAD
    );
    assert_eq!(text, expected);
    let flat = make_markdown_table(&root, &path(&["root"])).unwrap();
    assert_eq!(flat, expected["# root\n\n".len()..]);
}

#[test]
fn deep_problem_keeps_its_branches_and_empty_ones_go() {
    let root = dir("root", vec![
        dir("e", vec![dir("f", vec![])]),
        dir("a", vec![dir("b", vec![dir("c", vec![problem("d")])])]),
    ]);
    let mut tree = Vec::new();
    assert!(build_tree(&root, &path(&["root"]), &mut tree));
    assert_eq!(
        shape(&tree),
        vec!["N:root", "N:root/a", "N:root/a/b", "N:root/a/b/c", "L:root/a/b/c/d"]
    );
}

#[test]
fn collected_problems_of_two_branches() {
    let root = dir("root", vec![dir("b", vec![problem("c")]), problem("a")]);
    let mut problems = Vec::new();
    collect_problems(&root, &path(&["root"]), &mut problems);
    let names: Vec<String> = problems.iter().map(|p| p.path.join("/")).collect();
    assert_eq!(names, vec!["root/a", "root/b/c"]);
    let table = make_markdown_table(&root, &path(&["root"])).unwrap();
    let rows: Vec<&str> = table.lines().collect();
    assert_eq!(rows.len(), 4);
    assert_eq!(rows[2], "| a | Ok | Ok | Ok | Ok |  |");
    assert_eq!(rows[3], "| b/c | Ok | Ok | Ok | Ok |  |");
}

#[test]
fn collected_problems_do_not_depend_on_listing_order() {
    let one = dir("root", vec![dir("b", vec![problem("c"), problem("a")]), problem("a"), dir("B", vec![problem("z")])]);
    let two = dir("root", vec![dir("B", vec![problem("z")]), problem("a"), dir("b", vec![problem("a"), problem("c")])]);
    let mut first = Vec::new();
    let mut second = Vec::new();
    collect_problems(&one, &path(&["root"]), &mut first);
    collect_problems(&two, &path(&["root"]), &mut second);
    let names = |ps: &Vec<Problem>| ps.iter().map(|p| p.path.join("/")).collect::<Vec<String>>();
    assert_eq!(names(&first), names(&second));
    assert_eq!(names(&first), vec!["root/B/z", "root/a", "root/b/a", "root/b/c"]);
}

#[test]
fn single_leaf_with_sidecar_in_nested_report() {
    let mut p = plain(&["r", "p"]);
    p.mirrors = Some("{\"codeforces\": \"https://cf.example/123\"}".to_string());
    let text = markdown_from_tree(&vec![Tree::Leaf(p)], &path(&["r"])).unwrap();
    assert_eq!(text, format!("{}| p | Ok | Ok | Ok | Ok | [codeforces](https://cf.example/123) |\n", HEAD));
}
