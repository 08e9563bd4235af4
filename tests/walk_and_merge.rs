use lndir::engine::collect;
use lndir::merge::{is_rev_info, merge, Entry};
use lndir::options::Options;
use lndir::order::{compare_bytes, compare_paths};
use lndir::walk::{entries, Node};

fn b(s: &str) -> Vec<u8> {
    s.as_bytes().to_vec()
}

fn path(s: &str) -> Vec<Vec<u8>> {
    s.split('/').map(b).collect()
}

fn file(name: &str) -> Node {
    Node::File { name: b(name) }
}

fn dir(name: &str, children: Vec<Node>) -> Node {
    Node::Dir { name: b(name), children }
}

fn listed(e: &[Entry]) -> Vec<(Vec<Vec<u8>>, usize)> {
    e.iter().map(|x| (x.path.clone(), x.source)).collect()
}

#[test]
fn walk_lists_files_and_empty_directories_only() {
    let tree = vec![
        file("top.txt"),
        dir("full", vec![file("a"), dir("inner", vec![file("b")])]),
        dir("empty", vec![]),
    ];
    let r = entries(&tree, 1, None);
    assert_eq!(r, vec![path("top.txt"), path("full/a"), path("full/inner/b"), path("empty")]);
}

#[test]
fn walk_keeps_empty_directory_nested_in_full_one() {
    let tree = vec![dir("a", vec![dir("b", vec![]), file("c")])];
    assert_eq!(entries(&tree, 1, None), vec![path("a/b"), path("a/c")]);
}

#[test]
fn depth_bound_collapses_directories_at_the_bound() {
    let tree = vec![
        file("f"),
        dir("d", vec![file("x"), dir("e", vec![file("y")])]),
    ];
    assert_eq!(entries(&tree, 1, Some(1)), vec![path("f"), path("d")]);
    assert_eq!(entries(&tree, 1, Some(2)), vec![path("f"), path("d/x"), path("d/e")]);
    assert_eq!(entries(&tree, 1, Some(3)), vec![path("f"), path("d/x"), path("d/e/y")]);
}

#[test]
fn depth_bound_zero_lists_nothing() {
    let tree = vec![file("f"), dir("d", vec![file("x")])];
    assert_eq!(entries(&tree, 1, Some(0)), Vec::<Vec<Vec<u8>>>::new());
    assert_eq!(entries(&tree, 5, Some(4)), Vec::<Vec<Vec<u8>>>::new());
}

#[test]
fn walk_of_empty_root_is_empty() {
    assert_eq!(entries(&vec![], 1, None), Vec::<Vec<Vec<u8>>>::new());
}

#[test]
fn rev_info_matches_last_component_only() {
    for name in ["BitKeeper", "CVS", "CVS.adm", ".git", ".hg", "RCS", "SCCS", ".svn"] {
        assert!(is_rev_info(&path(name)), "{}", name);
        assert!(is_rev_info(&path(&format!("sub/{}", name))), "{}", name);
    }
    assert!(!is_rev_info(&path(".git/HEAD")));
    assert!(!is_rev_info(&path("git")));
    assert!(!is_rev_info(&path(".gitignore")));
    assert!(!is_rev_info(&path("cvs")));
    assert!(!is_rev_info(&vec![]));
}

#[test]
fn byte_and_path_order_is_lexicographic() {
    assert!(compare_bytes(&b("a"), &b("b")) < 0);
    assert!(compare_bytes(&b("ab"), &b("a")) > 0);
    assert_eq!(compare_bytes(&b("abc"), &b("abc")), 0);
    assert!(compare_bytes(&b(""), &b("a")) < 0);
    assert!(compare_paths(&path("a/z"), &path("b")) < 0);
    assert!(compare_paths(&path("a"), &path("a/b")) < 0);
    assert!(compare_paths(&path("a.b"), &path("a/b")) > 0);
    assert_eq!(compare_paths(&path("x/y"), &path("x/y")), 0);
    assert!(compare_paths(&path("x/y"), &path("x/x")) > 0);
}

#[test]
fn merge_orders_by_path_and_keeps_sources() {
    let found = vec![vec![path("b"), path("a/2")], vec![path("a/1"), path("c")]];
    let m = merge(&found, false).ok().unwrap();
    assert_eq!(listed(&m), vec![(path("a/1"), 1), (path("a/2"), 0), (path("b"), 0), (path("c"), 1)]);
}

#[test]
fn merge_reports_first_conflict() {
    let found = vec![vec![path("x"), path("y")], vec![path("z")], vec![path("y"), path("x")]];
    let c = merge(&found, false).err().unwrap();
    assert_eq!(c.path, path("y"));
    assert_eq!(c.first, 0);
    assert_eq!(c.second, 2);
}

#[test]
fn merge_conflict_within_one_source() {
    let found = vec![vec![path("x"), path("x")]];
    let c = merge(&found, false).err().unwrap();
    assert_eq!((c.path, c.first, c.second), (path("x"), 0, 0));
}

#[test]
fn merge_filters_rev_info_unless_asked() {
    let found = vec![vec![path(".git"), path("a/CVS"), path("a/b")], vec![path(".git")]];
    let m = merge(&found, false).ok().unwrap();
    assert_eq!(listed(&m), vec![(path("a/b"), 0)]);
    let c = merge(&found, true).err().unwrap();
    assert_eq!((c.path, c.first, c.second), (path(".git"), 0, 1));
    let m = merge(&vec![found[0].clone()], true).ok().unwrap();
    assert_eq!(listed(&m), vec![(path(".git"), 0), (path("a/CVS"), 0), (path("a/b"), 0)]);
}

#[test]
fn merge_of_nothing_is_empty() {
    assert!(merge(&vec![], false).ok().unwrap().is_empty());
    assert!(merge(&vec![vec![], vec![]], false).ok().unwrap().is_empty());
}

#[test]
fn two_sources_sharing_a_directory_are_merged() {
    let a = vec![dir("x", vec![file("1.txt")])];
    let bb = vec![dir("x", vec![file("2.txt")])];
    let m = collect(&vec![a, bb], &Options::new()).ok().unwrap();
    assert_eq!(listed(&m), vec![(path("x/1.txt"), 0), (path("x/2.txt"), 1)]);
}

#[test]
fn same_file_in_two_sources_conflicts() {
    let a = vec![dir("x", vec![file("1.txt")]), file("only_a")];
    let bb = vec![dir("x", vec![file("1.txt")])];
    let c = collect(&vec![a, bb], &Options::new()).err().unwrap();
    assert_eq!((c.path, c.first, c.second), (path("x/1.txt"), 0, 1));
}

#[test]
fn top_level_git_leaf_is_left_out_unless_asked() {
    let a = || vec![dir(".git", vec![]), file("readme")];
    let m = collect(&vec![a()], &Options::new()).ok().unwrap();
    assert_eq!(listed(&m), vec![(path("readme"), 0)]);
    let mut o = Options::new();
    o.with_rev_info = true;
    let m = collect(&vec![a()], &o).ok().unwrap();
    assert_eq!(listed(&m), vec![(path(".git"), 0), (path("readme"), 0)]);
}

#[test]
fn files_inside_git_directory_are_not_left_out() {
    let a = vec![dir(".git", vec![file("HEAD")])];
    let m = collect(&vec![a], &Options::new()).ok().unwrap();
    assert_eq!(listed(&m), vec![(path(".git/HEAD"), 0)]);
}

#[test]
fn collect_honours_depth_bound() {
    let a = vec![dir("d", vec![dir("e", vec![file("deep")])]), file("f")];
    let mut o = Options::new();
    o.max_depth = Some(2);
    let m = collect(&vec![a], &o).ok().unwrap();
    assert_eq!(listed(&m), vec![(path("d/e"), 0), (path("f"), 0)]);
}

#[test]
fn collect_twice_gives_the_same_map() {
    let a = vec![dir("x", vec![file("1.txt"), dir("e", vec![])])];
    let bb = vec![file("y")];
    let sources = vec![a, bb];
    let first = listed(&collect(&sources, &Options::new()).ok().unwrap());
    let second = listed(&collect(&sources, &Options::new()).ok().unwrap());
    assert_eq!(first, second);
}

#[test]
fn walk_started_below_the_root_has_less_room() {
    let tree = vec![dir("d", vec![file("x")]), file("f")];
    assert_eq!(entries(&tree, 2, Some(2)), vec![path("d"), path("f")]);
    assert_eq!(entries(&tree, 2, Some(3)), vec![path("d/x"), path("f")]);
    assert_eq!(entries(&tree, 0, Some(0)), vec![path("d"), path("f")]);
}
