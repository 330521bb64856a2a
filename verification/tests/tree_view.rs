use rc::exit_code::ExitCode;
use rc::tree::{take_page, PageResult};
use rc::tree::build_tree_checked;
use rc::pattern::NamePattern;
use rc::tree::{
    absorb_page, build_tree, insert_into_tree, print_tree, start_listing, total_size_line,
    tree_root_name, tree_summary_line, tree_to_output, ObjectInfo, TreeArgs, TreeNode,
    TreeOutput, TreeStats,
};

fn obj(key: &str, size: Option<i64>) -> ObjectInfo {
    ObjectInfo {
        key: key.to_string(),
        is_dir: false,
        size_bytes: size,
        size_human: size.map(|s| format!("{s} B")),
    }
}

fn args(level: usize, size: bool) -> TreeArgs {
    TreeArgs {
        path: "alias/bucket".to_string(),
        level,
        size,
        dirs_only: false,
        pattern: None,
        full_path: false,
    }
}

fn names(children: &Option<Vec<TreeOutput>>) -> Vec<String> {
    children
        .as_ref()
        .map(|c| c.iter().map(|n| n.name.clone()).collect())
        .unwrap_or_default()
}

fn sample() -> Vec<ObjectInfo> {
    vec![
        obj("photos/2024/a.jpg", Some(100)),
        obj("photos/b.jpg", Some(200)),
        obj("docs/readme.md", Some(50)),
    ]
}

#[test]
fn builds_sorted_tree_with_counts() {
    let objects = sample();
    assert!(build_tree_checked(&objects, "", "bucket", &args(3, true), None).is_some());
    let (tree, stats) = build_tree(&objects, "", "bucket", &args(3, true), None);
    assert_eq!(tree.name, "bucket");
    assert!(tree.is_dir);
    assert_eq!(names(&tree.children), vec!["docs", "photos"]);
    let photos = &tree.children.as_ref().unwrap()[1];
    assert_eq!(names(&photos.children), vec!["2024", "b.jpg"]);
    let b = &photos.children.as_ref().unwrap()[1];
    assert_eq!(b.size_bytes, Some(200));
    assert_eq!(b.size_human.as_deref(), Some("200 B"));
    assert!(b.children.is_none());
    assert_eq!(stats.dirs, 3);
    assert_eq!(stats.files, 3);
    assert_eq!(stats.total_size, 350);
}

#[test]
fn sizes_hidden_unless_asked() {
    let (tree, _) = build_tree(&sample(), "", "bucket", &args(3, false), None);
    let docs = &tree.children.as_ref().unwrap()[0];
    let readme = &docs.children.as_ref().unwrap()[0];
    assert_eq!(readme.size_bytes, None);
    assert_eq!(readme.size_human, None);
}

#[test]
fn names_ordered_by_code_point() {
    let objects = vec![obj("b", None), obj("a", None), obj("B", None), obj("ä", None), obj("ab", None)];
    let (tree, stats) = build_tree(&objects, "", "r", &args(3, false), None);
    assert_eq!(names(&tree.children), vec!["B", "a", "ab", "b", "ä"]);
    assert_eq!(stats.files, 5);
}

#[test]
fn level_limits_depth() {
    let (tree, stats) = build_tree(&sample(), "", "bucket", &args(2, false), None);
    let photos = &tree.children.as_ref().unwrap()[1];
    assert_eq!(names(&photos.children), vec!["b.jpg"]);
    assert_eq!(stats.files, 2);
    let (tree, _) = build_tree(&sample(), "", "bucket", &args(0, false), None);
    assert!(tree.children.is_none());
}

#[test]
fn base_prefix_and_leading_slashes_are_cut() {
    let objects = vec![obj("photos/2024/a.jpg", None), obj("photos//b.jpg", None), obj("photos/", None)];
    let (tree, stats) = build_tree(&objects, "photos/", "photos/", &args(3, false), None);
    assert_eq!(names(&tree.children), vec!["2024", "b.jpg"]);
    assert_eq!(stats.dirs, 1);
    assert_eq!(stats.files, 2);
}

#[test]
fn dirs_only_and_pattern_filter() {
    let mut objects = sample();
    objects.push(ObjectInfo { key: "docs/".to_string(), is_dir: true, size_bytes: None, size_human: None });
    let mut a = args(3, false);
    a.dirs_only = true;
    let (tree, stats) = build_tree(&objects, "", "b", &a, None);
    assert_eq!(names(&tree.children), vec!["docs"]);
    let docs = &tree.children.as_ref().unwrap()[0];
    assert_eq!(names(&docs.children), vec![""]);
    assert_eq!(stats.dirs, 2);
    assert_eq!(stats.files, 0);

    let pattern = NamePattern::new("*.md").unwrap();
    let (tree, stats) = build_tree(&sample(), "", "b", &args(3, false), Some(&pattern));
    assert_eq!(names(&tree.children), vec!["docs"]);
    assert_eq!(stats.files, 1);
}

#[test]
fn later_leaf_replaces_directory() {
    let objects = vec![obj("a/b", Some(1)), obj("a", Some(2))];
    let (tree, stats) = build_tree(&objects, "", "r", &args(3, true), None);
    let a = &tree.children.as_ref().unwrap()[0];
    assert_eq!(a.name, "a");
    assert!(!a.is_dir);
    assert!(a.children.is_none());
    assert_eq!(stats.dirs, 1);
    assert_eq!(stats.files, 2);
    assert_eq!(stats.total_size, 3);
}

#[test]
fn insert_then_output() {
    let mut tree: Vec<TreeNode> = Vec::new();
    let mut stats = TreeStats { dirs: 0, files: 0, total_size: 0 };
    let o = obj("x/y", Some(7));
    insert_into_tree(&mut tree, &["x".to_string(), "y".to_string()], &o, &mut stats);
    insert_into_tree(&mut tree, &["w".to_string()], &o, &mut stats);
    let out = tree_to_output(&tree, true);
    assert_eq!(out.len(), 2);
    assert_eq!(out[0].name, "w");
    assert_eq!(out[1].name, "x");
    assert_eq!(out[1].children.as_ref().unwrap()[0].size_bytes, Some(7));
    assert_eq!((stats.dirs, stats.files, stats.total_size), (1, 2, 14));
}

#[test]
fn printing_from_the_top_draws_a_tree() {
    let (tree, _) = build_tree(&sample(), "", "bucket", &args(3, true), None);
    let lines = print_tree(&tree, "", true, true);
    assert_eq!(
        lines,
        vec![
            "bucket/",
            "├── docs/",
            "│   └── readme.md [50 B]",
            "└── photos/",
            "    ├── 2024/",
            "    │   └── a.jpg [100 B]",
            "    └── b.jpg [200 B]",
        ]
    );
}

#[test]
fn printing_a_small_tree_by_hand() {
    let leaf = |n: &str| TreeOutput { name: n.to_string(), is_dir: false, children: None, size_bytes: None, size_human: None };
    let a = TreeOutput { name: "a".to_string(), is_dir: true, children: Some(vec![leaf("x.txt")]), size_bytes: None, size_human: None };
    let root = TreeOutput { name: "bkt".to_string(), is_dir: true, children: Some(vec![a, leaf("b.txt")]), size_bytes: None, size_human: None };
    assert_eq!(print_tree(&root, "", true, false), vec!["bkt/", "├── a/", "│   └── x.txt", "└── b.txt"]);
}

#[test]
fn printing_below_a_prefix_draws_branches() {
    let (tree, _) = build_tree(&sample(), "", "bucket", &args(3, false), None);
    let lines = print_tree(&tree, "> ", true, false);
    assert_eq!(
        lines,
        vec![
            "> └── bucket/",
            ">     ├── docs/",
            ">     │   └── readme.md",
            ">     └── photos/",
            ">         ├── 2024/",
            ">         │   └── a.jpg",
            ">         └── b.jpg",
        ]
    );
    let lines = print_tree(&tree, "> ", false, false);
    assert_eq!(lines[0], "> ├── bucket/");
    assert_eq!(lines[1], "> │   ├── docs/");
}

#[test]
fn one_line_per_node() {
    let (tree, _) = build_tree(&sample(), "", "bucket", &args(3, false), None);
    assert_eq!(print_tree(&tree, "", true, false).len(), 7);
}

#[test]
fn root_name_choice() {
    let mut a = args(3, false);
    assert_eq!(tree_root_name(&a, "bucket", &None), "bucket");
    assert_eq!(tree_root_name(&a, "bucket", &Some("p/q".to_string())), "p/q");
    a.full_path = true;
    assert_eq!(tree_root_name(&a, "bucket", &Some("p/q".to_string())), "alias/bucket");
}

#[test]
fn total_size_uses_binary_units() {
    assert_eq!(total_size_line(1536), "Total size: 1.50 KiB");
    assert_eq!(total_size_line(0), "Total size: 0 B");
}

#[test]
fn checked_build_refuses_overflowing_total() {
    assert!(build_tree_checked(&[], "", "b", &args(3, true), None).is_some());
    assert!(build_tree_checked(&[obj("a", Some(i64::MAX)), obj("b", Some(1))], "", "b", &args(3, true), None).is_none());
    assert!(build_tree_checked(&[obj("a", Some(i64::MIN)), obj("b", Some(-1))], "", "b", &args(3, true), None).is_none());
    // Entries that are left out never count: the level keeps `x/y` out.
    assert!(build_tree_checked(&[obj("a", Some(i64::MAX)), obj("x/y", Some(1))], "", "b", &args(1, true), None).is_some());
    // Sizes that cancel out on the way stay within range.
    assert!(build_tree_checked(&[obj("a", Some(i64::MAX)), obj("b", Some(-5)), obj("c", Some(5))], "", "b", &args(3, true), None).is_some());
}

#[test]
fn listing_pages() {
    let mut listing = start_listing();
    absorb_page(&mut listing, vec![obj("a", None)], true, Some("t1".to_string()));
    assert!(!listing.done);
    assert_eq!(listing.continuation_token.as_deref(), Some("t1"));
    absorb_page(&mut listing, vec![obj("b", None), obj("c", None)], false, None);
    assert!(listing.done);
    assert_eq!(listing.continuation_token.as_deref(), Some("t1"));
    let keys: Vec<&str> = listing.objects.iter().map(|o| o.key.as_str()).collect();
    assert_eq!(keys, vec!["a", "b", "c"]);
}

#[test]
fn glob_patterns() {
    let p = NamePattern::new("d?c*.md").unwrap();
    assert!(p.matches("doc1.md"));
    assert!(!p.matches("doc1.txt"));
    let e = NamePattern::new("a**b").err().unwrap();
    assert!(e.starts_with("Invalid pattern: "));
    assert!(e.len() > "Invalid pattern: ".len());
}

#[test]
fn summary_line_counts() {
    let stats = TreeStats { dirs: 3, files: 10, total_size: 0 };
    assert_eq!(tree_summary_line(&stats), "3 directories, 10 files");
    let stats = TreeStats { dirs: 0, files: 0, total_size: 5 };
    assert_eq!(tree_summary_line(&stats), "0 directories, 0 files");
}

#[test]
fn inserting_twice_counts_only_the_leaf() {
    let mut tree: Vec<TreeNode> = Vec::new();
    let mut stats = TreeStats { dirs: 0, files: 0, total_size: 0 };
    let o = obj("p/q/r", Some(5));
    let parts = vec!["p".to_string(), "q".to_string(), "r".to_string()];
    insert_into_tree(&mut tree, &parts, &o, &mut stats);
    assert_eq!((stats.dirs, stats.files, stats.total_size), (2, 1, 5));
    let first = tree_to_output(&tree, true);
    insert_into_tree(&mut tree, &parts, &o, &mut stats);
    assert_eq!((stats.dirs, stats.files, stats.total_size), (2, 2, 10));
    let second = tree_to_output(&tree, true);
    assert_eq!(print_tree_lines(&first), print_tree_lines(&second));
}

fn print_tree_lines(forest: &[TreeOutput]) -> Vec<String> {
    forest.iter().flat_map(|o| print_tree(o, "", true, true)).collect()
}

fn no_empty_lists(os: &[TreeOutput]) -> bool {
    os.iter().all(|o| match &o.children {
        None => true,
        Some(c) => !c.is_empty() && no_empty_lists(c),
    })
}

fn count_nodes(os: &[TreeOutput]) -> usize {
    os.iter().map(|o| 1 + o.children.as_deref().map_or(0, count_nodes)).sum()
}

#[test]
fn output_keeps_every_node() {
    let (tree, stats) = build_tree(&sample(), "", "bucket", &args(3, false), None);
    let children = tree.children.as_ref().unwrap();
    assert_eq!(count_nodes(children), stats.dirs + stats.files);
    assert!(no_empty_lists(children));
}

#[test]
fn deeper_level_never_counts_fewer_files() {
    let (_, shallow) = build_tree(&sample(), "", "bucket", &args(1, true), None);
    let (_, deep) = build_tree(&sample(), "", "bucket", &args(3, true), None);
    assert!(shallow.files <= deep.files);
    assert!(shallow.total_size <= deep.total_size);
    assert!(shallow.files < deep.files);
}

#[test]
fn failed_page_ends_listing() {
    let mut listing = start_listing();
    let r = take_page(&mut listing, PageResult::Page { items: vec![obj("a", None)], truncated: true, next_token: Some("t".to_string()) });
    assert!(r.is_none());
    assert!(!listing.done);
    let f = take_page(&mut listing, PageResult::Failed("timed out".to_string())).unwrap();
    assert!(listing.done);
    assert_eq!(listing.objects.len(), 1);
    assert_eq!(listing.continuation_token.as_deref(), Some("t"));
    assert_eq!(f.code, ExitCode::NetworkError);
    assert_eq!(f.message, "Failed to list objects: timed out");
}

#[test]
fn checked_build() {
    let (tree, stats) = build_tree_checked(&sample(), "", "bucket", &args(3, true), None).unwrap();
    let (tree2, stats2) = build_tree(&sample(), "", "bucket", &args(3, true), None);
    assert_eq!(print_tree(&tree, "", true, true), print_tree(&tree2, "", true, true));
    assert_eq!((stats.dirs, stats.files, stats.total_size), (stats2.dirs, stats2.files, stats2.total_size));
    let big = vec![obj("a", Some(i64::MAX)), obj("b", Some(1))];
    assert!(build_tree_checked(&big, "", "bucket", &args(3, true), None).is_none());
}

#[test]
fn invalid_pattern_message_carries_glob_error() {
    let e = NamePattern::new("a**b").err().unwrap();
    let expected = format!("Invalid pattern: {}", glob::Pattern::new("a**b").unwrap_err());
    assert_eq!(e, expected);
    assert!(expected.starts_with("Invalid pattern: Pattern syntax error near position "));
}
