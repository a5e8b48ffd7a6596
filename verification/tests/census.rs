use fcount::list_files::{build_directory_tree, classify_entry, Classification, FilterConfig,
    FsEntry};
use fcount::print::{generate_tree_prefix, render_tree_file, render_tree_num, TreeLine};
use fcount::tree::TreeNode;
use fcount::FileStats;

fn no_filters() -> FilterConfig {
    FilterConfig {
        ext: None,
        ignore_dirs: vec![],
        min_size: 0,
        max_size: u64::MAX,
        pattern: None,
        max_depth: 0,
    }
}

fn file(name: &str, size: u64) -> FsEntry {
    FsEntry::File { name: name.to_string(), size }
}

fn dir(name: &str, entries: Vec<FsEntry>) -> FsEntry {
    FsEntry::Dir { name: name.to_string(), entries }
}

/// The sample tree: a.txt (500), b.log (2000), sub/c.txt (10).
fn sample() -> Vec<FsEntry> {
    vec![file("a.txt", 500), file("b.log", 2000), dir("sub", vec![file("c.txt", 10)])]
}

fn dir_fields(node: &TreeNode) -> (&str, usize, u64, usize, u64, &Vec<TreeNode>, &Vec<TreeNode>) {
    match node {
        TreeNode::Directory {
            name,
            files,
            dirs,
            direct_files,
            direct_size,
            total_files,
            total_size,
            ..
        } => (name.as_str(), *direct_files, *direct_size, *total_files, *total_size, files, dirs),
        TreeNode::File { .. } => panic!("expected a directory node"),
    }
}

#[test]
fn txt_filter_keeps_two_files() {
    let mut cfg = no_filters();
    cfg.ext = Some("txt".to_string());
    let tree = build_directory_tree("root".to_string(), &sample(), &cfg, 0).unwrap();
    let (name, direct_files, direct_size, total_files, total_size, files, dirs) = dir_fields(
        &tree,
    );
    assert_eq!(name, "root");
    assert_eq!(direct_files, 1);
    assert_eq!(direct_size, 500);
    assert_eq!(total_files, 2);
    assert_eq!(total_size, 510);
    assert_eq!(files.len(), 1);
    assert_eq!(dirs.len(), 1);
    let (sub_name, sub_direct, _, sub_total, sub_total_size, _, _) = dir_fields(&dirs[0]);
    assert_eq!(sub_name, "sub");
    assert_eq!(sub_direct, 1);
    assert_eq!(sub_total, 1);
    assert_eq!(sub_total_size, 10);
}

#[test]
fn min_size_and_extension_leave_nothing() {
    let mut cfg = no_filters();
    cfg.ext = Some("txt".to_string());
    cfg.min_size = fcount::file_size::parse_size("1KB").unwrap();
    let r = build_directory_tree("root".to_string(), &sample(), &cfg, 0);
    assert!(r.is_none());
}

#[test]
fn ignored_directory_is_never_entered() {
    let mut cfg = no_filters();
    cfg.ignore_dirs = vec!["sub".to_string()];
    let tree = build_directory_tree("root".to_string(), &sample(), &cfg, 0).unwrap();
    let (_, direct_files, _, total_files, total_size, _, dirs) = dir_fields(&tree);
    assert_eq!(direct_files, 2);
    assert_eq!(total_files, 2);
    assert_eq!(total_size, 2500);
    assert!(dirs.is_empty());

    // the subtree is skipped whatever it holds
    let loaded = vec![file("a.txt", 500), file("b.log", 2000), dir(
        "sub",
        vec![file("unique.rs", 77), dir("deep", vec![file("x.c", 1)])],
    )];
    let tree = build_directory_tree("root".to_string(), &loaded, &cfg, 0).unwrap();
    let (_, _, _, total_files, _, _, dirs) = dir_fields(&tree);
    assert_eq!(total_files, 2);
    assert!(dirs.is_empty());
}

#[test]
fn depth_limit_stops_one_level_above() {
    // root/sub/nested/d.txt with max depth 1: sub is scanned for direct
    // files only, so nested and d.txt are invisible
    let entries = vec![dir("sub", vec![dir("nested", vec![file("d.txt", 4)])])];
    let mut cfg = no_filters();
    cfg.max_depth = 1;
    assert!(build_directory_tree("root".to_string(), &entries, &cfg, 0).is_none());

    // a direct file of sub is still counted at depth 1
    let entries = vec![
        dir("sub", vec![file("c.txt", 10), dir("nested", vec![file("d.txt", 4)])]),
    ];
    let tree = build_directory_tree("root".to_string(), &entries, &cfg, 0).unwrap();
    let (_, _, _, total_files, total_size, _, dirs) = dir_fields(&tree);
    assert_eq!(total_files, 1);
    assert_eq!(total_size, 10);
    let (_, _, _, sub_total, _, _, sub_dirs) = dir_fields(&dirs[0]);
    assert_eq!(sub_total, 1);
    assert!(sub_dirs.is_empty());

    // without the limit the nested file is found
    cfg.max_depth = 0;
    let tree = build_directory_tree("root".to_string(), &entries, &cfg, 0).unwrap();
    let (_, _, _, total_files, _, _, _) = dir_fields(&tree);
    assert_eq!(total_files, 2);
}

#[test]
fn hidden_entries_lose_against_every_filter() {
    // .env and .git would match the filters, but hidden wins
    let entries = vec![file(".env", 100), dir(".git", vec![file("config.txt", 5)]), file(
        "kept.txt",
        100,
    )];
    let mut cfg = no_filters();
    cfg.ext = Some("env".to_string());
    let r = build_directory_tree("root".to_string(), &entries, &cfg, 0);
    assert!(r.is_none());

    cfg.ext = None;
    let tree = build_directory_tree("root".to_string(), &entries, &cfg, 0).unwrap();
    let (_, direct_files, _, total_files, _, files, dirs) = dir_fields(&tree);
    assert_eq!(direct_files, 1);
    assert_eq!(total_files, 1);
    assert_eq!(files.len(), 1);
    assert!(dirs.is_empty());

    let c = classify_entry(".env", false, 100, &no_filters());
    assert!(matches!(c, Classification::Reject));
}

#[test]
fn children_are_sorted_by_name() {
    let entries = vec![
        file("b.txt", 2),
        dir("zeta", vec![file("z.txt", 1)]),
        file("a.txt", 1),
        dir("alpha", vec![file("y.txt", 1)]),
        file("c.txt", 3),
    ];
    let tree = build_directory_tree("root".to_string(), &entries, &no_filters(), 0).unwrap();
    let (_, _, _, _, _, files, dirs) = dir_fields(&tree);
    let file_names: Vec<&str> = files
        .iter()
        .map(|f| match f {
            TreeNode::File { name, .. } => name.as_str(),
            TreeNode::Directory { name, .. } => name.as_str(),
        })
        .collect();
    assert_eq!(file_names, vec!["a.txt", "b.txt", "c.txt"]);
    let dir_names: Vec<&str> = dirs.iter().map(|d| dir_fields(d).0).collect();
    assert_eq!(dir_names, vec!["alpha", "zeta"]);
}

#[test]
fn size_bounds_are_inclusive() {
    let entries = vec![file("small", 9), file("low", 10), file("high", 20), file("big", 21)];
    let mut cfg = no_filters();
    cfg.min_size = 10;
    cfg.max_size = 20;
    let tree = build_directory_tree("root".to_string(), &entries, &cfg, 0).unwrap();
    let (_, direct_files, direct_size, _, _, _, _) = dir_fields(&tree);
    assert_eq!(direct_files, 2);
    assert_eq!(direct_size, 30);
}

#[test]
fn pattern_filters_files() {
    let entries = vec![file("main.rs", 10), file("lib.rs", 20), file("notes.md", 30)];
    let mut cfg = no_filters();
    cfg.pattern = Some("*.rs".to_string());
    let tree = build_directory_tree("root".to_string(), &entries, &cfg, 0).unwrap();
    let (_, direct_files, direct_size, _, _, _, _) = dir_fields(&tree);
    assert_eq!(direct_files, 2);
    assert_eq!(direct_size, 30);
}

#[test]
fn file_paths_are_joined() {
    let entries = vec![file("a.txt", 1)];
    let tree = build_directory_tree("root".to_string(), &entries, &no_filters(), 0).unwrap();
    let (_, _, _, _, _, files, _) = dir_fields(&tree);
    match &files[0] {
        TreeNode::File { name, path, size } => {
            assert_eq!(name, "a.txt");
            assert_eq!(path, "root/a.txt");
            assert_eq!(*size, 1);
        },
        TreeNode::Directory { .. } => panic!("expected a file node"),
    }
}

#[test]
fn node_constructors_derive_names() {
    match TreeNode::new_file("a/b/c.txt".to_string(), 7) {
        TreeNode::File { name, path, size } => {
            assert_eq!(name, "c.txt");
            assert_eq!(path, "a/b/c.txt");
            assert_eq!(size, 7);
        },
        TreeNode::Directory { .. } => panic!("expected a file node"),
    }
    match TreeNode::new_directory("a/b/".to_string()) {
        TreeNode::Directory { name, total_files, .. } => {
            assert_eq!(name, "b");
            assert_eq!(total_files, 0);
        },
        TreeNode::File { .. } => panic!("expected a directory node"),
    }
    match TreeNode::new_directory(".".to_string()) {
        TreeNode::Directory { name, .. } => assert_eq!(name, "."),
        TreeNode::File { .. } => panic!("expected a directory node"),
    }
    // a path ending in the parent-directory marker keeps the whole path
    match TreeNode::new_directory("a/..".to_string()) {
        TreeNode::Directory { name, .. } => assert_eq!(name, "a/.."),
        TreeNode::File { .. } => panic!("expected a directory node"),
    }
}

#[test]
fn prefixes_connect_the_tree() {
    assert_eq!(generate_tree_prefix(&vec![]), "");
    assert_eq!(generate_tree_prefix(&vec![true]), "└── ");
    assert_eq!(generate_tree_prefix(&vec![false]), "├── ");
    assert_eq!(generate_tree_prefix(&vec![false, true]), "│   └── ");
    assert_eq!(generate_tree_prefix(&vec![true, false]), "    ├── ");
}

#[test]
fn stats_render_lists_directories_only() {
    let mut cfg = no_filters();
    cfg.ext = Some("txt".to_string());
    let tree = build_directory_tree("root".to_string(), &sample(), &cfg, 0).unwrap();
    let mut stats = FileStats::new();
    let mut out: Vec<TreeLine> = Vec::new();
    render_tree_num(&tree, &vec![], &mut stats, true, &mut out);
    assert_eq!(out.len(), 2);
    match &out[0] {
        TreeLine::DirStats { prefix, name, root, files, size, show } => {
            assert_eq!(prefix, "");
            assert_eq!(name, "root");
            assert!(*root);
            assert_eq!(*files, 2);
            assert_eq!(*size, 510);
            assert!(*show);
        },
        _ => panic!("expected a directory line"),
    }
    match &out[1] {
        TreeLine::DirStats { prefix, name, root, files, size, .. } => {
            assert_eq!(prefix, "└── ");
            assert_eq!(name, "sub");
            assert!(!*root);
            assert_eq!(*files, 1);
            assert_eq!(*size, 10);
        },
        _ => panic!("expected a directory line"),
    }
    // each kept byte is counted once: the run total is the root's total
    assert_eq!(stats.total_dirs, 2);
    assert_eq!(stats.total_files, 2);
    assert_eq!(stats.total_bytes, 510);
}

#[test]
fn full_render_lists_files_before_directories() {
    let mut cfg = no_filters();
    cfg.ext = Some("txt".to_string());
    let tree = build_directory_tree("root".to_string(), &sample(), &cfg, 0).unwrap();
    let mut stats = FileStats::new();
    let mut out: Vec<TreeLine> = Vec::new();
    render_tree_file(&tree, &vec![], &mut stats, &mut out);
    assert_eq!(out.len(), 4);
    match &out[0] {
        TreeLine::DirFull { name, root, size, .. } => {
            assert_eq!(name, "root");
            assert!(*root);
            assert_eq!(*size, 510);
        },
        _ => panic!("expected the root line"),
    }
    match &out[1] {
        TreeLine::FileFull { prefix, name, size, exe } => {
            assert_eq!(prefix, "├── ");
            assert_eq!(name, "a.txt");
            assert_eq!(*size, 500);
            assert!(!*exe);
        },
        _ => panic!("expected a file line"),
    }
    match &out[2] {
        TreeLine::DirFull { prefix, name, .. } => {
            assert_eq!(prefix, "└── ");
            assert_eq!(name, "sub");
        },
        _ => panic!("expected a directory line"),
    }
    match &out[3] {
        TreeLine::FileFull { prefix, name, .. } => {
            assert_eq!(prefix, "    └── ");
            assert_eq!(name, "c.txt");
        },
        _ => panic!("expected a file line"),
    }
    // each kept byte is counted once here too
    assert_eq!(stats.total_dirs, 2);
    assert_eq!(stats.total_files, 2);
    assert_eq!(stats.total_bytes, 510);
}

#[test]
fn executables_are_marked() {
    let entries = vec![file("tool.EXE", 10), file("plain.txt", 5)];
    let tree = build_directory_tree("root".to_string(), &entries, &no_filters(), 0).unwrap();
    let mut stats = FileStats::new();
    let mut out: Vec<TreeLine> = Vec::new();
    render_tree_file(&tree, &vec![], &mut stats, &mut out);
    let mut seen_exe = false;
    for line in &out {
        if let TreeLine::FileFull { name, exe, .. } = line {
            if name == "tool.EXE" {
                assert!(*exe);
                seen_exe = true;
            } else {
                assert!(!*exe);
            }
        }
    }
    assert!(seen_exe);
}

#[test]
fn stats_fold_saturates() {
    let mut a = FileStats::new();
    a.total_files = 1;
    a.total_dirs = 2;
    a.total_bytes = 3;
    let mut b = FileStats::new();
    b.total_files = 10;
    b.total_dirs = 20;
    b.total_bytes = u64::MAX;
    a.absorb(&b);
    assert_eq!(a.total_files, 11);
    assert_eq!(a.total_dirs, 22);
    assert_eq!(a.total_bytes, u64::MAX);
}

#[test]
fn empty_listing_builds_nothing() {
    let r = build_directory_tree("root".to_string(), &vec![], &no_filters(), 0);
    assert!(r.is_none());
}

#[test]
fn totals_add_up_across_levels() {
    // total = direct + sum of retained children's totals, at every level
    let entries = vec![
        file("top.txt", 100),
        dir(
            "one",
            vec![file("a.txt", 10), dir("two", vec![file("b.txt", 20), file("c.txt", 30)])],
        ),
    ];
    let tree = build_directory_tree("root".to_string(), &entries, &no_filters(), 0).unwrap();
    let (_, direct, dsize, total, tsize, _, dirs) = dir_fields(&tree);
    assert_eq!((direct, dsize), (1, 100));
    assert_eq!((total, tsize), (4, 160));
    let (_, d1, s1, t1, ts1, _, dirs1) = dir_fields(&dirs[0]);
    assert_eq!((d1, s1), (1, 10));
    assert_eq!((t1, ts1), (3, 60));
    let (_, d2, s2, t2, ts2, _, _) = dir_fields(&dirs1[0]);
    assert_eq!((d2, s2), (2, 50));
    assert_eq!((t2, ts2), (2, 50));
}
