use diskspace_insight::{
    extension_key, make_file, my_save_function, progress_due, scan_archive, ArchiveEntry, DirInfo,
    Directory, FsPath, TreeEntry,
};

fn p(s: &str) -> FsPath {
    let parts: Vec<String> = if s.is_empty() {
        Vec::new()
    } else {
        s.split('/').map(|x| x.to_string()).collect()
    };
    FsPath::new(String::new(), parts)
}

fn text(f: &FsPath) -> String {
    f.parts.join("/")
}

fn file(path: &str, size: u64, content: &[u8]) -> TreeEntry {
    TreeEntry::File { path: p(path), size, modified: 7, content: Some(content.to_vec()) }
}

fn dir(path: &str) -> TreeEntry {
    TreeEntry::Dir(p(path))
}

fn node<'a>(info: &'a DirInfo, path: &str) -> &'a Directory {
    let i = info.find_dir(&p(path)).expect("directory in tree");
    &info.tree[i]
}

fn scan_entries(root: &str, entries: Vec<TreeEntry>) -> DirInfo {
    let mut info = DirInfo::for_root(&p(root));
    for e in entries {
        info.record_entry(e);
    }
    info.finish();
    info
}

#[test]
fn tree() {
    let info = scan_entries(
        "treetest",
        vec![
            dir("treetest"),
            dir("treetest/a"),
            file("treetest/a/file_5m.5", 5_000_000, b"five"),
            dir("treetest/a/b"),
            file("treetest/a/b/file_10m.10", 10_000_000, b"ten"),
            dir("treetest/a/b/c"),
            file("treetest/a/b/c/file_15m.15", 15_000_000, b"fifteen"),
            dir("treetest/a/b/d"),
            file("treetest/a/b/d/file_20m.20", 20_000_000, b"twenty"),
            dir("treetest/a/.conf"),
            dir("treetest/a/.conf/c"),
        ],
    );
    let order: Vec<String> = info.files_by_size.iter().map(|f| text(&f.path)).collect();
    assert_eq!(
        order,
        vec![
            "treetest/a/b/d/file_20m.20",
            "treetest/a/b/c/file_15m.15",
            "treetest/a/b/file_10m.10",
            "treetest/a/file_5m.5",
        ]
    );
    assert_eq!(text(&info.dirs_by_size[0].path), "treetest/a/b/d");
    assert_eq!(info.dirs_by_size[0].size, 20_000_000);
    assert_eq!(node(&info, "treetest").combined_size, 50_000_000);
    assert_eq!(node(&info, "treetest/a").combined_size, 50_000_000);
    assert_eq!(node(&info, "treetest/a").size, 5_000_000);
    assert_eq!(node(&info, "treetest/a/b").combined_size, 45_000_000);
    assert_eq!(node(&info, "treetest/a/b/c").combined_size, 15_000_000);
    assert_eq!(node(&info, "treetest/a/b/d").combined_size, 20_000_000);
    assert_eq!(node(&info, "treetest/a/.conf").combined_size, 0);
    assert_eq!(info.combined_size, 50_000_000);
    // the parent of the scan root is noted, but receives no size
    assert_eq!(node(&info, "").combined_size, 0);
    assert_eq!(node(&info, "").directories.len(), 1);
}

#[test]
fn root_with_log_files() {
    let info = scan_entries(
        "R",
        vec![dir("R"), file("R/a.log", 5, b"aaaaa"), dir("R/b"), file("R/b/c.log", 10, b"cccccccccc")],
    );
    let r = node(&info, "R");
    assert_eq!(r.size, 5);
    assert_eq!(r.combined_size, 15);
    let b = node(&info, "R/b");
    assert_eq!(b.size, 10);
    assert_eq!(b.combined_size, 10);
    assert_eq!(info.filetypes.len(), 1);
    assert_eq!(info.filetypes[0].ext, "log");
    assert_eq!(info.filetypes[0].size, 15);
    assert_eq!(info.filetypes[0].files.len(), 2);
    let order: Vec<(String, u64)> =
        info.files_by_size.iter().map(|f| (text(&f.path), f.size)).collect();
    assert_eq!(order, vec![("R/b/c.log".to_string(), 10), ("R/a.log".to_string(), 5)]);
}

#[test]
fn identical_files_in_two_directories() {
    let content = vec![42u8; 100];
    let info = scan_entries(
        "R",
        vec![dir("R"), dir("R/x"), file("R/x/one.bin", 100, &content), dir("R/y"), file("R/y/two.bin", 100, &content)],
    );
    assert_eq!(info.duplicates.len(), 1);
    let group = &info.duplicates[0].1;
    assert_eq!(group.len(), 2);
    let total: u64 = group.iter().map(|f| f.size).sum();
    assert_eq!(total, 200);
}

#[test]
fn duplicate_group_of_n_and_no_singletons() {
    let mut entries = vec![dir("R")];
    for i in 0..4 {
        entries.push(file(&format!("R/same{}.dat", i), 3, b"same"));
    }
    for i in 0..3 {
        entries.push(file(&format!("R/other{}.dat", i), 3, format!("distinct {}", i).as_bytes()));
    }
    let info = scan_entries("R", entries);
    assert_eq!(info.duplicates.len(), 1);
    assert_eq!(info.duplicates[0].1.len(), 4);
    assert!(info.duplicates[0].1.iter().all(|f| text(&f.path).starts_with("R/same")));
}

#[test]
fn extension_groups_ignore_case() {
    let info = scan_entries("R", vec![dir("R"), file("R/a.TXT", 1, b"a"), file("R/b.txt", 2, b"b")]);
    assert_eq!(info.filetypes.len(), 1);
    assert_eq!(info.filetypes[0].ext, "txt");
    assert_eq!(info.filetypes[0].files.len(), 2);
    assert_eq!(info.filetypes[0].size, 3);
}

#[test]
fn files_without_extension_join_no_group() {
    let info = scan_entries(
        "R",
        vec![dir("R"), file("R/README", 4, b"read"), file("R/.bashrc", 2, b"rc"), file("R/x.md", 1, b"m")],
    );
    assert_eq!(info.filetypes.len(), 1);
    assert_eq!(info.filetypes[0].ext, "md");
    assert_eq!(info.files.len(), 3);
    assert_eq!(node(&info, "R").size, 7);
}

#[test]
fn extension_rules() {
    assert_eq!(extension_key(&"Archive.TAR.GZ".to_string()), Some("gz".to_string()));
    assert_eq!(extension_key(&"a.".to_string()), Some(String::new()));
    assert_eq!(extension_key(&".bashrc".to_string()), None);
    assert_eq!(extension_key(&"noext".to_string()), None);
    assert_eq!(extension_key(&"..".to_string()), None);
    assert_eq!(extension_key(&"...".to_string()), Some(String::new()));
    assert_eq!(extension_key(&"ÄRGER.PDF".to_string()), Some("pdf".to_string()));
}

#[test]
fn views_are_the_same_when_built_twice() {
    let info = scan_entries(
        "R",
        vec![
            dir("R"),
            file("R/a.x", 5, b"1"),
            file("R/b.y", 5, b"2"),
            dir("R/s"),
            file("R/s/c.x", 9, b"3"),
            file("R/s/d.y", 5, b"4"),
        ],
    );
    let paths = |v: &Vec<diskspace_insight::File>| v.iter().map(|f| text(&f.path)).collect::<Vec<_>>();
    assert_eq!(paths(&info.files_by_size()), paths(&info.files_by_size()));
    assert_eq!(paths(&info.files_by_size()), paths(&info.files_by_size));
    let types = |v: &Vec<diskspace_insight::FileType>| {
        v.iter().map(|t| (t.ext.clone(), t.size, paths(&t.files))).collect::<Vec<_>>()
    };
    assert_eq!(types(&info.types_by_size()), types(&info.types_by_size()));
    let dirs = |v: &Vec<Directory>| v.iter().map(|d| (text(&d.path), d.size)).collect::<Vec<_>>();
    assert_eq!(dirs(&info.dirs_by_size()), dirs(&info.dirs_by_size()));
    // equal sizes keep the order in which the files were found
    assert_eq!(paths(&info.files_by_size), vec!["R/s/c.x", "R/a.x", "R/b.y", "R/s/d.y"]);
}

#[test]
fn orderings_never_increase() {
    let info = scan_entries(
        "R",
        vec![
            dir("R"),
            file("R/a.x", 1, b"1"),
            file("R/b.y", 7, b"2"),
            dir("R/s"),
            file("R/s/c.x", 3, b"3"),
            file("R/s/d.y", 2, b"4"),
            file("R/s/e.x", 8, b"5"),
        ],
    );
    assert!(info.files_by_size.windows(2).all(|w| w[0].size >= w[1].size));
    assert!(info.dirs_by_size.windows(2).all(|w| w[0].size >= w[1].size));
    assert!(info.types_by_size.windows(2).all(|w| w[0].size >= w[1].size));
    for t in &info.types_by_size {
        assert!(t.files.windows(2).all(|w| w[0].size >= w[1].size));
    }
    assert_eq!(info.types_by_size[0].ext, "x");
    assert_eq!(info.types_by_size[0].size, 12);
    assert_eq!(info.types_by_size[0].files[0].size, 8);
    // directories are ordered by their own size, not their combined size
    assert_eq!(text(&info.dirs_by_size[0].path), "R/s");
    assert_eq!(info.dirs_by_size[0].size, 13);
}

#[test]
fn sizes_stop_below_the_root_parent() {
    let mut info = DirInfo::for_root(&p("top/R"));
    info.record_entry(dir("top/R"));
    info.record_entry(file("top/R/in.bin", 4, b"in"));
    // a file beside the root, outside the scan
    info.record_entry(file("top/S/out.bin", 100, b"out"));
    info.finish();
    assert_eq!(node(&info, "top/R").combined_size, 4);
    assert_eq!(node(&info, "top").combined_size, 0);
    assert_eq!(node(&info, "top/S").combined_size, 100);
}

#[test]
fn combined_is_own_plus_children() {
    let info = scan_entries(
        "R",
        vec![
            dir("R"),
            file("R/f", 1, b"1"),
            dir("R/a"),
            file("R/a/f", 2, b"2"),
            dir("R/a/b"),
            file("R/a/b/f", 4, b"3"),
            dir("R/a/c"),
            file("R/a/c/f", 8, b"4"),
            dir("R/d"),
            file("R/d/f", 16, b"5"),
        ],
    );
    for d in &info.tree {
        if d.path.parts.is_empty() {
            continue;
        }
        let children: u64 = info
            .tree
            .iter()
            .filter(|c| c.parent.as_ref().map(|q| text(q)) == Some(text(&d.path)))
            .map(|c| c.combined_size)
            .sum();
        assert_eq!(d.combined_size, d.size + children, "at {}", text(&d.path));
    }
    assert_eq!(node(&info, "R").combined_size, 31);
}

#[test]
fn unreadable_entries_are_skipped() {
    let mut info = DirInfo::for_root(&p("R"));
    info.record_entry(dir("R"));
    info.record_entry(TreeEntry::Unreadable(p("R/gone")));
    info.record_entry(TreeEntry::File { path: p("R/locked.a"), size: 6, modified: 0, content: None });
    info.record_entry(TreeEntry::File { path: p("R/locked.b"), size: 6, modified: 0, content: None });
    info.finish();
    assert_eq!(info.files.len(), 2);
    assert_eq!(info.files[0].hash, 0);
    // unreadable contents share the sentinel hash
    assert_eq!(info.duplicates.len(), 1);
    assert_eq!(info.combined_size, 12);
}

#[test]
fn archive_entries() {
    let entry = |name: &str, is_dir: bool, size: u64, content: &[u8]| ArchiveEntry {
        name: p(name),
        is_dir,
        compressed_size: size,
        content: content.to_vec(),
    };
    let info = scan_archive(vec![
        entry("docs", true, 0, b""),
        entry("docs/a.MD", false, 30, b"hello"),
        entry("docs/sub/b.md", false, 20, b"hello"),
        entry("top.txt", false, 5, b"x"),
    ]);
    assert_eq!(info.files.len(), 3);
    assert_eq!(info.combined_size, 55);
    assert_eq!(node(&info, "docs").combined_size, 50);
    assert_eq!(node(&info, "docs").size, 30);
    assert_eq!(node(&info, "docs/sub").combined_size, 20);
    assert_eq!(node(&info, "").combined_size, 55);
    assert_eq!(node(&info, "").size, 5);
    assert_eq!(info.files[0].modified, 0);
    assert_eq!(info.types_by_size[0].ext, "md");
    assert_eq!(info.types_by_size[0].size, 50);
    assert_eq!(info.duplicates.len(), 1);
    assert_eq!(info.duplicates[0].1.len(), 2);
}

#[test]
fn directory_views() {
    let info = scan_entries(
        "R",
        vec![
            dir("R"),
            file("R/small", 1, b"1"),
            file("R/big", 9, b"2"),
            dir("R/a"),
            file("R/a/f", 2, b"3"),
            dir("R/b"),
            file("R/b/f", 5, b"4"),
        ],
    );
    let r = node(&info, "R");
    let subs: Vec<String> = r.sorted_subdirs(&info).iter().map(|d| text(&d.path)).collect();
    assert_eq!(subs, vec!["R/b", "R/a"]);
    let own: Vec<String> = r.sorted_files().iter().map(|f| text(&f.path)).collect();
    assert_eq!(own, vec!["R/big", "R/small"]);
    let fake = r.files_as_fake_dir();
    assert_eq!(text(&fake.path), "Files");
    assert_eq!(fake.size, 10);
    assert_eq!(fake.combined_size, 10);
    assert!(fake.directories.is_empty());
    assert_eq!(fake.files.len(), 2);
    assert_eq!(text(fake.parent.as_ref().unwrap()), "");
}

#[test]
fn file_records_hash_their_content() {
    let a = make_file(p("d/x.Bin"), 3, 11, Some(b"abc"));
    let b = make_file(p("d/y.bin"), 3, 11, Some(b"abc"));
    let c = make_file(p("d/z.bin"), 3, 11, Some(b"abd"));
    let none = make_file(p("d/w.bin"), 3, 11, None);
    assert_eq!(a.hash, b.hash);
    assert_ne!(a.hash, c.hash);
    assert_ne!(a.hash, 0);
    assert_eq!(none.hash, 0);
    assert_eq!(a.ext, Some("bin".to_string()));
    assert_eq!(a.modified, 11);
}

#[test]
fn progress_reports() {
    assert!(progress_due(11, 10));
    assert!(!progress_due(10, 10));
    assert!(!progress_due(5, u128::MAX));
}

#[test]
fn empty_aggregate() {
    let mut info = DirInfo::new();
    info.finish();
    assert!(info.files_by_size.is_empty());
    assert!(info.duplicates.is_empty());
    assert!(info.tree.is_empty());
    assert_eq!(info.combined_size, 0);
    my_save_function();
}

#[test]
fn new_directory_is_empty_without_parent() {
    let d = Directory::new(p("a/b"));
    assert_eq!(text(&d.path), "a/b");
    assert_eq!(d.size, 0);
    assert_eq!(d.combined_size, 0);
    assert!(d.files.is_empty());
    assert!(d.directories.is_empty());
    assert!(d.parent.is_none());
}

#[test]
fn tree_nodes_know_their_parent() {
    let info = scan_entries("R", vec![dir("R"), dir("R/s"), file("R/s/f.x", 1, b"1")]);
    assert_eq!(text(node(&info, "R/s").parent.as_ref().unwrap()), "R");
    assert_eq!(text(node(&info, "R").parent.as_ref().unwrap()), "");
    assert!(node(&info, "").parent.is_none());
}
