use f_stats::walk::{announces, scan_walk, EntryKind, FolderStat, Scanner, WalkEntry};

fn dir(path: &str, depth: usize) -> WalkEntry {
    WalkEntry { path: path.to_string(), depth, kind: EntryKind::Directory, size: Some(4096) }
}

fn file(path: &str, depth: usize, size: u64) -> WalkEntry {
    WalkEntry { path: path.to_string(), depth, kind: EntryKind::File, size: Some(size) }
}

fn sample_walk() -> Vec<WalkEntry> {
    vec![
        dir("root", 0),
        dir("root/a", 1),
        dir("root/a/b", 2),
        file("root/a/b/y.txt", 3, 20),
        file("root/a/x.txt", 2, 10),
        file("root/c.txt", 1, 5),
    ]
}

fn stat_of(tbl: &[(String, FolderStat)], path: &str) -> Option<FolderStat> {
    tbl.iter().find(|(p, _)| p == path).map(|(_, s)| *s)
}

#[test]
fn end_to_end_scenario() {
    let tbl = scan_walk(&sample_walk());
    assert_eq!(tbl.len(), 3);
    assert_eq!(stat_of(&tbl, "root"), Some(FolderStat { size: 35, files: 3 }));
    assert_eq!(stat_of(&tbl, "root/a"), Some(FolderStat { size: 30, files: 2 }));
    assert_eq!(stat_of(&tbl, "root/a/b"), Some(FolderStat { size: 20, files: 1 }));
}

#[test]
fn rows_follow_walk_order() {
    let tbl = scan_walk(&sample_walk());
    let paths: Vec<&str> = tbl.iter().map(|(p, _)| p.as_str()).collect();
    assert_eq!(paths, vec!["root", "root/a", "root/a/b"]);
}

#[test]
fn root_holds_every_file() {
    let walk = vec![
        dir("r", 0),
        file("r/f1", 1, 7),
        dir("r/d", 1),
        dir("r/d/e", 2),
        file("r/d/e/f2", 3, 11),
        dir("r/g", 1),
        file("r/g/f3", 2, 13),
    ];
    let tbl = scan_walk(&walk);
    assert_eq!(tbl[0].0, "r");
    assert_eq!(tbl[0].1, FolderStat { size: 31, files: 3 });
}

#[test]
fn each_directory_sums_what_it_contains() {
    let walk = vec![
        dir("r", 0),
        dir("r/d", 1),
        file("r/d/f1", 2, 3),
        dir("r/d/e", 2),
        file("r/d/e/f2", 3, 4),
        file("r/d/f3", 2, 5),
        dir("r/g", 1),
        file("r/g/f4", 2, 6),
    ];
    let tbl = scan_walk(&walk);
    assert_eq!(stat_of(&tbl, "r"), Some(FolderStat { size: 18, files: 4 }));
    assert_eq!(stat_of(&tbl, "r/d"), Some(FolderStat { size: 12, files: 3 }));
    assert_eq!(stat_of(&tbl, "r/d/e"), Some(FolderStat { size: 4, files: 1 }));
    assert_eq!(stat_of(&tbl, "r/g"), Some(FolderStat { size: 6, files: 1 }));
}

#[test]
fn scanning_twice_gives_the_same_table() {
    let walk = sample_walk();
    let a = scan_walk(&walk);
    let b = scan_walk(&walk);
    assert_eq!(a, b);
}

#[test]
fn adding_a_file_grows_its_directory_and_ancestors() {
    let mut sc = Scanner::new();
    for e in sample_walk() {
        assert!(sc.record(e));
    }
    let before = sc.table();
    // the last entry was root/c.txt at depth 1; a new file directly in root
    assert!(sc.record(file("root/d.txt", 1, 100)));
    let after = sc.table();
    assert_eq!(stat_of(&after, "root"), Some(FolderStat { size: 135, files: 4 }));
    assert_eq!(stat_of(&after, "root/a"), stat_of(&before, "root/a"));
    assert_eq!(stat_of(&after, "root/a/b"), stat_of(&before, "root/a/b"));

    let mut sc = Scanner::new();
    for e in sample_walk().into_iter().take(4) {
        assert!(sc.record(e));
    }
    let before = sc.table();
    assert!(sc.record(file("root/a/b/z.txt", 3, 8)));
    let after = sc.table();
    for (path, stat) in &before {
        let grown = stat_of(&after, path).unwrap();
        assert_eq!(grown.size, stat.size + 8);
        assert_eq!(grown.files, stat.files + 1);
    }
}

#[test]
fn unreadable_entry_changes_nothing() {
    let mut sc = Scanner::new();
    for e in sample_walk().into_iter().take(4) {
        assert!(sc.record(e));
    }
    let before = sc.table();
    let broken = WalkEntry { path: "root/a/b/gone".to_string(), depth: 3, kind: EntryKind::File, size: None };
    assert!(sc.record(broken));
    assert_eq!(sc.table(), before);
    assert!(sc.record(file("root/a/b/w.txt", 3, 1)));
    assert_eq!(stat_of(&sc.table(), "root"), Some(FolderStat { size: 21, files: 2 }));
}

#[test]
fn other_entries_are_not_files() {
    let walk = vec![
        dir("r", 0),
        WalkEntry { path: "r/link".to_string(), depth: 1, kind: EntryKind::Other, size: Some(9) },
        file("r/f", 1, 2),
    ];
    let tbl = scan_walk(&walk);
    assert_eq!(tbl, vec![("r".to_string(), FolderStat { size: 2, files: 1 })]);
}

#[test]
fn empty_walk_gives_empty_table() {
    assert!(scan_walk(&Vec::new()).is_empty());
}

#[test]
fn empty_directories_have_zero_rows() {
    let walk = vec![dir("r", 0), dir("r/empty", 1), dir("r/full", 1), file("r/full/f", 2, 4)];
    let tbl = scan_walk(&walk);
    assert_eq!(stat_of(&tbl, "r/empty"), Some(FolderStat { size: 0, files: 0 }));
    assert_eq!(stat_of(&tbl, "r"), Some(FolderStat { size: 4, files: 1 }));
}

#[test]
fn root_that_is_a_file_gives_no_rows() {
    let tbl = scan_walk(&vec![file("f", 0, 10)]);
    assert!(tbl.is_empty());
}

#[test]
fn entries_that_do_not_fit_are_refused() {
    let mut sc = Scanner::new();
    assert!(!sc.record(dir("r/a", 1)));
    assert!(sc.record(dir("r", 0)));
    assert!(!sc.record(dir("r2", 0)));
    assert!(!sc.record(file("r/a/b", 2, 1)));
    assert!(sc.record(file("r/f", 1, 1)));
    assert!(!sc.record(file("r/f/g", 2, 1)));
    assert_eq!(sc.table(), vec![("r".to_string(), FolderStat { size: 1, files: 1 })]);
}

#[test]
fn sizes_that_would_overflow_are_refused() {
    let mut sc = Scanner::new();
    assert!(sc.record(dir("r", 0)));
    assert!(sc.record(file("r/big", 1, u64::MAX - 1)));
    assert!(sc.record(file("r/one", 1, 1)));
    assert!(!sc.record(file("r/more", 1, 1)));
    assert!(sc.record(file("r/empty", 1, 0)));
    assert_eq!(sc.table(), vec![("r".to_string(), FolderStat { size: u64::MAX, files: 3 })]);
}

#[test]
fn shallow_directories_are_announced() {
    assert!(announces(&dir("r", 0)));
    assert!(announces(&dir("r/a/b/c", 3)));
    assert!(!announces(&dir("r/a/b/c/d", 4)));
    assert!(!announces(&file("r/f", 1, 3)));
}
