use std::collections::BTreeMap;

use storage_harvester::config::{ReportMode, SizeMode, Target};
use storage_harvester::scanner::native::{
    EntryMeta, FileKind, ListedEntry, Listing, MetadataOutcome, NativeScanner, ScanState, Visit, WalkItem,
};
use storage_harvester::scanner::{build, EntryType, NodeObservation, ScanResult, Scanner, ScannerError};
use storage_harvester::time::Duration;

/// A directory tree held in memory: each path (as components) with its
/// metadata, and the entry names of each directory.
struct Tree {
    meta: BTreeMap<Vec<String>, EntryMeta>,
    children: BTreeMap<Vec<String>, Vec<String>>,
}

fn names(path: &str) -> Vec<String> {
    path.split('/').filter(|p| !p.is_empty()).map(|p| p.to_string()).collect()
}

impl Tree {
    fn new(root_blocks: u64) -> Tree {
        let mut t = Tree { meta: BTreeMap::new(), children: BTreeMap::new() };
        t.meta.insert(vec![], EntryMeta { kind: FileKind::Directory, blocks: root_blocks, size: 4096, device: 1 });
        t.children.insert(vec![], vec![]);
        t
    }

    fn add(&mut self, path: &str, kind: FileKind, blocks: u64, size: u64) {
        self.add_on(path, kind, blocks, size, 1);
    }

    fn add_on(&mut self, path: &str, kind: FileKind, blocks: u64, size: u64, device: u64) {
        let key = names(path);
        let mut parent = key.clone();
        let name = parent.pop().unwrap();
        self.children.get_mut(&parent).unwrap().push(name);
        self.meta.insert(key.clone(), EntryMeta { kind, blocks, size, device });
        if kind == FileKind::Directory {
            self.children.insert(key, vec![]);
        }
    }

    fn metadata(&self, key: &Vec<String>) -> MetadataOutcome {
        match self.meta.get(key) {
            Some(m) => MetadataOutcome::Found(*m),
            None => MetadataOutcome::NotFound,
        }
    }

    fn listing(&self, key: &Vec<String>) -> Listing {
        match self.children.get(key) {
            Some(v) => Listing::Entries(v.iter().map(|n| ListedEntry::Name(n.clone())).collect()),
            None => Listing::NotFound,
        }
    }
}

fn target(display: &str, scan: &str, exclude: Vec<String>) -> Target {
    Target {
        name: "test".to_string(),
        target_type: "filesystem".to_string(),
        scanner: "native".to_string(),
        display_path: display.to_string(),
        scan_path: scan.to_string(),
        baseline_interval: Duration::from_secs(60),
        timeout: Duration::from_secs(30),
        no_cross_filesystem: true,
        follow_symlinks: false,
        report_mode: ReportMode::Tree,
        report_depth: 1,
        max_depth: None,
        size_modes: vec![SizeMode::Blocks],
        exclude,
        labels: vec![],
    }
}

/// Drives a walk of the tree the way a scan does.
fn walk(target: &Target, tree: &Tree) -> Result<ScanResult, String> {
    let scanner = NativeScanner::new(target).map_err(|e| format!("{e:?}"))?;
    let mut state = ScanState::new(scanner.backend(), Duration::from_secs(1_000), 1);
    while let Some(item) = state.next_item() {
        assert!(state.has_room(1));
        if scanner.is_excluded(target, &item) {
            state.note_excluded();
            continue;
        }
        match state.visit(target, &item, tree.metadata(item.names())) {
            Visit::Done => {}
            Visit::Fail => return Err("failed to stat".to_string()),
            Visit::ReadDirectory => {
                let listing = tree.listing(item.names());
                let steps = match &listing {
                    Listing::Entries(v) => v.len().max(1),
                    _ => 1,
                };
                assert!(state.has_room(steps as u64));
                if !state.push_children(&item, listing) {
                    return Err("failed to read".to_string());
                }
            }
        }
    }
    Ok(state.finish(target, Duration::from_secs(2)))
}

fn find<'a>(result: &'a ScanResult, path: &str) -> &'a NodeObservation {
    result.observations.iter().find(|n| n.path == path).unwrap()
}

#[test]
fn walk_counts_files_and_directories() {
    let mut tree = Tree::new(8);
    tree.add("nested", FileKind::Directory, 8, 4096);
    tree.add("nested/file.txt", FileKind::File, 8, 6);
    let t = target("/tmp/t", "/tmp/t", vec![]);
    let result = walk(&t, &tree).unwrap();
    assert_eq!(result.backend, "native");
    assert_eq!(result.scanned_directories, 2);
    assert_eq!(result.scanned_files, 1);
    assert_eq!(result.timestamp, Duration::from_secs(1_000));
    assert_eq!(result.duration, Duration::from_secs(2));
    let root = find(&result, "/tmp/t");
    assert_eq!(root.depth, 0);
    assert_eq!(root.node, ".");
    assert_eq!(root.parent, "");
    assert_eq!(root.directory_count, 1);
    assert_eq!(root.own_blocks, 4096);
    assert_eq!(root.children_blocks, 8192);
    assert_eq!(root.children_apparent, 4102);
    assert_eq!(root.children_file_count, 1);
    assert_eq!(root.children_directory_count, 0);
    let nested = find(&result, "/tmp/t/nested");
    assert_eq!(nested.parent, "/tmp/t");
    assert_eq!(nested.node, "nested");
    assert_eq!(nested.own_blocks, 8192);
    assert_eq!(nested.own_apparent, 4102);
    assert_eq!(nested.file_count, 1);
    assert_eq!(result.entries.len(), 1);
    assert_eq!(result.entries[0].path, "/tmp/t/nested/file.txt");
    assert_eq!(result.entries[0].parent_path, "/tmp/t/nested");
    assert_eq!(result.entries[0].name, "file.txt");
    assert_eq!(result.entries[0].entry_type, EntryType::File);
    assert_eq!(result.entries[0].blocks, 4096);
}

#[test]
fn walk_skips_excluded_paths() {
    let mut tree = Tree::new(8);
    tree.add(".cache", FileKind::Directory, 8, 4096);
    tree.add(".cache/file.txt", FileKind::File, 8, 1);
    tree.add("kept.txt", FileKind::File, 8, 1);
    let t = target("/home/example", "/tmp/x", vec!["**/.cache/**".to_string()]);
    let result = walk(&t, &tree).unwrap();
    assert_eq!(result.scanned_files, 1);
    assert!(result.skipped_excluded >= 1);
}

#[test]
fn walk_reports_depth_nodes_and_children_size() {
    let mut tree = Tree::new(0);
    tree.add("a", FileKind::Directory, 0, 0);
    tree.add("a/b", FileKind::Directory, 0, 0);
    tree.add("a/b/file.txt", FileKind::File, 8, 6);
    let t = target("/root", "/tmp/y", vec![]);
    let result = walk(&t, &tree).unwrap();
    let child = find(&result, "/root/a");
    let root = find(&result, "/root");
    assert_eq!(child.depth, 1);
    assert_eq!(child.directory_count, 1);
    assert_eq!(child.own_blocks, 0);
    assert!(child.children_blocks > 0);
    assert!(root.children_blocks >= child.own_blocks + child.children_blocks);
    assert_eq!(root.children_file_count, 1);
    assert_eq!(root.children_directory_count, 1);
    assert_eq!(child.children_file_count, 1);
    assert_eq!(child.children_directory_count, 0);
    assert!(!result.observations.iter().any(|n| n.path == "/root/a/b"));
}

#[test]
fn walk_reports_nodes_in_path_order() {
    let mut tree = Tree::new(8);
    for name in ["zeta", "alpha", "mid", "alpha/inner"] {
        tree.add(name, FileKind::Directory, 8, 10);
    }
    let mut t = target("/data", "/data", vec![]);
    t.report_depth = 2;
    let result = walk(&t, &tree).unwrap();
    let paths: Vec<&str> = result.observations.iter().map(|n| n.path.as_str()).collect();
    assert_eq!(paths, vec!["/data", "/data/alpha", "/data/alpha/inner", "/data/mid", "/data/zeta"]);
}

#[test]
fn walk_in_leaves_mode_reports_root_and_report_depth() {
    let mut tree = Tree::new(8);
    tree.add("a", FileKind::Directory, 8, 10);
    tree.add("a/b", FileKind::Directory, 8, 10);
    tree.add("a/b/c", FileKind::Directory, 8, 10);
    let mut t = target("/d", "/d", vec![]);
    t.report_mode = ReportMode::Leaves;
    t.report_depth = 2;
    let result = walk(&t, &tree).unwrap();
    let paths: Vec<&str> = result.observations.iter().map(|n| n.path.as_str()).collect();
    assert_eq!(paths, vec!["/d", "/d/a/b"]);
}

#[test]
fn walk_stops_at_max_depth() {
    let mut tree = Tree::new(8);
    tree.add("a", FileKind::Directory, 8, 10);
    tree.add("a/b", FileKind::Directory, 8, 10);
    tree.add("a/b/f", FileKind::File, 8, 10);
    let mut t = target("/d", "/d", vec![]);
    t.max_depth = Some(1);
    let result = walk(&t, &tree).unwrap();
    assert_eq!(result.depth_limit_hits, 1);
    assert_eq!(result.scanned_directories, 2);
    assert_eq!(result.scanned_files, 0);
    assert_eq!(result.max_observed_depth, 1);
}

#[test]
fn walk_skips_other_devices_and_counts_issues() {
    let mut tree = Tree::new(8);
    tree.add_on("mnt", FileKind::Directory, 8, 10, 2);
    tree.add("link", FileKind::Symlink, 0, 7);
    tree.add("sock", FileKind::Special, 0, 0);
    tree.children.get_mut(&vec![]).unwrap().push("gone".to_string());
    let t = target("/d", "/d", vec![]);
    let result = walk(&t, &tree).unwrap();
    assert_eq!(result.skipped_cross_device, 1);
    assert_eq!(result.missing_path_races, 1);
    assert_eq!(result.scanned_symlinks, 1);
    assert_eq!(result.scanned_files, 0);
    let root = find(&result, "/d");
    assert_eq!(root.symlink_count, 1);
    assert_eq!(root.file_count, 1);
    assert_eq!(root.own_apparent, 4096 + 7);
    let mut t2 = target("/d", "/d", vec![]);
    t2.no_cross_filesystem = false;
    let result2 = walk(&t2, &tree).unwrap();
    assert_eq!(result2.skipped_cross_device, 0);
    assert_eq!(find(&result2, "/d").directory_count, 1);
}

#[test]
fn walk_keeps_entries_only_where_parent_lies_at_a_reported_node() {
    let mut tree = Tree::new(8);
    tree.add("f", FileKind::File, 8, 1);
    let same = walk(&target("/srv", "/srv", vec![]), &tree).unwrap();
    assert_eq!(same.entries.len(), 1);
    let moved = walk(&target("/srv", "/host/srv", vec![]), &tree).unwrap();
    assert_eq!(moved.entries.len(), 0);
    assert_eq!(moved.observations.len(), 1);
}

#[test]
fn walk_fails_when_root_cannot_be_read() {
    let t = target("/d", "/d", vec![]);
    let mut state = ScanState::new("native", Duration::from_secs(0), 1);
    let item = state.next_item().unwrap();
    assert_eq!(item.depth(), 0);
    assert_eq!(state.visit(&t, &item, MetadataOutcome::Failed), Visit::Fail);
    let mut state = ScanState::new("native", Duration::from_secs(0), 1);
    let item = state.next_item().unwrap();
    assert_eq!(state.visit(&t, &item, MetadataOutcome::PermissionDenied), Visit::Done);
    let deeper = WalkItem::from_names(vec!["x".to_string()]);
    assert_eq!(state.visit(&t, &deeper, MetadataOutcome::Failed), Visit::Done);
    let result = state.finish(&t, Duration::from_secs(0));
    assert_eq!(result.permission_errors, 1);
    assert_eq!(result.missing_path_races, 1);
    assert!(result.observations.is_empty());
}

#[test]
fn listing_errors_count_or_stop() {
    let mut state = ScanState::new("native", Duration::from_secs(0), 1);
    let root = state.next_item().unwrap();
    let listing = Listing::Entries(vec![
        ListedEntry::Name("a".to_string()),
        ListedEntry::NotFound,
        ListedEntry::PermissionDenied,
        ListedEntry::Name("b".to_string()),
    ]);
    assert!(state.push_children(&root, listing));
    let first = state.next_item().unwrap();
    assert_eq!(first.names(), &vec!["b".to_string()]);
    assert!(state.push_children(&root, Listing::PermissionDenied));
    assert!(!state.push_children(&root, Listing::Entries(vec![ListedEntry::Failed])));
    assert!(!state.push_children(&root, Listing::Failed));
    let t = target("/d", "/d", vec![]);
    let result = state.finish(&t, Duration::from_secs(0));
    assert_eq!(result.permission_errors, 2);
    assert_eq!(result.missing_path_races, 1);
}

#[test]
fn exclude_paths_follow_display_path() {
    let t = target("/home/example", "/tmp/x", vec![]);
    assert_eq!(NativeScanner::exclude_path(&t, &WalkItem::from_names(vec![])), "/home/example/");
    assert_eq!(
        NativeScanner::exclude_path(&t, &WalkItem::from_names(vec!["a".to_string(), "b".to_string()])),
        "/home/example/a/b"
    );
}

#[test]
fn exclude_patterns_match_through_globset() {
    let t = target("/home/example", "/tmp/x", vec!["**/*.log".to_string()]);
    let scanner = NativeScanner::new(&t).unwrap();
    assert!(scanner.is_excluded(&t, &WalkItem::from_names(vec!["x.log".to_string()])));
    assert!(!scanner.is_excluded(&t, &WalkItem::from_names(vec!["x.txt".to_string()])));
    let none = NativeScanner::new(&target("/a", "/a", vec![])).unwrap();
    assert!(!none.is_excluded(&t, &WalkItem::from_names(vec!["x.log".to_string()])));
}

#[test]
fn refuses_invalid_exclude_pattern() {
    let t = target("/a", "/a", vec!["ok/**".to_string(), "bad[".to_string(), "also{".to_string()]);
    match NativeScanner::new(&t) {
        Err(ScannerError::InvalidExcludePattern { pattern }) => assert_eq!(pattern, "bad["),
        _ => panic!("expected an invalid pattern error"),
    }
}

#[test]
fn builds_scanner_by_name() {
    let t = target("/a", "/a", vec![]);
    assert_eq!(build(&t).unwrap().backend(), "native");
    let mut other = t.clone();
    other.scanner = "du".to_string();
    match build(&other) {
        Err(e) => assert_eq!(
            e,
            ScannerError::UnsupportedScanner { target: "test".to_string(), scanner: "du".to_string() }
        ),
        Ok(_) => panic!("expected an unsupported scanner error"),
    }
}

#[test]
fn walk_totals_count_every_entry_once() {
    let mut tree = Tree::new(8);
    tree.add("a", FileKind::Directory, 8, 100);
    tree.add("a/f1", FileKind::File, 16, 5000);
    tree.add("a/l1", FileKind::Symlink, 0, 9);
    tree.add("a/b", FileKind::Directory, 8, 100);
    tree.add("a/b/f2", FileKind::File, 24, 12000);
    tree.add("a/b/p", FileKind::Special, 0, 0);
    tree.add("top.txt", FileKind::File, 8, 10);
    let mut t = target("/r", "/r", vec![]);
    t.report_depth = 2;
    let result = walk(&t, &tree).unwrap();
    let root = find(&result, "/r");
    // every entry's bytes once in the root's total: 8 + 8 + 16 + 0 + 8 + 24 + 0 + 8 blocks
    assert_eq!(root.own_blocks + root.children_blocks, 72 * 512);
    assert_eq!(root.own_apparent + root.children_apparent, 4096 + 100 + 5000 + 9 + 100 + 12000 + 0 + 10);
    // below the root: 2 directories, 4 files (the FIFO counts as one), 1 symlink
    assert_eq!(root.file_count + root.children_file_count, 4);
    assert_eq!(root.directory_count + root.children_directory_count, 2);
    assert_eq!(root.symlink_count + root.children_symlink_count, 1);
    let a = find(&result, "/r/a");
    assert_eq!(a.own_blocks + a.children_blocks, (8 + 16 + 0 + 8 + 24 + 0) * 512);
    assert_eq!(a.file_count, 1);
    assert_eq!(a.symlink_count, 1);
    assert_eq!(a.directory_count, 1);
    assert_eq!(a.children_file_count, 2);
    let b = find(&result, "/r/a/b");
    assert_eq!(b.own_blocks, (8 + 24) * 512);
    assert_eq!(b.children_blocks, 0);
    assert_eq!(b.file_count, 2);
}

#[test]
fn skips_excluded_items_through_the_state() {
    let t = target("/home/example", "/tmp/x", vec!["**/*.log".to_string()]);
    let scanner = NativeScanner::new(&t).unwrap();
    let mut state = ScanState::new("native", Duration::from_secs(0), 1);
    let log = WalkItem::from_names(vec!["x.log".to_string()]);
    let txt = WalkItem::from_names(vec!["x.txt".to_string()]);
    assert!(state.skip_excluded(&scanner, &t, &log));
    assert!(!state.skip_excluded(&scanner, &t, &txt));
    assert_eq!(state.finish(&t, Duration::from_secs(0)).skipped_excluded, 1);
}

#[test]
fn words_scanner_errors() {
    assert_eq!(
        ScannerError::InvalidExcludePattern { pattern: "bad[".to_string() }.text(),
        "invalid exclude pattern \"bad[\""
    );
    assert_eq!(ScannerError::ExcludeSet { reason: "too big".to_string() }.text(), "too big");
    assert_eq!(
        ScannerError::UnsupportedScanner { target: "t".to_string(), scanner: "du".to_string() }.text(),
        "target t uses unsupported scanner \"du\""
    );
}
