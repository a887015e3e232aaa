use storage_harvester::cache::{SnapshotStore, TargetSnapshot};
use storage_harvester::collector::filesystem::FilesystemCollector;
use storage_harvester::collector::Collector;
use storage_harvester::config::{Config, Defaults, ReportMode, SizeMode, Target, TargetConfig};
use storage_harvester::registry::TargetRegistry;
use storage_harvester::scanner::ScanResult;
use storage_harvester::scheduler::{record_outcome, record_outcome_at, timeout_message, ScanOutcome};
use storage_harvester::time::Duration;

fn secs(s: u64) -> Duration {
    Duration::from_secs(s)
}

fn target(name: &str) -> Target {
    Target {
        name: name.to_string(),
        target_type: "filesystem".to_string(),
        scanner: "native".to_string(),
        display_path: format!("/{name}"),
        scan_path: format!("/{name}"),
        baseline_interval: secs(60),
        timeout: secs(30),
        no_cross_filesystem: true,
        follow_symlinks: false,
        report_mode: ReportMode::Tree,
        report_depth: 1,
        max_depth: None,
        size_modes: vec![SizeMode::Blocks],
        exclude: vec![],
        labels: vec![],
    }
}

fn result(at: u64) -> ScanResult {
    ScanResult {
        backend: "native".to_string(),
        observations: vec![],
        entries: vec![],
        permission_errors: 0,
        missing_path_races: 0,
        skipped_cross_device: 0,
        skipped_excluded: 0,
        scanned_files: 0,
        scanned_directories: 1,
        scanned_symlinks: 0,
        max_observed_depth: 0,
        depth_limit_hits: 0,
        duration: secs(1),
        timestamp: secs(at),
    }
}

fn table(names: &[&str]) -> SnapshotStore {
    SnapshotStore::new(names.iter().map(|n| TargetSnapshot::from_target(&target(n))).collect())
}

#[test]
fn new_snapshot_is_pending() {
    let s = TargetSnapshot::from_target(&target("logs"));
    assert_eq!(s.target_name, "logs");
    assert_eq!(s.path, "/logs");
    assert!(s.last_success.is_none() && s.last_error.is_none() && s.last_attempt.is_none());
    assert!(!s.scan_running);
    assert_eq!(s.scan_count, 0);
    assert_eq!(s.interval, secs(60));
}

#[test]
fn table_lists_snapshots_by_name() {
    let t = table(&["zeta", "alpha", "alpha"]);
    let names: Vec<String> = t.snapshots().into_iter().map(|s| s.target_name).collect();
    assert_eq!(names, vec!["alpha".to_string(), "zeta".to_string()]);
    assert!(t.get("alpha").is_some());
    assert!(t.get("missing").is_none());
}

#[test]
fn ready_after_every_target_finished_once() {
    let mut t = table(&["a", "b"]);
    assert!(!t.ready());
    t.record_scan_start_at("a", secs(10));
    assert!(t.get("a").unwrap().scan_running);
    assert_eq!(t.get("a").unwrap().scan_started, Some(secs(10)));
    t.record_success("a", result(10));
    assert!(!t.ready());
    t.record_failure_at("b", "boom".to_string(), secs(20));
    assert!(t.ready());
    t.record_scan_start_at("a", secs(30));
    assert!(t.ready());
    let a = t.get("a").unwrap();
    assert_eq!(a.scan_count, 1);
    assert_eq!(a.last_attempt, Some(secs(10)));
    let b = t.get("b").unwrap();
    assert_eq!(b.failure_count, 1);
    assert_eq!(b.scan_count, 1);
    assert_eq!(b.last_error.as_deref(), Some("boom"));
    assert_eq!(b.last_attempt, Some(secs(20)));
    assert!(!b.scan_running && b.scan_started.is_none());
}

#[test]
fn success_clears_last_error() {
    let mut t = table(&["a"]);
    t.record_failure_at("a", "boom".to_string(), secs(5));
    t.record_success("a", result(7));
    let a = t.get("a").unwrap();
    assert!(a.last_error.is_none());
    assert_eq!(a.scan_count, 2);
    assert_eq!(a.failure_count, 1);
}

#[test]
fn unknown_target_changes_nothing() {
    let mut t = table(&["a"]);
    t.record_scan_start_at("zzz", secs(1));
    t.record_failure_at("zzz", "x".to_string(), secs(1));
    let a = t.get("a").unwrap();
    assert!(!a.scan_running);
    assert_eq!(a.scan_count, 0);
    t.record_scan_start("a");
    assert!(t.get("a").unwrap().scan_running);
    t.record_failure("a", "late".to_string());
    assert!(t.get("a").unwrap().last_attempt.is_some());
}

#[test]
fn outcomes_update_the_table() {
    let mut t = table(&["a"]);
    let a = target("a");
    record_outcome_at(&mut t, &a, ScanOutcome::TimedOut, secs(100));
    assert_eq!(t.get("a").unwrap().last_error.as_deref(), Some("scan timed out after 30s"));
    record_outcome_at(&mut t, &a, ScanOutcome::TaskFailed("panicked".to_string()), secs(101));
    assert_eq!(t.get("a").unwrap().last_error.as_deref(), Some("panicked"));
    record_outcome(&mut t, &a, ScanOutcome::Completed(result(102)));
    let s = t.get("a").unwrap();
    assert!(s.last_error.is_none());
    assert_eq!(s.scan_count, 3);
    assert_eq!(s.failure_count, 2);
    record_outcome(&mut t, &a, ScanOutcome::Failed("denied".to_string()));
    assert_eq!(t.get("a").unwrap().failure_count, 3);
}

#[test]
fn timeout_message_names_seconds() {
    assert_eq!(timeout_message(&secs(45)), "scan timed out after 45s");
}

#[test]
fn registry_resolves_and_seeds_table() {
    let config = Config {
        host_root: "/host".to_string(),
        listen_address: "0.0.0.0:9799".to_string(),
        metrics_path: "/metrics".to_string(),
        log_level: "info".to_string(),
        defaults: Defaults::default(),
        targets: vec![TargetConfig {
            name: "logs".to_string(),
            target_type: "filesystem".to_string(),
            path: "/var/log".to_string(),
            scanner: None,
            baseline_interval: None,
            timeout: None,
            no_cross_filesystem: None,
            follow_symlinks: None,
            report_mode: None,
            report_depth: None,
            max_depth: None,
            size_modes: None,
            exclude: vec![],
            labels: vec![],
        }],
    };
    let registry = TargetRegistry::from_config(&config).unwrap();
    assert_eq!(registry.targets().len(), 1);
    assert_eq!(registry.targets()[0].scan_path, "/host/var/log");
    let t = registry.snapshot_store();
    assert!(!t.ready());
    assert_eq!(t.snapshots()[0].path, "/var/log");
}

#[test]
fn collector_hands_back_its_targets() {
    let c = FilesystemCollector::new(vec![target("a"), target("b")]);
    let out = c.collect().unwrap();
    assert_eq!(out.len(), 2);
    assert_eq!(out[1].name, "b");
}

#[test]
fn store_keeps_last_snapshot_of_each_name() {
    let mut first = TargetSnapshot::from_target(&target("b"));
    first.scan_count = 1;
    let mut last = TargetSnapshot::from_target(&target("b"));
    last.scan_count = 7;
    let t = SnapshotStore::new(vec![first, TargetSnapshot::from_target(&target("a")), last]);
    let all = t.snapshots();
    assert_eq!(all.len(), 2);
    assert_eq!(all[0].target_name, "a");
    assert_eq!(all[1].target_name, "b");
    assert_eq!(all[1].scan_count, 7);
}

#[test]
fn running_follows_the_recorded_start() {
    let mut t = table(&["a"]);
    for step in 0..5u64 {
        t.record_scan_start_at("a", secs(step * 10));
        let s = t.get("a").unwrap();
        assert!(s.scan_running && s.scan_started.is_some());
        if step % 2 == 0 {
            t.record_success("a", result(step * 10 + 1));
        } else {
            t.record_failure_at("a", "x".to_string(), secs(step * 10 + 1));
        }
        let s = t.get("a").unwrap();
        assert!(!s.scan_running && s.scan_started.is_none());
        assert!(s.failure_count <= s.scan_count);
        assert!(t.ready());
    }
}
