use storage_harvester::cache::TargetSnapshot;
use storage_harvester::config::{ReportMode, SizeMode, Target};
use storage_harvester::exporter::prometheus::{
    escape_label_value, labels, node_labels, node_value, render, render_at, sanitize_label_name, SizeComponent,
};
use storage_harvester::scanner::{NodeObservation, ScanResult};
use storage_harvester::time::Duration;

fn secs(s: u64) -> Duration {
    Duration::from_secs(s)
}

fn snapshot() -> TargetSnapshot {
    TargetSnapshot::from_target(&Target {
        name: "logs".to_string(),
        target_type: "filesystem".to_string(),
        scanner: "native".to_string(),
        display_path: "/var/log".to_string(),
        scan_path: "/var/log".to_string(),
        baseline_interval: secs(60),
        timeout: secs(30),
        no_cross_filesystem: true,
        follow_symlinks: false,
        report_mode: ReportMode::Tree,
        report_depth: 1,
        max_depth: None,
        size_modes: vec![SizeMode::Blocks, SizeMode::Apparent],
        exclude: vec![],
        labels: vec![("team-x".to_string(), "a\"b".to_string())],
    })
}

fn root_node() -> NodeObservation {
    NodeObservation {
        path: "/var/log".to_string(),
        parent: String::new(),
        node: ".".to_string(),
        depth: 0,
        own_blocks: 4096,
        children_blocks: 8192,
        own_apparent: 100,
        children_apparent: 200,
        file_count: 2,
        directory_count: 1,
        symlink_count: 0,
        children_file_count: 5,
        children_directory_count: 0,
        children_symlink_count: 1,
    }
}

fn result() -> ScanResult {
    ScanResult {
        backend: "native".to_string(),
        observations: vec![root_node()],
        entries: vec![],
        permission_errors: 1,
        missing_path_races: 0,
        skipped_cross_device: 0,
        skipped_excluded: 2,
        scanned_files: 7,
        scanned_directories: 2,
        scanned_symlinks: 1,
        max_observed_depth: 2,
        depth_limit_hits: 0,
        duration: Duration { secs: 1, nanos: 500_000_000 },
        timestamp: secs(1_000),
    }
}

const BASE: &str = "target=\"logs\",target_type=\"filesystem\",path=\"/var/log\",team_x=\"a\\\"b\"";

#[test]
fn escapes_label_values() {
    assert_eq!(escape_label_value("a\\b\"c"), "a\\\\b\\\"c");
}

#[test]
fn escapes_newlines_in_label_values() {
    assert_eq!(escape_label_value("line\nnext"), "line\\nnext");
    assert_eq!(escape_label_value("plain"), "plain");
}

#[test]
fn sanitizes_label_names() {
    assert_eq!(sanitize_label_name("team-x.y"), "team_x_y");
    assert_eq!(sanitize_label_name("ok_Name9"), "ok_Name9");
    assert_eq!(sanitize_label_name("é"), "_");
}

#[test]
fn builds_target_labels() {
    let s = snapshot();
    assert_eq!(labels(&s, None), BASE);
    assert_eq!(labels(&s, Some(("issue", "permission_errors"))), format!("{BASE},issue=\"permission_errors\""));
}

#[test]
fn builds_node_labels() {
    let s = snapshot();
    assert_eq!(
        node_labels(&s, &root_node(), &[("entry_type", "file")]),
        "target=\"logs\",target_type=\"filesystem\",path=\"/var/log\",parent=\"\",node=\".\",depth=\"0\",team_x=\"a\\\"b\",entry_type=\"file\""
    );
}

#[test]
fn reads_node_values() {
    let n = root_node();
    assert_eq!(node_value(&n, SizeComponent::Own, SizeMode::Blocks), 4096);
    assert_eq!(node_value(&n, SizeComponent::Children, SizeMode::Blocks), 8192);
    assert_eq!(node_value(&n, SizeComponent::Own, SizeMode::Apparent), 100);
    assert_eq!(node_value(&n, SizeComponent::Children, SizeMode::Apparent), 200);
}

#[test]
fn renders_unscanned_target() {
    let out = render_at(&[snapshot()], &secs(2_000));
    assert!(out.starts_with("# HELP "));
    assert!(out.contains("storage_harvester_build_info{version=\"0.1.0\"} 1\n"));
    assert!(out.contains(&format!("storage_harvester_target_info{{{BASE}}} 1\n")));
    assert!(out.contains(&format!("storage_harvester_target_interval_seconds{{{BASE}}} 60.000000\n")));
    assert!(out.contains(&format!("storage_harvester_scan_running{{{BASE}}} 0\n")));
    assert!(out.contains(&format!("storage_harvester_scan_running_seconds{{{BASE}}} 0.000000\n")));
    assert!(out.contains(&format!("storage_harvester_scan_success{{{BASE}}} 0\n")));
    assert!(out.ends_with(&format!("storage_harvester_target_stale_seconds{{{BASE}}} NaN\n")));
}

#[test]
fn renders_scanned_target() {
    let mut s = snapshot();
    s.last_success = Some(result());
    s.scan_count = 3;
    s.failure_count = 1;
    s.scan_running = true;
    s.scan_started = Some(Duration { secs: 1_990, nanos: 250_000_000 });
    let out = render_at(&[s], &secs(2_000));
    assert!(out.contains(&format!("storage_harvester_scan_count_total{{{BASE}}} 3\n")));
    assert!(out.contains(&format!("storage_harvester_scan_errors_total{{{BASE}}} 1\n")));
    assert!(out.contains(&format!("storage_harvester_scan_running{{{BASE}}} 1\n")));
    assert!(out.contains(&format!("storage_harvester_scan_running_seconds{{{BASE}}} 9.750000\n")));
    let node = "target=\"logs\",target_type=\"filesystem\",path=\"/var/log\",parent=\"\",node=\".\",depth=\"0\",team_x=\"a\\\"b\"";
    assert!(out.contains(&format!(
        "storage_harvester_own_size_bytes{{{node},size_mode=\"blocks\",backend=\"native\"}} 4096\n"
    )));
    assert!(out.contains(&format!(
        "storage_harvester_children_size_bytes{{{node},size_mode=\"apparent\",backend=\"native\"}} 200\n"
    )));
    assert!(out.contains(&format!("storage_harvester_own_entries{{{node},entry_type=\"file\"}} 2\n")));
    assert!(out.contains(&format!("storage_harvester_children_entries{{{node},entry_type=\"symlink\"}} 1\n")));
    assert!(out.contains(&format!("storage_harvester_scan_success{{{BASE}}} 1\n")));
    assert!(out.contains(&format!("storage_harvester_scan_duration_seconds{{{BASE},backend=\"native\"}} 1.500000\n")));
    assert!(out.contains(&format!("storage_harvester_scan_timestamp_seconds{{{BASE}}} 1000\n")));
    assert!(out.contains(&format!("storage_harvester_target_stale_seconds{{{BASE}}} 1000.000000\n")));
    assert!(out.contains(&format!("storage_harvester_scan_issue_count{{{BASE},issue=\"permission_errors\"}} 1\n")));
    assert!(out.contains(&format!("storage_harvester_scan_issue_count{{{BASE},issue=\"skipped_excluded\"}} 2\n")));
    assert!(out.contains(&format!("storage_harvester_reported_nodes{{{BASE}}} 1\n")));
    assert!(out.contains(&format!("storage_harvester_scanned_files{{{BASE}}} 7\n")));
    assert!(out.ends_with(&format!("storage_harvester_depth_limit_hits{{{BASE}}} 0\n")));
}

#[test]
fn renders_with_the_clock() {
    let out = render(&[snapshot()]);
    assert!(out.contains(&format!("storage_harvester_scan_success{{{BASE}}} 0\n")));
}

#[test]
fn reports_failure_after_an_earlier_success() {
    let mut s = snapshot();
    s.last_success = Some(result());
    s.last_error = Some("boom".to_string());
    let out = render_at(&[s], &secs(2_000));
    assert!(out.contains(&format!("storage_harvester_scan_success{{{BASE}}} 0\n")));
    assert!(!out.contains(&format!("storage_harvester_scan_success{{{BASE}}} 1\n")));
    assert!(out.contains(&format!("storage_harvester_scan_timestamp_seconds{{{BASE}}} 1000\n")));
}
