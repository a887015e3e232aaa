use storage_harvester::api::{
    escape_html, format_age_at, health_reply, readiness_reply, sort_nodes, format_bytes, format_duration, node_size, preferred_size_mode, render_labels,
    render_status_content_at, render_status_page_at, status_badge, target_status, TargetStatus,
};
use storage_harvester::cache::TargetSnapshot;
use storage_harvester::config::{ReportMode, SizeMode, Target};
use storage_harvester::exporter::prometheus::SizeComponent;
use storage_harvester::scanner::{NodeObservation, ScanResult};
use storage_harvester::time::Duration;

fn secs(s: u64) -> Duration {
    Duration::from_secs(s)
}

fn sample_target() -> Target {
    Target {
        name: "logs".to_string(),
        target_type: "filesystem".to_string(),
        scanner: "native".to_string(),
        display_path: "/var/log".to_string(),
        scan_path: "/host/var/log".to_string(),
        baseline_interval: secs(60),
        timeout: secs(30),
        no_cross_filesystem: true,
        follow_symlinks: false,
        report_mode: ReportMode::Tree,
        report_depth: 1,
        max_depth: None,
        size_modes: vec![SizeMode::Blocks],
        exclude: vec![],
        labels: vec![("team".to_string(), "ops<1>".to_string())],
    }
}

fn node(path: &str, depth: usize, own: u64, children: u64) -> NodeObservation {
    NodeObservation {
        path: path.to_string(),
        parent: String::new(),
        node: ".".to_string(),
        depth,
        own_blocks: own,
        children_blocks: children,
        own_apparent: own / 2,
        children_apparent: children / 2,
        file_count: 1,
        directory_count: 2,
        symlink_count: 0,
        children_file_count: 3,
        children_directory_count: 4,
        children_symlink_count: 0,
    }
}

fn sample_result() -> ScanResult {
    ScanResult {
        backend: "native".to_string(),
        observations: vec![node("/var/log", 0, 4096, 1536)],
        entries: vec![],
        permission_errors: 0,
        missing_path_races: 0,
        skipped_cross_device: 0,
        skipped_excluded: 0,
        scanned_files: 1,
        scanned_directories: 3,
        scanned_symlinks: 0,
        max_observed_depth: 2,
        depth_limit_hits: 0,
        duration: Duration { secs: 1, nanos: 500_000_000 },
        timestamp: secs(1_000),
    }
}

#[test]
fn escapes_html_text() {
    assert_eq!(escape_html("<&>\"'"), "&lt;&amp;&gt;&quot;&#39;");
}

#[test]
fn formats_bytes() {
    assert_eq!(format_bytes(512), "512 B");
    assert_eq!(format_bytes(1536), "1.5 KiB");
}

#[test]
fn formats_bytes_across_units() {
    assert_eq!(format_bytes(0), "0 B");
    assert_eq!(format_bytes(1023), "1023 B");
    assert_eq!(format_bytes(1024), "1.0 KiB");
    assert_eq!(format_bytes(1024 * 1024), "1.0 MiB");
    assert_eq!(format_bytes(5 * 1024 * 1024 * 1024), "5.0 GiB");
    assert_eq!(format_bytes(3 * 1024 * 1024 * 1024 * 1024), "3.0 TiB");
    assert_eq!(format_bytes(2048 * 1024 * 1024 * 1024 * 1024), "2048.0 TiB");
}

#[test]
fn escapes_plain_text_unchanged() {
    assert_eq!(escape_html("plain text"), "plain text");
    assert_eq!(escape_html(""), "");
}

#[test]
fn formats_duration_by_magnitude() {
    assert_eq!(format_duration(&Duration { secs: 0, nanos: 250_000_000 }), "250ms");
    assert_eq!(format_duration(&secs(0)), "0ms");
    assert_eq!(format_duration(&Duration { secs: 1, nanos: 500_000_000 }), "1s");
    assert_eq!(format_duration(&secs(90)), "1m 30s");
    assert_eq!(format_duration(&secs(3_700)), "1h 1m");
    assert_eq!(format_duration(&secs(90_000)), "1d 1h");
}

#[test]
fn formats_age_in_past_and_future() {
    assert_eq!(format_age_at(&secs(100), &secs(190)), "1m 30s ago");
    assert_eq!(format_age_at(&secs(200), &secs(100)), "200");
}

#[test]
fn status_follows_snapshot_state() {
    let target = sample_target();
    let mut snapshot = TargetSnapshot::from_target(&target);
    assert_eq!(target_status(&snapshot), TargetStatus::Pending);
    snapshot.last_success = Some(sample_result());
    assert_eq!(target_status(&snapshot), TargetStatus::Succeeded);
    snapshot.last_error = Some("boom".to_string());
    assert_eq!(target_status(&snapshot), TargetStatus::Failed);
    snapshot.scan_running = true;
    assert_eq!(target_status(&snapshot), TargetStatus::Running);
}

#[test]
fn badges_name_each_status() {
    assert_eq!(status_badge(TargetStatus::Running), "<span class=\"badge running\">running</span>");
    assert_eq!(status_badge(TargetStatus::Succeeded), "<span class=\"badge ok\">ok</span>");
    assert_eq!(status_badge(TargetStatus::Failed), "<span class=\"badge failed\">failed</span>");
    assert_eq!(status_badge(TargetStatus::Pending), "<span class=\"badge pending\">pending</span>");
}

#[test]
fn prefers_block_sizes() {
    assert_eq!(preferred_size_mode(&[SizeMode::Apparent, SizeMode::Blocks]), SizeMode::Blocks);
    assert_eq!(preferred_size_mode(&[SizeMode::Apparent]), SizeMode::Apparent);
    assert_eq!(preferred_size_mode(&[]), SizeMode::Apparent);
}

#[test]
fn picks_node_size_component() {
    let n = node("/x", 0, 100, 60);
    assert_eq!(node_size(&n, SizeComponent::Own, SizeMode::Blocks), 100);
    assert_eq!(node_size(&n, SizeComponent::Children, SizeMode::Blocks), 60);
    assert_eq!(node_size(&n, SizeComponent::Own, SizeMode::Apparent), 50);
    assert_eq!(node_size(&n, SizeComponent::Children, SizeMode::Apparent), 30);
}

#[test]
fn renders_escaped_labels() {
    let snapshot = TargetSnapshot::from_target(&sample_target());
    assert_eq!(render_labels(&snapshot), "<span>team: ops&lt;1&gt;</span>");
    let mut bare = sample_target();
    bare.labels = vec![];
    assert_eq!(render_labels(&TargetSnapshot::from_target(&bare)), "");
}

#[test]
fn status_content_reports_targets() {
    let mut snapshot = TargetSnapshot::from_target(&sample_target());
    let pending = render_status_content_at(&[snapshot.clone()], &secs(2_000));
    assert!(pending.contains("Scanner Status"));
    assert!(pending.contains("logs"));
    snapshot.last_success = Some(sample_result());
    snapshot.last_attempt = Some(secs(1_000));
    snapshot.scan_count = 1;
    let done = render_status_content_at(&[snapshot], &secs(2_000));
    assert!(done.contains("/var/log"));
    assert!(done.contains("5.5 KiB"));
    assert!(done.contains("16m 40s ago"));
}

#[test]
fn status_page_wraps_content() {
    let snapshot = TargetSnapshot::from_target(&sample_target());
    let now = secs(5_000);
    let content = render_status_content_at(&[snapshot.clone()], &now);
    let page = render_status_page_at(&[snapshot], &now);
    assert!(page.starts_with("<!doctype html>"));
    assert!(page.contains(&content));
    assert!(page.ends_with("</body></html>"));
}

fn bytes_in_float(bytes: u64) -> String {
    let units = ["B", "KiB", "MiB", "GiB", "TiB"];
    let mut value = bytes as f64;
    let mut unit = 0;
    while value >= 1024.0 && unit < units.len() - 1 {
        value /= 1024.0;
        unit += 1;
    }
    if unit == 0 {
        format!("{bytes} B")
    } else {
        format!("{value:.1} {}", units[unit])
    }
}

#[test]
fn formats_bytes_as_float_rounding_does() {
    assert_eq!(format_bytes(1280), "1.2 KiB");
    assert_eq!(format_bytes(1792), "1.8 KiB");
    for bytes in 0..300_000u64 {
        assert_eq!(format_bytes(bytes), bytes_in_float(bytes), "bytes {bytes}");
    }
    let mut n: u64 = 1;
    while n < (1u64 << 53) {
        for delta in [0u64, 1, 511, 512, 513, 1023] {
            let b = n.saturating_mul(3).saturating_add(delta);
            if b < (1u64 << 53) {
                assert_eq!(format_bytes(b), bytes_in_float(b), "bytes {b}");
            }
        }
        n *= 2;
    }
}

#[test]
fn lists_nodes_by_path_then_depth() {
    let nodes = vec![node("/b", 1, 1, 0), node("/a", 2, 2, 0), node("/a/x", 1, 3, 0), node("/a", 1, 4, 0), node("/a", 2, 5, 0)];
    let sorted = sort_nodes(&nodes);
    let order: Vec<(String, usize, u64)> = sorted.iter().map(|n| (n.path.clone(), n.depth, n.own_blocks)).collect();
    assert_eq!(
        order,
        vec![
            ("/a".to_string(), 1, 4),
            ("/a".to_string(), 2, 2),
            ("/a".to_string(), 2, 5),
            ("/a/x".to_string(), 1, 3),
            ("/b".to_string(), 1, 1),
        ]
    );
}

#[test]
fn escaped_text_has_only_references() {
    let out = escape_html("a&<b>\"'c&amp;");
    assert_eq!(out, "a&amp;&lt;b&gt;&quot;&#39;c&amp;amp;");
    assert!(!out.contains('<') && !out.contains('>') && !out.contains('"') && !out.contains('\''));
}

#[test]
fn answers_readiness_and_health() {
    assert_eq!(readiness_reply(true), (200, "ready\n"));
    assert_eq!(readiness_reply(false), (503, "initial scans pending\n"));
    assert_eq!(health_reply(), (200, "ok\n"));
}
