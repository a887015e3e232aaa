use storage_harvester::config::{
    default_baseline_interval, default_host_root, default_listen_address, default_log_level, default_metrics_path,
    default_report_depth, default_report_mode, default_scanner, default_size_modes, default_target_type, default_timeout,
    default_true, join_host_root, labels_in_order, normalize_display_path, parse_duration, Config, ConfigError, Defaults, DurationError,
    ReportMode, SizeMode, TargetConfig,
};
use storage_harvester::time::Duration;

fn target_config(name: &str, path: &str) -> TargetConfig {
    TargetConfig {
        name: name.to_string(),
        target_type: "filesystem".to_string(),
        path: path.to_string(),
        scanner: None,
        baseline_interval: None,
        timeout: None,
        no_cross_filesystem: None,
        follow_symlinks: None,
        report_mode: None,
        report_depth: None,
        max_depth: None,
        size_modes: None,
        exclude: vec![],
        labels: vec![],
    }
}

fn config(targets: Vec<TargetConfig>) -> Config {
    Config {
        host_root: "/host".to_string(),
        listen_address: default_listen_address(),
        metrics_path: default_metrics_path(),
        log_level: default_log_level(),
        defaults: Defaults::default(),
        targets,
    }
}

#[test]
fn parses_duration_units() {
    assert_eq!(parse_duration("30s").unwrap(), Duration::from_secs(30));
    assert_eq!(parse_duration("5m").unwrap(), Duration::from_secs(300));
    assert_eq!(parse_duration("2h").unwrap(), Duration::from_secs(7200));
}

#[test]
fn resolves_host_path_from_display_path() {
    let path = join_host_root("/host", "/var/log");
    assert_eq!(path, "/host/var/log");
}

#[test]
fn parses_duration_spellings() {
    assert_eq!(parse_duration("45").unwrap(), Duration::from_secs(45));
    assert_eq!(parse_duration(" 10sec ").unwrap(), Duration::from_secs(10));
    assert_eq!(parse_duration("3secs").unwrap(), Duration::from_secs(3));
    assert_eq!(parse_duration("2min").unwrap(), Duration::from_secs(120));
    assert_eq!(parse_duration("2mins").unwrap(), Duration::from_secs(120));
    assert_eq!(parse_duration("1hr").unwrap(), Duration::from_secs(3600));
    assert_eq!(parse_duration("4hrs").unwrap(), Duration::from_secs(14400));
}

#[test]
fn refuses_bad_durations() {
    assert_eq!(parse_duration(""), Err(DurationError::Empty));
    assert_eq!(parse_duration("   "), Err(DurationError::Empty));
    assert_eq!(parse_duration("abc"), Err(DurationError::InvalidNumber(String::new())));
    assert_eq!(
        parse_duration("99999999999999999999s"),
        Err(DurationError::InvalidNumber("99999999999999999999".to_string()))
    );
    assert_eq!(parse_duration("10x"), Err(DurationError::UnsupportedUnit("x".to_string())));
    assert_eq!(parse_duration("10 min"), Err(DurationError::UnsupportedUnit(" min".to_string())));
    assert_eq!(parse_duration("6000000000000000000h"), Err(DurationError::TooLarge));
}

#[test]
fn joins_host_root_in_every_form() {
    assert_eq!(join_host_root("/", "/var/log"), "/var/log");
    assert_eq!(join_host_root("/host/", "/a"), "/host/a");
    assert_eq!(join_host_root("/host", "/"), "/host/");
    assert_eq!(join_host_root("/host", "//srv/./"), "/host/srv");
    assert_eq!(join_host_root("/host", "relative/x"), "/host/relative/x");
}

#[test]
fn normalizes_display_paths() {
    assert_eq!(normalize_display_path("/var//log/./x/").unwrap(), "/var/log/x");
    assert_eq!(normalize_display_path("/").unwrap(), "/");
    assert_eq!(normalize_display_path("relative"), Err(ConfigError::PathNotAbsolute));
}

#[test]
fn default_settings() {
    assert_eq!(default_host_root(), "/");
    assert_eq!(default_listen_address(), "0.0.0.0:9799");
    assert_eq!(default_metrics_path(), "/metrics");
    assert_eq!(default_log_level(), "info");
    assert_eq!(default_scanner(), "native");
    assert_eq!(default_target_type(), "filesystem");
    assert_eq!(default_report_mode(), ReportMode::Tree);
    assert_eq!(default_report_depth(), 1);
    assert_eq!(default_size_modes(), vec![SizeMode::Blocks]);
    assert_eq!(default_baseline_interval(), Duration::from_secs(60));
    assert_eq!(default_timeout(), Duration::from_secs(30));
    assert!(default_true());
    let d = Defaults::default();
    assert_eq!(d.scanner, "native");
    assert!(d.no_cross_filesystem);
    assert!(!d.follow_symlinks);
    assert_eq!(d.max_depth, None);
    assert!(d.exclude.is_empty());
}

#[test]
fn validates_configuration() {
    assert_eq!(config(vec![target_config("logs", "/var/log")]).validate(), Ok(()));

    let mut c = config(vec![target_config("logs", "/var/log")]);
    c.metrics_path = "metrics".to_string();
    assert_eq!(c.validate(), Err(ConfigError::MetricsPath));

    assert_eq!(config(vec![]).validate(), Err(ConfigError::NoTargets));
    assert_eq!(config(vec![target_config("", "/x")]).validate(), Err(ConfigError::EmptyTargetName));
    assert_eq!(
        config(vec![target_config("bad name", "/x")]).validate(),
        Err(ConfigError::UnsupportedNameCharacters("bad name".to_string()))
    );
    assert_eq!(
        config(vec![target_config("a", "/x"), target_config("a", "/y")]).validate(),
        Err(ConfigError::DuplicateTargetName("a".to_string()))
    );
    assert_eq!(
        config(vec![target_config("a", "x")]).validate(),
        Err(ConfigError::TargetPathNotAbsolute("a".to_string()))
    );

    let mut t = target_config("a", "/x");
    t.baseline_interval = Some(Duration::from_secs(0));
    assert_eq!(config(vec![t]).validate(), Err(ConfigError::ZeroBaselineInterval("a".to_string())));

    let mut t = target_config("a", "/x");
    t.timeout = Some(Duration::from_secs(0));
    assert_eq!(config(vec![t]).validate(), Err(ConfigError::ZeroTimeout("a".to_string())));

    let mut t = target_config("a", "/x");
    t.max_depth = Some(1);
    t.report_depth = Some(2);
    assert_eq!(config(vec![t]).validate(), Err(ConfigError::MaxDepthBelowReportDepth("a".to_string())));

    let mut t = target_config("a", "/x");
    t.max_depth = Some(0);
    assert_eq!(config(vec![t]).validate(), Err(ConfigError::MaxDepthBelowReportDepth("a".to_string())));

    let mut t = target_config("a", "/x");
    t.size_modes = Some(vec![]);
    assert_eq!(config(vec![t]).validate(), Err(ConfigError::EmptySizeModes("a".to_string())));
}

#[test]
fn resolves_targets_with_defaults() {
    let mut c = config(vec![target_config("logs", "/var//log/")]);
    c.defaults.exclude = vec!["**/.git/**".to_string()];
    c.targets[0].exclude = vec!["*.tmp".to_string()];
    c.targets[0].report_depth = Some(3);
    c.targets[0].labels = vec![("team".to_string(), "ops".to_string())];
    let targets = c.resolved_targets().unwrap();
    assert_eq!(targets.len(), 1);
    let t = &targets[0];
    assert_eq!(t.name, "logs");
    assert_eq!(t.scanner, "native");
    assert_eq!(t.display_path, "/var/log");
    assert_eq!(t.scan_path, "/host/var/log");
    assert_eq!(t.baseline_interval, Duration::from_secs(60));
    assert_eq!(t.timeout, Duration::from_secs(30));
    assert!(t.no_cross_filesystem);
    assert!(!t.follow_symlinks);
    assert_eq!(t.report_mode, ReportMode::Tree);
    assert_eq!(t.report_depth, 3);
    assert_eq!(t.max_depth, None);
    assert_eq!(t.size_modes, vec![SizeMode::Blocks]);
    assert_eq!(t.exclude, vec!["**/.git/**".to_string(), "*.tmp".to_string()]);
    assert_eq!(t.labels, vec![("team".to_string(), "ops".to_string())]);
}

#[test]
fn refuses_unresolvable_targets() {
    let mut t = target_config("a", "/x");
    t.scanner = Some("du".to_string());
    assert_eq!(
        config(vec![t]).resolved_targets().unwrap_err(),
        ConfigError::UnsupportedScanner { target: "a".to_string(), scanner: "du".to_string() }
    );
    let mut t = target_config("b", "/x");
    t.target_type = "docker".to_string();
    assert_eq!(
        config(vec![target_config("a", "/y"), t]).resolved_targets().unwrap_err(),
        ConfigError::UnsupportedTargetType { target: "b".to_string(), target_type: "docker".to_string() }
    );
    assert_eq!(config(vec![target_config("a", "x")]).resolved_targets().unwrap_err(), ConfigError::PathNotAbsolute);
}

#[test]
fn words_errors() {
    assert_eq!(ConfigError::MetricsPath.text(), "metrics_path must start with /");
    assert_eq!(ConfigError::DuplicateTargetName("a".to_string()).text(), "duplicate target name a");
    assert_eq!(
        ConfigError::MaxDepthBelowReportDepth("a".to_string()).text(),
        "target a max_depth must be greater than or equal to report_depth"
    );
    assert_eq!(
        ConfigError::UnsupportedScanner { target: "a".to_string(), scanner: "d\"u".to_string() }.text(),
        "target a uses unsupported scanner \"d\\\"u\""
    );
    assert_eq!(
        ConfigError::UnsupportedTargetType { target: "b".to_string(), target_type: "docker".to_string() }.text(),
        "target b uses unsupported target type \"docker\""
    );
    assert_eq!(DurationError::Empty.text(), "duration cannot be empty");
    assert_eq!(DurationError::InvalidNumber(String::new()).text(), "invalid duration number \"\"");
    assert_eq!(DurationError::UnsupportedUnit("x".to_string()).text(), "unsupported duration unit \"x\"");
    assert_eq!(DurationError::TooLarge.text(), "duration is too large");
}

#[test]
fn normalizing_twice_changes_nothing() {
    for p in ["/var//log/./x/", "/", "//", "/a/../b/.", "/./."] {
        let once = normalize_display_path(p).unwrap();
        assert_eq!(normalize_display_path(&once).unwrap(), once);
    }
}

#[test]
fn checks_label_order() {
    let pair = |k: &str| (k.to_string(), "v".to_string());
    assert!(labels_in_order(&vec![]));
    assert!(labels_in_order(&vec![pair("a"), pair("b"), pair("c")]));
    assert!(!labels_in_order(&vec![pair("a"), pair("a")]));
    assert!(!labels_in_order(&vec![pair("b"), pair("a")]));
}
