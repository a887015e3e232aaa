//! Configuration: targets, inherited defaults, validation and resolution of
//! each target into the settings its scans run with.
//!
//! Paths are text. Labels are key/value pairs; `labels_ordered` says when
//! their keys ascend strictly, each key once, as a sorted map yields them.

use vstd::prelude::*;
use vstd::string::*;
use crate::path::{below_root, is_absolute, normalized, path_join, normalize_absolute, join_path, strip_root};
use crate::text::{is_whitespace, lemma_trim_end, lemma_trim_start, lemma_text_lt_transitive, text_less, text_lt, concat2, concat3, debug_quote, debug_quoted, chars_of, string_of, trimmed_chars, is_digit, digits_value, parse_digits, trim};
use crate::time::Duration;

verus! {

/// Which scanned directories become reported nodes.
#[derive(Clone, Copy, Debug, PartialEq, Eq, Structural)]
pub enum ReportMode {
    /// The root and every directory down to the report depth.
    Tree,
    /// The root and the directories exactly at the report depth.
    Leaves,
}

/// How a size is measured.
#[derive(Clone, Copy, Debug, PartialEq, Eq, Structural)]
pub enum SizeMode {
    /// Allocated blocks times 512 bytes.
    Blocks,
    /// The apparent file length.
    Apparent,
}

/// Settings that every target inherits unless it sets its own.
#[derive(Debug, Clone)]
pub struct Defaults {
    pub scanner: String,
    pub baseline_interval: Duration,
    pub timeout: Duration,
    pub no_cross_filesystem: bool,
    pub follow_symlinks: bool,
    pub report_mode: ReportMode,
    pub report_depth: usize,
    pub max_depth: Option<usize>,
    pub size_modes: Vec<SizeMode>,
    pub exclude: Vec<String>,
}

/// One configured target, as written in the configuration file.
#[derive(Debug, Clone)]
pub struct TargetConfig {
    pub name: String,
    pub target_type: String,
    pub path: String,
    pub scanner: Option<String>,
    pub baseline_interval: Option<Duration>,
    pub timeout: Option<Duration>,
    pub no_cross_filesystem: Option<bool>,
    pub follow_symlinks: Option<bool>,
    pub report_mode: Option<ReportMode>,
    pub report_depth: Option<usize>,
    pub max_depth: Option<usize>,
    pub size_modes: Option<Vec<SizeMode>>,
    pub exclude: Vec<String>,
    /// Label pairs, in the order `labels_ordered` describes.
    pub labels: Vec<(String, String)>,
}

/// The whole configuration file.
#[derive(Debug, Clone)]
pub struct Config {
    pub host_root: String,
    pub listen_address: String,
    pub metrics_path: String,
    pub log_level: String,
    pub defaults: Defaults,
    pub targets: Vec<TargetConfig>,
}

/// A target with every setting decided.
#[derive(Debug, Clone)]
pub struct Target {
    pub name: String,
    pub target_type: String,
    pub scanner: String,
    /// The path as configured, normalized; it appears in labels.
    pub display_path: String,
    /// Where the path is found under the host root; scans read it.
    pub scan_path: String,
    pub baseline_interval: Duration,
    pub timeout: Duration,
    pub no_cross_filesystem: bool,
    pub follow_symlinks: bool,
    pub report_mode: ReportMode,
    pub report_depth: usize,
    pub max_depth: Option<usize>,
    pub size_modes: Vec<SizeMode>,
    pub exclude: Vec<String>,
    /// Label pairs, in the order `labels_ordered` describes.
    pub labels: Vec<(String, String)>,
}

/// Why a configuration is refused.
#[derive(Debug, Clone, PartialEq)]
pub enum ConfigError {
    /// `metrics_path must start with /`
    MetricsPath,
    /// `at least one target is required`
    NoTargets,
    /// `target name cannot be empty`
    EmptyTargetName,
    /// `target {name} contains unsupported label characters`
    UnsupportedNameCharacters(String),
    /// `duplicate target name {name}`
    DuplicateTargetName(String),
    /// `target {name} path must be absolute`
    TargetPathNotAbsolute(String),
    /// `target {name} baseline_interval must be greater than zero`
    ZeroBaselineInterval(String),
    /// `target {name} timeout must be greater than zero`
    ZeroTimeout(String),
    /// `target {name} max_depth must be greater than or equal to report_depth`
    MaxDepthBelowReportDepth(String),
    /// `target {name} size_modes cannot be empty`
    EmptySizeModes(String),
    /// `target {target} uses unsupported scanner {scanner:?}`
    UnsupportedScanner { target: String, scanner: String },
    /// `target {target} uses unsupported target type {target_type:?}`
    UnsupportedTargetType { target: String, target_type: String },
    /// `target path must be absolute`
    PathNotAbsolute,
}

/// Why a duration is refused.
#[derive(Debug, Clone, PartialEq)]
pub enum DurationError {
    /// `duration cannot be empty`
    Empty,
    /// `invalid duration number {number:?}`
    InvalidNumber(String),
    /// `unsupported duration unit {unit:?}`
    UnsupportedUnit(String),
    /// The number of seconds does not fit in 64 bits.
    TooLarge,
}

/// Label pairs whose keys ascend strictly, so each key appears once (the
/// order in which a sorted map yields its entries).
pub open spec fn labels_ordered(l: Seq<(String, String)>) -> bool {
    forall|i: int, j: int| 0 <= i < j < l.len() ==> text_lt(#[trigger] l[i].0@, #[trigger] l[j].0@)
}

/// Whether the label keys ascend strictly.
pub fn labels_in_order(l: &Vec<(String, String)>) -> (b: bool)
    ensures
        b == labels_ordered(l@),
{
    let mut k: usize = 1;
    if l.len() == 0 {
        return true;
    }
    while k < l.len()
        invariant
            1 <= k <= l@.len(),
            forall|i: int, j: int| 0 <= i < j < k ==> text_lt(#[trigger] l@[i].0@, #[trigger] l@[j].0@),
        decreases l@.len() - k,
    {
        if !text_less(l[k - 1].0.as_str(), l[k].0.as_str()) {
            return false;
        }
        assert forall|i: int, j: int| 0 <= i < j < k + 1 implies text_lt(#[trigger] l@[i].0@, #[trigger] l@[j].0@) by {
            if j == k && i < k - 1 {
                lemma_text_lt_transitive(l@[i].0@, l@[k - 1].0@, l@[k as int].0@);
            }
        }
        k = k + 1;
    }
    true
}

/// Resolving a target keeps its labels, so label order carries over from
/// the configured target to the target that scans run with.
pub proof fn law_resolution_keeps_label_order(c: Config, t: TargetConfig, r: Target)
    requires
        c.resolves_to(t, r),
        labels_ordered(t.labels@),
    ensures
        labels_ordered(r.labels@),
{
}

impl ConfigError {
    /// The message that reports the error.
    pub open spec fn message(self) -> Seq<char> {
        match self {
            ConfigError::MetricsPath => "metrics_path must start with /"@,
            ConfigError::NoTargets => "at least one target is required"@,
            ConfigError::EmptyTargetName => "target name cannot be empty"@,
            ConfigError::UnsupportedNameCharacters(n) => "target "@ + n@ + " contains unsupported label characters"@,
            ConfigError::DuplicateTargetName(n) => "duplicate target name "@ + n@,
            ConfigError::TargetPathNotAbsolute(n) => "target "@ + n@ + " path must be absolute"@,
            ConfigError::ZeroBaselineInterval(n) => "target "@ + n@ + " baseline_interval must be greater than zero"@,
            ConfigError::ZeroTimeout(n) => "target "@ + n@ + " timeout must be greater than zero"@,
            ConfigError::MaxDepthBelowReportDepth(n) => "target "@ + n@
                + " max_depth must be greater than or equal to report_depth"@,
            ConfigError::EmptySizeModes(n) => "target "@ + n@ + " size_modes cannot be empty"@,
            ConfigError::UnsupportedScanner { target, scanner } => "target "@ + target@ + " uses unsupported scanner "@
                + debug_quoted(scanner@),
            ConfigError::UnsupportedTargetType { target, target_type } => "target "@ + target@
                + " uses unsupported target type "@ + debug_quoted(target_type@),
            ConfigError::PathNotAbsolute => "target path must be absolute"@,
        }
    }

    /// The message that reports the error, as text.
    pub fn text(&self) -> (r: String)
        ensures
            r@ == self.message(),
    {
        match self {
            ConfigError::MetricsPath => String::from_str("metrics_path must start with /"),
            ConfigError::NoTargets => String::from_str("at least one target is required"),
            ConfigError::EmptyTargetName => String::from_str("target name cannot be empty"),
            ConfigError::UnsupportedNameCharacters(n) => concat3("target ", n.as_str(), " contains unsupported label characters"),
            ConfigError::DuplicateTargetName(n) => concat2("duplicate target name ", n.as_str()),
            ConfigError::TargetPathNotAbsolute(n) => concat3("target ", n.as_str(), " path must be absolute"),
            ConfigError::ZeroBaselineInterval(n) => concat3("target ", n.as_str(), " baseline_interval must be greater than zero"),
            ConfigError::ZeroTimeout(n) => concat3("target ", n.as_str(), " timeout must be greater than zero"),
            ConfigError::MaxDepthBelowReportDepth(n) => concat3(
                "target ",
                n.as_str(),
                " max_depth must be greater than or equal to report_depth",
            ),
            ConfigError::EmptySizeModes(n) => concat3("target ", n.as_str(), " size_modes cannot be empty"),
            ConfigError::UnsupportedScanner { target, scanner } => {
                let q = debug_quote(scanner.as_str());
                let r = concat2(" uses unsupported scanner ", q.as_str());
                let m = concat3("target ", target.as_str(), r.as_str());
                assert(m@ =~= self.message());
                m
            },
            ConfigError::UnsupportedTargetType { target, target_type } => {
                let q = debug_quote(target_type.as_str());
                let r = concat2(" uses unsupported target type ", q.as_str());
                let m = concat3("target ", target.as_str(), r.as_str());
                assert(m@ =~= self.message());
                m
            },
            ConfigError::PathNotAbsolute => String::from_str("target path must be absolute"),
        }
    }
}

impl DurationError {
    /// The message that reports the error.
    pub open spec fn message(self) -> Seq<char> {
        match self {
            DurationError::Empty => "duration cannot be empty"@,
            DurationError::InvalidNumber(n) => "invalid duration number "@ + debug_quoted(n@),
            DurationError::UnsupportedUnit(u) => "unsupported duration unit "@ + debug_quoted(u@),
            DurationError::TooLarge => "duration is too large"@,
        }
    }

    /// The message that reports the error, as text.
    pub fn text(&self) -> (r: String)
        ensures
            r@ == self.message(),
    {
        match self {
            DurationError::Empty => String::from_str("duration cannot be empty"),
            DurationError::InvalidNumber(n) => {
                let q = debug_quote(n.as_str());
                concat2("invalid duration number ", q.as_str())
            },
            DurationError::UnsupportedUnit(u) => {
                let q = debug_quote(u.as_str());
                concat2("unsupported duration unit ", q.as_str())
            },
            DurationError::TooLarge => String::from_str("duration is too large"),
        }
    }
}

pub fn default_host_root() -> (s: String)
    ensures
        s@ == "/"@,
{
    String::from_str("/")
}

/// The address the HTTP server listens on unless configured: every IPv4
/// interface, port 9799.
pub fn default_listen_address() -> (s: String)
    ensures
        s@ == "0.0.0.0:9799"@,
{
    String::from_str("0.0.0.0:9799")
}

pub fn default_metrics_path() -> (s: String)
    ensures
        s@ == "/metrics"@,
{
    String::from_str("/metrics")
}

pub fn default_log_level() -> (s: String)
    ensures
        s@ == "info"@,
{
    String::from_str("info")
}

pub fn default_scanner() -> (s: String)
    ensures
        s@ == "native"@,
{
    String::from_str("native")
}

pub fn default_target_type() -> (s: String)
    ensures
        s@ == "filesystem"@,
{
    String::from_str("filesystem")
}

pub fn default_report_mode() -> (m: ReportMode)
    ensures
        m == ReportMode::Tree,
{
    ReportMode::Tree
}

pub fn default_report_depth() -> (d: usize)
    ensures
        d == 1,
{
    1
}

pub fn default_size_modes() -> (v: Vec<SizeMode>)
    ensures
        v@ == seq![SizeMode::Blocks],
{
    let mut v = Vec::new();
    v.push(SizeMode::Blocks);
    v
}

pub fn default_baseline_interval() -> (d: Duration)
    ensures
        d == Duration::from_secs_spec(60),
{
    Duration::from_secs(60)
}

pub fn default_timeout() -> (d: Duration)
    ensures
        d == Duration::from_secs_spec(30),
{
    Duration::from_secs(30)
}

pub fn default_true() -> (b: bool)
    ensures
        b,
{
    true
}

impl Default for Defaults {
    fn default() -> (d: Self)
        ensures
            d.scanner@ == "native"@,
            d.baseline_interval == Duration::from_secs_spec(60),
            d.timeout == Duration::from_secs_spec(30),
            d.no_cross_filesystem,
            !d.follow_symlinks,
            d.report_mode == ReportMode::Tree,
            d.report_depth == 1,
            d.max_depth is None,
            d.size_modes@ == seq![SizeMode::Blocks],
            d.exclude@.len() == 0,
    {
        Defaults {
            scanner: default_scanner(),
            baseline_interval: default_baseline_interval(),
            timeout: default_timeout(),
            no_cross_filesystem: true,
            follow_symlinks: false,
            report_mode: default_report_mode(),
            report_depth: default_report_depth(),
            max_depth: None,
            size_modes: default_size_modes(),
            exclude: Vec::new(),
        }
    }
}

// ---------------------------------------------------------------- durations

/// The outcome of reading a duration, as values.
pub enum DurationReading {
    Seconds(nat),
    Empty,
    InvalidNumber(Seq<char>),
    UnsupportedUnit(Seq<char>),
    TooLarge,
}

/// The length of the leading run of ASCII digits.
pub open spec fn digit_run(s: Seq<char>) -> nat
    decreases s.len(),
{
    if s.len() > 0 && is_digit(s[0]) {
        1 + digit_run(s.drop_first())
    } else {
        0
    }
}

/// Seconds in one unit, or `None` for an unknown unit.
pub open spec fn unit_seconds(unit: Seq<char>) -> Option<nat> {
    if unit == "s"@ || unit == "sec"@ || unit == "secs"@ || unit == ""@ {
        Some(1)
    } else if unit == "m"@ || unit == "min"@ || unit == "mins"@ {
        Some(60)
    } else if unit == "h"@ || unit == "hr"@ || unit == "hrs"@ {
        Some(3600)
    } else {
        None
    }
}

/// A duration is a whole number followed by a unit (`s`, `sec`, `secs`, `m`,
/// `min`, `mins`, `h`, `hr`, `hrs`, or none for seconds), with surrounding
/// whitespace ignored.
pub open spec fn read_duration(text: Seq<char>) -> DurationReading {
    let value = trim(text);
    let split = digit_run(value) as int;
    let number = value.take(split);
    let unit = value.skip(split);
    if value.len() == 0 {
        DurationReading::Empty
    } else if number.len() == 0 || digits_value(number) > u64::MAX {
        DurationReading::InvalidNumber(number)
    } else {
        match unit_seconds(unit) {
            None => DurationReading::UnsupportedUnit(unit),
            Some(k) => if digits_value(number) * k > u64::MAX {
                DurationReading::TooLarge
            } else {
                DurationReading::Seconds(digits_value(number) * k)
            },
        }
    }
}

/// `r` is the result that `reading` describes.
pub open spec fn duration_result_is(r: Result<Duration, DurationError>, reading: DurationReading) -> bool {
    match reading {
        DurationReading::Seconds(n) => r == Ok::<Duration, DurationError>(Duration { secs: n as u64, nanos: 0 }),
        DurationReading::Empty => r == Err::<Duration, DurationError>(DurationError::Empty),
        DurationReading::InvalidNumber(t) => r matches Err(DurationError::InvalidNumber(x)) && x@ == t,
        DurationReading::UnsupportedUnit(t) => r matches Err(DurationError::UnsupportedUnit(x)) && x@ == t,
        DurationReading::TooLarge => r == Err::<Duration, DurationError>(DurationError::TooLarge),
    }
}

proof fn lemma_digit_run(s: Seq<char>, i: int)
    requires
        0 <= i <= s.len(),
        forall|k: int| 0 <= k < i ==> is_digit(#[trigger] s[k]),
        i == s.len() || !is_digit(s[i]),
    ensures
        digit_run(s) == i,
    decreases i,
{
    if i > 0 {
        assert(is_digit(s[0]));
        lemma_digit_run(s.drop_first(), i - 1);
    }
}

/// Whether `v` holds exactly the characters of `lit`.
fn chars_are(v: &Vec<char>, lit: &str) -> (b: bool)
    ensures
        b == (v@ == lit@),
{
    let s = string_of(v);
    crate::text::same_text(s.as_str(), lit)
}

/// Reads a duration such as `30s`, `5m` or `2h`.
#[verifier::spinoff_prover]
pub fn parse_duration(value: &str) -> (r: Result<Duration, DurationError>)
    ensures
        duration_result_is(r, read_duration(value@)),
        r matches Ok(d) ==> d.wf(),
{
    let v = trimmed_chars(value);
    if v.len() == 0 {
        return Err(DurationError::Empty);
    }
    let mut split: usize = 0;
    while split < v.len() && '0' <= v[split] && v[split] <= '9'
        invariant
            split <= v.len(),
            forall|k: int| 0 <= k < split ==> is_digit(#[trigger] v@[k]),
        decreases v.len() - split,
    {
        split = split + 1;
    }
    proof {
        lemma_digit_run(v@, split as int);
    }
    let mut number: Vec<char> = Vec::new();
    let mut unit: Vec<char> = Vec::new();
    let mut k: usize = 0;
    while k < v.len()
        invariant
            split <= v.len(),
            k <= v.len(),
            number@ == v@.take(if k < split { k as int } else { split as int }),
            unit@ == v@.subrange(split as int, if k < split { split as int } else { k as int }),
        decreases v.len() - k,
    {
        if k < split {
            number.push(v[k]);
            assert(v@.take(k + 1) =~= v@.take(k as int).push(v@[k as int]));
        } else {
            unit.push(v[k]);
            assert(v@.subrange(split as int, k + 1) =~= v@.subrange(split as int, k as int).push(v@[k as int]));
        }
        k = k + 1;
    }
    assert(unit@ =~= v@.skip(split as int));
    let amount = match parse_digits(&number) {
        Some(a) => a,
        None => {
            return Err(DurationError::InvalidNumber(string_of(&number)));
        },
    };
    let factor: u64 = if chars_are(&unit, "s") || chars_are(&unit, "sec") || chars_are(&unit, "secs")
        || chars_are(&unit, "") {
        1
    } else if chars_are(&unit, "m") || chars_are(&unit, "min") || chars_are(&unit, "mins") {
        60
    } else if chars_are(&unit, "h") || chars_are(&unit, "hr") || chars_are(&unit, "hrs") {
        3600
    } else {
        return Err(DurationError::UnsupportedUnit(string_of(&unit)));
    };
    let secs: u128 = amount as u128 * factor as u128;
    if secs > u64::MAX as u128 {
        return Err(DurationError::TooLarge);
    }
    Ok(Duration::from_secs(secs as u64))
}

// ---------------------------------------------------------------- validation

/// A character allowed in a target name (it becomes a label value).
pub open spec fn is_name_char(c: char) -> bool {
    ('a' <= c && c <= 'z') || ('A' <= c && c <= 'Z') || ('0' <= c && c <= '9') || c == '_'
        || c == '-' || c == '.'
}

fn name_chars_allowed(name: &String) -> (b: bool)
    ensures
        b == forall|k: int| 0 <= k < name@.len() ==> is_name_char(#[trigger] name@[k]),
{
    let v = chars_of(name.as_str());
    let mut i: usize = 0;
    while i < v.len()
        invariant
            v@ == name@,
            i <= v.len(),
            forall|k: int| 0 <= k < i ==> is_name_char(#[trigger] v@[k]),
        decreases v.len() - i,
    {
        let c = v[i];
        if !(('a' <= c && c <= 'z') || ('A' <= c && c <= 'Z') || ('0' <= c && c <= '9') || c == '_'
            || c == '-' || c == '.') {
            assert(!is_name_char(v@[i as int]));
            return false;
        }
        i = i + 1;
    }
    true
}

fn text_is_absolute(s: &String) -> (b: bool)
    ensures
        b == is_absolute(s@),
{
    let v = chars_of(s.as_str());
    v.len() > 0 && v[0] == '/'
}

fn is_zero_duration(d: &Option<Duration>) -> (b: bool)
    ensures
        b == (d matches Some(x) && x.secs == 0 && x.nanos == 0),
{
    match d {
        Some(x) => x.is_zero(),
        None => false,
    }
}

impl Config {
    /// The first check that target `i` fails, in the order they are made.
    pub open spec fn target_problem(self, i: int) -> Option<ConfigError> {
        let t = self.targets@[i];
        if t.name@.len() == 0 {
            Some(ConfigError::EmptyTargetName)
        } else if !(forall|k: int| 0 <= k < t.name@.len() ==> is_name_char(#[trigger] t.name@[k])) {
            Some(ConfigError::UnsupportedNameCharacters(t.name))
        } else if exists|j: int| 0 <= j < i && #[trigger] self.targets@[j].name@ == t.name@ {
            Some(ConfigError::DuplicateTargetName(t.name))
        } else if !is_absolute(t.path@) {
            Some(ConfigError::TargetPathNotAbsolute(t.name))
        } else if t.baseline_interval matches Some(d) && d.secs == 0 && d.nanos == 0 {
            Some(ConfigError::ZeroBaselineInterval(t.name))
        } else if t.timeout matches Some(d) && d.secs == 0 && d.nanos == 0 {
            Some(ConfigError::ZeroTimeout(t.name))
        } else if t.max_depth matches Some(m) && m < (match t.report_depth {
            Some(d) => d,
            None => self.defaults.report_depth,
        }) {
            Some(ConfigError::MaxDepthBelowReportDepth(t.name))
        } else if t.size_modes matches Some(v) && v@.len() == 0 {
            Some(ConfigError::EmptySizeModes(t.name))
        } else {
            None
        }
    }

    /// The first problem among the first `n` targets.
    pub open spec fn first_problem(self, n: int) -> Option<ConfigError>
        decreases n,
    {
        if n <= 0 {
            None
        } else {
            match self.first_problem(n - 1) {
                Some(e) => Some(e),
                None => self.target_problem(n - 1),
            }
        }
    }

    /// Once a problem is found, later targets do not change which one is reported.
    pub proof fn lemma_first_problem_stays(self, i: int, n: int)
        requires
            0 <= i <= n,
            self.first_problem(i) is Some,
        ensures
            self.first_problem(n) == self.first_problem(i),
        decreases n - i,
    {
        if n > i {
            self.lemma_first_problem_stays(i, n - 1);
        }
    }

    /// Whether the configuration is accepted, and if not, why.
    pub open spec fn validation(self) -> Result<(), ConfigError> {
        if !is_absolute(self.metrics_path@) {
            Err(ConfigError::MetricsPath)
        } else if self.targets@.len() == 0 {
            Err(ConfigError::NoTargets)
        } else {
            match self.first_problem(self.targets@.len() as int) {
                Some(e) => Err(e),
                None => Ok(()),
            }
        }
    }

    #[verifier::loop_isolation(false)]
    fn check_target(&self, i: usize) -> (r: Option<ConfigError>)
        requires
            i < self.targets@.len(),
        ensures
            r == self.target_problem(i as int),
    {
        let t = &self.targets[i];
        if t.name.as_str().is_empty() {
            return Some(ConfigError::EmptyTargetName);
        }
        if !name_chars_allowed(&t.name) {
            return Some(ConfigError::UnsupportedNameCharacters(t.name.clone()));
        }
        let mut j: usize = 0;
        while j < i
            invariant
                i < self.targets@.len(),
                j <= i,
                t == self.targets@[i as int],
                forall|k: int| 0 <= k < j ==> #[trigger] self.targets@[k].name@ != t.name@,
            decreases i - j,
        {
            if self.targets[j].name == t.name {
                assert(self.targets@[j as int].name@ == t.name@);
                return Some(ConfigError::DuplicateTargetName(t.name.clone()));
            }
            j = j + 1;
        }
        if !text_is_absolute(&t.path) {
            return Some(ConfigError::TargetPathNotAbsolute(t.name.clone()));
        }
        if is_zero_duration(&t.baseline_interval) {
            return Some(ConfigError::ZeroBaselineInterval(t.name.clone()));
        }
        if is_zero_duration(&t.timeout) {
            return Some(ConfigError::ZeroTimeout(t.name.clone()));
        }
        if let Some(max_depth) = t.max_depth {
            let report_depth = match t.report_depth {
                Some(d) => d,
                None => self.defaults.report_depth,
            };
            if max_depth < report_depth {
                return Some(ConfigError::MaxDepthBelowReportDepth(t.name.clone()));
            }
        }
        if let Some(modes) = &t.size_modes {
            if modes.len() == 0 {
                return Some(ConfigError::EmptySizeModes(t.name.clone()));
            }
        }
        None
    }

    /// Checks the configuration and reports the first problem found.
    #[verifier::loop_isolation(false)]
    #[verifier::spinoff_prover]
    pub fn validate(&self) -> (r: Result<(), ConfigError>)
        ensures
            r == self.validation(),
    {
        if !text_is_absolute(&self.metrics_path) {
            return Err(ConfigError::MetricsPath);
        }
        if self.targets.len() == 0 {
            return Err(ConfigError::NoTargets);
        }
        let mut i: usize = 0;
        while i < self.targets.len()
            invariant
                i <= self.targets@.len(),
                self.first_problem(i as int) is None,
            decreases self.targets@.len() - i,
        {
            if let Some(e) = self.check_target(i) {
                proof {
                    assert(self.first_problem(i as int + 1) == Some(e));
                    self.lemma_first_problem_stays(i as int + 1, self.targets@.len() as int);
                }
                return Err(e);
            }
            i = i + 1;
        }
        Ok(())
    }
}


// ---------------------------------------------------------------- resolution

/// A copy of a list of strings.
pub fn copy_strings(v: &Vec<String>) -> (r: Vec<String>)
    ensures
        r@ == v@,
{
    let mut r: Vec<String> = Vec::new();
    let mut i: usize = 0;
    while i < v.len()
        invariant
            i <= v.len(),
            r@ == v@.take(i as int),
        decreases v.len() - i,
    {
        r.push(v[i].clone());
        assert(r@ =~= v@.take(i + 1));
        i = i + 1;
    }
    assert(v@.take(v.len() as int) =~= v@);
    r
}

/// A copy of a list of size modes.
pub fn copy_size_modes(v: &Vec<SizeMode>) -> (r: Vec<SizeMode>)
    ensures
        r@ == v@,
{
    let mut r: Vec<SizeMode> = Vec::new();
    let mut i: usize = 0;
    while i < v.len()
        invariant
            i <= v.len(),
            r@ == v@.take(i as int),
        decreases v.len() - i,
    {
        r.push(v[i]);
        assert(r@ =~= v@.take(i + 1));
        i = i + 1;
    }
    assert(v@.take(v.len() as int) =~= v@);
    r
}

/// A copy of a list of labels.
pub fn copy_labels(v: &Vec<(String, String)>) -> (r: Vec<(String, String)>)
    ensures
        r@ == v@,
{
    let mut r: Vec<(String, String)> = Vec::new();
    let mut i: usize = 0;
    while i < v.len()
        invariant
            i <= v.len(),
            r@ == v@.take(i as int),
        decreases v.len() - i,
    {
        let (k, x) = &v[i];
        r.push((k.clone(), x.clone()));
        assert(r@ =~= v@.take(i + 1));
        i = i + 1;
    }
    assert(v@.take(v.len() as int) =~= v@);
    r
}

impl Target {
    /// The two targets hold the same settings.
    pub open spec fn same_as(self, other: Target) -> bool {
        &&& self.name == other.name
        &&& self.target_type == other.target_type
        &&& self.scanner == other.scanner
        &&& self.display_path == other.display_path
        &&& self.scan_path == other.scan_path
        &&& self.baseline_interval == other.baseline_interval
        &&& self.timeout == other.timeout
        &&& self.no_cross_filesystem == other.no_cross_filesystem
        &&& self.follow_symlinks == other.follow_symlinks
        &&& self.report_mode == other.report_mode
        &&& self.report_depth == other.report_depth
        &&& self.max_depth == other.max_depth
        &&& self.size_modes@ == other.size_modes@
        &&& self.exclude@ == other.exclude@
        &&& self.labels@ == other.labels@
    }

    /// A copy of this target.
    pub fn copy(&self) -> (r: Target)
        ensures
            r.same_as(*self),
    {
        Target {
            name: self.name.clone(),
            target_type: self.target_type.clone(),
            scanner: self.scanner.clone(),
            display_path: self.display_path.clone(),
            scan_path: self.scan_path.clone(),
            baseline_interval: self.baseline_interval,
            timeout: self.timeout,
            no_cross_filesystem: self.no_cross_filesystem,
            follow_symlinks: self.follow_symlinks,
            report_mode: self.report_mode,
            report_depth: self.report_depth,
            max_depth: self.max_depth,
            size_modes: copy_size_modes(&self.size_modes),
            exclude: copy_strings(&self.exclude),
            labels: copy_labels(&self.labels),
        }
    }
}

/// Copies of each target, in order.
pub fn copy_targets(v: &Vec<Target>) -> (r: Vec<Target>)
    ensures
        r@.len() == v@.len(),
        forall|i: int| 0 <= i < v@.len() ==> (#[trigger] r@[i]).same_as(v@[i]),
{
    let mut r: Vec<Target> = Vec::new();
    let mut i: usize = 0;
    while i < v.len()
        invariant
            i <= v.len(),
            r@.len() == i,
            forall|k: int| 0 <= k < i ==> (#[trigger] r@[k]).same_as(v@[k]),
        decreases v.len() - i,
    {
        r.push(v[i].copy());
        i = i + 1;
    }
    r
}

/// The path normalized: the root followed by its components, with empty and
/// `.` components dropped. Only absolute paths are accepted.
pub fn normalize_display_path(path: &str) -> (r: Result<String, ConfigError>)
    ensures
        is_absolute(path@) ==> (r matches Ok(p) && p@ == normalized(path@)),
        !is_absolute(path@) ==> r == Err::<String, ConfigError>(ConfigError::PathNotAbsolute),
{
    let v = chars_of(path);
    if !(v.len() > 0 && v[0] == '/') {
        return Err(ConfigError::PathNotAbsolute);
    }
    Ok(normalize_absolute(path))
}

/// Where a display path is found under the host root: the path below its
/// root, joined to the host root.
pub fn join_host_root(host_root: &str, display_path: &str) -> (r: String)
    ensures
        r@ == path_join(host_root@, below_root(display_path@)),
{
    let rel = strip_root(display_path);
    let rel_text = string_of(&rel);
    join_path(host_root, rel_text.as_str())
}

impl Config {
    /// The scanner a target uses: its own, or the default.
    pub open spec fn scanner_of(self, t: TargetConfig) -> String {
        match t.scanner {
            Some(s) => s,
            None => self.defaults.scanner,
        }
    }

    /// Why `t` cannot be resolved, if it cannot.
    pub open spec fn resolution_problem(self, t: TargetConfig) -> Option<ConfigError> {
        if self.scanner_of(t)@ != "native"@ {
            Some(ConfigError::UnsupportedScanner { target: t.name, scanner: self.scanner_of(t) })
        } else if t.target_type@ != "filesystem"@ {
            Some(ConfigError::UnsupportedTargetType { target: t.name, target_type: t.target_type })
        } else if !is_absolute(t.path@) {
            Some(ConfigError::PathNotAbsolute)
        } else {
            None
        }
    }

    /// `r` is `t` with every unset setting taken from the defaults.
    pub open spec fn resolves_to(self, t: TargetConfig, r: Target) -> bool {
        &&& r.name == t.name
        &&& r.target_type == t.target_type
        &&& r.scanner == self.scanner_of(t)
        &&& r.display_path@ == normalized(t.path@)
        &&& r.scan_path@ == path_join(self.host_root@, below_root(normalized(t.path@)))
        &&& r.baseline_interval == (match t.baseline_interval {
            Some(d) => d,
            None => self.defaults.baseline_interval,
        })
        &&& r.timeout == (match t.timeout {
            Some(d) => d,
            None => self.defaults.timeout,
        })
        &&& r.no_cross_filesystem == (match t.no_cross_filesystem {
            Some(b) => b,
            None => self.defaults.no_cross_filesystem,
        })
        &&& r.follow_symlinks == (match t.follow_symlinks {
            Some(b) => b,
            None => self.defaults.follow_symlinks,
        })
        &&& r.report_mode == (match t.report_mode {
            Some(m) => m,
            None => self.defaults.report_mode,
        })
        &&& r.report_depth == (match t.report_depth {
            Some(d) => d,
            None => self.defaults.report_depth,
        })
        &&& r.max_depth == (match t.max_depth {
            Some(d) => Some(d),
            None => self.defaults.max_depth,
        })
        &&& r.size_modes@ == (match t.size_modes {
            Some(v) => v@,
            None => self.defaults.size_modes@,
        })
        &&& r.exclude@ == self.defaults.exclude@ + t.exclude@
        &&& r.labels@ == t.labels@
    }

    /// The settings that target `t` scans with.
    #[verifier::spinoff_prover]
    pub fn resolve_target(&self, t: &TargetConfig) -> (r: Result<Target, ConfigError>)
        ensures
            self.resolution_problem(*t) matches Some(e) ==> r == Err::<Target, ConfigError>(e),
            self.resolution_problem(*t) is None ==> (r matches Ok(x) && self.resolves_to(*t, x)),
    {
        let scanner: &String = match &t.scanner {
            Some(s) => s,
            None => &self.defaults.scanner,
        };
        if !crate::text::same_text(scanner.as_str(), "native") {
            return Err(ConfigError::UnsupportedScanner { target: t.name.clone(), scanner: scanner.clone() });
        }
        if !crate::text::same_text(t.target_type.as_str(), "filesystem") {
            return Err(ConfigError::UnsupportedTargetType {
                target: t.name.clone(),
                target_type: t.target_type.clone(),
            });
        }
        let display_path = match normalize_display_path(t.path.as_str()) {
            Ok(p) => p,
            Err(e) => {
                return Err(e);
            },
        };
        let scan_path = join_host_root(self.host_root.as_str(), display_path.as_str());
        let mut exclude = copy_strings(&self.defaults.exclude);
        let mut extra = copy_strings(&t.exclude);
        exclude.append(&mut extra);
        assert(exclude@ =~= self.defaults.exclude@ + t.exclude@);
        let size_modes = match &t.size_modes {
            Some(v) => copy_size_modes(v),
            None => copy_size_modes(&self.defaults.size_modes),
        };
        Ok(Target {
            name: t.name.clone(),
            target_type: t.target_type.clone(),
            scanner: scanner.clone(),
            display_path,
            scan_path,
            baseline_interval: match t.baseline_interval {
                Some(d) => d,
                None => self.defaults.baseline_interval,
            },
            timeout: match t.timeout {
                Some(d) => d,
                None => self.defaults.timeout,
            },
            no_cross_filesystem: match t.no_cross_filesystem {
                Some(b) => b,
                None => self.defaults.no_cross_filesystem,
            },
            follow_symlinks: match t.follow_symlinks {
                Some(b) => b,
                None => self.defaults.follow_symlinks,
            },
            report_mode: match t.report_mode {
                Some(m) => m,
                None => self.defaults.report_mode,
            },
            report_depth: match t.report_depth {
                Some(d) => d,
                None => self.defaults.report_depth,
            },
            max_depth: match t.max_depth {
                Some(d) => Some(d),
                None => self.defaults.max_depth,
            },
            size_modes,
            exclude,
            labels: copy_labels(&t.labels),
        })
    }

    /// Resolves every target in order; the first target that cannot be
    /// resolved decides the error.
    #[verifier::spinoff_prover]
    pub fn resolved_targets(&self) -> (r: Result<Vec<Target>, ConfigError>)
        ensures
            r is Ok <==> forall|i: int|
                0 <= i < self.targets@.len() ==> self.resolution_problem(#[trigger] self.targets@[i]) is None,
            r matches Ok(v) ==> v@.len() == self.targets@.len() && forall|i: int|
                0 <= i < v@.len() ==> self.resolves_to(self.targets@[i], #[trigger] v@[i]),
            r matches Err(e) ==> exists|i: int|
                0 <= i < self.targets@.len() && (forall|j: int|
                    0 <= j < i ==> self.resolution_problem(#[trigger] self.targets@[j]) is None)
                    && self.resolution_problem(#[trigger] self.targets@[i]) == Some(e),
    {
        let mut out: Vec<Target> = Vec::new();
        let mut i: usize = 0;
        while i < self.targets.len()
            invariant
                i <= self.targets@.len(),
                out@.len() == i,
                forall|j: int| 0 <= j < i ==> self.resolution_problem(#[trigger] self.targets@[j]) is None,
                forall|j: int| 0 <= j < i ==> self.resolves_to(self.targets@[j], #[trigger] out@[j]),
            decreases self.targets@.len() - i,
        {
            match self.resolve_target(&self.targets[i]) {
                Ok(t) => {
                    out.push(t);
                },
                Err(e) => {
                    return Err(e);
                },
            }
            i = i + 1;
        }
        Ok(out)
    }
}

/// A setting given on a target wins over the default; only a setting the
/// target leaves unset is taken from the defaults. Exclude patterns are the
/// defaults' followed by the target's own.
pub proof fn law_target_settings_override(c: Config, t: TargetConfig, r: Target)
    requires
        c.resolves_to(t, r),
    ensures
        t.scanner matches Some(v) ==> r.scanner == v,
        t.scanner is None ==> r.scanner == c.defaults.scanner,
        t.baseline_interval matches Some(v) ==> r.baseline_interval == v,
        t.baseline_interval is None ==> r.baseline_interval == c.defaults.baseline_interval,
        t.timeout matches Some(v) ==> r.timeout == v,
        t.timeout is None ==> r.timeout == c.defaults.timeout,
        t.no_cross_filesystem matches Some(v) ==> r.no_cross_filesystem == v,
        t.no_cross_filesystem is None ==> r.no_cross_filesystem == c.defaults.no_cross_filesystem,
        t.follow_symlinks matches Some(v) ==> r.follow_symlinks == v,
        t.follow_symlinks is None ==> r.follow_symlinks == c.defaults.follow_symlinks,
        t.report_mode matches Some(v) ==> r.report_mode == v,
        t.report_mode is None ==> r.report_mode == c.defaults.report_mode,
        t.report_depth matches Some(v) ==> r.report_depth == v,
        t.report_depth is None ==> r.report_depth == c.defaults.report_depth,
        t.max_depth matches Some(v) ==> r.max_depth == Some(v),
        t.max_depth is None ==> r.max_depth == c.defaults.max_depth,
        t.size_modes matches Some(v) ==> r.size_modes@ == v@,
        t.size_modes is None ==> r.size_modes@ == c.defaults.size_modes@,
        r.exclude@.len() == c.defaults.exclude@.len() + t.exclude@.len(),
        forall|k: int| 0 <= k < c.defaults.exclude@.len() ==> r.exclude@[k] == #[trigger] c.defaults.exclude@[k],
        forall|k: int| 0 <= k < t.exclude@.len() ==> r.exclude@[c.defaults.exclude@.len() + k] == #[trigger] t.exclude@[k],
{
}

/// A character a target name may hold: an ASCII letter or digit, `_`, `-`
/// or `.`, written out by ranges.
pub open spec fn label_safe(c: char) -> bool {
    ||| ('a' <= c && c <= 'z')
    ||| ('A' <= c && c <= 'Z')
    ||| ('0' <= c && c <= '9')
    ||| c == '_'
    ||| c == '-'
    ||| c == '.'
}

/// `first_problem` reports a problem of one of the targets it looked at.
proof fn lemma_first_problem_from(c: Config, n: int)
    requires
        c.first_problem(n) is Some,
    ensures
        exists|i: int| 0 <= i < n && #[trigger] c.target_problem(i) == c.first_problem(n),
    decreases n,
{
    if c.first_problem(n - 1) is Some {
        lemma_first_problem_from(c, n - 1);
        let i = choose|i: int| 0 <= i < n - 1 && #[trigger] c.target_problem(i) == c.first_problem(n - 1);
        assert(c.target_problem(i) == c.first_problem(n));
    } else {
        assert(c.target_problem(n - 1) == c.first_problem(n));
    }
}

/// A non-empty target name is refused for its characters exactly when it
/// holds a character other than an ASCII letter or digit, `_`, `-` or `.`;
/// so validation never refuses a name such as `var-log` for its characters,
/// and when it refuses a name for its characters, that name holds such a
/// character.
pub proof fn law_name_characters(c: Config, i: int)
    requires
        0 <= i < c.targets@.len(),
        c.targets@[i].name@.len() > 0,
    ensures
        (c.target_problem(i) == Some(ConfigError::UnsupportedNameCharacters(c.targets@[i].name))) <==> exists|k: int|
            0 <= k < c.targets@[i].name@.len() && !label_safe(#[trigger] c.targets@[i].name@[k]),
        (forall|k: int| 0 <= k < c.targets@[i].name@.len() ==> label_safe(#[trigger] c.targets@[i].name@[k]))
            ==> !(c.target_problem(i) matches Some(ConfigError::UnsupportedNameCharacters(_))),
        c.validation() matches Err(ConfigError::UnsupportedNameCharacters(n)) ==> exists|k: int|
            0 <= k < n@.len() && !label_safe(#[trigger] n@[k]),
{
    let name = c.targets@[i].name@;
    if exists|k: int| 0 <= k < name.len() && !label_safe(#[trigger] name[k]) {
        let k = choose|k: int| 0 <= k < name.len() && !label_safe(#[trigger] name[k]);
        assert(!is_name_char(name[k]));
    } else {
        assert forall|k: int| 0 <= k < name.len() implies is_name_char(#[trigger] name[k]) by {
            assert(label_safe(name[k]));
        }
    }
    if let Err(ConfigError::UnsupportedNameCharacters(n)) = c.validation() {
        let len = c.targets@.len() as int;
        lemma_first_problem_from(c, len);
        let j = choose|j: int| 0 <= j < len && #[trigger] c.target_problem(j) == c.first_problem(len);
        let m = c.targets@[j].name@;
        assert(m == n@);
        assert(!(forall|k: int| 0 <= k < m.len() ==> is_name_char(#[trigger] m[k])));
        let k = choose|k: int| !(0 <= k < m.len() ==> is_name_char(#[trigger] m[k]));
        assert(!label_safe(m[k]));
    }
}

/// Each refusal of a target names a cause that holds of it: an empty name,
/// a name of another target before it, a path that does not start with `/`,
/// a zero interval or timeout, a maximum depth below the report depth it
/// ends up with (its own, else the default), or an empty list of size modes.
/// A target with none of these causes, whose name holds only ASCII letters,
/// digits, `_`, `-` and `.`, is accepted.
pub proof fn law_target_refusals(c: Config, i: int)
    requires
        0 <= i < c.targets@.len(),
    ensures
        c.target_problem(i) == Some(ConfigError::EmptyTargetName) ==> c.targets@[i].name@.len() == 0,
        c.target_problem(i) == Some(ConfigError::DuplicateTargetName(c.targets@[i].name)) ==> exists|j: int|
            0 <= j < i && #[trigger] c.targets@[j].name@ == c.targets@[i].name@,
        c.target_problem(i) == Some(ConfigError::TargetPathNotAbsolute(c.targets@[i].name)) ==> !(c.targets@[i].path@.len() > 0
            && c.targets@[i].path@[0] == '/'),
        c.target_problem(i) == Some(ConfigError::ZeroBaselineInterval(c.targets@[i].name)) ==> c.targets@[i].baseline_interval
            == Some(Duration { secs: 0, nanos: 0 }),
        c.target_problem(i) == Some(ConfigError::ZeroTimeout(c.targets@[i].name)) ==> c.targets@[i].timeout == Some(
            Duration { secs: 0, nanos: 0 }),
        c.target_problem(i) == Some(ConfigError::MaxDepthBelowReportDepth(c.targets@[i].name)) ==> (c.targets@[i].max_depth matches Some(
            m) && (if c.targets@[i].report_depth is Some { m < c.targets@[i].report_depth->0 } else { m
            < c.defaults.report_depth })),
        c.target_problem(i) == Some(ConfigError::EmptySizeModes(c.targets@[i].name)) ==> (c.targets@[i].size_modes matches Some(v)
            && v@.len() == 0),
        ({
            let t = c.targets@[i];
            &&& t.name@.len() > 0
            &&& forall|k: int| 0 <= k < t.name@.len() ==> label_safe(#[trigger] t.name@[k])
            &&& forall|j: int| 0 <= j < i ==> #[trigger] c.targets@[j].name@ != t.name@
            &&& t.path@.len() > 0 && t.path@[0] == '/'
            &&& t.baseline_interval != Some(Duration { secs: 0, nanos: 0 })
            &&& t.timeout != Some(Duration { secs: 0, nanos: 0 })
            &&& (t.max_depth matches Some(m) ==> (if t.report_depth is Some { m >= t.report_depth->0 } else { m
                >= c.defaults.report_depth }))
            &&& (t.size_modes matches Some(v) ==> v@.len() > 0)
        }) ==> c.target_problem(i) is None,
{
    let t = c.targets@[i];
    if forall|k: int| 0 <= k < t.name@.len() ==> label_safe(#[trigger] t.name@[k]) {
        assert forall|k: int| 0 <= k < t.name@.len() implies is_name_char(#[trigger] t.name@[k]) by {
            assert(label_safe(t.name@[k]));
        }
    }
    if c.target_problem(i) == Some(ConfigError::EmptyTargetName) {
        assert(t.name@.len() == 0);
    }
}

/// A duration written as a whole number and a unit reads as that many
/// seconds, minutes (60 seconds) or hours (3600 seconds): `s`, `sec`, `secs`
/// or no unit are seconds; `m`, `min`, `mins` minutes; `h`, `hr`, `hrs`
/// hours. Stated where the number of seconds fits in 64 bits.
pub proof fn law_duration_units(n: Seq<char>, u: Seq<char>)
    requires
        n.len() > 0,
        forall|k: int| 0 <= k < n.len() ==> '0' <= #[trigger] n[k] && n[k] <= '9',
        digits_value(n) * 3600 <= u64::MAX,
        u == "s"@ || u == "sec"@ || u == "secs"@ || u == ""@ || u == "m"@ || u == "min"@ || u == "mins"@ || u == "h"@
            || u == "hr"@ || u == "hrs"@,
    ensures
        (u == "s"@ || u == "sec"@ || u == "secs"@ || u == ""@) ==> read_duration(n + u) == DurationReading::Seconds(digits_value(n)),
        (u == "m"@ || u == "min"@ || u == "mins"@) ==> read_duration(n + u) == DurationReading::Seconds(digits_value(n) * 60),
        (u == "h"@ || u == "hr"@ || u == "hrs"@) ==> read_duration(n + u) == DurationReading::Seconds(digits_value(n) * 3600),
{
    reveal_strlit("s");
    reveal_strlit("sec");
    reveal_strlit("secs");
    reveal_strlit("");
    reveal_strlit("m");
    reveal_strlit("min");
    reveal_strlit("mins");
    reveal_strlit("h");
    reveal_strlit("hr");
    reveal_strlit("hrs");
    assert(forall|k: int| 0 <= k < u.len() ==> 'a' <= #[trigger] u[k] && u[k] <= 'z');
    let t = n + u;
    assert(!is_whitespace(t[0]));
    lemma_trim_start(t, 0);
    assert(t.skip(0) =~= t);
    assert(!is_whitespace(t[t.len() - 1]));
    lemma_trim_end(t, t.len() as int);
    assert(t.take(t.len() as int) =~= t);
    assert(trim(t) == t);
    assert forall|k: int| 0 <= k < n.len() implies is_digit(#[trigger] t[k]) by {
        assert(t[k] == n[k]);
    }
    lemma_digit_run(t, n.len() as int);
    assert(t.take(n.len() as int) =~= n);
    assert(t.skip(n.len() as int) =~= u);
    if u == "s"@ || u == "sec"@ || u == "secs"@ || u == ""@ {
        assert(unit_seconds(u) == Some(1nat));
        assert(digits_value(n) * 1 == digits_value(n));
    }
}

} // verus!
