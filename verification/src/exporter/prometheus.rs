//! Prometheus text exposition of the cached target snapshots.

use vstd::prelude::*;
use vstd::string::*;
use crate::cache::TargetSnapshot;
use crate::config::SizeMode;
use crate::scanner::{NodeObservation, ScanResult};
use crate::text::{chars_of, contains_text, lemma_flat_map_front, lemma_contains_each6, lemma_contains_middle, lemma_contains_trans, lemma_contains_within, dec, decimal, fixed6, flat_map, push_str, seconds_fixed6, string_of};
use crate::time::{current_time, Duration};

verus! {

/// A label name character kept as it is: ASCII letters, digits and `_`.
pub open spec fn is_label_name_char(c: char) -> bool {
    ('a' <= c && c <= 'z') || ('A' <= c && c <= 'Z') || ('0' <= c && c <= '9') || c == '_'
}

/// A label name with every other character replaced by `_`.
pub open spec fn sanitized(s: Seq<char>) -> Seq<char> {
    s.map_values(|c: char| if is_label_name_char(c) { c } else { '_' })
}

/// The escaped form of one character of a label value.
pub open spec fn escape_label_char(c: char) -> Seq<char> {
    if c == '\\' {
        seq!['\\', '\\']
    } else if c == '\n' {
        seq!['\\', 'n']
    } else if c == '"' {
        seq!['\\', '"']
    } else {
        seq![c]
    }
}

/// A label value with backslash, newline and double quote escaped.
pub open spec fn escaped_label(s: Seq<char>) -> Seq<char> {
    flat_map(s, |c: char| escape_label_char(c))
}

/// A label value decoded from the left: `\\` becomes a backslash, `\n` a
/// newline and `\"` a double quote; every other character stays.
pub open spec fn unescaped_label(t: Seq<char>) -> Seq<char>
    decreases t.len(),
{
    if t.len() == 0 {
        t
    } else if t.len() >= 2 && t[0] == '\\' && t[1] == '\\' {
        seq!['\\'] + unescaped_label(t.skip(2))
    } else if t.len() >= 2 && t[0] == '\\' && t[1] == 'n' {
        seq!['\n'] + unescaped_label(t.skip(2))
    } else if t.len() >= 2 && t[0] == '\\' && t[1] == '"' {
        seq!['"'] + unescaped_label(t.skip(2))
    } else {
        seq![t[0]] + unescaped_label(t.drop_first())
    }
}

/// An escaped label value holds no raw newline, and decoding its escapes from
/// the left gives back the value.
pub proof fn law_escape_label(v: Seq<char>)
    ensures
        forall|i: int| 0 <= i < escaped_label(v).len() ==> #[trigger] escaped_label(v)[i] != '\n',
        unescaped_label(escaped_label(v)) == v,
    decreases v.len(),
{
    let f = |c: char| escape_label_char(c);
    if v.len() == 0 {
        assert(unescaped_label(escaped_label(v)) =~= v);
    } else {
        let c = v[0];
        let rest = v.drop_first();
        law_escape_label(rest);
        lemma_flat_map_front(v, f);
        let head = escape_label_char(c);
        let tail = escaped_label(rest);
        let e = escaped_label(v);
        assert(e == head + tail);
        assert(seq![c] + rest =~= v);
        if c == '\\' || c == '\n' || c == '"' {
            assert(e.skip(2) =~= tail);
        } else {
            assert(e.drop_first() =~= tail);
        }
        assert(unescaped_label(e) =~= seq![c] + rest);
        assert forall|i: int| 0 <= i < e.len() implies #[trigger] e[i] != '\n' by {
            if i >= head.len() {
                assert(e[i] == tail[i - head.len()]);
            }
        }
    }
}

/// A sanitized label name keeps its length, keeps each ASCII letter, digit
/// and `_`, and holds `_` in place of every other character.
pub proof fn law_sanitize_label_name(v: Seq<char>)
    ensures
        sanitized(v).len() == v.len(),
        forall|i: int| 0 <= i < v.len() ==> #[trigger] sanitized(v)[i] == if ('a' <= v[i] && v[i] <= 'z') || ('A' <= v[i]
            && v[i] <= 'Z') || ('0' <= v[i] && v[i] <= '9') || v[i] == '_' { v[i] } else { '_' },
{
}

pub fn sanitize_label_name(value: &str) -> (r: String)
    ensures
        r@ == sanitized(value@),
{
    let v = chars_of(value);
    let mut out: Vec<char> = Vec::new();
    let mut i: usize = 0;
    while i < v.len()
        invariant
            v@ == value@,
            i <= v.len(),
            out@ == sanitized(v@.take(i as int)),
        decreases v.len() - i,
    {
        let c = v[i];
        if ('a' <= c && c <= 'z') || ('A' <= c && c <= 'Z') || ('0' <= c && c <= '9') || c == '_' {
            out.push(c);
        } else {
            out.push('_');
        }
        assert(out@ =~= sanitized(v@.take(i + 1)));
        i = i + 1;
    }
    assert(v@.take(i as int) =~= v@);
    string_of(&out)
}

pub fn escape_label_value(value: &str) -> (r: String)
    ensures
        r@ == escaped_label(value@),
{
    let v = chars_of(value);
    let mut out: Vec<char> = Vec::new();
    let mut i: usize = 0;
    while i < v.len()
        invariant
            v@ == value@,
            i <= v.len(),
            out@ == escaped_label(v@.take(i as int)),
        decreases v.len() - i,
    {
        let c = v[i];
        if c == '\\' {
            out.push('\\');
            out.push('\\');
        } else if c == '\n' {
            out.push('\\');
            out.push('n');
        } else if c == '"' {
            out.push('\\');
            out.push('"');
        } else {
            out.push(c);
        }
        assert(v@.take(i + 1).drop_last() =~= v@.take(i as int));
        assert(out@ =~= escaped_label(v@.take(i + 1)));
        i = i + 1;
    }
    assert(v@.take(i as int) =~= v@);
    string_of(&out)
}

/// One `name="value"` label.
pub open spec fn pair_text(p: (Seq<char>, Seq<char>)) -> Seq<char> {
    sanitized(p.0) + "=\""@ + escaped_label(p.1) + "\""@
}

/// Labels joined with commas.
pub open spec fn pairs_text(ps: Seq<(Seq<char>, Seq<char>)>) -> Seq<char>
    decreases ps.len(),
{
    if ps.len() == 0 {
        seq![]
    } else if ps.len() == 1 {
        pair_text(ps[0])
    } else {
        pairs_text(ps.drop_last()) + ","@ + pair_text(ps.last())
    }
}

/// Label pairs as text values.
pub open spec fn pair_views(ps: Seq<(String, String)>) -> Seq<(Seq<char>, Seq<char>)> {
    ps.map_values(|p: (String, String)| (p.0@, p.1@))
}

/// The labels of pairs, joined with commas.
pub fn join_labels(pairs: &Vec<(String, String)>) -> (r: String)
    ensures
        r@ == pairs_text(pair_views(pairs@)),
{
    let mut out = String::new();
    let mut i: usize = 0;
    while i < pairs.len()
        invariant
            i <= pairs@.len(),
            out@ == pairs_text(pair_views(pairs@).take(i as int)),
        decreases pairs@.len() - i,
    {
        let ghost before = out@;
        if i > 0 {
            push_str(&mut out, ",");
        }
        let (key, value) = &pairs[i];
        let k = sanitize_label_name(key.as_str());
        let v = escape_label_value(value.as_str());
        push_str(&mut out, k.as_str());
        push_str(&mut out, "=\"");
        push_str(&mut out, v.as_str());
        push_str(&mut out, "\"");
        proof {
            let ps = pair_views(pairs@).take(i + 1);
            assert(ps.drop_last() =~= pair_views(pairs@).take(i as int));
            assert(ps.last() == (key@, value@));
            if i == 0 {
                assert(out@ =~= pair_text(ps[0]));
            } else {
                assert(out@ =~= pairs_text(ps.drop_last()) + ","@ + pair_text(ps.last()));
            }
        }
        i = i + 1;
    }
    assert(pair_views(pairs@).take(i as int) =~= pair_views(pairs@));
    out
}

/// One sample line: `name{labels} value`.
pub open spec fn metric_line(name: Seq<char>, labels: Seq<char>, value: Seq<char>) -> Seq<char> {
    name + "{"@ + labels + "} "@ + value + "\n"@
}

#[verifier::spinoff_prover]
#[verifier::rlimit(40)]
fn push_metric(out: &mut String, name: &str, labels: &str, value: &str)
    ensures
        final(out)@ == old(out)@ + metric_line(name@, labels@, value@),
{
    push_str(out, name);
    push_str(out, "{");
    push_str(out, labels);
    push_str(out, "} ");
    push_str(out, value);
    push_str(out, "\n");
    assert(final(out)@ =~= old(out)@ + metric_line(name@, labels@, value@));
}


/// The labels every sample of a target carries: target, target type, path,
/// then the configured labels.
pub open spec fn base_pairs(s: TargetSnapshot) -> Seq<(Seq<char>, Seq<char>)> {
    seq![("target"@, s.target_name@), ("target_type"@, s.target_type@), ("path"@, s.path@)]
        + pair_views(s.labels@)
}

/// The base labels of a target, with one more label when `extra` has one.
pub open spec fn target_labels(s: TargetSnapshot, extra: Option<(Seq<char>, Seq<char>)>) -> Seq<char> {
    match extra {
        Some(p) => pairs_text(base_pairs(s).push(p)),
        None => pairs_text(base_pairs(s)),
    }
}

fn label_pair(key: &str, value: &str) -> (p: (String, String))
    ensures
        p.0@ == key@,
        p.1@ == value@,
{
    (String::from_str(key), String::from_str(value))
}

fn push_configured_labels(pairs: &mut Vec<(String, String)>, labels: &Vec<(String, String)>)
    ensures
        pair_views(final(pairs)@) == pair_views(old(pairs)@) + pair_views(labels@),
{
    let ghost start = pairs@;
    let mut i: usize = 0;
    while i < labels.len()
        invariant
            i <= labels@.len(),
            pair_views(pairs@) == pair_views(start) + pair_views(labels@.take(i as int)),
        decreases labels@.len() - i,
    {
        let ghost before = pairs@;
        let (k, v) = &labels[i];
        pairs.push((k.clone(), v.clone()));
        proof {
            assert(labels@[i as int] == (*k, *v));
            assert(pairs@ == before.push((*k, *v)));
            assert(pair_views(pairs@) =~= pair_views(before).push((k@, v@)));
            assert(pair_views(labels@.take(i + 1)) =~= pair_views(labels@.take(i as int)).push((k@, v@)));
        }
        i = i + 1;
    }
    assert(labels@.take(i as int) =~= labels@);
}

/// The label text of a target's samples.
pub fn labels(snapshot: &TargetSnapshot, extra: Option<(&str, &str)>) -> (r: String)
    ensures
        r@ == target_labels(*snapshot, match extra {
            Some(p) => Some((p.0@, p.1@)),
            None => None,
        }),
{
    let mut pairs: Vec<(String, String)> = Vec::new();
    pairs.push(label_pair("target", snapshot.target_name.as_str()));
    pairs.push(label_pair("target_type", snapshot.target_type.as_str()));
    pairs.push(label_pair("path", snapshot.path.as_str()));
    assert(pair_views(pairs@) =~= seq![("target"@, snapshot.target_name@), ("target_type"@, snapshot.target_type@), ("path"@, snapshot.path@)]);
    push_configured_labels(&mut pairs, &snapshot.labels);
    let ghost base = pair_views(pairs@);
    if let Some((k, v)) = extra {
        pairs.push(label_pair(k, v));
        assert(pair_views(pairs@) =~= base.push((k@, v@)));
    }
    join_labels(&pairs)
}

/// The labels of a node's samples: target, target type, the node's path,
/// parent, name and depth, then the configured labels.
pub open spec fn node_pairs(s: TargetSnapshot, n: NodeObservation) -> Seq<(Seq<char>, Seq<char>)> {
    seq![
        ("target"@, s.target_name@),
        ("target_type"@, s.target_type@),
        ("path"@, n.path@),
        ("parent"@, n.parent@),
        ("node"@, n.node@),
        ("depth"@, dec(n.depth as nat)),
    ] + pair_views(s.labels@)
}

/// Extra labels as text values.
pub open spec fn extra_views(extra: Seq<(&str, &str)>) -> Seq<(Seq<char>, Seq<char>)> {
    extra.map_values(|p: (&str, &str)| (p.0@, p.1@))
}

/// The label text of a node's samples, followed by `extra`.
pub fn node_labels(snapshot: &TargetSnapshot, node: &NodeObservation, extra: &[(&str, &str)]) -> (r: String)
    ensures
        r@ == pairs_text(node_pairs(*snapshot, *node) + extra_views(extra@)),
{
    let depth = decimal(node.depth as u128);
    let mut pairs: Vec<(String, String)> = Vec::new();
    pairs.push(label_pair("target", snapshot.target_name.as_str()));
    pairs.push(label_pair("target_type", snapshot.target_type.as_str()));
    pairs.push(label_pair("path", node.path.as_str()));
    pairs.push(label_pair("parent", node.parent.as_str()));
    pairs.push(label_pair("node", node.node.as_str()));
    pairs.push(label_pair("depth", depth.as_str()));
    assert(pair_views(pairs@) =~= seq![
        ("target"@, snapshot.target_name@),
        ("target_type"@, snapshot.target_type@),
        ("path"@, node.path@),
        ("parent"@, node.parent@),
        ("node"@, node.node@),
        ("depth"@, dec(node.depth as nat)),
    ]);
    push_configured_labels(&mut pairs, &snapshot.labels);
    let ghost base = pair_views(pairs@);
    let mut i: usize = 0;
    while i < extra.len()
        invariant
            i <= extra@.len(),
            pair_views(pairs@) == base + extra_views(extra@.take(i as int)),
        decreases extra@.len() - i,
    {
        let ghost before = pairs@;
        let (k, v) = extra[i];
        let p = label_pair(k, v);
        pairs.push(p);
        proof {
            assert(extra@[i as int] == (k, v));
            assert(pair_views(pairs@) =~= pair_views(before).push((k@, v@)));
            assert(extra_views(extra@.take(i + 1)) =~= extra_views(extra@.take(i as int)).push((k@, v@)));
        }
        i = i + 1;
    }
    assert(extra@.take(i as int) =~= extra@);
    join_labels(&pairs)
}


impl SizeMode {
    pub open spec fn name(self) -> Seq<char> {
        match self {
            SizeMode::Blocks => "blocks"@,
            SizeMode::Apparent => "apparent"@,
        }
    }

    /// The label text of the size mode.
    pub fn as_str(self) -> (s: &'static str)
        ensures
            s@ == self.name(),
    {
        match self {
            SizeMode::Blocks => "blocks",
            SizeMode::Apparent => "apparent",
        }
    }
}

/// Which part of a node's size.
#[derive(Debug, Clone, Copy, PartialEq, Eq, Structural)]
pub enum SizeComponent {
    Own,
    Children,
}

pub open spec fn node_size_spec(node: NodeObservation, component: SizeComponent, mode: SizeMode) -> u64 {
    match (component, mode) {
        (SizeComponent::Own, SizeMode::Blocks) => node.own_blocks,
        (SizeComponent::Children, SizeMode::Blocks) => node.children_blocks,
        (SizeComponent::Own, SizeMode::Apparent) => node.own_apparent,
        (SizeComponent::Children, SizeMode::Apparent) => node.children_apparent,
    }
}

/// The size of one part of a node, measured one way.
pub fn node_value(node: &NodeObservation, component: SizeComponent, size_mode: SizeMode) -> (v: u64)
    ensures
        v == node_size_spec(*node, component, size_mode),
{
    match (component, size_mode) {
        (SizeComponent::Own, SizeMode::Blocks) => node.own_blocks,
        (SizeComponent::Children, SizeMode::Blocks) => node.children_blocks,
        (SizeComponent::Own, SizeMode::Apparent) => node.own_apparent,
        (SizeComponent::Children, SizeMode::Apparent) => node.children_apparent,
    }
}

/// The labels of a node's size samples for one size mode.
pub open spec fn size_labels(s: TargetSnapshot, n: NodeObservation, mode: SizeMode, backend: Seq<char>) -> Seq<char> {
    pairs_text(node_pairs(s, n) + seq![("size_mode"@, mode.name()), ("backend"@, backend)])
}

/// The own and children size samples of a node, for each size mode in order.
pub open spec fn node_sizes_text(s: TargetSnapshot, n: NodeObservation, backend: Seq<char>, modes: Seq<SizeMode>) -> Seq<char>
    decreases modes.len(),
{
    if modes.len() == 0 {
        seq![]
    } else {
        let m = modes.last();
        let l = size_labels(s, n, m, backend);
        node_sizes_text(s, n, backend, modes.drop_last())
            + metric_line("storage_harvester_own_size_bytes"@, l, dec(node_size_spec(n, SizeComponent::Own, m) as nat))
            + metric_line("storage_harvester_children_size_bytes"@, l, dec(node_size_spec(n, SizeComponent::Children, m) as nat))
    }
}

#[verifier::spinoff_prover]
#[verifier::rlimit(40)]
fn write_node_sizes(out: &mut String, snapshot: &TargetSnapshot, node: &NodeObservation, backend: &str)
    ensures
        final(out)@ == old(out)@ + node_sizes_text(*snapshot, *node, backend@, snapshot.size_modes@),
{
    let ghost start = out@;
    let mut i: usize = 0;
    while i < snapshot.size_modes.len()
        invariant
            i <= snapshot.size_modes@.len(),
            out@ == start + node_sizes_text(*snapshot, *node, backend@, snapshot.size_modes@.take(i as int)),
        decreases snapshot.size_modes@.len() - i,
    {
        let size_mode = snapshot.size_modes[i];
        let extra = [("size_mode", size_mode.as_str()), ("backend", backend)];
        let labels = node_labels(snapshot, node, &extra);
        assert(extra_views(extra@) =~= seq![("size_mode"@, size_mode.name()), ("backend"@, backend@)]);
        let own = decimal(node_value(node, SizeComponent::Own, size_mode) as u128);
        let children = decimal(node_value(node, SizeComponent::Children, size_mode) as u128);
        push_metric(out, "storage_harvester_own_size_bytes", labels.as_str(), own.as_str());
        push_metric(out, "storage_harvester_children_size_bytes", labels.as_str(), children.as_str());
        proof {
            assert(snapshot.size_modes@.take(i + 1).drop_last() =~= snapshot.size_modes@.take(i as int));
            assert(out@ =~= start + node_sizes_text(*snapshot, *node, backend@, snapshot.size_modes@.take(i + 1)));
        }
        i = i + 1;
    }
    assert(snapshot.size_modes@.take(i as int) =~= snapshot.size_modes@);
}

/// The labels of a node's entry-count samples for one entry kind.
pub open spec fn entry_labels(s: TargetSnapshot, n: NodeObservation, kind: Seq<char>) -> Seq<char> {
    pairs_text(node_pairs(s, n).push(("entry_type"@, kind)))
}

/// The own entry counts of a node (files, directories, symlinks), then the
/// entry counts under its child directories.
pub open spec fn node_entries_text(s: TargetSnapshot, n: NodeObservation) -> Seq<char> {
    metric_line("storage_harvester_own_entries"@, entry_labels(s, n, "file"@), dec(n.file_count as nat))
        + metric_line("storage_harvester_own_entries"@, entry_labels(s, n, "directory"@), dec(n.directory_count as nat))
        + metric_line("storage_harvester_own_entries"@, entry_labels(s, n, "symlink"@), dec(n.symlink_count as nat))
        + metric_line("storage_harvester_children_entries"@, entry_labels(s, n, "file"@), dec(n.children_file_count as nat))
        + metric_line("storage_harvester_children_entries"@, entry_labels(s, n, "directory"@), dec(n.children_directory_count as nat))
        + metric_line("storage_harvester_children_entries"@, entry_labels(s, n, "symlink"@), dec(n.children_symlink_count as nat))
}

#[verifier::spinoff_prover]
#[verifier::rlimit(40)]
fn write_entry_line(out: &mut String, name: &str, snapshot: &TargetSnapshot, node: &NodeObservation, kind: &str, value: u64)
    ensures
        final(out)@ == old(out)@ + metric_line(name@, entry_labels(*snapshot, *node, kind@), dec(value as nat)),
{
    let extra = [("entry_type", kind)];
    let labels = node_labels(snapshot, node, &extra);
    assert(extra_views(extra@) =~= seq![("entry_type"@, kind@)]);
    assert(node_pairs(*snapshot, *node) + extra_views(extra@) =~= node_pairs(*snapshot, *node).push(("entry_type"@, kind@)));
    let v = decimal(value as u128);
    push_metric(out, name, labels.as_str(), v.as_str());
}

#[verifier::spinoff_prover]
#[verifier::rlimit(40)]
fn write_node_entries(out: &mut String, snapshot: &TargetSnapshot, node: &NodeObservation)
    ensures
        final(out)@ == old(out)@ + node_entries_text(*snapshot, *node),
{
    let ghost start = out@;
    write_entry_line(out, "storage_harvester_own_entries", snapshot, node, "file", node.file_count);
    write_entry_line(out, "storage_harvester_own_entries", snapshot, node, "directory", node.directory_count);
    write_entry_line(out, "storage_harvester_own_entries", snapshot, node, "symlink", node.symlink_count);
    write_entry_line(out, "storage_harvester_children_entries", snapshot, node, "file", node.children_file_count);
    write_entry_line(out, "storage_harvester_children_entries", snapshot, node, "directory", node.children_directory_count);
    write_entry_line(out, "storage_harvester_children_entries", snapshot, node, "symlink", node.children_symlink_count);
    assert(out@ =~= start + node_entries_text(*snapshot, *node));
}

/// The size and entry samples of each reported node, in order.
pub open spec fn nodes_text(s: TargetSnapshot, nodes: Seq<NodeObservation>, backend: Seq<char>) -> Seq<char>
    decreases nodes.len(),
{
    if nodes.len() == 0 {
        seq![]
    } else {
        nodes_text(s, nodes.drop_last(), backend) + node_sizes_text(s, nodes.last(), backend, s.size_modes@)
            + node_entries_text(s, nodes.last())
    }
}

/// One issue count sample.
pub open spec fn issue_line(s: TargetSnapshot, issue: Seq<char>, value: u64) -> Seq<char> {
    metric_line("storage_harvester_scan_issue_count"@, target_labels(s, Some(("issue"@, issue))), dec(value as nat))
}

#[verifier::spinoff_prover]
#[verifier::rlimit(40)]
fn write_issue(out: &mut String, snapshot: &TargetSnapshot, issue: &str, value: u64)
    ensures
        final(out)@ == old(out)@ + issue_line(*snapshot, issue@, value),
{
    let labels = labels(snapshot, Some(("issue", issue)));
    let v = decimal(value as u128);
    push_metric(out, "storage_harvester_scan_issue_count", labels.as_str(), v.as_str());
}

/// Seconds since the Unix epoch of a point in time.
pub fn unix_seconds(timestamp: &Duration) -> (s: u64)
    ensures
        s == timestamp.secs,
{
    timestamp.as_secs()
}


/// The metric families, each with its type and help text.
pub open spec fn header_table() -> Seq<(Seq<char>, Seq<char>, Seq<char>)> {
    seq![
        ("storage_harvester_build_info"@, "gauge"@, "Storage Harvester build metadata."@),
        ("storage_harvester_own_size_bytes"@, "gauge"@, "Storage bytes directly owned by this reported node."@),
        ("storage_harvester_children_size_bytes"@, "gauge"@, "Storage bytes under this reported node's child directories, including unreported descendants when configured."@),
        ("storage_harvester_own_entries"@, "gauge"@, "Filesystem entries directly owned by this reported node."@),
        ("storage_harvester_children_entries"@, "gauge"@, "Filesystem entries under this reported node's child directories."@),
        ("storage_harvester_scan_success"@, "gauge"@, "Last scan success by target, 1 for success and 0 for failure."@),
        ("storage_harvester_scan_duration_seconds"@, "gauge"@, "Last successful scan duration in seconds."@),
        ("storage_harvester_scan_timestamp_seconds"@, "gauge"@, "Last successful scan timestamp."@),
        ("storage_harvester_scan_errors_total"@, "counter"@, "Total failed scans by target."@),
        ("storage_harvester_scan_count_total"@, "counter"@, "Total scan attempts by target."@),
        ("storage_harvester_scan_issue_count"@, "gauge"@, "Last successful scan issue counts by target and issue type."@),
        ("storage_harvester_scan_running"@, "gauge"@, "Whether a target scan is currently running, 1 for running and 0 otherwise."@),
        ("storage_harvester_scan_running_seconds"@, "gauge"@, "Seconds since the current target scan started, or 0 when no scan is running."@),
        ("storage_harvester_target_stale_seconds"@, "gauge"@, "Seconds since the last successful target scan."@),
        ("storage_harvester_target_info"@, "gauge"@, "Configured storage harvester target metadata."@),
        ("storage_harvester_target_interval_seconds"@, "gauge"@, "Configured baseline scan interval by target."@),
        ("storage_harvester_reported_nodes"@, "gauge"@, "Number of storage nodes emitted for the last successful scan."@),
        ("storage_harvester_scanned_directories"@, "gauge"@, "Number of directories visited during the last successful scan."@),
        ("storage_harvester_scanned_files"@, "gauge"@, "Number of files visited during the last successful scan."@),
        ("storage_harvester_scanned_symlinks"@, "gauge"@, "Number of symlinks visited during the last successful scan."@),
        ("storage_harvester_max_observed_depth"@, "gauge"@, "Maximum relative depth observed during the last successful scan."@),
        ("storage_harvester_depth_limit_hits"@, "gauge"@, "Number of directories not descended because max_depth was reached."@)
    ]
}

/// The `# HELP` and `# TYPE` lines of one metric family.
pub open spec fn header_text(h: (Seq<char>, Seq<char>, Seq<char>)) -> Seq<char> {
    "# HELP "@ + h.0 + " "@ + h.2 + "\n"@ + "# TYPE "@ + h.0 + " "@ + h.1 + "\n"@
}

/// The header lines of the given families, in order.
pub open spec fn headers_text(t: Seq<(Seq<char>, Seq<char>, Seq<char>)>) -> Seq<char>
    decreases t.len(),
{
    if t.len() == 0 {
        seq![]
    } else {
        headers_text(t.drop_last()) + header_text(t.last())
    }
}

#[verifier::spinoff_prover]
#[verifier::rlimit(40)]
fn write_header(out: &mut String, name: &str, metric_type: &str, help: &str)
    ensures
        final(out)@ == old(out)@ + header_text((name@, metric_type@, help@)),
{
    push_str(out, "# HELP ");
    push_str(out, name);
    push_str(out, " ");
    push_str(out, help);
    push_str(out, "\n");
    push_str(out, "# TYPE ");
    push_str(out, name);
    push_str(out, " ");
    push_str(out, metric_type);
    push_str(out, "\n");
    assert(final(out)@ =~= old(out)@ + header_text((name@, metric_type@, help@)));
}

/// Header triples as text values.
pub open spec fn header_views(t: Seq<(&str, &str, &str)>) -> Seq<(Seq<char>, Seq<char>, Seq<char>)> {
    t.map_values(|h: (&str, &str, &str)| (h.0@, h.1@, h.2@))
}

/// The header lines of every metric family.
#[verifier::spinoff_prover]
#[verifier::rlimit(40)]
fn write_headers(out: &mut String)
    ensures
        final(out)@ == old(out)@ + headers_text(header_table()),
{
    let headers: [(&str, &str, &str); 22] = [
        ("storage_harvester_build_info", "gauge", "Storage Harvester build metadata."),
        ("storage_harvester_own_size_bytes", "gauge", "Storage bytes directly owned by this reported node."),
        ("storage_harvester_children_size_bytes", "gauge", "Storage bytes under this reported node's child directories, including unreported descendants when configured."),
        ("storage_harvester_own_entries", "gauge", "Filesystem entries directly owned by this reported node."),
        ("storage_harvester_children_entries", "gauge", "Filesystem entries under this reported node's child directories."),
        ("storage_harvester_scan_success", "gauge", "Last scan success by target, 1 for success and 0 for failure."),
        ("storage_harvester_scan_duration_seconds", "gauge", "Last successful scan duration in seconds."),
        ("storage_harvester_scan_timestamp_seconds", "gauge", "Last successful scan timestamp."),
        ("storage_harvester_scan_errors_total", "counter", "Total failed scans by target."),
        ("storage_harvester_scan_count_total", "counter", "Total scan attempts by target."),
        ("storage_harvester_scan_issue_count", "gauge", "Last successful scan issue counts by target and issue type."),
        ("storage_harvester_scan_running", "gauge", "Whether a target scan is currently running, 1 for running and 0 otherwise."),
        ("storage_harvester_scan_running_seconds", "gauge", "Seconds since the current target scan started, or 0 when no scan is running."),
        ("storage_harvester_target_stale_seconds", "gauge", "Seconds since the last successful target scan."),
        ("storage_harvester_target_info", "gauge", "Configured storage harvester target metadata."),
        ("storage_harvester_target_interval_seconds", "gauge", "Configured baseline scan interval by target."),
        ("storage_harvester_reported_nodes", "gauge", "Number of storage nodes emitted for the last successful scan."),
        ("storage_harvester_scanned_directories", "gauge", "Number of directories visited during the last successful scan."),
        ("storage_harvester_scanned_files", "gauge", "Number of files visited during the last successful scan."),
        ("storage_harvester_scanned_symlinks", "gauge", "Number of symlinks visited during the last successful scan."),
        ("storage_harvester_max_observed_depth", "gauge", "Maximum relative depth observed during the last successful scan."),
        ("storage_harvester_depth_limit_hits", "gauge", "Number of directories not descended because max_depth was reached.")
    ];
    assert(header_views(headers@) =~= header_table());
    let ghost start = out@;
    let mut i: usize = 0;
    while i < 22
        invariant
            i <= 22,
            headers@.len() == 22,
            header_views(headers@) == header_table(),
            out@ == start + headers_text(header_table().take(i as int)),
        decreases 22 - i,
    {
        let (name, metric_type, help) = headers[i];
        write_header(out, name, metric_type, help);
        proof {
            let t = header_table();
            assert(t[i as int] == (name@, metric_type@, help@));
            assert(t.take(i + 1).drop_last() =~= t.take(i as int));
            assert(out@ =~= start + headers_text(t.take(i + 1)));
        }
        i = i + 1;
    }
    assert(header_table().take(22) =~= header_table());
}


/// The version reported in the build information sample.
pub const VERSION: &'static str = "0.1.0";

/// The build information sample.
pub open spec fn build_info_text() -> Seq<char> {
    metric_line("storage_harvester_build_info"@, "version=\""@ + escaped_label(VERSION@) + "\""@, "1"@)
}

#[verifier::spinoff_prover]
#[verifier::rlimit(40)]
fn write_build_info(out: &mut String)
    ensures
        final(out)@ == old(out)@ + build_info_text(),
{
    let mut labels = String::new();
    push_str(&mut labels, "version=\"");
    let v = escape_label_value(VERSION);
    push_str(&mut labels, v.as_str());
    push_str(&mut labels, "\"");
    assert(labels@ =~= "version=\""@ + escaped_label(VERSION@) + "\""@);
    push_metric(out, "storage_harvester_build_info", labels.as_str(), "1");
}

/// How long the target's running scan has run at `now`; zero when none runs.
pub open spec fn running_time(s: TargetSnapshot, now: Duration) -> Duration {
    match s.scan_started {
        Some(t) => now.saturating_sub_spec(t),
        None => Duration { secs: 0, nanos: 0 },
    }
}

/// The samples every target has: its info, interval, scan counts and running state.
pub open spec fn status_text(s: TargetSnapshot, now: Duration) -> Seq<char> {
    let b = target_labels(s, None);
    metric_line("storage_harvester_target_info"@, b, "1"@)
        + metric_line("storage_harvester_target_interval_seconds"@, b, fixed6(s.interval))
        + metric_line("storage_harvester_scan_count_total"@, b, dec(s.scan_count as nat))
        + metric_line("storage_harvester_scan_errors_total"@, b, dec(s.failure_count as nat))
        + metric_line("storage_harvester_scan_running"@, b, dec(if s.scan_running { 1 } else { 0 }))
        + metric_line("storage_harvester_scan_running_seconds"@, b, fixed6(running_time(s, now)))
}

#[verifier::spinoff_prover]
#[verifier::rlimit(40)]
fn write_status(out: &mut String, snapshot: &TargetSnapshot, base: &String, now: &Duration)
    requires
        base@ == target_labels(*snapshot, None),
        snapshot.wf(),
        now.wf(),
    ensures
        final(out)@ == old(out)@ + status_text(*snapshot, *now),
{
    let ghost start = out@;
    let b = base.as_str();
    push_metric(out, "storage_harvester_target_info", b, "1");
    let interval = seconds_fixed6(&snapshot.interval);
    push_metric(out, "storage_harvester_target_interval_seconds", b, interval.as_str());
    let count = decimal(snapshot.scan_count as u128);
    push_metric(out, "storage_harvester_scan_count_total", b, count.as_str());
    let failures = decimal(snapshot.failure_count as u128);
    push_metric(out, "storage_harvester_scan_errors_total", b, failures.as_str());
    let running = decimal(if snapshot.scan_running { 1 } else { 0 });
    push_metric(out, "storage_harvester_scan_running", b, running.as_str());
    let elapsed = match &snapshot.scan_started {
        Some(started) => now.saturating_sub(started),
        None => Duration::zero(),
    };
    let elapsed_text = seconds_fixed6(&elapsed);
    push_metric(out, "storage_harvester_scan_running_seconds", b, elapsed_text.as_str());
    assert(out@ =~= start + status_text(*snapshot, *now));
}

/// `1` when the latest scan succeeded, `0` when it failed.
pub open spec fn success_value(s: TargetSnapshot) -> Seq<char> {
    if s.last_error is None { "1"@ } else { "0"@ }
}

/// The samples of a target whose last successful scan is `r`; the success
/// sample says whether the latest scan succeeded.
pub open spec fn success_text(s: TargetSnapshot, r: ScanResult, now: Duration) -> Seq<char> {
    let b = target_labels(s, None);
    nodes_text(s, r.observations@, r.backend@)
        + metric_line("storage_harvester_scan_success"@, b, success_value(s))
        + metric_line(
            "storage_harvester_scan_duration_seconds"@,
            b + ",backend=\""@ + escaped_label(r.backend@) + "\""@,
            fixed6(r.duration),
        )
        + metric_line("storage_harvester_scan_timestamp_seconds"@, b, dec(r.timestamp.secs as nat))
        + metric_line("storage_harvester_target_stale_seconds"@, b, fixed6(now.saturating_sub_spec(r.timestamp)))
        + summary_text(s, r)
}

/// The issue counts and walk statistics of a successful scan.
pub open spec fn summary_text(s: TargetSnapshot, r: ScanResult) -> Seq<char> {
    let b = target_labels(s, None);
    issue_line(s, "permission_errors"@, r.permission_errors)
        + issue_line(s, "missing_path_races"@, r.missing_path_races)
        + issue_line(s, "skipped_cross_device"@, r.skipped_cross_device)
        + issue_line(s, "skipped_excluded"@, r.skipped_excluded)
        + metric_line("storage_harvester_reported_nodes"@, b, dec(r.observations@.len()))
        + metric_line("storage_harvester_scanned_directories"@, b, dec(r.scanned_directories as nat))
        + metric_line("storage_harvester_scanned_files"@, b, dec(r.scanned_files as nat))
        + metric_line("storage_harvester_scanned_symlinks"@, b, dec(r.scanned_symlinks as nat))
        + metric_line("storage_harvester_max_observed_depth"@, b, dec(r.max_observed_depth as nat))
        + metric_line("storage_harvester_depth_limit_hits"@, b, dec(r.depth_limit_hits as nat))
}

#[verifier::spinoff_prover]
#[verifier::rlimit(40)]
fn write_nodes(out: &mut String, snapshot: &TargetSnapshot, result: &ScanResult)
    ensures
        final(out)@ == old(out)@ + nodes_text(*snapshot, result.observations@, result.backend@),
{
    let ghost start = out@;
    let mut i: usize = 0;
    while i < result.observations.len()
        invariant
            i <= result.observations@.len(),
            out@ == start + nodes_text(*snapshot, result.observations@.take(i as int), result.backend@),
        decreases result.observations@.len() - i,
    {
        let node = &result.observations[i];
        write_node_sizes(out, snapshot, node, result.backend.as_str());
        write_node_entries(out, snapshot, node);
        proof {
            let ns = result.observations@.take(i + 1);
            assert(ns.drop_last() =~= result.observations@.take(i as int));
            assert(out@ =~= start + nodes_text(*snapshot, ns, result.backend@));
        }
        i = i + 1;
    }
    assert(result.observations@.take(i as int) =~= result.observations@);
}

#[verifier::spinoff_prover]
#[verifier::rlimit(40)]
fn write_summary(out: &mut String, snapshot: &TargetSnapshot, result: &ScanResult, base: &String)
    requires
        base@ == target_labels(*snapshot, None),
    ensures
        final(out)@ == old(out)@ + summary_text(*snapshot, *result),
{
    let ghost start = out@;
    let b = base.as_str();
    write_issue(out, snapshot, "permission_errors", result.permission_errors);
    write_issue(out, snapshot, "missing_path_races", result.missing_path_races);
    write_issue(out, snapshot, "skipped_cross_device", result.skipped_cross_device);
    write_issue(out, snapshot, "skipped_excluded", result.skipped_excluded);
    let nodes = decimal(result.observations.len() as u128);
    push_metric(out, "storage_harvester_reported_nodes", b, nodes.as_str());
    let dirs = decimal(result.scanned_directories as u128);
    push_metric(out, "storage_harvester_scanned_directories", b, dirs.as_str());
    let files = decimal(result.scanned_files as u128);
    push_metric(out, "storage_harvester_scanned_files", b, files.as_str());
    let links = decimal(result.scanned_symlinks as u128);
    push_metric(out, "storage_harvester_scanned_symlinks", b, links.as_str());
    let depth = decimal(result.max_observed_depth as u128);
    push_metric(out, "storage_harvester_max_observed_depth", b, depth.as_str());
    let hits = decimal(result.depth_limit_hits as u128);
    push_metric(out, "storage_harvester_depth_limit_hits", b, hits.as_str());
    assert(out@ =~= start + summary_text(*snapshot, *result));
}

#[verifier::spinoff_prover]
#[verifier::rlimit(40)]
fn write_success(out: &mut String, snapshot: &TargetSnapshot, result: &ScanResult, base: &String, now: &Duration)
    requires
        base@ == target_labels(*snapshot, None),
        result.timestamp.wf(),
        now.wf(),
    ensures
        final(out)@ == old(out)@ + success_text(*snapshot, *result, *now),
{
    let ghost start = out@;
    let b = base.as_str();
    write_nodes(out, snapshot, result);
    let ghost after_nodes = out@;
    let succeeded = if snapshot.last_error.is_none() { "1" } else { "0" };
    push_metric(out, "storage_harvester_scan_success", b, succeeded);
    let mut duration_labels = base.clone();
    push_str(&mut duration_labels, ",backend=\"");
    let backend = escape_label_value(result.backend.as_str());
    push_str(&mut duration_labels, backend.as_str());
    push_str(&mut duration_labels, "\"");
    let took = seconds_fixed6(&result.duration);
    push_metric(out, "storage_harvester_scan_duration_seconds", duration_labels.as_str(), took.as_str());
    let stamp = decimal(unix_seconds(&result.timestamp) as u128);
    push_metric(out, "storage_harvester_scan_timestamp_seconds", b, stamp.as_str());
    let stale = seconds_fixed6(&now.saturating_sub(&result.timestamp));
    push_metric(out, "storage_harvester_target_stale_seconds", b, stale.as_str());
    let ghost before_summary = out@;
    write_summary(out, snapshot, result, base);
    assert(out@ =~= start + success_text(*snapshot, *result, *now));
}

/// All samples of one target.
#[verifier::opaque]
pub open spec fn snapshot_text(s: TargetSnapshot, now: Duration) -> Seq<char> {
    let b = target_labels(s, None);
    status_text(s, now) + match s.last_success {
        Some(r) => success_text(s, r, now),
        None => metric_line("storage_harvester_scan_success"@, b, "0"@)
            + metric_line("storage_harvester_target_stale_seconds"@, b, "NaN"@),
    }
}

/// The samples of each target, in order.
pub open spec fn snapshots_text(ss: Seq<TargetSnapshot>, now: Duration) -> Seq<char>
    decreases ss.len(),
{
    if ss.len() == 0 {
        seq![]
    } else {
        snapshots_text(ss.drop_last(), now) + snapshot_text(ss.last(), now)
    }
}

/// The whole exposition at time `now`: the family headers, the build
/// information, then the samples of each target in order.
pub open spec fn exposition(ss: Seq<TargetSnapshot>, now: Duration) -> Seq<char> {
    headers_text(header_table()) + build_info_text() + snapshots_text(ss, now)
}

/// Sample lines given as (metric name, labels, value), written in order.
pub open spec fn samples_text(xs: Seq<(Seq<char>, Seq<char>, Seq<char>)>) -> Seq<char>
    decreases xs.len(),
{
    if xs.len() == 0 {
        seq![]
    } else {
        samples_text(xs.drop_last()) + metric_line(xs.last().0, xs.last().1, xs.last().2)
    }
}

/// Whether `name` is one of the metric families whose `# HELP` and `# TYPE`
/// lines the exposition starts with.
pub open spec fn is_family(name: Seq<char>) -> bool {
    exists|k: int| 0 <= k < header_table().len() && #[trigger] header_table()[k].0 == name
}

/// Every sample belongs to a declared family.
pub open spec fn declared(xs: Seq<(Seq<char>, Seq<char>, Seq<char>)>) -> bool {
    forall|k: int| 0 <= k < xs.len() ==> is_family(#[trigger] xs[k].0)
}

proof fn lemma_samples_concat(xs: Seq<(Seq<char>, Seq<char>, Seq<char>)>, ys: Seq<(Seq<char>, Seq<char>, Seq<char>)>)
    ensures
        samples_text(xs + ys) == samples_text(xs) + samples_text(ys),
        declared(xs) && declared(ys) ==> declared(xs + ys),
    decreases ys.len(),
{
    if ys.len() == 0 {
        assert(xs + ys =~= xs);
        assert(samples_text(xs) + samples_text(ys) =~= samples_text(xs));
    } else {
        lemma_samples_concat(xs, ys.drop_last());
        assert((xs + ys).drop_last() =~= xs + ys.drop_last());
        assert((xs + ys).last() == ys.last());
        let l = metric_line(ys.last().0, ys.last().1, ys.last().2);
        assert(samples_text(xs) + samples_text(ys.drop_last()) + l =~= samples_text(xs) + (samples_text(ys.drop_last()) + l));
    }
    if declared(xs) && declared(ys) {
        assert forall|k: int| 0 <= k < (xs + ys).len() implies is_family(#[trigger] (xs + ys)[k].0) by {
            if k < xs.len() {
                assert((xs + ys)[k] == xs[k]);
            } else {
                assert((xs + ys)[k] == ys[k - xs.len()]);
            }
        }
    }
}

proof fn lemma_samples_push(xs: Seq<(Seq<char>, Seq<char>, Seq<char>)>, x: (Seq<char>, Seq<char>, Seq<char>))
    ensures
        samples_text(xs.push(x)) == samples_text(xs) + metric_line(x.0, x.1, x.2),
{
    assert(xs.push(x).drop_last() =~= xs);
    assert(xs.push(x).last() == x);
}

/// Two sample lines.
proof fn lemma_lines2(a: (Seq<char>, Seq<char>, Seq<char>), b: (Seq<char>, Seq<char>, Seq<char>))
    ensures
        samples_text(seq![a, b]) == metric_line(a.0, a.1, a.2) + metric_line(b.0, b.1, b.2),
{
    let e = Seq::<(Seq<char>, Seq<char>, Seq<char>)>::empty();
    lemma_samples_push(e, a);
    lemma_samples_push(e.push(a), b);
    assert(e.push(a).push(b) =~= seq![a, b]);
    assert(samples_text(e) == Seq::<char>::empty());
    assert(Seq::<char>::empty() + metric_line(a.0, a.1, a.2) =~= metric_line(a.0, a.1, a.2));
}

/// Four sample lines.
proof fn lemma_lines4(a: (Seq<char>, Seq<char>, Seq<char>), b: (Seq<char>, Seq<char>, Seq<char>), c: (Seq<char>, Seq<char>, Seq<char>), d: (Seq<char>, Seq<char>, Seq<char>))
    ensures
        samples_text(seq![a, b, c, d]) == metric_line(a.0, a.1, a.2) + metric_line(b.0, b.1, b.2) + metric_line(c.0, c.1, c.2)
            + metric_line(d.0, d.1, d.2),
{
    lemma_lines2(a, b);
    lemma_samples_push(seq![a, b], c);
    lemma_samples_push(seq![a, b].push(c), d);
    assert(seq![a, b].push(c).push(d) =~= seq![a, b, c, d]);
}

/// Six sample lines.
proof fn lemma_lines6(
    a: (Seq<char>, Seq<char>, Seq<char>),
    b: (Seq<char>, Seq<char>, Seq<char>),
    c: (Seq<char>, Seq<char>, Seq<char>),
    d: (Seq<char>, Seq<char>, Seq<char>),
    e: (Seq<char>, Seq<char>, Seq<char>),
    f: (Seq<char>, Seq<char>, Seq<char>),
)
    ensures
        samples_text(seq![a, b, c, d, e, f]) == metric_line(a.0, a.1, a.2) + metric_line(b.0, b.1, b.2) + metric_line(c.0, c.1, c.2)
            + metric_line(d.0, d.1, d.2) + metric_line(e.0, e.1, e.2) + metric_line(f.0, f.1, f.2),
{
    lemma_lines4(a, b, c, d);
    lemma_samples_push(seq![a, b, c, d], e);
    lemma_samples_push(seq![a, b, c, d].push(e), f);
    assert(seq![a, b, c, d].push(e).push(f) =~= seq![a, b, c, d, e, f]);
}

proof fn lemma_family(k: int, name: Seq<char>)
    requires
        0 <= k < header_table().len(),
        header_table()[k].0 == name,
    ensures
        is_family(name),
{
}

/// The samples every target has.
pub open spec fn status_samples(s: TargetSnapshot, now: Duration) -> Seq<(Seq<char>, Seq<char>, Seq<char>)> {
    let b = target_labels(s, None);
    seq![
        ("storage_harvester_target_info"@, b, "1"@),
        ("storage_harvester_target_interval_seconds"@, b, fixed6(s.interval)),
        ("storage_harvester_scan_count_total"@, b, dec(s.scan_count as nat)),
        ("storage_harvester_scan_errors_total"@, b, dec(s.failure_count as nat)),
        ("storage_harvester_scan_running"@, b, dec(if s.scan_running { 1 } else { 0 })),
        ("storage_harvester_scan_running_seconds"@, b, fixed6(running_time(s, now)))
    ]
}

/// The size samples of a node.
pub open spec fn node_size_samples(s: TargetSnapshot, n: NodeObservation, backend: Seq<char>, modes: Seq<SizeMode>) -> Seq<(Seq<char>, Seq<char>, Seq<char>)>
    decreases modes.len(),
{
    if modes.len() == 0 {
        seq![]
    } else {
        let m = modes.last();
        let l = size_labels(s, n, m, backend);
        node_size_samples(s, n, backend, modes.drop_last()) + seq![
            ("storage_harvester_own_size_bytes"@, l, dec(node_size_spec(n, SizeComponent::Own, m) as nat)),
            ("storage_harvester_children_size_bytes"@, l, dec(node_size_spec(n, SizeComponent::Children, m) as nat))
        ]
    }
}

/// The entry-count samples of a node.
pub open spec fn node_entry_samples(s: TargetSnapshot, n: NodeObservation) -> Seq<(Seq<char>, Seq<char>, Seq<char>)> {
    seq![
        ("storage_harvester_own_entries"@, entry_labels(s, n, "file"@), dec(n.file_count as nat)),
        ("storage_harvester_own_entries"@, entry_labels(s, n, "directory"@), dec(n.directory_count as nat)),
        ("storage_harvester_own_entries"@, entry_labels(s, n, "symlink"@), dec(n.symlink_count as nat)),
        ("storage_harvester_children_entries"@, entry_labels(s, n, "file"@), dec(n.children_file_count as nat)),
        ("storage_harvester_children_entries"@, entry_labels(s, n, "directory"@), dec(n.children_directory_count as nat)),
        ("storage_harvester_children_entries"@, entry_labels(s, n, "symlink"@), dec(n.children_symlink_count as nat))
    ]
}

/// The samples of each node, in order.
pub open spec fn nodes_samples(s: TargetSnapshot, nodes: Seq<NodeObservation>, backend: Seq<char>) -> Seq<(Seq<char>, Seq<char>, Seq<char>)>
    decreases nodes.len(),
{
    if nodes.len() == 0 {
        seq![]
    } else {
        nodes_samples(s, nodes.drop_last(), backend) + node_size_samples(s, nodes.last(), backend, s.size_modes@)
            + node_entry_samples(s, nodes.last())
    }
}

/// The timing samples of a last successful scan.
pub open spec fn timing_samples(s: TargetSnapshot, r: ScanResult, now: Duration) -> Seq<(Seq<char>, Seq<char>, Seq<char>)> {
    let b = target_labels(s, None);
    seq![
        ("storage_harvester_scan_success"@, b, success_value(s)),
        ("storage_harvester_scan_duration_seconds"@, b + ",backend=\""@ + escaped_label(r.backend@) + "\""@, fixed6(r.duration)),
        ("storage_harvester_scan_timestamp_seconds"@, b, dec(r.timestamp.secs as nat)),
        ("storage_harvester_target_stale_seconds"@, b, fixed6(now.saturating_sub_spec(r.timestamp)))
    ]
}

/// The issue samples of a last successful scan.
pub open spec fn issue_samples(s: TargetSnapshot, r: ScanResult) -> Seq<(Seq<char>, Seq<char>, Seq<char>)> {
    seq![
        ("storage_harvester_scan_issue_count"@, target_labels(s, Some(("issue"@, "permission_errors"@))), dec(r.permission_errors as nat)),
        ("storage_harvester_scan_issue_count"@, target_labels(s, Some(("issue"@, "missing_path_races"@))), dec(r.missing_path_races as nat)),
        ("storage_harvester_scan_issue_count"@, target_labels(s, Some(("issue"@, "skipped_cross_device"@))), dec(r.skipped_cross_device as nat)),
        ("storage_harvester_scan_issue_count"@, target_labels(s, Some(("issue"@, "skipped_excluded"@))), dec(r.skipped_excluded as nat))
    ]
}

/// The walk statistics samples of a last successful scan.
pub open spec fn walk_samples(s: TargetSnapshot, r: ScanResult) -> Seq<(Seq<char>, Seq<char>, Seq<char>)> {
    let b = target_labels(s, None);
    seq![
        ("storage_harvester_reported_nodes"@, b, dec(r.observations@.len())),
        ("storage_harvester_scanned_directories"@, b, dec(r.scanned_directories as nat)),
        ("storage_harvester_scanned_files"@, b, dec(r.scanned_files as nat)),
        ("storage_harvester_scanned_symlinks"@, b, dec(r.scanned_symlinks as nat)),
        ("storage_harvester_max_observed_depth"@, b, dec(r.max_observed_depth as nat)),
        ("storage_harvester_depth_limit_hits"@, b, dec(r.depth_limit_hits as nat))
    ]
}

/// The samples a target without a successful scan has after its status.
pub open spec fn unscanned_samples(s: TargetSnapshot) -> Seq<(Seq<char>, Seq<char>, Seq<char>)> {
    let b = target_labels(s, None);
    seq![
        ("storage_harvester_scan_success"@, b, "0"@),
        ("storage_harvester_target_stale_seconds"@, b, "NaN"@)
    ]
}

/// All samples of one target, in the order they are written.
pub open spec fn snapshot_samples(s: TargetSnapshot, now: Duration) -> Seq<(Seq<char>, Seq<char>, Seq<char>)> {
    status_samples(s, now) + match s.last_success {
        Some(r) => nodes_samples(s, r.observations@, r.backend@) + timing_samples(s, r, now) + issue_samples(s, r)
            + walk_samples(s, r),
        None => unscanned_samples(s),
    }
}

#[verifier::spinoff_prover]
proof fn lemma_node_size_samples(s: TargetSnapshot, n: NodeObservation, backend: Seq<char>, modes: Seq<SizeMode>)
    ensures
        samples_text(node_size_samples(s, n, backend, modes)) == node_sizes_text(s, n, backend, modes),
        declared(node_size_samples(s, n, backend, modes)),
    decreases modes.len(),
{
    if modes.len() == 0 {
        assert(samples_text(node_size_samples(s, n, backend, modes)) =~= node_sizes_text(s, n, backend, modes));
    } else {
        lemma_node_size_samples(s, n, backend, modes.drop_last());
        let m = modes.last();
        let l = size_labels(s, n, m, backend);
        let a = ("storage_harvester_own_size_bytes"@, l, dec(node_size_spec(n, SizeComponent::Own, m) as nat));
        let b = ("storage_harvester_children_size_bytes"@, l, dec(node_size_spec(n, SizeComponent::Children, m) as nat));
        lemma_lines2(a, b);
        lemma_family(1, "storage_harvester_own_size_bytes"@);
        lemma_family(2, "storage_harvester_children_size_bytes"@);
        let p = node_size_samples(s, n, backend, modes.drop_last());
        let two = seq![a, b];
        lemma_samples_concat(p, two);
        assert forall|k: int| 0 <= k < two.len() implies is_family(#[trigger] two[k].0) by {}
        assert(samples_text(p) + (metric_line(a.0, a.1, a.2) + metric_line(b.0, b.1, b.2))
            =~= samples_text(p) + metric_line(a.0, a.1, a.2) + metric_line(b.0, b.1, b.2));
    }
}

#[verifier::spinoff_prover]
proof fn lemma_node_entry_samples(s: TargetSnapshot, n: NodeObservation)
    ensures
        samples_text(node_entry_samples(s, n)) == node_entries_text(s, n),
        declared(node_entry_samples(s, n)),
{
    let es = node_entry_samples(s, n);
    lemma_lines6(es[0], es[1], es[2], es[3], es[4], es[5]);
    assert(seq![es[0], es[1], es[2], es[3], es[4], es[5]] =~= es);
    lemma_family(3, "storage_harvester_own_entries"@);
    lemma_family(4, "storage_harvester_children_entries"@);
    assert forall|k: int| 0 <= k < es.len() implies is_family(#[trigger] es[k].0) by {}
}

#[verifier::spinoff_prover]
proof fn lemma_nodes_samples(s: TargetSnapshot, nodes: Seq<NodeObservation>, backend: Seq<char>)
    ensures
        samples_text(nodes_samples(s, nodes, backend)) == nodes_text(s, nodes, backend),
        declared(nodes_samples(s, nodes, backend)),
    decreases nodes.len(),
{
    if nodes.len() == 0 {
        assert(samples_text(nodes_samples(s, nodes, backend)) =~= nodes_text(s, nodes, backend));
    } else {
        let n = nodes.last();
        lemma_nodes_samples(s, nodes.drop_last(), backend);
        lemma_node_size_samples(s, n, backend, s.size_modes@);
        lemma_node_entry_samples(s, n);
        let a = nodes_samples(s, nodes.drop_last(), backend);
        let b = node_size_samples(s, n, backend, s.size_modes@);
        let c = node_entry_samples(s, n);
        lemma_samples_concat(a, b);
        lemma_samples_concat(a + b, c);
    }
}

#[verifier::spinoff_prover]
proof fn lemma_status_samples(s: TargetSnapshot, now: Duration)
    ensures
        samples_text(status_samples(s, now)) == status_text(s, now),
        declared(status_samples(s, now)),
{
    let st = status_samples(s, now);
    lemma_lines6(st[0], st[1], st[2], st[3], st[4], st[5]);
    assert(seq![st[0], st[1], st[2], st[3], st[4], st[5]] =~= st);
    lemma_family(14, "storage_harvester_target_info"@);
    lemma_family(15, "storage_harvester_target_interval_seconds"@);
    lemma_family(9, "storage_harvester_scan_count_total"@);
    lemma_family(8, "storage_harvester_scan_errors_total"@);
    lemma_family(11, "storage_harvester_scan_running"@);
    lemma_family(12, "storage_harvester_scan_running_seconds"@);
    assert forall|k: int| 0 <= k < st.len() implies is_family(#[trigger] st[k].0) by {}
}

#[verifier::spinoff_prover]
proof fn lemma_timing_samples(s: TargetSnapshot, r: ScanResult, now: Duration)
    ensures
        samples_text(timing_samples(s, r, now)) == ({
            let b = target_labels(s, None);
            metric_line("storage_harvester_scan_success"@, b, success_value(s))
                + metric_line(
                    "storage_harvester_scan_duration_seconds"@,
                    b + ",backend=\""@ + escaped_label(r.backend@) + "\""@,
                    fixed6(r.duration),
                )
                + metric_line("storage_harvester_scan_timestamp_seconds"@, b, dec(r.timestamp.secs as nat))
                + metric_line("storage_harvester_target_stale_seconds"@, b, fixed6(now.saturating_sub_spec(r.timestamp)))
        }),
        declared(timing_samples(s, r, now)),
{
    let t = timing_samples(s, r, now);
    lemma_lines4(t[0], t[1], t[2], t[3]);
    assert(seq![t[0], t[1], t[2], t[3]] =~= t);
    lemma_family(5, "storage_harvester_scan_success"@);
    lemma_family(6, "storage_harvester_scan_duration_seconds"@);
    lemma_family(7, "storage_harvester_scan_timestamp_seconds"@);
    lemma_family(13, "storage_harvester_target_stale_seconds"@);
    assert forall|k: int| 0 <= k < t.len() implies is_family(#[trigger] t[k].0) by {}
}

#[verifier::spinoff_prover]
proof fn lemma_summary_samples(s: TargetSnapshot, r: ScanResult)
    ensures
        samples_text(issue_samples(s, r) + walk_samples(s, r)) == summary_text(s, r),
        declared(issue_samples(s, r) + walk_samples(s, r)),
{
    let i = issue_samples(s, r);
    let w = walk_samples(s, r);
    lemma_lines4(i[0], i[1], i[2], i[3]);
    assert(seq![i[0], i[1], i[2], i[3]] =~= i);
    lemma_lines6(w[0], w[1], w[2], w[3], w[4], w[5]);
    assert(seq![w[0], w[1], w[2], w[3], w[4], w[5]] =~= w);
    lemma_family(10, "storage_harvester_scan_issue_count"@);
    lemma_family(16, "storage_harvester_reported_nodes"@);
    lemma_family(17, "storage_harvester_scanned_directories"@);
    lemma_family(18, "storage_harvester_scanned_files"@);
    lemma_family(19, "storage_harvester_scanned_symlinks"@);
    lemma_family(20, "storage_harvester_max_observed_depth"@);
    lemma_family(21, "storage_harvester_depth_limit_hits"@);
    assert forall|k: int| 0 <= k < i.len() implies is_family(#[trigger] i[k].0) by {}
    assert forall|k: int| 0 <= k < w.len() implies is_family(#[trigger] w[k].0) by {}
    lemma_samples_concat(i, w);
    assert(samples_text(i) + samples_text(w) =~= summary_text(s, r));
}

#[verifier::spinoff_prover]
proof fn lemma_success_samples(s: TargetSnapshot, r: ScanResult, now: Duration)
    ensures
        samples_text(nodes_samples(s, r.observations@, r.backend@) + timing_samples(s, r, now) + issue_samples(s, r)
            + walk_samples(s, r)) == success_text(s, r, now),
        declared(nodes_samples(s, r.observations@, r.backend@) + timing_samples(s, r, now) + issue_samples(s, r)
            + walk_samples(s, r)),
{
    let ns = nodes_samples(s, r.observations@, r.backend@);
    let t = timing_samples(s, r, now);
    let iw = issue_samples(s, r) + walk_samples(s, r);
    lemma_nodes_samples(s, r.observations@, r.backend@);
    lemma_timing_samples(s, r, now);
    lemma_summary_samples(s, r);
    lemma_samples_concat(ns, t);
    lemma_samples_concat(ns + t, iw);
    assert(ns + t + issue_samples(s, r) + walk_samples(s, r) =~= ns + t + iw);
    let b = target_labels(s, None);
    lemma_regroup(
        nodes_text(s, r.observations@, r.backend@),
        metric_line("storage_harvester_scan_success"@, b, success_value(s)),
        metric_line(
            "storage_harvester_scan_duration_seconds"@,
            b + ",backend=\""@ + escaped_label(r.backend@) + "\""@,
            fixed6(r.duration),
        ),
        metric_line("storage_harvester_scan_timestamp_seconds"@, b, dec(r.timestamp.secs as nat)),
        metric_line("storage_harvester_target_stale_seconds"@, b, fixed6(now.saturating_sub_spec(r.timestamp))),
        summary_text(s, r),
    );
}

proof fn lemma_regroup(a: Seq<char>, b: Seq<char>, c: Seq<char>, d: Seq<char>, e: Seq<char>, f: Seq<char>)
    ensures
        a + (b + c + d + e) + f == a + b + c + d + e + f,
{
    assert(a + (b + c + d + e) + f =~= a + b + c + d + e + f);
}

#[verifier::spinoff_prover]
proof fn lemma_snapshot_samples(s: TargetSnapshot, now: Duration)
    ensures
        samples_text(snapshot_samples(s, now)) == snapshot_text(s, now),
        declared(snapshot_samples(s, now)),
{
    reveal(snapshot_text);
    let st = status_samples(s, now);
    lemma_status_samples(s, now);
    match s.last_success {
        Some(r) => {
            lemma_success_samples(s, r, now);
            lemma_samples_concat(st, nodes_samples(s, r.observations@, r.backend@) + timing_samples(s, r, now)
                + issue_samples(s, r) + walk_samples(s, r));
        },
        None => {
            let u = unscanned_samples(s);
            lemma_lines2(u[0], u[1]);
            assert(seq![u[0], u[1]] =~= u);
            lemma_family(5, "storage_harvester_scan_success"@);
            lemma_family(13, "storage_harvester_target_stale_seconds"@);
            assert forall|k: int| 0 <= k < u.len() implies is_family(#[trigger] u[k].0) by {}
            lemma_samples_concat(st, u);
        },
    }
}

proof fn lemma_snapshots_split(ss: Seq<TargetSnapshot>, now: Duration, k: int)
    requires
        0 <= k <= ss.len(),
    ensures
        snapshots_text(ss, now) == snapshots_text(ss.take(k), now) + snapshots_text(ss.skip(k), now),
    decreases ss.len() - k,
{
    if k == ss.len() {
        assert(ss.take(k) =~= ss);
        assert(ss.skip(k) =~= Seq::<TargetSnapshot>::empty());
        assert(snapshots_text(ss, now) + Seq::<char>::empty() =~= snapshots_text(ss, now));
    } else {
        lemma_snapshots_split(ss.drop_last(), now, k);
        assert(ss.drop_last().take(k) =~= ss.take(k));
        assert(ss.drop_last().skip(k) =~= ss.skip(k).drop_last());
        assert(ss.skip(k).last() == ss.last());
        let a = snapshots_text(ss.take(k), now);
        let b = snapshots_text(ss.skip(k).drop_last(), now);
        let c = snapshot_text(ss.last(), now);
        assert(a + b + c =~= a + (b + c));
    }
}

/// The exposition's layout: first the `# HELP` and `# TYPE` lines of every
/// metric family, then only sample lines, each of a family declared above
/// (so every sample follows its family's `# TYPE` line): the build
/// information, then each snapshot's samples, snapshot after snapshot in the
/// order given.
pub proof fn law_exposition_layout(ss: Seq<TargetSnapshot>, now: Duration)
    ensures
        exposition(ss, now) == headers_text(header_table()) + build_info_text() + snapshots_text(ss, now),
        is_family("storage_harvester_build_info"@),
        forall|i: int| 0 <= i < ss.len() ==> samples_text(snapshot_samples(#[trigger] ss[i], now)) == snapshot_text(ss[i], now)
            && declared(snapshot_samples(ss[i], now)),
        forall|k: int| 0 <= k <= ss.len() ==> snapshots_text(ss, now) == #[trigger] snapshots_text(ss.take(k), now) + snapshots_text(ss.skip(k), now),
{
    lemma_family(0, "storage_harvester_build_info"@);
    assert forall|i: int| 0 <= i < ss.len() implies samples_text(snapshot_samples(#[trigger] ss[i], now)) == snapshot_text(ss[i], now)
        && declared(snapshot_samples(ss[i], now)) by {
        lemma_snapshot_samples(ss[i], now);
    }
    assert forall|k: int| 0 <= k <= ss.len() implies snapshots_text(ss, now) == #[trigger] snapshots_text(ss.take(k), now) + snapshots_text(ss.skip(k), now) by {
        lemma_snapshots_split(ss, now, k);
    }
}

/// Each sample of a list is a line of its text.
proof fn lemma_sample_in_text(xs: Seq<(Seq<char>, Seq<char>, Seq<char>)>, k: int)
    requires
        0 <= k < xs.len(),
    ensures
        contains_text(samples_text(xs), metric_line(xs[k].0, xs[k].1, xs[k].2)),
{
    lemma_samples_concat(xs.take(k + 1), xs.skip(k + 1));
    assert(xs.take(k + 1) + xs.skip(k + 1) =~= xs);
    lemma_samples_push(xs.take(k), xs[k]);
    assert(xs.take(k).push(xs[k]) =~= xs.take(k + 1));
    lemma_contains_middle(samples_text(xs.take(k)), metric_line(xs[k].0, xs[k].1, xs[k].2), samples_text(xs.skip(k + 1)));
}

/// A line of one snapshot's samples is a line of the exposition.
proof fn lemma_in_exposition(ss: Seq<TargetSnapshot>, now: Duration, i: int, line: Seq<char>)
    requires
        0 <= i < ss.len(),
        contains_text(snapshot_text(ss[i], now), line),
    ensures
        contains_text(exposition(ss, now), line),
{
    lemma_snapshots_split(ss, now, i + 1);
    let front = ss.take(i + 1);
    assert(front.drop_last() =~= ss.take(i));
    assert(front.last() == ss[i]);
    assert(snapshots_text(front, now) == snapshots_text(ss.take(i), now) + snapshot_text(ss[i], now));
    let x = headers_text(header_table()) + build_info_text() + snapshots_text(ss.take(i), now);
    let y = snapshots_text(ss.skip(i + 1), now);
    lemma_contains_within(x, snapshot_text(ss[i], now), y, line);
    assert(x + snapshot_text(ss[i], now) + y =~= exposition(ss, now));
}

/// The `k`-th sample of a snapshot is a line of the exposition.
proof fn lemma_sample_in_exposition(ss: Seq<TargetSnapshot>, now: Duration, i: int, k: int)
    requires
        0 <= i < ss.len(),
        0 <= k < snapshot_samples(ss[i], now).len(),
    ensures
        contains_text(exposition(ss, now), metric_line(
            snapshot_samples(ss[i], now)[k].0,
            snapshot_samples(ss[i], now)[k].1,
            snapshot_samples(ss[i], now)[k].2,
        )),
{
    let xs = snapshot_samples(ss[i], now);
    lemma_snapshot_samples(ss[i], now);
    lemma_sample_in_text(xs, k);
    lemma_in_exposition(ss, now, i, metric_line(xs[k].0, xs[k].1, xs[k].2));
}

/// For a target whose last successful scan is `r`, the exposition holds,
/// under the target's labels, each figure of `r` under its own metric: the
/// walk statistics (reported nodes, scanned directories, files and symlinks,
/// the deepest depth seen, depth-limit hits), each issue count under its
/// `issue` label, the scan's timestamp, its duration under its backend's
/// label, and how long ago it ended at `now`; it also holds whether the
/// latest scan succeeded (`1` when it left no error) and the target's scan
/// and failure counts.
#[verifier::spinoff_prover]
#[verifier::rlimit(40)]
pub proof fn law_exposition_reports_scan(ss: Seq<TargetSnapshot>, now: Duration, i: int, r: ScanResult)
    requires
        0 <= i < ss.len(),
        ss[i].last_success == Some(r),
    ensures
        contains_text(exposition(ss, now), metric_line("storage_harvester_reported_nodes"@, target_labels(ss[i], None), dec(r.observations@.len()))),
        contains_text(exposition(ss, now), metric_line("storage_harvester_scanned_directories"@, target_labels(ss[i], None), dec(r.scanned_directories as nat))),
        contains_text(exposition(ss, now), metric_line("storage_harvester_scanned_files"@, target_labels(ss[i], None), dec(r.scanned_files as nat))),
        contains_text(exposition(ss, now), metric_line("storage_harvester_scanned_symlinks"@, target_labels(ss[i], None), dec(r.scanned_symlinks as nat))),
        contains_text(exposition(ss, now), metric_line("storage_harvester_max_observed_depth"@, target_labels(ss[i], None), dec(r.max_observed_depth as nat))),
        contains_text(exposition(ss, now), metric_line("storage_harvester_depth_limit_hits"@, target_labels(ss[i], None), dec(r.depth_limit_hits as nat))),
        contains_text(exposition(ss, now), metric_line("storage_harvester_scan_issue_count"@,
            target_labels(ss[i], Some(("issue"@, "permission_errors"@))), dec(r.permission_errors as nat))),
        contains_text(exposition(ss, now), metric_line("storage_harvester_scan_issue_count"@,
            target_labels(ss[i], Some(("issue"@, "missing_path_races"@))), dec(r.missing_path_races as nat))),
        contains_text(exposition(ss, now), metric_line("storage_harvester_scan_issue_count"@,
            target_labels(ss[i], Some(("issue"@, "skipped_cross_device"@))), dec(r.skipped_cross_device as nat))),
        contains_text(exposition(ss, now), metric_line("storage_harvester_scan_issue_count"@,
            target_labels(ss[i], Some(("issue"@, "skipped_excluded"@))), dec(r.skipped_excluded as nat))),
        contains_text(exposition(ss, now), metric_line("storage_harvester_scan_timestamp_seconds"@, target_labels(ss[i], None), dec(r.timestamp.secs as nat))),
        contains_text(exposition(ss, now), metric_line("storage_harvester_scan_duration_seconds"@,
            target_labels(ss[i], None) + ",backend=\""@ + escaped_label(r.backend@) + "\""@, fixed6(r.duration))),
        contains_text(exposition(ss, now), metric_line("storage_harvester_target_stale_seconds"@, target_labels(ss[i], None),
            fixed6(now.saturating_sub_spec(r.timestamp)))),
        contains_text(exposition(ss, now), metric_line("storage_harvester_scan_success"@, target_labels(ss[i], None),
            if ss[i].last_error is None { "1"@ } else { "0"@ })),
        contains_text(exposition(ss, now), metric_line("storage_harvester_scan_count_total"@, target_labels(ss[i], None), dec(ss[i].scan_count as nat))),
        contains_text(exposition(ss, now), metric_line("storage_harvester_scan_errors_total"@, target_labels(ss[i], None), dec(ss[i].failure_count as nat))),
{
    let s = ss[i];
    let st = snapshot_samples(s, now);
    let status = status_samples(s, now);
    let ns = nodes_samples(s, r.observations@, r.backend@);
    let t = timing_samples(s, r, now);
    let is = issue_samples(s, r);
    let w = walk_samples(s, r);
    let n = ns.len() as int;
    assert(st == status + (ns + t + is + w));
    assert(st.len() == 6 + n + 14);
    assert forall|k: int| 0 <= k < 6 implies #[trigger] st[k] == status[k] by {}
    assert forall|k: int| 0 <= k < 4 implies #[trigger] st[6 + n + k] == t[k] by {
        assert((ns + t + is + w)[n + k] == t[k]);
    }
    assert forall|k: int| 0 <= k < 4 implies #[trigger] st[6 + n + 4 + k] == is[k] by {
        assert((ns + t + is + w)[n + 4 + k] == is[k]);
    }
    assert forall|k: int| 0 <= k < 6 implies #[trigger] st[6 + n + 8 + k] == w[k] by {
        assert((ns + t + is + w)[n + 8 + k] == w[k]);
    }
    let ks = seq![2, 3, 6 + n, 6 + n + 1, 6 + n + 2, 6 + n + 3, 6 + n + 4, 6 + n + 5, 6 + n + 6, 6 + n + 7, 6 + n + 8,
        6 + n + 9, 6 + n + 10, 6 + n + 11, 6 + n + 12, 6 + n + 13];
    assert forall|j: int| 0 <= j < ks.len() implies contains_text(exposition(ss, now), metric_line(
        st[#[trigger] ks[j]].0, st[ks[j]].1, st[ks[j]].2)) by {
        lemma_sample_in_exposition(ss, now, i, ks[j]);
    }
    assert(ks[0] == 2 && ks[1] == 3 && ks[2] == 6 + n && ks[3] == 6 + n + 1 && ks[4] == 6 + n + 2 && ks[5] == 6 + n + 3);
    assert(ks[6] == 6 + n + 4 && ks[7] == 6 + n + 5 && ks[8] == 6 + n + 6 && ks[9] == 6 + n + 7);
    assert(ks[10] == 6 + n + 8 && ks[11] == 6 + n + 9 && ks[12] == 6 + n + 10 && ks[13] == 6 + n + 11);
    assert(ks[14] == 6 + n + 12 && ks[15] == 6 + n + 13);
    assert(st[2] == status[2]);
    assert(st[3] == status[3]);
    assert(st[6 + n] == t[0]);
    assert(st[6 + n + 1] == t[1]);
    assert(st[6 + n + 2] == t[2]);
    assert(st[6 + n + 3] == t[3]);
    assert(st[6 + n + 4 + 0] == is[0]);
    assert(st[6 + n + 4 + 1] == is[1]);
    assert(st[6 + n + 4 + 2] == is[2]);
    assert(st[6 + n + 4 + 3] == is[3]);
    assert(st[6 + n + 8 + 0] == w[0]);
    assert(st[6 + n + 8 + 1] == w[1]);
    assert(st[6 + n + 8 + 2] == w[2]);
    assert(st[6 + n + 8 + 3] == w[3]);
    assert(st[6 + n + 8 + 4] == w[4]);
    assert(st[6 + n + 8 + 5] == w[5]);
}

/// Every target's samples in the exposition, under its labels: its info
/// (`1`), its interval, its scan and failure counts, whether a scan runs
/// (`1` or `0`) and for how long it has run at `now` (zero when none runs);
/// and for a target without a successful scan, a failed-scan sample (`0`) and
/// a staleness of `NaN`.
#[verifier::spinoff_prover]
#[verifier::rlimit(40)]
pub proof fn law_exposition_reports_status(ss: Seq<TargetSnapshot>, now: Duration, i: int)
    requires
        0 <= i < ss.len(),
    ensures
        contains_text(exposition(ss, now), metric_line("storage_harvester_target_info"@, target_labels(ss[i], None), "1"@)),
        contains_text(exposition(ss, now), metric_line("storage_harvester_target_interval_seconds"@, target_labels(ss[i], None),
            fixed6(ss[i].interval))),
        contains_text(exposition(ss, now), metric_line("storage_harvester_scan_count_total"@, target_labels(ss[i], None), dec(ss[i].scan_count as nat))),
        contains_text(exposition(ss, now), metric_line("storage_harvester_scan_errors_total"@, target_labels(ss[i], None), dec(ss[i].failure_count as nat))),
        contains_text(exposition(ss, now), metric_line("storage_harvester_scan_running"@, target_labels(ss[i], None),
            if ss[i].scan_running { "1"@ } else { "0"@ })),
        contains_text(exposition(ss, now), metric_line("storage_harvester_scan_running_seconds"@, target_labels(ss[i], None),
            fixed6(match ss[i].scan_started {
                Some(t) => now.saturating_sub_spec(t),
                None => Duration { secs: 0, nanos: 0 },
            }))),
        ss[i].last_success is None ==> contains_text(exposition(ss, now), metric_line("storage_harvester_scan_success"@,
            target_labels(ss[i], None), "0"@)),
        ss[i].last_success is None ==> contains_text(exposition(ss, now), metric_line("storage_harvester_target_stale_seconds"@,
            target_labels(ss[i], None), "NaN"@)),
{
    let s = ss[i];
    let st = snapshot_samples(s, now);
    let status = status_samples(s, now);
    assert forall|k: int| 0 <= k < 6 implies contains_text(exposition(ss, now), metric_line(
        #[trigger] status[k].0, status[k].1, status[k].2)) by {
        assert(st[k] == status[k]);
        lemma_sample_in_exposition(ss, now, i, k);
    }
    assert(status[0].0 == "storage_harvester_target_info"@);
    assert(status[1].0 == "storage_harvester_target_interval_seconds"@);
    assert(status[2].0 == "storage_harvester_scan_count_total"@);
    assert(status[3].0 == "storage_harvester_scan_errors_total"@);
    assert(status[4].0 == "storage_harvester_scan_running"@);
    assert(status[5].0 == "storage_harvester_scan_running_seconds"@);
    assert(dec(1) == "1"@ && dec(0) == "0"@) by {
        reveal_strlit("1");
        reveal_strlit("0");
        assert(dec(1) =~= "1"@);
        assert(dec(0) =~= "0"@);
    }
    if s.last_success is None {
        let u = unscanned_samples(s);
        assert(st == status + u);
        assert(st[6] == u[0]);
        assert(st[7] == u[1]);
        lemma_sample_in_exposition(ss, now, i, 6);
        lemma_sample_in_exposition(ss, now, i, 7);
    }
}

/// The samples of each reported node are a part of the nodes' text.
proof fn lemma_node_in_nodes_text(s: TargetSnapshot, nodes: Seq<NodeObservation>, backend: Seq<char>, j: int)
    requires
        0 <= j < nodes.len(),
    ensures
        contains_text(nodes_text(s, nodes, backend), node_sizes_text(s, nodes[j], backend, s.size_modes@)
            + node_entries_text(s, nodes[j])),
    decreases nodes.len(),
{
    let z = Seq::<char>::empty();
    let front = nodes_text(s, nodes.drop_last(), backend);
    let block = node_sizes_text(s, nodes.last(), backend, s.size_modes@) + node_entries_text(s, nodes.last());
    assert(nodes_text(s, nodes, backend) =~= front + block);
    if j == nodes.len() - 1 {
        lemma_contains_middle(front, block, z);
        assert(front + block + z =~= front + block);
    } else {
        lemma_node_in_nodes_text(s, nodes.drop_last(), backend, j);
        assert(nodes.drop_last()[j] == nodes[j]);
        lemma_contains_within(z, front, block, node_sizes_text(s, nodes[j], backend, s.size_modes@)
            + node_entries_text(s, nodes[j]));
        assert(z + front + block =~= front + block);
    }
}

/// The two size samples of a node for one of the size modes are a part of
/// the node's size text.
proof fn lemma_mode_in_sizes_text(s: TargetSnapshot, n: NodeObservation, backend: Seq<char>, modes: Seq<SizeMode>, k: int)
    requires
        0 <= k < modes.len(),
    ensures
        contains_text(node_sizes_text(s, n, backend, modes),
            metric_line("storage_harvester_own_size_bytes"@, size_labels(s, n, modes[k], backend),
                dec(node_size_spec(n, SizeComponent::Own, modes[k]) as nat))
            + metric_line("storage_harvester_children_size_bytes"@, size_labels(s, n, modes[k], backend),
                dec(node_size_spec(n, SizeComponent::Children, modes[k]) as nat))),
    decreases modes.len(),
{
    let z = Seq::<char>::empty();
    let m = modes.last();
    let l = size_labels(s, n, m, backend);
    let front = node_sizes_text(s, n, backend, modes.drop_last());
    let pair = metric_line("storage_harvester_own_size_bytes"@, l, dec(node_size_spec(n, SizeComponent::Own, m) as nat))
        + metric_line("storage_harvester_children_size_bytes"@, l, dec(node_size_spec(n, SizeComponent::Children, m) as nat));
    assert(node_sizes_text(s, n, backend, modes) =~= front + pair);
    if k == modes.len() - 1 {
        lemma_contains_middle(front, pair, z);
        assert(front + pair + z =~= front + pair);
    } else {
        lemma_mode_in_sizes_text(s, n, backend, modes.drop_last(), k);
        assert(modes.drop_last()[k] == modes[k]);
        let mk = modes[k];
        lemma_contains_within(z, front, pair,
            metric_line("storage_harvester_own_size_bytes"@, size_labels(s, n, mk, backend),
                dec(node_size_spec(n, SizeComponent::Own, mk) as nat))
            + metric_line("storage_harvester_children_size_bytes"@, size_labels(s, n, mk, backend),
                dec(node_size_spec(n, SizeComponent::Children, mk) as nat)));
        assert(z + front + pair =~= front + pair);
    }
}

proof fn lemma_front_of6(a: Seq<char>, b: Seq<char>, c: Seq<char>, d: Seq<char>, e: Seq<char>, f: Seq<char>)
    ensures
        a + b + c + d + e + f == a + (b + c + d + e + f),
{
    assert(a + b + c + d + e + f =~= a + (b + c + d + e + f));
}

proof fn lemma_front_of3(a: Seq<char>, b: Seq<char>, c: Seq<char>)
    ensures
        a + (b + c) == a + b + c,
{
    assert(a + (b + c) =~= a + b + c);
}

/// The nodes' text of the last successful scan is a part of the snapshot's text.
#[verifier::spinoff_prover]
proof fn lemma_nodes_in_snapshot(s: TargetSnapshot, now: Duration, r: ScanResult)
    requires
        s.last_success == Some(r),
    ensures
        contains_text(snapshot_text(s, now), nodes_text(s, r.observations@, r.backend@)),
{
    assert(snapshot_text(s, now) == status_text(s, now) + success_text(s, r, now)) by {
        reveal(snapshot_text);
    }
    let b = target_labels(s, None);
    let ns = nodes_text(s, r.observations@, r.backend@);
    let x1 = metric_line("storage_harvester_scan_success"@, b, success_value(s));
    let x2 = metric_line(
        "storage_harvester_scan_duration_seconds"@,
        b + ",backend=\""@ + escaped_label(r.backend@) + "\""@,
        fixed6(r.duration),
    );
    let x3 = metric_line("storage_harvester_scan_timestamp_seconds"@, b, dec(r.timestamp.secs as nat));
    let x4 = metric_line("storage_harvester_target_stale_seconds"@, b, fixed6(now.saturating_sub_spec(r.timestamp)));
    let x5 = summary_text(s, r);
    assert(success_text(s, r, now) == ns + x1 + x2 + x3 + x4 + x5);
    lemma_front_of6(ns, x1, x2, x3, x4, x5);
    let rest = x1 + x2 + x3 + x4 + x5;
    lemma_front_of3(status_text(s, now), ns, rest);
    lemma_contains_middle(status_text(s, now), ns, rest);
}

/// For a target whose last successful scan is `r`, the exposition holds, for
/// each node `r` reports and under that node's labels, its own entry counts
/// and its entry counts under child directories, each under its entry type
/// (`file`, `directory`, `symlink`), and for each size mode of the target its
/// own bytes and the bytes under its child directories measured that way
/// (allocated blocks, or apparent length).
#[verifier::spinoff_prover]
#[verifier::rlimit(40)]
pub proof fn law_exposition_reports_nodes(ss: Seq<TargetSnapshot>, now: Duration, i: int, r: ScanResult, j: int)
    requires
        0 <= i < ss.len(),
        ss[i].last_success == Some(r),
        0 <= j < r.observations@.len(),
    ensures
        contains_text(exposition(ss, now), metric_line("storage_harvester_own_entries"@,
            entry_labels(ss[i], r.observations@[j], "file"@), dec(r.observations@[j].file_count as nat))),
        contains_text(exposition(ss, now), metric_line("storage_harvester_own_entries"@,
            entry_labels(ss[i], r.observations@[j], "directory"@), dec(r.observations@[j].directory_count as nat))),
        contains_text(exposition(ss, now), metric_line("storage_harvester_own_entries"@,
            entry_labels(ss[i], r.observations@[j], "symlink"@), dec(r.observations@[j].symlink_count as nat))),
        contains_text(exposition(ss, now), metric_line("storage_harvester_children_entries"@,
            entry_labels(ss[i], r.observations@[j], "file"@), dec(r.observations@[j].children_file_count as nat))),
        contains_text(exposition(ss, now), metric_line("storage_harvester_children_entries"@,
            entry_labels(ss[i], r.observations@[j], "directory"@), dec(r.observations@[j].children_directory_count as nat))),
        contains_text(exposition(ss, now), metric_line("storage_harvester_children_entries"@,
            entry_labels(ss[i], r.observations@[j], "symlink"@), dec(r.observations@[j].children_symlink_count as nat))),
        forall|k: int| 0 <= k < ss[i].size_modes@.len() ==> contains_text(exposition(ss, now), metric_line(
            "storage_harvester_own_size_bytes"@,
            size_labels(ss[i], r.observations@[j], #[trigger] ss[i].size_modes@[k], r.backend@),
            dec((if ss[i].size_modes@[k] == SizeMode::Blocks { r.observations@[j].own_blocks } else { r.observations@[j].own_apparent }) as nat),
        )),
        forall|k: int| 0 <= k < ss[i].size_modes@.len() ==> contains_text(exposition(ss, now), metric_line(
            "storage_harvester_children_size_bytes"@,
            size_labels(ss[i], r.observations@[j], #[trigger] ss[i].size_modes@[k], r.backend@),
            dec((if ss[i].size_modes@[k] == SizeMode::Blocks { r.observations@[j].children_blocks } else { r.observations@[j].children_apparent }) as nat),
        )),
{
    let s = ss[i];
    let n = r.observations@[j];
    let sizes = node_sizes_text(s, n, r.backend@, s.size_modes@);
    let entries = node_entries_text(s, n);
    let z = Seq::<char>::empty();
    lemma_nodes_in_snapshot(s, now, r);
    lemma_node_in_nodes_text(s, r.observations@, r.backend@, j);
    lemma_contains_trans(snapshot_text(s, now), nodes_text(s, r.observations@, r.backend@), sizes + entries);
    lemma_contains_middle(sizes, entries, z);
    assert(sizes + entries + z =~= sizes + entries);
    lemma_contains_trans(snapshot_text(s, now), sizes + entries, entries);
    lemma_contains_middle(z, sizes, entries);
    assert(z + sizes + entries =~= sizes + entries);
    lemma_contains_trans(snapshot_text(s, now), sizes + entries, sizes);
    let l1 = metric_line("storage_harvester_own_entries"@, entry_labels(s, n, "file"@), dec(n.file_count as nat));
    let l2 = metric_line("storage_harvester_own_entries"@, entry_labels(s, n, "directory"@), dec(n.directory_count as nat));
    let l3 = metric_line("storage_harvester_own_entries"@, entry_labels(s, n, "symlink"@), dec(n.symlink_count as nat));
    let l4 = metric_line("storage_harvester_children_entries"@, entry_labels(s, n, "file"@), dec(n.children_file_count as nat));
    let l5 = metric_line("storage_harvester_children_entries"@, entry_labels(s, n, "directory"@), dec(n.children_directory_count as nat));
    let l6 = metric_line("storage_harvester_children_entries"@, entry_labels(s, n, "symlink"@), dec(n.children_symlink_count as nat));
    assert(entries == l1 + l2 + l3 + l4 + l5 + l6);
    lemma_contains_each6(l1, l2, l3, l4, l5, l6);
    lemma_contains_trans(snapshot_text(s, now), entries, l1);
    lemma_contains_trans(snapshot_text(s, now), entries, l2);
    lemma_contains_trans(snapshot_text(s, now), entries, l3);
    lemma_contains_trans(snapshot_text(s, now), entries, l4);
    lemma_contains_trans(snapshot_text(s, now), entries, l5);
    lemma_contains_trans(snapshot_text(s, now), entries, l6);
    lemma_in_exposition(ss, now, i, l1);
    lemma_in_exposition(ss, now, i, l2);
    lemma_in_exposition(ss, now, i, l3);
    lemma_in_exposition(ss, now, i, l4);
    lemma_in_exposition(ss, now, i, l5);
    lemma_in_exposition(ss, now, i, l6);
    assert forall|k: int| 0 <= k < s.size_modes@.len() implies contains_text(exposition(ss, now), metric_line(
        "storage_harvester_own_size_bytes"@,
        size_labels(s, n, #[trigger] s.size_modes@[k], r.backend@),
        dec((if s.size_modes@[k] == SizeMode::Blocks { n.own_blocks } else { n.own_apparent }) as nat),
    )) && contains_text(exposition(ss, now), metric_line(
        "storage_harvester_children_size_bytes"@,
        size_labels(s, n, s.size_modes@[k], r.backend@),
        dec((if s.size_modes@[k] == SizeMode::Blocks { n.children_blocks } else { n.children_apparent }) as nat),
    )) by {
        let m = s.size_modes@[k];
        let l = size_labels(s, n, m, r.backend@);
        let own = metric_line("storage_harvester_own_size_bytes"@, l, dec(node_size_spec(n, SizeComponent::Own, m) as nat));
        let kids = metric_line("storage_harvester_children_size_bytes"@, l, dec(node_size_spec(n, SizeComponent::Children, m) as nat));
        lemma_mode_in_sizes_text(s, n, r.backend@, s.size_modes@, k);
        lemma_contains_trans(snapshot_text(s, now), sizes, own + kids);
        lemma_contains_middle(z, own, kids);
        assert(z + own + kids =~= own + kids);
        lemma_contains_middle(own, kids, z);
        assert(own + kids + z =~= own + kids);
        lemma_contains_trans(snapshot_text(s, now), own + kids, own);
        lemma_contains_trans(snapshot_text(s, now), own + kids, kids);
        lemma_in_exposition(ss, now, i, own);
        lemma_in_exposition(ss, now, i, kids);
    }
}

#[verifier::spinoff_prover]
#[verifier::rlimit(40)]
fn write_snapshot(out: &mut String, snapshot: &TargetSnapshot, now: &Duration)
    requires
        snapshot.wf(),
        now.wf(),
    ensures
        final(out)@ == old(out)@ + snapshot_text(*snapshot, *now),
{
    let ghost start = out@;
    let base = labels(snapshot, None);
    write_status(out, snapshot, &base, now);
    match &snapshot.last_success {
        Some(result) => {
            write_success(out, snapshot, result, &base, now);
        },
        None => {
            push_metric(out, "storage_harvester_scan_success", base.as_str(), "0");
            push_metric(out, "storage_harvester_target_stale_seconds", base.as_str(), "NaN");
        },
    }
    proof {
        reveal(snapshot_text);
    }
    assert(out@ =~= start + snapshot_text(*snapshot, *now));
}

/// Whether the exposition can be rendered from these snapshots: each is well
/// formed.
pub fn exposition_renderable(snapshots: &[TargetSnapshot]) -> (b: bool)
    ensures
        b == forall|i: int| 0 <= i < snapshots@.len() ==> (#[trigger] snapshots@[i]).wf(),
{
    let mut i: usize = 0;
    while i < snapshots.len()
        invariant
            i <= snapshots@.len(),
            forall|k: int| 0 <= k < i ==> (#[trigger] snapshots@[k]).wf(),
        decreases snapshots@.len() - i,
    {
        if !snapshots[i].is_well_formed() {
            return false;
        }
        i = i + 1;
    }
    true
}

/// The exposition of the given snapshots as seen at `now`.
#[verifier::spinoff_prover]
#[verifier::rlimit(40)]
pub fn render_at(snapshots: &[TargetSnapshot], now: &Duration) -> (out: String)
    requires
        now.wf(),
        forall|i: int| 0 <= i < snapshots@.len() ==> (#[trigger] snapshots@[i]).wf(),
    ensures
        out@ == exposition(snapshots@, *now),
{
    let mut out = String::new();
    write_headers(&mut out);
    write_build_info(&mut out);
    let ghost start = out@;
    let mut i: usize = 0;
    while i < snapshots.len()
        invariant
            i <= snapshots@.len(),
            now.wf(),
            forall|k: int| 0 <= k < snapshots@.len() ==> (#[trigger] snapshots@[k]).wf(),
            out@ == start + snapshots_text(snapshots@.take(i as int), *now),
        decreases snapshots@.len() - i,
    {
        write_snapshot(&mut out, &snapshots[i], now);
        proof {
            let ss = snapshots@.take(i + 1);
            assert(ss.drop_last() =~= snapshots@.take(i as int));
            assert(out@ =~= start + snapshots_text(ss, *now));
        }
        i = i + 1;
    }
    assert(snapshots@.take(i as int) =~= snapshots@);
    assert(out@ =~= exposition(snapshots@, *now));
    out
}

/// The exposition of the given snapshots, as seen now.
pub fn render(snapshots: &[TargetSnapshot]) -> (out: String)
    requires
        forall|i: int| 0 <= i < snapshots@.len() ==> (#[trigger] snapshots@[i]).wf(),
    ensures
        exists|now: Duration| now.wf() && out@ == exposition(snapshots@, now),
{
    let now = current_time();
    render_at(snapshots, &now)
}

} // verus!
