//! The status page: HTML built from the cached snapshots only.

use vstd::prelude::*;
use vstd::string::*;
use crate::cache::TargetSnapshot;
use crate::config::SizeMode;
use crate::exporter::prometheus::{SizeComponent, node_size_spec, VERSION};
use crate::scanner::{NodeObservation, ScanResult};
use crate::text::{chars_of, contains_text, lemma_flat_map_front, lemma_contains_each6, lemma_contains_middle, lemma_contains_within, dec, dec_padded, decimal, flat_map, push_char, push_decimal, push_decimal_padded, push_str, text_lt, text_less, lemma_text_lt_asymmetric, lemma_text_lt_irreflexive, lemma_text_lt_transitive};
use crate::time::{current_time, Duration};

verus! {

/// The HTML form of one character of text.
pub open spec fn escape_html_char(c: char) -> Seq<char> {
    if c == '&' {
        "&amp;"@
    } else if c == '<' {
        "&lt;"@
    } else if c == '>' {
        "&gt;"@
    } else if c == '"' {
        "&quot;"@
    } else if c == '\'' {
        "&#39;"@
    } else {
        seq![c]
    }
}

/// Text with `&`, `<`, `>`, `"` and `'` written as HTML character references.
pub open spec fn escaped_html(s: Seq<char>) -> Seq<char> {
    flat_map(s, |c: char| escape_html_char(c))
}

/// Whether `t` begins with one of the five character references that
/// `escape_html` writes.
pub open spec fn starts_entity(t: Seq<char>) -> bool {
    ||| (t.len() >= 5 && t.take(5) == "&amp;"@)
    ||| (t.len() >= 4 && t.take(4) == "&lt;"@)
    ||| (t.len() >= 4 && t.take(4) == "&gt;"@)
    ||| (t.len() >= 6 && t.take(6) == "&quot;"@)
    ||| (t.len() >= 5 && t.take(5) == "&#39;"@)
}

/// HTML text decoded in one pass from the left: each of the five character
/// references becomes its character; every other character stays.
pub open spec fn unescaped_html(t: Seq<char>) -> Seq<char>
    decreases t.len(),
{
    if t.len() == 0 {
        t
    } else if t.len() >= 5 && t.take(5) == "&amp;"@ {
        seq!['&'] + unescaped_html(t.skip(5))
    } else if t.len() >= 4 && t.take(4) == "&lt;"@ {
        seq!['<'] + unescaped_html(t.skip(4))
    } else if t.len() >= 4 && t.take(4) == "&gt;"@ {
        seq!['>'] + unescaped_html(t.skip(4))
    } else if t.len() >= 6 && t.take(6) == "&quot;"@ {
        seq!['"'] + unescaped_html(t.skip(6))
    } else if t.len() >= 5 && t.take(5) == "&#39;"@ {
        seq!['\''] + unescaped_html(t.skip(5))
    } else {
        seq![t[0]] + unescaped_html(t.drop_first())
    }
}

proof fn lemma_entity_chars(c: char)
    ensures
        forall|k: int| 0 <= k < escape_html_char(c).len() ==> {
            let x = #[trigger] escape_html_char(c)[k];
            x != '<' && x != '>' && x != '"' && x != '\'' && (x == '&' ==> k == 0)
        },
        escape_html_char(c).len() >= 1,
        escape_html_char(c)[0] == '&' <==> (c == '&' || c == '<' || c == '>' || c == '"' || c == '\''),
{
    reveal_strlit("&amp;");
    reveal_strlit("&lt;");
    reveal_strlit("&gt;");
    reveal_strlit("&quot;");
    reveal_strlit("&#39;");
}

proof fn lemma_unescape_one(c: char, rest: Seq<char>)
    ensures
        unescaped_html(escape_html_char(c) + rest) == seq![c] + unescaped_html(rest),
        (c == '&' || c == '<' || c == '>' || c == '"' || c == '\'') ==> starts_entity(escape_html_char(c) + rest),
{
    reveal_strlit("&amp;");
    reveal_strlit("&lt;");
    reveal_strlit("&gt;");
    reveal_strlit("&quot;");
    reveal_strlit("&#39;");
    let e = escape_html_char(c);
    let t = e + rest;
    assert(e.len() >= 1);
    assert(forall|k: int| 1 <= k <= t.len() ==> #[trigger] t.take(k)[0] == t[0]);
    assert(forall|k: int| 2 <= k <= t.len() ==> #[trigger] t.take(k)[1] == t[1]);
    if c == '&' || c == '<' || c == '>' || c == '"' || c == '\'' {
        assert(t.take(e.len() as int) =~= e);
        assert(t.skip(e.len() as int) =~= rest);
        assert(t[1] == e[1]);
        if c != '&' && t.len() >= 5 {
            assert(t.take(5)[1] != "&amp;"@[1]);
        }
        if c != '<' && c != '&' && t.len() >= 4 {
            assert(t.take(4)[1] != "&lt;"@[1]);
        }
        if c != '>' && c != '<' && c != '&' && t.len() >= 4 {
            assert(t.take(4)[1] != "&gt;"@[1]);
        }
        if c == '\'' && t.len() >= 6 {
            assert(t.take(6)[1] != "&quot;"@[1]);
        }
        assert(unescaped_html(t) == seq![c] + unescaped_html(rest));
    } else {
        assert(t[0] == c);
        assert(t.drop_first() =~= rest);
        if t.len() >= 5 {
            assert(t.take(5)[0] != "&amp;"@[0]);
            assert(t.take(5)[0] != "&#39;"@[0]);
        }
        if t.len() >= 4 {
            assert(t.take(4)[0] != "&lt;"@[0]);
            assert(t.take(4)[0] != "&gt;"@[0]);
        }
        if t.len() >= 6 {
            assert(t.take(6)[0] != "&quot;"@[0]);
        }
        assert(unescaped_html(t) == seq![c] + unescaped_html(rest));
    }
}

/// `escape_html` leaves no raw `<`, `>`, `"` or `'`; every `&` it writes
/// begins one of its five character references; and decoding those
/// references in one pass from the left gives back the text.
pub proof fn law_escape_html(v: Seq<char>)
    ensures
        forall|i: int| 0 <= i < escaped_html(v).len() ==> {
            let x = #[trigger] escaped_html(v)[i];
            x != '<' && x != '>' && x != '"' && x != '\''
        },
        forall|i: int| 0 <= i < escaped_html(v).len() && #[trigger] escaped_html(v)[i] == '&' ==> starts_entity(escaped_html(v).skip(i)),
        unescaped_html(escaped_html(v)) == v,
    decreases v.len(),
{
    let f = |c: char| escape_html_char(c);
    if v.len() == 0 {
        assert(unescaped_html(escaped_html(v)) =~= v);
    } else {
        let c = v[0];
        let rest = v.drop_first();
        law_escape_html(rest);
        lemma_flat_map_front(v, f);
        let head = escape_html_char(c);
        let tail = escaped_html(rest);
        let e = escaped_html(v);
        assert(e == head + tail);
        lemma_entity_chars(c);
        lemma_unescape_one(c, tail);
        assert(seq![c] + rest =~= v);
        assert forall|i: int| 0 <= i < e.len() implies {
            let x = #[trigger] e[i];
            x != '<' && x != '>' && x != '"' && x != '\''
        } by {
            if i < head.len() {
                assert(e[i] == head[i]);
            } else {
                assert(e[i] == tail[i - head.len()]);
            }
        }
        assert forall|i: int| 0 <= i < e.len() && #[trigger] e[i] == '&' implies starts_entity(e.skip(i)) by {
            if i < head.len() {
                assert(e[i] == head[i]);
                assert(i == 0);
                assert(e.skip(0) =~= e);
            } else {
                assert(e[i] == tail[i - head.len()]);
                assert(e.skip(i) =~= tail.skip(i - head.len()));
            }
        }
    }
}

/// The readiness answer: status 200 and `ready` once every target has
/// finished a scan, otherwise 503 and `initial scans pending`.
pub fn readiness_reply(ready: bool) -> (r: (u16, &'static str))
    ensures
        ready ==> r.0 == 200 && r.1@ == "ready\n"@,
        !ready ==> r.0 == 503 && r.1@ == "initial scans pending\n"@,
{
    if ready {
        (200, "ready\n")
    } else {
        (503, "initial scans pending\n")
    }
}

/// The health answer: status 200 and `ok`.
pub fn health_reply() -> (r: (u16, &'static str))
    ensures
        r.0 == 200 && r.1@ == "ok\n"@,
{
    (200, "ok\n")
}

pub fn escape_html(value: &str) -> (r: String)
    ensures
        r@ == escaped_html(value@),
{
    let v = chars_of(value);
    let mut out = String::new();
    let mut i: usize = 0;
    while i < v.len()
        invariant
            v@ == value@,
            i <= v.len(),
            out@ == escaped_html(v@.take(i as int)),
        decreases v.len() - i,
    {
        let c = v[i];
        if c == '&' {
            push_str(&mut out, "&amp;");
        } else if c == '<' {
            push_str(&mut out, "&lt;");
        } else if c == '>' {
            push_str(&mut out, "&gt;");
        } else if c == '"' {
            push_str(&mut out, "&quot;");
        } else if c == '\'' {
            push_str(&mut out, "&#39;");
        } else {
            push_char(&mut out, c);
        }
        assert(v@.take(i + 1).drop_last() =~= v@.take(i as int));
        assert(out@ =~= escaped_html(v@.take(i + 1)));
        i = i + 1;
    }
    assert(v@.take(i as int) =~= v@);
    out
}

/// `1024` to the power `u`.
pub open spec fn pow1024(u: nat) -> nat
    decreases u,
{
    if u == 0 {
        1
    } else {
        1024 * pow1024((u - 1) as nat)
    }
}

/// The unit a size is shown in: the largest of B, KiB, MiB, GiB, TiB that
/// the size reaches, found by dividing by 1024 while the size is at least
/// 1024 and a larger unit is left.
pub open spec fn byte_unit_from(bytes: nat, u: nat) -> nat
    decreases 4 - u,
{
    if u < 4 && bytes >= pow1024(u + 1) {
        byte_unit_from(bytes, u + 1)
    } else {
        u
    }
}

pub open spec fn unit_name(u: nat) -> Seq<char> {
    if u == 0 {
        "B"@
    } else if u == 1 {
        "KiB"@
    } else if u == 2 {
        "MiB"@
    } else if u == 3 {
        "GiB"@
    } else {
        "TiB"@
    }
}

/// `bytes / den` in tenths, rounded to nearest with ties to even.
pub open spec fn tenths(bytes: nat, den: nat) -> nat {
    let q = (10 * bytes) / den;
    let r = (10 * bytes) % den;
    if 2 * r > den || (2 * r == den && q % 2 == 1) {
        q + 1
    } else {
        q
    }
}

/// A size in bytes: plain bytes below 1 KiB, otherwise one decimal of the
/// largest unit reached.
pub open spec fn bytes_text(bytes: nat) -> Seq<char> {
    let u = byte_unit_from(bytes, 0);
    if u == 0 {
        dec(bytes) + " B"@
    } else {
        let t = tenths(bytes, pow1024(u));
        dec(t / 10) + "."@ + dec_padded(t % 10, 1) + " "@ + unit_name(u)
    }
}

pub fn format_bytes(bytes: u64) -> (s: String)
    ensures
        s@ == bytes_text(bytes as nat),
{
    let mut unit: u32 = 0;
    let mut den: u128 = 1;
    proof {
        reveal_with_fuel(pow1024, 6);
        assert(pow1024(1) == 1024);
        assert(pow1024(2) == 1024 * 1024);
        assert(pow1024(3) == 1024 * 1024 * 1024);
        assert(pow1024(4) == 1024 * 1024 * 1024 * 1024);
    }
    while unit < 4 && bytes as u128 >= den * 1024
        invariant
            unit <= 4,
            den == pow1024(unit as nat),
            den == (if unit == 0 { 1 } else if unit == 1 { 1024 } else if unit == 2 { 1024 * 1024 } else if unit == 3 {
                1024 * 1024 * 1024
            } else {
                1024 * 1024 * 1024 * 1024
            }),
            pow1024(1) == 1024,
            pow1024(2) == 1024 * 1024,
            pow1024(3) == 1024 * 1024 * 1024,
            pow1024(4) == 1024 * 1024 * 1024 * 1024,
            byte_unit_from(bytes as nat, 0) == byte_unit_from(bytes as nat, unit as nat),
        decreases 4 - unit,
    {
        den = den * 1024;
        unit = unit + 1;
    }
    proof {
        if unit < 4 {
            assert(pow1024((unit + 1) as nat) == 1024 * pow1024(unit as nat));
        }
        assert(byte_unit_from(bytes as nat, unit as nat) == unit);
    }
    let mut s = String::new();
    if unit == 0 {
        push_decimal(&mut s, bytes as u128);
        push_str(&mut s, " B");
        return s;
    }
    let scaled: u128 = 10 * bytes as u128;
    let q = scaled / den;
    let r = scaled % den;
    let t = if 2 * r > den || (2 * r == den && q % 2 == 1) { q + 1 } else { q };
    push_decimal(&mut s, t / 10);
    push_str(&mut s, ".");
    push_decimal_padded(&mut s, t % 10, 1);
    push_str(&mut s, " ");
    let name = if unit == 1 {
        "KiB"
    } else if unit == 2 {
        "MiB"
    } else if unit == 3 {
        "GiB"
    } else {
        "TiB"
    };
    push_str(&mut s, name);
    s
}

/// A span for people: days and hours, hours and minutes, minutes and
/// seconds, seconds, or milliseconds below one second.
pub open spec fn duration_text(d: Duration) -> Seq<char> {
    let s = d.secs as nat;
    if s >= 86_400 {
        dec(s / 86_400) + "d "@ + dec(s % 86_400 / 3_600) + "h"@
    } else if s >= 3_600 {
        dec(s / 3_600) + "h "@ + dec(s % 3_600 / 60) + "m"@
    } else if s >= 60 {
        dec(s / 60) + "m "@ + dec(s % 60) + "s"@
    } else if s > 0 {
        dec(s) + "s"@
    } else {
        dec(d.millis_spec() as nat) + "ms"@
    }
}

pub fn format_duration(duration: &Duration) -> (r: String)
    ensures
        r@ == duration_text(*duration),
{
    let seconds = duration.as_secs();
    let mut out = String::new();
    if seconds >= 86_400 {
        push_decimal(&mut out, (seconds / 86_400) as u128);
        push_str(&mut out, "d ");
        push_decimal(&mut out, (seconds % 86_400 / 3_600) as u128);
        push_str(&mut out, "h");
    } else if seconds >= 3_600 {
        push_decimal(&mut out, (seconds / 3_600) as u128);
        push_str(&mut out, "h ");
        push_decimal(&mut out, (seconds % 3_600 / 60) as u128);
        push_str(&mut out, "m");
    } else if seconds >= 60 {
        push_decimal(&mut out, (seconds / 60) as u128);
        push_str(&mut out, "m ");
        push_decimal(&mut out, (seconds % 60) as u128);
        push_str(&mut out, "s");
    } else if seconds > 0 {
        push_decimal(&mut out, seconds as u128);
        push_str(&mut out, "s");
    } else {
        push_decimal(&mut out, duration.as_millis());
        push_str(&mut out, "ms");
    }
    out
}

/// Seconds since the Unix epoch of a point in time.
pub fn unix_seconds(timestamp: &Duration) -> (s: u64)
    ensures
        s == timestamp.secs,
{
    timestamp.as_secs()
}

/// How long ago `timestamp` was at `now`; a time after `now` is shown as its
/// Unix seconds.
pub open spec fn age_text(timestamp: Duration, now: Duration) -> Seq<char> {
    if timestamp.total_nanos() <= now.total_nanos() {
        duration_text(now.saturating_sub_spec(timestamp)) + " ago"@
    } else {
        dec(timestamp.secs as nat)
    }
}

pub fn format_age_at(timestamp: &Duration, now: &Duration) -> (r: String)
    requires
        timestamp.wf(),
        now.wf(),
    ensures
        r@ == age_text(*timestamp, *now),
{
    if timestamp.secs < now.secs || (timestamp.secs == now.secs && timestamp.nanos <= now.nanos) {
        let age = now.saturating_sub(timestamp);
        let mut r = format_duration(&age);
        push_str(&mut r, " ago");
        r
    } else {
        decimal(unix_seconds(timestamp) as u128)
    }
}

/// How long ago `timestamp` was, now.
pub fn format_age(timestamp: &Duration) -> (r: String)
    requires
        timestamp.wf(),
    ensures
        exists|now: Duration| now.wf() && r@ == age_text(*timestamp, now),
{
    let now = current_time();
    format_age_at(timestamp, &now)
}

/// The state of a target as the page shows it.
#[derive(Debug, Clone, Copy, PartialEq, Eq, Structural)]
pub enum TargetStatus {
    Running,
    Succeeded,
    Failed,
    Pending,
}

pub open spec fn status_of(s: TargetSnapshot) -> TargetStatus {
    if s.scan_running {
        TargetStatus::Running
    } else if s.last_error is Some {
        TargetStatus::Failed
    } else if s.last_success is Some {
        TargetStatus::Succeeded
    } else {
        TargetStatus::Pending
    }
}

/// A running scan shows first; then a recorded error; then a success.
pub fn target_status(snapshot: &TargetSnapshot) -> (s: TargetStatus)
    ensures
        s == status_of(*snapshot),
{
    if snapshot.scan_running {
        TargetStatus::Running
    } else if snapshot.last_error.is_some() {
        TargetStatus::Failed
    } else if snapshot.last_success.is_some() {
        TargetStatus::Succeeded
    } else {
        TargetStatus::Pending
    }
}

pub open spec fn badge_text(status: TargetStatus) -> Seq<char> {
    match status {
        TargetStatus::Running => "<span class=\"badge running\">running</span>"@,
        TargetStatus::Succeeded => "<span class=\"badge ok\">ok</span>"@,
        TargetStatus::Failed => "<span class=\"badge failed\">failed</span>"@,
        TargetStatus::Pending => "<span class=\"badge pending\">pending</span>"@,
    }
}

pub fn status_badge(status: TargetStatus) -> (s: &'static str)
    ensures
        s@ == badge_text(status),
{
    match status {
        TargetStatus::Running => "<span class=\"badge running\">running</span>",
        TargetStatus::Succeeded => "<span class=\"badge ok\">ok</span>",
        TargetStatus::Failed => "<span class=\"badge failed\">failed</span>",
        TargetStatus::Pending => "<span class=\"badge pending\">pending</span>",
    }
}

/// Sizes are shown in blocks when blocks are among the size modes, otherwise
/// as apparent sizes.
pub open spec fn preferred_mode(modes: Seq<SizeMode>) -> SizeMode {
    if modes.contains(SizeMode::Blocks) {
        SizeMode::Blocks
    } else {
        SizeMode::Apparent
    }
}

pub fn preferred_size_mode(size_modes: &[SizeMode]) -> (m: SizeMode)
    ensures
        m == preferred_mode(size_modes@),
{
    let mut i: usize = 0;
    while i < size_modes.len()
        invariant
            i <= size_modes@.len(),
            forall|k: int| 0 <= k < i ==> size_modes@[k] != SizeMode::Blocks,
        decreases size_modes@.len() - i,
    {
        if size_modes[i] == SizeMode::Blocks {
            assert(size_modes@.contains(SizeMode::Blocks)) by {
                assert(size_modes@[i as int] == SizeMode::Blocks);
            }
            return SizeMode::Blocks;
        }
        i = i + 1;
    }
    SizeMode::Apparent
}

/// The size of one part of a node, measured one way.
pub fn node_size(node: &NodeObservation, component: SizeComponent, mode: SizeMode) -> (v: u64)
    ensures
        v == node_size_spec(*node, component, mode),
{
    match (component, mode) {
        (SizeComponent::Own, SizeMode::Blocks) => node.own_blocks,
        (SizeComponent::Children, SizeMode::Blocks) => node.children_blocks,
        (SizeComponent::Own, SizeMode::Apparent) => node.own_apparent,
        (SizeComponent::Children, SizeMode::Apparent) => node.children_apparent,
    }
}

/// The configured labels of a target as `key: value` chips, in order.
pub open spec fn labels_html(labels: Seq<(String, String)>) -> Seq<char>
    decreases labels.len(),
{
    if labels.len() == 0 {
        seq![]
    } else {
        labels_html(labels.drop_last()) + "<span>"@ + escaped_html(labels.last().0@) + ": "@
            + escaped_html(labels.last().1@) + "</span>"@
    }
}

#[verifier::spinoff_prover]
#[verifier::rlimit(40)]
pub fn render_labels(snapshot: &TargetSnapshot) -> (r: String)
    ensures
        r@ == labels_html(snapshot.labels@),
{
    let mut out = String::new();
    let mut i: usize = 0;
    while i < snapshot.labels.len()
        invariant
            i <= snapshot.labels@.len(),
            out@ == labels_html(snapshot.labels@.take(i as int)),
        decreases snapshot.labels@.len() - i,
    {
        let (key, value) = &snapshot.labels[i];
        push_str(&mut out, "<span>");
        let k = escape_html(key.as_str());
        push_str(&mut out, k.as_str());
        push_str(&mut out, ": ");
        let v = escape_html(value.as_str());
        push_str(&mut out, v.as_str());
        push_str(&mut out, "</span>");
        proof {
            let ls = snapshot.labels@.take(i + 1);
            assert(ls.drop_last() =~= snapshot.labels@.take(i as int));
            assert(ls.last() == (*key, *value));
            assert(out@ =~= labels_html(ls));
        }
        i = i + 1;
    }
    assert(snapshot.labels@.take(i as int) =~= snapshot.labels@);
    out
}

/// Node `a` is listed before node `b`: by path, then by depth.
pub open spec fn node_before(a: NodeObservation, b: NodeObservation) -> bool {
    text_lt(a.path@, b.path@) || (a.path@ == b.path@ && a.depth < b.depth)
}

/// Where `x` goes among `t`: before the first node that it is listed before.
pub open spec fn insert_position(t: Seq<NodeObservation>, x: NodeObservation) -> nat
    decreases t.len(),
{
    if t.len() == 0 {
        0
    } else if node_before(x, t[0]) {
        0
    } else {
        1 + insert_position(t.drop_first(), x)
    }
}

/// The nodes in listing order; nodes that compare equal keep their order.
pub open spec fn sorted_nodes(s: Seq<NodeObservation>) -> Seq<NodeObservation>
    decreases s.len(),
{
    if s.len() == 0 {
        seq![]
    } else {
        let t = sorted_nodes(s.drop_last());
        t.insert(insert_position(t, s.last()) as int, s.last())
    }
}

proof fn lemma_insert_position(t: Seq<NodeObservation>, x: NodeObservation, p: int)
    requires
        0 <= p <= t.len(),
        forall|k: int| 0 <= k < p ==> !node_before(x, #[trigger] t[k]),
        p == t.len() || node_before(x, t[p]),
    ensures
        insert_position(t, x) == p,
    decreases p,
{
    if p > 0 {
        assert(!node_before(x, t[0]));
        assert forall|k: int| 0 <= k < p - 1 implies !node_before(x, #[trigger] t.drop_first()[k]) by {
            assert(t.drop_first()[k] == t[k + 1]);
        }
        lemma_insert_position(t.drop_first(), x, p - 1);
    }
}

fn node_listed_before(a: &NodeObservation, b: &NodeObservation) -> (r: bool)
    ensures
        r == node_before(*a, *b),
{
    text_less(a.path.as_str(), b.path.as_str())
        || (crate::text::same_text(a.path.as_str(), b.path.as_str()) && a.depth < b.depth)
}

/// Copies of the nodes in listing order.
pub fn sort_nodes(nodes: &Vec<NodeObservation>) -> (r: Vec<NodeObservation>)
    ensures
        r@ == sorted_nodes(nodes@),
{
    let mut r: Vec<NodeObservation> = Vec::new();
    let mut i: usize = 0;
    while i < nodes.len()
        invariant
            i <= nodes@.len(),
            r@ == sorted_nodes(nodes@.take(i as int)),
        decreases nodes@.len() - i,
    {
        let x = nodes[i].copy();
        let mut p: usize = 0;
        while p < r.len() && !node_listed_before(&x, &r[p])
            invariant
                p <= r@.len(),
                forall|k: int| 0 <= k < p ==> !node_before(x, #[trigger] r@[k]),
            decreases r@.len() - p,
        {
            p = p + 1;
        }
        proof {
            lemma_insert_position(r@, x, p as int);
            assert(nodes@.take(i + 1).drop_last() =~= nodes@.take(i as int));
        }
        r.insert(p, x);
        i = i + 1;
    }
    assert(nodes@.take(i as int) =~= nodes@);
    r
}

/// Both parts of a node's size and its entry totals fit in 64 bits.
pub open spec fn node_sums_fit(n: NodeObservation, modes: Seq<SizeMode>) -> bool {
    let m = preferred_mode(modes);
    &&& node_size_spec(n, SizeComponent::Own, m) + node_size_spec(n, SizeComponent::Children, m) <= u64::MAX
    &&& n.file_count + n.children_file_count <= u64::MAX
    &&& n.directory_count + n.children_directory_count <= u64::MAX
    &&& n.symlink_count + n.children_symlink_count <= u64::MAX
}

/// `{files} files / {dirs} dirs / {links} links`
pub open spec fn counts_text(files: nat, dirs: nat, links: nat, tail: Seq<char>) -> Seq<char> {
    dec(files) + " files / "@ + dec(dirs) + " dirs / "@ + dec(links) + tail
}

/// The path, parent and depth cells of a node's row.
pub open spec fn node_row_head(n: NodeObservation) -> Seq<char> {
    "<tr style=\"--depth:"@ + dec(n.depth as nat) + "\"><td><code>"@ + escaped_html(n.path@)
        + "</code><div class=\"muted small\">parent: "@
        + escaped_html(if n.parent@.len() == 0 { "-"@ } else { n.parent@ }) + "</div></td><td>"@
        + dec(n.depth as nat) + "</td><td>"@
}

/// The own, children and total size cells of a node's row.
pub open spec fn node_row_sizes(own: nat, children: nat) -> Seq<char> {
    escaped_html(bytes_text(own)) + "</td><td>"@ + escaped_html(bytes_text(children)) + "</td><td><strong>"@
        + escaped_html(bytes_text(own + children)) + "</strong></td><td>"@
}

/// One row of a target's tree table.
pub open spec fn node_row_text(n: NodeObservation, modes: Seq<SizeMode>) -> Seq<char> {
    let m = preferred_mode(modes);
    node_row_head(n) + node_row_sizes(
        node_size_spec(n, SizeComponent::Own, m) as nat,
        node_size_spec(n, SizeComponent::Children, m) as nat,
    ) + counts_text(n.file_count as nat, n.directory_count as nat, n.symlink_count as nat, " links</td><td>"@)
        + counts_text(
            (n.file_count + n.children_file_count) as nat,
            (n.directory_count + n.children_directory_count) as nat,
            (n.symlink_count + n.children_symlink_count) as nat,
            " links</td></tr>"@,
        )
}

fn push_escaped(out: &mut String, text: &str)
    ensures
        final(out)@ == old(out)@ + escaped_html(text@),
{
    let e = escape_html(text);
    push_str(out, e.as_str());
}

fn push_counts(out: &mut String, files: u64, dirs: u64, links: u64, tail: &str)
    ensures
        final(out)@ == old(out)@ + counts_text(files as nat, dirs as nat, links as nat, tail@),
{
    let ghost start = out@;
    push_decimal(out, files as u128);
    push_str(out, " files / ");
    push_decimal(out, dirs as u128);
    push_str(out, " dirs / ");
    push_decimal(out, links as u128);
    push_str(out, tail);
    assert(out@ =~= start + counts_text(files as nat, dirs as nat, links as nat, tail@));
}

#[verifier::spinoff_prover]
#[verifier::rlimit(40)]
fn write_node_row_head(out: &mut String, node: &NodeObservation)
    ensures
        final(out)@ == old(out)@ + node_row_head(*node),
{
    let ghost start = out@;
    push_str(out, "<tr style=\"--depth:");
    push_decimal(out, node.depth as u128);
    push_str(out, "\"><td><code>");
    push_escaped(out, node.path.as_str());
    push_str(out, "</code><div class=\"muted small\">parent: ");
    if node.parent.as_str().is_empty() {
        push_escaped(out, "-");
    } else {
        push_escaped(out, node.parent.as_str());
    }
    push_str(out, "</div></td><td>");
    push_decimal(out, node.depth as u128);
    push_str(out, "</td><td>");
    assert(out@ =~= start + node_row_head(*node));
}

#[verifier::spinoff_prover]
#[verifier::rlimit(40)]
fn write_node_row_sizes(out: &mut String, own: u64, children: u64)
    requires
        own + children <= u64::MAX,
    ensures
        final(out)@ == old(out)@ + node_row_sizes(own as nat, children as nat),
{
    let ghost start = out@;
    let total = own + children;
    let own_text = format_bytes(own);
    push_escaped(out, own_text.as_str());
    push_str(out, "</td><td>");
    let children_text = format_bytes(children);
    push_escaped(out, children_text.as_str());
    push_str(out, "</td><td><strong>");
    let total_text = format_bytes(total);
    push_escaped(out, total_text.as_str());
    push_str(out, "</strong></td><td>");
    assert(out@ =~= start + node_row_sizes(own as nat, children as nat));
}

#[verifier::spinoff_prover]
#[verifier::rlimit(40)]
fn write_node_row(out: &mut String, node: &NodeObservation, size_modes: &[SizeMode])
    requires
        node_sums_fit(*node, size_modes@),
    ensures
        final(out)@ == old(out)@ + node_row_text(*node, size_modes@),
{
    let ghost start = out@;
    let preferred = preferred_size_mode(size_modes);
    let own = node_size(node, SizeComponent::Own, preferred);
    let children = node_size(node, SizeComponent::Children, preferred);
    write_node_row_head(out, node);
    write_node_row_sizes(out, own, children);
    push_counts(out, node.file_count, node.directory_count, node.symlink_count, " links</td><td>");
    push_counts(
        out,
        node.file_count + node.children_file_count,
        node.directory_count + node.children_directory_count,
        node.symlink_count + node.children_symlink_count,
        " links</td></tr>",
    );
    assert(out@ =~= start + node_row_text(*node, size_modes@));
}

/// The rows of a tree table, in order.
pub open spec fn node_rows_text(nodes: Seq<NodeObservation>, modes: Seq<SizeMode>) -> Seq<char>
    decreases nodes.len(),
{
    if nodes.len() == 0 {
        seq![]
    } else {
        node_rows_text(nodes.drop_last(), modes) + node_row_text(nodes.last(), modes)
    }
}

#[verifier::spinoff_prover]
#[verifier::rlimit(40)]
fn write_node_rows(out: &mut String, nodes: &Vec<NodeObservation>, size_modes: &[SizeMode])
    requires
        forall|i: int| 0 <= i < nodes@.len() ==> node_sums_fit(#[trigger] nodes@[i], size_modes@),
    ensures
        final(out)@ == old(out)@ + node_rows_text(nodes@, size_modes@),
{
    let ghost start = out@;
    let mut i: usize = 0;
    while i < nodes.len()
        invariant
            i <= nodes@.len(),
            forall|k: int| 0 <= k < nodes@.len() ==> node_sums_fit(#[trigger] nodes@[k], size_modes@),
            out@ == start + node_rows_text(nodes@.take(i as int), size_modes@),
        decreases nodes@.len() - i,
    {
        write_node_row(out, &nodes[i], size_modes);
        assert(nodes@.take(i + 1).drop_last() =~= nodes@.take(i as int));
        assert(out@ =~= start + node_rows_text(nodes@.take(i + 1), size_modes@));
        i = i + 1;
    }
    assert(nodes@.take(i as int) =~= nodes@);
}

/// Sorting the nodes keeps every node, as often as it occurs.
pub proof fn law_sorted_nodes_permutes(s: Seq<NodeObservation>)
    ensures
        sorted_nodes(s).to_multiset() == s.to_multiset(),
        sorted_nodes(s).len() == s.len(),
    decreases s.len(),
{
    broadcast use vstd::seq_lib::group_to_multiset_ensures;
    if s.len() > 0 {
        let t = sorted_nodes(s.drop_last());
        law_sorted_nodes_permutes(s.drop_last());
        let p = insert_position(t, s.last());
        lemma_insert_position_bound(t, s.last());
        vstd::seq_lib::to_multiset_insert(t, p as int, s.last());
        assert(s.drop_last().push(s.last()) =~= s);
        vstd::seq_lib::to_multiset_build(s.drop_last(), s.last());
    }
}

proof fn lemma_node_before_transitive(a: NodeObservation, b: NodeObservation, c: NodeObservation)
    requires
        node_before(a, b),
        node_before(b, c),
    ensures
        node_before(a, c),
{
    if text_lt(a.path@, b.path@) && text_lt(b.path@, c.path@) {
        lemma_text_lt_transitive(a.path@, b.path@, c.path@);
    }
}

proof fn lemma_node_before_asymmetric(a: NodeObservation, b: NodeObservation)
    ensures
        !(node_before(a, b) && node_before(b, a)),
{
    lemma_text_lt_asymmetric(a.path@, b.path@);
    lemma_text_lt_irreflexive(a.path@);
}

/// The nodes come out in listing order: no node is listed before one that
/// comes earlier in the output.
pub proof fn law_sorted_nodes_ordered(s: Seq<NodeObservation>)
    ensures
        forall|i: int, j: int| 0 <= i < j < sorted_nodes(s).len()
            ==> !node_before(#[trigger] sorted_nodes(s)[j], #[trigger] sorted_nodes(s)[i]),
    decreases s.len(),
{
    if s.len() > 0 {
        let x = s.last();
        let t = sorted_nodes(s.drop_last());
        law_sorted_nodes_ordered(s.drop_last());
        lemma_insert_position_bound(t, x);
        let p = insert_position(t, x) as int;
        lemma_insert_position_facts(t, x);
        let u = t.insert(p, x);
        assert(u == sorted_nodes(s));
        assert forall|i: int, j: int| 0 <= i < j < u.len() implies !node_before(#[trigger] u[j], #[trigger] u[i]) by {
            if j < p {
                assert(u[i] == t[i] && u[j] == t[j]);
            } else if j == p {
                assert(u[i] == t[i]);
            } else if i < p {
                assert(u[i] == t[i] && u[j] == t[j - 1]);
            } else if i == p {
                assert(u[j] == t[j - 1]);
                if j - 1 == p {
                    lemma_node_before_asymmetric(x, t[p]);
                } else if node_before(t[j - 1], x) {
                    lemma_node_before_transitive(t[j - 1], x, t[p]);
                }
            } else {
                assert(u[i] == t[i - 1] && u[j] == t[j - 1]);
            }
        }
    }
}

proof fn lemma_insert_position_facts(t: Seq<NodeObservation>, x: NodeObservation)
    ensures
        forall|k: int| 0 <= k < insert_position(t, x) ==> !node_before(x, #[trigger] t[k]),
        insert_position(t, x) < t.len() ==> node_before(x, t[insert_position(t, x) as int]),
    decreases t.len(),
{
    lemma_insert_position_bound(t, x);
    if t.len() > 0 && !node_before(x, t[0]) {
        lemma_insert_position_facts(t.drop_first(), x);
        assert forall|k: int| 0 <= k < insert_position(t, x) implies !node_before(x, #[trigger] t[k]) by {
            if k > 0 {
                assert(t[k] == t.drop_first()[k - 1]);
            }
        }
    }
}

proof fn lemma_insert_position_bound(t: Seq<NodeObservation>, x: NodeObservation)
    ensures
        insert_position(t, x) <= t.len(),
    decreases t.len(),
{
    if t.len() > 0 {
        lemma_insert_position_bound(t.drop_first(), x);
    }
}

proof fn lemma_sorted_nodes_from(s: Seq<NodeObservation>, i: int)
    requires
        0 <= i < sorted_nodes(s).len(),
    ensures
        s.contains(sorted_nodes(s)[i]),
{
    broadcast use vstd::seq_lib::group_to_multiset_ensures;
    law_sorted_nodes_permutes(s);
    assert(sorted_nodes(s).to_multiset().count(sorted_nodes(s)[i]) > 0);
}

/// Every sum the page shows for a target fits in 64 bits.
pub open spec fn page_sums_fit(s: TargetSnapshot) -> bool {
    s.last_success matches Some(r) ==> {
        &&& r.issue_total() <= u64::MAX
        &&& forall|i: int| 0 <= i < r.observations@.len() ==> node_sums_fit(#[trigger] r.observations@[i], s.size_modes@)
    }
}

/// `{dirs} dirs / {files} files / {links} links` of a scan.
pub open spec fn visited_text(r: ScanResult) -> Seq<char> {
    dec(r.scanned_directories as nat) + " dirs / "@ + dec(r.scanned_files as nat) + " files / "@
        + dec(r.scanned_symlinks as nat) + " links"@
}

/// The last scan, duration, nodes and visited cells of a target's row.
pub open spec fn row_cells(s: TargetSnapshot, now: Duration) -> (Seq<char>, Seq<char>, Seq<char>, Seq<char>) {
    match s.last_success {
        Some(r) => (age_text(r.timestamp, now), duration_text(r.duration), dec(r.observations@.len()), visited_text(r)),
        None => ("never"@, "-"@, "-"@, "-"@),
    }
}

/// The name, labels, status and path cells of a target's row.
pub open spec fn target_row_left(s: TargetSnapshot) -> Seq<char> {
    "<tr><td><strong>"@ + escaped_html(s.target_name@) + "</strong><div class=\"labels\">"@
        + labels_html(s.labels@) + "</div></td><td>"@ + badge_text(status_of(s)) + "</td><td><code>"@
        + escaped_html(s.path@) + "</code></td><td>"@
}

/// The last scan, duration, counts, nodes and visited cells of a target's row.
pub open spec fn target_row_right(s: TargetSnapshot, c: (Seq<char>, Seq<char>, Seq<char>, Seq<char>)) -> Seq<char> {
    escaped_html(c.0) + "</td><td>"@ + escaped_html(c.1) + "</td><td>"@ + dec(s.scan_count as nat) + "</td><td>"@
        + dec(s.failure_count as nat) + "</td><td>"@ + escaped_html(c.2) + "</td><td>"@ + escaped_html(c.3)
        + "</td></tr>"@
}

/// One row of the targets table.
pub open spec fn target_row_text(s: TargetSnapshot, now: Duration) -> Seq<char> {
    target_row_left(s) + target_row_right(s, row_cells(s, now))
}

fn row_cells_of(snapshot: &TargetSnapshot, now: &Duration) -> (c: (String, String, String, String))
    requires
        snapshot.wf(),
        now.wf(),
    ensures
        (c.0@, c.1@, c.2@, c.3@) == row_cells(*snapshot, *now),
{
    match &snapshot.last_success {
        Some(result) => {
            let mut visited = String::new();
            push_decimal(&mut visited, result.scanned_directories as u128);
            push_str(&mut visited, " dirs / ");
            push_decimal(&mut visited, result.scanned_files as u128);
            push_str(&mut visited, " files / ");
            push_decimal(&mut visited, result.scanned_symlinks as u128);
            push_str(&mut visited, " links");
            assert(visited@ =~= visited_text(*result));
            (
                format_age_at(&result.timestamp, now),
                format_duration(&result.duration),
                decimal(result.observations.len() as u128),
                visited,
            )
        },
        None => (String::from_str("never"), String::from_str("-"), String::from_str("-"), String::from_str("-")),
    }
}

#[verifier::spinoff_prover]
#[verifier::rlimit(40)]
fn write_target_row_left(out: &mut String, snapshot: &TargetSnapshot)
    ensures
        final(out)@ == old(out)@ + target_row_left(*snapshot),
{
    let ghost start = out@;
    let status = target_status(snapshot);
    push_str(out, "<tr><td><strong>");
    push_escaped(out, snapshot.target_name.as_str());
    push_str(out, "</strong><div class=\"labels\">");
    let labels = render_labels(snapshot);
    push_str(out, labels.as_str());
    push_str(out, "</div></td><td>");
    push_str(out, status_badge(status));
    push_str(out, "</td><td><code>");
    push_escaped(out, snapshot.path.as_str());
    push_str(out, "</code></td><td>");
    assert(out@ =~= start + target_row_left(*snapshot));
}

#[verifier::spinoff_prover]
#[verifier::rlimit(40)]
fn write_target_row_right(out: &mut String, snapshot: &TargetSnapshot, last_scan: &str, duration: &str, nodes: &str, visited: &str)
    ensures
        final(out)@ == old(out)@ + target_row_right(*snapshot, (last_scan@, duration@, nodes@, visited@)),
{
    let ghost start = out@;
    push_escaped(out, last_scan);
    push_str(out, "</td><td>");
    push_escaped(out, duration);
    push_str(out, "</td><td>");
    push_decimal(out, snapshot.scan_count as u128);
    push_str(out, "</td><td>");
    push_decimal(out, snapshot.failure_count as u128);
    push_str(out, "</td><td>");
    push_escaped(out, nodes);
    push_str(out, "</td><td>");
    push_escaped(out, visited);
    push_str(out, "</td></tr>");
    assert(out@ =~= start + target_row_right(*snapshot, (last_scan@, duration@, nodes@, visited@)));
}

#[verifier::spinoff_prover]
#[verifier::rlimit(40)]
fn write_target_row(out: &mut String, snapshot: &TargetSnapshot, now: &Duration)
    requires
        snapshot.wf(),
        now.wf(),
    ensures
        final(out)@ == old(out)@ + target_row_text(*snapshot, *now),
{
    let ghost start = out@;
    let cells = row_cells_of(snapshot, now);
    write_target_row_left(out, snapshot);
    write_target_row_right(out, snapshot, cells.0.as_str(), cells.1.as_str(), cells.2.as_str(), cells.3.as_str());
    assert(out@ =~= start + target_row_text(*snapshot, *now));
}

/// The facts line of a target's detail panel.
pub open spec fn facts_text(s: TargetSnapshot, r: ScanResult, now: Duration) -> Seq<char> {
    "<div class=\"facts\"><span>Backend <strong>"@ + escaped_html(r.backend@)
        + "</strong></span><span>Age <strong>"@ + escaped_html(age_text(r.timestamp, now))
        + "</strong></span><span>Interval <strong>"@ + escaped_html(duration_text(s.interval))
        + "</strong></span><span>Max depth <strong>"@ + dec(r.max_observed_depth as nat)
        + "</strong></span><span>Depth hits <strong>"@ + dec(r.depth_limit_hits as nat)
        + "</strong></span><span>Issues <strong>"@ + dec(r.issue_total() as nat) + "</strong></span></div>"@
}

/// The head of a target's tree table.
pub open spec fn tree_head_text() -> Seq<char> {
    "<div class=\"table-wrap\"><table class=\"tree-table\"><thead><tr><th>Tree</th><th>Depth</th><th>Own</th><th>Children</th><th>Total</th><th>Direct entries</th><th>Total entries</th></tr></thead><tbody>"@
}

/// The detail panel of a target: its last error, then its last successful
/// scan with the reported nodes listed by path.
pub open spec fn target_detail_text(s: TargetSnapshot, now: Duration) -> Seq<char> {
    "<section class=\"panel\"><h2>"@ + escaped_html(s.target_name@) + "</h2>"@ + (match s.last_error {
        Some(e) => "<p class=\"error\">Last error: "@ + escaped_html(e@) + "</p>"@,
        None => seq![],
    }) + match s.last_success {
        None => "<p class=\"muted\">No successful scan yet.</p></section>"@,
        Some(r) => facts_text(s, r, now) + tree_head_text() + node_rows_text(sorted_nodes(r.observations@), s.size_modes@)
            + "</tbody></table></div></section>"@,
    }
}

#[verifier::spinoff_prover]
#[verifier::rlimit(40)]
fn write_facts(out: &mut String, snapshot: &TargetSnapshot, result: &ScanResult, now: &Duration)
    requires
        result.timestamp.wf(),
        now.wf(),
        result.issue_total() <= u64::MAX,
    ensures
        final(out)@ == old(out)@ + facts_text(*snapshot, *result, *now),
{
    let ghost start = out@;
    push_str(out, "<div class=\"facts\"><span>Backend <strong>");
    push_escaped(out, result.backend.as_str());
    push_str(out, "</strong></span><span>Age <strong>");
    let age = format_age_at(&result.timestamp, now);
    push_escaped(out, age.as_str());
    push_str(out, "</strong></span><span>Interval <strong>");
    let interval = format_duration(&snapshot.interval);
    push_escaped(out, interval.as_str());
    push_str(out, "</strong></span><span>Max depth <strong>");
    push_decimal(out, result.max_observed_depth as u128);
    push_str(out, "</strong></span><span>Depth hits <strong>");
    push_decimal(out, result.depth_limit_hits as u128);
    push_str(out, "</strong></span><span>Issues <strong>");
    push_decimal(out, result.issue_count() as u128);
    push_str(out, "</strong></span></div>");
    assert(out@ =~= start + facts_text(*snapshot, *result, *now));
}

/// The end of the facts line: the Issues figure, the decimal of the sum of
/// the four issue counters of the last successful scan (permission errors,
/// paths that vanished during the walk, entries on other devices and
/// excluded entries).
pub open spec fn issues_tail(r: ScanResult) -> Seq<char> {
    "</strong></span><span>Issues <strong>"@
        + dec((r.permission_errors + r.missing_path_races + r.skipped_cross_device + r.skipped_excluded) as nat)
        + "</strong></span></div>"@
}

/// The Issues figure of a target's detail panel counts every issue of its
/// last successful scan, excluded entries among them: the facts line ends
/// with it, and the detail panel of a target whose last successful scan is
/// `r` holds it.
pub proof fn law_issues_figure(s: TargetSnapshot, r: ScanResult, now: Duration)
    ensures
        facts_text(s, r, now).len() >= issues_tail(r).len(),
        facts_text(s, r, now).skip(facts_text(s, r, now).len() - issues_tail(r).len()) == issues_tail(r),
        s.last_success == Some(r) ==> contains_text(target_detail_text(s, now), issues_tail(r)),
{
    let f = facts_text(s, r, now);
    let head = "<div class=\"facts\"><span>Backend <strong>"@ + escaped_html(r.backend@)
        + "</strong></span><span>Age <strong>"@ + escaped_html(age_text(r.timestamp, now))
        + "</strong></span><span>Interval <strong>"@ + escaped_html(duration_text(s.interval))
        + "</strong></span><span>Max depth <strong>"@ + dec(r.max_observed_depth as nat)
        + "</strong></span><span>Depth hits <strong>"@ + dec(r.depth_limit_hits as nat);
    assert(f =~= head + issues_tail(r));
    assert(f.skip(head.len() as int) =~= issues_tail(r));
    if s.last_success == Some(r) {
        lemma_contains_middle(head, issues_tail(r), Seq::<char>::empty());
        assert(head + issues_tail(r) + Seq::<char>::empty() =~= f);
        let front = "<section class=\"panel\"><h2>"@ + escaped_html(s.target_name@) + "</h2>"@ + (match s.last_error {
            Some(e) => "<p class=\"error\">Last error: "@ + escaped_html(e@) + "</p>"@,
            None => seq![],
        });
        let back = tree_head_text() + node_rows_text(sorted_nodes(r.observations@), s.size_modes@)
            + "</tbody></table></div></section>"@;
        lemma_contains_within(front, f, back, issues_tail(r));
        assert(front + f + back =~= target_detail_text(s, now));
    }
}

/// The other figures of the facts line, each after its own caption: the
/// backend of the last successful scan, its age at `now` and the target's
/// interval, then the deepest depth the scan saw and how often the depth
/// limit stopped it, in that order.
pub proof fn law_facts_figures(s: TargetSnapshot, r: ScanResult, now: Duration)
    ensures
        contains_text(facts_text(s, r, now), "<div class=\"facts\"><span>Backend <strong>"@ + escaped_html(r.backend@)
            + "</strong></span><span>Age <strong>"@ + escaped_html(age_text(r.timestamp, now))
            + "</strong></span><span>Interval <strong>"@ + escaped_html(duration_text(s.interval))
            + "</strong></span><span>Max depth <strong>"@),
        contains_text(facts_text(s, r, now), "</strong></span><span>Max depth <strong>"@ + dec(r.max_observed_depth as nat)
            + "</strong></span><span>Depth hits <strong>"@ + dec(r.depth_limit_hits as nat)
            + "</strong></span><span>Issues <strong>"@),
{
    let z = Seq::<char>::empty();
    let a1 = "<div class=\"facts\"><span>Backend <strong>"@ + escaped_html(r.backend@)
        + "</strong></span><span>Age <strong>"@ + escaped_html(age_text(r.timestamp, now))
        + "</strong></span><span>Interval <strong>"@ + escaped_html(duration_text(s.interval));
    let m = "</strong></span><span>Max depth <strong>"@;
    let d = dec(r.max_observed_depth as nat) + "</strong></span><span>Depth hits <strong>"@ + dec(r.depth_limit_hits as nat);
    let i = "</strong></span><span>Issues <strong>"@;
    let e = dec(r.issue_total() as nat) + "</strong></span></div>"@;
    assert(facts_text(s, r, now) =~= a1 + m + d + i + e);
    lemma_contains_middle(z, a1 + m, d + i + e);
    assert(z + (a1 + m) + (d + i + e) =~= a1 + m + d + i + e);
    lemma_contains_middle(a1, m + d + i, e);
    assert(a1 + (m + d + i) + e =~= a1 + m + d + i + e);
    assert(m + d + i =~= m + dec(r.max_observed_depth as nat) + "</strong></span><span>Depth hits <strong>"@
        + dec(r.depth_limit_hits as nat) + i);
}

/// A node's row in a target's tree table shows, measured in blocks when the
/// target measures blocks and in apparent bytes otherwise, its own size, the
/// size under its child directories and their sum as the total; then its own
/// entry counts (files, directories, symlinks) and, as totals, each count
/// plus the count of that kind under its child directories.
pub proof fn law_node_row_figures(n: NodeObservation, modes: Seq<SizeMode>)
    ensures
        contains_text(node_row_text(n, modes), escaped_html(bytes_text(
            (if modes.contains(SizeMode::Blocks) { n.own_blocks } else { n.own_apparent }) as nat,
        )) + "</td><td>"@ + escaped_html(bytes_text(
            (if modes.contains(SizeMode::Blocks) { n.children_blocks } else { n.children_apparent }) as nat,
        )) + "</td><td><strong>"@ + escaped_html(bytes_text(
            (if modes.contains(SizeMode::Blocks) { n.own_blocks + n.children_blocks } else { n.own_apparent
                + n.children_apparent }) as nat,
        )) + "</strong></td><td>"@),
        contains_text(node_row_text(n, modes), dec(n.file_count as nat) + " files / "@ + dec(n.directory_count as nat)
            + " dirs / "@ + dec(n.symlink_count as nat) + " links</td><td>"@),
        contains_text(node_row_text(n, modes), dec((n.file_count + n.children_file_count) as nat) + " files / "@
            + dec((n.directory_count + n.children_directory_count) as nat) + " dirs / "@
            + dec((n.symlink_count + n.children_symlink_count) as nat) + " links</td></tr>"@),
{
    let z = Seq::<char>::empty();
    let m = preferred_mode(modes);
    let own = node_size_spec(n, SizeComponent::Own, m) as nat;
    let kids = node_size_spec(n, SizeComponent::Children, m) as nat;
    let a = node_row_head(n);
    let b = node_row_sizes(own, kids);
    let c = counts_text(n.file_count as nat, n.directory_count as nat, n.symlink_count as nat, " links</td><td>"@);
    let d = counts_text(
        (n.file_count + n.children_file_count) as nat,
        (n.directory_count + n.children_directory_count) as nat,
        (n.symlink_count + n.children_symlink_count) as nat,
        " links</td></tr>"@,
    );
    assert(node_row_text(n, modes) == a + b + c + d);
    lemma_contains_each6(a, b, c, d, z, z);
    assert(a + b + c + d + z + z =~= a + b + c + d);
}

/// A target's row in the targets table shows its status badge (running
/// first, then failed when it holds an error, then ok after a successful
/// scan, else pending), its scan attempts then its failures, and, after a
/// successful scan `r`, the number of nodes `r` reports and what the walk
/// visited: directories, files, then symlinks.
pub proof fn law_target_row_figures(s: TargetSnapshot, now: Duration)
    ensures
        contains_text(target_row_text(s, now), badge_text(if s.scan_running {
            TargetStatus::Running
        } else if s.last_error is Some {
            TargetStatus::Failed
        } else if s.last_success is Some {
            TargetStatus::Succeeded
        } else {
            TargetStatus::Pending
        })),
        contains_text(target_row_text(s, now), "</td><td>"@ + dec(s.scan_count as nat) + "</td><td>"@ + dec(s.failure_count as nat)
            + "</td><td>"@),
        s.last_success matches Some(r) ==> contains_text(target_row_text(s, now), escaped_html(dec(r.observations@.len()))
            + "</td><td>"@ + escaped_html(dec(r.scanned_directories as nat) + " dirs / "@ + dec(r.scanned_files as nat)
            + " files / "@ + dec(r.scanned_symlinks as nat) + " links"@) + "</td></tr>"@),
{
    let c = row_cells(s, now);
    let a = "<tr><td><strong>"@ + escaped_html(s.target_name@) + "</strong><div class=\"labels\">"@
        + labels_html(s.labels@) + "</div></td><td>"@;
    let b = badge_text(status_of(s));
    let cc = "</td><td><code>"@ + escaped_html(s.path@) + "</code></td><td>"@;
    let d = escaped_html(c.0) + "</td><td>"@ + escaped_html(c.1);
    let e = "</td><td>"@ + dec(s.scan_count as nat) + "</td><td>"@ + dec(s.failure_count as nat) + "</td><td>"@;
    let f = escaped_html(c.2) + "</td><td>"@ + escaped_html(c.3) + "</td></tr>"@;
    assert(target_row_text(s, now) =~= a + b + cc + d + e + f);
    lemma_contains_each6(a, b, cc, d, e, f);
}

#[verifier::rlimit(50)]
#[verifier::spinoff_prover]
fn write_target_detail(out: &mut String, snapshot: &TargetSnapshot, now: &Duration)
    requires
        snapshot.wf(),
        now.wf(),
        page_sums_fit(*snapshot),
    ensures
        final(out)@ == old(out)@ + target_detail_text(*snapshot, *now),
{
    let ghost start = out@;
    push_str(out, "<section class=\"panel\"><h2>");
    push_escaped(out, snapshot.target_name.as_str());
    push_str(out, "</h2>");
    if let Some(error) = &snapshot.last_error {
        push_str(out, "<p class=\"error\">Last error: ");
        push_escaped(out, error.as_str());
        push_str(out, "</p>");
    }
    let ghost mid = out@;
    match &snapshot.last_success {
        None => {
            push_str(out, "<p class=\"muted\">No successful scan yet.</p></section>");
        },
        Some(result) => {
            write_facts(out, snapshot, result, now);
            let nodes = sort_nodes(&result.observations);
            proof {
                assert forall|i: int| 0 <= i < nodes@.len() implies node_sums_fit(#[trigger] nodes@[i], snapshot.size_modes@) by {
                    lemma_sorted_nodes_from(result.observations@, i);
                    let k = choose|k: int| 0 <= k < result.observations@.len() && result.observations@[k] == nodes@[i];
                    assert(node_sums_fit(result.observations@[k], snapshot.size_modes@));
                }
            }
            push_str(out, "<div class=\"table-wrap\"><table class=\"tree-table\"><thead><tr><th>Tree</th><th>Depth</th><th>Own</th><th>Children</th><th>Total</th><th>Direct entries</th><th>Total entries</th></tr></thead><tbody>");
            write_node_rows(out, &nodes, snapshot.size_modes.as_slice());
            push_str(out, "</tbody></table></div></section>");
        },
    }
    assert(out@ =~= start + target_detail_text(*snapshot, *now));
}

/// The page's style sheet.
pub const STYLE: &'static str = r#"<style>
:root { color-scheme: dark; font-family: Inter, ui-sans-serif, system-ui, -apple-system, BlinkMacSystemFont, "Segoe UI", sans-serif; background: #080b10; color: #e8edf5; }
body { margin: 0; background: radial-gradient(circle at top left, #1f3b56 0, transparent 30rem), #080b10; }
main { width: min(1280px, calc(100% - 32px)); margin: 0 auto; padding: 32px 0 48px; }
.hero { display: flex; justify-content: space-between; gap: 24px; align-items: flex-start; margin-bottom: 24px; }
.hero h1 { font-size: clamp(2rem, 6vw, 4.5rem); margin: 0; letter-spacing: -0.06em; }
.eyebrow { margin: 0 0 8px; color: #77d7c8; font-weight: 700; text-transform: uppercase; letter-spacing: 0.14em; font-size: 0.75rem; }
.muted { color: #9da9ba; }
.small { font-size: 0.82rem; }
nav { display: flex; gap: 10px; flex-wrap: wrap; }
a { color: #d7fff7; text-decoration: none; border: 1px solid #35556b; border-radius: 999px; padding: 8px 12px; background: #0f1823cc; }
.summary { display: grid; grid-template-columns: repeat(4, minmax(0, 1fr)); gap: 12px; margin-bottom: 18px; }
.summary article, .panel { background: #0d131dcc; border: 1px solid #1f3143; border-radius: 18px; box-shadow: 0 18px 50px #00000044; }
.summary article { padding: 18px; }
.summary span { display: block; color: #9da9ba; font-size: 0.85rem; }
.summary strong { display: block; margin-top: 8px; font-size: 1.9rem; }
.panel { padding: 18px; margin-top: 18px; }
.panel h2 { margin: 0 0 14px; }
.table-wrap { overflow-x: auto; }
table { width: 100%; border-collapse: collapse; font-size: 0.92rem; }
th, td { padding: 11px 10px; text-align: left; border-bottom: 1px solid #1b2b3b; vertical-align: top; }
th { color: #9da9ba; font-weight: 600; white-space: nowrap; }
code { color: #d7fff7; }
.tree-table td:first-child { padding-left: calc(10px + var(--depth, 0) * 22px); }
.badge { display: inline-flex; border-radius: 999px; padding: 4px 9px; font-weight: 700; font-size: 0.78rem; }
.running { background: #162f54; color: #9fcaff; }
.ok { background: #123d33; color: #7dffd9; }
.failed { background: #4b1717; color: #ffaaa0; }
.pending { background: #3d3412; color: #ffe68a; }
.labels { display: flex; flex-wrap: wrap; gap: 5px; margin-top: 6px; }
.labels span { color: #9da9ba; border: 1px solid #26384a; border-radius: 999px; padding: 2px 7px; font-size: 0.74rem; }
.facts { display: flex; flex-wrap: wrap; gap: 8px; margin-bottom: 14px; }
.facts span { background: #111b28; border: 1px solid #213247; border-radius: 999px; padding: 7px 10px; color: #9da9ba; }
.facts strong { color: #e8edf5; }
.error { color: #ffaaa0; background: #3a1218; border: 1px solid #68232c; border-radius: 12px; padding: 10px 12px; }
@media (max-width: 760px) { main { width: min(100% - 20px, 1280px); padding-top: 20px; } .hero { display: block; } nav { margin-top: 14px; } .summary { grid-template-columns: repeat(2, minmax(0, 1fr)); } th, td { padding: 9px 8px; } }
</style>"#;

/// The script that refreshes the page content every second.
pub const SCRIPT: &'static str = r#"<script>
(() => {
  const refreshMs = 1000;
  const dashboard = document.getElementById('dashboard');
  let inFlight = false;
  async function refresh() {
    if (inFlight || document.hidden) return;
    inFlight = true;
    try {
      const response = await fetch('/status/fragment', { cache: 'no-store' });
      if (!response.ok) return;
      dashboard.innerHTML = await response.text();
    } catch (_) {
      // Keep the last good render visible when a refresh fails.
    } finally {
      inFlight = false;
    }
  }
  setInterval(refresh, refreshMs);
})();
</script>"#;

/// The number of targets whose last scan succeeded and that hold no error.
pub open spec fn successful_count(ss: Seq<TargetSnapshot>) -> nat
    decreases ss.len(),
{
    if ss.len() == 0 {
        0
    } else {
        successful_count(ss.drop_last()) + if ss.last().last_error is None && ss.last().last_success is Some { 1nat } else { 0nat }
    }
}

/// The number of targets that hold an error.
pub open spec fn failed_count(ss: Seq<TargetSnapshot>) -> nat
    decreases ss.len(),
{
    if ss.len() == 0 {
        0
    } else {
        failed_count(ss.drop_last()) + if ss.last().last_error is Some { 1nat } else { 0nat }
    }
}

/// The summary cards count the targets whose last scan succeeded and that
/// hold no error, and the targets that hold an error: each figure is the
/// number of snapshots of that kind, and no target counts in both.
pub proof fn law_summary_counts(ss: Seq<TargetSnapshot>)
    ensures
        successful_count(ss) == ss.filter(|x: TargetSnapshot| x.last_error is None && x.last_success is Some).len(),
        failed_count(ss) == ss.filter(|x: TargetSnapshot| x.last_error is Some).len(),
        successful_count(ss) + failed_count(ss) <= ss.len(),
    decreases ss.len(),
{
    reveal(Seq::filter);
    if ss.len() > 0 {
        law_summary_counts(ss.drop_last());
    }
}

/// The summary cards show the number of targets, whether every target has
/// finished a scan (`yes` or `no`), the number of targets whose last scan
/// succeeded and that hold no error, then the number that hold an error.
pub proof fn law_summary_cards(ss: Seq<TargetSnapshot>)
    ensures
        contains_text(summary_cards_text(ss), "<section class=\"summary\"><article><span>Total targets</span><strong>"@
            + dec(ss.len()) + "</strong></article><article><span>Ready</span><strong>"@
            + (if forall|i: int| 0 <= i < ss.len() ==> (#[trigger] ss[i]).last_success is Some || ss[i].last_error is Some {
                "yes"@
            } else {
                "no"@
            }) + "</strong></article><article><span>Successful</span><strong>"@),
        contains_text(summary_cards_text(ss), "</strong></article><article><span>Successful</span><strong>"@
            + dec(ss.filter(|x: TargetSnapshot| x.last_error is None && x.last_success is Some).len())
            + "</strong></article><article><span>Failed</span><strong>"@
            + dec(ss.filter(|x: TargetSnapshot| x.last_error is Some).len()) + "</strong></article></section>"@),
{
    law_summary_counts(ss);
    let z = Seq::<char>::empty();
    let a = "<section class=\"summary\"><article><span>Total targets</span><strong>"@ + dec(ss.len())
        + "</strong></article><article><span>Ready</span><strong>"@
        + (if crate::cache::all_settled(ss) { "yes"@ } else { "no"@ });
    let b = "</strong></article><article><span>Successful</span><strong>"@;
    let c = dec(successful_count(ss)) + "</strong></article><article><span>Failed</span><strong>"@ + dec(failed_count(ss))
        + "</strong></article></section>"@;
    assert(summary_cards_text(ss) =~= a + b + c);
    lemma_contains_middle(z, a + b, c);
    assert(z + (a + b) + c =~= a + b + c);
    lemma_contains_middle(a, b + c, z);
    assert(a + (b + c) + z =~= a + b + c);
    assert(b + c =~= b + dec(successful_count(ss)) + "</strong></article><article><span>Failed</span><strong>"@
        + dec(failed_count(ss)) + "</strong></article></section>"@);
}

/// The page heading, with the version and the render time.
pub open spec fn hero_text(now: Duration) -> Seq<char> {
    "<header class=\"hero\"><div>"@ + "<p class=\"eyebrow\">Storage Harvester</p>"@ + "<h1>Scanner Status</h1>"@
        + "<p class=\"muted\">Cached scan state only. This page never triggers a synchronous filesystem scan.</p>"@
        + "<p class=\"muted small\">Version "@ + escaped_html(VERSION@)
        + ". Live refresh every <span id=\"refresh-interval\">1</span>s. Last render: "@
        + escaped_html(age_text(now, now)) + "</p>"@
        + "</div><nav><a href=\"/metrics\">Metrics</a><a href=\"/-/ready\">Readiness</a></nav></header>"@
}

/// The summary cards: targets, readiness, successful and failed targets.
pub open spec fn summary_cards_text(ss: Seq<TargetSnapshot>) -> Seq<char> {
    "<section class=\"summary\"><article><span>Total targets</span><strong>"@ + dec(ss.len())
        + "</strong></article><article><span>Ready</span><strong>"@
        + (if crate::cache::all_settled(ss) { "yes"@ } else { "no"@ })
        + "</strong></article><article><span>Successful</span><strong>"@ + dec(successful_count(ss))
        + "</strong></article><article><span>Failed</span><strong>"@ + dec(failed_count(ss))
        + "</strong></article></section>"@
}

/// The head of the targets table.
pub open spec fn targets_head_text() -> Seq<char> {
    "<section class=\"panel\"><h2>Targets</h2><div class=\"table-wrap\"><table><thead><tr><th>Target</th><th>Status</th><th>Path</th><th>Last scan</th><th>Duration</th><th>Attempts</th><th>Failures</th><th>Nodes</th><th>Visited</th></tr></thead><tbody>"@
}

pub open spec fn target_rows_text(ss: Seq<TargetSnapshot>, now: Duration) -> Seq<char>
    decreases ss.len(),
{
    if ss.len() == 0 {
        seq![]
    } else {
        target_rows_text(ss.drop_last(), now) + target_row_text(ss.last(), now)
    }
}

pub open spec fn target_details_text(ss: Seq<TargetSnapshot>, now: Duration) -> Seq<char>
    decreases ss.len(),
{
    if ss.len() == 0 {
        seq![]
    } else {
        target_details_text(ss.drop_last(), now) + target_detail_text(ss.last(), now)
    }
}

/// The page content at `now`: heading, summary, one table row per target,
/// then one detail panel per target.
pub open spec fn content_text(ss: Seq<TargetSnapshot>, now: Duration) -> Seq<char> {
    hero_text(now) + summary_cards_text(ss) + targets_head_text() + target_rows_text(ss, now)
        + "</tbody></table></div></section>"@ + target_details_text(ss, now)
}

/// The whole page at `now`.
pub open spec fn page_text(ss: Seq<TargetSnapshot>, now: Duration) -> Seq<char> {
    "<!doctype html><html lang=\"en\"><head><meta charset=\"utf-8\">"@
        + "<meta name=\"viewport\" content=\"width=device-width,initial-scale=1\">"@
        + "<title>Storage Harvester</title>"@ + STYLE@ + "</head><body><main id=\"dashboard\">"@
        + content_text(ss, now) + "</main>"@ + SCRIPT@ + "</body></html>"@
}

/// Snapshots the page can show: times well formed, sums within 64 bits.
pub open spec fn page_ready(ss: Seq<TargetSnapshot>) -> bool {
    forall|i: int| 0 <= i < ss.len() ==> (#[trigger] ss[i]).wf() && page_sums_fit(ss[i])
}

fn node_sums_in_range(n: &NodeObservation, modes: &[SizeMode]) -> (b: bool)
    ensures
        b == node_sums_fit(*n, modes@),
{
    let m = preferred_size_mode(modes);
    let own = node_size(n, SizeComponent::Own, m);
    let children = node_size(n, SizeComponent::Children, m);
    own as u128 + children as u128 <= u64::MAX as u128
        && n.file_count as u128 + n.children_file_count as u128 <= u64::MAX as u128
        && n.directory_count as u128 + n.children_directory_count as u128 <= u64::MAX as u128
        && n.symlink_count as u128 + n.children_symlink_count as u128 <= u64::MAX as u128
}

fn snapshot_sums_in_range(s: &TargetSnapshot) -> (b: bool)
    ensures
        b == page_sums_fit(*s),
{
    match &s.last_success {
        None => true,
        Some(r) => {
            if r.permission_errors as u128 + r.missing_path_races as u128 + r.skipped_cross_device as u128
                + r.skipped_excluded as u128 > u64::MAX as u128 {
                return false;
            }
            let mut i: usize = 0;
            while i < r.observations.len()
                invariant
                    i <= r.observations@.len(),
                    s.last_success == Some(*r),
                    r.issue_total() <= u64::MAX,
                    forall|k: int| 0 <= k < i ==> node_sums_fit(#[trigger] r.observations@[k], s.size_modes@),
                decreases r.observations@.len() - i,
            {
                if !node_sums_in_range(&r.observations[i], s.size_modes.as_slice()) {
                    return false;
                }
                i = i + 1;
            }
            true
        },
    }
}

/// Whether the status page can be drawn from these snapshots: each is well
/// formed, and no size or count it shows overflows when summed.
pub fn page_renderable(snapshots: &[TargetSnapshot]) -> (b: bool)
    ensures
        b == page_ready(snapshots@),
{
    let mut i: usize = 0;
    while i < snapshots.len()
        invariant
            i <= snapshots@.len(),
            forall|k: int| 0 <= k < i ==> (#[trigger] snapshots@[k]).wf() && page_sums_fit(snapshots@[k]),
        decreases snapshots@.len() - i,
    {
        if !snapshots[i].is_well_formed() || !snapshot_sums_in_range(&snapshots[i]) {
            return false;
        }
        i = i + 1;
    }
    true
}

#[verifier::spinoff_prover]
#[verifier::rlimit(40)]
fn write_hero(out: &mut String, now: &Duration)
    requires
        now.wf(),
    ensures
        final(out)@ == old(out)@ + hero_text(*now),
{
    let ghost start = out@;
    push_str(out, "<header class=\"hero\"><div>");
    push_str(out, "<p class=\"eyebrow\">Storage Harvester</p>");
    push_str(out, "<h1>Scanner Status</h1>");
    push_str(out, "<p class=\"muted\">Cached scan state only. This page never triggers a synchronous filesystem scan.</p>");
    push_str(out, "<p class=\"muted small\">Version ");
    push_escaped(out, VERSION);
    push_str(out, ". Live refresh every <span id=\"refresh-interval\">1</span>s. Last render: ");
    let age = format_age_at(now, now);
    push_escaped(out, age.as_str());
    push_str(out, "</p>");
    push_str(out, "</div><nav><a href=\"/metrics\">Metrics</a><a href=\"/-/ready\">Readiness</a></nav></header>");
    assert(out@ =~= start + hero_text(*now));
}

#[verifier::spinoff_prover]
#[verifier::rlimit(40)]
fn write_summary_cards(out: &mut String, snapshots: &[TargetSnapshot])
    ensures
        final(out)@ == old(out)@ + summary_cards_text(snapshots@),
{
    let ghost start = out@;
    let mut ready = true;
    let mut successful: usize = 0;
    let mut failed: usize = 0;
    let mut i: usize = 0;
    while i < snapshots.len()
        invariant
            i <= snapshots@.len(),
            ready == crate::cache::all_settled(snapshots@.take(i as int)),
            successful == successful_count(snapshots@.take(i as int)),
            failed == failed_count(snapshots@.take(i as int)),
            successful <= i,
            failed <= i,
        decreases snapshots@.len() - i,
    {
        let s = &snapshots[i];
        let ghost prefix = snapshots@.take(i + 1);
        assert(prefix.drop_last() =~= snapshots@.take(i as int));
        if !(s.last_success.is_some() || s.last_error.is_some()) {
            ready = false;
        }
        if s.last_error.is_none() && s.last_success.is_some() {
            successful = successful + 1;
        }
        if s.last_error.is_some() {
            failed = failed + 1;
        }
        proof {
            assert(prefix.last() == *s);
            if crate::cache::all_settled(prefix) {
                assert forall|k: int| 0 <= k < i implies (#[trigger] snapshots@.take(i as int)[k]).settled() by {
                    assert(prefix[k] == snapshots@.take(i as int)[k]);
                }
                assert(prefix[i as int].settled());
            }
            if crate::cache::all_settled(snapshots@.take(i as int)) && s.settled() {
                assert forall|k: int| 0 <= k < prefix.len() implies (#[trigger] prefix[k]).settled() by {
                    if k < i {
                        assert(prefix[k] == snapshots@.take(i as int)[k]);
                    }
                }
            }
        }
        i = i + 1;
    }
    assert(snapshots@.take(i as int) =~= snapshots@);
    push_str(out, "<section class=\"summary\"><article><span>Total targets</span><strong>");
    push_decimal(out, snapshots.len() as u128);
    push_str(out, "</strong></article><article><span>Ready</span><strong>");
    push_str(out, if ready { "yes" } else { "no" });
    push_str(out, "</strong></article><article><span>Successful</span><strong>");
    push_decimal(out, successful as u128);
    push_str(out, "</strong></article><article><span>Failed</span><strong>");
    push_decimal(out, failed as u128);
    push_str(out, "</strong></article></section>");
    assert(out@ =~= start + summary_cards_text(snapshots@));
}

#[verifier::spinoff_prover]
#[verifier::rlimit(40)]
fn write_target_rows(out: &mut String, snapshots: &[TargetSnapshot], now: &Duration)
    requires
        now.wf(),
        page_ready(snapshots@),
    ensures
        final(out)@ == old(out)@ + target_rows_text(snapshots@, *now),
{
    let ghost start = out@;
    let mut i: usize = 0;
    while i < snapshots.len()
        invariant
            i <= snapshots@.len(),
            now.wf(),
            page_ready(snapshots@),
            out@ == start + target_rows_text(snapshots@.take(i as int), *now),
        decreases snapshots@.len() - i,
    {
        assert(snapshots@[i as int].wf());
        write_target_row(out, &snapshots[i], now);
        assert(snapshots@.take(i + 1).drop_last() =~= snapshots@.take(i as int));
        assert(out@ =~= start + target_rows_text(snapshots@.take(i + 1), *now));
        i = i + 1;
    }
    assert(snapshots@.take(i as int) =~= snapshots@);
}

#[verifier::spinoff_prover]
#[verifier::rlimit(40)]
fn write_target_details(out: &mut String, snapshots: &[TargetSnapshot], now: &Duration)
    requires
        now.wf(),
        page_ready(snapshots@),
    ensures
        final(out)@ == old(out)@ + target_details_text(snapshots@, *now),
{
    let ghost start = out@;
    let mut i: usize = 0;
    while i < snapshots.len()
        invariant
            i <= snapshots@.len(),
            now.wf(),
            page_ready(snapshots@),
            out@ == start + target_details_text(snapshots@.take(i as int), *now),
        decreases snapshots@.len() - i,
    {
        assert(snapshots@[i as int].wf());
        write_target_detail(out, &snapshots[i], now);
        assert(snapshots@.take(i + 1).drop_last() =~= snapshots@.take(i as int));
        assert(out@ =~= start + target_details_text(snapshots@.take(i + 1), *now));
        i = i + 1;
    }
    assert(snapshots@.take(i as int) =~= snapshots@);
}

/// The page content as seen at `now`.
#[verifier::spinoff_prover]
#[verifier::rlimit(40)]
pub fn render_status_content_at(snapshots: &[TargetSnapshot], now: &Duration) -> (out: String)
    requires
        now.wf(),
        page_ready(snapshots@),
    ensures
        out@ == content_text(snapshots@, *now),
{
    let mut out = String::new();
    write_hero(&mut out, now);
    write_summary_cards(&mut out, snapshots);
    push_str(&mut out, "<section class=\"panel\"><h2>Targets</h2><div class=\"table-wrap\"><table><thead><tr><th>Target</th><th>Status</th><th>Path</th><th>Last scan</th><th>Duration</th><th>Attempts</th><th>Failures</th><th>Nodes</th><th>Visited</th></tr></thead><tbody>");
    write_target_rows(&mut out, snapshots, now);
    push_str(&mut out, "</tbody></table></div></section>");
    write_target_details(&mut out, snapshots, now);
    assert(out@ =~= content_text(snapshots@, *now));
    out
}

/// The page content, as seen now (the fragment the page refreshes itself with).
#[verifier::spinoff_prover]
#[verifier::rlimit(40)]
pub fn render_status_content(snapshots: &[TargetSnapshot]) -> (out: String)
    requires
        page_ready(snapshots@),
    ensures
        exists|now: Duration| now.wf() && out@ == content_text(snapshots@, now),
{
    let now = current_time();
    render_status_content_at(snapshots, &now)
}

/// The whole status page as seen at `now`.
#[verifier::spinoff_prover]
#[verifier::rlimit(40)]
pub fn render_status_page_at(snapshots: &[TargetSnapshot], now: &Duration) -> (out: String)
    requires
        now.wf(),
        page_ready(snapshots@),
    ensures
        out@ == page_text(snapshots@, *now),
{
    let mut out = String::new();
    push_str(&mut out, "<!doctype html><html lang=\"en\"><head><meta charset=\"utf-8\">");
    push_str(&mut out, "<meta name=\"viewport\" content=\"width=device-width,initial-scale=1\">");
    push_str(&mut out, "<title>Storage Harvester</title>");
    push_str(&mut out, STYLE);
    push_str(&mut out, "</head><body><main id=\"dashboard\">");
    let content = render_status_content_at(snapshots, now);
    push_str(&mut out, content.as_str());
    push_str(&mut out, "</main>");
    push_str(&mut out, SCRIPT);
    push_str(&mut out, "</body></html>");
    assert(out@ =~= page_text(snapshots@, *now));
    out
}

/// The whole status page, as seen now.
#[verifier::spinoff_prover]
#[verifier::rlimit(40)]
pub fn render_status_page(snapshots: &[TargetSnapshot]) -> (out: String)
    requires
        page_ready(snapshots@),
    ensures
        exists|now: Duration| now.wf() && out@ == page_text(snapshots@, now),
{
    let now = current_time();
    render_status_page_at(snapshots, &now)
}

} // verus!
