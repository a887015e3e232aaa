//! The cached state of every target: what the last scans found, read by the
//! exporter and the status page without ever scanning.

use vstd::prelude::*;
use crate::config::{copy_labels, copy_size_modes, SizeMode, Target};
use crate::scanner::ScanResult;
use crate::time::{current_time, Duration};
use crate::text::{same_text, text_less, text_lt, lemma_text_lt_irreflexive, lemma_text_lt_total, lemma_text_lt_transitive};

verus! {

/// The cached state of one target.
#[derive(Debug, Clone)]
pub struct TargetSnapshot {
    pub target_name: String,
    pub target_type: String,
    pub path: String,
    /// Label pairs, in the order `labels_ordered` describes.
    pub labels: Vec<(String, String)>,
    pub size_modes: Vec<SizeMode>,
    pub last_success: Option<ScanResult>,
    pub last_error: Option<String>,
    /// When the last scan ended, as time since the Unix epoch.
    pub last_attempt: Option<Duration>,
    pub scan_running: bool,
    /// When the running scan started, as time since the Unix epoch.
    pub scan_started: Option<Duration>,
    pub scan_count: u64,
    pub failure_count: u64,
    pub interval: Duration,
}

impl TargetSnapshot {
    /// Every span and point in time it holds is well formed.
    pub open spec fn wf(self) -> bool {
        &&& self.interval.wf()
        &&& (self.scan_started matches Some(t) ==> t.wf())
        &&& (self.last_attempt matches Some(t) ==> t.wf())
        &&& (self.last_success matches Some(r) ==> r.duration.wf() && r.timestamp.wf())
    }

    /// The state of `target` before any scan.
    pub open spec fn is_initial_for(self, target: Target) -> bool {
        &&& self.target_name == target.name
        &&& self.target_type == target.target_type
        &&& self.path == target.display_path
        &&& self.labels@ == target.labels@
        &&& self.size_modes@ == target.size_modes@
        &&& self.last_success is None
        &&& self.last_error is None
        &&& self.last_attempt is None
        &&& !self.scan_running
        &&& self.scan_started is None
        &&& self.scan_count == 0
        &&& self.failure_count == 0
        &&& self.interval == target.baseline_interval
    }

    /// Whether every span and point in time it holds is well formed.
    pub fn is_well_formed(&self) -> (b: bool)
        ensures
            b == self.wf(),
    {
        self.interval.is_wf() && match &self.scan_started {
            Some(t) => t.is_wf(),
            None => true,
        } && match &self.last_attempt {
            Some(t) => t.is_wf(),
            None => true,
        } && match &self.last_success {
            Some(r) => r.duration.is_wf() && r.timestamp.is_wf(),
            None => true,
        }
    }

    /// The state of a target that has not been scanned yet.
    pub fn from_target(target: &Target) -> (s: TargetSnapshot)
        ensures
            s.is_initial_for(*target),
    {
        TargetSnapshot {
            target_name: target.name.clone(),
            target_type: target.target_type.clone(),
            path: target.display_path.clone(),
            labels: copy_labels(&target.labels),
            size_modes: copy_size_modes(&target.size_modes),
            last_success: None,
            last_error: None,
            last_attempt: None,
            scan_running: false,
            scan_started: None,
            scan_count: 0,
            failure_count: 0,
            interval: target.baseline_interval,
        }
    }
}


impl TargetSnapshot {
    /// The state once a scan has started at `now`.
    pub open spec fn started_at(self, now: Duration) -> TargetSnapshot {
        TargetSnapshot { scan_running: true, scan_started: Some(now), ..self }
    }

    /// The state once a scan has succeeded with `result`.
    pub open spec fn after_success(self, result: ScanResult) -> TargetSnapshot {
        TargetSnapshot {
            last_attempt: Some(result.timestamp),
            last_success: Some(result),
            last_error: None,
            scan_running: false,
            scan_started: None,
            scan_count: (self.scan_count + 1) as u64,
            ..self
        }
    }

    /// The state once a scan has failed at `now` with `error`.
    pub open spec fn after_failure(self, error: String, now: Duration) -> TargetSnapshot {
        TargetSnapshot {
            last_attempt: Some(now),
            last_error: Some(error),
            scan_running: false,
            scan_started: None,
            scan_count: (self.scan_count + 1) as u64,
            failure_count: (self.failure_count + 1) as u64,
            ..self
        }
    }

    /// At least one scan has finished, successfully or not.
    pub open spec fn settled(self) -> bool {
        self.last_success is Some || self.last_error is Some
    }
}

/// Names in strictly ascending order, so each name appears once.
pub open spec fn names_sorted(s: Seq<TargetSnapshot>) -> bool {
    forall|i: int, j: int| 0 <= i < j < s.len() ==> text_lt(#[trigger] s[i].target_name@, #[trigger] s[j].target_name@)
}

/// The snapshot of each name; a later snapshot replaces an earlier one of the same name.
pub open spec fn by_name(s: Seq<TargetSnapshot>) -> Map<Seq<char>, TargetSnapshot>
    decreases s.len(),
{
    if s.len() == 0 {
        Map::empty()
    } else {
        by_name(s.drop_last()).insert(s.last().target_name@, s.last())
    }
}

/// `f` applied to the snapshots named `name`; the others are kept.
pub open spec fn update_named(s: Seq<TargetSnapshot>, name: Seq<char>, f: spec_fn(TargetSnapshot) -> TargetSnapshot) -> Seq<TargetSnapshot> {
    s.map_values(|x: TargetSnapshot| if x.target_name@ == name { f(x) } else { x })
}

/// Every snapshot has finished at least one scan.
pub open spec fn all_settled(s: Seq<TargetSnapshot>) -> bool {
    forall|i: int| 0 <= i < s.len() ==> (#[trigger] s[i]).settled()
}

/// The snapshots of all targets, kept in name order.
pub struct SnapshotStore {
    entries: Vec<TargetSnapshot>,
}

impl View for SnapshotStore {
    type V = Seq<TargetSnapshot>;

    closed spec fn view(&self) -> Seq<TargetSnapshot> {
        self.entries@
    }
}

proof fn lemma_sorted_names_differ(s: Seq<TargetSnapshot>, i: int, j: int)
    requires
        names_sorted(s),
        0 <= i < s.len(),
        0 <= j < s.len(),
        i != j,
    ensures
        s[i].target_name@ != s[j].target_name@,
{
    if i < j {
        lemma_text_lt_irreflexive(s[i].target_name@);
    } else {
        lemma_text_lt_irreflexive(s[j].target_name@);
    }
}

proof fn lemma_by_name_insert(s: Seq<TargetSnapshot>, p: int, x: TargetSnapshot)
    requires
        0 <= p <= s.len(),
        forall|k: int| 0 <= k < s.len() ==> (#[trigger] s[k]).target_name@ != x.target_name@,
    ensures
        by_name(s.insert(p, x)) == by_name(s).insert(x.target_name@, x),
    decreases s.len(),
{
    if p == s.len() {
        assert(s.insert(p, x).drop_last() =~= s);
    } else {
        let t = s.insert(p, x);
        assert(t.drop_last() =~= s.drop_last().insert(p, x));
        assert(t.last() == s.last());
        lemma_by_name_insert(s.drop_last(), p, x);
        assert(s.last().target_name@ != x.target_name@);
        assert(by_name(t) =~= by_name(s).insert(x.target_name@, x));
    }
}

proof fn lemma_by_name_update(s: Seq<TargetSnapshot>, p: int, x: TargetSnapshot)
    requires
        0 <= p < s.len(),
        names_sorted(s),
        s[p].target_name@ == x.target_name@,
    ensures
        by_name(s.update(p, x)) == by_name(s).insert(x.target_name@, x),
    decreases s.len(),
{
    let t = s.update(p, x);
    if p == s.len() - 1 {
        assert(t.drop_last() =~= s.drop_last());
        assert(by_name(t) =~= by_name(s).insert(x.target_name@, x));
    } else {
        assert(t.drop_last() =~= s.drop_last().update(p, x));
        lemma_by_name_update(s.drop_last(), p, x);
        lemma_sorted_names_differ(s, p, s.len() - 1);
        assert(by_name(t) =~= by_name(s).insert(x.target_name@, x));
    }
}

impl SnapshotStore {
    /// The snapshots are held in strictly ascending name order.
    pub closed spec fn wf(&self) -> bool {
        names_sorted(self.entries@)
    }

    /// A well-formed table lists its snapshots in strictly ascending name
    /// order, so each target name appears once.
    pub proof fn law_names_ascending(&self)
        requires
            self.wf(),
        ensures
            names_sorted(self@),
    {
    }

    /// Puts `snapshot` in its place by name, replacing one of the same name.
    #[verifier::spinoff_prover]
    fn insert(&mut self, snapshot: TargetSnapshot)
        requires
            old(self).wf(),
        ensures
            final(self).wf(),
            by_name(final(self)@) == by_name(old(self)@).insert(snapshot.target_name@, snapshot),
    {
        let ghost e = self.entries@;
        let mut p: usize = 0;
        while p < self.entries.len()
            && text_less(self.entries[p].target_name.as_str(), snapshot.target_name.as_str())
            invariant
                self.entries@ == e,
                names_sorted(e),
                p <= e.len(),
                forall|k: int| 0 <= k < p ==> text_lt(#[trigger] e[k].target_name@, snapshot.target_name@),
            decreases e.len() - p,
        {
            p = p + 1;
        }
        let ghost name = snapshot.target_name@;
        if p < self.entries.len() && same_text(self.entries[p].target_name.as_str(), snapshot.target_name.as_str()) {
            self.entries.set(p, snapshot);
            proof {
                lemma_by_name_update(e, p as int, snapshot);
                assert(names_sorted(self.entries@));
            }
        } else {
            proof {
                if p < e.len() {
                    lemma_text_lt_total(e[p as int].target_name@, name);
                }
                assert forall|k: int| 0 <= k < e.len() implies (#[trigger] e[k]).target_name@ != name by {
                    if k < p {
                        lemma_text_lt_irreflexive(name);
                    } else if k > p {
                        lemma_text_lt_transitive(name, e[p as int].target_name@, e[k].target_name@);
                        lemma_text_lt_irreflexive(name);
                    }
                }
            }
            self.entries.insert(p, snapshot);
            proof {
                lemma_by_name_insert(e, p as int, snapshot);
                let t = self.entries@;
                assert forall|i: int, j: int| 0 <= i < j < t.len() implies text_lt(#[trigger] t[i].target_name@, #[trigger] t[j].target_name@) by {
                    if j < p {
                        assert(t[i] == e[i] && t[j] == e[j]);
                    } else if j == p {
                        assert(t[i] == e[i]);
                    } else if i == p {
                        assert(t[j] == e[j - 1]);
                        if j - 1 > p {
                            lemma_text_lt_transitive(name, e[p as int].target_name@, e[j - 1].target_name@);
                        }
                    } else if i < p {
                        assert(t[i] == e[i] && t[j] == e[j - 1]);
                        if j - 1 == p as int {
                            lemma_text_lt_transitive(e[i].target_name@, name, e[p as int].target_name@);
                        }
                    } else {
                        assert(t[i] == e[i - 1] && t[j] == e[j - 1]);
                    }
                }
            }
        }
    }

    /// A table of the given snapshots; of several with one name, the last is kept.
    #[verifier::spinoff_prover]
    pub fn new(snapshots: Vec<TargetSnapshot>) -> (t: SnapshotStore)
        ensures
            t.wf(),
            names_sorted(t@),
            by_name(t@) == by_name(snapshots@),
    {
        let mut table = SnapshotStore { entries: Vec::new() };
        let ghost input = snapshots@;
        let total = snapshots.len();
        let mut rest = snapshots;
        assert(by_name(table@) =~= by_name(input.take(0)));
        let mut n: usize = 0;
        while rest.len() > 0
            invariant
                table.wf(),
                n <= input.len(),
                rest@ == input.skip(n as int),
                total == input.len(),
                by_name(table@) == by_name(input.take(n as int)),
            decreases rest@.len(),
        {
            let s = rest.remove(0);
            proof {
                assert(s == input[n as int]);
                assert(rest@ =~= input.skip(n + 1));
                assert(input.take(n + 1).drop_last() =~= input.take(n as int));
            }
            table.insert(s);
            n = n + 1;
        }
        assert(input.take(n as int) =~= input);
        table
    }

    /// The position of the snapshot named `name`, if there is one.
    fn find(&self, name: &str) -> (r: Option<usize>)
        requires
            self.wf(),
        ensures
            r matches Some(i) ==> i < self@.len() && self@[i as int].target_name@ == name@,
            r is None ==> forall|k: int| 0 <= k < self@.len() ==> (#[trigger] self@[k]).target_name@ != name@,
    {
        let mut i: usize = 0;
        while i < self.entries.len()
            invariant
                i <= self.entries@.len(),
                forall|k: int| 0 <= k < i ==> (#[trigger] self.entries@[k]).target_name@ != name@,
            decreases self.entries@.len() - i,
        {
            if same_text(self.entries[i].target_name.as_str(), name) {
                return Some(i);
            }
            i = i + 1;
        }
        None
    }

    /// Applies a change to the snapshot at position `i`.
    proof fn lemma_update_one(s: Seq<TargetSnapshot>, i: int, x: TargetSnapshot, f: spec_fn(TargetSnapshot) -> TargetSnapshot)
        requires
            names_sorted(s),
            0 <= i < s.len(),
            x == f(s[i]),
            x.target_name == s[i].target_name,
        ensures
            s.update(i, x) == update_named(s, s[i].target_name@, f),
            names_sorted(s.update(i, x)),
    {
        assert forall|k: int| 0 <= k < s.len() && k != i implies (#[trigger] s[k]).target_name@ != s[i].target_name@ by {
            lemma_sorted_names_differ(s, i, k);
        }
        assert(s.update(i, x) =~= update_named(s, s[i].target_name@, f));
        let t = s.update(i, x);
        assert forall|a: int, b: int| 0 <= a < b < t.len() implies text_lt(#[trigger] t[a].target_name@, #[trigger] t[b].target_name@) by {
            assert(t[a].target_name@ == s[a].target_name@);
            assert(t[b].target_name@ == s[b].target_name@);
        }
    }

    /// Marks the scan of `name` as running since `now`.
    pub fn record_scan_start_at(&mut self, name: &str, now: Duration)
        requires
            old(self).wf(),
        ensures
            final(self).wf(),
            final(self)@ == update_named(old(self)@, name@, |x: TargetSnapshot| x.started_at(now)),
    {
        match self.find(name) {
            Some(i) => {
                let ghost e = self.entries@;
                let mut snapshot = self.entries.remove(i);
                snapshot.scan_running = true;
                snapshot.scan_started = Some(now);
                self.entries.insert(i, snapshot);
                proof {
                    assert(self.entries@ =~= e.update(i as int, snapshot));
                    Self::lemma_update_one(e, i as int, snapshot, |x: TargetSnapshot| x.started_at(now));
                }
            },
            None => {
                assert(self.entries@ =~= update_named(self.entries@, name@, |x: TargetSnapshot| x.started_at(now)));
            },
        }
    }

    /// Marks the scan of `name` as running since now.
    pub fn record_scan_start(&mut self, name: &str)
        requires
            old(self).wf(),
        ensures
            final(self).wf(),
            exists|now: Duration| now.wf() && final(self)@ == update_named(old(self)@, name@, |x: TargetSnapshot| x.started_at(now)),
    {
        let now = current_time();
        self.record_scan_start_at(name, now);
    }

    /// Records a successful scan of `name`.
    pub fn record_success(&mut self, name: &str, result: ScanResult)
        requires
            old(self).wf(),
            forall|k: int| 0 <= k < old(self)@.len() && (#[trigger] old(self)@[k]).target_name@ == name@
                ==> old(self)@[k].scan_count < u64::MAX,
        ensures
            final(self).wf(),
            final(self)@ == update_named(old(self)@, name@, |x: TargetSnapshot| x.after_success(result)),
    {
        match self.find(name) {
            Some(i) => {
                let ghost e = self.entries@;
                let mut snapshot = self.entries.remove(i);
                snapshot.last_attempt = Some(result.timestamp);
                snapshot.last_success = Some(result);
                snapshot.last_error = None;
                snapshot.scan_running = false;
                snapshot.scan_started = None;
                snapshot.scan_count = snapshot.scan_count + 1;
                self.entries.insert(i, snapshot);
                proof {
                    assert(self.entries@ =~= e.update(i as int, snapshot));
                    Self::lemma_update_one(e, i as int, snapshot, |x: TargetSnapshot| x.after_success(result));
                }
            },
            None => {
                assert(self.entries@ =~= update_named(self.entries@, name@, |x: TargetSnapshot| x.after_success(result)));
            },
        }
    }

    /// Records a failed scan of `name` that ended at `now`.
    pub fn record_failure_at(&mut self, name: &str, error: String, now: Duration)
        requires
            old(self).wf(),
            forall|k: int| 0 <= k < old(self)@.len() && (#[trigger] old(self)@[k]).target_name@ == name@
                ==> old(self)@[k].scan_count < u64::MAX && old(self)@[k].failure_count < u64::MAX,
        ensures
            final(self).wf(),
            final(self)@ == update_named(old(self)@, name@, |x: TargetSnapshot| x.after_failure(error, now)),
    {
        match self.find(name) {
            Some(i) => {
                let ghost e = self.entries@;
                let mut snapshot = self.entries.remove(i);
                snapshot.last_attempt = Some(now);
                snapshot.last_error = Some(error);
                snapshot.scan_running = false;
                snapshot.scan_started = None;
                snapshot.scan_count = snapshot.scan_count + 1;
                snapshot.failure_count = snapshot.failure_count + 1;
                self.entries.insert(i, snapshot);
                proof {
                    assert(self.entries@ =~= e.update(i as int, snapshot));
                    Self::lemma_update_one(e, i as int, snapshot, |x: TargetSnapshot| x.after_failure(error, now));
                }
            },
            None => {
                assert(self.entries@ =~= update_named(self.entries@, name@, |x: TargetSnapshot| x.after_failure(error, now)));
            },
        }
    }

    /// Records a failed scan of `name` that ended now.
    pub fn record_failure(&mut self, name: &str, error: String)
        requires
            old(self).wf(),
            forall|k: int| 0 <= k < old(self)@.len() && (#[trigger] old(self)@[k]).target_name@ == name@
                ==> old(self)@[k].scan_count < u64::MAX && old(self)@[k].failure_count < u64::MAX,
        ensures
            final(self).wf(),
            exists|now: Duration| now.wf() && final(self)@ == update_named(old(self)@, name@, |x: TargetSnapshot| x.after_failure(error, now)),
    {
        let now = current_time();
        self.record_failure_at(name, error, now);
    }

    /// The snapshot named `name`, if there is one.
    pub fn get(&self, name: &str) -> (r: Option<&TargetSnapshot>)
        requires
            self.wf(),
        ensures
            r matches Some(s) ==> exists|i: int| 0 <= i < self@.len() && self@[i] == *s && s.target_name@ == name@,
            r is None ==> forall|k: int| 0 <= k < self@.len() ==> (#[trigger] self@[k]).target_name@ != name@,
    {
        match self.find(name) {
            Some(i) => Some(&self.entries[i]),
            None => None,
        }
    }

    /// Copies of all snapshots, in name order.
    pub fn snapshots(&self) -> (r: Vec<TargetSnapshot>)
        ensures
            r@.len() == self@.len(),
            forall|i: int| 0 <= i < r@.len() ==> (#[trigger] r@[i]).same_as(self@[i]),
    {
        let mut r: Vec<TargetSnapshot> = Vec::new();
        let mut i: usize = 0;
        while i < self.entries.len()
            invariant
                i <= self.entries@.len(),
                r@.len() == i,
                forall|k: int| 0 <= k < i ==> (#[trigger] r@[k]).same_as(self.entries@[k]),
            decreases self.entries@.len() - i,
        {
            r.push(self.entries[i].copy());
            i = i + 1;
        }
        r
    }

    /// Whether every target has finished at least one scan.
    pub fn ready(&self) -> (b: bool)
        ensures
            b == all_settled(self@),
    {
        let mut i: usize = 0;
        while i < self.entries.len()
            invariant
                i <= self.entries@.len(),
                forall|k: int| 0 <= k < i ==> (#[trigger] self.entries@[k]).settled(),
            decreases self.entries@.len() - i,
        {
            if self.entries[i].last_success.is_none() && self.entries[i].last_error.is_none() {
                assert(!self.entries@[i as int].settled());
                return false;
            }
            i = i + 1;
        }
        true
    }
}

impl TargetSnapshot {
    /// The two snapshots hold the same state.
    pub open spec fn same_as(self, other: TargetSnapshot) -> bool {
        &&& self.target_name == other.target_name
        &&& self.target_type == other.target_type
        &&& self.path == other.path
        &&& self.labels@ == other.labels@
        &&& self.size_modes@ == other.size_modes@
        &&& (match (self.last_success, other.last_success) {
            (Some(a), Some(b)) => a.same_as(b),
            (None, None) => true,
            _ => false,
        })
        &&& self.last_error == other.last_error
        &&& self.last_attempt == other.last_attempt
        &&& self.scan_running == other.scan_running
        &&& self.scan_started == other.scan_started
        &&& self.scan_count == other.scan_count
        &&& self.failure_count == other.failure_count
        &&& self.interval == other.interval
    }

    pub fn copy(&self) -> (r: TargetSnapshot)
        ensures
            r.same_as(*self),
    {
        TargetSnapshot {
            target_name: self.target_name.clone(),
            target_type: self.target_type.clone(),
            path: self.path.clone(),
            labels: copy_labels(&self.labels),
            size_modes: copy_size_modes(&self.size_modes),
            last_success: match &self.last_success {
                Some(r) => Some(r.copy()),
                None => None,
            },
            last_error: match &self.last_error {
                Some(e) => Some(e.clone()),
                None => None,
            },
            last_attempt: self.last_attempt,
            scan_running: self.scan_running,
            scan_started: self.scan_started,
            scan_count: self.scan_count,
            failure_count: self.failure_count,
            interval: self.interval,
        }
    }
}

/// Readiness is never lost: once every target has finished a scan, recording
/// a scan start, a success or a failure for any name keeps it so.
pub proof fn law_ready_stays_ready(t: Seq<TargetSnapshot>, name: Seq<char>, now: Duration, result: ScanResult, error: String)
    requires
        all_settled(t),
    ensures
        all_settled(update_named(t, name, |x: TargetSnapshot| x.started_at(now))),
        all_settled(update_named(t, name, |x: TargetSnapshot| x.after_success(result))),
        all_settled(update_named(t, name, |x: TargetSnapshot| x.after_failure(error, now))),
{
    let a = update_named(t, name, |x: TargetSnapshot| x.started_at(now));
    let b = update_named(t, name, |x: TargetSnapshot| x.after_success(result));
    let c = update_named(t, name, |x: TargetSnapshot| x.after_failure(error, now));
    assert forall|i: int| 0 <= i < a.len() implies (#[trigger] a[i]).settled() by {
        assert(t[i].settled());
    }
    assert forall|i: int| 0 <= i < b.len() implies (#[trigger] b[i]).settled() by {
        assert(t[i].settled());
    }
    assert forall|i: int| 0 <= i < c.len() implies (#[trigger] c[i]).settled() by {
        assert(t[i].settled());
    }
}

/// A target is ready once its first scan has finished: when every other
/// target has finished one, a success or failure of `name` makes the table ready.
pub proof fn law_finished_scan_makes_ready(t: Seq<TargetSnapshot>, name: Seq<char>, now: Duration, result: ScanResult, error: String)
    requires
        forall|i: int| 0 <= i < t.len() && (#[trigger] t[i]).target_name@ != name ==> t[i].settled(),
    ensures
        all_settled(update_named(t, name, |x: TargetSnapshot| x.after_success(result))),
        all_settled(update_named(t, name, |x: TargetSnapshot| x.after_failure(error, now))),
{
    let b = update_named(t, name, |x: TargetSnapshot| x.after_success(result));
    let c = update_named(t, name, |x: TargetSnapshot| x.after_failure(error, now));
    assert forall|i: int| 0 <= i < b.len() implies (#[trigger] b[i]).settled() by {
        if t[i].target_name@ != name {
            assert(t[i].settled());
        }
    }
    assert forall|i: int| 0 <= i < c.len() implies (#[trigger] c[i]).settled() by {
        if t[i].target_name@ != name {
            assert(t[i].settled());
        }
    }
}

/// Failed scans never outnumber scan attempts: every recorded failure is also
/// an attempt, and a start or success adds no failure.
pub proof fn law_failures_within_attempts(t: Seq<TargetSnapshot>, name: Seq<char>, now: Duration, result: ScanResult, error: String)
    requires
        forall|i: int| 0 <= i < t.len() ==> (#[trigger] t[i]).failure_count <= t[i].scan_count,
        forall|i: int| 0 <= i < t.len() && (#[trigger] t[i]).target_name@ == name ==> t[i].scan_count < u64::MAX,
    ensures
        ({
            let a = update_named(t, name, |x: TargetSnapshot| x.started_at(now));
            forall|i: int| 0 <= i < a.len() ==> (#[trigger] a[i]).failure_count <= a[i].scan_count
        }),
        ({
            let b = update_named(t, name, |x: TargetSnapshot| x.after_success(result));
            forall|i: int| 0 <= i < b.len() ==> (#[trigger] b[i]).failure_count <= b[i].scan_count
        }),
        ({
            let c = update_named(t, name, |x: TargetSnapshot| x.after_failure(error, now));
            forall|i: int| 0 <= i < c.len() ==> (#[trigger] c[i]).failure_count <= c[i].scan_count
        }),
{
    let a = update_named(t, name, |x: TargetSnapshot| x.started_at(now));
    let b = update_named(t, name, |x: TargetSnapshot| x.after_success(result));
    let c = update_named(t, name, |x: TargetSnapshot| x.after_failure(error, now));
    assert forall|i: int| 0 <= i < a.len() implies (#[trigger] a[i]).failure_count <= a[i].scan_count by {
        assert(t[i].failure_count <= t[i].scan_count);
    }
    assert forall|i: int| 0 <= i < b.len() implies (#[trigger] b[i]).failure_count <= b[i].scan_count by {
        assert(t[i].failure_count <= t[i].scan_count);
    }
    assert forall|i: int| 0 <= i < c.len() implies (#[trigger] c[i]).failure_count <= c[i].scan_count by {
        assert(t[i].failure_count <= t[i].scan_count);
    }
}

/// One change the store records: a scan start, a success or a failure of the
/// named target, with the time the store reads for starts and failures.
pub enum StoreEvent {
    Started(Seq<char>, Duration),
    Succeeded(Seq<char>, ScanResult),
    Failed(Seq<char>, String, Duration),
}

/// The snapshots after one event, as `record_scan_start_at`,
/// `record_success` and `record_failure_at` leave them.
pub open spec fn after_event(t: Seq<TargetSnapshot>, e: StoreEvent) -> Seq<TargetSnapshot> {
    match e {
        StoreEvent::Started(n, now) => update_named(t, n, |x: TargetSnapshot| x.started_at(now)),
        StoreEvent::Succeeded(n, r) => update_named(t, n, |x: TargetSnapshot| x.after_success(r)),
        StoreEvent::Failed(n, err, now) => update_named(t, n, |x: TargetSnapshot| x.after_failure(err, now)),
    }
}

/// The snapshots after the events, in order.
pub open spec fn after_events(t: Seq<TargetSnapshot>, es: Seq<StoreEvent>) -> Seq<TargetSnapshot>
    decreases es.len(),
{
    if es.len() == 0 {
        t
    } else {
        after_event(after_events(t, es.drop_last()), es.last())
    }
}

/// A snapshot is running exactly when it records a start, and has no more
/// failures than attempts.
pub open spec fn consistent(s: TargetSnapshot) -> bool {
    &&& s.scan_running == (s.scan_started is Some)
    &&& s.failure_count <= s.scan_count
}

/// Over any sequence of starts, successes and failures, every snapshot stays
/// consistent: it is running exactly when a start is recorded, and failures
/// never outnumber attempts. Attempts are counted in 64 bits, so this is
/// stated where no count can reach the largest `u64`.
pub proof fn law_events_keep_consistency(t: Seq<TargetSnapshot>, es: Seq<StoreEvent>)
    requires
        forall|i: int| 0 <= i < t.len() ==> consistent(#[trigger] t[i]),
        forall|i: int| 0 <= i < t.len() ==> #[trigger] t[i].scan_count + es.len() <= u64::MAX,
    ensures
        after_events(t, es).len() == t.len(),
        forall|i: int| 0 <= i < t.len() ==> consistent(#[trigger] after_events(t, es)[i]),
        forall|i: int| 0 <= i < t.len() ==> #[trigger] after_events(t, es)[i].scan_count <= t[i].scan_count + es.len(),
        forall|i: int| 0 <= i < t.len() ==> #[trigger] after_events(t, es)[i].target_name == t[i].target_name,
    decreases es.len(),
{
    if es.len() > 0 {
        let d = es.drop_last();
        law_events_keep_consistency(t, d);
        let u = after_events(t, d);
        let v = after_events(t, es);
        assert(v == after_event(u, es.last()));
        assert forall|i: int| 0 <= i < t.len() implies consistent(#[trigger] v[i]) && v[i].scan_count <= t[i].scan_count + es.len()
            && v[i].target_name == t[i].target_name by {
            assert(consistent(u[i]));
            assert(u[i].scan_count <= t[i].scan_count + d.len());
            assert(u[i].target_name == t[i].target_name);
        }
    }
}

/// Readiness is kept over any sequence of starts, successes and failures:
/// once every target has finished a scan, it stays so.
pub proof fn law_events_keep_ready(t: Seq<TargetSnapshot>, es: Seq<StoreEvent>)
    requires
        all_settled(t),
    ensures
        all_settled(after_events(t, es)),
    decreases es.len(),
{
    if es.len() > 0 {
        let d = es.drop_last();
        law_events_keep_ready(t, d);
        let u = after_events(t, d);
        match es.last() {
            StoreEvent::Started(n, now) => {
                law_ready_stays_ready(u, n, now, arbitrary(), arbitrary());
            },
            StoreEvent::Succeeded(n, r) => {
                law_ready_stays_ready(u, n, arbitrary(), r, arbitrary());
            },
            StoreEvent::Failed(n, err, now) => {
                law_ready_stays_ready(u, n, now, arbitrary(), err);
            },
        }
    }
}

/// The last snapshot in `xs` with the name `n`, if there is one.
pub open spec fn last_named(xs: Seq<TargetSnapshot>, n: Seq<char>) -> Option<TargetSnapshot>
    decreases xs.len(),
{
    if xs.len() == 0 {
        None
    } else if xs.last().target_name@ == n {
        Some(xs.last())
    } else {
        last_named(xs.drop_last(), n)
    }
}

proof fn lemma_by_name_last(xs: Seq<TargetSnapshot>, n: Seq<char>)
    ensures
        by_name(xs).dom().contains(n) <==> last_named(xs, n) is Some,
        last_named(xs, n) matches Some(x) ==> by_name(xs)[n] == x && x.target_name@ == n,
    decreases xs.len(),
{
    if xs.len() > 0 {
        lemma_by_name_last(xs.drop_last(), n);
    }
}

proof fn lemma_sorted_last_named(t: Seq<TargetSnapshot>, i: int)
    requires
        names_sorted(t),
        0 <= i < t.len(),
    ensures
        last_named(t, t[i].target_name@) == Some(t[i]),
    decreases t.len(),
{
    if i < t.len() - 1 {
        lemma_sorted_names_differ(t, i, t.len() - 1);
        let d = t.drop_last();
        assert(names_sorted(d));
        assert(d[i] == t[i]);
        lemma_sorted_last_named(d, i);
    }
}

proof fn lemma_last_named_member(xs: Seq<TargetSnapshot>, j: int)
    requires
        0 <= j < xs.len(),
    ensures
        last_named(xs, xs[j].target_name@) is Some,
    decreases xs.len(),
{
    if j < xs.len() - 1 && xs.last().target_name@ != xs[j].target_name@ {
        assert(xs.drop_last()[j] == xs[j]);
        lemma_last_named_member(xs.drop_last(), j);
    }
}

/// A store made from `xs` (`SnapshotStore::new`) holds, for each target name
/// in `xs`, the last snapshot of `xs` with that name, once each, in strictly
/// ascending name order; `snapshots()` hands out copies of them in that order.
pub proof fn law_store_holds_last_of_each_name(xs: Seq<TargetSnapshot>, t: Seq<TargetSnapshot>, r: Seq<TargetSnapshot>)
    requires
        names_sorted(t),
        by_name(t) == by_name(xs),
        r.len() == t.len(),
        forall|i: int| 0 <= i < r.len() ==> (#[trigger] r[i]).same_as(t[i]),
    ensures
        forall|i: int| 0 <= i < t.len() ==> last_named(xs, #[trigger] t[i].target_name@) == Some(t[i]),
        forall|j: int| 0 <= j < xs.len() ==> exists|i: int| 0 <= i < t.len() && #[trigger] t[i].target_name@ == #[trigger] xs[j].target_name@,
        forall|i: int, k: int| 0 <= i < k < r.len() ==> text_lt(#[trigger] r[i].target_name@, #[trigger] r[k].target_name@),
        forall|i: int| 0 <= i < r.len() ==> (#[trigger] r[i]).same_as(last_named(xs, r[i].target_name@)->0),
{
    assert forall|i: int| 0 <= i < t.len() implies last_named(xs, #[trigger] t[i].target_name@) == Some(t[i]) by {
        let n = t[i].target_name@;
        lemma_sorted_last_named(t, i);
        lemma_by_name_last(t, n);
        lemma_by_name_last(xs, n);
    }
    assert forall|j: int| 0 <= j < xs.len() implies exists|i: int| 0 <= i < t.len() && #[trigger] t[i].target_name@ == #[trigger] xs[j].target_name@ by {
        let n = xs[j].target_name@;
        lemma_last_named_member(xs, j);
        lemma_by_name_last(xs, n);
        lemma_by_name_last(t, n);
        lemma_last_named_in(t, n);
    }
    assert forall|i: int, k: int| 0 <= i < k < r.len() implies text_lt(#[trigger] r[i].target_name@, #[trigger] r[k].target_name@) by {
        assert(r[i].same_as(t[i]) && r[k].same_as(t[k]));
    }
    assert forall|i: int| 0 <= i < r.len() implies (#[trigger] r[i]).same_as(last_named(xs, r[i].target_name@)->0) by {
        assert(r[i].same_as(t[i]));
        lemma_sorted_last_named(t, i);
        lemma_by_name_last(t, t[i].target_name@);
        lemma_by_name_last(xs, t[i].target_name@);
    }
}

proof fn lemma_last_named_in(xs: Seq<TargetSnapshot>, n: Seq<char>)
    requires
        last_named(xs, n) is Some,
    ensures
        exists|i: int| 0 <= i < xs.len() && #[trigger] xs[i].target_name@ == n,
    decreases xs.len(),
{
    if xs.last().target_name@ == n {
        assert(xs[xs.len() - 1].target_name@ == n);
    } else {
        lemma_last_named_in(xs.drop_last(), n);
        let i = choose|i: int| 0 <= i < xs.drop_last().len() && #[trigger] xs.drop_last()[i].target_name@ == n;
        assert(xs[i] == xs.drop_last()[i]);
    }
}

/// Recording anything for a name that no target has changes nothing.
pub proof fn law_unknown_name_changes_nothing(t: Seq<TargetSnapshot>, name: Seq<char>, f: spec_fn(TargetSnapshot) -> TargetSnapshot)
    requires
        forall|i: int| 0 <= i < t.len() ==> (#[trigger] t[i]).target_name@ != name,
    ensures
        update_named(t, name, f) == t,
{
    assert(update_named(t, name, f) =~= t);
}

/// A finished scan ends the running state, whatever the start recorded.
pub proof fn law_finish_ends_running(s: TargetSnapshot, started: Duration, now: Duration, result: ScanResult, error: String)
    ensures
        !s.started_at(started).after_success(result).scan_running,
        s.started_at(started).after_success(result).scan_started is None,
        !s.started_at(started).after_failure(error, now).scan_running,
        s.started_at(started).after_failure(error, now).scan_started is None,
        s.started_at(started).after_success(result).last_error is None,
        s.started_at(started).after_failure(error, now).last_success == s.last_success,
{
}

/// What each recorded event does to a target's counts and outcomes: a start
/// marks it running since `now` and counts nothing; a success counts one
/// attempt and no failure, becomes the last success, clears the error and
/// dates the attempt at the scan's timestamp; a failure counts one attempt
/// and one failure, becomes the last error, keeps the last success and
/// dates the attempt at `now`. The target's identity and interval stay.
/// Counts are stated where none is at the largest `u64`.
pub proof fn law_event_effects(s: TargetSnapshot, now: Duration, result: ScanResult, error: String)
    requires
        s.scan_count < u64::MAX,
        s.failure_count < u64::MAX,
    ensures
        s.started_at(now).scan_running && s.started_at(now).scan_started == Some(now),
        s.started_at(now).scan_count == s.scan_count && s.started_at(now).failure_count == s.failure_count,
        s.started_at(now).last_success == s.last_success && s.started_at(now).last_error == s.last_error,
        s.after_success(result).scan_count == s.scan_count + 1,
        s.after_success(result).failure_count == s.failure_count,
        s.after_success(result).last_success == Some(result),
        s.after_success(result).last_error is None,
        s.after_success(result).last_attempt == Some(result.timestamp),
        s.after_failure(error, now).scan_count == s.scan_count + 1,
        s.after_failure(error, now).failure_count == s.failure_count + 1,
        s.after_failure(error, now).last_error == Some(error),
        s.after_failure(error, now).last_success == s.last_success,
        s.after_failure(error, now).last_attempt == Some(now),
        s.after_success(result).target_name == s.target_name && s.after_failure(error, now).target_name == s.target_name,
        s.after_success(result).interval == s.interval && s.after_failure(error, now).interval == s.interval,
{
}

} // verus!
