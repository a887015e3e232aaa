//! What a finished scan attempt does to the cached state.

use vstd::prelude::*;
use crate::cache::{SnapshotStore, TargetSnapshot, update_named};
use crate::config::Target;
use crate::scanner::ScanResult;
use crate::text::{decimal, dec, push_str};
use crate::time::{current_time, Duration};

verus! {

/// How one scan attempt ended.
#[derive(Debug)]
pub enum ScanOutcome {
    /// The scan finished with a result.
    Completed(ScanResult),
    /// The scan reported an error.
    Failed(String),
    /// The task running the scan ended abnormally.
    TaskFailed(String),
    /// The scan did not finish within the target's timeout.
    TimedOut,
}

/// `scan timed out after {seconds}s`
pub open spec fn timeout_message_text(timeout: Duration) -> Seq<char> {
    "scan timed out after "@ + dec(timeout.secs as nat) + "s"@
}

/// The error recorded when a scan times out.
pub fn timeout_message(timeout: &Duration) -> (m: String)
    ensures
        m@ == timeout_message_text(*timeout),
{
    let mut m = String::new();
    push_str(&mut m, "scan timed out after ");
    let secs = decimal(timeout.as_secs() as u128);
    push_str(&mut m, secs.as_str());
    push_str(&mut m, "s");
    assert(m@ =~= timeout_message_text(*timeout));
    m
}


/// Records how a scan attempt of `target` ended, at time `now`: a result is
/// a success; an error, a failed task or a timeout is a failure whose message
/// is the error text or the timeout message.
pub fn record_outcome_at(table: &mut SnapshotStore, target: &Target, outcome: ScanOutcome, now: Duration)
    requires
        old(table).wf(),
        forall|k: int| 0 <= k < old(table)@.len() && (#[trigger] old(table)@[k]).target_name@ == target.name@
            ==> old(table)@[k].scan_count < u64::MAX && old(table)@[k].failure_count < u64::MAX,
    ensures
        final(table).wf(),
        outcome matches ScanOutcome::Completed(r) ==> final(table)@ == update_named(old(table)@, target.name@, |x: TargetSnapshot| x.after_success(r)),
        outcome matches ScanOutcome::Failed(e) ==> final(table)@ == update_named(old(table)@, target.name@, |x: TargetSnapshot| x.after_failure(e, now)),
        outcome matches ScanOutcome::TaskFailed(e) ==> final(table)@ == update_named(old(table)@, target.name@, |x: TargetSnapshot| x.after_failure(e, now)),
        outcome is TimedOut ==> exists|m: String| #![trigger m@] m@ == timeout_message_text(target.timeout)
            && final(table)@ == update_named(old(table)@, target.name@, |x: TargetSnapshot| x.after_failure(m, now)),
{
    match outcome {
        ScanOutcome::Completed(result) => {
            table.record_success(target.name.as_str(), result);
        },
        ScanOutcome::Failed(error) => {
            table.record_failure_at(target.name.as_str(), error, now);
        },
        ScanOutcome::TaskFailed(error) => {
            table.record_failure_at(target.name.as_str(), error, now);
        },
        ScanOutcome::TimedOut => {
            let m = timeout_message(&target.timeout);
            let ghost mg = m;
            table.record_failure_at(target.name.as_str(), m, now);
            assert(mg@ == timeout_message_text(target.timeout));
        },
    }
}

/// Records how a scan attempt of `target` ended, now.
pub fn record_outcome(table: &mut SnapshotStore, target: &Target, outcome: ScanOutcome)
    requires
        old(table).wf(),
        forall|k: int| 0 <= k < old(table)@.len() && (#[trigger] old(table)@[k]).target_name@ == target.name@
            ==> old(table)@[k].scan_count < u64::MAX && old(table)@[k].failure_count < u64::MAX,
    ensures
        final(table).wf(),
        outcome matches ScanOutcome::Completed(r) ==> final(table)@ == update_named(old(table)@, target.name@, |x: TargetSnapshot| x.after_success(r)),
        outcome matches ScanOutcome::Failed(e) ==> exists|now: Duration| now.wf() && final(table)@ == update_named(old(table)@, target.name@, |x: TargetSnapshot| x.after_failure(e, now)),
        outcome matches ScanOutcome::TaskFailed(e) ==> exists|now: Duration| now.wf() && final(table)@ == update_named(old(table)@, target.name@, |x: TargetSnapshot| x.after_failure(e, now)),
        outcome is TimedOut ==> exists|m: String, now: Duration| #![trigger m@, now.wf()] now.wf() && m@ == timeout_message_text(target.timeout)
            && final(table)@ == update_named(old(table)@, target.name@, |x: TargetSnapshot| x.after_failure(m, now)),
{
    let now = current_time();
    record_outcome_at(table, target, outcome, now);
}

} // verus!
