//! The registry of targets, assembled from the collectors.

use vstd::prelude::*;
use crate::cache::{SnapshotStore, TargetSnapshot, names_sorted, by_name};
use crate::collector::Collector;
use crate::collector::filesystem::FilesystemCollector;
use crate::config::{Config, ConfigError, Target};

verus! {

/// The targets to scan, resolved from the configuration.
#[derive(Debug, Clone)]
pub struct TargetRegistry {
    targets: Vec<Target>,
}

impl View for TargetRegistry {
    type V = Seq<Target>;

    closed spec fn view(&self) -> Seq<Target> {
        self.targets@
    }
}

impl TargetRegistry {
    /// The registry of a configuration's targets, each resolved; the first
    /// target that cannot be resolved decides the error.
    pub fn from_config(config: &Config) -> (r: Result<TargetRegistry, ConfigError>)
        ensures
            r is Ok <==> forall|i: int|
                0 <= i < config.targets@.len() ==> config.resolution_problem(#[trigger] config.targets@[i]) is None,
            r matches Ok(reg) ==> reg@.len() == config.targets@.len() && forall|i: int|
                0 <= i < reg@.len() ==> config.resolves_to(config.targets@[i], #[trigger] reg@[i]),
            r matches Err(e) ==> exists|i: int|
                0 <= i < config.targets@.len() && (forall|j: int|
                    0 <= j < i ==> config.resolution_problem(#[trigger] config.targets@[j]) is None)
                    && config.resolution_problem(#[trigger] config.targets@[i]) == Some(e),
    {
        let resolved = match config.resolved_targets() {
            Ok(v) => v,
            Err(e) => {
                return Err(e);
            },
        };
        let ghost expected = resolved@;
        let collector = FilesystemCollector::new(resolved);
        match collector.collect() {
            Ok(targets) => {
                proof {
                    assert forall|i: int| 0 <= i < targets@.len() implies config.resolves_to(config.targets@[i], #[trigger] targets@[i]) by {
                        assert(targets@[i].same_as(expected[i]));
                        assert(config.resolves_to(config.targets@[i], expected[i]));
                    }
                }
                Ok(TargetRegistry { targets })
            },
            Err(e) => Err(e),
        }
    }

    /// The registered targets, in configuration order.
    pub fn targets(&self) -> (t: &[Target])
        ensures
            t@ == self@,
    {
        self.targets.as_slice()
    }

    /// A fresh table with the unscanned state of every registered target.
    pub fn snapshot_store(&self) -> (t: SnapshotStore)
        ensures
            t.wf(),
            names_sorted(t@),
            exists|v: Seq<TargetSnapshot>| #![trigger by_name(v)] {
                &&& v.len() == self@.len()
                &&& forall|i: int| 0 <= i < v.len() ==> (#[trigger] v[i]).is_initial_for(self@[i])
                &&& by_name(t@) == by_name(v)
            },
    {
        let mut snapshots: Vec<TargetSnapshot> = Vec::new();
        let mut i: usize = 0;
        while i < self.targets.len()
            invariant
                i <= self.targets@.len(),
                snapshots@.len() == i,
                forall|k: int| 0 <= k < i ==> (#[trigger] snapshots@[k]).is_initial_for(self.targets@[k]),
            decreases self.targets@.len() - i,
        {
            snapshots.push(TargetSnapshot::from_target(&self.targets[i]));
            i = i + 1;
        }
        let ghost v = snapshots@;
        let t = SnapshotStore::new(snapshots);
        assert(by_name(t@) == by_name(v));
        t
    }
}

} // verus!
