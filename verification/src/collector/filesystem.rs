//! Filesystem targets, taken from the configuration as resolved.

use vstd::prelude::*;
use crate::collector::Collector;
use crate::config::{copy_targets, ConfigError, Target};

verus! {

/// The configured filesystem targets.
#[derive(Debug, Clone)]
pub struct FilesystemCollector {
    targets: Vec<Target>,
}

impl View for FilesystemCollector {
    type V = Seq<Target>;

    closed spec fn view(&self) -> Seq<Target> {
        self.targets@
    }
}

impl FilesystemCollector {
    pub fn new(targets: Vec<Target>) -> (c: FilesystemCollector)
        ensures
            c@ == targets@,
    {
        FilesystemCollector { targets }
    }
}

impl Collector for FilesystemCollector {
    /// Copies of the configured targets, in order; never fails.
    fn collect(&self) -> (r: Result<Vec<Target>, ConfigError>)
        ensures
            r matches Ok(v) && v@.len() == self@.len() && forall|i: int|
                0 <= i < v@.len() ==> (#[trigger] v@[i]).same_as(self@[i]),
    {
        Ok(copy_targets(&self.targets))
    }
}

} // verus!
