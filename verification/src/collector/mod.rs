//! Sources of targets.

pub mod filesystem;

use vstd::prelude::*;
use crate::config::{ConfigError, Target};

verus! {

/// A source of targets to scan.
pub trait Collector {
    fn collect(&self) -> Result<Vec<Target>, ConfigError>;
}

} // verus!
