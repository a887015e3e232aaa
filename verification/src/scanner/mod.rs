//! What one scan of a target observes, and how scanners are chosen.

pub mod exclude;
pub mod native;

use vstd::prelude::*;
use crate::config::Target;
use crate::time::Duration;
use crate::scanner::native::{NativeScanner, native_result_is, name_views};
use crate::text::{concat2, concat3, debug_quote, debug_quoted, same_text};

verus! {

/// The outcome of one successful scan.
#[derive(Debug, Clone)]
pub struct ScanResult {
    pub backend: String,
    /// The reported nodes, in path order.
    pub observations: Vec<NodeObservation>,
    /// Direct non-directory entries of reported nodes.
    pub entries: Vec<EntryObservation>,
    pub permission_errors: u64,
    pub missing_path_races: u64,
    pub skipped_cross_device: u64,
    pub skipped_excluded: u64,
    pub scanned_files: u64,
    pub scanned_directories: u64,
    pub scanned_symlinks: u64,
    pub max_observed_depth: usize,
    pub depth_limit_hits: u64,
    /// How long the scan took.
    pub duration: Duration,
    /// When the scan started, as time since the Unix epoch.
    pub timestamp: Duration,
}

/// One non-directory entry directly inside a directory.
#[derive(Debug, Clone, PartialEq, Eq)]
pub struct EntryObservation {
    pub parent_path: String,
    pub path: String,
    pub name: String,
    pub entry_type: EntryType,
    pub depth: usize,
    pub blocks: u64,
    pub apparent: u64,
}

/// The kind of a filesystem entry.
#[derive(Debug, Clone, Copy, PartialEq, Eq, Structural)]
pub enum EntryType {
    File,
    Directory,
    Symlink,
    Other,
}

impl EntryType {
    pub open spec fn name(self) -> Seq<char> {
        match self {
            EntryType::File => "file"@,
            EntryType::Directory => "directory"@,
            EntryType::Symlink => "symlink"@,
            EntryType::Other => "other"@,
        }
    }

    /// The label text of the kind.
    pub fn as_str(self) -> (s: &'static str)
        ensures
            s@ == self.name(),
    {
        match self {
            EntryType::File => "file",
            EntryType::Directory => "directory",
            EntryType::Symlink => "symlink",
            EntryType::Other => "other",
        }
    }
}

/// Sizes and entry counts of one reported directory.
///
/// `own_*` counts what the directory holds directly; `children_*` what lies
/// under its child directories.
#[derive(Debug, Clone, PartialEq, Eq)]
pub struct NodeObservation {
    pub path: String,
    pub parent: String,
    pub node: String,
    pub depth: usize,
    pub own_blocks: u64,
    pub children_blocks: u64,
    pub own_apparent: u64,
    pub children_apparent: u64,
    pub file_count: u64,
    pub directory_count: u64,
    pub symlink_count: u64,
    pub children_file_count: u64,
    pub children_directory_count: u64,
    pub children_symlink_count: u64,
}

/// The values of a node observation.
pub struct NodeView {
    pub path: Seq<char>,
    pub parent: Seq<char>,
    pub node: Seq<char>,
    pub depth: usize,
    pub own_blocks: u64,
    pub children_blocks: u64,
    pub own_apparent: u64,
    pub children_apparent: u64,
    pub file_count: u64,
    pub directory_count: u64,
    pub symlink_count: u64,
    pub children_file_count: u64,
    pub children_directory_count: u64,
    pub children_symlink_count: u64,
}

impl View for NodeObservation {
    type V = NodeView;

    open spec fn view(&self) -> NodeView {
        NodeView {
            path: self.path@,
            parent: self.parent@,
            node: self.node@,
            depth: self.depth,
            own_blocks: self.own_blocks,
            children_blocks: self.children_blocks,
            own_apparent: self.own_apparent,
            children_apparent: self.children_apparent,
            file_count: self.file_count,
            directory_count: self.directory_count,
            symlink_count: self.symlink_count,
            children_file_count: self.children_file_count,
            children_directory_count: self.children_directory_count,
            children_symlink_count: self.children_symlink_count,
        }
    }
}

/// The values of an entry observation.
pub struct EntryView {
    pub parent_path: Seq<char>,
    pub path: Seq<char>,
    pub name: Seq<char>,
    pub entry_type: EntryType,
    pub depth: usize,
    pub blocks: u64,
    pub apparent: u64,
}

impl View for EntryObservation {
    type V = EntryView;

    open spec fn view(&self) -> EntryView {
        EntryView {
            parent_path: self.parent_path@,
            path: self.path@,
            name: self.name@,
            entry_type: self.entry_type,
            depth: self.depth,
            blocks: self.blocks,
            apparent: self.apparent,
        }
    }
}

impl NodeObservation {
    pub fn copy(&self) -> (r: NodeObservation)
        ensures
            r == *self,
    {
        NodeObservation {
            path: self.path.clone(),
            parent: self.parent.clone(),
            node: self.node.clone(),
            depth: self.depth,
            own_blocks: self.own_blocks,
            children_blocks: self.children_blocks,
            own_apparent: self.own_apparent,
            children_apparent: self.children_apparent,
            file_count: self.file_count,
            directory_count: self.directory_count,
            symlink_count: self.symlink_count,
            children_file_count: self.children_file_count,
            children_directory_count: self.children_directory_count,
            children_symlink_count: self.children_symlink_count,
        }
    }
}

impl EntryObservation {
    pub fn copy(&self) -> (r: EntryObservation)
        ensures
            r == *self,
    {
        EntryObservation {
            parent_path: self.parent_path.clone(),
            path: self.path.clone(),
            name: self.name.clone(),
            entry_type: self.entry_type,
            depth: self.depth,
            blocks: self.blocks,
            apparent: self.apparent,
        }
    }
}

impl ScanResult {
    /// The two results hold the same observations and counts.
    pub open spec fn same_as(self, other: ScanResult) -> bool {
        &&& self.backend == other.backend
        &&& self.observations@ == other.observations@
        &&& self.entries@ == other.entries@
        &&& self.permission_errors == other.permission_errors
        &&& self.missing_path_races == other.missing_path_races
        &&& self.skipped_cross_device == other.skipped_cross_device
        &&& self.skipped_excluded == other.skipped_excluded
        &&& self.scanned_files == other.scanned_files
        &&& self.scanned_directories == other.scanned_directories
        &&& self.scanned_symlinks == other.scanned_symlinks
        &&& self.max_observed_depth == other.max_observed_depth
        &&& self.depth_limit_hits == other.depth_limit_hits
        &&& self.duration == other.duration
        &&& self.timestamp == other.timestamp
    }

    pub fn copy(&self) -> (r: ScanResult)
        ensures
            r.same_as(*self),
    {
        let mut observations: Vec<NodeObservation> = Vec::new();
        let mut i: usize = 0;
        while i < self.observations.len()
            invariant
                i <= self.observations@.len(),
                observations@ == self.observations@.take(i as int),
            decreases self.observations@.len() - i,
        {
            observations.push(self.observations[i].copy());
            assert(observations@ =~= self.observations@.take(i + 1));
            i = i + 1;
        }
        assert(self.observations@.take(i as int) =~= self.observations@);
        let mut entries: Vec<EntryObservation> = Vec::new();
        let mut j: usize = 0;
        while j < self.entries.len()
            invariant
                j <= self.entries@.len(),
                entries@ == self.entries@.take(j as int),
            decreases self.entries@.len() - j,
        {
            entries.push(self.entries[j].copy());
            assert(entries@ =~= self.entries@.take(j + 1));
            j = j + 1;
        }
        assert(self.entries@.take(j as int) =~= self.entries@);
        ScanResult {
            backend: self.backend.clone(),
            observations,
            entries,
            permission_errors: self.permission_errors,
            missing_path_races: self.missing_path_races,
            skipped_cross_device: self.skipped_cross_device,
            skipped_excluded: self.skipped_excluded,
            scanned_files: self.scanned_files,
            scanned_directories: self.scanned_directories,
            scanned_symlinks: self.scanned_symlinks,
            max_observed_depth: self.max_observed_depth,
            depth_limit_hits: self.depth_limit_hits,
            duration: self.duration,
            timestamp: self.timestamp,
        }
    }

    /// Entries skipped or lost during the scan, all kinds together.
    pub open spec fn issue_total(self) -> int {
        self.permission_errors + self.missing_path_races + self.skipped_cross_device
            + self.skipped_excluded
    }

    /// The number of issues, when it fits in 64 bits.
    pub fn issue_count(&self) -> (n: u64)
        requires
            self.issue_total() <= u64::MAX,
        ensures
            n == self.issue_total(),
    {
        self.permission_errors + self.missing_path_races + self.skipped_cross_device + self.skipped_excluded
    }
}

/// Why a scanner could not be made for a target.
#[derive(Debug, Clone, PartialEq, Eq)]
pub enum ScannerError {
    /// An exclude pattern is not a valid glob.
    InvalidExcludePattern { pattern: String },
    /// The exclude patterns could not be compiled together; `reason` is the
    /// glob crate's account of why.
    ExcludeSet { reason: String },
    /// The target asks for a scanner backend that does not exist.
    UnsupportedScanner { target: String, scanner: String },
}

impl ScannerError {
    /// The message that reports the error.
    pub open spec fn message(self) -> Seq<char> {
        match self {
            ScannerError::InvalidExcludePattern { pattern } => "invalid exclude pattern "@ + debug_quoted(pattern@),
            ScannerError::ExcludeSet { reason } => reason@,
            ScannerError::UnsupportedScanner { target, scanner } => "target "@ + target@ + " uses unsupported scanner "@
                + debug_quoted(scanner@),
        }
    }

    /// The message that reports the error, as text.
    pub fn text(&self) -> (r: String)
        ensures
            r@ == self.message(),
    {
        match self {
            ScannerError::InvalidExcludePattern { pattern } => {
                let q = debug_quote(pattern.as_str());
                concat2("invalid exclude pattern ", q.as_str())
            },
            ScannerError::ExcludeSet { reason } => reason.clone(),
            ScannerError::UnsupportedScanner { target, scanner } => {
                let q = debug_quote(scanner.as_str());
                let r = concat2(" uses unsupported scanner ", q.as_str());
                let m = concat3("target ", target.as_str(), r.as_str());
                assert(m@ =~= self.message());
                m
            },
        }
    }
}

/// A scanner backend.
pub trait Scanner {
    /// The backend's name, as results report it.
    fn backend(&self) -> &'static str;
}

/// The scanner a target asks for: the native scanner, built with the target's
/// exclude patterns, or an error for any other backend name.
pub fn build(target: &Target) -> (r: Result<NativeScanner, ScannerError>)
    ensures
        target.scanner@ == "native"@ ==> native_result_is(r, name_views(target.exclude@)),
        target.scanner@ != "native"@ ==> (r matches Err(ScannerError::UnsupportedScanner { target: t, scanner: s })
            && t@ == target.name@ && s@ == target.scanner@),
{
    if same_text(target.scanner.as_str(), "native") {
        NativeScanner::new(target)
    } else {
        Err(ScannerError::UnsupportedScanner { target: target.name.clone(), scanner: target.scanner.clone() })
    }
}

} // verus!
