//! The errors the library reports.
use vstd::prelude::*;

verus! {

/// What went wrong. Only registry and start-up failures end a run; the others
/// make a single node barren.
#[derive(Debug, Clone, Copy, PartialEq, Eq, Structural)]
pub enum TrackerError {
    RegistryUnavailable,
    VersionUnparseable,
    RangeUnparseable,
    WorkspaceMissing,
    DuplicateWorkspace,
    MaterializationFailed,
    PatchFailed,
    AnalyzerTimeout,
    AnalyzerExitedNonZero,
    SearchFailed,
    ArtifactWriteFailed,
}

} // verus!
