//! The ways a run can fail.
use vstd::prelude::*;

verus! {

/// A fatal error of one run; each variant names the failing operation and
/// carries the path, identifier or text involved.
#[derive(Debug, PartialEq, Eq)]
pub enum StoreError {
    /// A directory could not be read, or a marker could not be removed or created.
    Io(String),
    /// The closure query failed, or its output could not be parsed.
    Resolution(String),
    /// The mount-table query, the unmount or the mount failed.
    Mount(String),
    /// A collection task could not be joined.
    Concurrency(String),
}

} // verus!
