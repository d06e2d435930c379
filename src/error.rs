use vstd::prelude::*;

verus! {

/// The memory mapping of a probed file could not be established.
#[derive(Debug, Clone, Copy, PartialEq, Eq, Structural)]
pub struct MapError {}

/// The kernel's residency query failed on an established mapping.
#[derive(Debug, Clone, Copy, PartialEq, Eq, Structural)]
pub struct MincoreError {}

impl MapError {
    pub fn new() -> (r: Self) {
        MapError {  }
    }

    pub fn message(&self) -> (r: &'static str)
        ensures
            r@ == "mmap error"@,
    {
        "mmap error"
    }
}

impl MincoreError {
    pub fn new() -> (r: Self) {
        MincoreError {  }
    }

    pub fn message(&self) -> (r: &'static str)
        ensures
            r@ == "mincore error"@,
    {
        "mincore error"
    }
}

/// Why one file could not be measured. Such a failure is local to that file.
#[derive(Debug, Clone, Copy, PartialEq, Eq, Structural)]
pub enum ProbeError {
    FileAccess,
    Mapping(MapError),
    Mincore(MincoreError),
}

/// Why a run cannot proceed: these are fatal for the whole run.
#[derive(Debug, Clone, Copy, PartialEq, Eq, Structural)]
pub enum ResolveError {
    /// The process has no mapping table (it does not exist or has exited).
    ProcessNotFound(usize),
    /// The container lookup itself failed.
    ContainerLookupFailed,
    /// The container reports no usable primary process id.
    ContainerPidUnavailable,
    /// The process listing used for descendant discovery could not be run.
    ProcessListingFailed,
    /// The percentage bounds are out of range or reversed.
    InvalidFilterRange,
}

} // verus!
