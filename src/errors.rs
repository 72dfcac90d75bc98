use vstd::prelude::*;

verus! {

/// Failures that a manager operation reports to the command that asked for it.
#[derive(Debug)]
pub enum BpfmanError {
    /// The interface name does not resolve to a kernel interface index.
    InvalidInterface,
    /// The kernel rejected the program object; the reason is forwarded as given.
    LoadFailure(String),
    /// The dispatcher has no free tail-call slot for another program.
    CapacityExceeded,
    /// No program with that id (or no pinned map with that name) on the interface.
    NotFound,
    /// The pinning filesystem could not be mounted.
    MountFailure(String),
    /// A generic file or permission failure.
    Error(String),
}

} // verus!
