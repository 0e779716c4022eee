//! Results of the operations.
use vstd::prelude::*;

verus! {

/// Why an operation failed.
#[derive(Debug, Clone, Copy, PartialEq, Eq, Structural)]
pub enum Error {
    /// Bad handle, wrong object type, or invalid argument.
    Invalid,
    /// The caller is not the mutex owner.
    Perm,
    /// The semaphore count would exceed its maximum.
    Overflow,
    /// The region could not be opened, created, mapped or locked, or is full;
    /// holds the error number.
    Init(i32),
}

/// How a wait ended.
#[derive(Debug, Clone, Copy, PartialEq, Eq, Structural)]
pub enum WaitOutcome {
    /// The object at `index` satisfied the wait; `owner_dead` is set when an
    /// abandoned mutex was acquired.
    Signaled { index: u32, owner_dead: bool },
    /// The time was up.
    Timeout,
    /// Bad arguments, or an object was closed during the wait.
    Invalid,
}

} // verus!
