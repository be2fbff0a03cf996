use vstd::prelude::*;

verus! {

/// The value with which a command reports that it could not complete.
///
/// A fault is never swallowed by a queue: the flush that meets one repairs its
/// own bookkeeping and hands the same value on to its caller.
#[derive(Clone, Copy, Debug, PartialEq, Eq, Structural)]
pub struct Fault {
    /// Chosen by the command that raised the fault; the queue never reads it.
    pub code: u64,
}

} // verus!
