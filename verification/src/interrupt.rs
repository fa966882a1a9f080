//! The interrupt policy: whether an interrupt received while a child
//! script runs should kill the host process. The process-wide handler that
//! consults it is installed outside the crate; the policy itself is a
//! plain value threaded through, not hidden global state.

use vstd::prelude::*;

verus! {

/// How the process reacts to an interrupt signal.
#[derive(Debug, Clone, Copy, PartialEq, Eq, Structural)]
pub enum Mode {
    /// Swallow the interrupt: a child script is running (or just finished)
    /// and the interrupt was meant for it.
    Ignore,
    /// Terminate the process.
    Kill,
}

/// The decision the interrupt handler takes for a given policy.
pub fn interrupt_kills(mode: Mode) -> (r: bool)
    ensures
        r == (mode is Kill),
{
    match mode {
        Mode::Kill => true,
        Mode::Ignore => false,
    }
}

} // verus!
