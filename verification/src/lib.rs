//! Host-side coordinator of a snapshot-based, coverage-guided kernel fuzzer.
//!
//! The crate holds the verified logic of the coordinator: the corpus and
//! coverage aggregator, the on-disk coverage database codec, the host side of
//! the shared-memory transport, and the decision logic of the hypervisor
//! control protocol. Around it sits a thin unverified rim that maps the
//! shared region, talks to the control socket, and moves files; it hands this
//! library plain values and mirrors the library's decisions back out.

pub mod bytes;
pub mod cov;
pub mod fuzz;
pub mod hash;
pub mod qemu;
pub mod vmio;

use vstd::prelude::*;

verus! {

use crate::qemu::VMExitMode;

/// How one session ended.
#[derive(Clone, Copy, Debug, PartialEq, Eq, Structural)]
pub enum SessionVerdict {
    /// The guest signalled a clean completion; the session's artifacts are
    /// merged.
    Clean,
    /// The guest ended otherwise; the current seed still advances, but
    /// nothing is merged.
    Terminated(VMExitMode),
}

/// One step of the session monitor: a clean completion wins; failing that, a
/// classified guest reset ends the session with its mode; failing both, keep
/// polling.
pub fn monitor_step(completed: bool, reset: Option<VMExitMode>) -> (r: Option<SessionVerdict>)
    ensures
        completed ==> r == Some(SessionVerdict::Clean),
        !completed ==> match reset {
            Some(m) => r == Some(SessionVerdict::Terminated(m)),
            None => r is None,
        },
{
    if completed {
        Some(SessionVerdict::Clean)
    } else {
        match reset {
            Some(m) => Some(SessionVerdict::Terminated(m)),
            None => None,
        }
    }
}

} // verus!
