//! Signalling a daemon process: the liveness probe and the request to
//! terminate.

use crate::error::ErrorKind;
use nix::errno::Errno;
use nix::sys::signal::{kill, Signal};
use nix::unistd::Pid;
use vstd::prelude::*;

verus! {

/// What is asked of a process.
#[derive(Clone, Copy, Debug, PartialEq, Eq, Structural)]
pub enum Request {
    /// Check that the process exists, without disturbing it.
    Probe,
    /// Ask the process to terminate gracefully.
    Terminate,
}

/// How the operating system answered a [`Request`].
#[derive(Clone, Copy, Debug, PartialEq, Eq, Structural)]
pub enum SignalOutcome {
    /// The process exists and the request was accepted.
    Delivered,
    /// No process has the given id.
    NoSuchProcess,
    /// The request failed for another reason, such as missing permission.
    Refused,
}

/// Whether `pid` can name a single process: it is positive and fits the
/// operating system's signed process-id type.
pub open spec fn names_process(pid: u32) -> bool {
    0 < pid <= i32::MAX
}

/// Calls `nix::sys::signal::kill` on the process `pid`: with no signal for
/// [`Request::Probe`], so that only the existence and permission checks
/// run, and with `SIGTERM` for [`Request::Terminate`]. The answer depends on
/// the processes of the machine at the moment of the call, so nothing is
/// claimed of it. A `pid` that is not positive would address a process
/// group and is left out.
#[verifier::external_body]
pub(crate) fn signal_process(pid: i32, request: Request) -> (outcome: SignalOutcome)
    requires
        pid > 0,
{
    let signal = match request {
        Request::Probe => None,
        Request::Terminate => Some(Signal::SIGTERM),
    };
    match kill(Pid::from_raw(pid), signal) {
        Ok(()) => SignalOutcome::Delivered,
        Err(Errno::ESRCH) => SignalOutcome::NoSuchProcess,
        Err(_) => SignalOutcome::Refused,
    }
}

/// What a probe's outcome says about liveness: a process that is found is
/// alive, one that is reported missing is not, and any other answer is
/// surfaced as a failure instead of being read as "not alive".
pub open spec fn liveness_of(outcome: SignalOutcome) -> Result<bool, ErrorKind> {
    match outcome {
        SignalOutcome::Delivered => Ok(true),
        SignalOutcome::NoSuchProcess => Ok(false),
        SignalOutcome::Refused => Err(ErrorKind::ProcessControlFailure),
    }
}

/// Reads a probe's outcome as a liveness answer.
pub fn liveness(outcome: SignalOutcome) -> (answer: Result<bool, ErrorKind>)
    ensures
        answer == liveness_of(outcome),
{
    match outcome {
        SignalOutcome::Delivered => Ok(true),
        SignalOutcome::NoSuchProcess => Ok(false),
        SignalOutcome::Refused => Err(ErrorKind::ProcessControlFailure),
    }
}

/// What a termination request's outcome means for the caller: only a
/// delivered signal counts as success.
pub open spec fn delivery_of(outcome: SignalOutcome) -> Result<(), ErrorKind> {
    match outcome {
        SignalOutcome::Delivered => Ok(()),
        _ => Err(ErrorKind::ProcessControlFailure),
    }
}

/// Reads a termination request's outcome as success or failure.
pub fn delivery(outcome: SignalOutcome) -> (answer: Result<(), ErrorKind>)
    ensures
        answer == delivery_of(outcome),
{
    match outcome {
        SignalOutcome::Delivered => Ok(()),
        _ => Err(ErrorKind::ProcessControlFailure),
    }
}

} // verus!
