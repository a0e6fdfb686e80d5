//! How a profiler's run is judged by the way it ended.

use vstd::prelude::*;

verus! {

/// The number of the signal that interrupts a process from the keyboard.
pub const SIGINT: i32 = 2;

/// The number of the signal that asks a process to terminate.
pub const SIGTERM: i32 = 15;

/// `signal_hook::SIGINT`, which is `libc::SIGINT`: 2 on every platform that
/// `libc` defines it for.
#[verifier::external_body]
fn interrupt_signal() -> (signal: i32)
    ensures
        signal == SIGINT,
{
    signal_hook::SIGINT
}

/// `signal_hook::SIGTERM`, which is `libc::SIGTERM`: 15 on every platform
/// that `libc` defines it for.
#[verifier::external_body]
fn termination_signal() -> (signal: i32)
    ensures
        signal == SIGTERM,
{
    signal_hook::SIGTERM
}

/// How a process ended: the signal that killed it, if one did, and whether
/// it reported success.
#[derive(Clone, Copy, Debug, PartialEq, Eq)]
pub struct Exit {
    pub signal: Option<i32>,
    pub success: bool,
}

/// The profiler failed.
#[derive(Clone, Copy, Debug, PartialEq, Eq)]
pub struct ProfilerProcessFailure;

/// Whether a process that ended this way failed by itself: it did not
/// succeed, and it was not stopped by an interrupt or a request to
/// terminate, which is taken to come from the user.
pub open spec fn ended_by_error(exit: Exit) -> bool {
    !exit.success && exit.signal != Some(SIGINT) && exit.signal != Some(SIGTERM)
}

/// Whether a process that ended this way failed by itself.
pub fn terminated_by_error(exit: Exit) -> (r: bool)
    ensures
        r == ended_by_error(exit),
{
    let by_itself = match exit.signal {
        None => true,
        Some(code) => code != interrupt_signal() && code != termination_signal(),
    };
    by_itself && !exit.success
}

/// Judges the run of a profiler by the way its process ended.
pub fn run_profiler(exit: Exit) -> (r: Result<(), ProfilerProcessFailure>)
    ensures
        r is Err <==> ended_by_error(exit),
{
    if terminated_by_error(exit) {
        Err(ProfilerProcessFailure)
    } else {
        Ok(())
    }
}

} // verus!
