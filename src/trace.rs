//! Types of the operating system's process-tracing interface, as reached
//! through nix. The calls themselves are methods of `Inferior`.
use nix::errno::Errno;
use nix::libc::user_regs_struct;
use nix::sys::signal::Signal;
use nix::sys::wait::WaitPidFlag;
use nix::unistd::Pid;
use vstd::prelude::*;

verus! {

#[verifier::external_type_specification]
#[verifier::external_body]
pub struct ExPid(Pid);

#[verifier::external_type_specification]
#[verifier::external_body]
pub struct ExErrno(Errno);

#[verifier::external_type_specification]
#[verifier::external_body]
pub struct ExSignal(Signal);

#[verifier::external_type_specification]
#[verifier::external_body]
pub struct ExWaitPidFlag(WaitPidFlag);

#[verifier::external_type_specification]
#[verifier::external_body]
pub struct ExUserRegs(user_regs_struct);

/// Relies on nix::unistd::Pid::from_raw, which wraps a raw process id.
pub assume_specification[ Pid::from_raw ](pid: nix::libc::pid_t) -> Pid;

/// Registers of a stopped process: the instruction pointer and the frame
/// pointer, beside the full register set they were read from.
pub struct Registers {
    pub ip: usize,
    pub frame: usize,
    pub raw: user_regs_struct,
}

/// What the wait primitive reported.
pub enum WaitEvent {
    /// The process exited with this status code.
    Exited(i32),
    /// The process was terminated by this signal.
    Signaled(Signal),
    /// The process stopped on this signal.
    Stopped(Signal),
    /// Any other state change.
    Other,
}

} // verus!
