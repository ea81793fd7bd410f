//! The error taxonomy of the interpreter core.

use vstd::prelude::*;

verus! {

/// Every fault the engine can report.
///
/// `NoError` is the not-an-error sentinel returned by a successful step.
/// `StackUnderflow` and `InvalidInstruction` are fatal to the running
/// program; the lock errors are recoverable and the caller may retry the
/// step.  `UnhookedKeyBoard` is reserved and currently never produced.
#[derive(Debug, PartialEq, Eq, Structural, Clone, Copy)]
pub enum Error {
    NoError,
    StackUnderflow,
    ExecutionLocked,
    DelayTimerLocked,
    SoundTimerLocked,
    UnhookedKeyBoard,
    InvalidInstruction,
}

impl Error {
    /// True exactly for the errors that report contention on a shared
    /// handle, which a caller may recover from by retrying.
    pub fn locked(&self) -> (r: bool)
        ensures
            r == (self is DelayTimerLocked || self is ExecutionLocked || self is SoundTimerLocked),
    {
        match self {
            Error::DelayTimerLocked | Error::ExecutionLocked | Error::SoundTimerLocked => true,
            _ => false,
        }
    }

    /// A short description of the error, in place of a `Display` impl.
    pub fn message(&self) -> (r: &'static str)
        ensures
            self is NoError ==> r@ == "no error"@,
            self is StackUnderflow ==> r@ == "stack underflow: attempted to pop from an empty call stack"@,
            self is ExecutionLocked ==> r@ == "execution handle locked"@,
            self is DelayTimerLocked ==> r@ == "delay handle locked"@,
            self is SoundTimerLocked ==> r@ == "sound handle locked"@,
            self is UnhookedKeyBoard ==> r@ == "keyboard disconnected"@,
            self is InvalidInstruction ==> r@ == "invalid instruction"@,
    {
        match self {
            Error::NoError => "no error",
            Error::StackUnderflow => "stack underflow: attempted to pop from an empty call stack",
            Error::ExecutionLocked => "execution handle locked",
            Error::DelayTimerLocked => "delay handle locked",
            Error::SoundTimerLocked => "sound handle locked",
            Error::UnhookedKeyBoard => "keyboard disconnected",
            Error::InvalidInstruction => "invalid instruction",
        }
    }
}

} // verus!
