use vstd::prelude::*;

verus! {

/// What was found of a standard descriptor.
#[derive(Debug, Clone, Copy, PartialEq, Eq, Structural)]
pub enum Probe {
    /// The descriptor is open.
    Open,
    /// The descriptor is closed.
    Closed,
    /// It could not be found out.
    Failed,
}

/// How the null device is opened in the place of a closed descriptor.
#[derive(Debug, Clone, Copy, PartialEq, Eq, Structural)]
pub enum NullAccess {
    ReadOnly,
    WriteOnly,
}

/// What to do about a standard descriptor.
#[derive(Debug, Clone, Copy, PartialEq, Eq, Structural)]
pub enum StdStep {
    /// Leave it as it is.
    Keep,
    /// Point it at the null device.
    Reopen(NullAccess),
    /// Leave the process.
    GiveUp,
}

/// Decides what to do about the standard descriptor `fd`. A closed one
/// is pointed at the null device, opened the wrong way round: write-only
/// for standard input and read-only for the two outputs, so that whoever
/// uses the descriptor gets an error instead of silence.
pub fn stdxxx_step(fd: i32, probe: Probe) -> (step: StdStep)
    ensures
        step == (match probe {
            Probe::Open => StdStep::Keep,
            Probe::Closed => StdStep::Reopen(
                if fd == 0 {
                    NullAccess::WriteOnly
                } else {
                    NullAccess::ReadOnly
                },
            ),
            Probe::Failed => StdStep::GiveUp,
        }),
{
    match probe {
        Probe::Open => StdStep::Keep,
        Probe::Closed => {
            if fd == 0 {
                StdStep::Reopen(NullAccess::WriteOnly)
            } else {
                StdStep::Reopen(NullAccess::ReadOnly)
            }
        },
        Probe::Failed => StdStep::GiveUp,
    }
}

} // verus!
