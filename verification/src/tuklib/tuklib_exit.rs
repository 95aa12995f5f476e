use vstd::prelude::*;

verus! {

/// The status that the process leaves with: `status`, unless a standard
/// stream could not be flushed, which makes it `err_status`. The streams
/// are flushed only while the status is not `err_status` already,
/// standard output first.
pub open spec fn exit_status_of(status: i32, err_status: i32, stdout_failed: bool, stderr_failed: bool) -> i32 {
    if stdout_failed || stderr_failed {
        err_status
    } else {
        status
    }
}

/// Computes the status to leave the process with, from the status asked
/// for and from what became of flushing the two standard streams.
pub fn exit_status(status: i32, err_status: i32, stdout_failed: bool, stderr_failed: bool) -> (code: i32)
    ensures
        code == exit_status_of(status, err_status, stdout_failed, stderr_failed),
{
    let mut code: i32 = status;
    if code != err_status && stdout_failed {
        code = err_status;
    }
    if code != err_status && stderr_failed {
        code = err_status;
    }
    code
}

/// Whether the failure to flush standard output is told on standard
/// error: where the caller asks for it, and the flush was tried and
/// failed.
pub fn shows_error(status: i32, err_status: i32, show_error: i32, stdout_failed: bool) -> (shown: bool)
    ensures
        shown == (status != err_status && stdout_failed && show_error != 0),
{
    status != err_status && stdout_failed && show_error != 0
}

} // verus!
