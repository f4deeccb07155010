//! What results of Windows calls mean.

use vstd::prelude::*;

verus! {

/// System error: there was nothing to cancel.
pub const ERROR_NOT_FOUND: u32 = 1168;

/// A Windows call that failed.
#[derive(Clone, Copy, Debug)]
pub struct WinError {
    pub code: u32,
    /// The call.
    pub context: &'static str,
}

/// What asking a thread's pending I/O to be cancelled came to: whether an
/// operation was cancelled. A thread that waits in none that can be cancelled is
/// no error. `succeeded` and `code` are what the call and the last error say.
pub fn cancel_outcome(succeeded: bool, code: u32) -> (res: Result<bool, WinError>)
    ensures
        match res {
            Ok(cancelled) => cancelled == succeeded && (succeeded || code == ERROR_NOT_FOUND),
            Err(e) => !succeeded && code != ERROR_NOT_FOUND && e.code == code && e.context@
                == "CancelSynchronousIo"@,
        },
{
    if succeeded {
        return Ok(true);
    }
    if code == ERROR_NOT_FOUND {
        return Ok(false);
    }
    Err(WinError { code, context: "CancelSynchronousIo" })
}

/// What duplicating the calling thread's handle came to.
pub fn duplicate_outcome(succeeded: bool, code: u32) -> (res: Result<(), WinError>)
    ensures
        match res {
            Ok(_) => succeeded,
            Err(e) => !succeeded && e.code == code && e.context@
                == "DuplicateHandle(GetCurrentThread)"@,
        },
{
    if succeeded {
        Ok(())
    } else {
        Err(WinError { code, context: "DuplicateHandle(GetCurrentThread)" })
    }
}

} // verus!
