//! What is written to the log.
use vstd::prelude::*;
use crate::text::{contains_nul, has_nul};

verus! {

/// The priority of messages that help to find errors.
pub const ANDROID_LOG_DEBUG: i32 = 3;

/// The priority of messages that tell of errors.
pub const ANDROID_LOG_ERROR: i32 = 6;

/// Whether messages that only help to find errors are written.
pub const DEBUG_LOGGING: bool = false;

/// Whether a message is written.
pub open spec fn is_logged(priority: i32, msg: Seq<char>) -> bool {
    (DEBUG_LOGGING || priority >= ANDROID_LOG_ERROR) && !has_nul(msg)
}

/// Whether a message is written: only errors are, and only those that the log can hold.
pub fn should_log(priority: i32, msg: &str) -> (r: bool)
    ensures
        r == is_logged(priority, msg@),
        r == ((DEBUG_LOGGING || priority >= ANDROID_LOG_ERROR) && !has_nul(msg@)),
{
    if !DEBUG_LOGGING && priority < ANDROID_LOG_ERROR {
        return false;
    }
    !contains_nul(msg)
}

/// Errors are logged and nothing of less weight, and only where the text ends nowhere before its
/// end.
pub proof fn lemma_errors_are_logged(priority: i32, msg: Seq<char>)
    ensures
        is_logged(priority, msg) <==> priority >= 6 && forall|i: int|
            0 <= i < msg.len() ==> #[trigger] msg[i] != '\0',
{
}

} // verus!
