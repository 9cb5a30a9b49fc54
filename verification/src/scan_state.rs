//! The cancellation signal of a scan: one flag, set from outside and
//! polled by the stages of the scan.

use vstd::prelude::*;
use std::sync::atomic::{AtomicBool, Ordering};
use std::sync::Arc;

verus! {

/// The cancellation signal. Handles that are made by [`CancelToken::share`]
/// are on one flag.
pub struct CancelToken {
    flag: Arc<AtomicBool>,
}

/// `Arc::clone`: another pointer to the same allocation, and so to the
/// same flag.
#[verifier::external_body]
fn same_flag(flag: &Arc<AtomicBool>) -> (other: Arc<AtomicBool>)
    ensures
        other == *flag,
{
    Arc::clone(flag)
}

impl CancelToken {
    /// A signal of its own, not set.
    pub fn new() -> (token: CancelToken) {
        CancelToken { flag: Arc::new(AtomicBool::new(false)) }
    }

    /// Another handle on the same flag: what is set through one of the two
    /// is what a poll through the other finds.
    pub fn share(&self) -> (token: CancelToken)
        ensures
            token == *self,
    {
        CancelToken { flag: same_flag(&self.flag) }
    }
}

/// Sets or clears the signal. Every handle on the flag sees the new value
/// at its next poll.
pub fn set_cancel_scan(token: &CancelToken, value: bool) {
    token.flag.store(value, Ordering::SeqCst);
}

/// Polls the signal: the value that was stored last, by this handle or by
/// another one.
pub fn is_scan_cancelled(token: &CancelToken) -> (cancelled: bool) {
    token.flag.load(Ordering::SeqCst)
}

} // verus!
