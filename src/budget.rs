//! The upstream error budget and how each response is classified.
use vstd::prelude::*;
use crate::text::{chars_of, decimal_u32, parse_u32};

verus! {

/// Errors the upstream allows before the client starts to wait.
pub const INITIAL_ERRORS_REMAINING: u32 = 100;

/// At or below this many remaining errors, each request first waits out the
/// reset time.
pub const THROTTLE_THRESHOLD: u32 = 10;

/// The upstream's advertised error budget: errors left, and seconds until
/// the count resets.
#[derive(Debug, Clone, Copy, PartialEq, Eq, Structural)]
pub struct ErrorBudget {
    pub errors_remaining: u32,
    pub reset_seconds: u32,
}

/// What a response means for the request that got it.
#[derive(Debug, Clone, Copy, PartialEq, Eq, Structural)]
pub enum ResponseOutcome {
    /// Status 200: hand the response back.
    Success,
    /// Status 420: wait this many seconds, then fail.
    Throttled { wait_seconds: u32 },
    /// Any other 4xx: fail.
    ClientError { status: u16 },
    /// A 5xx: fail.
    ServerError { status: u16 },
    /// Any other status: fail.
    Unexpected { status: u16 },
}

/// The decimal value of an optional header.
pub open spec fn header_u32(h: Option<&str>) -> Option<u32> {
    match h {
        Some(s) => decimal_u32(s@),
        None => None,
    }
}

fn read_header_u32(h: Option<&str>) -> (r: Option<u32>)
    ensures
        r == header_u32(h),
{
    match h {
        Some(s) => {
            let cs = chars_of(s);
            parse_u32(&cs)
        },
        None => None,
    }
}

impl ErrorBudget {
    /// The budget before any response: 100 errors left, no reset pending.
    pub fn new() -> (r: ErrorBudget)
        ensures
            r.errors_remaining == INITIAL_ERRORS_REMAINING,
            r.reset_seconds == 0,
    {
        ErrorBudget { errors_remaining: INITIAL_ERRORS_REMAINING, reset_seconds: 0 }
    }

    /// Seconds to wait before a new request may begin: the reset time while
    /// 10 or fewer errors remain, else none.
    pub fn wait_before_request(&self) -> (r: u32)
        ensures
            self.errors_remaining <= THROTTLE_THRESHOLD ==> r == self.reset_seconds,
            self.errors_remaining > THROTTLE_THRESHOLD ==> r == 0,
    {
        if self.errors_remaining <= THROTTLE_THRESHOLD {
            self.reset_seconds
        } else {
            0
        }
    }

    /// Records a transport failure of attempt `attempt` (0 for the first
    /// send) and says whether to send again: the first failure costs one
    /// error (never below zero) and is retried once; a second is not.
    pub fn on_transport_failure(&mut self, attempt: u32) -> (retry: bool)
        ensures
            retry == (attempt == 0),
            attempt == 0 ==> final(self).errors_remaining == if old(self).errors_remaining > 0 {
                (old(self).errors_remaining - 1) as u32
            } else {
                0
            },
            attempt != 0 ==> final(self).errors_remaining == old(self).errors_remaining,
            final(self).reset_seconds == old(self).reset_seconds,
    {
        if attempt == 0 {
            if self.errors_remaining > 0 {
                self.errors_remaining = self.errors_remaining - 1;
            }
            true
        } else {
            false
        }
    }

    /// Classifies a response by status. A 4xx other than 420 also takes the
    /// budget headers `x-esi-error-limit-remain` and `x-esi-error-limit-reset`
    /// into the budget (each where it holds a decimal `u32`); 420 waits the
    /// current reset time; nothing else changes the budget.
    pub fn on_response(&mut self, status: u16, remain: Option<&str>, reset: Option<&str>) -> (r: ResponseOutcome)
        ensures
            status == 200 ==> r == ResponseOutcome::Success,
            status == 420 ==> r == (ResponseOutcome::Throttled { wait_seconds: old(self).reset_seconds }),
            400 <= status <= 499 && status != 420 ==> r == (ResponseOutcome::ClientError { status }),
            500 <= status <= 599 ==> r == (ResponseOutcome::ServerError { status }),
            status != 200 && !(400 <= status <= 599) ==> r == (ResponseOutcome::Unexpected { status }),
            400 <= status <= 499 && status != 420 ==> {
                &&& final(self).errors_remaining == match header_u32(remain) {
                    Some(n) => n,
                    None => old(self).errors_remaining,
                }
                &&& final(self).reset_seconds == match header_u32(reset) {
                    Some(n) => n,
                    None => old(self).reset_seconds,
                }
            },
            !(400 <= status <= 499 && status != 420) ==> *final(self) == *old(self),
    {
        if status == 200 {
            ResponseOutcome::Success
        } else if status == 420 {
            ResponseOutcome::Throttled { wait_seconds: self.reset_seconds }
        } else if 400 <= status && status <= 499 {
            if let Some(n) = read_header_u32(remain) {
                self.errors_remaining = n;
            }
            if let Some(n) = read_header_u32(reset) {
                self.reset_seconds = n;
            }
            ResponseOutcome::ClientError { status }
        } else if 500 <= status && status <= 599 {
            ResponseOutcome::ServerError { status }
        } else {
            ResponseOutcome::Unexpected { status }
        }
    }
}

} // verus!
