//! The retry decisions of the HTTP fetch: which outcome of an attempt is
//! kept, and how long to wait before the next one.

use vstd::prelude::*;

verus! {

/// Attempts made for one URL at most.
pub const MAX_ATTEMPTS: u32 = 3;

/// Backoff base after a failed request, in milliseconds.
pub const ERROR_BACKOFF_MS: u64 = 100;

/// Backoff base after a rate-limiting status, in milliseconds.
pub const RATE_LIMIT_BACKOFF_MS: u64 = 1000;

/// What one attempt gave.
#[derive(Clone, Copy, Debug, PartialEq, Eq, Structural)]
pub enum Attempt {
    /// A response arrived with this status.
    Response(u16),
    /// The request failed (transport or timeout).
    Failed,
}

/// What to do after an attempt.
#[derive(Clone, Copy, Debug, PartialEq, Eq, Structural)]
pub enum RetryAction {
    /// Keep this response.
    Accept,
    /// Wait this many milliseconds, then try again.
    Retry(u64),
    /// Report the failure.
    GiveUp,
}

pub open spec fn pow2(n: nat) -> nat
    decreases n,
{
    if n == 0 {
        1
    } else {
        2 * pow2((n - 1) as nat)
    }
}

/// A status that asks the client to slow down.
pub open spec fn rate_limited(status: u16) -> bool {
    status == 429 || status == 503
}

/// The decision after attempt number `attempt` (from 1): a response is
/// kept, except a rate-limiting one before the last attempt, which waits
/// `1000 * 2^(attempt - 1)` ms; a failed request before the last attempt
/// waits `100 * 2^(attempt - 1)` ms; a failed last attempt gives up.
pub open spec fn retry_action(attempt: nat, outcome: Attempt) -> RetryAction {
    match outcome {
        Attempt::Response(s) => if rate_limited(s) && attempt < MAX_ATTEMPTS {
            RetryAction::Retry((RATE_LIMIT_BACKOFF_MS * pow2((attempt - 1) as nat)) as u64)
        } else {
            RetryAction::Accept
        },
        Attempt::Failed => if attempt < MAX_ATTEMPTS {
            RetryAction::Retry((ERROR_BACKOFF_MS * pow2((attempt - 1) as nat)) as u64)
        } else {
            RetryAction::GiveUp
        },
    }
}

/// The decision after attempt number `attempt`.
pub fn next_action(attempt: u32, outcome: Attempt) -> (r: RetryAction)
    requires
        1 <= attempt <= MAX_ATTEMPTS,
    ensures
        r == retry_action(attempt as nat, outcome),
{
    let factor: u64 = if attempt == 1 {
        1
    } else {
        2
    };
    proof {
        assert(pow2(0) == 1 && pow2(1) == 2) by {
            reveal_with_fuel(pow2, 2);
        }
    }
    match outcome {
        Attempt::Response(s) => {
            if (s == 429 || s == 503) && attempt < MAX_ATTEMPTS {
                RetryAction::Retry(RATE_LIMIT_BACKOFF_MS * factor)
            } else {
                RetryAction::Accept
            }
        },
        Attempt::Failed => {
            if attempt < MAX_ATTEMPTS {
                RetryAction::Retry(ERROR_BACKOFF_MS * factor)
            } else {
                RetryAction::GiveUp
            }
        },
    }
}

} // verus!
