//! How often, and after what pause, a failing task is tried again.
use std::time::Duration;
use vstd::prelude::*;

verus! {

/// The duration of `secs` whole seconds, as `Duration::from_secs` builds it.
pub uninterp spec fn duration_of_secs(secs: u64) -> Duration;

/// Calls `std::time::Duration::from_secs`. Its result is a function of the
/// number of seconds alone, named `duration_of_secs`; nothing more is claimed.
#[verifier::external_body]
fn duration_from_secs(secs: u64) -> (d: Duration)
    ensures
        d == duration_of_secs(secs),
{
    Duration::from_secs(secs)
}

/// The retry behaviour of one task.
#[derive(Clone, Copy, Debug)]
pub struct RetryPolicy {
    /// How many times a failed task is tried again (the first attempt not counted).
    pub max_retries: usize,
    /// The pause before each new attempt.
    pub retry_delay: Duration,
}

impl RetryPolicy {
    /// No retries and no pause.
    pub fn default() -> (res: Self)
        ensures
            res.max_retries == 0,
            res.retry_delay == duration_of_secs(0),
    {
        RetryPolicy { max_retries: 0, retry_delay: duration_from_secs(0) }
    }

    pub fn new(max_retries: usize, retry_delay: Duration) -> (res: Self)
        ensures
            res.max_retries == max_retries,
            res.retry_delay == retry_delay,
    {
        RetryPolicy { max_retries, retry_delay }
    }

    pub fn with_max_retries(self, value: usize) -> (res: Self)
        ensures
            res.max_retries == value,
            res.retry_delay == self.retry_delay,
    {
        let mut p = self;
        p.max_retries = value;
        p
    }

    pub fn with_retry_delay(self, value: Duration) -> (res: Self)
        ensures
            res.max_retries == self.max_retries,
            res.retry_delay == value,
    {
        let mut p = self;
        p.retry_delay = value;
        p
    }
}

} // verus!
