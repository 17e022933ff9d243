//! The retry loop of a single task, as decisions: after each attempt, whether
//! the task completed, is tried again after the policy's pause, or failed for
//! good. The caller runs the attempts and records the states.
use crate::retry_policy::RetryPolicy;
use std::time::Duration;
use vstd::prelude::*;

verus! {

/// What to do after an attempt of a task.
#[derive(Clone, Copy, Debug)]
pub enum AttemptOutcome {
    /// The attempt succeeded: record the task completed after `attempts` attempts.
    Completed { attempts: usize },
    /// The attempt failed and a retry remains: wait `delay`, then try again.
    Retry { delay: Duration },
    /// The last allowed attempt failed: record the task failed after `attempts` attempts.
    Failed { attempts: usize },
}

/// The decision after attempt number `attempts` out of `max_attempts`.
pub open spec fn attempt_decision(attempts: nat, max_attempts: nat, success: bool, delay: Duration) -> AttemptOutcome {
    if success {
        AttemptOutcome::Completed { attempts: attempts as usize }
    } else if attempts < max_attempts {
        AttemptOutcome::Retry { delay }
    } else {
        AttemptOutcome::Failed { attempts: attempts as usize }
    }
}

/// The final decision of a retry loop that has made `made` attempts, when
/// attempt number `i + 1` has the outcome `outcomes[i]`.
pub open spec fn retry_run(max_attempts: nat, outcomes: Seq<bool>, delay: Duration, made: nat) -> AttemptOutcome
    decreases max_attempts - made,
{
    let d = attempt_decision(made + 1, max_attempts, outcomes[made as int], delay);
    if d is Retry && made + 1 < max_attempts {
        retry_run(max_attempts, outcomes, delay, made + 1)
    } else {
        d
    }
}

/// Counts the attempts of one task against its retry policy.
pub struct RetryTracker {
    attempts: usize,
    max_attempts: usize,
    delay: Duration,
}

impl RetryTracker {
    /// Attempts begun so far.
    pub closed spec fn attempts_made(&self) -> nat {
        self.attempts as nat
    }

    /// Attempts allowed in all: the first one and each retry.
    pub closed spec fn max_attempts(&self) -> nat {
        self.max_attempts as nat
    }

    /// The pause before each retry.
    pub closed spec fn delay(&self) -> Duration {
        self.delay
    }

    /// A tracker for a task with the given policy; no attempt made yet.
    pub fn new(policy: &RetryPolicy) -> (res: Self)
        requires
            policy.max_retries < usize::MAX,
        ensures
            res.attempts_made() == 0,
            res.max_attempts() == policy.max_retries + 1,
            res.delay() == policy.retry_delay,
    {
        RetryTracker { attempts: 0, max_attempts: policy.max_retries + 1, delay: policy.retry_delay }
    }

    /// Begins the next attempt; returns its number (the first is 1).
    pub fn begin_attempt(&mut self) -> (n: usize)
        requires
            old(self).attempts_made() < old(self).max_attempts(),
        ensures
            final(self).attempts_made() == old(self).attempts_made() + 1,
            final(self).max_attempts() == old(self).max_attempts(),
            final(self).delay() == old(self).delay(),
            n == final(self).attempts_made(),
    {
        self.attempts = self.attempts + 1;
        self.attempts
    }

    /// The decision once the current attempt has succeeded or failed.
    pub fn record_outcome(&self, success: bool) -> (res: AttemptOutcome)
        requires
            1 <= self.attempts_made() <= self.max_attempts(),
        ensures
            res == attempt_decision(self.attempts_made(), self.max_attempts(), success, self.delay()),
            success ==> res == (AttemptOutcome::Completed { attempts: self.attempts_made() as usize }),
            !success && self.attempts_made() < self.max_attempts() ==> res == (AttemptOutcome::Retry {
                delay: self.delay(),
            }),
            !success && self.attempts_made() == self.max_attempts() ==> res == (AttemptOutcome::Failed {
                attempts: self.max_attempts() as usize,
            }),
    {
        proof {
            lemma_attempt_decision(self.attempts_made(), self.max_attempts(), success, self.delay());
        }
        if success {
            AttemptOutcome::Completed { attempts: self.attempts }
        } else if self.attempts < self.max_attempts {
            AttemptOutcome::Retry { delay: self.delay }
        } else {
            AttemptOutcome::Failed { attempts: self.attempts }
        }
    }
}

/// After a successful attempt the task is completed with the attempts made;
/// after a failed one it is tried again after exactly the given pause, whatever
/// the attempt's number, while attempts remain, and fails with the attempts made
/// once none remains.
pub proof fn lemma_attempt_decision(attempts: nat, max_attempts: nat, success: bool, delay: Duration)
    ensures
        success ==> attempt_decision(attempts, max_attempts, success, delay) == (AttemptOutcome::Completed {
            attempts: attempts as usize,
        }),
        !success && attempts < max_attempts ==> attempt_decision(attempts, max_attempts, success, delay) == (
        AttemptOutcome::Retry { delay }),
        !success && attempts >= max_attempts ==> attempt_decision(attempts, max_attempts, success, delay) == (
        AttemptOutcome::Failed { attempts: attempts as usize }),
{
}

/// The retry loop ends with the task completed on its first successful
/// attempt, if that comes within the allowed number of attempts, and otherwise
/// failed after exactly the allowed number of attempts.
pub proof fn lemma_retry_run(max_attempts: nat, outcomes: Seq<bool>, delay: Duration, made: nat)
    requires
        made < max_attempts <= usize::MAX,
        outcomes.len() >= max_attempts,
    ensures
        retry_run(max_attempts, outcomes, delay, made) == if exists|k: int|
            made <= k < max_attempts && #[trigger] outcomes[k] {
            AttemptOutcome::Completed {
                attempts: ((choose|k: int|
                    made <= k < max_attempts && #[trigger] outcomes[k] && forall|k2: int|
                        made <= k2 < k ==> !#[trigger] outcomes[k2]) + 1) as usize,
            }
        } else {
            AttemptOutcome::Failed { attempts: max_attempts as usize }
        },
    decreases max_attempts - made,
{
    let first_exists = exists|k: int| made <= k < max_attempts && #[trigger] outcomes[k];
    if outcomes[made as int] {
        assert(made <= made && outcomes[made as int]);
        let k = choose|k: int|
            made <= k < max_attempts && #[trigger] outcomes[k] && forall|k2: int| made <= k2 < k ==> !#[trigger] outcomes[k2];
        assert(made <= made < max_attempts && outcomes[made as int] && forall|k2: int|
            made <= k2 < made ==> !#[trigger] outcomes[k2]);
        if k > made {
            assert(!outcomes[made as int]);
        }
    } else if made + 1 < max_attempts {
        lemma_retry_run(max_attempts, outcomes, delay, made + 1);
        if first_exists {
            let k = choose|k: int| made <= k < max_attempts && #[trigger] outcomes[k];
            assert(k != made);
            assert(made + 1 <= k < max_attempts && outcomes[k]);
            // the first success after `made + 1` is the first success after `made`
            lemma_first_true_exists(outcomes, made as int, max_attempts as int);
            lemma_first_true_exists(outcomes, (made + 1) as int, max_attempts as int);
            let k1 = choose|k: int|
                made + 1 <= k < max_attempts && #[trigger] outcomes[k] && forall|k2: int|
                    made + 1 <= k2 < k ==> !#[trigger] outcomes[k2];
            let k0 = choose|k: int|
                made <= k < max_attempts && #[trigger] outcomes[k] && forall|k2: int| made <= k2 < k ==> !#[trigger] outcomes[k2];
            assert(k0 != made);
            if k0 < k1 {
                assert(!outcomes[k0]);
            }
            if k1 < k0 {
                assert(!outcomes[k1]);
            }
        }
    } else {
        if first_exists {
            let k = choose|k: int| made <= k < max_attempts && #[trigger] outcomes[k];
            assert(k == made);
        }
    }
}

/// If some entry in `lo..hi` is true, a first such entry exists.
proof fn lemma_first_true_exists(s: Seq<bool>, lo: int, hi: int)
    requires
        0 <= lo,
        hi <= s.len(),
        exists|k: int| lo <= k < hi && #[trigger] s[k],
    ensures
        exists|k: int| lo <= k < hi && #[trigger] s[k] && forall|k2: int| lo <= k2 < k ==> !#[trigger] s[k2],
    decreases hi - lo,
{
    if s[lo] {
        assert(lo <= lo < hi && s[lo] && forall|k2: int| lo <= k2 < lo ==> !#[trigger] s[k2]);
    } else {
        let k = choose|k: int| lo <= k < hi && #[trigger] s[k];
        assert(lo + 1 <= k < hi && s[k]);
        lemma_first_true_exists(s, lo + 1, hi);
        let k1 = choose|k: int| lo + 1 <= k < hi && #[trigger] s[k] && forall|k2: int| lo + 1 <= k2 < k ==> !#[trigger] s[k2];
        assert(forall|k2: int| lo <= k2 < k1 ==> !#[trigger] s[k2]);
    }
}

} // verus!
