//! Options that shape how a workflow runs.
use vstd::prelude::*;

verus! {

/// Options for running a workflow.
#[derive(Clone, Copy, Debug)]
pub struct WorkflowOptions {
    /// Maximum number of concurrent tasks.
    pub max_concurrency: Option<usize>,
}

impl Default for WorkflowOptions {
    /// No limit on concurrency.
    fn default() -> (res: Self)
        ensures
            res.max_concurrency is None,
    {
        WorkflowOptions { max_concurrency: None }
    }
}

impl WorkflowOptions {
    /// The default options: no limit on concurrency.
    pub fn new() -> (res: Self)
        ensures
            res.max_concurrency is None,
    {
        WorkflowOptions { max_concurrency: None }
    }

    /// Limits the number of tasks that run at the same time to `value`.
    pub fn with_max_concurrency(self, value: usize) -> (res: Self)
        ensures
            res.max_concurrency == Some(value),
    {
        let mut o = self;
        o.max_concurrency = Some(value);
        o
    }
}

} // verus!
