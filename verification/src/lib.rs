pub mod cascade;
pub mod dependency;
pub mod executor;
pub mod graph;
pub mod memory_storage;
pub mod options;
pub mod retry_policy;
pub mod scheduler;
pub mod task_state;
pub mod task_wrapper;
pub mod validation;
pub mod workflow;

pub use memory_storage::MemoryStorage;
pub use options::WorkflowOptions;
pub use retry_policy::RetryPolicy;
pub use scheduler::ExecutionState;
pub use task_state::TaskState;
pub use task_wrapper::TaskWrapper;
pub use validation::{validate_workflow_tasks, ValidationError};
pub use workflow::Workflow;
