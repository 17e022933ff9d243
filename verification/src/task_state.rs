//! The states a task passes through while a workflow runs.
use vstd::prelude::*;

verus! {

/// The lifecycle state of a task within a workflow run.
#[derive(Clone, Copy, Debug, PartialEq, Eq, Structural)]
pub enum TaskState {
    Pending,
    Running,
    Completed,
    Failed,
}

/// The text form of each state.
pub open spec fn state_name(s: TaskState) -> Seq<char> {
    match s {
        TaskState::Pending => "pending"@,
        TaskState::Running => "running"@,
        TaskState::Completed => "completed"@,
        TaskState::Failed => "failed"@,
    }
}

/// The state whose text form is `text`, if there is one.
pub open spec fn parse_state(text: Seq<char>) -> Option<TaskState> {
    if text == "pending"@ {
        Some(TaskState::Pending)
    } else if text == "running"@ {
        Some(TaskState::Running)
    } else if text == "completed"@ {
        Some(TaskState::Completed)
    } else if text == "failed"@ {
        Some(TaskState::Failed)
    } else {
        None
    }
}

/// The four names are pairwise different.
pub proof fn lemma_state_names_distinct()
    ensures
        "pending"@ != "running"@,
        "pending"@ != "completed"@,
        "pending"@ != "failed"@,
        "running"@ != "completed"@,
        "running"@ != "failed"@,
        "completed"@ != "failed"@,
{
    reveal_strlit("pending");
    reveal_strlit("running");
    reveal_strlit("completed");
    reveal_strlit("failed");
    assert("pending"@[0] != "running"@[0]);
    assert("pending"@[0] != "completed"@[0]);
    assert("pending"@[0] != "failed"@[0]);
    assert("running"@[0] != "completed"@[0]);
    assert("running"@[0] != "failed"@[0]);
    assert("completed"@[0] != "failed"@[0]);
}

/// Reading back the text form of a state gives that state.
pub proof fn lemma_parse_state_name(s: TaskState)
    ensures
        parse_state(state_name(s)) == Some(s),
{
    lemma_state_names_distinct();
}

/// Only the text form of a state reads as that state.
pub proof fn lemma_state_name_parse(text: Seq<char>)
    ensures
        parse_state(text) matches Some(s) ==> state_name(s) == text,
{
}

impl TaskState {
    /// The lower-case name of the state.
    pub fn as_str(&self) -> (res: &'static str)
        ensures
            res@ == state_name(*self),
    {
        match self {
            TaskState::Pending => "pending",
            TaskState::Running => "running",
            TaskState::Completed => "completed",
            TaskState::Failed => "failed",
        }
    }

    /// Reads a state from its lower-case name; any other text gives `None`.
    pub fn from_str(s: &str) -> (res: Option<TaskState>)
        ensures
            res == parse_state(s@),
    {
        let text = s.to_owned();
        if text == "pending".to_owned() {
            Some(TaskState::Pending)
        } else if text == "running".to_owned() {
            Some(TaskState::Running)
        } else if text == "completed".to_owned() {
            Some(TaskState::Completed)
        } else if text == "failed".to_owned() {
            Some(TaskState::Failed)
        } else {
            None
        }
    }

    /// The display form of the state: its lower-case name.
    pub fn to_string(&self) -> (res: String)
        ensures
            res@ == state_name(*self),
    {
        self.as_str().to_owned()
    }
}

} // verus!
