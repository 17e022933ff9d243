//! An in-memory store of task records, for tests and small runs: one record
//! per task (its workflow, state and attempt count), and a log of every
//! state update asked for.
use crate::task_state::{lemma_parse_state_name, TaskState};
use vstd::prelude::*;

verus! {

/// The stored record of one task.
pub struct TaskRecord {
    pub task_id: String,
    pub workflow_id: String,
    pub state: TaskState,
    pub attempts: usize,
}

/// A task record as plain values: task, workflow, state, attempts.
pub type RecordView = (Seq<char>, Seq<char>, TaskState, usize);

/// An update call as plain values: task, state, attempts.
pub type CallView = (Seq<char>, TaskState, usize);

pub open spec fn record_view(r: TaskRecord) -> RecordView {
    (r.task_id@, r.workflow_id@, r.state, r.attempts)
}

pub open spec fn call_view(c: (String, TaskState, usize)) -> CallView {
    (c.0@, c.1, c.2)
}

/// The position of the record of `task`, if there is one.
pub open spec fn record_index(recs: Seq<RecordView>, task: Seq<char>) -> Option<int> {
    if exists|i: int| 0 <= i < recs.len() && #[trigger] recs[i].0 == task {
        Some(choose|i: int| 0 <= i < recs.len() && #[trigger] recs[i].0 == task)
    } else {
        None
    }
}

/// The records after `task` is (re)created in `workflow`: pending, no attempts.
/// An existing record of the task is replaced in place; otherwise it comes last.
pub open spec fn after_create(recs: Seq<RecordView>, workflow: Seq<char>, task: Seq<char>) -> Seq<RecordView> {
    match record_index(recs, task) {
        Some(i) => recs.update(i, (task, workflow, TaskState::Pending, 0usize)),
        None => recs.push((task, workflow, TaskState::Pending, 0usize)),
    }
}

/// The records after an update of `task` to `state` and `attempts`: the task's
/// record changes in place, keeping its workflow; without a record nothing changes.
pub open spec fn after_update(recs: Seq<RecordView>, task: Seq<char>, state: TaskState, attempts: usize) -> Seq<RecordView> {
    match record_index(recs, task) {
        Some(i) => recs.update(i, (task, recs[i].1, state, attempts)),
        None => recs,
    }
}

/// What a read of `task` gives: its workflow, state and attempts.
pub open spec fn lookup(recs: Seq<RecordView>, task: Seq<char>) -> Option<(Seq<char>, TaskState, usize)> {
    match record_index(recs, task) {
        Some(i) => Some((recs[i].1, recs[i].2, recs[i].3)),
        None => None,
    }
}

/// No two records are for the same task.
pub open spec fn records_unique(recs: Seq<RecordView>) -> bool {
    forall|i: int, j: int| 0 <= i < recs.len() && 0 <= j < recs.len() && i != j ==> #[trigger] recs[i].0 != #[trigger] recs[j].0
}

/// The status of the tasks among the first `m` records that belong to `workflow`,
/// in record order.
pub open spec fn status_upto(recs: Seq<RecordView>, workflow: Seq<char>, m: int) -> Seq<CallView>
    decreases m,
{
    if m <= 0 {
        Seq::empty()
    } else if recs[m - 1].1 == workflow {
        status_upto(recs, workflow, m - 1).push((recs[m - 1].0, recs[m - 1].2, recs[m - 1].3))
    } else {
        status_upto(recs, workflow, m - 1)
    }
}

/// The status of the tasks of `workflow`: name, state and attempts, in record order.
pub open spec fn workflow_status(recs: Seq<RecordView>, workflow: Seq<char>) -> Seq<CallView> {
    status_upto(recs, workflow, recs.len() as int)
}

/// Whether a record belongs to `workflow`.
pub open spec fn in_workflow(workflow: Seq<char>) -> spec_fn(RecordView) -> bool {
    |r: RecordView| r.1 == workflow
}

/// A record as a status line reports it: its task, state and attempts, as stored.
pub open spec fn as_reported() -> spec_fn(RecordView) -> CallView {
    |r: RecordView| (r.0, r.2, r.3)
}

/// The records of `workflow`, in record order, each as task, state and attempts.
pub open spec fn records_of(recs: Seq<RecordView>, workflow: Seq<char>) -> Seq<CallView> {
    recs.filter(in_workflow(workflow)).map_values(as_reported())
}

/// `entry` is the task, state and attempts of one of the first `m` records,
/// and that record belongs to `workflow`.
pub open spec fn comes_from_record(recs: Seq<RecordView>, workflow: Seq<char>, m: int, entry: CallView) -> bool {
    exists|i: int| #![trigger recs[i]] 0 <= i < m && recs[i].1 == workflow && entry == (recs[i].0, recs[i].2, recs[i].3)
}

proof fn lemma_status_upto_filter(recs: Seq<RecordView>, workflow: Seq<char>, m: int)
    requires
        0 <= m <= recs.len(),
    ensures
        status_upto(recs, workflow, m) == records_of(recs.take(m), workflow),
    decreases m,
{
    let pred = in_workflow(workflow);
    if m == 0 {
        assert(recs.take(0).filter(pred) =~= Seq::<RecordView>::empty()) by {
            reveal(Seq::filter);
        }
        assert(status_upto(recs, workflow, m) =~= records_of(recs.take(m), workflow));
    } else {
        lemma_status_upto_filter(recs, workflow, m - 1);
        let pre = recs.take(m - 1);
        assert(recs.take(m) =~= pre.push(recs[m - 1]));
        pre.lemma_filter_push(recs[m - 1], pred);
        let f = pre.filter(pred);
        if pred(recs[m - 1]) {
            assert(f.push(recs[m - 1]).map_values(as_reported()) =~= f.map_values(as_reported()).push(
                (recs[m - 1].0, recs[m - 1].2, recs[m - 1].3),
            ));
        }
        assert(status_upto(recs, workflow, m) =~= records_of(recs.take(m), workflow));
    }
}

/// The status of a workflow is its records, in record order, each reported
/// with its own task, state and attempt count, unchanged.
pub proof fn lemma_status_is_filter(recs: Seq<RecordView>, workflow: Seq<char>)
    ensures
        workflow_status(recs, workflow) == records_of(recs, workflow),
{
    lemma_status_upto_filter(recs, workflow, recs.len() as int);
    assert(recs.take(recs.len() as int) =~= recs);
}

proof fn lemma_status_upto_members(recs: Seq<RecordView>, workflow: Seq<char>, m: int)
    requires
        0 <= m <= recs.len(),
    ensures
        forall|i: int|
            0 <= i < m && #[trigger] recs[i].1 == workflow ==> status_upto(recs, workflow, m).contains(
                (recs[i].0, recs[i].2, recs[i].3),
            ),
        forall|k: int|
            0 <= k < status_upto(recs, workflow, m).len() ==> comes_from_record(
                recs,
                workflow,
                m,
                #[trigger] status_upto(recs, workflow, m)[k],
            ),
    decreases m,
{
    if m > 0 {
        lemma_status_upto_members(recs, workflow, m - 1);
        let pre = status_upto(recs, workflow, m - 1);
        let st = status_upto(recs, workflow, m);
        assert forall|i: int| 0 <= i < m && #[trigger] recs[i].1 == workflow implies st.contains(
            (recs[i].0, recs[i].2, recs[i].3),
        ) by {
            if i == m - 1 {
                assert(st[st.len() - 1] == (recs[i].0, recs[i].2, recs[i].3));
            } else {
                let j = choose|j: int| 0 <= j < pre.len() && pre[j] == (recs[i].0, recs[i].2, recs[i].3);
                assert(st[j] == pre[j]);
            }
        }
        assert forall|k: int| 0 <= k < st.len() implies comes_from_record(recs, workflow, m, #[trigger] st[k]) by {
            if k < pre.len() {
                assert(st[k] == pre[k]);
                assert(comes_from_record(recs, workflow, m - 1, pre[k]));
                let i = choose|i: int| #![trigger recs[i]] 0 <= i < m - 1 && recs[i].1 == workflow && pre[k] == (recs[i].0, recs[i].2, recs[i].3);
                assert(st[k] == (recs[i].0, recs[i].2, recs[i].3));
            } else {
                assert(recs[m - 1].1 == workflow);
                assert(st[k] == (recs[m - 1].0, recs[m - 1].2, recs[m - 1].3));
                assert(0 <= m - 1 < m && recs[m - 1].1 == workflow);
            }
        }
    } else {
        assert(status_upto(recs, workflow, m).len() == 0);
    }
}

/// Every record of a workflow shows in its status with its own state and
/// attempts, and every entry of the status is such a record.
pub proof fn lemma_status_reports_records(recs: Seq<RecordView>, workflow: Seq<char>)
    ensures
        forall|i: int|
            0 <= i < recs.len() && #[trigger] recs[i].1 == workflow ==> workflow_status(recs, workflow).contains(
                (recs[i].0, recs[i].2, recs[i].3),
            ),
        forall|k: int|
            0 <= k < workflow_status(recs, workflow).len() ==> comes_from_record(
                recs,
                workflow,
                recs.len() as int,
                #[trigger] workflow_status(recs, workflow)[k],
            ),
{
    lemma_status_upto_members(recs, workflow, recs.len() as int);
}

/// After a task's record is created in a workflow and then updated, the
/// workflow's status holds the task with the state and attempts written.
pub proof fn lemma_update_shows_in_status(
    recs: Seq<RecordView>,
    workflow: Seq<char>,
    task: Seq<char>,
    state: TaskState,
    attempts: usize,
)
    requires
        records_unique(recs),
    ensures
        workflow_status(after_update(after_create(recs, workflow, task), task, state, attempts), workflow).contains(
            (task, state, attempts),
        ),
{
    let created = after_create(recs, workflow, task);
    lemma_create_then_read(recs, workflow, task);
    let i = record_index(created, task)->0;
    assert(records_unique(created)) by {
        assert(task.push('x').len() != task.len());
        lemma_after_create_other(recs, workflow, task, task.push('x'));
    }
    lemma_update_then_read(created, task, state, attempts);
    let after = after_update(created, task, state, attempts);
    assert(after[i] == (task, workflow, state, attempts));
    lemma_status_reports_records(after, workflow);
    assert(after[i].1 == workflow);
}

/// Why a storage operation was refused.
#[derive(Clone, Copy, Debug, PartialEq, Eq, Structural)]
pub enum StorageError {
    /// No record exists for the task.
    TaskNotFound,
}

impl StorageError {
    /// A human-readable description of the error.
    pub fn message(&self) -> (res: String)
        ensures
            res@ == "Task not found"@,
    {
        "Task not found".to_owned()
    }
}

/// In-memory task records.
pub struct MemoryStorage {
    task_states: Vec<TaskRecord>,
    update_calls: Vec<(String, TaskState, usize)>,
}

impl MemoryStorage {
    /// The records, as plain values.
    pub closed spec fn records(&self) -> Seq<RecordView> {
        self.task_states@.map_values(|r: TaskRecord| record_view(r))
    }

    /// Every update call made, in order.
    pub closed spec fn calls(&self) -> Seq<CallView> {
        self.update_calls@.map_values(|c: (String, TaskState, usize)| call_view(c))
    }

    /// At most one record per task.
    pub closed spec fn wf(&self) -> bool {
        forall|i: int, j: int|
            0 <= i < self.records().len() && 0 <= j < self.records().len() && i != j ==> #[trigger] self.records()[i].0
                != #[trigger] self.records()[j].0
    }

    /// The record of `task`: its workflow, state and attempts.
    pub open spec fn entry(&self, task: Seq<char>) -> Option<(Seq<char>, TaskState, usize)> {
        lookup(self.records(), task)
    }

    /// An empty store.
    pub fn new() -> (res: Self)
        ensures
            res.wf(),
            res.records() == Seq::<RecordView>::empty(),
            res.calls() == Seq::<CallView>::empty(),
    {
        let res = MemoryStorage { task_states: Vec::new(), update_calls: Vec::new() };
        proof {
            assert(res.records() =~= Seq::<RecordView>::empty());
            assert(res.calls() =~= Seq::<CallView>::empty());
        }
        res
    }

    /// Finds the record of `task_id`.
    fn find(&self, task_id: &str) -> (res: Option<usize>)
        requires
            self.wf(),
        ensures
            match res {
                Some(i) => record_index(self.records(), task_id@) == Some(i as int),
                None => record_index(self.records(), task_id@) is None,
            },
    {
        let wanted = task_id.to_owned();
        let n = self.task_states.len();
        let mut i: usize = 0;
        while i < n
            invariant
                self.wf(),
                n == self.task_states@.len(),
                n == self.records().len(),
                wanted@ == task_id@,
                i <= n,
                forall|j: int| 0 <= j < i ==> #[trigger] self.records()[j].0 != task_id@,
            decreases n - i,
        {
            if self.task_states[i].task_id == wanted {
                proof {
                    assert(self.records()[i as int].0 == task_id@);
                    let c = choose|c: int| 0 <= c < self.records().len() && #[trigger] self.records()[c].0 == task_id@;
                    assert(c == i);
                }
                return Some(i);
            }
            i = i + 1;
        }
        None
    }

    /// The state and attempt count of `task_id`, if it has a record.
    pub fn get_task_state(&self, task_id: &str) -> (res: Option<(TaskState, usize)>)
        requires
            self.wf(),
        ensures
            res == match self.entry(task_id@) {
                Some(e) => Some((e.1, e.2)),
                None => None,
            },
    {
        match self.find(task_id) {
            Some(i) => Some((self.task_states[i].state, self.task_states[i].attempts)),
            None => None,
        }
    }

    /// Every update call made to this store, in order.
    pub fn get_update_calls(&self) -> (res: Vec<(String, TaskState, usize)>)
        ensures
            res@.map_values(|c: (String, TaskState, usize)| call_view(c)) == self.calls(),
    {
        let mut res: Vec<(String, TaskState, usize)> = Vec::new();
        let n = self.update_calls.len();
        let mut i: usize = 0;
        while i < n
            invariant
                n == self.update_calls@.len(),
                i <= n,
                res@.len() == i,
                forall|j: int| 0 <= j < i ==> call_view(#[trigger] res@[j]) == call_view(self.update_calls@[j]),
            decreases n - i,
        {
            let c = &self.update_calls[i];
            res.push((c.0.clone(), c.1, c.2));
            i = i + 1;
        }
        proof {
            assert(res@.map_values(|c: (String, TaskState, usize)| call_view(c)) =~= self.calls());
        }
        res
    }

    /// Nothing to set up for an in-memory store.
    pub fn init(&self) -> (res: Result<(), StorageError>)
        ensures
            res is Ok,
    {
        Ok(())
    }

    /// Creates (or resets) the record of `task_id` in `workflow_id`: pending,
    /// no attempts.
    pub fn create_task_record(&mut self, workflow_id: &str, task_id: &str) -> (res: Result<(), StorageError>)
        requires
            old(self).wf(),
        ensures
            final(self).wf(),
            res is Ok,
            final(self).records() == after_create(old(self).records(), workflow_id@, task_id@),
            final(self).calls() == old(self).calls(),
    {
        let ghost recs0 = self.records();
        let rec = TaskRecord {
            task_id: task_id.to_owned(),
            workflow_id: workflow_id.to_owned(),
            state: TaskState::Pending,
            attempts: 0,
        };
        match self.find(task_id) {
            Some(i) => {
                self.task_states.set(i, rec);
                proof {
                    assert(self.records() =~= recs0.update(i as int, (task_id@, workflow_id@, TaskState::Pending, 0usize)));
                    assert forall|a: int, b: int|
                        0 <= a < self.records().len() && 0 <= b < self.records().len() && a != b implies #[trigger] self.records()[a].0
                        != #[trigger] self.records()[b].0 by {
                        if a != i && b != i {
                            assert(recs0[a].0 != recs0[b].0);
                        } else if a == i {
                            assert(recs0[i as int].0 != recs0[b].0);
                        } else {
                            assert(recs0[a].0 != recs0[i as int].0);
                        }
                    }
                }
            },
            None => {
                self.task_states.push(rec);
                proof {
                    assert(self.records() =~= recs0.push((task_id@, workflow_id@, TaskState::Pending, 0usize)));
                    assert forall|a: int, b: int|
                        0 <= a < self.records().len() && 0 <= b < self.records().len() && a != b implies #[trigger] self.records()[a].0
                        != #[trigger] self.records()[b].0 by {
                        if a < recs0.len() && b < recs0.len() {
                            assert(recs0[a].0 != recs0[b].0);
                        } else if a < recs0.len() {
                            assert(recs0[a].0 != task_id@);
                        } else {
                            assert(recs0[b].0 != task_id@);
                        }
                    }
                }
            },
        }
        Ok(())
    }

    /// Records an update call, then sets the state and attempt count of
    /// `task_id`; fails when the task has no record.
    pub fn update_task_state(&mut self, task_id: &str, state: TaskState, attempts: usize) -> (res: Result<(), StorageError>)
        requires
            old(self).wf(),
        ensures
            final(self).wf(),
            final(self).calls() == old(self).calls().push((task_id@, state, attempts)),
            final(self).records() == after_update(old(self).records(), task_id@, state, attempts),
            match record_index(old(self).records(), task_id@) {
                Some(i) => {
                    &&& res is Ok
                    &&& final(self).records() == old(self).records().update(
                        i,
                        (task_id@, old(self).records()[i].1, state, attempts),
                    )
                },
                None => {
                    &&& res == Err::<(), StorageError>(StorageError::TaskNotFound)
                    &&& final(self).records() == old(self).records()
                },
            },
    {
        let ghost recs0 = self.records();
        let ghost calls0 = self.calls();
        self.update_calls.push((task_id.to_owned(), state, attempts));
        proof {
            assert(self.calls() =~= calls0.push((task_id@, state, attempts)));
        }
        match self.find(task_id) {
            Some(i) => {
                let workflow_id = self.task_states[i].workflow_id.clone();
                let rec = TaskRecord { task_id: task_id.to_owned(), workflow_id, state, attempts };
                self.task_states.set(i, rec);
                proof {
                    assert(self.records() =~= recs0.update(i as int, (task_id@, recs0[i as int].1, state, attempts)));
                    assert forall|a: int, b: int|
                        0 <= a < self.records().len() && 0 <= b < self.records().len() && a != b implies #[trigger] self.records()[a].0
                        != #[trigger] self.records()[b].0 by {
                        if a != i && b != i {
                            assert(recs0[a].0 != recs0[b].0);
                        } else if a == i {
                            assert(recs0[i as int].0 != recs0[b].0);
                        } else {
                            assert(recs0[a].0 != recs0[i as int].0);
                        }
                    }
                }
                Ok(())
            },
            None => Err(StorageError::TaskNotFound),
        }
    }

    /// The tasks of `workflow_id` with their state and attempts, in record
    /// order. Each state is read back from its text form.
    pub fn get_workflow_status(&self, workflow_id: &str) -> (res: Result<Vec<(String, TaskState, usize)>, StorageError>)
        requires
            self.wf(),
        ensures
            match res {
                Ok(v) => {
                    &&& v@.map_values(|c: (String, TaskState, usize)| call_view(c)) == workflow_status(
                        self.records(),
                        workflow_id@,
                    )
                    &&& v@.map_values(|c: (String, TaskState, usize)| call_view(c)) == records_of(
                        self.records(),
                        workflow_id@,
                    )
                },
                Err(_) => false,
            },
    {
        let wanted = workflow_id.to_owned();
        let n = self.task_states.len();
        let mut out: Vec<(String, TaskState, usize)> = Vec::new();
        let mut i: usize = 0;
        while i < n
            invariant
                n == self.task_states@.len(),
                n == self.records().len(),
                wanted@ == workflow_id@,
                i <= n,
                out@.map_values(|c: (String, TaskState, usize)| call_view(c)) == status_upto(
                    self.records(),
                    workflow_id@,
                    i as int,
                ),
            decreases n - i,
        {
            let r = &self.task_states[i];
            if r.workflow_id == wanted {
                let state = match TaskState::from_str(r.state.as_str()) {
                    Some(s) => s,
                    None => TaskState::Failed,
                };
                proof {
                    lemma_parse_state_name(r.state);
                }
                let ghost before = out@;
                out.push((r.task_id.clone(), state, r.attempts));
                proof {
                    assert(out@.map_values(|c: (String, TaskState, usize)| call_view(c)) =~= before.map_values(
                        |c: (String, TaskState, usize)| call_view(c),
                    ).push((r.task_id@, r.state, r.attempts)));
                }
            }
            i = i + 1;
        }
        proof {
            assert(workflow_status(self.records(), workflow_id@) == status_upto(self.records(), workflow_id@, n as int));
            lemma_status_is_filter(self.records(), workflow_id@);
        }
        Ok(out)
    }
}

/// After a task's record is created, reading it gives the workflow, the
/// pending state and no attempts.
pub proof fn lemma_create_then_read(recs: Seq<RecordView>, workflow: Seq<char>, task: Seq<char>)
    requires
        forall|i: int, j: int| 0 <= i < recs.len() && 0 <= j < recs.len() && i != j ==> #[trigger] recs[i].0 != #[trigger] recs[j].0,
    ensures
        ({
            let after = after_create(recs, workflow, task);
            match record_index(after, task) {
                Some(i) => after[i] == (task, workflow, TaskState::Pending, 0usize),
                None => false,
            }
        }),
{
    let after = after_create(recs, workflow, task);
    match record_index(recs, task) {
        Some(i) => {
            assert(after[i].0 == task);
            let c = choose|c: int| 0 <= c < after.len() && #[trigger] after[c].0 == task;
            if c != i {
                assert(recs[c].0 == task);
            }
        },
        None => {
            assert(after[recs.len() as int].0 == task);
            let c = choose|c: int| 0 <= c < after.len() && #[trigger] after[c].0 == task;
            if c < recs.len() {
                assert(recs[c].0 == task);
            }
        },
    }
}

/// After a successful update, reading the task gives the state and attempt
/// count written, in the task's workflow.
pub proof fn lemma_update_then_read(recs: Seq<RecordView>, task: Seq<char>, state: TaskState, attempts: usize)
    requires
        forall|i: int, j: int| 0 <= i < recs.len() && 0 <= j < recs.len() && i != j ==> #[trigger] recs[i].0 != #[trigger] recs[j].0,
        record_index(recs, task) is Some,
    ensures
        ({
            let i = record_index(recs, task)->0;
            let after = recs.update(i, (task, recs[i].1, state, attempts));
            record_index(after, task) == Some(i) && after[i] == (task, recs[i].1, state, attempts)
        }),
{
    let i = record_index(recs, task)->0;
    let after = recs.update(i, (task, recs[i].1, state, attempts));
    assert(after[i].0 == task);
    let c = choose|c: int| 0 <= c < after.len() && #[trigger] after[c].0 == task;
    if c != i {
        assert(recs[c].0 == task);
        assert(recs[i].0 == task);
    }
}

/// A call that changes the store.
pub enum StoreCall {
    /// `create_task_record(workflow, task)`.
    Create { workflow: Seq<char>, task: Seq<char> },
    /// `update_task_state(task, state, attempts)`, whether or not it succeeded.
    Update { task: Seq<char>, state: TaskState, attempts: usize },
}

/// The records and the update log after `calls`, made in order on a new store.
pub open spec fn replay(calls: Seq<StoreCall>) -> (Seq<RecordView>, Seq<CallView>)
    decreases calls.len(),
{
    if calls.len() == 0 {
        (Seq::empty(), Seq::empty())
    } else {
        let (recs, log) = replay(calls.drop_last());
        match calls.last() {
            StoreCall::Create { workflow, task } => (after_create(recs, workflow, task), log),
            StoreCall::Update { task, state, attempts } => (
                after_update(recs, task, state, attempts),
                log.push((task, state, attempts)),
            ),
        }
    }
}

pub open spec fn creates(c: StoreCall, task: Seq<char>) -> bool {
    c matches StoreCall::Create { task: t, .. } && t == task
}

pub open spec fn updates(c: StoreCall, task: Seq<char>) -> bool {
    c matches StoreCall::Update { task: t, .. } && t == task
}

pub open spec fn is_update(c: StoreCall) -> bool {
    c is Update
}

pub open spec fn update_entry(c: StoreCall) -> CallView {
    match c {
        StoreCall::Update { task, state, attempts } => (task, state, attempts),
        StoreCall::Create { .. } => (Seq::empty(), TaskState::Pending, 0usize),
    }
}

/// `c` is the last call that creates the record of `task`.
pub open spec fn is_last_create(calls: Seq<StoreCall>, task: Seq<char>, c: int) -> bool {
    &&& 0 <= c < calls.len()
    &&& creates(calls[c], task)
    &&& forall|j: int| c < j < calls.len() ==> !#[trigger] creates(calls[j], task)
}

/// `u` is the last call after `c` that updates `task`.
pub open spec fn is_last_update_after(calls: Seq<StoreCall>, task: Seq<char>, c: int, u: int) -> bool {
    &&& c < u < calls.len()
    &&& updates(calls[u], task)
    &&& forall|j: int| u < j < calls.len() ==> !#[trigger] updates(calls[j], task)
}

proof fn lemma_after_create_other(recs: Seq<RecordView>, workflow: Seq<char>, task: Seq<char>, other: Seq<char>)
    requires
        records_unique(recs),
        other != task,
    ensures
        records_unique(after_create(recs, workflow, task)),
        lookup(after_create(recs, workflow, task), other) == lookup(recs, other),
{
    let after = after_create(recs, workflow, task);
    match record_index(recs, task) {
        Some(i) => {
            assert forall|a: int, b: int| 0 <= a < after.len() && 0 <= b < after.len() && a != b implies #[trigger] after[a].0
                != #[trigger] after[b].0 by {
                if a != i && b != i {
                    assert(recs[a].0 != recs[b].0);
                } else if a == i {
                    assert(recs[i].0 != recs[b].0);
                } else {
                    assert(recs[a].0 != recs[i].0);
                }
            }
        },
        None => {
            assert forall|a: int, b: int| 0 <= a < after.len() && 0 <= b < after.len() && a != b implies #[trigger] after[a].0
                != #[trigger] after[b].0 by {
                if a < recs.len() && b < recs.len() {
                    assert(recs[a].0 != recs[b].0);
                } else if a < recs.len() {
                    assert(recs[a].0 != task);
                } else {
                    assert(recs[b].0 != task);
                }
            }
        },
    }
    lemma_lookup_other(recs, after, task, other);
}

/// Changing only the record of `task` (or adding one) leaves reads of `other` alone.
proof fn lemma_lookup_other(recs: Seq<RecordView>, after: Seq<RecordView>, task: Seq<char>, other: Seq<char>)
    requires
        records_unique(recs),
        records_unique(after),
        other != task,
        recs.len() <= after.len() <= recs.len() + 1,
        forall|i: int| 0 <= i < recs.len() && #[trigger] recs[i].0 != task ==> after[i] == recs[i],
        forall|i: int| 0 <= i < after.len() && #[trigger] after[i].0 != task ==> i < recs.len() && after[i] == recs[i],
    ensures
        lookup(after, other) == lookup(recs, other),
{
    if exists|i: int| 0 <= i < recs.len() && #[trigger] recs[i].0 == other {
        let i = choose|i: int| 0 <= i < recs.len() && #[trigger] recs[i].0 == other;
        assert(after[i].0 == other);
        let c = choose|c: int| 0 <= c < after.len() && #[trigger] after[c].0 == other;
        assert(recs[c] == after[c]);
    } else {
        if exists|i: int| 0 <= i < after.len() && #[trigger] after[i].0 == other {
            let c = choose|c: int| 0 <= c < after.len() && #[trigger] after[c].0 == other;
            assert(recs[c] == after[c]);
        }
    }
}

proof fn lemma_after_update(recs: Seq<RecordView>, task: Seq<char>, state: TaskState, attempts: usize, other: Seq<char>)
    requires
        records_unique(recs),
    ensures
        records_unique(after_update(recs, task, state, attempts)),
        other != task ==> lookup(after_update(recs, task, state, attempts), other) == lookup(recs, other),
        lookup(after_update(recs, task, state, attempts), task) == match lookup(recs, task) {
            Some(e) => Some((e.0, state, attempts)),
            None => None,
        },
{
    let after = after_update(recs, task, state, attempts);
    match record_index(recs, task) {
        Some(i) => {
            assert forall|a: int, b: int| 0 <= a < after.len() && 0 <= b < after.len() && a != b implies #[trigger] after[a].0
                != #[trigger] after[b].0 by {
                if a != i && b != i {
                    assert(recs[a].0 != recs[b].0);
                } else if a == i {
                    assert(recs[i].0 != recs[b].0);
                } else {
                    assert(recs[a].0 != recs[i].0);
                }
            }
            lemma_update_then_read(recs, task, state, attempts);
            if other != task {
                lemma_lookup_other(recs, after, task, other);
            }
        },
        None => {},
    }
}

/// The records of a replay never hold two records of one task.
pub proof fn lemma_replay_unique(calls: Seq<StoreCall>)
    ensures
        records_unique(replay(calls).0),
    decreases calls.len(),
{
    if calls.len() > 0 {
        lemma_replay_unique(calls.drop_last());
        let recs = replay(calls.drop_last()).0;
        match calls.last() {
            StoreCall::Create { workflow, task } => {
                assert(task.push('x').len() != task.len());
                lemma_after_create_other(recs, workflow, task, task.push('x'));
            },
            StoreCall::Update { task, state, attempts } => {
                lemma_after_update(recs, task, state, attempts, task);
            },
        }
    }
}

/// After the last creation of a task's record, reads of it give that creation's workflow.
proof fn lemma_replay_created(calls: Seq<StoreCall>, task: Seq<char>, c: int)
    requires
        is_last_create(calls, task, c),
    ensures
        lookup(replay(calls).0, task) matches Some(e) && e.0 == calls[c]->Create_workflow,
    decreases calls.len(),
{
    let pre = calls.drop_last();
    lemma_replay_unique(pre);
    let recs = replay(pre).0;
    if c == calls.len() - 1 {
        lemma_create_then_read(recs, calls[c]->Create_workflow, task);
    } else {
        assert(is_last_create(pre, task, c)) by {
            assert forall|j: int| c < j < pre.len() implies !#[trigger] creates(pre[j], task) by {
                assert(!creates(calls[j], task));
            }
        }
        lemma_replay_created(pre, task, c);
        assert(!creates(calls[calls.len() - 1], task));
        match calls.last() {
            StoreCall::Create { workflow, task: t } => {
                lemma_after_create_other(recs, workflow, t, task);
            },
            StoreCall::Update { task: t, state, attempts } => {
                lemma_after_update(recs, t, state, attempts, task);
            },
        }
    }
}

/// What a read of a task gives after any sequence of calls on a new store:
/// nothing if its record was never created; otherwise the workflow of the last
/// creation, with the state and attempts of the last update after it, or
/// pending with no attempts if there was none.
pub proof fn lemma_replay_read(calls: Seq<StoreCall>, task: Seq<char>)
    ensures
        (forall|j: int| 0 <= j < calls.len() ==> !#[trigger] creates(calls[j], task)) ==> lookup(
            replay(calls).0,
            task,
        ) is None,
        forall|c: int, u: int|
            is_last_create(calls, task, c) && #[trigger] is_last_update_after(calls, task, c, u) ==> lookup(
                replay(calls).0,
                task,
            ) == Some((calls[c]->Create_workflow, calls[u]->Update_state, calls[u]->Update_attempts)),
        forall|c: int|
            #[trigger] is_last_create(calls, task, c) && (forall|u: int| c < u < calls.len() ==> !#[trigger] updates(
                calls[u],
                task,
            )) ==> lookup(replay(calls).0, task) == Some((calls[c]->Create_workflow, TaskState::Pending, 0usize)),
    decreases calls.len(),
{
    if calls.len() == 0 {
        return;
    }
    let n = calls.len() as int;
    let pre = calls.drop_last();
    lemma_replay_unique(pre);
    lemma_replay_read(pre, task);
    let recs = replay(pre).0;
    let last = calls[n - 1];
    // reads of `task` after the last call, from reads before it
    match last {
        StoreCall::Create { workflow, task: t } => {
            if t == task {
                lemma_create_then_read(recs, workflow, task);
            } else {
                lemma_after_create_other(recs, workflow, t, task);
            }
        },
        StoreCall::Update { task: t, state, attempts } => {
            lemma_after_update(recs, t, state, attempts, task);
        },
    }
    if forall|j: int| 0 <= j < calls.len() ==> !#[trigger] creates(calls[j], task) {
        assert forall|j: int| 0 <= j < pre.len() implies !#[trigger] creates(pre[j], task) by {
            assert(!creates(calls[j], task));
        }
        assert(!creates(last, task));
    }
    assert forall|c: int, u: int|
        is_last_create(calls, task, c) && #[trigger] is_last_update_after(calls, task, c, u) implies lookup(
        replay(calls).0,
        task,
    ) == Some((calls[c]->Create_workflow, calls[u]->Update_state, calls[u]->Update_attempts)) by {
        if u == n - 1 {
            lemma_replay_created(calls, task, c);
            assert(c < n - 1);
            assert(is_last_create(pre, task, c)) by {
                assert forall|j: int| c < j < pre.len() implies !#[trigger] creates(pre[j], task) by {
                    assert(!creates(calls[j], task));
                }
            }
            lemma_replay_created(pre, task, c);
        } else {
            assert(!updates(last, task));
            assert(!creates(last, task));
            assert(is_last_create(pre, task, c)) by {
                assert forall|j: int| c < j < pre.len() implies !#[trigger] creates(pre[j], task) by {
                    assert(!creates(calls[j], task));
                }
            }
            assert(is_last_update_after(pre, task, c, u)) by {
                assert forall|j: int| u < j < pre.len() implies !#[trigger] updates(pre[j], task) by {
                    assert(!updates(calls[j], task));
                }
            }
        }
    }
    assert forall|c: int|
        #[trigger] is_last_create(calls, task, c) && (forall|u: int| c < u < calls.len() ==> !#[trigger] updates(
            calls[u],
            task,
        )) implies lookup(replay(calls).0, task) == Some((calls[c]->Create_workflow, TaskState::Pending, 0usize)) by {
        if c < n - 1 {
            assert(!updates(calls[n - 1], task));
            assert(!creates(last, task));
            assert(is_last_create(pre, task, c)) by {
                assert forall|j: int| c < j < pre.len() implies !#[trigger] creates(pre[j], task) by {
                    assert(!creates(calls[j], task));
                }
            }
            assert forall|u: int| c < u < pre.len() implies !#[trigger] updates(pre[u], task) by {
                assert(!updates(calls[u], task));
            }
        }
    }
}

/// After any sequence of calls on a new store, the update log holds every
/// update call, successful or not, in call order.
pub proof fn lemma_replay_log(calls: Seq<StoreCall>)
    ensures
        replay(calls).1 == calls.filter(|c: StoreCall| is_update(c)).map_values(|c: StoreCall| update_entry(c)),
    decreases calls.len(),
{
    if calls.len() > 0 {
        let pre = calls.drop_last();
        lemma_replay_log(pre);
        assert(calls == pre.push(calls.last()));
        pre.lemma_filter_push(calls.last(), |c: StoreCall| is_update(c));
        let f = pre.filter(|c: StoreCall| is_update(c));
        if is_update(calls.last()) {
            assert(f.push(calls.last()).map_values(|c: StoreCall| update_entry(c)) =~= f.map_values(
                |c: StoreCall| update_entry(c),
            ).push(update_entry(calls.last())));
        }
    } else {
        assert(calls.filter(|c: StoreCall| is_update(c)) =~= Seq::<StoreCall>::empty()) by {
            reveal(Seq::filter);
        }
        assert(replay(calls).1 =~= calls.filter(|c: StoreCall| is_update(c)).map_values(|c: StoreCall| update_entry(c)));
    }
}

} // verus!
