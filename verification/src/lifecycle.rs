//! The life of a run: the steps that it goes through, what holds after each of
//! them, and what follows from that.

use crate::model::{
    attempt_ended, attempt_payload, is_attempt, is_task, lemma_attempts_keep, lemma_event_keeps,
    lemma_log_keeps, lemma_new_attempt_keeps, lemma_patch_keeps, lemma_patched_state, log_payload,
    new_attempt, start_patch, start_payload, status_patch, success_patch, success_payload,
    task_payload, DbError, DbModel, PatchModel,
};
use crate::records::{AttemptRecord, TaskState};
use crate::scheduler::{doomed, ids, lost, ready, set_each, without, OutcomeModel, SchedulerModel};
use crate::simulation::lemma_filter_distinct;
use crate::worker::{attempt_closed, ResultModel};
use crate::workflow::{TaskModel, WorkflowModel};
use vstd::prelude::*;

verus! {

// ---------------------------------------------------------------------------
// States and steps
// ---------------------------------------------------------------------------

/// A run that is under way: its scheduler, the recorded state, and whether it
/// was cancelled.
#[verifier::ext_equal]
pub struct RunState {
    pub scheduler: SchedulerModel,
    pub db: DbModel,
    pub cancelled: bool,
}

/// What may happen next. Tasks are given by their position in the workflow.
pub enum Step {
    /// The run is cancelled.
    Cancel,
    /// The scheduler decides.
    Decide,
    /// An attempt at an active task starts.
    Start(int),
    /// The attempt at an active task ends.
    End(int, ResultModel),
    /// An active task is over.
    Settle(int, OutcomeModel),
}

/// The statuses of a task that is being worked on.
pub open spec fn under_way(status: Seq<char>) -> bool {
    status == "queued"@ || status == "running"@ || status == "retrying"@
}

/// The statuses of a task.
pub open spec fn known_status(status: Seq<char>) -> bool {
    ||| under_way(status)
    ||| status == "pending"@
    ||| status == "success"@
    ||| status == "failed"@
    ||| status == "blocked"@
}

/// The attempt has not ended.
pub open spec fn is_open(a: AttemptRecord, run: Seq<char>, task: Seq<char>) -> bool {
    a.run_id == run && a.attempt.task_id == task && a.attempt.status == "running"@
}

/// Some attempt at the task has not ended.
pub open spec fn has_open(rows: Seq<AttemptRecord>, run: Seq<char>, task: Seq<char>) -> bool {
    exists|j: int| 0 <= j < rows.len() && is_open(#[trigger] rows[j], run, task)
}

impl RunState {
    /// The task at a position.
    pub open spec fn task(self, i: int) -> TaskModel {
        self.scheduler.workflow.tasks[i]
    }

    /// The state of the task at a position.
    pub open spec fn state(self, i: int) -> TaskState {
        state_of(self.db, self.scheduler.run, self.scheduler.workflow, i)
    }

    /// The task at a position is active.
    pub open spec fn is_active(self, i: int) -> bool {
        self.scheduler.active.contains(self.task(i).id)
    }

    /// An attempt at the task at a position has not ended.
    pub open spec fn is_tried(self, i: int) -> bool {
        has_open(self.db.attempts, self.scheduler.run, self.task(i).id)
    }

    /// The step may happen.
    pub open spec fn legal(self, step: Step) -> bool {
        let n = self.scheduler.workflow.tasks.len();
        &&& self.db.room((n + 2) as int)
        &&& match step {
            Step::Cancel => !self.cancelled,
            Step::Decide => true,
            Step::Start(i) => {
                &&& 0 <= i < n
                &&& self.is_active(i)
                &&& self.state(i).status == "queued"@ || self.state(i).status == "retrying"@
            },
            Step::End(i, result) => {
                &&& 0 <= i < n
                &&& self.is_active(i)
                &&& self.is_tried(i)
                &&& result is Interrupted ==> self.cancelled
            },
            Step::Settle(i, outcome) => {
                &&& 0 <= i < n
                &&& self.is_active(i)
                &&& match outcome {
                    OutcomeModel::Success => self.state(i).status == "success"@,
                    OutcomeModel::Failed(_) => {
                        &&& self.state(i).status == "running"@
                        &&& self.state(i).attempts >= self.task(i).budget()
                        &&& !self.is_tried(i)
                    },
                    OutcomeModel::Interrupted => {
                        &&& self.cancelled
                        &&& under_way(self.state(i).status)
                        &&& !self.is_tried(i)
                    },
                }
            },
        }
    }

    /// The state after a step.
    pub open spec fn after(self, step: Step, now: i64) -> RunState {
        let s = self.scheduler;
        match step {
            Step::Cancel => RunState { cancelled: true, ..self },
            Step::Decide => RunState {
                scheduler: s.next(self.db, self.cancelled),
                db: s.next_db(self.db, self.cancelled, now),
                ..self
            },
            Step::Start(i) => RunState {
                db: self.db.start_attempt(s.run, self.task(i).id, now),
                ..self
            },
            Step::End(i, result) => RunState {
                db: attempt_closed(
                    self.db,
                    s.run,
                    self.task(i),
                    self.state(i).attempts,
                    result,
                    now,
                ),
                ..self
            },
            Step::Settle(i, outcome) => RunState {
                scheduler: SchedulerModel { active: without(s.active, self.task(i).id), ..s },
                db: s.settle_db(self.db, self.task(i).id, outcome, now),
                ..self
            },
        }
    }
}

// ---------------------------------------------------------------------------
// What holds at all times
// ---------------------------------------------------------------------------

/// The state of the task at a position of the workflow of a run.
pub open spec fn state_of(m: DbModel, run: Seq<char>, w: WorkflowModel, i: int) -> TaskState {
    m.task(run, w.tasks[i].id)->0
}

/// The task was tried, or is past waiting.
pub open spec fn begun(t: TaskState) -> bool {
    t.attempts > 0 || t.status != "pending"@ && t.status != "blocked"@
}

/// Every dependency of the task succeeded.
pub open spec fn met(m: DbModel, run: Seq<char>, t: TaskModel) -> bool {
    forall|k: int|
        0 <= k < t.dependencies.len() ==> m.status(run, #[trigger] t.dependencies[k])
            == "success"@
}

/// Some dependency of the task failed or is blocked.
pub open spec fn hopeless(m: DbModel, run: Seq<char>, t: TaskModel) -> bool {
    exists|k: int| 0 <= k < t.dependencies.len() && lost(m, run, #[trigger] t.dependencies[k])
}

/// Every attempt belongs to a recorded task and counts among its attempts.
pub open spec fn counted(m: DbModel) -> bool {
    forall|j: int|
        0 <= j < m.attempts.len() ==> is_counted(m, #[trigger] m.attempts[j])
}

/// The attempt belongs to a recorded task and counts among its attempts.
pub open spec fn is_counted(m: DbModel, a: AttemptRecord) -> bool {
    &&& m.task(a.run_id, a.attempt.task_id) is Some
    &&& a.attempt.number <= m.task(a.run_id, a.attempt.task_id)->0.attempts
}

/// What holds of a task of a run, whatever happens.
pub open spec fn task_sound(m: DbModel, run: Seq<char>, w: WorkflowModel, i: int) -> bool {
    let t = state_of(m, run, w, i);
    &&& known_status(t.status)
    &&& 0 <= t.attempts <= w.tasks[i].budget()
    &&& t.status == "queued"@ || t.status == "retrying"@ ==> t.attempts < w.tasks[i].budget()
    &&& begun(t) ==> met(m, run, w.tasks[i])
    &&& t.status == "blocked"@ ==> hopeless(m, run, w.tasks[i])
}

/// What holds of the record of a run, whatever happens: the record survives the
/// end of the program at any moment.
pub open spec fn record_sound(m: DbModel, run: Seq<char>, w: WorkflowModel) -> bool {
    &&& m.well_formed()
    &&& w.valid()
    &&& m.covers(run, w)
    &&& counted(m)
    &&& forall|j: int|
        0 <= j < m.tasks.len() && (#[trigger] m.tasks[j]).run_id == run ==> w.knows(
            m.tasks[j].task.id,
        )
    &&& forall|i: int| 0 <= i < w.tasks.len() ==> #[trigger] task_sound(m, run, w, i)
}

impl RunState {
    /// What ties the task at a position to the scheduler.
    pub open spec fn task_tracked(self, i: int) -> bool {
        let status = self.state(i).status;
        &&& under_way(status) ==> self.is_active(i)
        &&& self.is_active(i) ==> under_way(status) || status == "success"@
        &&& status == "pending"@ && !self.cancelled ==> self.state(i).attempts < self.task(
            i,
        ).budget()
        &&& status == "running"@ && !self.is_tried(i) && !self.cancelled ==> self.state(i).attempts
            >= self.task(i).budget()
    }

    /// An open attempt is the latest at a task that is running.
    pub open spec fn attempt_tracked(self, i: int, j: int) -> bool {
        is_open(self.db.attempts[j], self.scheduler.run, self.task(i).id) ==> self.state(i).status
            == "running"@ && self.db.attempts[j].attempt.number == self.state(i).attempts
    }

    /// What holds of a run that is under way.
    pub open spec fn sound(self) -> bool {
        let s = self.scheduler;
        &&& record_sound(self.db, s.run, s.workflow)
        &&& s.active.no_duplicates()
        &&& s.active.len() <= s.limit
        &&& forall|k: int| 0 <= k < s.active.len() ==> s.workflow.knows(#[trigger] s.active[k])
        &&& forall|i: int| 0 <= i < s.workflow.tasks.len() ==> #[trigger] self.task_tracked(i)
        &&& forall|i: int, j: int|
            0 <= i < s.workflow.tasks.len() && 0 <= j < self.db.attempts.len()
                ==> #[trigger] self.attempt_tracked(i, j)
    }
}

// ---------------------------------------------------------------------------
// Effects of single operations
// ---------------------------------------------------------------------------

/// The names of the statuses differ.
pub proof fn lemma_statuses()
    ensures
        "pending"@ != "queued"@,
        "pending"@ != "running"@,
        "pending"@ != "retrying"@,
        "pending"@ != "success"@,
        "pending"@ != "failed"@,
        "pending"@ != "blocked"@,
        "queued"@ != "running"@,
        "queued"@ != "retrying"@,
        "queued"@ != "success"@,
        "queued"@ != "failed"@,
        "queued"@ != "blocked"@,
        "running"@ != "retrying"@,
        "running"@ != "success"@,
        "running"@ != "failed"@,
        "running"@ != "blocked"@,
        "retrying"@ != "success"@,
        "retrying"@ != "failed"@,
        "retrying"@ != "blocked"@,
        "success"@ != "failed"@,
        "success"@ != "blocked"@,
        "failed"@ != "blocked"@,
        "interrupted"@ != "success"@,
        "interrupted"@ != "failed"@,
        "interrupted"@ != "running"@,
        "interrupted"@ != "pending"@,
{
    reveal_strlit("pending");
    reveal_strlit("queued");
    reveal_strlit("running");
    reveal_strlit("retrying");
    reveal_strlit("success");
    reveal_strlit("failed");
    reveal_strlit("blocked");
    reveal_strlit("interrupted");
    assert("pending"@[0] == 'p');
    assert("queued"@[0] == 'q');
    assert("running"@[0] == 'r');
    assert("retrying"@[0] == 'r');
    assert("running"@.len() != "retrying"@.len());
    assert("success"@[0] == 's');
    assert("failed"@[0] == 'f');
    assert("blocked"@[0] == 'b');
    assert("interrupted"@[0] == 'i');
}

/// What a change to one task does to the state of each.
pub proof fn lemma_patch_effect(m: DbModel, run: Seq<char>, task: Seq<char>, patch: PatchModel)
    ensures
        forall|r: Seq<char>, id: Seq<char>| #[trigger]
            m.with_patch(run, task, patch).task(r, id) == match m.task(r, id) {
                Some(t) => Some(
                    if run == r && task == id {
                        patch.apply(t)
                    } else {
                        t
                    },
                ),
                None => None,
            },
{
    assert forall|r: Seq<char>, id: Seq<char>| #[trigger]
        m.with_patch(run, task, patch).task(r, id) == match m.task(r, id) {
            Some(t) => Some(
                if run == r && task == id {
                    patch.apply(t)
                } else {
                    t
                },
            ),
            None => None,
        } by {
        lemma_patched_state(m.tasks, run, task, patch, r, id);
    }
}

/// Setting the status of a task: what it does to each state, and that it leaves
/// the record well formed.
pub proof fn lemma_set_task_effect(
    m: DbModel,
    run: Seq<char>,
    task: Seq<char>,
    status: Seq<char>,
    error: Option<Seq<char>>,
    now: i64,
)
    requires
        m.well_formed(),
        m.room(1),
    ensures
        ({
            let after = m.set_task(run, task, status, error, now);
            let patch = status_patch(status, error, now);
            &&& after.well_formed()
            &&& after.last_event == m.last_event + 1
            &&& same_keys(m, after)
            &&& after.attempts == m.attempts
            &&& forall|r: Seq<char>, id: Seq<char>| #[trigger]
                after.task(r, id) == match m.task(r, id) {
                    Some(t) => Some(
                        if run == r && task == id {
                            patch.apply(t)
                        } else {
                            t
                        },
                    ),
                    None => None,
                }
        }),
{
    let patch = status_patch(status, error, now);
    let mid = m.with_patch(run, task, patch);
    lemma_patch_effect(m, run, task, patch);
    lemma_patch_keeps(m, run, task, patch);
    lemma_event_keeps(mid, run, "task"@, task_payload(task, status, error), now);
    let after = m.set_task(run, task, status, error, now);
    assert forall|r: Seq<char>, id: Seq<char>| #[trigger]
        after.task(r, id) == match m.task(r, id) {
            Some(t) => Some(
                if run == r && task == id {
                    patch.apply(t)
                } else {
                    t
                },
            ),
            None => None,
        } by {
        assert(after.task(r, id) == mid.task(r, id));
    }
}

/// The same runs, tasks and attempts are recorded, under the same keys and in
/// the same places.
pub open spec fn same_keys(m: DbModel, after: DbModel) -> bool {
    &&& after.tasks.len() == m.tasks.len()
    &&& forall|j: int|
        0 <= j < m.tasks.len() ==> is_task(
            #[trigger] after.tasks[j],
            m.tasks[j].run_id,
            m.tasks[j].task.id,
        )
    &&& after.attempts.len() == m.attempts.len()
    &&& forall|j: int|
        0 <= j < m.attempts.len() ==> is_attempt(
            #[trigger] after.attempts[j],
            m.attempts[j].run_id,
            m.attempts[j].attempt.task_id,
            m.attempts[j].attempt.number,
        )
}

/// The start of an attempt: what it does to each state, and that it leaves the
/// record well formed.
pub proof fn lemma_start_effect(m: DbModel, run: Seq<char>, task: Seq<char>, now: i64)
    requires
        m.well_formed(),
        m.room(1),
        m.next_attempt(run, task) is Ok,
    ensures
        ({
            let after = m.start_attempt(run, task, now);
            let number = (m.task(run, task)->0.attempts + 1) as i64;
            &&& after.well_formed()
            &&& after.last_event == m.last_event + 1
            &&& after.tasks.len() == m.tasks.len()
            &&& forall|j: int|
                0 <= j < m.tasks.len() ==> is_task(
                    #[trigger] after.tasks[j],
                    m.tasks[j].run_id,
                    m.tasks[j].task.id,
                )
            &&& after.attempts == m.attempts.push(new_attempt(run, task, number, now))
            &&& forall|r: Seq<char>, id: Seq<char>| #[trigger]
                after.task(r, id) == match m.task(r, id) {
                    Some(t) => Some(
                        if run == r && task == id {
                            start_patch(now).apply(t)
                        } else {
                            t
                        },
                    ),
                    None => None,
                }
        }),
{
    let number = (m.task(run, task)->0.attempts + 1) as i64;
    let patch = start_patch(now);
    let mid = m.with_patch(run, task, patch);
    lemma_patch_effect(m, run, task, patch);
    lemma_patch_keeps(m, run, task, patch);
    assert(!mid.has_attempt(run, task, number)) by {
        assert(mid.attempts == m.attempts);
        assert(!m.has_attempt(run, task, number));
    }
    lemma_new_attempt_keeps(mid, run, task, number, now);
    let more = DbModel {
        attempts: mid.attempts.push(new_attempt(run, task, number, now)),
        ..mid
    };
    lemma_event_keeps(more, run, "task"@, start_payload(task, number as int), now);
    let after = m.start_attempt(run, task, now);
    assert forall|r: Seq<char>, id: Seq<char>| #[trigger]
        after.task(r, id) == match m.task(r, id) {
            Some(t) => Some(
                if run == r && task == id {
                    patch.apply(t)
                } else {
                    t
                },
            ),
            None => None,
        } by {
        assert(after.task(r, id) == mid.task(r, id));
    }
}

/// The end of an attempt: what it does to each state, and that it leaves the
/// record well formed.
pub proof fn lemma_finish_effect(
    m: DbModel,
    run: Seq<char>,
    task: Seq<char>,
    number: i64,
    status: Seq<char>,
    error: Option<Seq<char>>,
    now: i64,
)
    requires
        m.well_formed(),
        m.room(2),
    ensures
        ({
            let after = m.finish_attempt(run, task, number, status, error, now);
            &&& after.well_formed()
            &&& m.last_event < after.last_event <= m.last_event + 2
            &&& status != "success"@ ==> after.last_event == m.last_event + 1
            &&& same_keys(m, after)
            &&& after.attempts == attempt_ended(
                m.attempts,
                run,
                task,
                number,
                status,
                error,
                now,
            )
            &&& forall|r: Seq<char>, id: Seq<char>| #[trigger]
                after.task(r, id) == match m.task(r, id) {
                    Some(t) => Some(
                        if status == "success"@ && run == r && task == id {
                            success_patch(now).apply(t)
                        } else {
                            t
                        },
                    ),
                    None => None,
                }
        }),
{
    let rows = attempt_ended(m.attempts, run, task, number, status, error, now);
    let closed = DbModel { attempts: rows, ..m };
    lemma_attempts_keep(m, rows);
    let patch = success_patch(now);
    let mid = closed.with_patch(run, task, patch);
    lemma_patch_effect(closed, run, task, patch);
    lemma_patch_keeps(closed, run, task, patch);
    let noted = mid.with_event(run, "task"@, success_payload(task), now);
    lemma_event_keeps(mid, run, "task"@, success_payload(task), now);
    let payload = attempt_payload(task, number as int, status, error);
    if status == "success"@ {
        lemma_event_keeps(noted, run, "attempt"@, payload, now);
    } else {
        lemma_event_keeps(closed, run, "attempt"@, payload, now);
    }
    let after = m.finish_attempt(run, task, number, status, error, now);
    assert forall|r: Seq<char>, id: Seq<char>| #[trigger]
        after.task(r, id) == match m.task(r, id) {
            Some(t) => Some(
                if status == "success"@ && run == r && task == id {
                    patch.apply(t)
                } else {
                    t
                },
            ),
            None => None,
        } by {
        assert(closed.task(r, id) == m.task(r, id));
        if status == "success"@ {
            assert(after.task(r, id) == mid.task(r, id));
        } else {
            assert(after.task(r, id) == closed.task(r, id));
        }
    }
}

/// Setting the same status on several tasks.
pub proof fn lemma_set_each_effect(
    m: DbModel,
    run: Seq<char>,
    tasks: Seq<TaskModel>,
    status: Seq<char>,
    error: Option<Seq<char>>,
    now: i64,
)
    requires
        m.well_formed(),
        m.room(tasks.len() as int),
    ensures
        ({
            let after = set_each(m, run, tasks, status, error, now);
            let patch = status_patch(status, error, now);
            &&& after.well_formed()
            &&& after.last_event == m.last_event + tasks.len()
            &&& same_keys(m, after)
            &&& after.attempts == m.attempts
            &&& forall|r: Seq<char>, id: Seq<char>| #[trigger]
                after.task(r, id) == match m.task(r, id) {
                    Some(t) => Some(
                        if run == r && ids(tasks).contains(id) {
                            patch.apply(t)
                        } else {
                            t
                        },
                    ),
                    None => None,
                }
        }),
    decreases tasks.len(),
{
    let patch = status_patch(status, error, now);
    let after = set_each(m, run, tasks, status, error, now);
    if tasks.len() > 0 {
        let before = set_each(m, run, tasks.drop_last(), status, error, now);
        lemma_set_each_effect(m, run, tasks.drop_last(), status, error, now);
        lemma_set_task_effect(before, run, tasks.last().id, status, error, now);
        assert forall|r: Seq<char>, id: Seq<char>| #[trigger]
            after.task(r, id) == match m.task(r, id) {
                Some(t) => Some(
                    if run == r && ids(tasks).contains(id) {
                        patch.apply(t)
                    } else {
                        t
                    },
                ),
                None => None,
            } by {
            assert(before.task(r, id) is Some <==> m.task(r, id) is Some);
            if ids(tasks.drop_last()).contains(id) {
                let k = ids(tasks.drop_last()).index_of(id);
                assert(ids(tasks)[k] == id);
            }
            if ids(tasks).contains(id) {
                let k = ids(tasks).index_of(id);
                if k < tasks.len() - 1 {
                    assert(ids(tasks.drop_last())[k] == id);
                }
            }
            assert(ids(tasks)[tasks.len() - 1] == tasks.last().id);
        }
        assert forall|j: int| 0 <= j < m.tasks.len() implies is_task(
            #[trigger] after.tasks[j],
            m.tasks[j].run_id,
            m.tasks[j].task.id,
        ) by {
            assert(is_task(before.tasks[j], m.tasks[j].run_id, m.tasks[j].task.id));
        }
        assert forall|j: int| 0 <= j < m.attempts.len() implies is_attempt(
            #[trigger] after.attempts[j],
            m.attempts[j].run_id,
            m.attempts[j].attempt.task_id,
            m.attempts[j].attempt.number,
        ) by {
            assert(is_attempt(
                before.attempts[j],
                m.attempts[j].run_id,
                m.attempts[j].attempt.task_id,
                m.attempts[j].attempt.number,
            ));
        }
    } else {
        assert forall|r: Seq<char>, id: Seq<char>| #[trigger]
            after.task(r, id) == match m.task(r, id) {
                Some(t) => Some(
                    if run == r && ids(tasks).contains(id) {
                        patch.apply(t)
                    } else {
                        t
                    },
                ),
                None => None,
            } by {
            assert(ids(tasks).len() == 0);
        }
    }
}

// ---------------------------------------------------------------------------
// Every step keeps what holds
// ---------------------------------------------------------------------------

/// A task moves in a way that keeps the record sound.
pub open spec fn moves_soundly(
    m: DbModel,
    after: DbModel,
    run: Seq<char>,
    w: WorkflowModel,
    i: int,
) -> bool {
    let t = state_of(m, run, w, i);
    let u = state_of(after, run, w, i);
    &&& after.task(run, w.tasks[i].id) is Some
    &&& known_status(u.status)
    &&& 0 <= u.attempts <= w.tasks[i].budget()
    &&& u.status == "queued"@ || u.status == "retrying"@ ==> u.attempts < w.tasks[i].budget()
    &&& t.status == "success"@ ==> u.status == "success"@
    &&& t.status == "failed"@ || t.status == "blocked"@ ==> u.status == "failed"@ || u.status
        == "blocked"@
    &&& begun(u) ==> met(m, run, w.tasks[i])
    &&& u.status == "blocked"@ ==> hopeless(m, run, w.tasks[i])
}

/// Where every task moves soundly, the record stays sound.
pub proof fn lemma_record_stays_sound(m: DbModel, after: DbModel, run: Seq<char>, w: WorkflowModel)
    requires
        record_sound(m, run, w),
        after.well_formed(),
        counted(after),
        after.tasks.len() == m.tasks.len(),
        forall|j: int|
            0 <= j < m.tasks.len() ==> is_task(
                #[trigger] after.tasks[j],
                m.tasks[j].run_id,
                m.tasks[j].task.id,
            ),
        forall|i: int| 0 <= i < w.tasks.len() ==> #[trigger] moves_soundly(m, after, run, w, i),
    ensures
        record_sound(after, run, w),
{
    assert forall|i: int| 0 <= i < w.tasks.len() implies after.task(
        run,
        (#[trigger] w.tasks[i]).id,
    ) is Some by {
        assert(moves_soundly(m, after, run, w, i));
    }
    assert forall|j: int|
        0 <= j < after.tasks.len() && (#[trigger] after.tasks[j]).run_id == run implies w.knows(
        after.tasks[j].task.id,
    ) by {
        assert(is_task(after.tasks[j], m.tasks[j].run_id, m.tasks[j].task.id));
        assert(m.tasks[j].run_id == run);
    }
    assert forall|i: int| 0 <= i < w.tasks.len() implies #[trigger] task_sound(
        after,
        run,
        w,
        i,
    ) by {
        assert(moves_soundly(m, after, run, w, i));
        let t = w.tasks[i];
        let u = state_of(after, run, w, i);
        if begun(u) {
            assert forall|k: int| 0 <= k < t.dependencies.len() implies after.status(
                run,
                #[trigger] t.dependencies[k],
            ) == "success"@ by {
                let dep = t.dependencies[k];
                assert(m.status(run, dep) == "success"@);
                assert(w.knows(w.tasks[i].dependencies[k]));
                let j = choose|j: int| 0 <= j < w.tasks.len() && #[trigger] w.tasks[j].id == dep;
                assert(moves_soundly(m, after, run, w, j));
            }
        }
        if u.status == "blocked"@ {
            let k = choose|k: int|
                0 <= k < t.dependencies.len() && lost(m, run, #[trigger] t.dependencies[k]);
            let dep = t.dependencies[k];
            assert(w.knows(w.tasks[i].dependencies[k]));
            let j = choose|j: int| 0 <= j < w.tasks.len() && #[trigger] w.tasks[j].id == dep;
            assert(moves_soundly(m, after, run, w, j));
            assert(lost(after, run, t.dependencies[k]));
        }
    }
}

/// The attempts stay counted where no counter falls.
pub proof fn lemma_stays_counted(m: DbModel, after: DbModel)
    requires
        counted(m),
        after.attempts.len() == m.attempts.len(),
        forall|j: int|
            0 <= j < m.attempts.len() ==> is_attempt(
                #[trigger] after.attempts[j],
                m.attempts[j].run_id,
                m.attempts[j].attempt.task_id,
                m.attempts[j].attempt.number,
            ),
        forall|r: Seq<char>, id: Seq<char>| (#[trigger] m.task(r, id)) is Some ==> after.task(r, id)
            is Some && after.task(r, id)->0.attempts >= m.task(r, id)->0.attempts,
    ensures
        counted(after),
{
    assert forall|j: int| 0 <= j < after.attempts.len() implies is_counted(
        after,
        #[trigger] after.attempts[j],
    ) by {
        let a = m.attempts[j];
        assert(is_counted(m, a));
        assert(is_attempt(
            after.attempts[j],
            a.run_id,
            a.attempt.task_id,
            a.attempt.number,
        ));
        assert(m.task(a.run_id, a.attempt.task_id) is Some);
    }
}

/// A task that stays as it is moves soundly.
pub proof fn lemma_stays(m: DbModel, after: DbModel, run: Seq<char>, w: WorkflowModel, i: int)
    requires
        record_sound(m, run, w),
        0 <= i < w.tasks.len(),
        after.task(run, w.tasks[i].id) == m.task(run, w.tasks[i].id),
    ensures
        moves_soundly(m, after, run, w, i),
{
    assert(task_sound(m, run, w, i));
    assert(m.task(run, w.tasks[i].id) is Some);
}

/// In a valid workflow a budget is at least one attempt.
pub proof fn lemma_budget_positive(w: WorkflowModel, i: int)
    requires
        w.valid(),
        0 <= i < w.tasks.len(),
    ensures
        1 <= w.tasks[i].budget() <= 1001,
{
    assert(w.tasks[i].sound());
}

/// In a sound record the next attempt at a task within its budget can start.
pub proof fn lemma_next_attempt(m: DbModel, run: Seq<char>, w: WorkflowModel, i: int)
    requires
        record_sound(m, run, w),
        0 <= i < w.tasks.len(),
        state_of(m, run, w, i).attempts < w.tasks[i].budget(),
    ensures
        m.next_attempt(run, w.tasks[i].id) == Ok::<i64, DbError>(
            (state_of(m, run, w, i).attempts + 1) as i64,
        ),
{
    let id = w.tasks[i].id;
    let t = state_of(m, run, w, i);
    lemma_budget_positive(w, i);
    assert(m.task(run, id) is Some);
    let number = (t.attempts + 1) as i64;
    if m.has_attempt(run, id, number) {
        let j = choose|j: int|
            0 <= j < m.attempts.len() && is_attempt(#[trigger] m.attempts[j], run, id, number);
        assert(is_counted(m, m.attempts[j]));
        assert(false);
    }
}

proof fn lemma_set_task_sound(
    m: DbModel,
    run: Seq<char>,
    w: WorkflowModel,
    i: int,
    status: Seq<char>,
    error: Option<Seq<char>>,
    now: i64,
)
    requires
        record_sound(m, run, w),
        m.room(1),
        0 <= i < w.tasks.len(),
        moves_soundly(m, m.set_task(run, w.tasks[i].id, status, error, now), run, w, i),
    ensures
        record_sound(m.set_task(run, w.tasks[i].id, status, error, now), run, w),
{
    let after = m.set_task(run, w.tasks[i].id, status, error, now);
    lemma_set_task_effect(m, run, w.tasks[i].id, status, error, now);
    lemma_stays_counted(m, after);
    assert forall|j: int| 0 <= j < w.tasks.len() implies #[trigger] moves_soundly(
        m,
        after,
        run,
        w,
        j,
    ) by {
        if j != i {
            assert(w.tasks[i].id != w.tasks[j].id);
            assert(m.task(run, w.tasks[j].id) is Some);
            lemma_stays(m, after, run, w, j);
        }
    }
    lemma_record_stays_sound(m, after, run, w);
}

/// What a filter picks from the tasks of a workflow: those that pass it, each
/// once.
pub proof fn lemma_picked(w: WorkflowModel, p: spec_fn(TaskModel) -> bool)
    requires
        w.distinct(),
    ensures
        forall|i: int|
            0 <= i < w.tasks.len() ==> (ids(w.tasks.filter(p)).contains(
                (#[trigger] w.tasks[i]).id,
            ) <==> p(w.tasks[i])),
        ids(w.tasks.filter(p)).no_duplicates(),
        w.tasks.filter(p).len() <= w.tasks.len(),
{
    let kept = w.tasks.filter(p);
    lemma_filter_distinct(w.tasks, p);
    w.tasks.lemma_filter_len(p);
    assert forall|i: int| 0 <= i < w.tasks.len() implies (ids(kept).contains(
        (#[trigger] w.tasks[i]).id,
    ) <==> p(w.tasks[i])) by {
        if p(w.tasks[i]) {
            w.tasks.lemma_filter_contains(p, i);
            let k = choose|k: int| 0 <= k < kept.len() && kept[k] == w.tasks[i];
            assert(ids(kept)[k] == w.tasks[i].id);
        }
        if ids(kept).contains(w.tasks[i].id) {
            let k = ids(kept).index_of(w.tasks[i].id);
            assert(w.tasks.contains(kept[k]));
            let j = choose|j: int| 0 <= j < w.tasks.len() && w.tasks[j] == kept[k];
            assert(w.tasks[j].id == w.tasks[i].id);
            assert(j == i);
            w.tasks.lemma_filter_pred(p, k);
        }
    }
    assert forall|a: int, b: int|
        0 <= a < ids(kept).len() && 0 <= b < ids(kept).len() && a != b implies ids(kept)[a]
        != ids(kept)[b] by {
        assert(kept[a].id != kept[b].id);
    }
}

/// The tasks that a decision moves are tasks of the workflow, each once, and all
/// of them waited: those that are blocked were doomed, those that are launched
/// were ready.
pub proof fn lemma_moved(s: SchedulerModel, m: DbModel, cancelled: bool)
    requires
        s.workflow.distinct(),
    ensures
        s.moved(m, cancelled).len() <= s.workflow.tasks.len(),
        ids(s.moved(m, cancelled)).no_duplicates(),
        forall|k: int|
            0 <= k < s.moved(m, cancelled).len() ==> s.workflow.tasks.contains(
                #[trigger] s.moved(m, cancelled)[k],
            ),
        forall|i: int|
            0 <= i < s.workflow.tasks.len() && ids(s.moved(m, cancelled)).contains(
                (#[trigger] s.workflow.tasks[i]).id,
            ) ==> m.status(s.run, s.workflow.tasks[i].id) == "pending"@ && (s.action(m, cancelled)
                is Again ==> doomed(m, s.run, s.workflow.tasks[i])) && (s.action(m, cancelled)
                is Launch ==> ready(m, s.run, s.workflow.tasks[i])),
        s.action(m, cancelled) is Again || s.action(m, cancelled) is Launch ==> s.moved(
            m,
            cancelled,
        ).len() > 0,
{
    let w = s.workflow;
    let tasks = s.moved(m, cancelled);
    let rule = if s.action(m, cancelled) is Again {
        |t: TaskModel| doomed(m, s.run, t)
    } else {
        |t: TaskModel| ready(m, s.run, t)
    };
    let all = w.tasks.filter(rule);
    lemma_picked(w, rule);
    assert forall|k: int| 0 <= k < tasks.len() implies w.tasks.contains(#[trigger] tasks[k]) by {
        assert(tasks[k] == all[k]);
        assert(all.contains(all[k]));
        w.tasks.lemma_filter_contains_rev(rule, all[k]);
    }
    assert forall|a: int, b: int|
        0 <= a < ids(tasks).len() && 0 <= b < ids(tasks).len() && a != b implies ids(tasks)[a]
        != ids(tasks)[b] by {
        assert(ids(all)[a] != ids(all)[b]);
    }
    assert forall|i: int| 0 <= i < w.tasks.len() && ids(tasks).contains(
        (#[trigger] w.tasks[i]).id,
    ) implies rule(w.tasks[i]) by {
        let k = ids(tasks).index_of(w.tasks[i].id);
        assert(ids(all)[k] == w.tasks[i].id);
        assert(ids(all).contains(w.tasks[i].id));
    }
}

/// A decision that moves something moves a task of the workflow.
pub proof fn lemma_some_task_moved(s: SchedulerModel, m: DbModel, cancelled: bool) -> (i: int)
    requires
        s.workflow.distinct(),
        s.moved(m, cancelled).len() > 0,
    ensures
        0 <= i < s.workflow.tasks.len(),
        ids(s.moved(m, cancelled)).contains(s.workflow.tasks[i].id),
{
    lemma_moved(s, m, cancelled);
    let first = s.moved(m, cancelled)[0];
    let i = choose|i: int| 0 <= i < s.workflow.tasks.len() && s.workflow.tasks[i] == first;
    assert(ids(s.moved(m, cancelled))[0] == s.workflow.tasks[i].id);
    i
}

/// What a decision does to each state, and that it leaves the record well formed.
pub proof fn lemma_decide_effect(s: SchedulerModel, m: DbModel, cancelled: bool, now: i64)
    requires
        m.well_formed(),
        m.room(s.workflow.tasks.len() as int),
        s.workflow.distinct(),
    ensures
        ({
            let after = s.next_db(m, cancelled, now);
            let patch = status_patch(
                s.moved_status(m, cancelled),
                s.moved_error(m, cancelled),
                now,
            );
            &&& after.well_formed()
            &&& same_keys(m, after)
            &&& after.attempts == m.attempts
            &&& forall|r: Seq<char>, id: Seq<char>| #[trigger]
                after.task(r, id) == match m.task(r, id) {
                    Some(t) => Some(
                        if s.run == r && ids(s.moved(m, cancelled)).contains(id) {
                            patch.apply(t)
                        } else {
                            t
                        },
                    ),
                    None => None,
                }
        }),
{
    lemma_moved(s, m, cancelled);
    lemma_set_each_effect(
        m,
        s.run,
        s.moved(m, cancelled),
        s.moved_status(m, cancelled),
        s.moved_error(m, cancelled),
        now,
    );
}

/// A decision keeps what holds.
proof fn lemma_decide_keeps(st: RunState, now: i64)
    requires
        st.sound(),
        st.legal(Step::Decide),
    ensures
        st.after(Step::Decide, now).sound(),
{
    lemma_statuses();
    let m = st.db;
    let s = st.scheduler;
    let run = s.run;
    let w = s.workflow;
    let tasks = s.moved(m, st.cancelled);
    lemma_moved(s, m, st.cancelled);
    lemma_decide_effect(s, m, st.cancelled, now);
    let next = st.after(Step::Decide, now);
    let after = next.db;
    let active = s.active;
    let later = next.scheduler.active;
    lemma_stays_counted(m, after);
    assert forall|i: int| 0 <= i < w.tasks.len() implies #[trigger] moves_soundly(
        m,
        after,
        run,
        w,
        i,
    ) by {
        assert(task_sound(m, run, w, i));
        assert(st.task_tracked(i));
        assert(m.task(run, w.tasks[i].id) is Some);
        if !ids(tasks).contains(w.tasks[i].id) {
            lemma_stays(m, after, run, w, i);
        }
    }
    lemma_record_stays_sound(m, after, run, w);
    assert forall|k: int| 0 <= k < tasks.len() implies w.knows(#[trigger] ids(tasks)[k])
        && !active.contains(ids(tasks)[k]) by {
        assert(w.tasks.contains(tasks[k]));
        let i = choose|i: int| 0 <= i < w.tasks.len() && w.tasks[i] == tasks[k];
        assert(w.tasks[i].id == ids(tasks)[k]);
        assert(ids(tasks).contains(w.tasks[i].id));
        assert(st.task_tracked(i));
    }
    assert(later == if s.action(m, st.cancelled) is Launch {
        active + ids(tasks)
    } else {
        active
    });
    assert forall|a: int, b: int|
        0 <= a < later.len() && 0 <= b < later.len() && a != b implies later[a] != later[b] by {
        let n = active.len();
        if a < n && b >= n {
            assert(active.contains(active[a]));
            assert(!active.contains(ids(tasks)[b - n]));
        } else if a >= n && b < n {
            assert(active.contains(active[b]));
            assert(!active.contains(ids(tasks)[a - n]));
        } else if a >= n && b >= n {
            assert(ids(tasks)[a - n] != ids(tasks)[b - n]);
        }
    }
    assert forall|k: int| 0 <= k < later.len() implies w.knows(#[trigger] later[k]) by {
        if k < active.len() {
            assert(w.knows(active[k]));
        } else {
            assert(w.knows(ids(tasks)[k - active.len()]));
        }
    }
    assert forall|i: int| 0 <= i < w.tasks.len() implies #[trigger] next.task_tracked(i) by {
        assert(st.task_tracked(i));
        assert(m.task(run, w.tasks[i].id) is Some);
        lemma_active_after_decision(st, w.tasks[i].id);
    }
    assert forall|i: int, j: int|
        0 <= i < w.tasks.len() && 0 <= j < after.attempts.len() implies #[trigger] next.attempt_tracked(
        i,
        j,
    ) by {
        assert(st.attempt_tracked(i, j));
        assert(m.task(run, w.tasks[i].id) is Some);
    }
}

/// Which tasks are active after a decision.
pub proof fn lemma_active_after_decision(st: RunState, id: Seq<char>)
    ensures
        ({
            let s = st.scheduler;
            s.next(st.db, st.cancelled).active.contains(id) == (s.active.contains(id) || s.action(
                st.db,
                st.cancelled,
            ) is Launch && ids(s.moved(st.db, st.cancelled)).contains(id))
        }),
{
    let s = st.scheduler;
    let active = s.active;
    let later = s.next(st.db, st.cancelled).active;
    let tasks = s.moved(st.db, st.cancelled);
    if active.contains(id) {
        assert(later[active.index_of(id)] == id);
    }
    if s.action(st.db, st.cancelled) is Launch {
        if ids(tasks).contains(id) {
            assert(later[active.len() + ids(tasks).index_of(id)] == id);
        }
        if later.contains(id) {
            let k = later.index_of(id);
            if k < active.len() {
                assert(active[k] == id);
            } else {
                assert(ids(tasks)[k - active.len()] == id);
            }
        }
    }
}

/// Which tasks have an open attempt once one has started.
pub proof fn lemma_open_after_start(
    rows: Seq<AttemptRecord>,
    run: Seq<char>,
    task: Seq<char>,
    number: i64,
    now: i64,
    other: Seq<char>,
)
    ensures
        has_open(rows.push(new_attempt(run, task, number, now)), run, other) == (has_open(
            rows,
            run,
            other,
        ) || other == task),
{
    let after = rows.push(new_attempt(run, task, number, now));
    if has_open(rows, run, other) {
        let j = choose|j: int| 0 <= j < rows.len() && is_open(#[trigger] rows[j], run, other);
        assert(is_open(after[j], run, other));
    }
    if other == task {
        assert(is_open(after[rows.len() as int], run, other));
    }
    if has_open(after, run, other) {
        let j = choose|j: int| 0 <= j < after.len() && is_open(#[trigger] after[j], run, other);
        if j < rows.len() {
            assert(is_open(rows[j], run, other));
        }
    }
}

/// Which tasks have an open attempt once one has ended.
pub proof fn lemma_open_after_end(
    st: RunState,
    i: int,
    status: Seq<char>,
    error: Option<Seq<char>>,
    now: i64,
    other: Seq<char>,
)
    requires
        st.sound(),
        0 <= i < st.scheduler.workflow.tasks.len(),
        status != "running"@,
    ensures
        has_open(
            attempt_ended(
                st.db.attempts,
                st.scheduler.run,
                st.task(i).id,
                st.state(i).attempts,
                status,
                error,
                now,
            ),
            st.scheduler.run,
            other,
        ) == (has_open(st.db.attempts, st.scheduler.run, other) && other != st.task(i).id),
{
    let run = st.scheduler.run;
    let rows = st.db.attempts;
    let id = st.task(i).id;
    let number = st.state(i).attempts;
    let after = attempt_ended(rows, run, id, number, status, error, now);
    if has_open(rows, run, other) && other != id {
        let j = choose|j: int| 0 <= j < rows.len() && is_open(#[trigger] rows[j], run, other);
        assert(is_open(after[j], run, other));
    }
    if has_open(after, run, other) {
        let j = choose|j: int| 0 <= j < after.len() && is_open(#[trigger] after[j], run, other);
        assert(is_open(rows[j], run, other));
        if other == id {
            assert(st.attempt_tracked(i, j));
            assert(is_attempt(rows[j], run, id, number));
        }
    }
}

/// The start of an attempt keeps what holds.
proof fn lemma_start_keeps(st: RunState, i: int, now: i64)
    requires
        st.sound(),
        st.legal(Step::Start(i)),
    ensures
        st.after(Step::Start(i), now).sound(),
{
    lemma_statuses();
    let m = st.db;
    let run = st.scheduler.run;
    let w = st.scheduler.workflow;
    let id = w.tasks[i].id;
    assert(task_sound(m, run, w, i));
    lemma_next_attempt(m, run, w, i);
    lemma_budget_positive(w, i);
    lemma_start_effect(m, run, id, now);
    let next = st.after(Step::Start(i), now);
    let after = next.db;
    let number = (st.state(i).attempts + 1) as i64;
    assert(m.task(run, id) is Some);
    assert forall|j: int| 0 <= j < after.attempts.len() implies is_counted(
        after,
        #[trigger] after.attempts[j],
    ) by {
        if j < m.attempts.len() {
            assert(is_counted(m, m.attempts[j]));
        } else {
            assert(after.attempts[j] == new_attempt(run, id, number, now));
        }
    }
    assert forall|j: int| 0 <= j < w.tasks.len() implies #[trigger] moves_soundly(
        m,
        after,
        run,
        w,
        j,
    ) by {
        assert(m.task(run, w.tasks[j].id) is Some);
        if j != i {
            lemma_stays(m, after, run, w, j);
        }
    }
    lemma_record_stays_sound(m, after, run, w);
    assert forall|j: int| 0 <= j < w.tasks.len() implies #[trigger] next.task_tracked(j) by {
        lemma_open_after_start(m.attempts, run, id, number, now, w.tasks[j].id);
        assert(st.task_tracked(j));
        assert(m.task(run, w.tasks[j].id) is Some);
    }
    assert forall|k: int, j: int|
        0 <= k < w.tasks.len() && 0 <= j < after.attempts.len() implies #[trigger] next.attempt_tracked(
        k,
        j,
    ) by {
        assert(m.task(run, w.tasks[k].id) is Some);
        if j < m.attempts.len() {
            assert(st.attempt_tracked(k, j));
            assert(after.attempts[j] == m.attempts[j]);
        } else {
            assert(after.attempts[j] == new_attempt(run, id, number, now));
        }
    }
}

/// The end of an attempt keeps what holds.
proof fn lemma_end_keeps(st: RunState, i: int, result: ResultModel, now: i64)
    requires
        st.sound(),
        st.legal(Step::End(i, result)),
    ensures
        st.after(Step::End(i, result), now).sound(),
{
    lemma_statuses();
    let m = st.db;
    let run = st.scheduler.run;
    let w = st.scheduler.workflow;
    let id = w.tasks[i].id;
    let number = st.state(i).attempts;
    assert(task_sound(m, run, w, i));
    assert(m.task(run, id) is Some);
    let open = choose|j: int| 0 <= j < m.attempts.len() && is_open(#[trigger] m.attempts[j], run, id);
    assert(st.attempt_tracked(i, open));
    let next = st.after(Step::End(i, result), now);
    let after = next.db;
    let status = result.status();
    let error = result.error();
    let mid = m.finish_attempt(run, id, number, status, error, now);
    lemma_finish_effect(m, run, id, number, status, error, now);
    lemma_stays_counted(m, mid);
    assert forall|j: int| 0 <= j < w.tasks.len() implies #[trigger] moves_soundly(
        m,
        mid,
        run,
        w,
        j,
    ) by {
        assert(m.task(run, w.tasks[j].id) is Some);
        if j != i || result !is Success {
            lemma_stays(m, mid, run, w, j);
        }
    }
    lemma_record_stays_sound(m, mid, run, w);
    if result is Failure && number < w.tasks[i].budget() {
        lemma_set_task_effect(mid, run, id, "retrying"@, error, now);
        assert(task_sound(mid, run, w, i));
        assert(mid.task(run, id) is Some);
        assert(moves_soundly(mid, after, run, w, i));
        lemma_set_task_sound(mid, run, w, i, "retrying"@, error, now);
    }
    assert forall|j: int| 0 <= j < w.tasks.len() implies #[trigger] next.task_tracked(j) by {
        lemma_open_after_end(st, i, status, error, now, w.tasks[j].id);
        assert(after.attempts == mid.attempts);
        assert(st.task_tracked(j));
        assert(m.task(run, w.tasks[j].id) is Some);
        assert(mid.task(run, w.tasks[j].id) is Some);
    }
    assert forall|k: int, j: int|
        0 <= k < w.tasks.len() && 0 <= j < after.attempts.len() implies #[trigger] next.attempt_tracked(
        k,
        j,
    ) by {
        assert(st.attempt_tracked(k, j));
        assert(m.task(run, w.tasks[k].id) is Some);
        assert(mid.task(run, w.tasks[k].id) is Some);
        assert(after.attempts == mid.attempts);
        if k != i {
            assert(w.tasks[k].id != id);
        }
    }
}

/// Taking an identifier out of a list without repetition.
pub proof fn lemma_without(s: Seq<Seq<char>>, id: Seq<char>)
    requires
        s.no_duplicates(),
    ensures
        without(s, id).no_duplicates(),
        without(s, id).len() == if s.contains(id) {
            s.len() - 1
        } else {
            s.len() as int
        },
        forall|x: Seq<char>| #[trigger] without(s, id).contains(x) <==> s.contains(x) && x != id,
    decreases s.len(),
{
    if s.len() > 0 {
        let rest = s.drop_first();
        lemma_without(rest, id);
        let r = without(s, id);
        assert forall|x: Seq<char>| #[trigger] s.contains(x) <==> x == s[0] || rest.contains(x) by {
            if s.contains(x) {
                let k = s.index_of(x);
                if k > 0 {
                    assert(rest[k - 1] == x);
                }
            }
            if rest.contains(x) {
                let k = rest.index_of(x);
                assert(s[k + 1] == x);
            }
        }
        assert(!rest.contains(s[0])) by {
            if rest.contains(s[0]) {
                let k = rest.index_of(s[0]);
                assert(s[k + 1] == s[0]);
            }
        }
        if s[0] != id {
            let tail = without(rest, id);
            assert(r =~= seq![s[0]] + tail);
            assert forall|x: Seq<char>| #[trigger] r.contains(x) <==> x == s[0] || tail.contains(
                x,
            ) by {
                if r.contains(x) {
                    let k = r.index_of(x);
                    if k > 0 {
                        assert(tail[k - 1] == x);
                    }
                }
                if tail.contains(x) {
                    let k = tail.index_of(x);
                    assert(r[k + 1] == x);
                }
                if x == s[0] {
                    assert(r[0] == x);
                }
            }
            assert(!tail.contains(s[0]));
            assert forall|a: int, b: int|
                0 <= a < r.len() && 0 <= b < r.len() && a != b implies r[a] != r[b] by {
                if a > 0 && b > 0 {
                    assert(tail[a - 1] != tail[b - 1]);
                } else if a > 0 {
                    assert(tail.contains(tail[a - 1]));
                } else {
                    assert(tail.contains(tail[b - 1]));
                }
            }
        } else {
            assert(r =~= rest);
        }
    } else {
        assert(!s.contains(id));
    }
}

/// The end of a task keeps what holds.
proof fn lemma_settle_keeps(st: RunState, i: int, outcome: OutcomeModel, now: i64)
    requires
        st.sound(),
        st.legal(Step::Settle(i, outcome)),
    ensures
        st.after(Step::Settle(i, outcome), now).sound(),
{
    lemma_statuses();
    let m = st.db;
    let run = st.scheduler.run;
    let w = st.scheduler.workflow;
    let id = w.tasks[i].id;
    assert(task_sound(m, run, w, i));
    assert(m.task(run, id) is Some);
    let next = st.after(Step::Settle(i, outcome), now);
    let after = next.db;
    let status = outcome.status();
    let error = outcome.error();
    lemma_set_task_effect(m, run, id, status, error, now);
    assert(moves_soundly(m, after, run, w, i));
    lemma_set_task_sound(m, run, w, i, status, error, now);
    lemma_without(st.scheduler.active, id);
    assert forall|k: int| 0 <= k < next.scheduler.active.len() implies w.knows(
        #[trigger] next.scheduler.active[k],
    ) by {
        let x = next.scheduler.active[k];
        assert(next.scheduler.active.contains(x));
        let a = st.scheduler.active.index_of(x);
        assert(w.knows(st.scheduler.active[a]));
    }
    assert forall|j: int| 0 <= j < w.tasks.len() implies #[trigger] next.task_tracked(j) by {
        assert(st.task_tracked(j));
        assert(m.task(run, w.tasks[j].id) is Some);
        if j != i {
            assert(w.tasks[j].id != id);
        }
    }
    assert forall|k: int, j: int|
        0 <= k < w.tasks.len() && 0 <= j < after.attempts.len() implies #[trigger] next.attempt_tracked(
        k,
        j,
    ) by {
        assert(st.attempt_tracked(k, j));
        assert(m.task(run, w.tasks[k].id) is Some);
        if k != i {
            assert(w.tasks[k].id != id);
        } else if is_open(m.attempts[j], run, id) {
            assert(st.is_tried(i));
        }
    }
}

/// Whatever happens to a run under way, what holds of it goes on holding.
pub proof fn law_steps_keep_soundness(st: RunState, step: Step, now: i64)
    requires
        st.sound(),
        st.legal(step),
    ensures
        st.after(step, now).sound(),
{
    match step {
        Step::Cancel => {
            let next = st.after(step, now);
            assert forall|i: int|
                0 <= i < next.scheduler.workflow.tasks.len() implies #[trigger] next.task_tracked(
                i,
            ) by {
                assert(st.task_tracked(i));
            }
            assert forall|i: int, j: int|
                0 <= i < next.scheduler.workflow.tasks.len() && 0 <= j
                    < next.db.attempts.len() implies #[trigger] next.attempt_tracked(i, j) by {
                assert(st.attempt_tracked(i, j));
            }
        },
        Step::Decide => {
            lemma_decide_keeps(st, now);
        },
        Step::Start(i) => {
            lemma_start_keeps(st, i, now);
        },
        Step::End(i, result) => {
            lemma_end_keeps(st, i, result, now);
        },
        Step::Settle(i, outcome) => {
            lemma_settle_keeps(st, i, outcome, now);
        },
    }
}

impl RunState {
    /// The state of the task at a position after a step.
    pub open spec fn next_state(self, step: Step, now: i64, i: int) -> TaskState {
        let t = self.state(i);
        let s = self.scheduler;
        match step {
            Step::Cancel => t,
            Step::Decide => if ids(s.moved(self.db, self.cancelled)).contains(self.task(i).id) {
                status_patch(
                    s.moved_status(self.db, self.cancelled),
                    s.moved_error(self.db, self.cancelled),
                    now,
                ).apply(t)
            } else {
                t
            },
            Step::Start(j) => if j == i {
                start_patch(now).apply(t)
            } else {
                t
            },
            Step::End(j, result) => if j != i {
                t
            } else if result is Success {
                success_patch(now).apply(t)
            } else if result is Failure && t.attempts < self.task(i).budget() {
                status_patch("retrying"@, result.error(), now).apply(t)
            } else {
                t
            },
            Step::Settle(j, outcome) => if j == i {
                status_patch(outcome.status(), outcome.error(), now).apply(t)
            } else {
                t
            },
        }
    }

    /// The attempts after a step.
    pub open spec fn next_attempts(self, step: Step, now: i64) -> Seq<AttemptRecord> {
        let rows = self.db.attempts;
        let run = self.scheduler.run;
        match step {
            Step::Start(i) => rows.push(
                new_attempt(run, self.task(i).id, (self.state(i).attempts + 1) as i64, now),
            ),
            Step::End(i, result) => attempt_ended(
                rows,
                run,
                self.task(i).id,
                self.state(i).attempts,
                result.status(),
                result.error(),
                now,
            ),
            _ => rows,
        }
    }
}

/// What a step does to the state of a task, and to the attempts.
pub proof fn lemma_step_state(st: RunState, step: Step, now: i64, i: int)
    requires
        st.sound(),
        st.legal(step),
        0 <= i < st.scheduler.workflow.tasks.len(),
    ensures
        st.after(step, now).db.task(st.scheduler.run, st.task(i).id) == Some(
            st.next_state(step, now, i),
        ),
        st.after(step, now).state(i) == st.next_state(step, now, i),
        st.after(step, now).db.attempts == st.next_attempts(step, now),
{
    lemma_statuses();
    let m = st.db;
    let s = st.scheduler;
    let run = s.run;
    let w = s.workflow;
    let id = w.tasks[i].id;
    assert(m.task(run, id) is Some);
    match step {
        Step::Cancel => {},
        Step::Decide => {
            lemma_decide_effect(s, m, st.cancelled, now);
        },
        Step::Start(j) => {
            assert(task_sound(m, run, w, j));
            lemma_next_attempt(m, run, w, j);
            lemma_start_effect(m, run, w.tasks[j].id, now);
            assert(w.tasks[j].id != id || j == i);
        },
        Step::End(j, result) => {
            let number = st.state(j).attempts;
            let status = result.status();
            let error = result.error();
            let mid = m.finish_attempt(run, w.tasks[j].id, number, status, error, now);
            lemma_finish_effect(m, run, w.tasks[j].id, number, status, error, now);
            assert(mid.task(run, id) is Some);
            assert(w.tasks[j].id != id || j == i);
            if result is Failure && number < w.tasks[j].budget() {
                lemma_set_task_effect(mid, run, w.tasks[j].id, "retrying"@, error, now);
            }
        },
        Step::Settle(j, outcome) => {
            lemma_set_task_effect(m, run, w.tasks[j].id, outcome.status(), outcome.error(), now);
            assert(w.tasks[j].id != id || j == i);
        },
    }
}

/// What a task writes may be recorded at any time: what holds of the run goes on
/// holding.
pub proof fn law_logging_keeps_soundness(
    st: RunState,
    task: Seq<char>,
    attempt: i64,
    stream: Seq<char>,
    line: Seq<char>,
    now: i64,
)
    requires
        st.sound(),
        st.db.room(1),
        st.db.last_log < i64::MAX,
    ensures
        (RunState {
            db: st.db.log(st.scheduler.run, task, attempt, stream, line, now),
            ..st
        }).sound(),
{
    let m = st.db;
    let run = st.scheduler.run;
    let w = st.scheduler.workflow;
    let mid = m.with_log(run, task, attempt, stream, line, now);
    lemma_log_keeps(m, run, task, attempt, stream, line, now);
    lemma_event_keeps(
        mid,
        run,
        "log"@,
        log_payload(task, attempt as int, stream, line),
        now,
    );
    let next = RunState { db: m.log(run, task, attempt, stream, line, now), ..st };
    lemma_stays_counted(m, next.db);
    assert forall|i: int| 0 <= i < w.tasks.len() implies #[trigger] moves_soundly(
        m,
        next.db,
        run,
        w,
        i,
    ) by {
        lemma_stays(m, next.db, run, w, i);
    }
    lemma_record_stays_sound(m, next.db, run, w);
    assert forall|i: int| 0 <= i < w.tasks.len() implies #[trigger] next.task_tracked(i) by {
        assert(st.task_tracked(i));
    }
    assert forall|i: int, j: int|
        0 <= i < w.tasks.len() && 0 <= j < next.db.attempts.len() implies #[trigger] next.attempt_tracked(
        i,
        j,
    ) by {
        assert(st.attempt_tracked(i, j));
    }
}

} // verus!
