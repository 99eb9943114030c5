//! What the operations do to the recorded state, on its mathematical model.

use crate::json::{json_object, number_field, optional_field, text_field};
use crate::records::{
    AttemptModel, AttemptRecord, DetailModel, EventModel, LogModel, LogRecord, RunModel, RunRecord,
    TaskRecord, TaskState,
};
use crate::simulation::first;
use crate::workflow::{TaskModel, WorkflowModel};
use vstd::prelude::*;

verus! {

/// The recorded state: the rows of each table in the order of insertion, and the
/// last identifiers given to a log line and to an event.
#[verifier::ext_equal]
pub struct DbModel {
    pub runs: Seq<RunRecord>,
    pub tasks: Seq<TaskRecord>,
    pub attempts: Seq<AttemptRecord>,
    pub logs: Seq<LogRecord>,
    pub events: Seq<EventModel>,
    pub last_log: i64,
    pub last_event: i64,
}

/// Why an operation was refused. A refused operation changes nothing.
#[derive(Debug, Clone, Copy, PartialEq, Eq, Structural)]
pub enum DbError {
    /// A run with this identifier is recorded already.
    RunExists,
    /// The run already has a task with this identifier.
    TaskExists,
    /// The run has no task with this identifier.
    NoSuchTask,
    /// The attempt is recorded already.
    AttemptExists,
    /// The number of attempts cannot be counted further.
    TooManyAttempts,
    /// The rows do not fit together.
    Inconsistent,
}

impl DbError {
    /// The message for the user.
    pub open spec fn text(self) -> Seq<char> {
        match self {
            DbError::RunExists => "UNIQUE constraint failed: runs.id"@,
            DbError::TaskExists => "UNIQUE constraint failed: tasks.run_id, tasks.id"@,
            DbError::NoSuchTask => "Query returned no rows"@,
            DbError::AttemptExists => "UNIQUE constraint failed: attempts.run_id, attempts.task_id, attempts.number"@,
            DbError::TooManyAttempts => "Invalid column type Real at index: 0, name: attempts"@,
            DbError::Inconsistent => "lignes incohérentes dans la base"@,
        }
    }

    /// The message for the user.
    pub fn message(&self) -> (r: &'static str)
        ensures
            r@ == self.text(),
    {
        match self {
            DbError::RunExists => "UNIQUE constraint failed: runs.id",
            DbError::TaskExists => "UNIQUE constraint failed: tasks.run_id, tasks.id",
            DbError::NoSuchTask => "Query returned no rows",
            DbError::AttemptExists => "UNIQUE constraint failed: attempts.run_id, attempts.task_id, attempts.number",
            DbError::TooManyAttempts => "Invalid column type Real at index: 0, name: attempts",
            DbError::Inconsistent => "lignes incohérentes dans la base",
        }
    }
}

/// What to do with the time at which a task started.
pub enum Stamp {
    /// Leave it.
    Keep,
    /// Put this time in its place.
    Replace(i64),
    /// Put this time where there is none.
    Fill(i64),
}

/// A change to the state of a task.
#[verifier::ext_equal]
pub struct PatchModel {
    pub status: Seq<char>,
    pub error: Option<Seq<char>>,
    pub counts: bool,
    pub started: Stamp,
    pub finished: Option<i64>,
}

impl PatchModel {
    /// The state of a task after the change.
    pub open spec fn apply(self, t: TaskState) -> TaskState {
        TaskState {
            id: t.id,
            status: self.status,
            attempts: if self.counts {
                (t.attempts + 1) as i64
            } else {
                t.attempts
            },
            started_at: match self.started {
                Stamp::Keep => t.started_at,
                Stamp::Replace(at) => Some(at),
                Stamp::Fill(at) => if t.started_at is Some {
                    t.started_at
                } else {
                    Some(at)
                },
            },
            finished_at: self.finished,
            error: self.error,
        }
    }
}

/// The row of task `task` of run `run`.
pub open spec fn is_task(r: TaskRecord, run: Seq<char>, task: Seq<char>) -> bool {
    r.run_id == run && r.task.id == task
}

/// The rows after a change to one task.
pub open spec fn patched(
    rows: Seq<TaskRecord>,
    run: Seq<char>,
    task: Seq<char>,
    patch: PatchModel,
) -> Seq<TaskRecord> {
    Seq::new(
        rows.len(),
        |i: int|
            if is_task(rows[i], run, task) {
                TaskRecord { run_id: rows[i].run_id, task: patch.apply(rows[i].task) }
            } else {
                rows[i]
            },
    )
}

/// The state of a task of a run: the first row that is about it.
pub open spec fn task_state(rows: Seq<TaskRecord>, run: Seq<char>, task: Seq<char>) -> Option<
    TaskState,
>
    decreases rows.len(),
{
    if rows.len() == 0 {
        None
    } else if is_task(rows[0], run, task) {
        Some(rows[0].task)
    } else {
        task_state(rows.drop_first(), run, task)
    }
}

/// The row of a run: the first with this identifier.
pub open spec fn run_record(rows: Seq<RunRecord>, run: Seq<char>) -> Option<RunRecord>
    decreases rows.len(),
{
    if rows.len() == 0 {
        None
    } else if rows[0].run.id == run {
        Some(rows[0])
    } else {
        run_record(rows.drop_first(), run)
    }
}

/// The rows after the status of one run is set: the run has started, and it has
/// finished unless it is running.
pub open spec fn run_set(
    rows: Seq<RunRecord>,
    run: Seq<char>,
    status: Seq<char>,
    now: i64,
) -> Seq<RunRecord> {
    Seq::new(
        rows.len(),
        |i: int|
            if rows[i].run.id == run {
                RunRecord {
                    run: RunModel {
                        status,
                        started_at: if rows[i].run.started_at is Some {
                            rows[i].run.started_at
                        } else {
                            Some(now)
                        },
                        finished_at: if status == "running"@ {
                            None
                        } else {
                            Some(now)
                        },
                        ..rows[i].run
                    },
                    ..rows[i]
                }
            } else {
                rows[i]
            },
    )
}

/// The row of one attempt.
pub open spec fn is_attempt(
    r: AttemptRecord,
    run: Seq<char>,
    task: Seq<char>,
    number: i64,
) -> bool {
    r.run_id == run && r.attempt.task_id == task && r.attempt.number == number
}

/// An attempt once it has ended.
pub open spec fn ended(
    r: AttemptRecord,
    status: Seq<char>,
    error: Option<Seq<char>>,
    now: i64,
) -> AttemptRecord {
    AttemptRecord {
        attempt: AttemptModel { status, finished_at: Some(now), error, ..r.attempt },
        ..r
    }
}

/// The rows after one attempt has ended.
pub open spec fn attempt_ended(
    rows: Seq<AttemptRecord>,
    run: Seq<char>,
    task: Seq<char>,
    number: i64,
    status: Seq<char>,
    error: Option<Seq<char>>,
    now: i64,
) -> Seq<AttemptRecord> {
    Seq::new(
        rows.len(),
        |i: int|
            if is_attempt(rows[i], run, task, number) {
                ended(rows[i], status, error, now)
            } else {
                rows[i]
            },
    )
}

/// The rows after every running attempt of a run was cut short.
pub open spec fn attempts_interrupted(rows: Seq<AttemptRecord>, run: Seq<char>, now: i64) -> Seq<
    AttemptRecord,
> {
    Seq::new(
        rows.len(),
        |i: int|
            if rows[i].run_id == run && rows[i].attempt.status == "running"@ {
                ended(rows[i], "interrupted"@, Some("Kordrel interrompu"@), now)
            } else {
                rows[i]
            },
    )
}

// ---------------------------------------------------------------------------
// Payloads of events
// ---------------------------------------------------------------------------

/// What the event of a run carries.
pub open spec fn run_payload(status: Seq<char>) -> Seq<char> {
    json_object(seq![text_field("status"@, status)])
}

/// What the event of a task carries.
pub open spec fn task_payload(
    task: Seq<char>,
    status: Seq<char>,
    error: Option<Seq<char>>,
) -> Seq<char> {
    json_object(
        seq![
            text_field("task_id"@, task),
            text_field("status"@, status),
            optional_field("error"@, error),
        ],
    )
}

/// What the event of a started attempt carries.
pub open spec fn start_payload(task: Seq<char>, number: int) -> Seq<char> {
    json_object(
        seq![
            text_field("task_id"@, task),
            text_field("status"@, "running"@),
            number_field("attempt"@, number),
        ],
    )
}

/// What the event of a task that succeeded carries.
pub open spec fn success_payload(task: Seq<char>) -> Seq<char> {
    json_object(seq![text_field("task_id"@, task), text_field("status"@, "success"@)])
}

/// What the event of an ended attempt carries.
pub open spec fn attempt_payload(
    task: Seq<char>,
    number: int,
    status: Seq<char>,
    error: Option<Seq<char>>,
) -> Seq<char> {
    json_object(
        seq![
            text_field("task_id"@, task),
            number_field("attempt"@, number),
            text_field("status"@, status),
            optional_field("error"@, error),
        ],
    )
}

/// What the event of a log line carries.
pub open spec fn log_payload(
    task: Seq<char>,
    attempt: int,
    stream: Seq<char>,
    line: Seq<char>,
) -> Seq<char> {
    json_object(
        seq![
            text_field("task_id"@, task),
            number_field("attempt"@, attempt),
            text_field("stream"@, stream),
            text_field("line"@, line),
        ],
    )
}

// ---------------------------------------------------------------------------
// Operations, on the model
// ---------------------------------------------------------------------------

/// The change that `set_task` makes.
pub open spec fn status_patch(status: Seq<char>, error: Option<Seq<char>>, now: i64) -> PatchModel {
    PatchModel {
        status,
        error,
        counts: false,
        started: if status == "running"@ {
            Stamp::Replace(now)
        } else {
            Stamp::Keep
        },
        finished: if status == "success"@ || status == "failed"@ || status == "blocked"@ {
            Some(now)
        } else {
            None
        },
    }
}

/// The change that the start of an attempt makes.
pub open spec fn start_patch(now: i64) -> PatchModel {
    PatchModel {
        status: "running"@,
        error: None,
        counts: true,
        started: Stamp::Fill(now),
        finished: None,
    }
}

/// The change that a successful attempt makes.
pub open spec fn success_patch(now: i64) -> PatchModel {
    PatchModel {
        status: "success"@,
        error: None,
        counts: false,
        started: Stamp::Keep,
        finished: Some(now),
    }
}

/// An interrupted task that has used up its budget fails, another waits again.
pub open spec fn recovery_status(attempts: int, budget: int) -> Seq<char> {
    if attempts >= budget {
        "failed"@
    } else {
        "pending"@
    }
}

/// What recovery notes about an interrupted task.
pub open spec fn recovery_error(attempts: int, budget: int) -> Seq<char> {
    if attempts >= budget {
        "budget de tentatives épuisé après interruption"@
    } else {
        "tentative interrompue, reprise autorisée"@
    }
}

/// The change that recovery makes to an interrupted task.
pub open spec fn recovery_patch(attempts: int, budget: int, now: i64) -> PatchModel {
    PatchModel {
        status: recovery_status(attempts, budget),
        error: Some(recovery_error(attempts, budget)),
        counts: false,
        started: Stamp::Keep,
        finished: if attempts >= budget {
            Some(now)
        } else {
            None
        },
    }
}

/// The task was under way when the run stopped, or it waits without a budget.
pub open spec fn needs_recovery(t: TaskState, budget: int) -> bool {
    ||| t.status == "running"@
    ||| t.status == "retrying"@
    ||| t.status == "queued"@
    ||| t.status == "pending"@ && t.attempts >= budget
}

/// The attempt that starts, as it is recorded.
pub open spec fn new_attempt(run: Seq<char>, task: Seq<char>, number: i64, now: i64) -> AttemptRecord {
    AttemptRecord {
        run_id: run,
        attempt: AttemptModel {
            task_id: task,
            number,
            status: "running"@,
            started_at: now,
            finished_at: None,
            error: None,
        },
    }
}

/// The tasks of a run, in the order of insertion.
pub open spec fn tasks_of(rows: Seq<TaskRecord>, run: Seq<char>) -> Seq<TaskState> {
    rows.filter(|r: TaskRecord| r.run_id == run).map_values(|r: TaskRecord| r.task)
}

/// The attempts of a run, in the order of insertion.
pub open spec fn attempts_of(rows: Seq<AttemptRecord>, run: Seq<char>) -> Seq<AttemptModel> {
    rows.filter(|r: AttemptRecord| r.run_id == run).map_values(|r: AttemptRecord| r.attempt)
}

/// The log lines of a run, or of one of its tasks, in the order of insertion.
pub open spec fn logs_of(rows: Seq<LogRecord>, run: Seq<char>, task: Option<Seq<char>>) -> Seq<
    LogModel,
> {
    rows.filter(
        |r: LogRecord| r.run_id == run && (task is None || task == Some(r.log.task_id)),
    ).map_values(|r: LogRecord| r.log)
}

/// The events of a run behind the identifier `after`, in the order of insertion.
pub open spec fn events_of(rows: Seq<EventModel>, run: Seq<char>, after: int) -> Seq<EventModel> {
    rows.filter(|e: EventModel| e.run_id == run && e.id > after)
}

/// Later runs stand before earlier ones.
pub open spec fn newest_first(s: Seq<RunModel>) -> bool {
    forall|i: int, j: int|
        0 <= i < j < s.len() ==> #[trigger] s[i].created_at >= #[trigger] s[j].created_at
}

/// The same runs, newest first. Runs of the same moment stand in any order.
pub open spec fn is_listing(s: Seq<RunModel>, runs: Seq<RunRecord>) -> bool {
    &&& newest_first(s)
    &&& s.to_multiset() == runs.map_values(|r: RunRecord| r.run).to_multiset()
}

/// As much of a listing as is given out.
pub open spec fn recent(s: Seq<RunModel>) -> Seq<RunModel> {
    first(s, 100)
}

/// As many of the events that are due as are read at once.
pub open spec fn batch(s: Seq<EventModel>) -> Seq<EventModel> {
    first(s, 200)
}

/// A task that waits and was never tried.
pub open spec fn waiting_task(id: Seq<char>) -> TaskState {
    TaskState {
        id,
        status: "pending"@,
        attempts: 0,
        started_at: None,
        finished_at: None,
        error: None,
    }
}

/// The rows of the tasks of a new run.
pub open spec fn new_tasks(run: Seq<char>, workflow: WorkflowModel) -> Seq<TaskRecord> {
    Seq::new(
        workflow.tasks.len(),
        |i: int|
            TaskRecord { run_id: run, task: waiting_task(workflow.tasks[i].id) },
    )
}

/// The row of a new run.
pub open spec fn new_run(
    run: Seq<char>,
    workflow: WorkflowModel,
    source_dir: Seq<char>,
    max_parallel: usize,
    now: i64,
) -> RunRecord {
    RunRecord {
        run: RunModel {
            id: run,
            name: workflow.name,
            status: "pending"@,
            created_at: now,
            started_at: None,
            finished_at: None,
        },
        workflow,
        source_dir,
        max_parallel: max_parallel as i64,
    }
}

impl DbModel {
    /// One more event, under the next identifier.
    pub open spec fn with_event(
        self,
        run: Seq<char>,
        kind: Seq<char>,
        payload: Seq<char>,
        now: i64,
    ) -> DbModel {
        let id = (self.last_event + 1) as i64;
        DbModel {
            events: self.events.push(
                EventModel { id, run_id: run, kind, payload, created_at: now },
            ),
            last_event: id,
            ..self
        }
    }

    /// One more log line, under the next identifier.
    pub open spec fn with_log(
        self,
        run: Seq<char>,
        task: Seq<char>,
        attempt: i64,
        stream: Seq<char>,
        line: Seq<char>,
        now: i64,
    ) -> DbModel {
        let id = (self.last_log + 1) as i64;
        DbModel {
            logs: self.logs.push(
                LogRecord {
                    run_id: run,
                    log: LogModel { id, task_id: task, attempt, stream, line, created_at: now },
                },
            ),
            last_log: id,
            ..self
        }
    }

    /// A change to the state of one task.
    pub open spec fn with_patch(self, run: Seq<char>, task: Seq<char>, patch: PatchModel) -> DbModel {
        DbModel { tasks: patched(self.tasks, run, task, patch), ..self }
    }

    /// The state of a task.
    pub open spec fn task(self, run: Seq<char>, task: Seq<char>) -> Option<TaskState> {
        task_state(self.tasks, run, task)
    }

    /// The status of a recorded task.
    pub open spec fn status(self, run: Seq<char>, task: Seq<char>) -> Seq<char> {
        self.task(run, task)->0.status
    }

    /// A run with this identifier is recorded.
    pub open spec fn has_run(self, run: Seq<char>) -> bool {
        exists|i: int| 0 <= i < self.runs.len() && #[trigger] self.runs[i].run.id == run
    }

    /// The attempt is recorded.
    pub open spec fn has_attempt(self, run: Seq<char>, task: Seq<char>, number: i64) -> bool {
        exists|i: int|
            0 <= i < self.attempts.len() && is_attempt(
                #[trigger] self.attempts[i],
                run,
                task,
                number,
            )
    }

    /// No two runs, tasks of a run or attempts at a task share their key, and
    /// every task belongs to a recorded run.
    pub open spec fn keyed(self) -> bool {
        &&& forall|i: int, j: int|
            0 <= i < j < self.runs.len() ==> #[trigger] self.runs[i].run.id
                != #[trigger] self.runs[j].run.id
        &&& forall|i: int, j: int|
            0 <= i < j < self.tasks.len() ==> !is_task(
                #[trigger] self.tasks[i],
                (#[trigger] self.tasks[j]).run_id,
                self.tasks[j].task.id,
            )
        &&& forall|i: int, j: int|
            0 <= i < j < self.attempts.len() ==> !is_attempt(
                #[trigger] self.attempts[i],
                (#[trigger] self.attempts[j]).run_id,
                self.attempts[j].attempt.task_id,
                self.attempts[j].attempt.number,
            )
        &&& forall|i: int|
            0 <= i < self.tasks.len() ==> self.has_run((#[trigger] self.tasks[i]).run_id)
    }

    /// Log lines and events stand in the order of their identifiers, which are
    /// positive, and the last identifiers bound them.
    pub open spec fn numbered(self) -> bool {
        &&& forall|i: int, j: int|
            0 <= i < j < self.logs.len() ==> #[trigger] self.logs[i].log.id
                < #[trigger] self.logs[j].log.id
        &&& forall|i: int|
            0 <= i < self.logs.len() ==> 0 < #[trigger] self.logs[i].log.id <= self.last_log
        &&& forall|i: int, j: int|
            0 <= i < j < self.events.len() ==> #[trigger] self.events[i].id
                < #[trigger] self.events[j].id
        &&& forall|i: int|
            0 <= i < self.events.len() ==> 0 < #[trigger] self.events[i].id <= self.last_event
        &&& 0 <= self.last_log
        &&& 0 <= self.last_event
    }

    /// What holds of the recorded state at all times.
    pub open spec fn well_formed(self) -> bool {
        self.keyed() && self.numbered()
    }

    /// Nothing is recorded.
    pub open spec fn empty() -> DbModel {
        DbModel {
            runs: Seq::empty(),
            tasks: Seq::empty(),
            attempts: Seq::empty(),
            logs: Seq::empty(),
            events: Seq::empty(),
            last_log: 0,
            last_event: 0,
        }
    }

    /// Every task of the workflow is recorded for the run.
    pub open spec fn covers(self, run: Seq<char>, workflow: WorkflowModel) -> bool {
        forall|i: int|
            0 <= i < workflow.tasks.len() ==> self.task(run, (#[trigger] workflow.tasks[i]).id)
                is Some
    }

    /// Room for `n` more events.
    pub open spec fn room(self, n: int) -> bool {
        self.last_event + n <= i64::MAX
    }

    /// A run with its tasks and their attempts.
    pub open spec fn detail(self, run: Seq<char>) -> Option<DetailModel> {
        match run_record(self.runs, run) {
            Some(r) => Some(
                DetailModel {
                    run: r.run,
                    workflow: r.workflow,
                    source_dir: r.source_dir,
                    max_parallel: r.max_parallel,
                    tasks: tasks_of(self.tasks, run),
                    attempts: attempts_of(self.attempts, run),
                },
            ),
            None => None,
        }
    }

    /// Whether a run can be recorded under this identifier, or why not.
    pub open spec fn creation(self, run: Seq<char>, workflow: WorkflowModel) -> Result<
        (),
        DbError,
    > {
        if self.has_run(run) {
            Err::<(), DbError>(DbError::RunExists)
        } else if !workflow.distinct() {
            Err::<(), DbError>(DbError::TaskExists)
        } else {
            Ok::<(), DbError>(())
        }
    }

    /// Whether a run can be recovered, or why not.
    pub open spec fn recovery(self, run: Seq<char>, workflow: WorkflowModel) -> Result<
        (),
        DbError,
    > {
        if self.covers(run, workflow) {
            Ok::<(), DbError>(())
        } else {
            Err::<(), DbError>(DbError::NoSuchTask)
        }
    }

    /// A new run, with all its tasks waiting.
    pub open spec fn create_run(
        self,
        run: Seq<char>,
        workflow: WorkflowModel,
        source_dir: Seq<char>,
        max_parallel: usize,
        now: i64,
    ) -> DbModel {
        DbModel {
            runs: self.runs.push(new_run(run, workflow, source_dir, max_parallel, now)),
            tasks: self.tasks + new_tasks(run, workflow),
            ..self
        }.with_event(run, "run"@, run_payload("pending"@), now)
    }

    /// The status of a run, set.
    pub open spec fn set_run(self, run: Seq<char>, status: Seq<char>, now: i64) -> DbModel {
        DbModel { runs: run_set(self.runs, run, status, now), ..self }.with_event(
            run,
            "run"@,
            run_payload(status),
            now,
        )
    }

    /// The status of a task, set.
    pub open spec fn set_task(
        self,
        run: Seq<char>,
        task: Seq<char>,
        status: Seq<char>,
        error: Option<Seq<char>>,
        now: i64,
    ) -> DbModel {
        self.with_patch(run, task, status_patch(status, error, now)).with_event(
            run,
            "task"@,
            task_payload(task, status, error),
            now,
        )
    }

    /// The number of the next attempt at a task, or why there is none.
    pub open spec fn next_attempt(self, run: Seq<char>, task: Seq<char>) -> Result<i64, DbError> {
        match self.task(run, task) {
            None => Err(DbError::NoSuchTask),
            Some(t) => if t.attempts == i64::MAX {
                Err(DbError::TooManyAttempts)
            } else if self.has_attempt(run, task, (t.attempts + 1) as i64) {
                Err(DbError::AttemptExists)
            } else {
                Ok((t.attempts + 1) as i64)
            },
        }
    }

    /// An attempt at a task, started.
    pub open spec fn start_attempt(self, run: Seq<char>, task: Seq<char>, now: i64) -> DbModel {
        let number = (self.task(run, task)->0.attempts + 1) as i64;
        DbModel {
            attempts: self.attempts.push(new_attempt(run, task, number, now)),
            ..self.with_patch(run, task, start_patch(now))
        }.with_event(run, "task"@, start_payload(task, number as int), now)
    }

    /// An attempt at a task, ended.
    pub open spec fn finish_attempt(
        self,
        run: Seq<char>,
        task: Seq<char>,
        number: i64,
        status: Seq<char>,
        error: Option<Seq<char>>,
        now: i64,
    ) -> DbModel {
        let closed = DbModel {
            attempts: attempt_ended(self.attempts, run, task, number, status, error, now),
            ..self
        };
        let settled = if status == "success"@ {
            closed.with_patch(run, task, success_patch(now)).with_event(
                run,
                "task"@,
                success_payload(task),
                now,
            )
        } else {
            closed
        };
        settled.with_event(
            run,
            "attempt"@,
            attempt_payload(task, number as int, status, error),
            now,
        )
    }

    /// A line that a task wrote, recorded.
    pub open spec fn log(
        self,
        run: Seq<char>,
        task: Seq<char>,
        attempt: i64,
        stream: Seq<char>,
        line: Seq<char>,
        now: i64,
    ) -> DbModel {
        self.with_log(run, task, attempt, stream, line, now).with_event(
            run,
            "log"@,
            log_payload(task, attempt as int, stream, line),
            now,
        )
    }

    /// The recovery of one task.
    pub open spec fn recover_task(self, run: Seq<char>, t: TaskModel, now: i64) -> DbModel {
        let state = self.task(run, t.id)->0;
        let attempts = state.attempts as int;
        if needs_recovery(state, t.budget()) {
            self.with_patch(run, t.id, recovery_patch(attempts, t.budget(), now)).with_event(
                run,
                "task"@,
                task_payload(
                    t.id,
                    recovery_status(attempts, t.budget()),
                    Some(recovery_error(attempts, t.budget())),
                ),
                now,
            )
        } else {
            self
        }
    }

    /// The recovery of the first `k` tasks, one behind the other.
    pub open spec fn recover_tasks(
        self,
        run: Seq<char>,
        tasks: Seq<TaskModel>,
        k: nat,
        now: i64,
    ) -> DbModel
        decreases k,
    {
        if k == 0 {
            self
        } else {
            self.recover_tasks(run, tasks, (k - 1) as nat, now).recover_task(
                run,
                tasks[k - 1],
                now,
            )
        }
    }

    /// A run that was cut short, recovered.
    pub open spec fn recover(self, run: Seq<char>, workflow: WorkflowModel, now: i64) -> DbModel {
        DbModel {
            attempts: attempts_interrupted(self.attempts, run, now),
            ..self
        }.recover_tasks(run, workflow.tasks, workflow.tasks.len(), now)
    }
}

// ---------------------------------------------------------------------------
// Lemmas on the model
// ---------------------------------------------------------------------------

/// A change to one task shows in the state of that task and in no other.
pub proof fn lemma_patched_state(
    rows: Seq<TaskRecord>,
    run: Seq<char>,
    task: Seq<char>,
    patch: PatchModel,
    other_run: Seq<char>,
    other: Seq<char>,
)
    ensures
        task_state(patched(rows, run, task, patch), other_run, other) == match task_state(
            rows,
            other_run,
            other,
        ) {
            Some(t) => Some(
                if run == other_run && task == other {
                    patch.apply(t)
                } else {
                    t
                },
            ),
            None => None,
        },
    decreases rows.len(),
{
    if rows.len() > 0 {
        lemma_patched_state(rows.drop_first(), run, task, patch, other_run, other);
        assert(patched(rows, run, task, patch).drop_first() =~= patched(
            rows.drop_first(),
            run,
            task,
            patch,
        ));
    }
}

/// A state that is found belongs to the task that was asked for.
pub proof fn lemma_state_id(rows: Seq<TaskRecord>, run: Seq<char>, task: Seq<char>)
    ensures
        task_state(rows, run, task) matches Some(t) ==> t.id == task,
        task_state(rows, run, task) is Some <==> exists|i: int|
            0 <= i < rows.len() && is_task(#[trigger] rows[i], run, task),
    decreases rows.len(),
{
    if rows.len() > 0 {
        let rest = rows.drop_first();
        lemma_state_id(rest, run, task);
        if exists|i: int| 0 <= i < rows.len() && is_task(#[trigger] rows[i], run, task) {
            let i = choose|i: int| 0 <= i < rows.len() && is_task(#[trigger] rows[i], run, task);
            if i > 0 {
                assert(is_task(rest[i - 1], run, task));
            }
        }
        if exists|i: int| 0 <= i < rest.len() && is_task(#[trigger] rest[i], run, task) {
            let i = choose|i: int| 0 <= i < rest.len() && is_task(#[trigger] rest[i], run, task);
            assert(is_task(rows[i + 1], run, task));
        }
    }
}

/// Recovery leaves the set of recorded tasks as it is.
pub proof fn lemma_recover_covers(
    m: DbModel,
    run: Seq<char>,
    tasks: Seq<TaskModel>,
    k: nat,
    now: i64,
    id: Seq<char>,
)
    requires
        k <= tasks.len(),
    ensures
        m.recover_tasks(run, tasks, k, now).task(run, id) is Some <==> m.task(run, id) is Some,
        m.recover_tasks(run, tasks, k, now).task(run, id) is Some ==> m.recover_tasks(
            run,
            tasks,
            k,
            now,
        ).task(run, id)->0.attempts == m.task(run, id)->0.attempts,
    decreases k,
{
    if k > 0 {
        lemma_recover_covers(m, run, tasks, (k - 1) as nat, now, id);
        let before = m.recover_tasks(run, tasks, (k - 1) as nat, now);
        let t = tasks[k - 1];
        let state = before.task(run, t.id)->0;
        lemma_patched_state(
            before.tasks,
            run,
            t.id,
            recovery_patch(state.attempts as int, t.budget(), now),
            run,
            id,
        );
    }
}

/// Recovery records at most one event for each task.
pub proof fn lemma_recovered_room(
    m: DbModel,
    run: Seq<char>,
    tasks: Seq<TaskModel>,
    k: nat,
    now: i64,
)
    requires
        m.room(k as int),
        0 <= m.last_event,
    ensures
        m.last_event <= m.recover_tasks(run, tasks, k, now).last_event <= m.last_event + k,
    decreases k,
{
    if k > 0 {
        lemma_recovered_room(m, run, tasks, (k - 1) as nat, now);
    }
}

/// One more event leaves the recorded state well formed.
pub proof fn lemma_event_keeps(
    m: DbModel,
    run: Seq<char>,
    kind: Seq<char>,
    payload: Seq<char>,
    now: i64,
)
    requires
        m.well_formed(),
        m.room(1),
    ensures
        m.with_event(run, kind, payload, now).well_formed(),
{
    let after = m.with_event(run, kind, payload, now);
    assert forall|i: int| 0 <= i < after.tasks.len() implies after.has_run(
        (#[trigger] after.tasks[i]).run_id,
    ) by {
        assert(m.has_run(m.tasks[i].run_id));
        let k = choose|k: int|
            0 <= k < m.runs.len() && #[trigger] m.runs[k].run.id == m.tasks[i].run_id;
        assert(after.runs[k].run.id == after.tasks[i].run_id);
    }
}

/// One more log line leaves the recorded state well formed.
pub proof fn lemma_log_keeps(
    m: DbModel,
    run: Seq<char>,
    task: Seq<char>,
    attempt: i64,
    stream: Seq<char>,
    line: Seq<char>,
    now: i64,
)
    requires
        m.well_formed(),
        m.last_log < i64::MAX,
    ensures
        m.with_log(run, task, attempt, stream, line, now).well_formed(),
{
    let after = m.with_log(run, task, attempt, stream, line, now);
    assert forall|i: int| 0 <= i < after.tasks.len() implies after.has_run(
        (#[trigger] after.tasks[i]).run_id,
    ) by {
        assert(m.has_run(m.tasks[i].run_id));
    }
}

/// A change to a task leaves the recorded state well formed.
pub proof fn lemma_patch_keeps(m: DbModel, run: Seq<char>, task: Seq<char>, patch: PatchModel)
    requires
        m.well_formed(),
    ensures
        m.with_patch(run, task, patch).well_formed(),
{
    let after = m.with_patch(run, task, patch);
    assert forall|i: int| 0 <= i < after.tasks.len() implies after.has_run(
        (#[trigger] after.tasks[i]).run_id,
    ) by {
        assert(m.has_run(m.tasks[i].run_id));
    }
    assert forall|i: int, j: int| 0 <= i < j < after.tasks.len() implies !is_task(
        #[trigger] after.tasks[i],
        (#[trigger] after.tasks[j]).run_id,
        after.tasks[j].task.id,
    ) by {
        assert(!is_task(m.tasks[i], m.tasks[j].run_id, m.tasks[j].task.id));
    }
}

/// A change to attempts that keeps their keys leaves the recorded state well
/// formed.
pub proof fn lemma_attempts_keep(m: DbModel, attempts: Seq<AttemptRecord>)
    requires
        m.well_formed(),
        attempts.len() == m.attempts.len(),
        forall|i: int|
            0 <= i < attempts.len() ==> is_attempt(
                #[trigger] attempts[i],
                m.attempts[i].run_id,
                m.attempts[i].attempt.task_id,
                m.attempts[i].attempt.number,
            ),
    ensures
        (DbModel { attempts, ..m }).well_formed(),
{
    let after = DbModel { attempts, ..m };
    assert forall|i: int| 0 <= i < after.tasks.len() implies after.has_run(
        (#[trigger] after.tasks[i]).run_id,
    ) by {
        assert(m.has_run(m.tasks[i].run_id));
    }
    assert forall|i: int, j: int| 0 <= i < j < after.attempts.len() implies !is_attempt(
        #[trigger] after.attempts[i],
        (#[trigger] after.attempts[j]).run_id,
        after.attempts[j].attempt.task_id,
        after.attempts[j].attempt.number,
    ) by {
        assert(!is_attempt(
            m.attempts[i],
            m.attempts[j].run_id,
            m.attempts[j].attempt.task_id,
            m.attempts[j].attempt.number,
        ));
    }
}

/// Setting the status of a run leaves the recorded state well formed.
pub proof fn lemma_run_set_keeps(m: DbModel, run: Seq<char>, status: Seq<char>, now: i64)
    requires
        m.well_formed(),
    ensures
        (DbModel { runs: run_set(m.runs, run, status, now), ..m }).well_formed(),
{
    let after = DbModel { runs: run_set(m.runs, run, status, now), ..m };
    assert forall|i: int| 0 <= i < after.tasks.len() implies after.has_run(
        (#[trigger] after.tasks[i]).run_id,
    ) by {
        assert(m.has_run(m.tasks[i].run_id));
        let k = choose|k: int|
            0 <= k < m.runs.len() && #[trigger] m.runs[k].run.id == m.tasks[i].run_id;
        assert(after.runs[k].run.id == after.tasks[i].run_id);
    }
    assert forall|i: int, j: int|
        0 <= i < j < after.runs.len() implies #[trigger] after.runs[i].run.id
        != #[trigger] after.runs[j].run.id by {
        assert(m.runs[i].run.id != m.runs[j].run.id);
    }
}

/// A new run leaves the recorded state well formed.
pub proof fn lemma_create_keeps(
    m: DbModel,
    run: Seq<char>,
    workflow: WorkflowModel,
    source_dir: Seq<char>,
    max_parallel: usize,
    now: i64,
)
    requires
        m.well_formed(),
        m.room(1),
        !m.has_run(run),
        workflow.distinct(),
    ensures
        m.create_run(run, workflow, source_dir, max_parallel, now).well_formed(),
{
    let row = new_run(run, workflow, source_dir, max_parallel, now);
    let mid = DbModel {
        runs: m.runs.push(row),
        tasks: m.tasks + new_tasks(run, workflow),
        ..m
    };
    assert(mid.runs[m.runs.len() as int].run.id == run);
    assert forall|i: int| 0 <= i < mid.tasks.len() implies mid.has_run(
        (#[trigger] mid.tasks[i]).run_id,
    ) by {
        if i < m.tasks.len() {
            assert(m.has_run(m.tasks[i].run_id));
            let k = choose|k: int|
                0 <= k < m.runs.len() && #[trigger] m.runs[k].run.id == m.tasks[i].run_id;
            assert(mid.runs[k].run.id == mid.tasks[i].run_id);
        }
    }
    assert forall|i: int, j: int| 0 <= i < j < mid.tasks.len() implies !is_task(
        #[trigger] mid.tasks[i],
        (#[trigger] mid.tasks[j]).run_id,
        mid.tasks[j].task.id,
    ) by {
        let n = m.tasks.len();
        if i < n {
            assert(m.has_run(m.tasks[i].run_id));
        } else {
            assert(workflow.tasks[i - n].id != workflow.tasks[j - n].id);
        }
    }
    assert(mid.keyed());
    lemma_event_keeps(mid, run, "run"@, run_payload("pending"@), now);
}

/// The row of a run is found where the run is recorded.
pub proof fn lemma_run_found(rows: Seq<RunRecord>, run: Seq<char>)
    ensures
        run_record(rows, run) is Some <==> exists|i: int|
            0 <= i < rows.len() && #[trigger] rows[i].run.id == run,
        run_record(rows, run) is Some ==> run_record(rows, run)->0.run.id == run,
    decreases rows.len(),
{
    if rows.len() > 0 {
        let rest = rows.drop_first();
        lemma_run_found(rest, run);
        if exists|i: int| 0 <= i < rows.len() && #[trigger] rows[i].run.id == run {
            let i = choose|i: int| 0 <= i < rows.len() && #[trigger] rows[i].run.id == run;
            if i > 0 {
                assert(rest[i - 1].run.id == run);
            }
        }
        if exists|i: int| 0 <= i < rest.len() && #[trigger] rest[i].run.id == run {
            let i = choose|i: int| 0 <= i < rest.len() && #[trigger] rest[i].run.id == run;
            assert(rows[i + 1].run.id == run);
        }
    }
}

/// The state of a task is that of its one row.
pub proof fn lemma_state_unique(m: DbModel, run: Seq<char>, task: Seq<char>)
    requires
        m.keyed(),
    ensures
        forall|i: int|
            0 <= i < m.tasks.len() && is_task(#[trigger] m.tasks[i], run, task) ==> m.task(
                run,
                task,
            ) == Some(m.tasks[i].task),
{
    assert forall|i: int|
        0 <= i < m.tasks.len() && is_task(#[trigger] m.tasks[i], run, task) implies m.task(
        run,
        task,
    ) == Some(m.tasks[i].task) by {
        lemma_state_at(m.tasks, run, task, i);
    }
}

proof fn lemma_state_at(rows: Seq<TaskRecord>, run: Seq<char>, task: Seq<char>, i: int)
    requires
        0 <= i < rows.len(),
        is_task(rows[i], run, task),
        forall|j: int| 0 <= j < i ==> !is_task(#[trigger] rows[j], run, task),
    ensures
        task_state(rows, run, task) == Some(rows[i].task),
    decreases rows.len(),
{
    if i > 0 {
        let rest = rows.drop_first();
        assert forall|j: int| 0 <= j < i - 1 implies !is_task(#[trigger] rest[j], run, task) by {
            assert(!is_task(rows[j + 1], run, task));
        }
        assert(!is_task(rows[0], run, task));
        lemma_state_at(rest, run, task, i - 1);
    }
}

/// A new attempt leaves the recorded state well formed.
pub proof fn lemma_new_attempt_keeps(
    m: DbModel,
    run: Seq<char>,
    task: Seq<char>,
    number: i64,
    now: i64,
)
    requires
        m.well_formed(),
        !m.has_attempt(run, task, number),
    ensures
        (DbModel {
            attempts: m.attempts.push(new_attempt(run, task, number, now)),
            ..m
        }).well_formed(),
{
    let after = DbModel {
        attempts: m.attempts.push(new_attempt(run, task, number, now)),
        ..m
    };
    assert forall|i: int| 0 <= i < after.tasks.len() implies after.has_run(
        (#[trigger] after.tasks[i]).run_id,
    ) by {
        assert(m.has_run(m.tasks[i].run_id));
    }
    assert forall|i: int, j: int| 0 <= i < j < after.attempts.len() implies !is_attempt(
        #[trigger] after.attempts[i],
        (#[trigger] after.attempts[j]).run_id,
        after.attempts[j].attempt.task_id,
        after.attempts[j].attempt.number,
    ) by {
        if j < m.attempts.len() {
            assert(!is_attempt(
                m.attempts[i],
                m.attempts[j].run_id,
                m.attempts[j].attempt.task_id,
                m.attempts[j].attempt.number,
            ));
        } else {
            assert(!is_attempt(m.attempts[i], run, task, number));
        }
    }
}

} // verus!
