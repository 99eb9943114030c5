//! The rows that describe runs, tasks, attempts, logs and events.

use crate::text::{copy_optional, optional};
use crate::workflow::{Workflow, WorkflowModel};
use vstd::prelude::*;

verus! {

/// One run, as listed.
#[derive(Debug)]
pub struct RunSummary {
    pub id: String,
    pub name: String,
    pub status: String,
    pub created_at: i64,
    pub started_at: Option<i64>,
    pub finished_at: Option<i64>,
}

/// The state of a task of a run.
#[derive(Debug)]
pub struct TaskView {
    pub id: String,
    pub status: String,
    pub attempts: i64,
    pub started_at: Option<i64>,
    pub finished_at: Option<i64>,
    pub error: Option<String>,
}

/// One attempt at a task.
#[derive(Debug)]
pub struct AttemptView {
    pub task_id: String,
    pub number: i64,
    pub status: String,
    pub started_at: i64,
    pub finished_at: Option<i64>,
    pub error: Option<String>,
}

/// One line that a task wrote.
#[derive(Debug)]
pub struct LogLine {
    pub id: i64,
    pub task_id: String,
    pub attempt: i64,
    pub stream: String,
    pub line: String,
    pub created_at: i64,
}

/// A run with its workflow, its tasks and their attempts.
#[derive(Debug)]
pub struct RunDetail {
    pub run: RunSummary,
    pub workflow: Workflow,
    pub source_dir: String,
    pub max_parallel: i64,
    pub tasks: Vec<TaskView>,
    pub attempts: Vec<AttemptView>,
}

/// Something that happened in a run.
#[derive(Debug)]
pub struct EventRow {
    pub id: i64,
    pub run_id: String,
    pub kind: String,
    pub payload: String,
    pub created_at: i64,
}

/// A run as it is stored.
#[derive(Debug)]
pub struct RunRow {
    pub run: RunSummary,
    pub workflow: Workflow,
    pub source_dir: String,
    pub max_parallel: i64,
}

/// A task as it is stored.
#[derive(Debug)]
pub struct TaskRow {
    pub run_id: String,
    pub task: TaskView,
}

/// An attempt as it is stored.
#[derive(Debug)]
pub struct AttemptRow {
    pub run_id: String,
    pub attempt: AttemptView,
}

/// A log line as it is stored.
#[derive(Debug)]
pub struct LogRow {
    pub run_id: String,
    pub log: LogLine,
}

// ---------------------------------------------------------------------------
// Mathematical readings
// ---------------------------------------------------------------------------

/// The mathematical reading of a [`RunSummary`].
#[verifier::ext_equal]
pub struct RunModel {
    pub id: Seq<char>,
    pub name: Seq<char>,
    pub status: Seq<char>,
    pub created_at: i64,
    pub started_at: Option<i64>,
    pub finished_at: Option<i64>,
}

/// The mathematical reading of a [`TaskView`].
#[verifier::ext_equal]
pub struct TaskState {
    pub id: Seq<char>,
    pub status: Seq<char>,
    pub attempts: i64,
    pub started_at: Option<i64>,
    pub finished_at: Option<i64>,
    pub error: Option<Seq<char>>,
}

/// The mathematical reading of an [`AttemptView`].
#[verifier::ext_equal]
pub struct AttemptModel {
    pub task_id: Seq<char>,
    pub number: i64,
    pub status: Seq<char>,
    pub started_at: i64,
    pub finished_at: Option<i64>,
    pub error: Option<Seq<char>>,
}

/// The mathematical reading of a [`LogLine`].
#[verifier::ext_equal]
pub struct LogModel {
    pub id: i64,
    pub task_id: Seq<char>,
    pub attempt: i64,
    pub stream: Seq<char>,
    pub line: Seq<char>,
    pub created_at: i64,
}

/// The mathematical reading of a [`RunDetail`].
#[verifier::ext_equal]
pub struct DetailModel {
    pub run: RunModel,
    pub workflow: WorkflowModel,
    pub source_dir: Seq<char>,
    pub max_parallel: i64,
    pub tasks: Seq<TaskState>,
    pub attempts: Seq<AttemptModel>,
}

/// The mathematical reading of an [`EventRow`].
#[verifier::ext_equal]
pub struct EventModel {
    pub id: i64,
    pub run_id: Seq<char>,
    pub kind: Seq<char>,
    pub payload: Seq<char>,
    pub created_at: i64,
}

/// The mathematical reading of a [`RunRow`].
#[verifier::ext_equal]
pub struct RunRecord {
    pub run: RunModel,
    pub workflow: WorkflowModel,
    pub source_dir: Seq<char>,
    pub max_parallel: i64,
}

/// The mathematical reading of a [`TaskRow`].
#[verifier::ext_equal]
pub struct TaskRecord {
    pub run_id: Seq<char>,
    pub task: TaskState,
}

/// The mathematical reading of an [`AttemptRow`].
#[verifier::ext_equal]
pub struct AttemptRecord {
    pub run_id: Seq<char>,
    pub attempt: AttemptModel,
}

/// The mathematical reading of a [`LogRow`].
#[verifier::ext_equal]
pub struct LogRecord {
    pub run_id: Seq<char>,
    pub log: LogModel,
}

impl View for RunSummary {
    type V = RunModel;

    open spec fn view(&self) -> RunModel {
        RunModel {
            id: self.id@,
            name: self.name@,
            status: self.status@,
            created_at: self.created_at,
            started_at: self.started_at,
            finished_at: self.finished_at,
        }
    }
}

impl View for TaskView {
    type V = TaskState;

    open spec fn view(&self) -> TaskState {
        TaskState {
            id: self.id@,
            status: self.status@,
            attempts: self.attempts,
            started_at: self.started_at,
            finished_at: self.finished_at,
            error: optional(self.error),
        }
    }
}

impl View for AttemptView {
    type V = AttemptModel;

    open spec fn view(&self) -> AttemptModel {
        AttemptModel {
            task_id: self.task_id@,
            number: self.number,
            status: self.status@,
            started_at: self.started_at,
            finished_at: self.finished_at,
            error: optional(self.error),
        }
    }
}

impl View for LogLine {
    type V = LogModel;

    open spec fn view(&self) -> LogModel {
        LogModel {
            id: self.id,
            task_id: self.task_id@,
            attempt: self.attempt,
            stream: self.stream@,
            line: self.line@,
            created_at: self.created_at,
        }
    }
}

impl View for RunDetail {
    type V = DetailModel;

    open spec fn view(&self) -> DetailModel {
        DetailModel {
            run: self.run@,
            workflow: self.workflow@,
            source_dir: self.source_dir@,
            max_parallel: self.max_parallel,
            tasks: task_states(self.tasks@),
            attempts: attempt_models(self.attempts@),
        }
    }
}

impl View for EventRow {
    type V = EventModel;

    open spec fn view(&self) -> EventModel {
        EventModel {
            id: self.id,
            run_id: self.run_id@,
            kind: self.kind@,
            payload: self.payload@,
            created_at: self.created_at,
        }
    }
}

impl View for RunRow {
    type V = RunRecord;

    open spec fn view(&self) -> RunRecord {
        RunRecord {
            run: self.run@,
            workflow: self.workflow@,
            source_dir: self.source_dir@,
            max_parallel: self.max_parallel,
        }
    }
}

impl View for TaskRow {
    type V = TaskRecord;

    open spec fn view(&self) -> TaskRecord {
        TaskRecord { run_id: self.run_id@, task: self.task@ }
    }
}

impl View for AttemptRow {
    type V = AttemptRecord;

    open spec fn view(&self) -> AttemptRecord {
        AttemptRecord { run_id: self.run_id@, attempt: self.attempt@ }
    }
}

impl View for LogRow {
    type V = LogRecord;

    open spec fn view(&self) -> LogRecord {
        LogRecord { run_id: self.run_id@, log: self.log@ }
    }
}

/// The tasks, one by one.
pub open spec fn task_states(v: Seq<TaskView>) -> Seq<TaskState> {
    Seq::new(v.len(), |i: int| v[i]@)
}

/// The attempts, one by one.
pub open spec fn attempt_models(v: Seq<AttemptView>) -> Seq<AttemptModel> {
    Seq::new(v.len(), |i: int| v[i]@)
}

/// The log lines, one by one.
pub open spec fn log_models(v: Seq<LogLine>) -> Seq<LogModel> {
    Seq::new(v.len(), |i: int| v[i]@)
}

/// The runs, one by one.
pub open spec fn summary_models(v: Seq<RunSummary>) -> Seq<RunModel> {
    Seq::new(v.len(), |i: int| v[i]@)
}

/// The events, one by one.
pub open spec fn event_models(v: Seq<EventRow>) -> Seq<EventModel> {
    Seq::new(v.len(), |i: int| v[i]@)
}

/// The rows of runs, one by one.
pub open spec fn run_records(v: Seq<RunRow>) -> Seq<RunRecord> {
    Seq::new(v.len(), |i: int| v[i]@)
}

/// The rows of tasks, one by one.
pub open spec fn task_records(v: Seq<TaskRow>) -> Seq<TaskRecord> {
    Seq::new(v.len(), |i: int| v[i]@)
}

/// The rows of attempts, one by one.
pub open spec fn attempt_records(v: Seq<AttemptRow>) -> Seq<AttemptRecord> {
    Seq::new(v.len(), |i: int| v[i]@)
}

/// The rows of log lines, one by one.
pub open spec fn log_records(v: Seq<LogRow>) -> Seq<LogRecord> {
    Seq::new(v.len(), |i: int| v[i]@)
}

// ---------------------------------------------------------------------------
// Copies
// ---------------------------------------------------------------------------

impl Clone for RunSummary {
    fn clone(&self) -> (r: RunSummary)
        ensures
            r == *self,
    {
        RunSummary {
            id: self.id.clone(),
            name: self.name.clone(),
            status: self.status.clone(),
            created_at: self.created_at,
            started_at: self.started_at,
            finished_at: self.finished_at,
        }
    }
}

impl Clone for TaskView {
    fn clone(&self) -> (r: TaskView)
        ensures
            r == *self,
    {
        TaskView {
            id: self.id.clone(),
            status: self.status.clone(),
            attempts: self.attempts,
            started_at: self.started_at,
            finished_at: self.finished_at,
            error: copy_optional(&self.error),
        }
    }
}

impl Clone for AttemptView {
    fn clone(&self) -> (r: AttemptView)
        ensures
            r == *self,
    {
        AttemptView {
            task_id: self.task_id.clone(),
            number: self.number,
            status: self.status.clone(),
            started_at: self.started_at,
            finished_at: self.finished_at,
            error: copy_optional(&self.error),
        }
    }
}

impl Clone for LogLine {
    fn clone(&self) -> (r: LogLine)
        ensures
            r == *self,
    {
        LogLine {
            id: self.id,
            task_id: self.task_id.clone(),
            attempt: self.attempt,
            stream: self.stream.clone(),
            line: self.line.clone(),
            created_at: self.created_at,
        }
    }
}

impl Clone for EventRow {
    fn clone(&self) -> (r: EventRow)
        ensures
            r == *self,
    {
        EventRow {
            id: self.id,
            run_id: self.run_id.clone(),
            kind: self.kind.clone(),
            payload: self.payload.clone(),
            created_at: self.created_at,
        }
    }
}

fn copy_tasks(v: &Vec<TaskView>) -> (r: Vec<TaskView>)
    ensures
        r@ == v@,
{
    let mut r: Vec<TaskView> = Vec::new();
    let mut i: usize = 0;
    while i < v.len()
        invariant
            i <= v.len(),
            r@ == v@.take(i as int),
        decreases v.len() - i,
    {
        r.push(v[i].clone());
        i = i + 1;
    }
    r
}

fn copy_attempts(v: &Vec<AttemptView>) -> (r: Vec<AttemptView>)
    ensures
        r@ == v@,
{
    let mut r: Vec<AttemptView> = Vec::new();
    let mut i: usize = 0;
    while i < v.len()
        invariant
            i <= v.len(),
            r@ == v@.take(i as int),
        decreases v.len() - i,
    {
        r.push(v[i].clone());
        i = i + 1;
    }
    r
}

impl Clone for RunDetail {
    fn clone(&self) -> (r: RunDetail)
        ensures
            r@ == self@,
    {
        RunDetail {
            run: self.run.clone(),
            workflow: self.workflow.clone(),
            source_dir: self.source_dir.clone(),
            max_parallel: self.max_parallel,
            tasks: copy_tasks(&self.tasks),
            attempts: copy_attempts(&self.attempts),
        }
    }
}

} // verus!
