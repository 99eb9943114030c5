//! That the mathematical readings leave nothing out: each tells every field of what
//! it reads, as it is.

use crate::api::Failure;
use crate::db::Tables;
use crate::json::{Field, Scalar, ScalarModel};
use crate::records::{
    attempt_models, event_models, log_models, summary_models, task_states, AttemptView, EventRow,
    LogLine, RunDetail, RunSummary, TaskView,
};
use crate::scheduler::{Action, ActionModel, Outcome, OutcomeModel, Refusal, RefusalModel};
use crate::text::{optional, optional_slice, texts};
use crate::worker::{AttemptResult, Next, NextModel, ResultModel, Turn, TurnModel};
use crate::workflow::{task_models, Task, Workflow};
use vstd::prelude::*;

verus! {

/// A list of texts reads as the texts, one by one, and an optional text as the
/// text where there is one.
pub proof fn law_texts_read_as_they_are(
    v: Seq<String>,
    i: int,
    owned: Option<String>,
    slice: Option<&str>,
)
    ensures
        texts(v).len() == v.len(),
        0 <= i < v.len() ==> texts(v)[i] == v[i]@,
        owned is Some <==> optional(owned) is Some,
        owned is Some ==> optional(owned)->0 == owned->0@,
        slice is Some <==> optional_slice(slice) is Some,
        slice is Some ==> optional_slice(slice)->0 == slice->0@,
{
}

/// A workflow reads as its name, its limit and its tasks, and a task as all that
/// it says.
pub proof fn law_workflows_read_as_they_are(w: Workflow, t: Task, i: int)
    ensures
        w@.name == w.name@,
        w@.max_parallel == w.max_parallel,
        w@.tasks == task_models(w.tasks@),
        task_models(w.tasks@).len() == w.tasks@.len(),
        0 <= i < w.tasks@.len() ==> w@.tasks[i] == w.tasks@[i]@,
        t@.id == t.id@,
        t@.command == t.command@,
        t@.args == texts(t.args@),
        t@.dependencies == texts(t.dependencies@),
        t@.workdir == optional(t.workdir),
        t@.timeout_seconds == t.timeout_seconds,
        t@.retries == t.retries,
        t@.max_attempts == t.max_attempts,
        t@.env == t.env@,
{
}

/// Runs, tasks, attempts, log lines and events read field by field.
pub proof fn law_rows_read_as_they_are(
    run: RunSummary,
    task: TaskView,
    attempt: AttemptView,
    log: LogLine,
    event: EventRow,
)
    ensures
        run@.id == run.id@,
        run@.name == run.name@,
        run@.status == run.status@,
        run@.created_at == run.created_at,
        run@.started_at == run.started_at,
        run@.finished_at == run.finished_at,
        task@.id == task.id@,
        task@.status == task.status@,
        task@.attempts == task.attempts,
        task@.started_at == task.started_at,
        task@.finished_at == task.finished_at,
        task@.error == optional(task.error),
        attempt@.task_id == attempt.task_id@,
        attempt@.number == attempt.number,
        attempt@.status == attempt.status@,
        attempt@.started_at == attempt.started_at,
        attempt@.finished_at == attempt.finished_at,
        attempt@.error == optional(attempt.error),
        log@.id == log.id,
        log@.task_id == log.task_id@,
        log@.attempt == log.attempt,
        log@.stream == log.stream@,
        log@.line == log.line@,
        log@.created_at == log.created_at,
        event@.id == event.id,
        event@.run_id == event.run_id@,
        event@.kind == event.kind@,
        event@.payload == event.payload@,
        event@.created_at == event.created_at,
{
}

/// What is stored reads row by row and field by field, in its order.
pub proof fn law_tables_read_as_they_are(t: Tables, i: int)
    ensures
        t@.runs.len() == t.runs@.len(),
        0 <= i < t.runs@.len() ==> {
            &&& t@.runs[i].run == t.runs@[i].run@
            &&& t@.runs[i].workflow == t.runs@[i].workflow@
            &&& t@.runs[i].source_dir == t.runs@[i].source_dir@
            &&& t@.runs[i].max_parallel == t.runs@[i].max_parallel
        },
        t@.tasks.len() == t.tasks@.len(),
        0 <= i < t.tasks@.len() ==> t@.tasks[i].run_id == t.tasks@[i].run_id@ && t@.tasks[i].task
            == t.tasks@[i].task@,
        t@.attempts.len() == t.attempts@.len(),
        0 <= i < t.attempts@.len() ==> t@.attempts[i].run_id == t.attempts@[i].run_id@
            && t@.attempts[i].attempt == t.attempts@[i].attempt@,
        t@.logs.len() == t.logs@.len(),
        0 <= i < t.logs@.len() ==> t@.logs[i].run_id == t.logs@[i].run_id@ && t@.logs[i].log
            == t.logs@[i].log@,
        t@.events.len() == t.events@.len(),
        0 <= i < t.events@.len() ==> t@.events[i] == t.events@[i]@,
        t@.last_log == t.last_log,
        t@.last_event == t.last_event,
{
}

/// A run in detail reads as the run, what it runs and where, its limit, and all
/// its tasks and attempts; lists of rows read row by row.
pub proof fn law_details_read_as_they_are(
    d: RunDetail,
    runs: Seq<RunSummary>,
    logs: Seq<LogLine>,
    events: Seq<EventRow>,
    i: int,
)
    ensures
        d@.run == d.run@,
        d@.workflow == d.workflow@,
        d@.source_dir == d.source_dir@,
        d@.max_parallel == d.max_parallel,
        d@.tasks == task_states(d.tasks@),
        d@.tasks.len() == d.tasks@.len(),
        0 <= i < d.tasks@.len() ==> d@.tasks[i] == d.tasks@[i]@,
        d@.attempts == attempt_models(d.attempts@),
        d@.attempts.len() == d.attempts@.len(),
        0 <= i < d.attempts@.len() ==> d@.attempts[i] == d.attempts@[i]@,
        summary_models(runs).len() == runs.len(),
        0 <= i < runs.len() ==> summary_models(runs)[i] == runs[i]@,
        log_models(logs).len() == logs.len(),
        0 <= i < logs.len() ==> log_models(logs)[i] == logs[i]@,
        event_models(events).len() == events.len(),
        0 <= i < events.len() ==> event_models(events)[i] == events[i]@,
{
}

/// What is decided and what became of an attempt reads as what it is, with what it
/// carries.
pub proof fn law_decisions_read_as_they_are(
    action: Action,
    outcome: Outcome,
    next: Next,
    turn: Turn,
    result: AttemptResult,
)
    ensures
        action is Again <==> action@ is Again,
        action is Wait <==> action@ is Wait,
        action is Conclude <==> action@ is Conclude,
        action matches Action::Launch(tasks) ==> action@ == ActionModel::Launch(
            task_models(tasks@),
        ),
        outcome is Success <==> outcome@ is Success,
        outcome is Interrupted <==> outcome@ is Interrupted,
        outcome matches Outcome::Failed(e) ==> outcome@ == OutcomeModel::Failed(e@),
        next matches Next::Done(o) ==> next@ == NextModel::Done(o@),
        next matches Next::Retry(delay) ==> next@ == NextModel::Retry(delay as int),
        turn matches Turn::Attempt(n) ==> turn@ == TurnModel::Attempt(n),
        turn matches Turn::Done(o) ==> turn@ == TurnModel::Done(o@),
        result is Success <==> result@ is Success,
        result is Interrupted <==> result@ is Interrupted,
        result matches AttemptResult::Failure(e) ==> result@ == ResultModel::Failure(e@),
{
}

/// A refusal reads as its reason, an answer as its status and message, and a field
/// of an object as its key and value.
pub proof fn law_answers_read_as_they_are(refusal: Refusal, failure: Failure, field: Field)
    ensures
        refusal is Unknown <==> refusal@ is Unknown,
        refusal is Started <==> refusal@ is Started,
        refusal is Finished <==> refusal@ is Finished,
        refusal is Unrecorded <==> refusal@ is Unrecorded,
        refusal matches Refusal::Invalid(text) ==> refusal@ == RefusalModel::Invalid(text@),
        failure@.status == failure.status,
        failure@.message == failure.message@,
        field@.0 == field.key@,
        field.value is Null <==> field@.1 is Null,
        field.value matches Scalar::Text(s) ==> field@.1 == ScalarModel::Text(s@),
        field.value matches Scalar::Number(n) ==> field@.1 == ScalarModel::Number(n as int),
{
}

} // verus!
