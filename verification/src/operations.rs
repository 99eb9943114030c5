//! What each operation does to the rows, and what each query reads from them.

use crate::json::{json_object, ScalarModel};
use crate::lifecycle::{lemma_statuses, state_of};
use crate::model::{
    attempts_of, batch, events_of, is_attempt, is_listing, is_task, lemma_run_found, lemma_state_id,
    lemma_state_unique, logs_of, recent, run_record, tasks_of, DbError, DbModel,
};
use crate::records::{
    AttemptModel, AttemptRecord, EventModel, LogModel, LogRecord, RunModel, RunRecord, TaskRecord,
    TaskState,
};
use crate::recovery::lemma_recover_effect;
use crate::simulation::first;
use crate::workflow::{TaskModel, WorkflowModel};
use vstd::prelude::*;

verus! {

// ---------------------------------------------------------------------------
// Queries
// ---------------------------------------------------------------------------

/// A run is known exactly where a row has its identifier.
pub proof fn law_runs_are_known_by_their_rows(m: DbModel, run: Seq<char>)
    ensures
        m.detail(run) is Some <==> exists|k: int|
            0 <= k < m.runs.len() && (#[trigger] m.runs[k]).run.id == run,
        m.has_run(run) <==> exists|k: int|
            0 <= k < m.runs.len() && (#[trigger] m.runs[k]).run.id == run,
{
    lemma_run_found(m.runs, run);
    if exists|k: int| 0 <= k < m.runs.len() && (#[trigger] m.runs[k]).run.id == run {
        let k = choose|k: int| 0 <= k < m.runs.len() && (#[trigger] m.runs[k]).run.id == run;
        assert(m.runs[k].run.id == run);
    }
}

proof fn lemma_run_record_at(rows: Seq<RunRecord>, run: Seq<char>, k: int)
    requires
        0 <= k < rows.len(),
        rows[k].run.id == run,
        forall|j: int| 0 <= j < k ==> (#[trigger] rows[j]).run.id != run,
    ensures
        run_record(rows, run) == Some(rows[k]),
    decreases rows.len(),
{
    if k > 0 {
        let rest = rows.drop_first();
        assert(rows[0].run.id != run);
        assert forall|j: int| 0 <= j < k - 1 implies (#[trigger] rest[j]).run.id != run by {
            assert(rows[j + 1].run.id != run);
        }
        lemma_run_record_at(rest, run, k - 1);
    }
}

/// A run reads back as its row, with the workflow, the directory and the limit
/// recorded there, its tasks and its attempts.
pub proof fn law_runs_read_back(m: DbModel, k: int)
    requires
        m.keyed(),
        0 <= k < m.runs.len(),
    ensures
        m.detail(m.runs[k].run.id) is Some,
        ({
            let d = m.detail(m.runs[k].run.id)->0;
            &&& d.run == m.runs[k].run
            &&& d.workflow == m.runs[k].workflow
            &&& d.source_dir == m.runs[k].source_dir
            &&& d.max_parallel == m.runs[k].max_parallel
            &&& d.tasks == tasks_of(m.tasks, d.run.id)
            &&& d.attempts == attempts_of(m.attempts, d.run.id)
        }),
{
    lemma_run_record_at(m.runs, m.runs[k].run.id, k);
}

/// A task reads back as its row, and only where it has one.
pub proof fn law_tasks_read_back(m: DbModel, run: Seq<char>, task: Seq<char>)
    requires
        m.keyed(),
    ensures
        m.task(run, task) is Some <==> exists|j: int|
            0 <= j < m.tasks.len() && (#[trigger] m.tasks[j]).run_id == run && m.tasks[j].task.id
                == task,
        forall|j: int|
            0 <= j < m.tasks.len() && (#[trigger] m.tasks[j]).run_id == run && m.tasks[j].task.id
                == task ==> m.task(run, task) == Some(m.tasks[j].task) && m.status(run, task)
                == m.tasks[j].task.status,
{
    lemma_state_unique(m, run, task);
    lemma_state_id(m.tasks, run, task);
    if exists|j: int|
        0 <= j < m.tasks.len() && (#[trigger] m.tasks[j]).run_id == run && m.tasks[j].task.id
            == task {
        let j = choose|j: int|
            0 <= j < m.tasks.len() && (#[trigger] m.tasks[j]).run_id == run && m.tasks[j].task.id
                == task;
        assert(is_task(m.tasks[j], run, task));
    }
    if m.task(run, task) is Some {
        let j = choose|j: int| 0 <= j < m.tasks.len() && is_task(#[trigger] m.tasks[j], run, task);
        assert(m.tasks[j].run_id == run && m.tasks[j].task.id == task);
    }
    assert forall|j: int|
        0 <= j < m.tasks.len() && (#[trigger] m.tasks[j]).run_id == run && m.tasks[j].task.id
            == task implies m.task(run, task) == Some(m.tasks[j].task) by {
        assert(is_task(m.tasks[j], run, task));
    }
}

/// A workflow is covered exactly where each of its tasks has a row in the run.
pub proof fn law_coverage(m: DbModel, run: Seq<char>, w: WorkflowModel)
    requires
        m.keyed(),
    ensures
        m.covers(run, w) <==> forall|i: int|
            0 <= i < w.tasks.len() ==> exists|j: int|
                0 <= j < m.tasks.len() && (#[trigger] m.tasks[j]).run_id == run
                    && m.tasks[j].task.id == (#[trigger] w.tasks[i]).id,
{
    if m.covers(run, w) {
        assert forall|i: int| 0 <= i < w.tasks.len() implies exists|j: int|
            0 <= j < m.tasks.len() && (#[trigger] m.tasks[j]).run_id == run && m.tasks[j].task.id
                == (#[trigger] w.tasks[i]).id by {
            law_tasks_read_back(m, run, w.tasks[i].id);
            assert(m.task(run, w.tasks[i].id) is Some);
        }
    } else {
        let i = choose|i: int|
            0 <= i < w.tasks.len() && m.task(run, (#[trigger] w.tasks[i]).id) is None;
        law_tasks_read_back(m, run, w.tasks[i].id);
    }
}

/// A run is told its own rows, all of them and in the order in which they were
/// recorded: a further row comes last where it is the run's, and changes nothing
/// where it is not.
pub proof fn law_queries_select_the_rows_of_a_run(
    run: Seq<char>,
    tasks: Seq<TaskRecord>,
    task: TaskRecord,
    attempts: Seq<AttemptRecord>,
    attempt: AttemptRecord,
)
    ensures
        tasks_of(Seq::empty(), run) == Seq::<TaskState>::empty(),
        tasks_of(tasks.push(task), run) == if task.run_id == run {
            tasks_of(tasks, run).push(task.task)
        } else {
            tasks_of(tasks, run)
        },
        attempts_of(Seq::empty(), run) == Seq::<AttemptModel>::empty(),
        attempts_of(attempts.push(attempt), run) == if attempt.run_id == run {
            attempts_of(attempts, run).push(attempt.attempt)
        } else {
            attempts_of(attempts, run)
        },
{
    let p = |r: TaskRecord| r.run_id == run;
    let q = |r: AttemptRecord| r.run_id == run;
    reveal(Seq::filter);
    assert(tasks_of(Seq::empty(), run) =~= Seq::<TaskState>::empty());
    assert(attempts_of(Seq::empty(), run) =~= Seq::<AttemptModel>::empty());
    tasks.lemma_filter_push(task, p);
    attempts.lemma_filter_push(attempt, q);
    if task.run_id == run {
        assert(tasks_of(tasks.push(task), run) =~= tasks_of(tasks, run).push(task.task));
    }
    if attempt.run_id == run {
        assert(attempts_of(attempts.push(attempt), run) =~= attempts_of(attempts, run).push(
            attempt.attempt,
        ));
    }
}

/// The log of a run, or of one of its tasks, holds its lines in the order in which
/// they were recorded, and a reader is told the events of a run behind the one
/// that it names in the same way.
pub proof fn law_queries_select_the_history_of_a_run(
    run: Seq<char>,
    task: Option<Seq<char>>,
    logs: Seq<LogRecord>,
    log: LogRecord,
    after: int,
    events: Seq<EventModel>,
    event: EventModel,
)
    ensures
        logs_of(Seq::empty(), run, task) == Seq::<LogModel>::empty(),
        logs_of(logs.push(log), run, task) == if log.run_id == run && (task matches Some(id)
            ==> log.log.task_id == id) {
            logs_of(logs, run, task).push(log.log)
        } else {
            logs_of(logs, run, task)
        },
        events_of(Seq::empty(), run, after) == Seq::<EventModel>::empty(),
        events_of(events.push(event), run, after) == if event.run_id == run && event.id > after {
            events_of(events, run, after).push(event)
        } else {
            events_of(events, run, after)
        },
{
    let p = |r: LogRecord| r.run_id == run && (task is None || task == Some(r.log.task_id));
    let q = |e: EventModel| e.run_id == run && e.id > after;
    reveal(Seq::filter);
    assert(logs_of(Seq::empty(), run, task) =~= Seq::<LogModel>::empty());
    assert(events_of(Seq::empty(), run, after) =~= Seq::<EventModel>::empty());
    logs.lemma_filter_push(log, p);
    events.lemma_filter_push(event, q);
    if p(log) {
        assert(logs_of(logs.push(log), run, task) =~= logs_of(logs, run, task).push(log.log));
    }
}

/// The first of a sequence: as many as asked for, or all where there are fewer, as
/// they stand there.
pub proof fn law_first<A>(s: Seq<A>, n: nat)
    ensures
        first(s, n).len() == if s.len() < n {
            s.len()
        } else {
            n
        },
        forall|i: int| 0 <= i < first(s, n).len() ==> #[trigger] first(s, n)[i] == s[i],
{
}

/// A hundred runs are given out, or all where there are fewer, from the beginning
/// of the listing, and events are read two hundred at a time in the same way.
pub proof fn law_how_much_is_given_out(runs: Seq<RunModel>, events: Seq<EventModel>)
    ensures
        recent(runs).is_prefix_of(runs),
        recent(runs).len() == 100 || recent(runs) == runs && runs.len() < 100,
        batch(events).is_prefix_of(events),
        batch(events).len() == 200 || batch(events) == events && events.len() < 200,
{
}

/// A listing holds each recorded run as often as it is recorded, and no run stands
/// before a later one.
pub proof fn law_listings(s: Seq<RunModel>, m: DbModel)
    requires
        is_listing(s, m.runs),
    ensures
        s.len() == m.runs.len(),
        forall|i: int, j: int|
            0 <= i < j < s.len() ==> (#[trigger] s[i]).created_at >= (#[trigger] s[j]).created_at,
        forall|k: int| 0 <= k < m.runs.len() ==> s.contains((#[trigger] m.runs[k]).run),
        forall|i: int|
            0 <= i < s.len() ==> m.runs.map_values(|r: RunRecord| r.run).contains(#[trigger] s[i]),
{
    let rows = m.runs.map_values(|r: RunRecord| r.run);
    vstd::seq_lib::to_multiset_len(s);
    vstd::seq_lib::to_multiset_len(rows);
    assert forall|k: int| 0 <= k < m.runs.len() implies s.contains((#[trigger] m.runs[k]).run) by {
        assert(rows[k] == m.runs[k].run);
        assert(rows.contains(rows[k]));
        vstd::seq_lib::to_multiset_contains(rows, rows[k]);
        vstd::seq_lib::to_multiset_contains(s, rows[k]);
    }
    assert forall|i: int| 0 <= i < s.len() implies rows.contains(#[trigger] s[i]) by {
        assert(s.contains(s[i]));
        vstd::seq_lib::to_multiset_contains(s, s[i]);
        vstd::seq_lib::to_multiset_contains(rows, s[i]);
    }
}

// ---------------------------------------------------------------------------
// Operations
// ---------------------------------------------------------------------------

/// One event was noted, under the next identifier: an object with these fields.
pub open spec fn notes(
    m: DbModel,
    after: DbModel,
    run: Seq<char>,
    kind: Seq<char>,
    fields: Seq<(Seq<char>, ScalarModel)>,
    now: i64,
) -> bool {
    &&& after.last_event == m.last_event + 1
    &&& after.events.len() == m.events.len() + 1
    &&& after.events.drop_last() == m.events
    &&& after.events.last().id == after.last_event
    &&& after.events.last().run_id == run
    &&& after.events.last().kind == kind
    &&& after.events.last().payload == json_object(fields)
    &&& after.events.last().created_at == now
}

/// The log is what it was.
pub open spec fn same_log(m: DbModel, after: DbModel) -> bool {
    after.logs == m.logs && after.last_log == m.last_log
}

/// A text, or nothing.
pub open spec fn text_or_null(text: Option<Seq<char>>) -> ScalarModel {
    match text {
        Some(s) => ScalarModel::Text(s),
        None => ScalarModel::Null,
    }
}

/// Every row but those of one task is what it was.
pub open spec fn other_tasks_kept(
    m: DbModel,
    after: DbModel,
    run: Seq<char>,
    task: Seq<char>,
) -> bool {
    &&& after.tasks.len() == m.tasks.len()
    &&& forall|j: int|
        0 <= j < m.tasks.len() && !((#[trigger] m.tasks[j]).run_id == run && m.tasks[j].task.id
            == task) ==> after.tasks[j] == m.tasks[j]
}

/// A new event is noted behind all others.
pub proof fn law_events_are_noted(
    m: DbModel,
    run: Seq<char>,
    kind: Seq<char>,
    payload: Seq<char>,
    now: i64,
)
    requires
        m.room(1),
    ensures
        ({
            let after = m.with_event(run, kind, payload, now);
            &&& after.last_event == m.last_event + 1
            &&& after.events == m.events.push(
                EventModel {
                    id: (m.last_event + 1) as i64,
                    run_id: run,
                    kind,
                    payload,
                    created_at: now,
                },
            )
            &&& after.runs == m.runs
            &&& after.tasks == m.tasks
            &&& after.attempts == m.attempts
            &&& same_log(m, after)
        }),
        forall|n: int| #[trigger] m.room(n) <==> m.last_event + n <= 0x7fff_ffff_ffff_ffff,
{
}

/// Setting the status of a run: it has started at the latest now, and it has
/// finished now unless it is running. Nothing else of it changes, no other run
/// changes, and the status is noted.
pub proof fn law_setting_a_run(m: DbModel, run: Seq<char>, status: Seq<char>, now: i64)
    requires
        m.room(1),
    ensures
        ({
            let after = m.set_run(run, status, now);
            &&& after.runs.len() == m.runs.len()
            &&& forall|k: int|
                0 <= k < m.runs.len() && (#[trigger] m.runs[k]).run.id != run ==> after.runs[k]
                    == m.runs[k]
            &&& forall|k: int|
                0 <= k < m.runs.len() && (#[trigger] m.runs[k]).run.id == run ==> {
                    let r = m.runs[k];
                    let u = after.runs[k];
                    &&& u.run.status == status
                    &&& r.run.started_at is Some ==> u.run.started_at == r.run.started_at
                    &&& r.run.started_at is None ==> u.run.started_at == Some(now)
                    &&& status == "running"@ ==> u.run.finished_at is None
                    &&& status != "running"@ ==> u.run.finished_at == Some(now)
                    &&& u.run.id == r.run.id && u.run.name == r.run.name && u.run.created_at
                        == r.run.created_at
                    &&& u.workflow == r.workflow && u.source_dir == r.source_dir && u.max_parallel
                        == r.max_parallel
                }
            &&& after.tasks == m.tasks && after.attempts == m.attempts && same_log(m, after)
            &&& notes(
                m,
                after,
                run,
                "run"@,
                seq![("status"@, ScalarModel::Text(status))],
                now,
            )
        }),
{
    let after = m.set_run(run, status, now);
    assert(after.events.drop_last() =~= m.events);
}

/// Setting the status of a task: a task that runs has started now, and one that
/// succeeded, failed or is blocked has finished now. Its count of attempts stays,
/// no other task changes, and the status is noted with the error.
pub proof fn law_setting_a_task(
    m: DbModel,
    run: Seq<char>,
    task: Seq<char>,
    status: Seq<char>,
    error: Option<Seq<char>>,
    now: i64,
)
    requires
        m.room(1),
    ensures
        ({
            let after = m.set_task(run, task, status, error, now);
            &&& other_tasks_kept(m, after, run, task)
            &&& forall|j: int|
                0 <= j < m.tasks.len() && (#[trigger] m.tasks[j]).run_id == run
                    && m.tasks[j].task.id == task ==> {
                    let t = m.tasks[j].task;
                    let u = after.tasks[j].task;
                    &&& after.tasks[j].run_id == run
                    &&& u.id == task && u.status == status && u.error == error
                    &&& u.attempts == t.attempts
                    &&& status == "running"@ ==> u.started_at == Some(now)
                    &&& status != "running"@ ==> u.started_at == t.started_at
                    &&& status == "success"@ || status == "failed"@ || status == "blocked"@
                        ==> u.finished_at == Some(now)
                    &&& status != "success"@ && status != "failed"@ && status != "blocked"@
                        ==> u.finished_at is None
                }
            &&& after.runs == m.runs && after.attempts == m.attempts && same_log(m, after)
            &&& notes(
                m,
                after,
                run,
                "task"@,
                seq![
                    ("task_id"@, ScalarModel::Text(task)),
                    ("status"@, ScalarModel::Text(status)),
                    ("error"@, text_or_null(error)),
                ],
                now,
            )
        }),
{
    let after = m.set_task(run, task, status, error, now);
    assert(after.events.drop_last() =~= m.events);
}

/// Starting an attempt: the task runs, counts one attempt more, keeps the time of
/// its first start, and has neither an end nor an error. The attempt is recorded
/// last, running since now, under the new count, which is also what is given back
/// and noted.
pub proof fn law_starting_an_attempt(m: DbModel, run: Seq<char>, task: Seq<char>, now: i64)
    requires
        m.keyed(),
        m.room(1),
        m.next_attempt(run, task) is Ok,
    ensures
        ({
            let after = m.start_attempt(run, task, now);
            let number = m.next_attempt(run, task)->Ok_0;
            &&& other_tasks_kept(m, after, run, task)
            &&& forall|j: int|
                0 <= j < m.tasks.len() && (#[trigger] m.tasks[j]).run_id == run
                    && m.tasks[j].task.id == task ==> {
                    let t = m.tasks[j].task;
                    let u = after.tasks[j].task;
                    &&& number == t.attempts + 1
                    &&& after.tasks[j].run_id == run
                    &&& u.id == task && u.status == "running"@ && u.error is None
                    &&& u.attempts == number
                    &&& t.started_at is Some ==> u.started_at == t.started_at
                    &&& t.started_at is None ==> u.started_at == Some(now)
                    &&& u.finished_at is None
                }
            &&& after.attempts.len() == m.attempts.len() + 1
            &&& after.attempts.drop_last() == m.attempts
            &&& after.attempts.last().run_id == run
            &&& after.attempts.last().attempt.task_id == task
            &&& after.attempts.last().attempt.number == number
            &&& after.attempts.last().attempt.status == "running"@
            &&& after.attempts.last().attempt.started_at == now
            &&& after.attempts.last().attempt.finished_at is None
            &&& after.attempts.last().attempt.error is None
            &&& after.runs == m.runs && same_log(m, after)
            &&& notes(
                m,
                after,
                run,
                "task"@,
                seq![
                    ("task_id"@, ScalarModel::Text(task)),
                    ("status"@, ScalarModel::Text("running"@)),
                    ("attempt"@, ScalarModel::Number(number as int)),
                ],
                now,
            )
        }),
{
    let after = m.start_attempt(run, task, now);
    lemma_state_unique(m, run, task);
    assert forall|j: int|
        0 <= j < m.tasks.len() && (#[trigger] m.tasks[j]).run_id == run && m.tasks[j].task.id
            == task implies m.task(run, task) == Some(m.tasks[j].task) by {
        assert(is_task(m.tasks[j], run, task));
    }
    assert(after.events.drop_last() =~= m.events);
    assert(after.attempts.drop_last() =~= m.attempts);
}

/// An attempt can be started exactly at a recorded task whose next number can be
/// counted and is free.
pub proof fn law_attempts_that_can_be_started(m: DbModel, run: Seq<char>, task: Seq<char>)
    ensures
        m.task(run, task) is None <==> m.next_attempt(run, task) == Err::<i64, DbError>(
            DbError::NoSuchTask,
        ),
        m.task(run, task) matches Some(t) ==> {
            let taken = exists|j: int|
                0 <= j < m.attempts.len() && (#[trigger] m.attempts[j]).run_id == run
                    && m.attempts[j].attempt.task_id == task && m.attempts[j].attempt.number
                    == t.attempts + 1;
            &&& m.next_attempt(run, task) is Ok <==> t.attempts < i64::MAX && !taken
            &&& m.next_attempt(run, task) is Ok ==> m.next_attempt(run, task)->Ok_0 == t.attempts
                + 1
            &&& m.next_attempt(run, task) == Err::<i64, DbError>(DbError::TooManyAttempts)
                <==> t.attempts == i64::MAX
            &&& m.next_attempt(run, task) == Err::<i64, DbError>(DbError::AttemptExists)
                <==> t.attempts < i64::MAX && taken
        },
{
    if let Some(t) = m.task(run, task) {
        if t.attempts < i64::MAX {
            let number = (t.attempts + 1) as i64;
            if exists|j: int|
                0 <= j < m.attempts.len() && (#[trigger] m.attempts[j]).run_id == run
                    && m.attempts[j].attempt.task_id == task && m.attempts[j].attempt.number
                    == t.attempts + 1 {
                let j = choose|j: int|
                    0 <= j < m.attempts.len() && (#[trigger] m.attempts[j]).run_id == run
                        && m.attempts[j].attempt.task_id == task && m.attempts[j].attempt.number
                        == t.attempts + 1;
                assert(is_attempt(m.attempts[j], run, task, number));
            }
            if m.has_attempt(run, task, number) {
                let j = choose|j: int|
                    0 <= j < m.attempts.len() && is_attempt(
                        #[trigger] m.attempts[j],
                        run,
                        task,
                        number,
                    );
                assert(m.attempts[j].attempt.number == t.attempts + 1);
            }
        }
    }
}

/// Ending an attempt: its row gets the status, the error and the time, and no
/// other attempt changes. A success is a success of the task too, which ends now;
/// any other ending leaves the task as it is. The ending is noted last, behind the
/// success of the task where there is one.
pub proof fn law_finishing_an_attempt(
    m: DbModel,
    run: Seq<char>,
    task: Seq<char>,
    number: i64,
    status: Seq<char>,
    error: Option<Seq<char>>,
    now: i64,
) -> (mid: DbModel)
    requires
        m.room(2),
    ensures
        ({
            let after = m.finish_attempt(run, task, number, status, error, now);
            let fields = seq![
                ("task_id"@, ScalarModel::Text(task)),
                ("attempt"@, ScalarModel::Number(number as int)),
                ("status"@, ScalarModel::Text(status)),
                ("error"@, text_or_null(error)),
            ];
            &&& after.attempts.len() == m.attempts.len()
            &&& forall|j: int|
                0 <= j < m.attempts.len() ==> {
                    let a = m.attempts[j];
                    let b = #[trigger] after.attempts[j];
                    if a.run_id == run && a.attempt.task_id == task && a.attempt.number == number {
                        &&& b.run_id == run && b.attempt.task_id == task && b.attempt.number
                            == number
                        &&& b.attempt.started_at == a.attempt.started_at
                        &&& b.attempt.status == status
                        &&& b.attempt.error == error
                        &&& b.attempt.finished_at == Some(now)
                    } else {
                        b == a
                    }
                }
            &&& other_tasks_kept(m, after, run, task)
            &&& status != "success"@ ==> after.tasks == m.tasks && notes(
                m,
                after,
                run,
                "attempt"@,
                fields,
                now,
            )
            &&& status == "success"@ ==> {
                &&& forall|j: int|
                    0 <= j < m.tasks.len() && (#[trigger] m.tasks[j]).run_id == run
                        && m.tasks[j].task.id == task ==> {
                        let t = m.tasks[j].task;
                        let u = after.tasks[j].task;
                        &&& after.tasks[j].run_id == run
                        &&& u.id == task && u.status == "success"@ && u.error is None
                        &&& u.attempts == t.attempts && u.started_at == t.started_at
                        &&& u.finished_at == Some(now)
                    }
                &&& notes(
                    m,
                    mid,
                    run,
                    "task"@,
                    seq![
                        ("task_id"@, ScalarModel::Text(task)),
                        ("status"@, ScalarModel::Text("success"@)),
                    ],
                    now,
                )
                &&& notes(mid, after, run, "attempt"@, fields, now)
            }
            &&& after.runs == m.runs && same_log(m, after)
        }),
{
    let after = m.finish_attempt(run, task, number, status, error, now);
    if status == "success"@ {
        let mid = DbModel {
            events: after.events.drop_last(),
            last_event: (after.last_event - 1) as i64,
            ..after
        };
        assert(mid.events.drop_last() =~= m.events);
        mid
    } else {
        assert(after.events.drop_last() =~= m.events);
        m
    }
}

/// A line that a task wrote is recorded last, under the next identifier, and
/// noted.
pub proof fn law_logging_a_line(
    m: DbModel,
    run: Seq<char>,
    task: Seq<char>,
    attempt: i64,
    stream: Seq<char>,
    line: Seq<char>,
    now: i64,
)
    requires
        m.room(1),
        m.last_log < i64::MAX,
    ensures
        ({
            let after = m.log(run, task, attempt, stream, line, now);
            &&& after.last_log == m.last_log + 1
            &&& after.logs.len() == m.logs.len() + 1
            &&& after.logs.drop_last() == m.logs
            &&& after.logs.last().run_id == run
            &&& after.logs.last().log.id == after.last_log
            &&& after.logs.last().log.task_id == task
            &&& after.logs.last().log.attempt == attempt
            &&& after.logs.last().log.stream == stream
            &&& after.logs.last().log.line == line
            &&& after.logs.last().log.created_at == now
            &&& after.runs == m.runs && after.tasks == m.tasks && after.attempts == m.attempts
            &&& notes(
                m,
                after,
                run,
                "log"@,
                seq![
                    ("task_id"@, ScalarModel::Text(task)),
                    ("attempt"@, ScalarModel::Number(attempt as int)),
                    ("stream"@, ScalarModel::Text(stream)),
                    ("line"@, ScalarModel::Text(line)),
                ],
                now,
            )
        }),
{
    let after = m.log(run, task, attempt, stream, line, now);
    assert(after.logs.drop_last() =~= m.logs);
    assert(after.events.drop_last() =~= m.events);
}

/// A new run is recorded last, waiting and with all that it was given; so are its
/// tasks, one for each of the workflow and in its order, waiting and never tried.
/// Nothing that was recorded changes.
pub proof fn law_creating_a_run(
    m: DbModel,
    run: Seq<char>,
    w: WorkflowModel,
    source_dir: Seq<char>,
    max_parallel: usize,
    now: i64,
)
    requires
        m.room(1),
    ensures
        ({
            let after = m.create_run(run, w, source_dir, max_parallel, now);
            let row = after.runs.last();
            &&& after.runs.len() == m.runs.len() + 1
            &&& after.runs.drop_last() == m.runs
            &&& row.run.id == run && row.run.name == w.name && row.run.status == "pending"@
            &&& row.run.created_at == now
            &&& row.run.started_at is None && row.run.finished_at is None
            &&& row.workflow == w && row.source_dir == source_dir
            &&& max_parallel <= i64::MAX ==> row.max_parallel == max_parallel
            &&& after.tasks.len() == m.tasks.len() + w.tasks.len()
            &&& forall|j: int| 0 <= j < m.tasks.len() ==> #[trigger] after.tasks[j] == m.tasks[j]
            &&& forall|j: int|
                m.tasks.len() <= j < after.tasks.len() ==> {
                    let t = #[trigger] after.tasks[j];
                    &&& t.run_id == run
                    &&& t.task.id == w.tasks[j - m.tasks.len()].id
                    &&& t.task.status == "pending"@ && t.task.attempts == 0
                    &&& t.task.started_at is None && t.task.finished_at is None
                    &&& t.task.error is None
                }
            &&& after.attempts == m.attempts && same_log(m, after)
            &&& notes(
                m,
                after,
                run,
                "run"@,
                seq![("status"@, ScalarModel::Text("pending"@))],
                now,
            )
        }),
{
    let after = m.create_run(run, w, source_dir, max_parallel, now);
    assert(after.runs.drop_last() =~= m.runs);
    assert(after.events.drop_last() =~= m.events);
}

/// A run is recorded exactly where no other has its identifier and no two of its
/// tasks share theirs, and recovered exactly where all its tasks are recorded.
/// Whoever is refused is told what stands against it.
pub proof fn law_which_runs_are_recorded_and_recovered(
    m: DbModel,
    run: Seq<char>,
    w: WorkflowModel,
)
    ensures
        m.creation(run, w) is Ok <==> m.detail(run) is None && w.distinct(),
        m.creation(run, w) == Err::<(), DbError>(DbError::RunExists) <==> m.detail(run) is Some,
        m.creation(run, w) == Err::<(), DbError>(DbError::TaskExists) <==> m.detail(run) is None
            && !w.distinct(),
        m.recovery(run, w) is Ok <==> m.covers(run, w),
        m.recovery(run, w) == Err::<(), DbError>(DbError::NoSuchTask) <==> !m.covers(run, w),
{
    law_runs_are_known_by_their_rows(m, run);
}

/// Recovering one task: a task that was under way, or that waits without attempts
/// left, fails where its budget is spent and waits again where it is not; that is
/// noted. Any other task stays as it is, and nothing is noted.
pub proof fn law_recovering_a_task(m: DbModel, run: Seq<char>, t: TaskModel, now: i64)
    requires
        m.keyed(),
        m.room(1),
        m.task(run, t.id) is Some,
    ensures
        ({
            let after = m.recover_task(run, t, now);
            let old_state = m.task(run, t.id)->0;
            let broken = old_state.status == "running"@ || old_state.status == "retrying"@
                || old_state.status == "queued"@ || old_state.status == "pending"@
                && old_state.attempts >= t.budget();
            let spent = old_state.attempts >= t.budget();
            let status = if spent {
                "failed"@
            } else {
                "pending"@
            };
            let error = if spent {
                "budget de tentatives épuisé après interruption"@
            } else {
                "tentative interrompue, reprise autorisée"@
            };
            &&& !broken ==> after == m
            &&& broken ==> {
                &&& other_tasks_kept(m, after, run, t.id)
                &&& forall|j: int|
                    0 <= j < m.tasks.len() && (#[trigger] m.tasks[j]).run_id == run
                        && m.tasks[j].task.id == t.id ==> {
                        let u = after.tasks[j].task;
                        &&& after.tasks[j].run_id == run
                        &&& u.id == t.id && u.status == status && u.error == Some(error)
                        &&& u.attempts == old_state.attempts
                        &&& u.started_at == old_state.started_at
                        &&& spent ==> u.finished_at == Some(now)
                        &&& !spent ==> u.finished_at is None
                    }
                &&& after.runs == m.runs && after.attempts == m.attempts && same_log(m, after)
                &&& notes(
                    m,
                    after,
                    run,
                    "task"@,
                    seq![
                        ("task_id"@, ScalarModel::Text(t.id)),
                        ("status"@, ScalarModel::Text(status)),
                        ("error"@, ScalarModel::Text(error)),
                    ],
                    now,
                )
            }
        }),
{
    let after = m.recover_task(run, t, now);
    lemma_state_unique(m, run, t.id);
    assert forall|j: int|
        0 <= j < m.tasks.len() && (#[trigger] m.tasks[j]).run_id == run && m.tasks[j].task.id
            == t.id implies m.task(run, t.id) == Some(m.tasks[j].task) by {
        assert(is_task(m.tasks[j], run, t.id));
    }
    if after != m {
        assert(after.events.drop_last() =~= m.events);
    }
}

/// Recovering a run: the attempts that were running end now as interrupted, and
/// then each task of the workflow is recovered, one behind the other.
pub proof fn law_recovering_a_run(
    m: DbModel,
    run: Seq<char>,
    w: WorkflowModel,
    t: TaskModel,
    now: i64,
)
    ensures
        m.recover(run, WorkflowModel { tasks: w.tasks.push(t), ..w }, now) == m.recover(
            run,
            w,
            now,
        ).recover_task(run, t, now),
        ({
            let start = m.recover(run, WorkflowModel { tasks: Seq::empty(), ..w }, now);
            &&& start.attempts.len() == m.attempts.len()
            &&& forall|j: int|
                0 <= j < m.attempts.len() ==> {
                    let a = m.attempts[j];
                    let b = #[trigger] start.attempts[j];
                    if a.run_id == run && a.attempt.status == "running"@ {
                        &&& b.run_id == run
                        &&& b.attempt.task_id == a.attempt.task_id && b.attempt.number
                            == a.attempt.number && b.attempt.started_at == a.attempt.started_at
                        &&& b.attempt.status == "interrupted"@
                        &&& b.attempt.finished_at == Some(now)
                        &&& b.attempt.error == Some("Kordrel interrompu"@)
                    } else {
                        b == a
                    }
                }
            &&& start.runs == m.runs && start.tasks == m.tasks && start.events == m.events
                && start.last_event == m.last_event && same_log(m, start)
        }),
{
    let longer = w.tasks.push(t);
    let start = m.recover(run, WorkflowModel { tasks: Seq::empty(), ..w }, now);
    lemma_same_prefix(start, run, w.tasks, longer, w.tasks.len(), now);
}

proof fn lemma_same_prefix(
    m: DbModel,
    run: Seq<char>,
    tasks: Seq<TaskModel>,
    longer: Seq<TaskModel>,
    k: nat,
    now: i64,
)
    requires
        k <= tasks.len(),
        tasks.is_prefix_of(longer),
    ensures
        m.recover_tasks(run, tasks, k, now) == m.recover_tasks(run, longer, k, now),
    decreases k,
{
    if k > 0 {
        lemma_same_prefix(m, run, tasks, longer, (k - 1) as nat, now);
        assert(tasks[k - 1] == longer[k - 1]);
    }
}

/// What recovery makes of a task, all at once: see [`law_recovering_a_task`].
pub proof fn law_recovered_tasks(m: DbModel, run: Seq<char>, w: WorkflowModel, now: i64, i: int)
    requires
        m.well_formed(),
        m.covers(run, w),
        w.distinct(),
        m.room(w.tasks.len() as int),
        0 <= i < w.tasks.len(),
    ensures
        ({
            let t = state_of(m, run, w, i);
            let u = state_of(m.recover(run, w, now), run, w, i);
            let under_way = t.status == "running"@ || t.status == "retrying"@ || t.status
                == "queued"@;
            let spent = t.attempts >= w.tasks[i].budget();
            &&& u.id == t.id && u.attempts == t.attempts && u.started_at == t.started_at
            &&& !under_way && !(t.status == "pending"@ && spent) ==> u == t
            &&& (under_way || t.status == "pending"@) && spent ==> u.status == "failed"@
                && u.finished_at == Some(now) && u.error == Some(
                "budget de tentatives épuisé après interruption"@,
            )
            &&& under_way && !spent ==> u.status == "pending"@ && u.finished_at is None && u.error
                == Some("tentative interrompue, reprise autorisée"@)
        }),
{
    lemma_statuses();
    lemma_recover_effect(m, run, w, now);
    assert(m.recover(run, w, now).task(run, w.tasks[i].id) is Some);
}

/// Nothing is recorded at first.
pub proof fn law_nothing_is_recorded_at_first(run: Seq<char>)
    ensures
        DbModel::empty().detail(run) is None,
        DbModel::empty().runs.len() == 0,
        DbModel::empty().tasks.len() == 0,
        DbModel::empty().attempts.len() == 0,
        DbModel::empty().logs.len() == 0,
        DbModel::empty().events.len() == 0,
        DbModel::empty().last_event == 0,
        DbModel::empty().last_log == 0,
{
}

/// A refused operation says what stands against it.
pub proof fn law_refused_operations_say_why()
    ensures
        DbError::RunExists.text() == "UNIQUE constraint failed: runs.id"@,
        DbError::TaskExists.text() == "UNIQUE constraint failed: tasks.run_id, tasks.id"@,
        DbError::NoSuchTask.text() == "Query returned no rows"@,
        DbError::AttemptExists.text()
            == "UNIQUE constraint failed: attempts.run_id, attempts.task_id, attempts.number"@,
        DbError::TooManyAttempts.text()
            == "Invalid column type Real at index: 0, name: attempts"@,
        DbError::Inconsistent.text() == "lignes incohérentes dans la base"@,
{
}

/// Rows fit together exactly where no two runs share an identifier, no two tasks of
/// a run and no two attempts at a task share theirs, every task belongs to a
/// recorded run, and the identifiers of log lines and of events are positive, rise,
/// and do not exceed the last that was given.
pub proof fn law_which_rows_fit_together(m: DbModel)
    ensures
        m.well_formed() <==> {
            &&& forall|i: int, j: int|
                0 <= i < j < m.runs.len() ==> (#[trigger] m.runs[i]).run.id != (
                #[trigger] m.runs[j]).run.id
            &&& forall|i: int, j: int|
                0 <= i < j < m.tasks.len() && (#[trigger] m.tasks[i]).run_id == (
                #[trigger] m.tasks[j]).run_id ==> m.tasks[i].task.id != m.tasks[j].task.id
            &&& forall|i: int, j: int|
                0 <= i < j < m.attempts.len() && (#[trigger] m.attempts[i]).run_id == (
                #[trigger] m.attempts[j]).run_id && m.attempts[i].attempt.task_id
                    == m.attempts[j].attempt.task_id ==> m.attempts[i].attempt.number
                    != m.attempts[j].attempt.number
            &&& forall|i: int|
                0 <= i < m.tasks.len() ==> m.detail((#[trigger] m.tasks[i]).run_id) is Some
            &&& forall|i: int, j: int|
                0 <= i < j < m.logs.len() ==> (#[trigger] m.logs[i]).log.id < (
                #[trigger] m.logs[j]).log.id
            &&& forall|i: int|
                0 <= i < m.logs.len() ==> 1 <= (#[trigger] m.logs[i]).log.id <= m.last_log
            &&& forall|i: int, j: int|
                0 <= i < j < m.events.len() ==> (#[trigger] m.events[i]).id < (
                #[trigger] m.events[j]).id
            &&& forall|i: int|
                0 <= i < m.events.len() ==> 1 <= (#[trigger] m.events[i]).id <= m.last_event
            &&& m.last_log >= 0
            &&& m.last_event >= 0
        },
{
    assert forall|i: int| 0 <= i < m.tasks.len() implies m.has_run((#[trigger] m.tasks[i]).run_id)
        == m.detail(m.tasks[i].run_id) is Some by {
        law_runs_are_known_by_their_rows(m, m.tasks[i].run_id);
    }
}

} // verus!
