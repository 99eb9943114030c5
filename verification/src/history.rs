//! What the operations on the record promise together: they touch one run, they
//! only add to its history, and what was written reads back.

use crate::lifecycle::{
    counted, is_counted, lemma_finish_effect, lemma_patch_effect, lemma_set_task_effect,
    lemma_start_effect, lemma_stays_counted,
};
use crate::model::{
    attempts_interrupted, events_of, logs_of, needs_recovery, new_attempt, new_tasks,
    recovery_patch, DbModel,
};
use crate::records::{AttemptRecord, EventModel, LogModel, LogRecord, RunRecord, TaskRecord};
use crate::recovery::lemma_state_append;
use crate::workflow::{TaskModel, WorkflowModel};
use vstd::prelude::*;

verus! {

/// An operation on the record of a run.
pub enum Operation {
    CreateRun(WorkflowModel, Seq<char>, usize),
    SetRun(Seq<char>),
    SetTask(Seq<char>, Seq<char>, Option<Seq<char>>),
    StartAttempt(Seq<char>),
    FinishAttempt(Seq<char>, i64, Seq<char>, Option<Seq<char>>),
    Log(Seq<char>, i64, Seq<char>, Seq<char>),
    Recover(WorkflowModel),
}

/// The recorded state after an operation.
pub open spec fn applied(m: DbModel, run: Seq<char>, op: Operation, now: i64) -> DbModel {
    match op {
        Operation::CreateRun(w, dir, n) => m.create_run(run, w, dir, n, now),
        Operation::SetRun(status) => m.set_run(run, status, now),
        Operation::SetTask(task, status, error) => m.set_task(run, task, status, error, now),
        Operation::StartAttempt(task) => m.start_attempt(run, task, now),
        Operation::FinishAttempt(task, n, status, error) => m.finish_attempt(
            run,
            task,
            n,
            status,
            error,
            now,
        ),
        Operation::Log(task, n, stream, line) => m.log(run, task, n, stream, line, now),
        Operation::Recover(w) => m.recover(run, w, now),
    }
}

/// Nothing of another run has changed, no row has gone, what identifies a run
/// has stayed, and events and log lines were only added, at the end and for this
/// run.
pub open spec fn touches_only(m: DbModel, after: DbModel, run: Seq<char>) -> bool {
    &&& m.runs.len() <= after.runs.len()
    &&& forall|j: int|
        0 <= j < m.runs.len() ==> run_kept(m.runs[j], #[trigger] after.runs[j], run)
    &&& forall|j: int|
        m.runs.len() <= j < after.runs.len() ==> (#[trigger] after.runs[j]).run.id == run
    &&& m.tasks.len() <= after.tasks.len()
    &&& forall|j: int|
        0 <= j < m.tasks.len() ==> task_kept(m.tasks[j], #[trigger] after.tasks[j], run)
    &&& forall|j: int|
        m.tasks.len() <= j < after.tasks.len() ==> (#[trigger] after.tasks[j]).run_id == run
    &&& m.attempts.len() <= after.attempts.len()
    &&& forall|j: int|
        0 <= j < m.attempts.len() ==> attempt_kept(
            m.attempts[j],
            #[trigger] after.attempts[j],
            run,
        )
    &&& forall|j: int|
        m.attempts.len() <= j < after.attempts.len() ==> (#[trigger] after.attempts[j]).run_id
            == run
    &&& m.logs.len() <= after.logs.len()
    &&& forall|j: int| 0 <= j < m.logs.len() ==> #[trigger] after.logs[j] == m.logs[j]
    &&& forall|j: int|
        m.logs.len() <= j < after.logs.len() ==> (#[trigger] after.logs[j]).run_id == run
    &&& m.events.len() <= after.events.len()
    &&& forall|j: int| 0 <= j < m.events.len() ==> #[trigger] after.events[j] == m.events[j]
    &&& forall|j: int|
        m.events.len() <= j < after.events.len() ==> (#[trigger] after.events[j]).run_id == run
}

/// The row of a run, and what of it may change.
pub open spec fn run_kept(before: RunRecord, after: RunRecord, run: Seq<char>) -> bool {
    &&& before.run.id != run ==> after == before
    &&& after.run.id == before.run.id
    &&& after.run.name == before.run.name
    &&& after.run.created_at == before.run.created_at
    &&& after.workflow == before.workflow
    &&& after.source_dir == before.source_dir
    &&& after.max_parallel == before.max_parallel
}

/// The row of a task, and what of it may change.
pub open spec fn task_kept(before: TaskRecord, after: TaskRecord, run: Seq<char>) -> bool {
    &&& before.run_id != run ==> after == before
    &&& after.run_id == before.run_id
    &&& after.task.id == before.task.id
}

/// The row of an attempt, and what of it may change.
pub open spec fn attempt_kept(before: AttemptRecord, after: AttemptRecord, run: Seq<char>) -> bool {
    &&& before.run_id != run ==> after == before
    &&& after.run_id == before.run_id
    &&& after.attempt.task_id == before.attempt.task_id
    &&& after.attempt.number == before.attempt.number
    &&& after.attempt.started_at == before.attempt.started_at
}

proof fn lemma_touches_through(a: DbModel, b: DbModel, c: DbModel, run: Seq<char>)
    requires
        touches_only(a, b, run),
        touches_only(b, c, run),
    ensures
        touches_only(a, c, run),
{
    assert forall|j: int| 0 <= j < a.runs.len() implies run_kept(
        a.runs[j],
        #[trigger] c.runs[j],
        run,
    ) by {
        assert(run_kept(a.runs[j], b.runs[j], run));
    }
    assert forall|j: int| a.runs.len() <= j < c.runs.len() implies (#[trigger] c.runs[j]).run.id
        == run by {
        if j < b.runs.len() {
            assert(b.runs[j].run.id == run);
            assert(run_kept(b.runs[j], c.runs[j], run));
        }
    }
    assert forall|j: int| 0 <= j < a.tasks.len() implies task_kept(
        a.tasks[j],
        #[trigger] c.tasks[j],
        run,
    ) by {
        assert(task_kept(a.tasks[j], b.tasks[j], run));
    }
    assert forall|j: int| a.tasks.len() <= j < c.tasks.len() implies (#[trigger] c.tasks[j]).run_id
        == run by {
        if j < b.tasks.len() {
            assert(b.tasks[j].run_id == run);
            assert(task_kept(b.tasks[j], c.tasks[j], run));
        }
    }
    assert forall|j: int| 0 <= j < a.attempts.len() implies attempt_kept(
        a.attempts[j],
        #[trigger] c.attempts[j],
        run,
    ) by {
        assert(attempt_kept(a.attempts[j], b.attempts[j], run));
    }
    assert forall|j: int| a.attempts.len() <= j < c.attempts.len() implies (
    #[trigger] c.attempts[j]).run_id == run by {
        if j < b.attempts.len() {
            assert(b.attempts[j].run_id == run);
            assert(attempt_kept(b.attempts[j], c.attempts[j], run));
        }
    }
    assert forall|j: int| 0 <= j < a.logs.len() implies #[trigger] c.logs[j] == a.logs[j] by {
        assert(b.logs[j] == a.logs[j]);
    }
    assert forall|j: int| a.logs.len() <= j < c.logs.len() implies (#[trigger] c.logs[j]).run_id
        == run by {
        if j < b.logs.len() {
            assert(b.logs[j].run_id == run);
        }
    }
    assert forall|j: int| 0 <= j < a.events.len() implies #[trigger] c.events[j]
        == a.events[j] by {
        assert(b.events[j] == a.events[j]);
    }
    assert forall|j: int| a.events.len() <= j < c.events.len() implies (
    #[trigger] c.events[j]).run_id == run by {
        if j < b.events.len() {
            assert(b.events[j].run_id == run);
        }
    }
}

proof fn lemma_recovery_touches(
    m: DbModel,
    run: Seq<char>,
    tasks: Seq<TaskModel>,
    k: nat,
    now: i64,
)
    ensures
        touches_only(m, m.recover_tasks(run, tasks, k, now), run),
    decreases k,
{
    if k > 0 {
        let before = m.recover_tasks(run, tasks, (k - 1) as nat, now);
        lemma_recovery_touches(m, run, tasks, (k - 1) as nat, now);
        let after = before.recover_task(run, tasks[k - 1], now);
        assert(touches_only(before, after, run));
        lemma_touches_through(m, before, after, run);
    }
}

/// An operation touches the run that it is for, and only adds to the history:
/// events and log lines that were recorded stay as they are.
pub proof fn law_operations_touch_one_run(m: DbModel, run: Seq<char>, op: Operation, now: i64)
    ensures
        touches_only(m, applied(m, run, op, now), run),
{
    let after = applied(m, run, op, now);
    match op {
        Operation::Recover(w) => {
            let start = DbModel {
                attempts: attempts_interrupted(m.attempts, run, now),
                ..m
            };
            assert(touches_only(m, start, run));
            lemma_recovery_touches(start, run, w.tasks, w.tasks.len(), now);
            lemma_touches_through(m, start, after, run);
        },
        _ => {},
    }
}

/// The counters of attempts are what they were, for every task.
spec fn same_counters(m: DbModel, after: DbModel) -> bool {
    forall|r: Seq<char>, id: Seq<char>| (#[trigger] m.task(r, id)) is Some ==> after.task(r, id)
        is Some && after.task(r, id)->0.attempts == m.task(r, id)->0.attempts
}

proof fn lemma_recovery_keeps_counters(
    m: DbModel,
    run: Seq<char>,
    tasks: Seq<TaskModel>,
    k: nat,
    now: i64,
)
    ensures
        same_counters(m, m.recover_tasks(run, tasks, k, now)),
    decreases k,
{
    if k > 0 {
        let before = m.recover_tasks(run, tasks, (k - 1) as nat, now);
        lemma_recovery_keeps_counters(m, run, tasks, (k - 1) as nat, now);
        let t = tasks[k - 1];
        let after = m.recover_tasks(run, tasks, k, now);
        let patch = recovery_patch(
            before.task(run, t.id)->0.attempts as int,
            t.budget(),
            now,
        );
        lemma_patch_effect(before, run, t.id, patch);
        assert forall|r: Seq<char>, id: Seq<char>| (
        #[trigger] m.task(r, id)) is Some implies after.task(r, id) is Some && after.task(
            r,
            id,
        )->0.attempts == m.task(r, id)->0.attempts by {
            assert(before.task(r, id) is Some);
            if needs_recovery(before.task(run, t.id)->0, t.budget()) {
                assert(after.task(r, id) == before.with_patch(run, t.id, patch).task(r, id));
            }
        }
    }
}

proof fn lemma_recovery_keeps_attempts(
    m: DbModel,
    run: Seq<char>,
    tasks: Seq<TaskModel>,
    k: nat,
    now: i64,
)
    ensures
        m.recover_tasks(run, tasks, k, now).attempts == m.attempts,
    decreases k,
{
    if k > 0 {
        lemma_recovery_keeps_attempts(m, run, tasks, (k - 1) as nat, now);
    }
}

/// Every attempt belongs to a recorded task and counts among its attempts: no
/// operation breaks that. So the number of a new attempt is always free.
pub proof fn law_attempts_stay_counted(m: DbModel, run: Seq<char>, op: Operation, now: i64)
    requires
        m.well_formed(),
        m.room(2),
        counted(m),
        op matches Operation::StartAttempt(task) ==> m.next_attempt(run, task) is Ok,
    ensures
        counted(applied(m, run, op, now)),
        op matches Operation::StartAttempt(task) ==> !m.has_attempt(
            run,
            task,
            (m.task(run, task)->0.attempts + 1) as i64,
        ),
{
    let after = applied(m, run, op, now);
    match op {
        Operation::CreateRun(w, _, _) => {
            assert forall|j: int| 0 <= j < after.attempts.len() implies is_counted(
                after,
                #[trigger] after.attempts[j],
            ) by {
                let a = m.attempts[j];
                assert(is_counted(m, a));
                lemma_state_append(m.tasks, new_tasks(run, w), a.run_id, a.attempt.task_id);
            }
        },
        Operation::SetTask(task, status, error) => {
            lemma_set_task_effect(m, run, task, status, error, now);
            lemma_stays_counted(m, after);
        },
        Operation::StartAttempt(task) => {
            lemma_start_effect(m, run, task, now);
            let number = (m.task(run, task)->0.attempts + 1) as i64;
            assert forall|j: int| 0 <= j < after.attempts.len() implies is_counted(
                after,
                #[trigger] after.attempts[j],
            ) by {
                if j < m.attempts.len() {
                    assert(is_counted(m, m.attempts[j]));
                } else {
                    assert(after.attempts[j] == new_attempt(run, task, number, now));
                }
            }
        },
        Operation::FinishAttempt(task, n, status, error) => {
            lemma_finish_effect(m, run, task, n, status, error, now);
            lemma_stays_counted(m, after);
        },
        Operation::Recover(w) => {
            let start = DbModel {
                attempts: attempts_interrupted(m.attempts, run, now),
                ..m
            };
            lemma_recovery_keeps_counters(start, run, w.tasks, w.tasks.len(), now);
            lemma_recovery_touches(start, run, w.tasks, w.tasks.len(), now);
            lemma_recovery_keeps_attempts(start, run, w.tasks, w.tasks.len(), now);
            assert forall|r: Seq<char>, id: Seq<char>| (#[trigger] m.task(r, id)) is Some
                implies after.task(r, id) is Some && after.task(r, id)->0.attempts >= m.task(
                r,
                id,
            )->0.attempts by {
                assert(start.task(r, id) is Some);
            }
            lemma_stays_counted(m, after);
        },
        _ => {
            assert forall|j: int| 0 <= j < after.attempts.len() implies is_counted(
                after,
                #[trigger] after.attempts[j],
            ) by {
                assert(is_counted(m, m.attempts[j]));
            }
        },
    }
}

// ---------------------------------------------------------------------------
// Reading back
// ---------------------------------------------------------------------------

/// A line that was logged reads back at the end of the log of its run and of its
/// task, and in no other.
pub proof fn law_logged_lines_read_back(
    m: DbModel,
    run: Seq<char>,
    task: Seq<char>,
    attempt: i64,
    stream: Seq<char>,
    line: Seq<char>,
    now: i64,
    other_run: Seq<char>,
    other: Option<Seq<char>>,
)
    ensures
        ({
            let after = m.log(run, task, attempt, stream, line, now);
            let added = LogModel {
                id: (m.last_log + 1) as i64,
                task_id: task,
                attempt,
                stream,
                line,
                created_at: now,
            };
            logs_of(after.logs, other_run, other) == if other_run == run && (other is None || other
                == Some(task)) {
                logs_of(m.logs, other_run, other).push(added)
            } else {
                logs_of(m.logs, other_run, other)
            }
        }),
{
    let after = m.log(run, task, attempt, stream, line, now);
    let p = |r: LogRecord|
        r.run_id == other_run && (other is None || other == Some(r.log.task_id));
    let f = |r: LogRecord| r.log;
    let row = after.logs.last();
    assert(after.logs == m.logs.push(row));
    m.logs.lemma_filter_push(row, p);
    if p(row) {
        assert(m.logs.filter(p).push(row).map_values(f) =~= m.logs.filter(p).map_values(f).push(
            row.log,
        ));
    }
}

/// A new event comes behind all that a reader of its run has seen, and no reader
/// of another run sees it.
pub proof fn law_new_events_come_last(
    m: DbModel,
    run: Seq<char>,
    kind: Seq<char>,
    payload: Seq<char>,
    now: i64,
    other_run: Seq<char>,
    after: int,
)
    requires
        m.well_formed(),
        m.room(1),
        after <= m.last_event,
    ensures
        ({
            let added = EventModel {
                id: (m.last_event + 1) as i64,
                run_id: run,
                kind,
                payload,
                created_at: now,
            };
            events_of(m.with_event(run, kind, payload, now).events, other_run, after)
                == if other_run == run {
                events_of(m.events, other_run, after).push(added)
            } else {
                events_of(m.events, other_run, after)
            }
        }),
{
    let p = |e: EventModel| e.run_id == other_run && e.id > after;
    let next = m.with_event(run, kind, payload, now);
    let row = next.events.last();
    assert(next.events == m.events.push(row));
    m.events.lemma_filter_push(row, p);
}

} // verus!
