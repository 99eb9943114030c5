//! What the recorded times promise, as long as the clock does not go back.

use crate::lifecycle::{
    is_open, law_steps_keep_soundness, lemma_active_after_decision, lemma_budget_positive,
    lemma_moved, lemma_statuses, lemma_step_state, lemma_without, met, record_sound, state_of,
    task_sound, under_way, RunState, Step,
};
use crate::model::{is_attempt, waiting_task, DbModel};
use crate::paths::{
    arrival, follows, law_first_start_is_final, law_soundness_along_steps,
    law_success_is_final_along_steps,
};
use crate::records::{AttemptRecord, TaskState};
use crate::recovery::{
    is_row_of, law_recovery, law_success_is_final, lemma_recover_effect, lemma_set_run_sound,
    recovered, started, untouched,
};
use crate::scheduler::{ids, ready, refusal, scheduler_of};
use crate::workflow::{TaskModel, WorkflowModel};
use vstd::prelude::*;

verus! {

// ---------------------------------------------------------------------------
// Times of a record
// ---------------------------------------------------------------------------

/// The attempt at the task succeeded, and ended no later than `at`.
pub open spec fn is_success(a: AttemptRecord, run: Seq<char>, task: Seq<char>, at: int) -> bool {
    &&& is_row_of(a, run, task)
    &&& a.attempt.status == "success"@
    &&& a.attempt.finished_at is Some
    &&& a.attempt.finished_at->0 <= at
}

/// Some attempt at the task succeeded, and ended no later than `at`.
pub open spec fn succeeded_by(
    rows: Seq<AttemptRecord>,
    run: Seq<char>,
    task: Seq<char>,
    at: int,
) -> bool {
    exists|j: int| 0 <= j < rows.len() && is_success(#[trigger] rows[j], run, task, at)
}

/// Each dependency of the task had an attempt that succeeded no later than `at`.
pub open spec fn met_by(
    rows: Seq<AttemptRecord>,
    run: Seq<char>,
    t: TaskModel,
    at: int,
) -> bool {
    forall|k: int|
        0 <= k < t.dependencies.len() ==> succeeded_by(rows, run, #[trigger] t.dependencies[k], at)
}

/// The statuses of a task that is over.
pub open spec fn is_over(status: Seq<char>) -> bool {
    status == "success"@ || status == "failed"@ || status == "blocked"@
}

/// The times of a task, up to now: it has a start exactly if it was tried, and an
/// end exactly if it is over; it started before it ended; where it succeeded, an
/// attempt did; and it did not start before an attempt at each of its
/// dependencies had succeeded.
pub open spec fn task_timed(
    m: DbModel,
    run: Seq<char>,
    w: WorkflowModel,
    i: int,
    clock: int,
) -> bool {
    let t = state_of(m, run, w, i);
    &&& t.started_at is Some <==> t.attempts > 0
    &&& t.finished_at is Some <==> is_over(t.status)
    &&& t.started_at is Some ==> t.started_at->0 <= clock
    &&& t.finished_at is Some ==> t.finished_at->0 <= clock
    &&& t.started_at is Some && t.finished_at is Some ==> t.started_at->0 <= t.finished_at->0
    &&& t.status == "success"@ ==> succeeded_by(m.attempts, run, w.tasks[i].id, clock)
    &&& t.started_at is Some ==> met_by(m.attempts, run, w.tasks[i], t.started_at->0 as int)
}

/// The times of all tasks of a run, up to now.
pub open spec fn record_timed(m: DbModel, run: Seq<char>, w: WorkflowModel, clock: int) -> bool {
    forall|i: int| 0 <= i < w.tasks.len() ==> #[trigger] task_timed(m, run, w, i, clock)
}

// ---------------------------------------------------------------------------
// One task at a time
// ---------------------------------------------------------------------------

/// The task is being worked on, or was cut short.
pub open spec fn unfinished(t: TaskState) -> bool {
    under_way(t.status) || t.status == "pending"@ && t.attempts > 0
}

/// One of two tasks ended no later than the other started.
pub open spec fn apart(t: TaskState, u: TaskState) -> bool {
    ||| t.finished_at is Some && t.finished_at->0 <= u.started_at->0
    ||| u.finished_at is Some && u.finished_at->0 <= t.started_at->0
}

/// What holds of two tasks where one runs at a time: not both are unfinished,
/// nothing that stands before an unfinished task may be launched, and where both
/// have started, one ended no later than the other started.
pub open spec fn pair_apart(m: DbModel, run: Seq<char>, w: WorkflowModel, i: int, j: int) -> bool {
    let t = state_of(m, run, w, i);
    let u = state_of(m, run, w, j);
    &&& i != j ==> !(unfinished(t) && unfinished(u))
    &&& i < j && unfinished(u) ==> !ready(m, run, w.tasks[i])
    &&& i != j && t.started_at is Some && u.started_at is Some ==> apart(t, u)
    &&& w.tasks[j].dependencies.contains(w.tasks[i].id) && u.started_at is Some
        ==> t.finished_at is Some && t.finished_at->0 <= u.started_at->0
}

/// The tasks of a run went one at a time.
pub open spec fn one_at_a_time(m: DbModel, run: Seq<char>, w: WorkflowModel) -> bool {
    forall|i: int, j: int|
        0 <= i < w.tasks.len() && 0 <= j < w.tasks.len() ==> #[trigger] pair_apart(m, run, w, i, j)
}

impl RunState {
    /// What holds of an active task where one runs at a time: every other task
    /// that has started ended no later than the active one started, and nothing
    /// that depends on it has started.
    pub open spec fn leads(self, i: int, j: int) -> bool {
        let t = self.state(i);
        let u = self.state(j);
        self.is_active(i) && u.started_at is Some ==> {
            &&& i != j ==> u.finished_at is Some && (t.started_at is Some ==> u.finished_at->0
                <= t.started_at->0)
            &&& !self.task(j).dependencies.contains(self.task(i).id)
        }
    }

    /// What holds of the times of a run that is under way.
    pub open spec fn timed(self, clock: int) -> bool {
        let s = self.scheduler;
        &&& record_timed(self.db, s.run, s.workflow, clock)
        &&& s.limit == 1 ==> one_at_a_time(self.db, s.run, s.workflow) && forall|i: int, j: int|
            0 <= i < s.workflow.tasks.len() && 0 <= j < s.workflow.tasks.len()
                ==> #[trigger] self.leads(i, j)
    }
}

// ---------------------------------------------------------------------------
// Steps keep the times
// ---------------------------------------------------------------------------

/// The attempts that succeeded stay.
spec fn successes_stay(rows: Seq<AttemptRecord>, after: Seq<AttemptRecord>) -> bool {
    forall|j: int|
        0 <= j < rows.len() && (#[trigger] rows[j]).attempt.status == "success"@ ==> j
            < after.len() && after[j] == rows[j]
}

proof fn lemma_succeeded_stays(
    rows: Seq<AttemptRecord>,
    after: Seq<AttemptRecord>,
    run: Seq<char>,
    task: Seq<char>,
    at: int,
    later: int,
)
    requires
        successes_stay(rows, after),
        at <= later,
        succeeded_by(rows, run, task, at),
    ensures
        succeeded_by(after, run, task, later),
{
    let j = choose|j: int| 0 <= j < rows.len() && is_success(#[trigger] rows[j], run, task, at);
    assert(is_success(after[j], run, task, later));
}

proof fn lemma_met_stays(
    rows: Seq<AttemptRecord>,
    after: Seq<AttemptRecord>,
    run: Seq<char>,
    t: TaskModel,
    at: int,
)
    requires
        successes_stay(rows, after),
        met_by(rows, run, t, at),
    ensures
        met_by(after, run, t, at),
{
    assert forall|k: int| 0 <= k < t.dependencies.len() implies succeeded_by(
        after,
        run,
        #[trigger] t.dependencies[k],
        at,
    ) by {
        lemma_succeeded_stays(rows, after, run, t.dependencies[k], at, at);
    }
}

/// A step leaves the attempts that succeeded.
proof fn lemma_step_successes(st: RunState, step: Step, now: i64)
    requires
        st.sound(),
        st.legal(step),
    ensures
        successes_stay(st.db.attempts, st.next_attempts(step, now)),
{
    lemma_statuses();
    let rows = st.db.attempts;
    let run = st.scheduler.run;
    if let Step::End(i, _) = step {
        let id = st.task(i).id;
        let number = st.state(i).attempts;
        let open = choose|j: int| 0 <= j < rows.len() && is_open(#[trigger] rows[j], run, id);
        assert(st.attempt_tracked(i, open));
        assert forall|j: int|
            0 <= j < rows.len() && (#[trigger] rows[j]).attempt.status
                == "success"@ implies st.next_attempts(step, now)[j] == rows[j] by {
            if is_attempt(rows[j], run, id, number) {
                if j < open {
                    assert(!is_attempt(
                        rows[j],
                        rows[open].run_id,
                        rows[open].attempt.task_id,
                        rows[open].attempt.number,
                    ));
                } else if open < j {
                    assert(!is_attempt(
                        rows[open],
                        rows[j].run_id,
                        rows[j].attempt.task_id,
                        rows[j].attempt.number,
                    ));
                }
            }
        }
    }
}

/// Where every dependency of a task has succeeded, an attempt at each has.
proof fn lemma_met_by(m: DbModel, run: Seq<char>, w: WorkflowModel, i: int, clock: int)
    requires
        record_sound(m, run, w),
        record_timed(m, run, w, clock),
        0 <= i < w.tasks.len(),
        met(m, run, w.tasks[i]),
    ensures
        met_by(m.attempts, run, w.tasks[i], clock),
{
    let t = w.tasks[i];
    assert forall|k: int| 0 <= k < t.dependencies.len() implies succeeded_by(
        m.attempts,
        run,
        #[trigger] t.dependencies[k],
        clock,
    ) by {
        assert(w.knows(w.tasks[i].dependencies[k]));
        let d = choose|d: int|
            0 <= d < w.tasks.len() && #[trigger] w.tasks[d].id == t.dependencies[k];
        assert(task_timed(m, run, w, d, clock));
    }
}

proof fn lemma_step_times(st: RunState, step: Step, now: i64, clock: int)
    requires
        st.sound(),
        st.legal(step),
        record_timed(st.db, st.scheduler.run, st.scheduler.workflow, clock),
        clock <= now,
    ensures
        record_timed(
            st.after(step, now).db,
            st.scheduler.run,
            st.scheduler.workflow,
            now as int,
        ),
{
    lemma_statuses();
    let m = st.db;
    let s = st.scheduler;
    let run = s.run;
    let w = s.workflow;
    let after = st.after(step, now).db;
    lemma_step_successes(st, step, now);
    lemma_moved(s, m, st.cancelled);
    assert forall|i: int| 0 <= i < w.tasks.len() implies #[trigger] task_timed(
        after,
        run,
        w,
        i,
        now as int,
    ) by {
        let t = st.state(i);
        let u = st.next_state(step, now, i);
        lemma_step_state(st, step, now, i);
        assert(task_timed(m, run, w, i, clock));
        assert(task_sound(m, run, w, i));
        lemma_budget_positive(w, i);
        if t.status == "success"@ {
            lemma_succeeded_stays(
                m.attempts,
                after.attempts,
                run,
                w.tasks[i].id,
                clock,
                now as int,
            );
        }
        if t.started_at is Some {
            lemma_met_stays(
                m.attempts,
                after.attempts,
                run,
                w.tasks[i],
                t.started_at->0 as int,
            );
        } else if u.started_at is Some {
            lemma_met_by(m, run, w, i, clock);
            assert forall|k: int| 0 <= k < w.tasks[i].dependencies.len() implies succeeded_by(
                after.attempts,
                run,
                #[trigger] w.tasks[i].dependencies[k],
                now as int,
            ) by {
                lemma_succeeded_stays(
                    m.attempts,
                    after.attempts,
                    run,
                    w.tasks[i].dependencies[k],
                    clock,
                    now as int,
                );
            }
        }
        if let Step::End(j, result) = step {
            let id = st.task(j).id;
            let open = choose|k: int|
                0 <= k < m.attempts.len() && is_open(#[trigger] m.attempts[k], run, id);
            assert(st.attempt_tracked(j, open));
            if j == i && result is Success {
                assert(is_success(after.attempts[open], run, id, now as int));
            }
        }
    }
}

/// A task that may be launched after a change could be before it, where no task
/// came to wait and none came to succeed.
proof fn lemma_ready_before(m: DbModel, after: DbModel, run: Seq<char>, w: WorkflowModel, i: int)
    requires
        w.valid(),
        0 <= i < w.tasks.len(),
        forall|d: int|
            0 <= d < w.tasks.len() && (#[trigger] state_of(after, run, w, d)).status
                == "success"@ ==> state_of(m, run, w, d).status == "success"@,
        state_of(after, run, w, i).status == "pending"@ ==> state_of(m, run, w, i).status
            == "pending"@,
        ready(after, run, w.tasks[i]),
    ensures
        ready(m, run, w.tasks[i]),
{
    let t = w.tasks[i];
    assert(state_of(after, run, w, i).status == "pending"@);
    assert forall|k: int| 0 <= k < t.dependencies.len() implies m.status(
        run,
        #[trigger] t.dependencies[k],
    ) == "success"@ by {
        assert(after.status(run, t.dependencies[k]) == "success"@);
        assert(w.knows(w.tasks[i].dependencies[k]));
        let d = choose|d: int|
            0 <= d < w.tasks.len() && #[trigger] w.tasks[d].id == t.dependencies[k];
        assert(state_of(after, run, w, d).status == "success"@);
    }
}

/// A task that has started and is not over is unfinished.
pub proof fn lemma_unfinished(m: DbModel, run: Seq<char>, w: WorkflowModel, i: int, clock: int)
    requires
        record_sound(m, run, w),
        record_timed(m, run, w, clock),
        0 <= i < w.tasks.len(),
    ensures
        state_of(m, run, w, i).started_at is Some && state_of(m, run, w, i).finished_at is None
            ==> unfinished(state_of(m, run, w, i)),
        unfinished(state_of(m, run, w, i)) ==> state_of(m, run, w, i).finished_at is None && met(
            m,
            run,
            w.tasks[i],
        ),
{
    lemma_statuses();
    assert(task_sound(m, run, w, i));
    assert(task_timed(m, run, w, i, clock));
}

/// Where one task runs at a time, no two are active.
pub proof fn lemma_one_active(st: RunState, i: int, j: int)
    requires
        st.sound(),
        st.scheduler.limit == 1,
        0 <= i < st.scheduler.workflow.tasks.len(),
        0 <= j < st.scheduler.workflow.tasks.len(),
        st.is_active(i),
        st.is_active(j),
    ensures
        i == j,
{
    let w = st.scheduler.workflow;
    let a = st.scheduler.active.index_of(w.tasks[i].id);
    let b = st.scheduler.active.index_of(w.tasks[j].id);
    assert(w.tasks[i].id == w.tasks[j].id);
}

/// The first element that a filter keeps, and that it keeps none before it.
proof fn lemma_filter_first(s: Seq<TaskModel>, p: spec_fn(TaskModel) -> bool) -> (c: int)
    requires
        s.filter(p).len() > 0,
    ensures
        0 <= c < s.len(),
        s.filter(p)[0] == s[c],
        p(s[c]),
        forall|i: int| 0 <= i < c ==> !p(#[trigger] s[i]),
    decreases s.len(),
{
    reveal(Seq::filter);
    let head = s.drop_last();
    if head.filter(p).len() > 0 {
        let c = lemma_filter_first(head, p);
        assert forall|i: int| 0 <= i < c implies !p(#[trigger] s[i]) by {
            assert(!p(head[i]));
        }
        c
    } else {
        assert forall|i: int| 0 <= i < s.len() - 1 implies !p(#[trigger] s[i]) by {
            if p(s[i]) {
                assert(p(head[i]));
                head.lemma_filter_contains(p, i);
            }
        }
        s.len() - 1
    }
}

/// Where one task runs at a time, the task that is launched is the one that was
/// cut short, if there is one.
proof fn lemma_launched(st: RunState, clock: int) -> (c: int)
    requires
        st.sound(),
        st.scheduler.limit == 1,
        record_timed(st.db, st.scheduler.run, st.scheduler.workflow, clock),
        one_at_a_time(st.db, st.scheduler.run, st.scheduler.workflow),
        st.scheduler.action(st.db, st.cancelled) is Launch,
    ensures
        0 <= c < st.scheduler.workflow.tasks.len(),
        st.scheduler.active.len() == 0,
        ready(st.db, st.scheduler.run, st.task(c)),
        forall|i: int|
            0 <= i < st.scheduler.workflow.tasks.len() ==> (ids(
                st.scheduler.moved(st.db, st.cancelled),
            ).contains((#[trigger] st.scheduler.workflow.tasks[i]).id) <==> i == c),
        forall|i: int|
            0 <= i < c ==> !ready(
                st.db,
                st.scheduler.run,
                #[trigger] st.scheduler.workflow.tasks[i],
            ),
        forall|i: int|
            0 <= i < st.scheduler.workflow.tasks.len() && i != c ==> !unfinished(
                #[trigger] st.state(i),
            ),
{
    lemma_statuses();
    let m = st.db;
    let s = st.scheduler;
    let w = s.workflow;
    let p = |t: TaskModel| ready(m, s.run, t);
    let tasks = s.moved(m, st.cancelled);
    let c = lemma_filter_first(w.tasks, p);
    assert(s.spare() == 1);
    assert(tasks.len() == 1);
    assert(tasks[0] == w.tasks[c]);
    assert forall|i: int| 0 <= i < w.tasks.len() implies (ids(tasks).contains(
        (#[trigger] w.tasks[i]).id,
    ) <==> i == c) by {
        assert(ids(tasks)[0] == w.tasks[c].id);
        if i == c {
            assert(ids(tasks).contains(ids(tasks)[0]));
        }
    }
    assert forall|i: int| 0 <= i < c implies !ready(m, s.run, #[trigger] w.tasks[i]) by {
        assert(!p(w.tasks[i]));
    }
    assert forall|i: int| 0 <= i < w.tasks.len() && i != c implies !unfinished(
        #[trigger] st.state(i),
    ) by {
        assert(st.task_tracked(i));
        assert(task_sound(m, s.run, w, i));
        assert(!s.active.contains(w.tasks[i].id));
        assert(pair_apart(m, s.run, w, c, i));
        if unfinished(st.state(i)) {
            assert(ready(m, s.run, w.tasks[i]));
        }
    }
    c
}

proof fn lemma_decide_apart(st: RunState, now: i64, clock: int)
    requires
        st.sound(),
        st.legal(Step::Decide),
        st.timed(clock),
        clock <= now,
        st.scheduler.limit == 1,
    ensures
        one_at_a_time(
            st.after(Step::Decide, now).db,
            st.scheduler.run,
            st.scheduler.workflow,
        ),
        forall|i: int, j: int|
            0 <= i < st.scheduler.workflow.tasks.len() && 0 <= j
                < st.scheduler.workflow.tasks.len() ==> #[trigger] st.after(
                Step::Decide,
                now,
            ).leads(i, j),
{
    lemma_statuses();
    let m = st.db;
    let s = st.scheduler;
    let run = s.run;
    let w = s.workflow;
    let next = st.after(Step::Decide, now);
    let after = next.db;
    let n = w.tasks.len() as int;
    let launch = s.action(m, st.cancelled) is Launch;
    lemma_moved(s, m, st.cancelled);
    let c = if launch {
        lemma_launched(st, clock)
    } else {
        -1
    };
    assert forall|i: int| 0 <= i < n implies {
        let t = st.state(i);
        let u = #[trigger] next.state(i);
        &&& u == st.next_state(Step::Decide, now, i)
        &&& u.started_at == t.started_at
        &&& u.status == "success"@ <==> t.status == "success"@
        &&& u.status == "pending"@ ==> t.status == "pending"@ && u == t
        &&& u.finished_at is None ==> t.finished_at is None
        &&& t.finished_at is Some ==> u == t
        &&& i != c && unfinished(u) ==> unfinished(t)
    } by {
        lemma_step_state(st, Step::Decide, now, i);
        assert(task_sound(m, run, w, i));
        assert(task_timed(m, run, w, i, clock));
    }
    assert forall|i: int, j: int| 0 <= i < n && 0 <= j < n implies #[trigger] pair_apart(
        after,
        run,
        w,
        i,
        j,
    ) by {
        assert(pair_apart(m, run, w, i, j));
        assert(next.state(i) == state_of(after, run, w, i));
        assert(next.state(j) == state_of(after, run, w, j));
        let u = next.state(j);
        if i < j && unfinished(u) && ready(after, run, w.tasks[i]) {
            assert forall|d: int|
                0 <= d < n && (#[trigger] state_of(after, run, w, d)).status
                    == "success"@ implies state_of(m, run, w, d).status == "success"@ by {
                assert(next.state(d) == state_of(after, run, w, d));
            }
            lemma_ready_before(m, after, run, w, i);
            if launch {
                assert(!unfinished(st.state(j)) || j == c);
                assert(j == c);
            }
        }
        if launch && i != j && unfinished(next.state(i)) && unfinished(u) {
            assert(i == c || !unfinished(st.state(i)));
            assert(j == c || !unfinished(st.state(j)));
        }
        lemma_unfinished(m, run, w, i, clock);
        lemma_unfinished(m, run, w, j, clock);
        assert(task_timed(m, run, w, i, clock));
        assert(task_timed(m, run, w, j, clock));
        assert(task_sound(m, run, w, i));
        assert(task_sound(m, run, w, j));
    }
    assert forall|i: int, j: int| 0 <= i < n && 0 <= j < n implies #[trigger] next.leads(i, j) by {
        assert(st.leads(i, j));
        assert(pair_apart(m, run, w, i, j));
        assert(next.state(i).started_at == st.state(i).started_at);
        assert(next.state(j).started_at == st.state(j).started_at);
        lemma_active_after_decision(st, w.tasks[i].id);
        lemma_unfinished(m, run, w, j, clock);
        lemma_unfinished(m, run, w, i, clock);
        assert(task_timed(m, run, w, i, clock));
        if next.is_active(i) && !st.is_active(i) {
            assert(i == c);
            if i != j {
                assert(!unfinished(st.state(j)));
            }
        }
    }
}

/// The step works on the task at a position.
spec fn works_on(step: Step, x: int) -> bool {
    ||| step == Step::Start(x)
    ||| step matches Step::End(i, _) && i == x
    ||| step matches Step::Settle(i, _) && i == x
}

proof fn lemma_work_apart(st: RunState, step: Step, x: int, now: i64, clock: int)
    requires
        st.sound(),
        st.legal(step),
        st.timed(clock),
        clock <= now,
        st.scheduler.limit == 1,
        works_on(step, x),
    ensures
        one_at_a_time(st.after(step, now).db, st.scheduler.run, st.scheduler.workflow),
        forall|i: int, j: int|
            0 <= i < st.scheduler.workflow.tasks.len() && 0 <= j
                < st.scheduler.workflow.tasks.len() ==> #[trigger] st.after(step, now).leads(i, j),
{
    lemma_statuses();
    let m = st.db;
    let s = st.scheduler;
    let run = s.run;
    let w = s.workflow;
    let next = st.after(step, now);
    let after = next.db;
    let n = w.tasks.len() as int;
    let old_x = st.state(x);
    let new_x = st.next_state(step, now, x);
    assert(task_sound(m, run, w, x));
    assert(task_timed(m, run, w, x, clock));
    assert(st.task_tracked(x));
    lemma_budget_positive(w, x);
    if let Step::End(i, _) = step {
        let open = choose|k: int|
            0 <= k < m.attempts.len() && is_open(#[trigger] m.attempts[k], run, st.task(i).id);
        assert(st.attempt_tracked(i, open));
    }
    assert(met(m, run, w.tasks[x]));
    assert forall|j: int| 0 <= j < n implies {
        &&& j != x ==> (#[trigger] next.state(j)) == st.state(j) && !unfinished(st.state(j))
        &&& j == x ==> next.state(j) == new_x
        &&& next.is_active(j) ==> j == x
    } by {
        lemma_step_state(st, step, now, j);
        assert(pair_apart(m, run, w, x, j));
        assert(st.leads(x, j));
        assert(st.task_tracked(j));
        assert(task_timed(m, run, w, j, clock));
        assert(task_sound(m, run, w, j));
        lemma_without(s.active, w.tasks[x].id);
        if next.is_active(j) && j != x {
            assert(st.is_active(j));
            lemma_one_active(st, x, j);
        }
        if j != x && under_way(st.state(j).status) {
            lemma_one_active(st, x, j);
        }
    }
    assert forall|i: int, j: int| 0 <= i < n && 0 <= j < n implies #[trigger] pair_apart(
        after,
        run,
        w,
        i,
        j,
    ) by {
        assert(pair_apart(m, run, w, i, j));
        assert(next.state(i) == state_of(after, run, w, i));
        assert(next.state(j) == state_of(after, run, w, j));
        assert(task_timed(m, run, w, i, clock));
        assert(task_timed(m, run, w, j, clock));
        assert(task_sound(m, run, w, i));
        assert(task_sound(m, run, w, j));
        assert(st.leads(x, i));
        assert(st.leads(x, j));
        if i < j && unfinished(next.state(j)) && ready(after, run, w.tasks[i]) {
            assert(j == x);
            assert(unfinished(old_x));
            assert forall|d: int|
                0 <= d < n && (#[trigger] state_of(after, run, w, d)).status
                    == "success"@ implies state_of(m, run, w, d).status == "success"@ by {
                assert(next.state(d) == state_of(after, run, w, d));
            }
            lemma_ready_before(m, after, run, w, i);
        }
        if j == x && w.tasks[j].dependencies.contains(w.tasks[i].id) {
            let k = w.tasks[x].dependencies.index_of(w.tasks[i].id);
            assert(m.status(run, w.tasks[x].dependencies[k]) == "success"@);
            assert(st.state(i).status == "success"@);
            assert(st.state(i).finished_at is Some);
        }
    }
    assert forall|i: int, j: int| 0 <= i < n && 0 <= j < n implies #[trigger] next.leads(i, j) by {
        assert(st.leads(i, j));
        assert(st.leads(x, j));
        assert(i == x ==> next.state(i) == new_x);
        assert(task_timed(m, run, w, j, clock));
        if j == x && w.tasks[j].dependencies.contains(w.tasks[x].id) {
            let k = w.tasks[x].dependencies.index_of(w.tasks[x].id);
            assert(m.status(run, w.tasks[x].dependencies[k]) == "success"@);
        }
    }
}

/// What holds of the times of a run goes on holding, as long as the clock does
/// not go back.
pub proof fn law_steps_keep_times(st: RunState, step: Step, now: i64, clock: int)
    requires
        st.sound(),
        st.legal(step),
        st.timed(clock),
        clock <= now,
    ensures
        st.after(step, now).timed(now as int),
{
    lemma_step_times(st, step, now, clock);
    let n = st.scheduler.workflow.tasks.len() as int;
    let next = st.after(step, now);
    if st.scheduler.limit == 1 {
        match step {
            Step::Cancel => {
                assert forall|i: int, j: int|
                    0 <= i < n && 0 <= j < n implies #[trigger] next.leads(i, j) by {
                    assert(st.leads(i, j));
                }
            },
            Step::Decide => {
                lemma_decide_apart(st, now, clock);
            },
            Step::Start(i) => {
                lemma_work_apart(st, step, i, now, clock);
            },
            Step::End(i, _) => {
                lemma_work_apart(st, step, i, now, clock);
            },
            Step::Settle(i, _) => {
                lemma_work_apart(st, step, i, now, clock);
            },
        }
    }
}

/// The times of the steps do not go back, and none is before the clock.
pub open spec fn rising(steps: Seq<(Step, i64)>, clock: int) -> bool {
    &&& forall|k: int| 0 <= k < steps.len() ==> clock <= (#[trigger] steps[k]).1
    &&& forall|k: int, l: int|
        0 <= k < l < steps.len() ==> (#[trigger] steps[k]).1 <= (#[trigger] steps[l]).1
}

/// The clock after the steps.
pub open spec fn clock_after(steps: Seq<(Step, i64)>, clock: int) -> int {
    if steps.len() == 0 {
        clock
    } else {
        steps.last().1 as int
    }
}

/// Where the times of the steps do not go back, those of all but the last do not,
/// and the last is not before the clock then.
pub proof fn lemma_rising_head(steps: Seq<(Step, i64)>, clock: int)
    requires
        rising(steps, clock),
        steps.len() > 0,
    ensures
        rising(steps.drop_last(), clock),
        clock_after(steps.drop_last(), clock) <= steps.last().1,
{
    let head = steps.drop_last();
    assert forall|k: int| 0 <= k < head.len() implies clock <= (#[trigger] head[k]).1 by {
        assert(clock <= steps[k].1);
    }
    assert forall|k: int, l: int|
        0 <= k < l < head.len() implies (#[trigger] head[k]).1 <= (#[trigger] head[l]).1 by {
        assert(steps[k].1 <= steps[l].1);
    }
    assert(clock <= steps[steps.len() - 1].1);
    if head.len() > 0 {
        assert(steps[head.len() - 1].1 <= steps[steps.len() - 1].1);
    }
}

/// What holds of the times of a run holds along any sequence of steps.
pub proof fn law_times_along_steps(st: RunState, steps: Seq<(Step, i64)>, clock: int)
    requires
        st.sound(),
        follows(st, steps),
        st.timed(clock),
        rising(steps, clock),
    ensures
        arrival(st, steps).timed(clock_after(steps, clock)),
    decreases steps.len(),
{
    if steps.len() > 0 {
        let head = steps.drop_last();
        let (step, now) = steps.last();
        lemma_rising_head(steps, clock);
        law_times_along_steps(st, head, clock);
        law_soundness_along_steps(st, head);
        law_steps_keep_times(arrival(st, head), step, now, clock_after(head, clock));
    }
}

// ---------------------------------------------------------------------------
// Starting and resuming
// ---------------------------------------------------------------------------

/// Of a run that starts, the times hold from the first moment.
pub proof fn law_started_run_is_timed(m: DbModel, run: Seq<char>, now: i64, clock: int)
    requires
        refusal(m, run, false) is None,
        record_sound(m, run, m.detail(run)->0.workflow),
        untouched(m, run, m.detail(run)->0.workflow),
        m.room(1),
    ensures
        started(m, run, false, now).timed(clock),
{
    lemma_statuses();
    let w = m.detail(run)->0.workflow;
    let st = started(m, run, false, now);
    lemma_set_run_sound(m, run, w, "running"@, now);
    assert forall|i: int| 0 <= i < w.tasks.len() implies #[trigger] st.state(i) == waiting_task(
        w.tasks[i].id,
    ) by {
        assert(state_of(m, run, w, i) == waiting_task(w.tasks[i].id));
    }
    assert forall|i: int| 0 <= i < w.tasks.len() implies #[trigger] task_timed(
        st.db,
        run,
        w,
        i,
        clock,
    ) by {
        assert(st.state(i) == state_of(st.db, run, w, i));
    }
    assert forall|i: int, j: int|
        0 <= i < w.tasks.len() && 0 <= j < w.tasks.len() implies #[trigger] pair_apart(
        st.db,
        run,
        w,
        i,
        j,
    ) by {
        assert(st.state(i) == state_of(st.db, run, w, i));
        assert(st.state(j) == state_of(st.db, run, w, j));
    }
    assert forall|i: int, j: int|
        0 <= i < w.tasks.len() && 0 <= j < w.tasks.len() implies #[trigger] st.leads(i, j) by {
        assert(st.state(j) == waiting_task(w.tasks[j].id));
    }
}

/// Of a run that resumes, the times go on holding, those of its first part
/// included.
pub proof fn law_resumed_run_is_timed(m: DbModel, run: Seq<char>, now: i64, clock: int)
    requires
        refusal(m, run, true) is None,
        record_sound(m, run, m.detail(run)->0.workflow),
        m.room((m.detail(run)->0.workflow.tasks.len() + 1) as int),
        record_timed(m, run, m.detail(run)->0.workflow, clock),
        scheduler_of(m.detail(run)->0, run).limit == 1 ==> one_at_a_time(
            m,
            run,
            m.detail(run)->0.workflow,
        ),
        clock <= now,
    ensures
        started(m, run, true, now).timed(now as int),
{
    lemma_statuses();
    let w = m.detail(run)->0.workflow;
    let n = w.tasks.len() as int;
    let mid = m.recover(run, w, now);
    let st = started(m, run, true, now);
    law_recovery(m, run, w, now);
    lemma_recover_effect(m, run, w, now);
    lemma_set_run_sound(mid, run, w, "running"@, now);
    assert(successes_stay(m.attempts, st.db.attempts));
    assert forall|i: int| 0 <= i < n implies {
        let t = state_of(m, run, w, i);
        let u = #[trigger] st.state(i);
        &&& u == state_of(st.db, run, w, i)
        &&& u == recovered(t, w.tasks[i].budget(), now)
        &&& u.started_at == t.started_at
        &&& u.status == "success"@ ==> t.status == "success"@
        &&& unfinished(u) ==> unfinished(t)
        &&& u.status == "pending"@ ==> t.status == "pending"@ || unfinished(t)
    } by {
        assert(st.db.task(run, w.tasks[i].id) == mid.task(run, w.tasks[i].id));
        assert(task_sound(m, run, w, i));
        lemma_budget_positive(w, i);
    }
    assert forall|i: int| 0 <= i < n implies #[trigger] task_timed(
        st.db,
        run,
        w,
        i,
        now as int,
    ) by {
        let t = state_of(m, run, w, i);
        assert(st.state(i) == state_of(st.db, run, w, i));
        assert(task_timed(m, run, w, i, clock));
        assert(task_sound(m, run, w, i));
        if t.status == "success"@ {
            lemma_succeeded_stays(
                m.attempts,
                st.db.attempts,
                run,
                w.tasks[i].id,
                clock,
                now as int,
            );
        }
        if t.started_at is Some {
            lemma_met_stays(
                m.attempts,
                st.db.attempts,
                run,
                w.tasks[i],
                t.started_at->0 as int,
            );
        }
    }
    if st.scheduler.limit == 1 {
        assert forall|i: int, j: int| 0 <= i < n && 0 <= j < n implies #[trigger] pair_apart(
            st.db,
            run,
            w,
            i,
            j,
        ) by {
            assert(pair_apart(m, run, w, i, j));
            assert(pair_apart(m, run, w, j, i));
            assert(st.state(i) == state_of(st.db, run, w, i));
            assert(st.state(j) == state_of(st.db, run, w, j));
            assert(task_timed(m, run, w, i, clock));
            assert(task_timed(m, run, w, j, clock));
            if i < j && unfinished(st.state(j)) && ready(st.db, run, w.tasks[i]) {
                assert forall|d: int|
                    0 <= d < n && (#[trigger] state_of(st.db, run, w, d)).status
                        == "success"@ implies state_of(m, run, w, d).status == "success"@ by {
                    assert(st.state(d) == state_of(st.db, run, w, d));
                }
                lemma_ready_before(m, st.db, run, w, i);
            }
        }
        assert forall|i: int, j: int| 0 <= i < n && 0 <= j < n implies #[trigger] st.leads(
            i,
            j,
        ) by {
            assert(!st.scheduler.active.contains(w.tasks[i].id));
        }
    }
}

// ---------------------------------------------------------------------------
// What the times tell
// ---------------------------------------------------------------------------

/// Of two tasks of a run whose limit is one, one ended no later than the other
/// started.
pub proof fn law_tasks_do_not_overlap_at_limit_one(st: RunState, clock: int, i: int, j: int)
    requires
        st.timed(clock),
        st.scheduler.limit == 1,
        0 <= i < st.scheduler.workflow.tasks.len(),
        0 <= j < st.scheduler.workflow.tasks.len(),
        i != j,
        st.state(i).started_at is Some,
        st.state(j).started_at is Some,
    ensures
        apart(st.state(i), st.state(j)),
{
    assert(pair_apart(st.db, st.scheduler.run, st.scheduler.workflow, i, j));
}

/// A task that has started has, for each of its dependencies, an attempt that
/// succeeded and ended no later than the task started.
pub proof fn law_dependencies_succeed_before_the_start(
    m: DbModel,
    run: Seq<char>,
    w: WorkflowModel,
    clock: int,
    i: int,
    k: int,
) -> (j: int)
    requires
        record_timed(m, run, w, clock),
        0 <= i < w.tasks.len(),
        0 <= k < w.tasks[i].dependencies.len(),
        state_of(m, run, w, i).started_at is Some,
    ensures
        0 <= j < m.attempts.len(),
        m.attempts[j].run_id == run,
        m.attempts[j].attempt.task_id == w.tasks[i].dependencies[k],
        m.attempts[j].attempt.status == "success"@,
        m.attempts[j].attempt.finished_at is Some,
        m.attempts[j].attempt.finished_at->0 <= state_of(m, run, w, i).started_at->0,
{
    assert(task_timed(m, run, w, i, clock));
    let dep = w.tasks[i].dependencies[k];
    let at = state_of(m, run, w, i).started_at->0 as int;
    assert(succeeded_by(m.attempts, run, w.tasks[i].dependencies[k], at));
    choose|j: int| 0 <= j < m.attempts.len() && is_success(#[trigger] m.attempts[j], run, dep, at)
}

/// A dependency that is settled when a task first starts ended no later than the
/// task started, and that stays so whatever happens next. Only a dependency whose
/// success is recorded but not settled yet gets a later end.
pub proof fn law_settled_dependencies_end_before_the_start(
    st: RunState,
    clock: int,
    now: i64,
    i: int,
    d: int,
    steps: Seq<(Step, i64)>,
)
    requires
        st.sound(),
        st.timed(clock),
        clock <= now,
        st.legal(Step::Start(i)),
        st.state(i).started_at is None,
        0 <= d < st.scheduler.workflow.tasks.len(),
        st.task(i).dependencies.contains(st.task(d).id),
        !st.is_active(d),
        follows(st.after(Step::Start(i), now), steps),
    ensures
        ({
            let end = arrival(st.after(Step::Start(i), now), steps);
            &&& end.state(i).started_at == Some(now)
            &&& end.state(d).finished_at is Some
            &&& end.state(d).finished_at->0 <= now
        }),
{
    lemma_statuses();
    let m = st.db;
    let run = st.scheduler.run;
    let w = st.scheduler.workflow;
    let next = st.after(Step::Start(i), now);
    assert(task_sound(m, run, w, i));
    let k = w.tasks[i].dependencies.index_of(w.tasks[d].id);
    assert(m.status(run, w.tasks[i].dependencies[k]) == "success"@);
    assert(task_timed(m, run, w, d, clock));
    lemma_step_state(st, Step::Start(i), now, i);
    law_success_is_final(st, Step::Start(i), now, d);
    law_steps_keep_soundness(st, Step::Start(i), now);
    law_first_start_is_final(next, steps, i);
    law_success_is_final_along_steps(next, steps, d);
}

/// Where the limit is one, a dependency itself ended no later than what depends
/// on it started.
pub proof fn law_dependencies_end_before_the_start_at_limit_one(
    st: RunState,
    clock: int,
    i: int,
    j: int,
)
    requires
        st.timed(clock),
        st.scheduler.limit == 1,
        0 <= i < st.scheduler.workflow.tasks.len(),
        0 <= j < st.scheduler.workflow.tasks.len(),
        st.task(j).dependencies.contains(st.task(i).id),
        st.state(j).started_at is Some,
    ensures
        st.state(i).finished_at is Some,
        st.state(i).finished_at->0 <= st.state(j).started_at->0,
{
    assert(pair_apart(st.db, st.scheduler.run, st.scheduler.workflow, i, j));
}

} // verus!
