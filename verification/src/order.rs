//! Which task goes first where one runs at a time, as long as the clock does not
//! go back.

use crate::lifecycle::{
    lemma_active_after_decision, lemma_moved, lemma_statuses, lemma_step_state, lemma_without, met,
    record_sound, state_of, task_sound, under_way, RunState, Step,
};
use crate::model::{waiting_task, DbModel};
use crate::paths::{arrival, follows, law_soundness_along_steps};
use crate::recovery::{
    law_recovery, law_started_run_is_sound, law_success_is_final, lemma_recover_effect,
    lemma_set_run_sound, recovered, started, untouched,
};
use crate::scheduler::{ready, refusal};
use crate::times::{
    clock_after, is_over, law_started_run_is_timed, law_times_along_steps, lemma_one_active,
    lemma_rising_head, lemma_unfinished, pair_apart, record_timed, rising, task_timed, unfinished,
};
use crate::workflow::WorkflowModel;
use vstd::prelude::*;

verus! {

/// The task at `i` goes before the one at `j`: nothing keeps it from its turn, and
/// where the other has started, it ended no later than that.
pub open spec fn is_ahead(m: DbModel, run: Seq<char>, w: WorkflowModel, i: int, j: int) -> bool {
    let t = state_of(m, run, w, i);
    let u = state_of(m, run, w, j);
    &&& met(m, run, w.tasks[i])
    &&& u.started_at is Some ==> t.finished_at is Some && t.finished_at->0 <= u.started_at->0
}

impl RunState {
    /// The task at `i` goes before the one at `j`, and while it is active the other
    /// has not started.
    pub open spec fn ahead(self, i: int, j: int) -> bool {
        &&& is_ahead(self.db, self.scheduler.run, self.scheduler.workflow, i, j)
        &&& self.is_active(i) ==> self.state(j).started_at is None
    }
}

/// A step leaves the dependencies of a task met.
proof fn lemma_stays_met(st: RunState, step: Step, now: i64, i: int)
    requires
        st.sound(),
        st.legal(step),
        0 <= i < st.scheduler.workflow.tasks.len(),
        met(st.db, st.scheduler.run, st.task(i)),
    ensures
        met(st.after(step, now).db, st.scheduler.run, st.task(i)),
{
    let run = st.scheduler.run;
    let w = st.scheduler.workflow;
    let t = st.task(i);
    let after = st.after(step, now).db;
    assert forall|k: int| 0 <= k < t.dependencies.len() implies after.status(
        run,
        #[trigger] t.dependencies[k],
    ) == "success"@ by {
        assert(st.db.status(run, t.dependencies[k]) == "success"@);
        assert(w.knows(w.tasks[i].dependencies[k]));
        let d = choose|d: int|
            0 <= d < w.tasks.len() && #[trigger] w.tasks[d].id == t.dependencies[k];
        assert(st.state(d).status == "success"@);
        law_success_is_final(st, step, now, d);
    }
}

/// Where the limit is one, a task that is ahead of one listed behind it stays so,
/// whatever happens next.
pub proof fn law_steps_keep_the_order_at_limit_one(
    st: RunState,
    step: Step,
    now: i64,
    clock: int,
    i: int,
    j: int,
)
    requires
        st.sound(),
        st.legal(step),
        st.timed(clock),
        clock <= now,
        st.scheduler.limit == 1,
        0 <= i < j < st.scheduler.workflow.tasks.len(),
        st.ahead(i, j),
    ensures
        st.after(step, now).ahead(i, j),
{
    lemma_statuses();
    let m = st.db;
    let s = st.scheduler;
    let run = s.run;
    let w = s.workflow;
    let next = st.after(step, now);
    let t = st.state(i);
    let u = st.state(j);
    lemma_stays_met(st, step, now, i);
    lemma_step_state(st, step, now, i);
    lemma_step_state(st, step, now, j);
    lemma_moved(s, m, st.cancelled);
    assert(task_sound(m, run, w, i));
    assert(task_timed(m, run, w, i, clock));
    assert(st.task_tracked(i));
    match step {
        Step::Cancel => {},
        Step::Decide => {
            lemma_active_after_decision(st, w.tasks[i].id);
        },
        Step::Start(x) => {
            if x == j && u.started_at is None {
                assert(pair_apart(m, run, w, i, j));
                assert(unfinished(u));
                if t.finished_at is None {
                    assert(!is_over(t.status));
                    assert(under_way(t.status) || ready(m, run, w.tasks[i]));
                }
            }
            if st.is_active(i) {
                lemma_one_active(st, i, x);
            }
        },
        Step::End(x, _) => {
            if st.is_active(i) {
                lemma_one_active(st, i, x);
            }
        },
        Step::Settle(x, _) => {
            lemma_without(s.active, w.tasks[x].id);
            if st.is_active(i) {
                lemma_one_active(st, i, x);
            }
        },
    }
}

/// Where the limit is one, a task that is ahead of one listed behind it stays so
/// along any sequence of steps.
pub proof fn law_order_along_steps_at_limit_one(
    st: RunState,
    steps: Seq<(Step, i64)>,
    clock: int,
    i: int,
    j: int,
)
    requires
        st.sound(),
        follows(st, steps),
        st.timed(clock),
        rising(steps, clock),
        st.scheduler.limit == 1,
        0 <= i < j < st.scheduler.workflow.tasks.len(),
        st.ahead(i, j),
    ensures
        arrival(st, steps).ahead(i, j),
    decreases steps.len(),
{
    if steps.len() > 0 {
        let head = steps.drop_last();
        let (step, now) = steps.last();
        lemma_rising_head(steps, clock);
        law_order_along_steps_at_limit_one(st, head, clock, i, j);
        law_times_along_steps(st, head, clock);
        law_soundness_along_steps(st, head);
        law_steps_keep_the_order_at_limit_one(
            arrival(st, head),
            step,
            now,
            clock_after(head, clock),
            i,
            j,
        );
    }
}

/// Where the limit is one, a task that may be launched goes before every task
/// listed behind it that has not started or is not over: whatever happens next,
/// once the other has started, the first has ended, and no later than the other
/// started.
pub proof fn law_first_listed_task_goes_first_at_limit_one(
    st: RunState,
    steps: Seq<(Step, i64)>,
    clock: int,
    i: int,
    j: int,
)
    requires
        st.sound(),
        follows(st, steps),
        st.timed(clock),
        rising(steps, clock),
        st.scheduler.limit == 1,
        0 <= i < j < st.scheduler.workflow.tasks.len(),
        ready(st.db, st.scheduler.run, st.task(i)),
        st.state(j).started_at is None || !is_over(st.state(j).status),
    ensures
        ({
            let end = arrival(st, steps);
            end.state(j).started_at is Some ==> {
                &&& end.state(i).finished_at is Some
                &&& end.state(i).finished_at->0 <= end.state(j).started_at->0
            }
        }),
{
    let run = st.scheduler.run;
    let w = st.scheduler.workflow;
    assert(task_timed(st.db, run, w, j, clock));
    lemma_unfinished(st.db, run, w, j, clock);
    assert(pair_apart(st.db, run, w, i, j));
    law_order_along_steps_at_limit_one(st, steps, clock, i, j);
    law_soundness_along_steps(st, steps);
}

/// In a run whose limit is one, a task without dependencies goes before every task
/// listed behind it: at any moment of the run, once the other has started, the
/// first has ended, and no later than the other started. So independent tasks go
/// in the order in which they are listed.
pub proof fn law_independent_tasks_go_in_order_at_limit_one(
    m: DbModel,
    run: Seq<char>,
    now: i64,
    steps: Seq<(Step, i64)>,
    clock: int,
    i: int,
    j: int,
)
    requires
        refusal(m, run, false) is None,
        record_sound(m, run, m.detail(run)->0.workflow),
        untouched(m, run, m.detail(run)->0.workflow),
        m.room(1),
        started(m, run, false, now).scheduler.limit == 1,
        follows(started(m, run, false, now), steps),
        rising(steps, clock),
        0 <= i < j < m.detail(run)->0.workflow.tasks.len(),
        m.detail(run)->0.workflow.tasks[i].dependencies.len() == 0,
    ensures
        ({
            let end = arrival(started(m, run, false, now), steps);
            &&& end.ahead(i, j)
            &&& end.state(j).started_at is Some ==> {
                &&& end.state(i).finished_at is Some
                &&& end.state(i).finished_at->0 <= end.state(j).started_at->0
            }
        }),
{
    let w = m.detail(run)->0.workflow;
    let st = started(m, run, false, now);
    law_started_run_is_sound(m, run, now);
    law_started_run_is_timed(m, run, now, clock);
    lemma_set_run_sound(m, run, w, "running"@, now);
    assert(state_of(m, run, w, j) == waiting_task(w.tasks[j].id));
    assert(st.state(j) == state_of(m, run, w, j));
    law_order_along_steps_at_limit_one(st, steps, clock, i, j);
    law_soundness_along_steps(st, steps);
}

/// Resuming a run leaves a task ahead that was.
pub proof fn law_resuming_keeps_the_order(
    m: DbModel,
    run: Seq<char>,
    now: i64,
    clock: int,
    i: int,
    j: int,
)
    requires
        refusal(m, run, true) is None,
        record_sound(m, run, m.detail(run)->0.workflow),
        m.room((m.detail(run)->0.workflow.tasks.len() + 1) as int),
        0 <= i < m.detail(run)->0.workflow.tasks.len(),
        0 <= j < m.detail(run)->0.workflow.tasks.len(),
        is_ahead(m, run, m.detail(run)->0.workflow, i, j),
        record_timed(m, run, m.detail(run)->0.workflow, clock),
    ensures
        started(m, run, true, now).ahead(i, j),
{
    lemma_statuses();
    let w = m.detail(run)->0.workflow;
    let mid = m.recover(run, w, now);
    let st = started(m, run, true, now);
    assert(task_timed(m, run, w, i, clock));
    law_recovery(m, run, w, now);
    lemma_recover_effect(m, run, w, now);
    lemma_set_run_sound(mid, run, w, "running"@, now);
    assert(st.state(i) == recovered(state_of(m, run, w, i), w.tasks[i].budget(), now));
    assert(st.state(j) == recovered(state_of(m, run, w, j), w.tasks[j].budget(), now));
    let t = w.tasks[i];
    assert forall|k: int| 0 <= k < t.dependencies.len() implies st.db.status(
        run,
        #[trigger] t.dependencies[k],
    ) == "success"@ by {
        assert(m.status(run, t.dependencies[k]) == "success"@);
        assert(w.knows(w.tasks[i].dependencies[k]));
        let d = choose|d: int|
            0 <= d < w.tasks.len() && #[trigger] w.tasks[d].id == t.dependencies[k];
        assert(st.db.task(run, w.tasks[d].id) == mid.task(run, w.tasks[d].id));
        assert(state_of(m, run, w, d).status == "success"@);
    }
}

} // verus!
