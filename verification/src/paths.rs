//! What holds along any sequence of steps, and across an interruption.

use crate::laws::law_verdict_follows_the_tasks;
use crate::lifecycle::{
    law_steps_keep_soundness, lemma_budget_positive, lemma_statuses, lemma_step_state, record_sound,
    state_of, task_sound, RunState, Step,
};
use crate::model::{tasks_of, DbModel};
use crate::recovery::{
    is_row_of, law_interrupted_runs_resume, law_resumed_run_is_sound, law_resuming_keeps_success,
    law_success_is_final, lemma_recover_effect, lemma_recovery_keeps_runs, lemma_run_status,
    lemma_set_run_sound, started,
};
use crate::scheduler::{refusal, scheduler_of, set_each, verdict, SchedulerModel};
use crate::worker::ResultModel;
use crate::workflow::TaskModel;
use vstd::prelude::*;

verus! {

/// The state at the end of a sequence of steps, each taken at its time.
pub open spec fn arrival(st: RunState, steps: Seq<(Step, i64)>) -> RunState
    decreases steps.len(),
{
    if steps.len() == 0 {
        st
    } else {
        arrival(st, steps.drop_last()).after(steps.last().0, steps.last().1)
    }
}

/// Each step of the sequence may happen where its turn comes.
pub open spec fn follows(st: RunState, steps: Seq<(Step, i64)>) -> bool
    decreases steps.len(),
{
    steps.len() > 0 ==> follows(st, steps.drop_last()) && arrival(st, steps.drop_last()).legal(
        steps.last().0,
    )
}

/// How often an attempt at the task at a position starts along the steps.
pub open spec fn starts(steps: Seq<(Step, i64)>, i: int) -> nat
    decreases steps.len(),
{
    if steps.len() == 0 {
        0
    } else {
        starts(steps.drop_last(), i) + if steps.last().0 == Step::Start(i) {
            1nat
        } else {
            0
        }
    }
}

/// A step counts one attempt at the task that it starts, and none at another.
proof fn lemma_step_attempts(st: RunState, step: Step, now: i64, i: int)
    requires
        st.sound(),
        st.legal(step),
        0 <= i < st.scheduler.workflow.tasks.len(),
    ensures
        st.after(step, now).state(i).attempts == st.state(i).attempts + if step == Step::Start(i) {
            1int
        } else {
            0
        },
{
    lemma_step_state(st, step, now, i);
    assert(task_sound(st.db, st.scheduler.run, st.scheduler.workflow, i));
    lemma_budget_positive(st.scheduler.workflow, i);
}

proof fn lemma_set_each_runs(
    m: DbModel,
    run: Seq<char>,
    tasks: Seq<TaskModel>,
    status: Seq<char>,
    error: Option<Seq<char>>,
    now: i64,
)
    ensures
        set_each(m, run, tasks, status, error, now).runs == m.runs,
    decreases tasks.len(),
{
    if tasks.len() > 0 {
        lemma_set_each_runs(m, run, tasks.drop_last(), status, error, now);
    }
}

/// A step leaves the rows of runs as they are, and what the scheduler works on.
proof fn lemma_step_frame(st: RunState, step: Step, now: i64)
    ensures
        st.after(step, now).db.runs == st.db.runs,
        st.after(step, now).scheduler == (SchedulerModel {
            active: st.after(step, now).scheduler.active,
            ..st.scheduler
        }),
{
    let s = st.scheduler;
    lemma_set_each_runs(
        st.db,
        s.run,
        s.moved(st.db, st.cancelled),
        s.moved_status(st.db, st.cancelled),
        s.moved_error(st.db, st.cancelled),
        now,
    );
}

/// Whatever sequence of steps a run goes through, what holds of it goes on
/// holding, it goes on working on the same workflow, and the count of attempts
/// at each task is that of the attempts that were started.
pub proof fn law_soundness_along_steps(st: RunState, steps: Seq<(Step, i64)>)
    requires
        st.sound(),
        follows(st, steps),
    ensures
        arrival(st, steps).sound(),
        arrival(st, steps).db.runs == st.db.runs,
        arrival(st, steps).scheduler == (SchedulerModel {
            active: arrival(st, steps).scheduler.active,
            ..st.scheduler
        }),
        forall|i: int|
            0 <= i < st.scheduler.workflow.tasks.len() ==> (#[trigger] arrival(st, steps).state(
                i,
            )).attempts == st.state(i).attempts + starts(steps, i),
    decreases steps.len(),
{
    if steps.len() > 0 {
        let before = arrival(st, steps.drop_last());
        let (step, now) = steps.last();
        law_soundness_along_steps(st, steps.drop_last());
        law_steps_keep_soundness(before, step, now);
        lemma_step_frame(before, step, now);
        assert forall|i: int| 0 <= i < st.scheduler.workflow.tasks.len() implies (
        #[trigger] arrival(st, steps).state(i)).attempts == st.state(i).attempts + starts(
            steps,
            i,
        ) by {
            lemma_step_attempts(before, step, now, i);
        }
    }
}

/// A task that succeeded is not started again along any sequence of steps: its
/// status, its count of attempts and its attempts stay, and once it is settled,
/// so does everything else of its state.
pub proof fn law_success_is_final_along_steps(st: RunState, steps: Seq<(Step, i64)>, i: int)
    requires
        st.sound(),
        follows(st, steps),
        0 <= i < st.scheduler.workflow.tasks.len(),
        st.state(i).status == "success"@,
    ensures
        arrival(st, steps).state(i).status == "success"@,
        arrival(st, steps).state(i).attempts == st.state(i).attempts,
        starts(steps, i) == 0,
        !st.is_active(i) ==> arrival(st, steps).state(i) == st.state(i) && !arrival(
            st,
            steps,
        ).is_active(i),
        forall|j: int|
            0 <= j < arrival(st, steps).db.attempts.len() && is_row_of(
                #[trigger] arrival(st, steps).db.attempts[j],
                st.scheduler.run,
                st.task(i).id,
            ) ==> j < st.db.attempts.len() && arrival(st, steps).db.attempts[j]
                == st.db.attempts[j],
    decreases steps.len(),
{
    law_soundness_along_steps(st, steps);
    if steps.len() > 0 {
        let before = arrival(st, steps.drop_last());
        let (step, now) = steps.last();
        law_soundness_along_steps(st, steps.drop_last());
        law_success_is_final_along_steps(st, steps.drop_last(), i);
        law_success_is_final(before, step, now, i);
        assert forall|j: int|
            0 <= j < arrival(st, steps).db.attempts.len() && is_row_of(
                #[trigger] arrival(st, steps).db.attempts[j],
                st.scheduler.run,
                st.task(i).id,
            ) implies j < st.db.attempts.len() && arrival(st, steps).db.attempts[j]
            == st.db.attempts[j] by {
            assert(arrival(st, steps).db.attempts[j] == before.db.attempts[j]);
        }
    }
}

/// A task whose attempt succeeds is not started again: along any sequence of steps
/// it counts the attempts that were started up to that success, and no other.
pub proof fn law_successful_attempt_is_the_last(
    st: RunState,
    steps: Seq<(Step, i64)>,
    i: int,
    k: int,
)
    requires
        st.sound(),
        follows(st, steps),
        0 <= i < st.scheduler.workflow.tasks.len(),
        0 <= k < steps.len(),
        steps[k].0 == Step::End(i, ResultModel::Success),
    ensures
        arrival(st, steps).state(i).status == "success"@,
        starts(steps, i) == starts(steps.take(k), i),
        arrival(st, steps).state(i).attempts == st.state(i).attempts + starts(steps.take(k), i),
    decreases steps.len(),
{
    let head = steps.drop_last();
    let (step, now) = steps.last();
    let before = arrival(st, head);
    law_soundness_along_steps(st, steps);
    law_soundness_along_steps(st, head);
    if k < head.len() {
        assert(head.take(k) =~= steps.take(k));
        law_successful_attempt_is_the_last(st, head, i, k);
        law_success_is_final(before, step, now, i);
        lemma_step_attempts(before, step, now, i);
    } else {
        assert(head =~= steps.take(k));
        lemma_step_state(before, step, now, i);
    }
}

/// The time at which a task first started stays along any sequence of steps.
pub proof fn law_first_start_is_final(st: RunState, steps: Seq<(Step, i64)>, i: int)
    requires
        st.sound(),
        follows(st, steps),
        0 <= i < st.scheduler.workflow.tasks.len(),
        st.state(i).started_at is Some,
    ensures
        arrival(st, steps).state(i).started_at == st.state(i).started_at,
    decreases steps.len(),
{
    if steps.len() > 0 {
        let before = arrival(st, steps.drop_last());
        let (step, now) = steps.last();
        lemma_statuses();
        law_soundness_along_steps(st, steps.drop_last());
        law_first_start_is_final(st, steps.drop_last(), i);
        lemma_step_state(before, step, now, i);
    }
}

/// The scheduler is the one of the recorded run.
pub open spec fn is_recorded(st: RunState) -> bool {
    let s = st.scheduler;
    &&& st.db.detail(s.run) is Some
    &&& scheduler_of(st.db.detail(s.run)->0, s.run) == (SchedulerModel {
        active: Seq::empty(),
        ..s
    })
}

/// What the second part of a run makes of the first: it is sound, works on the
/// same tasks, counts their attempts on, and has not touched what had succeeded.
pub open spec fn carries_on(stop: RunState, end: RunState, more: Seq<(Step, i64)>) -> bool {
    &&& end.sound()
    &&& end.scheduler.workflow == stop.scheduler.workflow
    &&& end.scheduler.run == stop.scheduler.run
    &&& forall|i: int|
        0 <= i < stop.scheduler.workflow.tasks.len() ==> (#[trigger] end.state(i)).attempts
            == stop.state(i).attempts + starts(more, i)
    &&& forall|i: int|
        0 <= i < stop.scheduler.workflow.tasks.len() && (#[trigger] stop.state(i)).status
            == "success"@ ==> success_kept(stop, end, more, i)
}

/// The task that had succeeded was not started again, and neither its state of
/// success, nor its count of attempts, nor its attempts have changed.
pub open spec fn success_kept(
    stop: RunState,
    end: RunState,
    more: Seq<(Step, i64)>,
    i: int,
) -> bool {
    &&& end.state(i).status == "success"@
    &&& end.state(i).attempts == stop.state(i).attempts
    &&& starts(more, i) == 0
    &&& forall|j: int|
        0 <= j < end.db.attempts.len() && is_row_of(
            #[trigger] end.db.attempts[j],
            stop.scheduler.run,
            stop.task(i).id,
        ) ==> j < stop.db.attempts.len() && end.db.attempts[j] == stop.db.attempts[j]
}

proof fn lemma_carries_on(
    stop: RunState,
    m: DbModel,
    now: i64,
    more: Seq<(Step, i64)>,
)
    requires
        stop.sound(),
        m.tasks == stop.db.tasks,
        m.attempts == stop.db.attempts,
        record_sound(m, stop.scheduler.run, stop.scheduler.workflow),
        is_recorded(RunState { db: m, ..stop }),
        refusal(m, stop.scheduler.run, true) is None,
        m.room((stop.scheduler.workflow.tasks.len() + 1) as int),
        follows(started(m, stop.scheduler.run, true, now), more),
    ensures
        carries_on(stop, arrival(started(m, stop.scheduler.run, true, now), more), more),
{
    let run = stop.scheduler.run;
    let w = stop.scheduler.workflow;
    let first = started(m, run, true, now);
    let end = arrival(first, more);
    law_resumed_run_is_sound(m, run, now);
    law_soundness_along_steps(first, more);
    lemma_recover_effect(m, run, w, now);
    assert forall|i: int| 0 <= i < w.tasks.len() implies (#[trigger] end.state(i)).attempts
        == stop.state(i).attempts + starts(more, i) by {
        law_resuming_keeps_success(m, run, now, i);
        assert(state_of(m, run, w, i) == stop.state(i));
    }
    assert forall|i: int|
        0 <= i < w.tasks.len() && (#[trigger] stop.state(i)).status
            == "success"@ implies success_kept(stop, end, more, i) by {
        law_resuming_keeps_success(m, run, now, i);
        assert(state_of(m, run, w, i) == stop.state(i));
        law_success_is_final_along_steps(first, more, i);
        assert forall|j: int|
            0 <= j < end.db.attempts.len() && is_row_of(
                #[trigger] end.db.attempts[j],
                run,
                stop.task(i).id,
            ) implies j < stop.db.attempts.len() && end.db.attempts[j]
            == stop.db.attempts[j] by {
            assert(end.db.attempts[j] == first.db.attempts[j]);
            lemma_statuses();
            let b = m.recover(run, w, now).attempts[j];
            assert(first.db.attempts[j] == b);
            assert(stop.attempt_tracked(i, j));
        }
    }
}

/// A run that was cancelled and concluded is interrupted and may be resumed; the
/// resumed run carries on: it starts no task again that had succeeded, it counts
/// the attempts on, those that were cut short included, and where it comes to
/// its end by itself it has succeeded exactly if every task has.
pub proof fn law_interrupted_run_resumes_without_repeating_success(
    st: RunState,
    steps: Seq<(Step, i64)>,
    stopped: i64,
    resumed: i64,
    more: Seq<(Step, i64)>,
)
    requires
        st.sound(),
        is_recorded(st),
        follows(st, steps),
        arrival(st, steps).cancelled,
        arrival(st, steps).scheduler.action(arrival(st, steps).db, true) is Conclude,
        arrival(st, steps).db.room((st.scheduler.workflow.tasks.len() + 2) as int),
        follows(
            started(
                arrival(st, steps).db.set_run(st.scheduler.run, "interrupted"@, stopped),
                st.scheduler.run,
                true,
                resumed,
            ),
            more,
        ),
    ensures
        ({
            let run = st.scheduler.run;
            let stop = arrival(st, steps);
            let m = stop.db.set_run(run, "interrupted"@, stopped);
            let end = arrival(started(m, run, true, resumed), more);
            &&& verdict(tasks_of(stop.db.tasks, run), true) == Some("interrupted"@)
            &&& refusal(m, run, true) is None
            &&& carries_on(stop, end, more)
            &&& !end.cancelled && end.scheduler.action(end.db, false) is Conclude ==> (verdict(
                tasks_of(end.db.tasks, run),
                false,
            ) == Some("success"@) <==> forall|i: int|
                0 <= i < st.scheduler.workflow.tasks.len() ==> (#[trigger] end.state(i)).status
                    == "success"@)
            &&& !end.cancelled && end.scheduler.limit > 0 && end.scheduler.action(end.db, false)
                is Conclude ==> {
                ||| verdict(tasks_of(end.db.tasks, run), false) == Some("success"@)
                ||| verdict(tasks_of(end.db.tasks, run), false) == Some("failed"@)
            }
        }),
{
    let run = st.scheduler.run;
    let w = st.scheduler.workflow;
    let stop = arrival(st, steps);
    law_soundness_along_steps(st, steps);
    lemma_still_recorded(st, stop);
    let m = stop.db.set_run(run, "interrupted"@, stopped);
    lemma_set_run_sound(stop.db, run, w, "interrupted"@, stopped);
    lemma_run_status(stop.db, run, "interrupted"@, stopped);
    law_interrupted_runs_resume(stop.db, run, "interrupted"@, stopped);
    lemma_carries_on(stop, m, resumed, more);
    let end = arrival(started(m, run, true, resumed), more);
    if !end.cancelled && end.scheduler.action(end.db, false) is Conclude {
        law_verdict_follows_the_tasks(end);
    }
}

/// A run that was cut short at any moment, without a chance to note anything, is
/// carried on in the same way.
pub proof fn law_crashed_run_resumes_without_repeating_success(
    st: RunState,
    steps: Seq<(Step, i64)>,
    resumed: i64,
    more: Seq<(Step, i64)>,
)
    requires
        st.sound(),
        is_recorded(st),
        st.db.detail(st.scheduler.run)->0.run.status == "running"@,
        follows(st, steps),
        arrival(st, steps).db.room((st.scheduler.workflow.tasks.len() + 1) as int),
        follows(started(arrival(st, steps).db, st.scheduler.run, true, resumed), more),
    ensures
        refusal(arrival(st, steps).db, st.scheduler.run, true) is None,
        carries_on(
            arrival(st, steps),
            arrival(started(arrival(st, steps).db, st.scheduler.run, true, resumed), more),
            more,
        ),
{
    lemma_statuses();
    let stop = arrival(st, steps);
    law_soundness_along_steps(st, steps);
    lemma_still_recorded(st, stop);
    lemma_carries_on(stop, stop.db, resumed, more);
}

/// A run goes on being the recorded one.
proof fn lemma_still_recorded(st: RunState, stop: RunState)
    requires
        is_recorded(st),
        stop.db.runs == st.db.runs,
        stop.scheduler == (SchedulerModel { active: stop.scheduler.active, ..st.scheduler }),
    ensures
        is_recorded(stop),
        stop.db.detail(st.scheduler.run)->0.run == st.db.detail(st.scheduler.run)->0.run,
{
    assert(scheduler_of(stop.db.detail(st.scheduler.run)->0, st.scheduler.run) =~= scheduler_of(
        st.db.detail(st.scheduler.run)->0,
        st.scheduler.run,
    ));
}

/// A run that was taken up is the recorded one.
pub proof fn law_started_run_is_recorded(m: DbModel, run: Seq<char>, resume: bool, now: i64)
    requires
        refusal(m, run, resume) is None,
    ensures
        is_recorded(started(m, run, resume, now)),
        started(m, run, resume, now).db.detail(run)->0.run.status == "running"@,
{
    let w = m.detail(run)->0.workflow;
    let ready = if resume {
        m.recover(run, w, now)
    } else {
        m
    };
    lemma_recovery_keeps_runs(m, run, w, now);
    lemma_run_status(ready, run, "running"@, now);
    let st = started(m, run, resume, now);
    assert(scheduler_of(st.db.detail(run)->0, run) =~= st.scheduler);
}

} // verus!
