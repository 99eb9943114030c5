//! What taking up a run, each decision of its scheduler and its end come to.

use crate::cli::given_up;
use crate::json::{json_object, ScalarModel};
use crate::laws::{law_concurrency_limit, lemma_same_filter};
use crate::lifecycle::{
    lemma_decide_effect, lemma_moved, lemma_statuses, lemma_without, record_sound, Step,
};
use crate::model::{tasks_of, DbModel};
use crate::operations::{law_runs_read_back, law_setting_a_task, text_or_null};
use crate::paths::{arrival, follows, law_soundness_along_steps};
use crate::records::{EventModel, TaskRecord};
use crate::recovery::{law_resumed_run_is_sound, law_started_run_is_sound, started, untouched};
use crate::scheduler::{
    doomed, ids, lost, ready, ready_tasks, refusal, scheduler_of, set_each, taken_up, verdict,
    without, ActionModel, OutcomeModel, RefusalModel, SchedulerModel,
};
use crate::simulation::lemma_kept_places;
use crate::text::joined;
use crate::worker::{attempt_closed, ResultModel};
use crate::workflow::{TaskModel, WorkflowModel};
use vstd::prelude::*;

verus! {

// ---------------------------------------------------------------------------
// Taking up a run
// ---------------------------------------------------------------------------

/// A run is started exactly where it is recorded with a valid workflow and waits;
/// it is resumed exactly where it is recorded with a valid workflow and all its
/// tasks, and has neither succeeded nor failed. Whoever is refused is told the
/// first reason that holds.
pub proof fn law_which_runs_are_taken_up(m: DbModel, run: Seq<char>)
    ensures
        m.detail(run) is None ==> refusal(m, run, false) == Some(RefusalModel::Unknown) && refusal(
            m,
            run,
            true,
        ) == Some(RefusalModel::Unknown),
        m.detail(run) matches Some(d) ==> {
            let over = d.run.status == "success"@ || d.run.status == "failed"@;
            let invalid = RefusalModel::Invalid(joined(d.workflow.messages(), "\n"@));
            &&& refusal(m, run, false) is None <==> d.workflow.valid() && d.run.status
                == "pending"@
            &&& refusal(m, run, true) is None <==> d.workflow.valid() && !over && m.covers(
                run,
                d.workflow,
            )
            &&& !d.workflow.valid() ==> refusal(m, run, false) == Some(invalid) && refusal(
                m,
                run,
                true,
            ) == Some(invalid)
            &&& d.workflow.valid() && d.run.status != "pending"@ ==> refusal(m, run, false) == Some(
                RefusalModel::Started,
            )
            &&& d.workflow.valid() && over ==> refusal(m, run, true) == Some(RefusalModel::Finished)
            &&& d.workflow.valid() && !over && !m.covers(run, d.workflow) ==> refusal(m, run, true)
                == Some(RefusalModel::Unrecorded)
        },
{
}

/// What a refusal tells names the run, or what is wrong with its workflow.
pub proof fn law_refusals_say_why(run: Seq<char>, text: Seq<char>)
    ensures
        RefusalModel::Unknown.message(run) == "exécution inconnue : "@ + run,
        RefusalModel::Started.message(run) == "exécution déjà démarrée : "@ + run,
        RefusalModel::Finished.message(run) == "exécution terminée : "@ + run,
        RefusalModel::Invalid(text).message(run) == text,
        RefusalModel::Unrecorded.message(run) == "Query returned no rows"@,
{
}

/// A run that is taken up goes by its record: it runs the recorded workflow, in
/// the recorded directory, at most as many tasks at once as are recorded, and
/// nothing is active yet. A fresh start only sets the run running; a resumption
/// recovers the run first.
pub proof fn law_a_run_goes_by_its_record(
    m: DbModel,
    k: int,
    resume: bool,
    now: i64,
)
    requires
        m.keyed(),
        0 <= k < m.runs.len(),
    ensures
        ({
            let row = m.runs[k];
            let st = started(m, row.run.id, resume, now);
            &&& st.scheduler.run == row.run.id
            &&& st.scheduler.workflow == row.workflow
            &&& st.scheduler.source_dir == row.source_dir
            &&& 0 <= row.max_parallel <= usize::MAX ==> st.scheduler.limit == row.max_parallel
            &&& st.scheduler.active.len() == 0
            &&& !st.cancelled
            &&& st.db == (if resume {
                m.recover(row.run.id, row.workflow, now)
            } else {
                m
            }).set_run(row.run.id, "running"@, now)
        }),
        scheduler_of(m.detail(m.runs[k].run.id)->0, m.runs[k].run.id) == started(
            m,
            m.runs[k].run.id,
            resume,
            now,
        ).scheduler,
        taken_up(m, m.runs[k].run.id, resume, now) == started(
            m,
            m.runs[k].run.id,
            resume,
            now,
        ).db,
{
    law_runs_read_back(m, k);
}

/// At no moment of a run are more of its tasks queued, running or waiting for a
/// retry than the limit that is recorded with it, whether it was started or
/// resumed.
pub proof fn law_the_recorded_limit_is_kept(
    m: DbModel,
    k: int,
    resume: bool,
    now: i64,
    steps: Seq<(Step, i64)>,
    positions: Seq<int>,
)
    requires
        0 <= k < m.runs.len(),
        refusal(m, m.runs[k].run.id, resume) is None,
        record_sound(m, m.runs[k].run.id, m.runs[k].workflow),
        !resume ==> untouched(m, m.runs[k].run.id, m.runs[k].workflow),
        m.room((m.runs[k].workflow.tasks.len() + 1) as int),
        0 <= m.runs[k].max_parallel <= usize::MAX,
        follows(started(m, m.runs[k].run.id, resume, now), steps),
        positions.no_duplicates(),
        forall|a: int|
            0 <= a < positions.len() ==> {
                let status = arrival(started(m, m.runs[k].run.id, resume, now), steps).state(
                    #[trigger] positions[a],
                ).status;
                &&& 0 <= positions[a] < m.runs[k].workflow.tasks.len()
                &&& status == "queued"@ || status == "running"@ || status == "retrying"@
            },
    ensures
        positions.len() <= m.runs[k].max_parallel,
{
    let run = m.runs[k].run.id;
    law_runs_read_back(m, k);
    law_a_run_goes_by_its_record(m, k, resume, now);
    if resume {
        law_resumed_run_is_sound(m, run, now);
    } else {
        law_started_run_is_sound(m, run, now);
    }
    let st = started(m, run, resume, now);
    law_soundness_along_steps(st, steps);
    law_concurrency_limit(arrival(st, steps), positions);
}

// ---------------------------------------------------------------------------
// Decisions
// ---------------------------------------------------------------------------

/// Some task waits for a dependency that failed or is blocked.
pub open spec fn someone_is_doomed(m: DbModel, run: Seq<char>, w: WorkflowModel) -> bool {
    exists|i: int| 0 <= i < w.tasks.len() && waits_in_vain(m, run, #[trigger] w.tasks[i])
}

/// The task waits, and a dependency of it failed or is blocked.
pub open spec fn waits_in_vain(m: DbModel, run: Seq<char>, t: TaskModel) -> bool {
    &&& m.status(run, t.id) == "pending"@
    &&& exists|k: int|
        0 <= k < t.dependencies.len() && (m.status(run, #[trigger] t.dependencies[k]) == "failed"@
            || m.status(run, t.dependencies[k]) == "blocked"@)
}

/// The task waits, and all that it depends on has succeeded.
pub open spec fn may_go(m: DbModel, run: Seq<char>, t: TaskModel) -> bool {
    &&& m.status(run, t.id) == "pending"@
    &&& forall|k: int|
        0 <= k < t.dependencies.len() ==> m.status(run, #[trigger] t.dependencies[k])
            == "success"@
}

proof fn lemma_doomed(m: DbModel, run: Seq<char>, t: TaskModel)
    ensures
        doomed(m, run, t) <==> waits_in_vain(m, run, t),
{
    if doomed(m, run, t) {
        let k = choose|k: int|
            0 <= k < t.dependencies.len() && lost(m, run, #[trigger] t.dependencies[k]);
        assert(m.status(run, t.dependencies[k]) == "failed"@ || m.status(run, t.dependencies[k])
            == "blocked"@);
    }
    if waits_in_vain(m, run, t) {
        let k = choose|k: int|
            0 <= k < t.dependencies.len() && (m.status(run, #[trigger] t.dependencies[k])
                == "failed"@ || m.status(run, t.dependencies[k]) == "blocked"@);
        assert(lost(m, run, t.dependencies[k]));
    }
}

/// The decision of a scheduler. Once cancelled, it blocks and launches nothing.
/// Before that it blocks whatever waits in vain, and while there is such a task it
/// does nothing else; then it launches the first tasks, in the order of the
/// workflow, that wait and whose dependencies have all succeeded, exactly as many
/// as the limit leaves room for beside those that are active, or all where there
/// are fewer. Where it does neither, it waits for an active task, or concludes
/// where there is none.
pub proof fn law_decisions(s: SchedulerModel, m: DbModel, cancelled: bool) -> (places: Seq<int>)
    ensures
        cancelled ==> s.action(m, cancelled) == if s.active.len() > 0 {
            ActionModel::Wait
        } else {
            ActionModel::Conclude
        },
        s.action(m, cancelled) is Again <==> !cancelled && someone_is_doomed(m, s.run, s.workflow),
        s.action(m, cancelled) is Launch <==> {
            &&& !cancelled
            &&& !someone_is_doomed(m, s.run, s.workflow)
            &&& s.active.len() < s.limit
            &&& exists|i: int|
                0 <= i < s.workflow.tasks.len() && may_go(m, s.run, #[trigger] s.workflow.tasks[i])
        },
        !(s.action(m, cancelled) is Again) && !(s.action(m, cancelled) is Launch) ==> s.action(
            m,
            cancelled,
        ) == if s.active.len() > 0 {
            ActionModel::Wait
        } else {
            ActionModel::Conclude
        },
        s.action(m, cancelled) matches ActionModel::Launch(tasks) ==> {
            &&& 0 < tasks.len() && s.active.len() + tasks.len() <= s.limit
            &&& places.len() == tasks.len()
            &&& forall|a: int|
                0 <= a < tasks.len() ==> {
                    &&& 0 <= #[trigger] places[a] < s.workflow.tasks.len()
                    &&& tasks[a] == s.workflow.tasks[places[a]]
                    &&& may_go(m, s.run, tasks[a])
                }
            &&& forall|a: int, b: int|
                0 <= a < b < places.len() ==> #[trigger] places[a] < #[trigger] places[b]
            &&& forall|i: int|
                0 <= i < s.workflow.tasks.len() && may_go(
                    m,
                    s.run,
                    #[trigger] s.workflow.tasks[i],
                ) && !places.contains(i) ==> s.active.len() + tasks.len() == s.limit && forall|
                    a: int,
                |
                    0 <= a < places.len() ==> #[trigger] places[a] < i
        },
{
    let w = s.workflow;
    let run = s.run;
    let p = |t: TaskModel| doomed(m, run, t);
    let q = |t: TaskModel| ready(m, run, t);
    assert forall|t: TaskModel| #[trigger] doomed(m, run, t) <==> waits_in_vain(m, run, t) by {
        lemma_doomed(m, run, t);
    }
    let vain = lemma_kept_places(w.tasks, p);
    if vain.len() > 0 {
        assert(waits_in_vain(m, run, w.tasks[vain[0]]));
    }
    if someone_is_doomed(m, run, w) {
        let i = choose|i: int|
            0 <= i < w.tasks.len() && waits_in_vain(m, run, #[trigger] w.tasks[i]);
        assert(p(w.tasks[i]));
        assert(vain.contains(i));
    }
    let all = lemma_kept_places(w.tasks, q);
    let n = s.chosen(m).len() as int;
    let places = all.take(n);
    if all.len() > 0 {
        assert(may_go(m, run, w.tasks[all[0]]));
    }
    if exists|i: int| 0 <= i < w.tasks.len() && may_go(m, run, #[trigger] w.tasks[i]) {
        let i = choose|i: int| 0 <= i < w.tasks.len() && may_go(m, run, #[trigger] w.tasks[i]);
        assert(q(w.tasks[i]));
        assert(all.contains(i));
    }
    if let ActionModel::Launch(tasks) = s.action(m, cancelled) {
        assert forall|a: int| 0 <= a < tasks.len() implies 0 <= #[trigger] places[a]
            < w.tasks.len() && tasks[a] == w.tasks[places[a]] && may_go(m, run, tasks[a]) by {
            assert(places[a] == all[a]);
            assert(tasks[a] == ready_tasks(m, run, w)[a]);
        }
        assert forall|i: int|
            0 <= i < w.tasks.len() && may_go(m, run, #[trigger] w.tasks[i]) && !places.contains(
                i,
            ) implies s.active.len() + tasks.len() == s.limit && forall|a: int|
            0 <= a < places.len() ==> #[trigger] places[a] < i by {
            assert(q(w.tasks[i]));
            assert(all.contains(i));
            let b = all.index_of(i);
            if b < n {
                assert(places[b] == i);
            }
            assert forall|a: int| 0 <= a < places.len() implies #[trigger] places[a] < i by {
                assert(all[a] < all[b]);
            }
        }
    }
    places
}

/// The event of a task whose status was set.
pub open spec fn status_event(
    id: int,
    run: Seq<char>,
    task: Seq<char>,
    status: Seq<char>,
    error: Option<Seq<char>>,
    now: i64,
) -> EventModel {
    EventModel {
        id: id as i64,
        run_id: run,
        kind: "task"@,
        payload: json_object(
            seq![
                ("task_id"@, ScalarModel::Text(task)),
                ("status"@, ScalarModel::Text(status)),
                ("error"@, text_or_null(error)),
            ],
        ),
        created_at: now,
    }
}

proof fn lemma_set_each_rows(
    m: DbModel,
    run: Seq<char>,
    tasks: Seq<TaskModel>,
    status: Seq<char>,
    error: Option<Seq<char>>,
    now: i64,
)
    requires
        m.room(tasks.len() as int),
    ensures
        ({
            let after = set_each(m, run, tasks, status, error, now);
            &&& after.runs == m.runs
            &&& after.attempts == m.attempts
            &&& after.logs == m.logs
            &&& after.last_log == m.last_log
            &&& after.last_event == m.last_event + tasks.len()
            &&& after.events == m.events + Seq::new(
                tasks.len(),
                |a: int|
                    status_event(m.last_event + 1 + a, run, tasks[a].id, status, error, now),
            )
        }),
    decreases tasks.len(),
{
    let after = set_each(m, run, tasks, status, error, now);
    let all = Seq::new(
        tasks.len(),
        |a: int| status_event(m.last_event + 1 + a, run, tasks[a].id, status, error, now),
    );
    if tasks.len() > 0 {
        let head = tasks.drop_last();
        let before = set_each(m, run, head, status, error, now);
        lemma_set_each_rows(m, run, head, status, error, now);
        law_setting_a_task(before, run, tasks.last().id, status, error, now);
        assert(after.events =~= before.events.push(all[tasks.len() - 1]));
        assert(after.events =~= m.events + all);
    } else {
        assert(m.events + all =~= m.events);
    }
}

/// What a decision records. A launched task is queued, without an error; one that
/// waits in vain is blocked, tells of the failed dependency, and is over. Neither
/// its count of attempts nor its start changes. Every other task stays as it is,
/// and so do runs, attempts and the log; one event is noted for each task that
/// changed, in the order of the workflow. The launched tasks become active.
pub proof fn law_decisions_are_recorded(
    s: SchedulerModel,
    m: DbModel,
    cancelled: bool,
    now: i64,
    i: int,
)
    requires
        m.well_formed(),
        m.covers(s.run, s.workflow),
        s.workflow.distinct(),
        m.room(s.workflow.tasks.len() as int),
        0 <= i < s.workflow.tasks.len(),
    ensures
        ({
            let after = s.next_db(m, cancelled, now);
            let next = s.next(m, cancelled);
            let task = s.workflow.tasks[i];
            let t = m.task(s.run, task.id)->0;
            let u = after.task(s.run, task.id)->0;
            let launched = s.action(m, cancelled) matches ActionModel::Launch(tasks)
                && tasks.contains(task);
            let blocked = s.action(m, cancelled) is Again && waits_in_vain(m, s.run, task);
            &&& after.task(s.run, task.id) is Some
            &&& !launched && !blocked ==> u == t
            &&& launched ==> u.status == "queued"@ && u.error is None && u.finished_at is None
            &&& blocked ==> u.status == "blocked"@ && u.error == Some("dépendance échouée"@)
                && u.finished_at == Some(now)
            &&& u.id == t.id && u.attempts == t.attempts && u.started_at == t.started_at
            &&& after.runs == m.runs && after.attempts == m.attempts && after.logs == m.logs
            &&& next.run == s.run && next.workflow == s.workflow && next.source_dir
                == s.source_dir && next.limit == s.limit
            &&& next.active == match s.action(m, cancelled) {
                ActionModel::Launch(tasks) => s.active + tasks.map_values(|t: TaskModel| t.id),
                _ => s.active,
            }
            &&& s.action(m, cancelled) matches ActionModel::Launch(tasks) ==> after.events
                == m.events + Seq::new(
                tasks.len(),
                |a: int|
                    status_event(
                        m.last_event + 1 + a,
                        s.run,
                        tasks[a].id,
                        "queued"@,
                        None,
                        now,
                    ),
            )
            &&& s.action(m, cancelled) is Again ==> {
                let tasks = s.workflow.tasks.filter(|t: TaskModel| waits_in_vain(m, s.run, t));
                after.events == m.events + Seq::new(
                    tasks.len(),
                    |a: int|
                        status_event(
                            m.last_event + 1 + a,
                            s.run,
                            tasks[a].id,
                            "blocked"@,
                            Some("dépendance échouée"@),
                            now,
                        ),
                )
            }
            &&& !(s.action(m, cancelled) is Again) && !(s.action(m, cancelled) is Launch)
                ==> after == m
        }),
        forall|r: Seq<char>, id: Seq<char>|
            r != s.run || !s.workflow.knows(id) ==> #[trigger] s.next_db(m, cancelled, now).task(
                r,
                id,
            ) == m.task(r, id),
{
    lemma_statuses();
    let w = s.workflow;
    let task = w.tasks[i];
    let tasks = s.moved(m, cancelled);
    lemma_moved(s, m, cancelled);
    lemma_decide_effect(s, m, cancelled, now);
    lemma_set_each_rows(
        m,
        s.run,
        tasks,
        s.moved_status(m, cancelled),
        s.moved_error(m, cancelled),
        now,
    );
    assert forall|r: Seq<char>, id: Seq<char>|
        r != s.run || !w.knows(id) implies #[trigger] s.next_db(m, cancelled, now).task(r, id)
        == m.task(r, id) by {
        if r == s.run && ids(tasks).contains(id) {
            let a = ids(tasks).index_of(id);
            assert(w.tasks.contains(tasks[a]));
            assert(w.tasks[w.tasks.index_of(tasks[a])].id == id);
        }
    }
    assert(m.task(s.run, task.id) is Some);
    assert(ids(tasks).contains(task.id) <==> tasks.contains(task)) by {
        if tasks.contains(task) {
            let a = tasks.index_of(task);
            assert(ids(tasks)[a] == task.id);
        }
        if ids(tasks).contains(task.id) {
            let a = ids(tasks).index_of(task.id);
            assert(w.tasks.contains(tasks[a]));
            let j = w.tasks.index_of(tasks[a]);
            if j < i {
                assert(w.tasks[j].id != w.tasks[i].id);
            } else if i < j {
                assert(w.tasks[i].id != w.tasks[j].id);
            }
            assert(tasks[a] == task);
        }
    }
    if s.action(m, cancelled) is Again {
        let p = |t: TaskModel| doomed(m, s.run, t);
        assert forall|j: int| 0 <= j < w.tasks.len() implies p(#[trigger] w.tasks[j])
            == waits_in_vain(m, s.run, w.tasks[j]) by {
            lemma_doomed(m, s.run, w.tasks[j]);
        }
        lemma_same_filter(w.tasks, p, |t: TaskModel| waits_in_vain(m, s.run, t));
        let vain = lemma_kept_places(w.tasks, p);
        if waits_in_vain(m, s.run, task) {
            assert(p(w.tasks[i]));
            assert(vain.contains(i));
            let a = vain.index_of(i);
            assert(tasks[a] == task);
        }
    }
}

// ---------------------------------------------------------------------------
// The end of a task and of a run
// ---------------------------------------------------------------------------

/// A task that ended is active no more, and every other is as active as before.
pub proof fn law_settled_tasks_are_active_no_more(active: Seq<Seq<char>>, id: Seq<char>)
    requires
        active.no_duplicates(),
    ensures
        forall|x: Seq<char>|
            #[trigger] without(active, id).contains(x) <==> active.contains(x) && x != id,
        without(active, id).no_duplicates(),
        without(active, id).len() == active.len() - if active.contains(id) {
            1int
        } else {
            0
        },
{
    lemma_without(active, id);
}

/// How the end of a task is recorded: a success, a failure with its reason, or a
/// task that waits again because it was interrupted.
pub proof fn law_settling_a_task(
    s: SchedulerModel,
    m: DbModel,
    task: Seq<char>,
    reason: Seq<char>,
    now: i64,
)
    ensures
        s.settle_db(m, task, OutcomeModel::Success, now) == m.set_task(
            s.run,
            task,
            "success"@,
            None,
            now,
        ),
        s.settle_db(m, task, OutcomeModel::Failed(reason), now) == m.set_task(
            s.run,
            task,
            "failed"@,
            Some(reason),
            now,
        ),
        s.settle_db(m, task, OutcomeModel::Interrupted, now) == m.set_task(
            s.run,
            task,
            "pending"@,
            Some("interrompue ; utiliser kordrel resume"@),
            now,
        ),
{
}

/// How the end of an attempt is recorded: it ends as it went, and a failure that
/// leaves attempts in the budget sets the task to be retried, with the reason.
pub proof fn law_ended_attempts_are_recorded(
    m: DbModel,
    run: Seq<char>,
    t: TaskModel,
    attempt: i64,
    reason: Seq<char>,
    now: i64,
)
    ensures
        attempt_closed(m, run, t, attempt, ResultModel::Success, now) == m.finish_attempt(
            run,
            t.id,
            attempt,
            "success"@,
            None,
            now,
        ),
        attempt_closed(m, run, t, attempt, ResultModel::Interrupted, now) == m.finish_attempt(
            run,
            t.id,
            attempt,
            "interrupted"@,
            Some("arrêt demandé"@),
            now,
        ),
        ({
            let failed = m.finish_attempt(run, t.id, attempt, "failed"@, Some(reason), now);
            attempt_closed(m, run, t, attempt, ResultModel::Failure(reason), now) == if attempt
                < t.budget() {
                failed.set_task(run, t.id, "retrying"@, Some(reason), now)
            } else {
                failed
            }
        }),
{
}

/// Some task of the run has this status.
pub open spec fn some_task_is(m: DbModel, run: Seq<char>, status: Seq<char>) -> bool {
    exists|j: int|
        0 <= j < m.tasks.len() && (#[trigger] m.tasks[j]).run_id == run && m.tasks[j].task.status
            == status
}

/// Every task of the run has succeeded.
pub open spec fn all_tasks_succeeded(m: DbModel, run: Seq<char>) -> bool {
    forall|j: int|
        0 <= j < m.tasks.len() && (#[trigger] m.tasks[j]).run_id == run ==> m.tasks[j].task.status
            == "success"@
}

/// How a run ends: interrupted where it was cancelled; else with success exactly
/// where all its tasks have succeeded; else not at all where a task still waits;
/// else with failure.
pub proof fn law_how_runs_end(m: DbModel, run: Seq<char>)
    ensures
        verdict(tasks_of(m.tasks, run), true) == Some("interrupted"@),
        all_tasks_succeeded(m, run) ==> verdict(tasks_of(m.tasks, run), false) == Some("success"@),
        !all_tasks_succeeded(m, run) && some_task_is(m, run, "pending"@) ==> verdict(
            tasks_of(m.tasks, run),
            false,
        ) is None,
        !all_tasks_succeeded(m, run) && !some_task_is(m, run, "pending"@) ==> verdict(
            tasks_of(m.tasks, run),
            false,
        ) == Some("failed"@),
{
    let rows = tasks_of(m.tasks, run);
    if all_tasks_succeeded(m, run) {
        assert forall|k: int| 0 <= k < rows.len() implies #[trigger] rows[k].status
            == "success"@ by {
            let j = lemma_row_of_state(m, run, k);
            assert(m.tasks[j].task.status == "success"@);
        }
    } else {
        let j = choose|j: int|
            0 <= j < m.tasks.len() && (#[trigger] m.tasks[j]).run_id == run
                && m.tasks[j].task.status != "success"@;
        let k = lemma_state_of_row(m, run, j);
        assert(rows[k].status != "success"@);
        if some_task_is(m, run, "pending"@) {
            let a = choose|j: int|
                0 <= j < m.tasks.len() && (#[trigger] m.tasks[j]).run_id == run
                    && m.tasks[j].task.status == "pending"@;
            let b = lemma_state_of_row(m, run, a);
            assert(rows[b].status == "pending"@);
        } else {
            assert forall|k: int| 0 <= k < rows.len() implies #[trigger] rows[k].status
                != "pending"@ by {
                let a = lemma_row_of_state(m, run, k);
                assert(m.tasks[a].task.status != "pending"@);
            }
        }
    }
}

/// The row behind a task of a run.
proof fn lemma_row_of_state(m: DbModel, run: Seq<char>, k: int) -> (j: int)
    requires
        0 <= k < tasks_of(m.tasks, run).len(),
    ensures
        0 <= j < m.tasks.len(),
        m.tasks[j].run_id == run,
        m.tasks[j].task == tasks_of(m.tasks, run)[k],
{
    let p = |r: TaskRecord| r.run_id == run;
    let kept = m.tasks.filter(p);
    m.tasks.lemma_filter_pred(p, k);
    assert(kept.contains(kept[k]));
    m.tasks.lemma_filter_contains_rev(p, kept[k]);
    choose|j: int| 0 <= j < m.tasks.len() && m.tasks[j] == kept[k]
}

/// The task of a run that a row is about.
proof fn lemma_state_of_row(m: DbModel, run: Seq<char>, j: int) -> (k: int)
    requires
        0 <= j < m.tasks.len(),
        m.tasks[j].run_id == run,
    ensures
        0 <= k < tasks_of(m.tasks, run).len(),
        tasks_of(m.tasks, run)[k] == m.tasks[j].task,
{
    let p = |r: TaskRecord| r.run_id == run;
    let kept = m.tasks.filter(p);
    m.tasks.lemma_filter_contains(p, j);
    choose|k: int| 0 <= k < kept.len() && kept[k] == m.tasks[j]
}

/// Giving up a run interrupts it where it is running, after it was recovered as
/// far as its tasks are recorded; a run in any other state stays as it is.
pub proof fn law_giving_up_a_run(m: DbModel, run: Seq<char>, now: i64)
    ensures
        m.detail(run) is None ==> given_up(m, run, now) == m,
        m.detail(run) matches Some(d) ==> {
            &&& d.run.status != "running"@ ==> given_up(m, run, now) == m
            &&& d.run.status == "running"@ && m.covers(run, d.workflow) ==> given_up(m, run, now)
                == m.recover(run, d.workflow, now).set_run(run, "interrupted"@, now)
            &&& d.run.status == "running"@ && !m.covers(run, d.workflow) ==> given_up(m, run, now)
                == m.set_run(run, "interrupted"@, now)
        },
{
}

} // verus!
