//! What starting, interrupting and resuming a run promise.

use crate::cli::given_up;
use crate::lifecycle::{
    counted, is_counted, is_open, lemma_active_after_decision, lemma_budget_positive, lemma_moved,
    lemma_patch_effect, lemma_record_stays_sound, lemma_statuses, lemma_stays, lemma_stays_counted,
    lemma_step_state, lemma_without, moves_soundly, record_sound, same_keys, state_of, task_sound,
    under_way, RunState, Step,
};
use crate::model::{
    attempts_interrupted, attempts_of, is_task, lemma_attempts_keep, lemma_create_keeps,
    lemma_event_keeps, lemma_patch_keeps, lemma_run_found, lemma_run_set_keeps, lemma_state_id,
    lemma_state_unique, needs_recovery, new_tasks, recovery_error, recovery_patch, recovery_status,
    run_payload, run_record, run_set, task_payload, task_state, tasks_of, waiting_task, DbModel,
};
use crate::records::{AttemptModel, AttemptRecord, RunRecord, TaskRecord, TaskState};
use crate::scheduler::{refusal, scheduler_of, taken_up, RefusalModel};
use crate::workflow::{TaskModel, WorkflowModel};
use vstd::prelude::*;

verus! {

/// A task after recovery.
pub open spec fn recovered(t: TaskState, budget: int, now: i64) -> TaskState {
    if needs_recovery(t, budget) {
        recovery_patch(t.attempts as int, budget, now).apply(t)
    } else {
        t
    }
}

proof fn lemma_recover_task_effect(m: DbModel, run: Seq<char>, t: TaskModel, now: i64)
    requires
        m.well_formed(),
        m.room(1),
        m.task(run, t.id) is Some,
    ensures
        ({
            let after = m.recover_task(run, t, now);
            &&& after.well_formed()
            &&& m.last_event <= after.last_event <= m.last_event + 1
            &&& same_keys(m, after)
            &&& after.attempts == m.attempts
            &&& forall|r: Seq<char>, id: Seq<char>|
                r != run || id != t.id ==> #[trigger] after.task(r, id) == m.task(r, id)
            &&& after.task(run, t.id) == Some(recovered(m.task(run, t.id)->0, t.budget(), now))
        }),
{
    let state = m.task(run, t.id)->0;
    let attempts = state.attempts as int;
    if needs_recovery(state, t.budget()) {
        let patch = recovery_patch(attempts, t.budget(), now);
        let mid = m.with_patch(run, t.id, patch);
        lemma_patch_effect(m, run, t.id, patch);
        lemma_patch_keeps(m, run, t.id, patch);
        let payload = task_payload(
            t.id,
            recovery_status(attempts, t.budget()),
            Some(recovery_error(attempts, t.budget())),
        );
        lemma_event_keeps(mid, run, "task"@, payload, now);
        let after = m.recover_task(run, t, now);
        assert forall|r: Seq<char>, id: Seq<char>| r != run || id != t.id implies #[trigger]
            after.task(r, id) == m.task(r, id) by {
            assert(after.task(r, id) == mid.task(r, id));
        }
        assert(after.task(run, t.id) == mid.task(run, t.id));
    }
}

/// The recovery of the first `k` tasks: each of them is recovered, and nothing
/// else changes.
proof fn lemma_recover_tasks_effect(
    m: DbModel,
    run: Seq<char>,
    w: WorkflowModel,
    k: nat,
    now: i64,
)
    requires
        m.well_formed(),
        m.covers(run, w),
        w.distinct(),
        k <= w.tasks.len(),
        m.room(k as int),
    ensures
        ({
            let after = m.recover_tasks(run, w.tasks, k, now);
            &&& after.well_formed()
            &&& m.last_event <= after.last_event <= m.last_event + k
            &&& same_keys(m, after)
            &&& after.attempts == m.attempts
            &&& forall|r: Seq<char>, id: Seq<char>|
                r != run || !w.knows(id) ==> #[trigger] after.task(r, id) == m.task(r, id)
            &&& forall|i: int|
                0 <= i < w.tasks.len() ==> (#[trigger] after.task(run, w.tasks[i].id)) == Some(
                    if i < k {
                        recovered(state_of(m, run, w, i), w.tasks[i].budget(), now)
                    } else {
                        state_of(m, run, w, i)
                    },
                )
        }),
    decreases k,
{
    let after = m.recover_tasks(run, w.tasks, k, now);
    if k == 0 {
        assert forall|i: int| 0 <= i < w.tasks.len() implies (#[trigger] after.task(
            run,
            w.tasks[i].id,
        )) == Some(state_of(m, run, w, i)) by {
            assert(m.task(run, w.tasks[i].id) is Some);
        }
    } else {
        let p = (k - 1) as nat;
        let before = m.recover_tasks(run, w.tasks, p, now);
        lemma_recover_tasks_effect(m, run, w, p, now);
        let t = w.tasks[k - 1];
        assert(before.task(run, w.tasks[k - 1].id) is Some);
        lemma_recover_task_effect(before, run, t, now);
        assert forall|j: int| 0 <= j < m.tasks.len() implies is_task(
            #[trigger] after.tasks[j],
            m.tasks[j].run_id,
            m.tasks[j].task.id,
        ) by {
            assert(is_task(before.tasks[j], m.tasks[j].run_id, m.tasks[j].task.id));
        }
        assert forall|r: Seq<char>, id: Seq<char>| r != run || !w.knows(id) implies #[trigger]
            after.task(r, id) == m.task(r, id) by {
            assert(before.task(r, id) == m.task(r, id));
        }
        assert forall|i: int| 0 <= i < w.tasks.len() implies (#[trigger] after.task(
            run,
            w.tasks[i].id,
        )) == Some(
            if i < k {
                recovered(state_of(m, run, w, i), w.tasks[i].budget(), now)
            } else {
                state_of(m, run, w, i)
            },
        ) by {
            assert(before.task(run, w.tasks[i].id) is Some);
            if i != k - 1 {
                assert(w.tasks[i].id != t.id);
            }
        }
    }
}

/// Recovery, on each task, on the attempts, and on the record as a whole.
pub proof fn lemma_recover_effect(m: DbModel, run: Seq<char>, w: WorkflowModel, now: i64)
    requires
        m.well_formed(),
        m.covers(run, w),
        w.distinct(),
        m.room(w.tasks.len() as int),
    ensures
        ({
            let after = m.recover(run, w, now);
            &&& after.well_formed()
            &&& m.last_event <= after.last_event <= m.last_event + w.tasks.len()
            &&& same_keys(m, after)
            &&& after.attempts == attempts_interrupted(m.attempts, run, now)
            &&& forall|r: Seq<char>, id: Seq<char>|
                r != run || !w.knows(id) ==> #[trigger] after.task(r, id) == m.task(r, id)
            &&& forall|i: int|
                0 <= i < w.tasks.len() ==> (#[trigger] after.task(run, w.tasks[i].id)) == Some(
                    recovered(state_of(m, run, w, i), w.tasks[i].budget(), now),
                )
        }),
{
    let rows = attempts_interrupted(m.attempts, run, now);
    let start = DbModel { attempts: rows, ..m };
    lemma_attempts_keep(m, rows);
    assert forall|i: int| 0 <= i < w.tasks.len() implies start.task(
        run,
        (#[trigger] w.tasks[i]).id,
    ) is Some by {
        assert(m.task(run, w.tasks[i].id) is Some);
    }
    lemma_recover_tasks_effect(start, run, w, w.tasks.len(), now);
    let after = m.recover(run, w, now);
    assert forall|r: Seq<char>, id: Seq<char>| r != run || !w.knows(id) implies #[trigger]
        after.task(r, id) == m.task(r, id) by {
        assert(start.task(r, id) == m.task(r, id));
    }
    assert forall|i: int| 0 <= i < w.tasks.len() implies (#[trigger] after.task(
        run,
        w.tasks[i].id,
    )) == Some(recovered(state_of(m, run, w, i), w.tasks[i].budget(), now)) by {
        assert(state_of(start, run, w, i) == state_of(m, run, w, i));
    }
}

/// Recovery keeps a sound record sound. Afterwards no task of the run is being
/// worked on, every task that waits has attempts left, and the attempts that
/// were running are interrupted. An interrupted attempt stays counted; a task
/// that succeeded, failed or is blocked stays exactly as it was.
pub proof fn law_recovery(m: DbModel, run: Seq<char>, w: WorkflowModel, now: i64)
    requires
        record_sound(m, run, w),
        m.room(w.tasks.len() as int),
    ensures
        record_sound(m.recover(run, w, now), run, w),
        forall|i: int|
            0 <= i < w.tasks.len() ==> {
                let t = state_of(m, run, w, i);
                let u = #[trigger] state_of(m.recover(run, w, now), run, w, i);
                &&& !under_way(u.status)
                &&& u.attempts == t.attempts
                &&& u.status == "pending"@ ==> u.attempts < w.tasks[i].budget()
                &&& t.status == "success"@ || t.status == "failed"@ || t.status == "blocked"@
                    ==> u == t
                &&& under_way(t.status) && t.attempts < w.tasks[i].budget() ==> u.status
                    == "pending"@
                &&& under_way(t.status) && t.attempts >= w.tasks[i].budget() ==> u.status
                    == "failed"@
            },
        m.recover(run, w, now).attempts.len() == m.attempts.len(),
        forall|j: int|
            0 <= j < m.attempts.len() ==> {
                let a = m.attempts[j];
                let b = #[trigger] m.recover(run, w, now).attempts[j];
                if a.run_id == run && a.attempt.status == "running"@ {
                    b.run_id == run && b.attempt.status == "interrupted"@
                } else {
                    b == a
                }
            },
{
    lemma_statuses();
    let after = m.recover(run, w, now);
    lemma_recover_effect(m, run, w, now);
    assert forall|r: Seq<char>, id: Seq<char>| (#[trigger] m.task(r, id)) is Some implies after.task(
        r,
        id,
    ) is Some && after.task(r, id)->0.attempts >= m.task(r, id)->0.attempts by {
        if r == run && w.knows(id) {
            let i = choose|i: int| 0 <= i < w.tasks.len() && #[trigger] w.tasks[i].id == id;
            assert(after.task(run, w.tasks[i].id) is Some);
        } else {
            assert(after.task(r, id) == m.task(r, id));
        }
    }
    lemma_stays_counted(m, after);
    assert forall|i: int| 0 <= i < w.tasks.len() implies #[trigger] moves_soundly(
        m,
        after,
        run,
        w,
        i,
    ) by {
        assert(task_sound(m, run, w, i));
        lemma_budget_positive(w, i);
        assert(after.task(run, w.tasks[i].id) is Some);
    }
    lemma_record_stays_sound(m, after, run, w);
    assert forall|i: int| 0 <= i < w.tasks.len() implies {
        let t = state_of(m, run, w, i);
        let u = #[trigger] state_of(after, run, w, i);
        &&& !under_way(u.status)
        &&& u.attempts == t.attempts
        &&& u.status == "pending"@ ==> u.attempts < w.tasks[i].budget()
        &&& t.status == "success"@ || t.status == "failed"@ || t.status == "blocked"@ ==> u == t
        &&& under_way(t.status) && t.attempts < w.tasks[i].budget() ==> u.status == "pending"@
        &&& under_way(t.status) && t.attempts >= w.tasks[i].budget() ==> u.status == "failed"@
    } by {
        assert(task_sound(m, run, w, i));
        assert(after.task(run, w.tasks[i].id) is Some);
    }
}

/// Recovering twice is recovering once: the second time finds nothing to do.
pub proof fn law_recovery_is_idempotent(
    m: DbModel,
    run: Seq<char>,
    w: WorkflowModel,
    now: i64,
    later: i64,
)
    requires
        m.covers(run, w),
    ensures
        m.recover(run, w, now).recover(run, w, later) == m.recover(run, w, now),
{
    lemma_statuses();
    let once = m.recover(run, w, now);
    let start = DbModel { attempts: attempts_interrupted(m.attempts, run, now), ..m };
    assert forall|i: int| 0 <= i < w.tasks.len() implies start.task(
        run,
        (#[trigger] w.tasks[i]).id,
    ) is Some by {
        assert(m.task(run, w.tasks[i].id) is Some);
    }
    lemma_recovered_stay(start, run, w, w.tasks.len(), now);
    lemma_recover_tasks_keeps(start, run, w.tasks, w.tasks.len(), now);
    assert(attempts_interrupted(once.attempts, run, later) =~= once.attempts);
    assert(DbModel { attempts: attempts_interrupted(once.attempts, run, later), ..once } =~= once);
    lemma_nothing_to_recover(once, run, w, w.tasks.len(), later);
}

/// The tasks that were recovered need no more recovery.
proof fn lemma_recovered_stay(m: DbModel, run: Seq<char>, w: WorkflowModel, k: nat, now: i64)
    requires
        m.covers(run, w),
        k <= w.tasks.len(),
    ensures
        m.recover_tasks(run, w.tasks, k, now).covers(run, w),
        forall|i: int|
            0 <= i < k ==> !needs_recovery(
                #[trigger] state_of(m.recover_tasks(run, w.tasks, k, now), run, w, i),
                w.tasks[i].budget(),
            ),
    decreases k,
{
    if k > 0 {
        lemma_statuses();
        let before = m.recover_tasks(run, w.tasks, (k - 1) as nat, now);
        let after = m.recover_tasks(run, w.tasks, k, now);
        lemma_recovered_stay(m, run, w, (k - 1) as nat, now);
        let t = w.tasks[k - 1];
        let state = before.task(run, t.id)->0;
        let patch = recovery_patch(state.attempts as int, t.budget(), now);
        lemma_patch_effect(before, run, t.id, patch);
        assert forall|i: int| 0 <= i < w.tasks.len() implies after.task(
            run,
            (#[trigger] w.tasks[i]).id,
        ) is Some by {
            assert(before.task(run, w.tasks[i].id) is Some);
            if needs_recovery(state, t.budget()) {
                assert(after.task(run, w.tasks[i].id) == before.with_patch(run, t.id, patch).task(
                    run,
                    w.tasks[i].id,
                ));
            }
        }
        assert forall|i: int| 0 <= i < k implies !needs_recovery(
            #[trigger] state_of(after, run, w, i),
            w.tasks[i].budget(),
        ) by {
            assert(before.task(run, w.tasks[i].id) is Some);
            if i < k - 1 {
                assert(!needs_recovery(state_of(before, run, w, i), w.tasks[i].budget()));
            }
            if needs_recovery(state, t.budget()) {
                assert(after.task(run, w.tasks[i].id) == before.with_patch(run, t.id, patch).task(
                    run,
                    w.tasks[i].id,
                ));
            }
        }
    }
}

/// Recovering tasks touches neither runs nor attempts.
proof fn lemma_recover_tasks_keeps(
    m: DbModel,
    run: Seq<char>,
    tasks: Seq<TaskModel>,
    k: nat,
    now: i64,
)
    ensures
        m.recover_tasks(run, tasks, k, now).runs == m.runs,
        m.recover_tasks(run, tasks, k, now).attempts == m.attempts,
    decreases k,
{
    if k > 0 {
        lemma_recover_tasks_keeps(m, run, tasks, (k - 1) as nat, now);
    }
}

proof fn lemma_nothing_to_recover(
    m: DbModel,
    run: Seq<char>,
    w: WorkflowModel,
    k: nat,
    now: i64,
)
    requires
        k <= w.tasks.len(),
        forall|i: int|
            0 <= i < w.tasks.len() ==> !needs_recovery(
                #[trigger] state_of(m, run, w, i),
                w.tasks[i].budget(),
            ),
    ensures
        m.recover_tasks(run, w.tasks, k, now) == m,
    decreases k,
{
    if k > 0 {
        lemma_nothing_to_recover(m, run, w, (k - 1) as nat, now);
        assert(!needs_recovery(state_of(m, run, w, k - 1), w.tasks[k - 1].budget()));
    }
}

// ---------------------------------------------------------------------------
// New runs
// ---------------------------------------------------------------------------

/// The state of a task is found in the first of two tables that has it.
pub proof fn lemma_state_append(a: Seq<TaskRecord>, b: Seq<TaskRecord>, r: Seq<char>, id: Seq<char>)
    ensures
        task_state(a + b, r, id) == if task_state(a, r, id) is Some {
            task_state(a, r, id)
        } else {
            task_state(b, r, id)
        },
    decreases a.len(),
{
    if a.len() > 0 {
        lemma_state_append(a.drop_first(), b, r, id);
        assert((a + b).drop_first() =~= a.drop_first() + b);
        assert((a + b)[0] == a[0]);
    } else {
        assert(a + b =~= b);
    }
}

proof fn lemma_run_append(rows: Seq<RunRecord>, row: RunRecord, run: Seq<char>)
    ensures
        run_record(rows.push(row), run) == if run_record(rows, run) is Some {
            run_record(rows, run)
        } else if row.run.id == run {
            Some(row)
        } else {
            None
        },
    decreases rows.len(),
{
    if rows.len() > 0 {
        lemma_run_append(rows.drop_first(), row, run);
        assert(rows.push(row).drop_first() =~= rows.drop_first().push(row));
        assert(rows.push(row)[0] == rows[0]);
    } else {
        assert(rows.push(row)[0] == row);
        assert(rows.push(row).drop_first() =~= rows);
    }
}

/// No task of the run was ever tried.
pub open spec fn untouched(m: DbModel, run: Seq<char>, w: WorkflowModel) -> bool {
    &&& forall|i: int|
        0 <= i < w.tasks.len() ==> #[trigger] state_of(m, run, w, i) == waiting_task(
            w.tasks[i].id,
        )
    &&& forall|j: int| 0 <= j < m.attempts.len() ==> (#[trigger] m.attempts[j]).run_id != run
}

/// A new run of a valid workflow reads back as it was recorded: it waits, each
/// of its tasks waits, and its record is sound. The other runs stay as they were.
pub proof fn law_created_run_reads_back(
    m: DbModel,
    run: Seq<char>,
    w: WorkflowModel,
    source_dir: Seq<char>,
    max_parallel: usize,
    now: i64,
)
    requires
        m.well_formed(),
        counted(m),
        m.room(1),
        !m.has_run(run),
        w.valid(),
    ensures
        ({
            let after = m.create_run(run, w, source_dir, max_parallel, now);
            &&& record_sound(after, run, w)
            &&& untouched(after, run, w)
            &&& after.detail(run) is Some
            &&& after.detail(run)->0.run.status == "pending"@
            &&& after.detail(run)->0.run.name == w.name
            &&& after.detail(run)->0.run.created_at == now
            &&& after.detail(run)->0.run.started_at is None
            &&& after.detail(run)->0.run.finished_at is None
            &&& after.detail(run)->0.tasks == w.tasks.map_values(|t: TaskModel| waiting_task(t.id))
            &&& after.detail(run)->0.attempts == Seq::<AttemptModel>::empty()
            &&& after.detail(run)->0.workflow == w
            &&& after.detail(run)->0.source_dir == source_dir
            &&& after.detail(run)->0.max_parallel == max_parallel as i64
            &&& refusal(after, run, false) is None
            &&& forall|r: Seq<char>, id: Seq<char>|
                r != run ==> #[trigger] after.task(r, id) == m.task(r, id)
        }),
{
    lemma_statuses();
    let after = m.create_run(run, w, source_dir, max_parallel, now);
    lemma_create_keeps(m, run, w, source_dir, max_parallel, now);
    lemma_run_found(m.runs, run);
    lemma_run_append(m.runs, after.runs.last(), run);
    let added = new_tasks(run, w);
    assert(after.tasks == m.tasks + added);
    lemma_state_unique_after(after, run, w, m.tasks.len() as int);
    assert forall|i: int| 0 <= i < w.tasks.len() implies after.task(
        run,
        (#[trigger] w.tasks[i]).id,
    ) is Some by {
        assert(after.task(run, w.tasks[i].id) == Some(added[i].task));
    }
    assert forall|r: Seq<char>, id: Seq<char>| r != run implies #[trigger] after.task(r, id)
        == m.task(r, id) by {
        lemma_state_append(m.tasks, added, r, id);
        lemma_state_id(added, r, id);
    }
    assert forall|j: int|
        0 <= j < after.tasks.len() && (#[trigger] after.tasks[j]).run_id == run implies w.knows(
        after.tasks[j].task.id,
    ) by {
        if j < m.tasks.len() {
            assert(m.has_run(m.tasks[j].run_id));
        } else {
            assert(w.tasks[j - m.tasks.len()].id == after.tasks[j].task.id);
        }
    }
    assert forall|j: int| 0 <= j < after.attempts.len() implies is_counted(
        after,
        #[trigger] after.attempts[j],
    ) by {
        let a = m.attempts[j];
        assert(is_counted(m, a));
        lemma_state_append(m.tasks, added, a.run_id, a.attempt.task_id);
    }
    lemma_created_rows(m, run, w);
    assert forall|i: int| 0 <= i < w.tasks.len() implies #[trigger] task_sound(
        after,
        run,
        w,
        i,
    ) by {
        lemma_budget_positive(w, i);
        assert(after.task(run, w.tasks[i].id) == Some(added[i].task));
    }
    assert forall|i: int| 0 <= i < w.tasks.len() implies #[trigger] state_of(after, run, w, i)
        == waiting_task(w.tasks[i].id) by {
        assert(after.task(run, w.tasks[i].id) == Some(added[i].task));
    }
}

/// A new run reads back with its tasks in order and without attempts.
proof fn lemma_created_rows(m: DbModel, run: Seq<char>, w: WorkflowModel)
    requires
        m.well_formed(),
        counted(m),
        !m.has_run(run),
    ensures
        tasks_of(m.tasks + new_tasks(run, w), run) == w.tasks.map_values(
            |t: TaskModel| waiting_task(t.id),
        ),
        attempts_of(m.attempts, run) == Seq::<AttemptModel>::empty(),
        forall|j: int| 0 <= j < m.attempts.len() ==> (#[trigger] m.attempts[j]).run_id != run,
{
    let p = |r: TaskRecord| r.run_id == run;
    let q = |r: AttemptRecord| r.run_id == run;
    let added = new_tasks(run, w);
    assert forall|j: int| 0 <= j < m.tasks.len() implies !p(#[trigger] m.tasks[j]) by {
        assert(m.has_run(m.tasks[j].run_id));
    }
    assert forall|j: int| 0 <= j < m.attempts.len() implies !q(#[trigger] m.attempts[j]) by {
        let a = m.attempts[j];
        assert(is_counted(m, a));
        lemma_state_id(m.tasks, a.run_id, a.attempt.task_id);
        let k = choose|k: int|
            0 <= k < m.tasks.len() && is_task(#[trigger] m.tasks[k], a.run_id, a.attempt.task_id);
        assert(m.has_run(m.tasks[k].run_id));
    }
    lemma_filter_none(m.tasks, p);
    lemma_filter_none(m.attempts, q);
    lemma_filter_all(added, p);
    Seq::filter_distributes_over_add(m.tasks, added, p);
    assert(tasks_of(m.tasks + added, run) =~= w.tasks.map_values(
        |t: TaskModel| waiting_task(t.id),
    ));
    assert(attempts_of(m.attempts, run) =~= Seq::<AttemptModel>::empty());
}

proof fn lemma_filter_none<A>(s: Seq<A>, p: spec_fn(A) -> bool)
    requires
        forall|i: int| 0 <= i < s.len() ==> !p(#[trigger] s[i]),
    ensures
        s.filter(p) == Seq::<A>::empty(),
    decreases s.len(),
{
    reveal(Seq::filter);
    if s.len() > 0 {
        assert forall|i: int| 0 <= i < s.drop_last().len() implies !p(
            #[trigger] s.drop_last()[i],
        ) by {
            assert(!p(s[i]));
        }
        lemma_filter_none(s.drop_last(), p);
        assert(!p(s[s.len() - 1]));
    }
}

proof fn lemma_filter_all<A>(s: Seq<A>, p: spec_fn(A) -> bool)
    requires
        forall|i: int| 0 <= i < s.len() ==> p(#[trigger] s[i]),
    ensures
        s.filter(p) == s,
    decreases s.len(),
{
    reveal(Seq::filter);
    if s.len() > 0 {
        assert forall|i: int| 0 <= i < s.drop_last().len() implies p(
            #[trigger] s.drop_last()[i],
        ) by {
            assert(p(s[i]));
        }
        lemma_filter_all(s.drop_last(), p);
        assert(p(s[s.len() - 1]));
        assert(s.drop_last().push(s.last()) =~= s);
    } else {
        assert(s.filter(p) =~= s);
    }
}

proof fn lemma_state_unique_after(after: DbModel, run: Seq<char>, w: WorkflowModel, n: int)
    requires
        after.keyed(),
        0 <= n,
        after.tasks.len() == n + w.tasks.len(),
        forall|i: int|
            0 <= i < w.tasks.len() ==> after.tasks[n + i] == #[trigger] new_tasks(run, w)[i],
    ensures
        forall|i: int|
            0 <= i < w.tasks.len() ==> after.task(run, (#[trigger] w.tasks[i]).id) == Some(
                new_tasks(run, w)[i].task,
            ),
{
    assert forall|i: int| 0 <= i < w.tasks.len() implies after.task(
        run,
        (#[trigger] w.tasks[i]).id,
    ) == Some(new_tasks(run, w)[i].task) by {
        let id = w.tasks[i].id;
        assert(after.tasks[n + i] == new_tasks(run, w)[i]);
        assert(is_task(after.tasks[n + i], run, id));
        lemma_state_unique(after, run, id);
    }
}

// ---------------------------------------------------------------------------
// Starting and resuming
// ---------------------------------------------------------------------------

/// The run that the scheduler has taken up.
pub open spec fn started(m: DbModel, run: Seq<char>, resume: bool, now: i64) -> RunState {
    RunState {
        scheduler: scheduler_of(m.detail(run)->0, run),
        db: taken_up(m, run, resume, now),
        cancelled: false,
    }
}

pub proof fn lemma_set_run_sound(
    m: DbModel,
    run: Seq<char>,
    w: WorkflowModel,
    status: Seq<char>,
    now: i64,
)
    requires
        record_sound(m, run, w),
        m.room(1),
    ensures
        record_sound(m.set_run(run, status, now), run, w),
        forall|r: Seq<char>, id: Seq<char>| #[trigger]
            m.set_run(run, status, now).task(r, id) == m.task(r, id),
{
    let mid = DbModel { runs: run_set(m.runs, run, status, now), ..m };
    lemma_run_set_keeps(m, run, status, now);
    lemma_event_keeps(mid, run, "run"@, run_payload(status), now);
    let after = m.set_run(run, status, now);
    lemma_stays_counted(m, after);
    assert forall|i: int| 0 <= i < w.tasks.len() implies #[trigger] moves_soundly(
        m,
        after,
        run,
        w,
        i,
    ) by {
        lemma_stays(m, after, run, w, i);
    }
    lemma_record_stays_sound(m, after, run, w);
}

/// A run that starts is sound: everything that holds of a run under way holds
/// from the first moment.
pub proof fn law_started_run_is_sound(m: DbModel, run: Seq<char>, now: i64)
    requires
        refusal(m, run, false) is None,
        record_sound(m, run, m.detail(run)->0.workflow),
        untouched(m, run, m.detail(run)->0.workflow),
        m.room(1),
    ensures
        started(m, run, false, now).sound(),
{
    lemma_statuses();
    let w = m.detail(run)->0.workflow;
    let st = started(m, run, false, now);
    lemma_set_run_sound(m, run, w, "running"@, now);
    assert forall|i: int| 0 <= i < w.tasks.len() implies #[trigger] st.task_tracked(i) by {
        assert(state_of(m, run, w, i).status == "pending"@);
        assert(st.state(i) == state_of(m, run, w, i));
        lemma_budget_positive(w, i);
    }
    assert forall|i: int, j: int|
        0 <= i < w.tasks.len() && 0 <= j < st.db.attempts.len() implies #[trigger] st.attempt_tracked(
        i,
        j,
    ) by {
        assert(m.attempts[j].run_id != run);
    }
}

/// A run that resumes is sound, whatever the moment at which it was cut short:
/// its record is all that is needed.
pub proof fn law_resumed_run_is_sound(m: DbModel, run: Seq<char>, now: i64)
    requires
        refusal(m, run, true) is None,
        record_sound(m, run, m.detail(run)->0.workflow),
        m.room((m.detail(run)->0.workflow.tasks.len() + 1) as int),
    ensures
        started(m, run, true, now).sound(),
{
    lemma_statuses();
    let w = m.detail(run)->0.workflow;
    let st = started(m, run, true, now);
    let mid = m.recover(run, w, now);
    law_recovery(m, run, w, now);
    lemma_recover_effect(m, run, w, now);
    lemma_set_run_sound(mid, run, w, "running"@, now);
    assert forall|i: int| 0 <= i < w.tasks.len() implies #[trigger] st.task_tracked(i) by {
        assert(st.state(i) == state_of(mid, run, w, i));
    }
    assert forall|i: int, j: int|
        0 <= i < w.tasks.len() && 0 <= j < st.db.attempts.len() implies #[trigger] st.attempt_tracked(
        i,
        j,
    ) by {
        let b = mid.attempts[j];
        assert(b.run_id == run ==> b.attempt.status != "running"@);
    }
}

/// Resuming a run leaves the tasks that succeeded exactly as they were, and keeps
/// the count of attempts at every task.
pub proof fn law_resuming_keeps_success(m: DbModel, run: Seq<char>, now: i64, i: int)
    requires
        refusal(m, run, true) is None,
        record_sound(m, run, m.detail(run)->0.workflow),
        m.room((m.detail(run)->0.workflow.tasks.len() + 1) as int),
        0 <= i < m.detail(run)->0.workflow.tasks.len(),
    ensures
        started(m, run, true, now).state(i).attempts == state_of(
            m,
            run,
            m.detail(run)->0.workflow,
            i,
        ).attempts,
        state_of(m, run, m.detail(run)->0.workflow, i).status == "success"@ ==> started(
            m,
            run,
            true,
            now,
        ).state(i) == state_of(m, run, m.detail(run)->0.workflow, i),
{
    let w = m.detail(run)->0.workflow;
    let mid = m.recover(run, w, now);
    law_recovery(m, run, w, now);
    lemma_recover_effect(m, run, w, now);
    lemma_set_run_sound(mid, run, w, "running"@, now);
    assert(started(m, run, true, now).state(i) == state_of(mid, run, w, i));
}

/// The status of a run, once set, reads back, and nothing else of its row but
/// its times changes.
pub proof fn lemma_run_status(m: DbModel, run: Seq<char>, status: Seq<char>, now: i64)
    requires
        m.detail(run) is Some,
    ensures
        m.set_run(run, status, now).detail(run) is Some,
        m.set_run(run, status, now).detail(run)->0.run.status == status,
        m.set_run(run, status, now).detail(run)->0.workflow == m.detail(run)->0.workflow,
        m.set_run(run, status, now).detail(run)->0.source_dir == m.detail(run)->0.source_dir,
        m.set_run(run, status, now).detail(run)->0.max_parallel == m.detail(run)->0.max_parallel,
        m.set_run(run, status, now).detail(run)->0.tasks == m.detail(run)->0.tasks,
{
    lemma_run_set_record(m.runs, run, status, now);
}

proof fn lemma_run_set_record(rows: Seq<RunRecord>, run: Seq<char>, status: Seq<char>, now: i64)
    ensures
        run_record(rows, run) is Some <==> run_record(run_set(rows, run, status, now), run)
            is Some,
        run_record(rows, run) is Some ==> ({
            let after = run_record(run_set(rows, run, status, now), run)->0;
            &&& after.run.status == status
            &&& after.workflow == run_record(rows, run)->0.workflow
            &&& after.source_dir == run_record(rows, run)->0.source_dir
            &&& after.max_parallel == run_record(rows, run)->0.max_parallel
        }),
    decreases rows.len(),
{
    if rows.len() > 0 {
        lemma_run_set_record(rows.drop_first(), run, status, now);
        assert(run_set(rows, run, status, now).drop_first() =~= run_set(
            rows.drop_first(),
            run,
            status,
            now,
        ));
    }
}

/// A run starts once: a second start is refused.
pub proof fn law_a_run_starts_once(m: DbModel, run: Seq<char>, status: Seq<char>, now: i64)
    requires
        m.detail(run) is Some,
        m.detail(run)->0.workflow.valid(),
        status != "pending"@,
    ensures
        refusal(m.set_run(run, status, now), run, false) == Some(RefusalModel::Started),
{
    lemma_run_status(m, run, status, now);
}

/// A run that has succeeded or failed is not resumed.
pub proof fn law_finished_runs_stay_finished(
    m: DbModel,
    run: Seq<char>,
    status: Seq<char>,
    now: i64,
)
    requires
        m.detail(run) is Some,
        m.detail(run)->0.workflow.valid(),
        status == "success"@ || status == "failed"@,
    ensures
        refusal(m.set_run(run, status, now), run, true) == Some(RefusalModel::Finished),
{
    lemma_run_status(m, run, status, now);
}

/// An interrupted run may be resumed, and so may one that was cut short while it
/// was running.
pub proof fn law_interrupted_runs_resume(m: DbModel, run: Seq<char>, status: Seq<char>, now: i64)
    requires
        m.detail(run) is Some,
        m.detail(run)->0.workflow.valid(),
        m.covers(run, m.detail(run)->0.workflow),
        status == "interrupted"@ || status == "running"@,
    ensures
        refusal(m.set_run(run, status, now), run, true) is None,
{
    lemma_statuses();
    let w = m.detail(run)->0.workflow;
    let after = m.set_run(run, status, now);
    lemma_run_status(m, run, status, now);
    assert forall|i: int| 0 <= i < w.tasks.len() implies after.task(
        run,
        (#[trigger] w.tasks[i]).id,
    ) is Some by {
        assert(m.task(run, w.tasks[i].id) is Some);
    }
}

/// A run whose scheduling broke off while it was running has a sound record, and
/// may be resumed.
pub proof fn law_given_up_runs_resume(m: DbModel, run: Seq<char>, now: i64)
    requires
        m.detail(run) is Some,
        m.detail(run)->0.run.status == "running"@,
        record_sound(m, run, m.detail(run)->0.workflow),
        m.room((m.detail(run)->0.workflow.tasks.len() + 1) as int),
    ensures
        record_sound(given_up(m, run, now), run, m.detail(run)->0.workflow),
        refusal(given_up(m, run, now), run, true) is None,
{
    let w = m.detail(run)->0.workflow;
    let mid = m.recover(run, w, now);
    law_recovery(m, run, w, now);
    lemma_recover_effect(m, run, w, now);
    lemma_recovery_keeps_runs(m, run, w, now);
    lemma_set_run_sound(mid, run, w, "interrupted"@, now);
    law_interrupted_runs_resume(mid, run, "interrupted"@, now);
}

/// Recovery leaves the rows of runs as they are.
pub proof fn lemma_recovery_keeps_runs(m: DbModel, run: Seq<char>, w: WorkflowModel, now: i64)
    ensures
        m.recover(run, w, now).runs == m.runs,
{
    let start = DbModel { attempts: attempts_interrupted(m.attempts, run, now), ..m };
    lemma_recover_tasks_keeps(start, run, w.tasks, w.tasks.len(), now);
}

/// Once nothing of a run is active, no task is being worked on and every attempt
/// has ended: a cancelled run leaves nothing behind that is still running.
pub proof fn law_idle_runs_have_no_open_attempts(st: RunState)
    requires
        st.sound(),
        st.scheduler.active.len() == 0,
    ensures
        forall|i: int|
            0 <= i < st.scheduler.workflow.tasks.len() ==> !under_way(
                (#[trigger] st.state(i)).status,
            ),
        forall|j: int|
            0 <= j < st.db.attempts.len() && (#[trigger] st.db.attempts[j]).run_id
                == st.scheduler.run ==> st.db.attempts[j].attempt.status != "running"@,
{
    let w = st.scheduler.workflow;
    let run = st.scheduler.run;
    let m = st.db;
    assert forall|i: int| 0 <= i < w.tasks.len() implies !under_way(
        (#[trigger] st.state(i)).status,
    ) by {
        assert(st.task_tracked(i));
        assert(!st.scheduler.active.contains(w.tasks[i].id));
    }
    assert forall|j: int|
        0 <= j < m.attempts.len() && (#[trigger] m.attempts[j]).run_id
            == run implies m.attempts[j].attempt.status != "running"@ by {
        let a = m.attempts[j];
        assert(is_counted(m, a));
        lemma_state_id(m.tasks, run, a.attempt.task_id);
        let k = choose|k: int|
            0 <= k < m.tasks.len() && is_task(#[trigger] m.tasks[k], run, a.attempt.task_id);
        assert(w.knows(m.tasks[k].task.id));
        let i = choose|i: int|
            0 <= i < w.tasks.len() && #[trigger] w.tasks[i].id == a.attempt.task_id;
        assert(st.attempt_tracked(i, j));
        assert(!under_way(st.state(i).status));
    }
}

// ---------------------------------------------------------------------------
// Success is final
// ---------------------------------------------------------------------------

/// The row is that of an attempt at `task`.
pub open spec fn is_row_of(a: AttemptRecord, run: Seq<char>, task: Seq<char>) -> bool {
    a.run_id == run && a.attempt.task_id == task
}

/// A task that succeeded is never tried again: no step of the run changes its
/// status or its number of attempts, and none adds or changes an attempt at it.
/// Once it is settled, nothing at all of its state changes.
pub proof fn law_success_is_final(st: RunState, step: Step, now: i64, i: int)
    requires
        st.sound(),
        st.legal(step),
        0 <= i < st.scheduler.workflow.tasks.len(),
        st.state(i).status == "success"@,
    ensures
        st.after(step, now).state(i).status == "success"@,
        st.after(step, now).state(i).attempts == st.state(i).attempts,
        !st.is_active(i) ==> st.after(step, now).state(i) == st.state(i) && !st.after(
            step,
            now,
        ).is_active(i),
        forall|j: int|
            0 <= j < st.after(step, now).db.attempts.len() && is_row_of(
                #[trigger] st.after(step, now).db.attempts[j],
                st.scheduler.run,
                st.task(i).id,
            ) ==> j < st.db.attempts.len() && st.after(step, now).db.attempts[j]
                == st.db.attempts[j],
{
    lemma_statuses();
    let m = st.db;
    let s = st.scheduler;
    let run = s.run;
    let w = s.workflow;
    lemma_step_state(st, step, now, i);
    lemma_moved(s, m, st.cancelled);
    match step {
        Step::Decide => {
            lemma_active_after_decision(st, w.tasks[i].id);
        },
        Step::Settle(j, _) => {
            lemma_without(s.active, w.tasks[j].id);
        },
        Step::Start(j) => {
            assert(w.tasks[j].id != w.tasks[i].id || j == i);
        },
        Step::End(j, _) => {
            let open = choose|k: int|
                0 <= k < m.attempts.len() && is_open(
                    #[trigger] m.attempts[k],
                    run,
                    w.tasks[j].id,
                );
            assert(st.attempt_tracked(j, open));
            assert(w.tasks[j].id != w.tasks[i].id || j == i);
        },
        _ => {},
    }
}

} // verus!
