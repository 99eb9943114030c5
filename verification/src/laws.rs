//! What the scheduling of a run promises as a whole.

use crate::graph::{edge, is_order, is_walk, lemma_order_exists, lemma_rank_descends, rank};
use crate::lifecycle::{
    begun, hopeless, is_counted, lemma_decide_effect, lemma_moved, lemma_picked,
    lemma_some_task_moved, lemma_statuses, met, record_sound, state_of, task_sound, under_way,
    RunState, Step,
};
use crate::model::{is_task, lemma_state_id, lemma_state_unique, tasks_of, DbModel};
use crate::records::TaskRecord;
use crate::scheduler::{
    doomed, doomed_tasks, ids, lost, ready, ready_tasks, verdict, ActionModel, SchedulerModel,
};
use crate::simulation::{lemma_filter_smaller, lemma_first_open};
use crate::workflow::{lemma_graph_in_range, TaskModel, WorkflowModel};
use vstd::prelude::*;

verus! {

// ---------------------------------------------------------------------------
// Launching
// ---------------------------------------------------------------------------

/// A task is launched only while it waits, once all its dependencies have
/// succeeded, and never after the run was cancelled.
pub proof fn law_launched_tasks_were_ready(s: SchedulerModel, m: DbModel, cancelled: bool)
    ensures
        s.action(m, cancelled) matches ActionModel::Launch(tasks) ==> !cancelled && forall|k: int|
            0 <= k < tasks.len() ==> s.workflow.tasks.contains(#[trigger] tasks[k]) && m.status(
                s.run,
                tasks[k].id,
            ) == "pending"@ && met(m, s.run, tasks[k]),
{
    if let ActionModel::Launch(tasks) = s.action(m, cancelled) {
        let p = |t: TaskModel| ready(m, s.run, t);
        let all = ready_tasks(m, s.run, s.workflow);
        assert forall|k: int| 0 <= k < tasks.len() implies s.workflow.tasks.contains(
            #[trigger] tasks[k],
        ) && ready(m, s.run, tasks[k]) by {
            assert(tasks[k] == all[k]);
            s.workflow.tasks.lemma_filter_pred(p, k);
            assert(all.contains(all[k]));
            s.workflow.tasks.lemma_filter_contains_rev(p, all[k]);
        }
    }
}

/// No more tasks are launched than the limit leaves room for.
pub proof fn law_launches_respect_the_limit(s: SchedulerModel, m: DbModel, cancelled: bool)
    requires
        s.active.len() <= s.limit,
    ensures
        s.next(m, cancelled).active.len() <= s.limit,
{
}

/// As long as there is room, every task that may be launched is: a launch
/// leaves no ready task behind unless the limit is reached.
pub proof fn law_launches_fill_the_limit(s: SchedulerModel, m: DbModel, i: int)
    requires
        s.workflow.distinct(),
        s.active.len() <= s.limit,
        doomed_tasks(m, s.run, s.workflow).len() == 0,
        0 <= i < s.workflow.tasks.len(),
        ready(m, s.run, s.workflow.tasks[i]),
    ensures
        s.next(m, false).active.contains(s.workflow.tasks[i].id) || s.next(m, false).active.len()
            == s.limit,
{
    let p = |t: TaskModel| ready(m, s.run, t);
    let all = ready_tasks(m, s.run, s.workflow);
    let id = s.workflow.tasks[i].id;
    lemma_picked(s.workflow, p);
    assert(ids(all).contains(id));
    let k = ids(all).index_of(id);
    if all.len() <= s.spare() {
        assert(s.chosen(m) == all);
        assert(s.next(m, false).active == s.active + ids(all));
        assert(s.next(m, false).active[s.active.len() + k] == id);
    } else {
        assert(s.chosen(m).len() == s.spare());
        if s.spare() > 0 {
            assert(s.next(m, false).active == s.active + ids(s.chosen(m)));
        }
    }
}

/// The tasks that are worked on at any one time are no more than the limit.
pub proof fn law_concurrency_limit(st: RunState, positions: Seq<int>)
    requires
        st.sound(),
        positions.no_duplicates(),
        forall|k: int|
            0 <= k < positions.len() ==> 0 <= #[trigger] positions[k]
                < st.scheduler.workflow.tasks.len() && under_way(st.state(positions[k]).status),
    ensures
        positions.len() <= st.scheduler.limit,
{
    let w = st.scheduler.workflow;
    let active = st.scheduler.active;
    let names = positions.map_values(|i: int| w.tasks[i].id);
    assert forall|a: int, b: int|
        0 <= a < names.len() && 0 <= b < names.len() && a != b implies names[a] != names[b] by {
        let i = positions[a];
        let j = positions[b];
        assert(i != j);
        assert(w.tasks[i].id != w.tasks[j].id);
    }
    assert forall|x: Seq<char>| names.to_set().contains(x) implies active.to_set().contains(x) by {
        let k = choose|k: int| 0 <= k < names.len() && names[k] == x;
        assert(st.task_tracked(positions[k]));
    }
    names.unique_seq_to_set();
    active.unique_seq_to_set();
    vstd::set_lib::lemma_len_subset(names.to_set(), active.to_set());
}

// ---------------------------------------------------------------------------
// Failures
// ---------------------------------------------------------------------------

/// An edge of the graph is a dependency.
proof fn lemma_edge_dependency(w: WorkflowModel, i: int, j: int) -> (k: int)
    requires
        w.valid(),
        edge(w.graph(), i, j),
    ensures
        0 <= i < w.tasks.len(),
        0 <= j < w.tasks.len(),
        0 <= k < w.tasks[i].dependencies.len(),
        w.tasks[i].dependencies[k] == w.tasks[j].id,
{
    let row = w.graph()[i];
    let k = choose|k: int| 0 <= k < row.len() && row[k] == j;
    assert(w.knows(w.tasks[i].dependencies[k]));
    k
}

/// Where a task has been tried, or is past waiting, everything it depends on,
/// directly or through other tasks, has succeeded.
pub proof fn law_no_task_outruns_its_dependencies(
    m: DbModel,
    run: Seq<char>,
    w: WorkflowModel,
    walk: Seq<int>,
    k: int,
)
    requires
        record_sound(m, run, w),
        is_walk(w.graph(), walk),
        0 < k < walk.len(),
        begun(state_of(m, run, w, walk[0])),
    ensures
        state_of(m, run, w, walk[k]).status == "success"@,
    decreases k,
{
    lemma_statuses();
    let before = walk[k - 1];
    assert(edge(w.graph(), walk[k - 1], walk[k]));
    if k > 1 {
        law_no_task_outruns_its_dependencies(m, run, w, walk, k - 1);
    }
    let d = lemma_edge_dependency(w, before, walk[k]);
    assert(task_sound(m, run, w, before));
    assert(m.status(run, w.tasks[before].dependencies[d]) == "success"@);
}

/// A failed task blocks all its descendants: once nothing waits any more, each
/// task that depends on it, directly or through other tasks, is blocked, and
/// was never tried.
pub proof fn law_failure_blocks_descendants(
    m: DbModel,
    run: Seq<char>,
    w: WorkflowModel,
    walk: Seq<int>,
)
    requires
        record_sound(m, run, w),
        is_walk(w.graph(), walk),
        walk.len() >= 2,
        state_of(m, run, w, walk.last()).status == "failed"@,
        forall|i: int|
            0 <= i < w.tasks.len() ==> (#[trigger] state_of(m, run, w, i)).status != "pending"@,
    ensures
        state_of(m, run, w, walk[0]).status == "blocked"@,
        state_of(m, run, w, walk[0]).attempts == 0,
{
    lemma_statuses();
    assert(edge(w.graph(), walk[0], walk[1]));
    lemma_edge_dependency(w, walk[0], walk[1]);
    assert(task_sound(m, run, w, walk[0]));
    if begun(state_of(m, run, w, walk[0])) {
        law_no_task_outruns_its_dependencies(m, run, w, walk, walk.len() - 1);
    }
}

/// A failure spares the other branches: a blocked task depends, directly or
/// through other tasks, on one that failed.
pub proof fn law_blocked_tasks_descend_from_a_failure(
    m: DbModel,
    run: Seq<char>,
    w: WorkflowModel,
    i: int,
) -> (walk: Seq<int>)
    requires
        record_sound(m, run, w),
        0 <= i < w.tasks.len(),
        state_of(m, run, w, i).status == "blocked"@,
    ensures
        is_walk(w.graph(), walk),
        walk.len() >= 2,
        walk[0] == i,
        0 <= walk.last() < w.tasks.len(),
        state_of(m, run, w, walk.last()).status == "failed"@,
{
    lemma_graph_in_range(w);
    let order = lemma_order_exists(w.graph());
    lemma_blame(m, run, w, order, i)
}

proof fn lemma_blame(
    m: DbModel,
    run: Seq<char>,
    w: WorkflowModel,
    order: Seq<int>,
    i: int,
) -> (walk: Seq<int>)
    requires
        record_sound(m, run, w),
        is_order(w.graph(), order),
        0 <= i < w.tasks.len(),
        state_of(m, run, w, i).status == "blocked"@,
    ensures
        is_walk(w.graph(), walk),
        walk.len() >= 2,
        walk[0] == i,
        0 <= walk.last() < w.tasks.len(),
        state_of(m, run, w, walk.last()).status == "failed"@,
    decreases rank(order, i),
{
    lemma_statuses();
    let t = w.tasks[i];
    assert(task_sound(m, run, w, i));
    assert(hopeless(m, run, t));
    let k = choose|k: int|
        0 <= k < t.dependencies.len() && lost(m, run, #[trigger] t.dependencies[k]);
    assert(w.knows(w.tasks[i].dependencies[k]));
    let j = w.position(t.dependencies[k]);
    assert(0 <= j < w.tasks.len() && w.tasks[j].id == t.dependencies[k]);
    assert(w.graph()[i][k] == j);
    assert(edge(w.graph(), i, j));
    lemma_rank_descends(w.graph(), order, i, j);
    if state_of(m, run, w, j).status == "failed"@ {
        seq![i, j]
    } else {
        let rest = lemma_blame(m, run, w, order, j);
        let walk = seq![i] + rest;
        assert forall|a: int| 0 <= a < walk.len() - 1 implies edge(
            w.graph(),
            #[trigger] walk[a],
            walk[a + 1],
        ) by {
            if a > 0 {
                assert(edge(w.graph(), rest[a - 1], rest[a]));
            }
        }
        walk
    }
}

// ---------------------------------------------------------------------------
// Progress
// ---------------------------------------------------------------------------

/// The rows of a run tell the states of its tasks.
proof fn lemma_rows_are_states(m: DbModel, run: Seq<char>, k: int)
    requires
        m.keyed(),
        0 <= k < tasks_of(m.tasks, run).len(),
    ensures
        m.task(run, tasks_of(m.tasks, run)[k].id) == Some(tasks_of(m.tasks, run)[k]),
        exists|j: int|
            0 <= j < m.tasks.len() && (#[trigger] m.tasks[j]).run_id == run && m.tasks[j].task
                == tasks_of(m.tasks, run)[k],
{
    let p = |r: TaskRecord| r.run_id == run;
    let kept = m.tasks.filter(p);
    m.tasks.lemma_filter_pred(p, k);
    assert(kept.contains(kept[k]));
    m.tasks.lemma_filter_contains_rev(p, kept[k]);
    let j = choose|j: int| 0 <= j < m.tasks.len() && m.tasks[j] == kept[k];
    assert(is_task(m.tasks[j], run, kept[k].task.id));
    lemma_state_unique(m, run, kept[k].task.id);
}

/// Where the scheduler has nothing left to do, no task waits: each has
/// succeeded, failed or is blocked. So a run never ends up with waiting tasks
/// that nothing can start.
pub proof fn law_never_stuck(st: RunState)
    requires
        st.sound(),
        !st.cancelled,
        st.scheduler.limit > 0,
        st.scheduler.action(st.db, false) is Conclude,
    ensures
        forall|i: int|
            0 <= i < st.scheduler.workflow.tasks.len() ==> {
                let status = (#[trigger] st.state(i)).status;
                status == "success"@ || status == "failed"@ || status == "blocked"@
            },
        verdict(tasks_of(st.db.tasks, st.scheduler.run), false) is Some,
{
    lemma_statuses();
    let m = st.db;
    let s = st.scheduler;
    let w = s.workflow;
    let run = s.run;
    assert forall|i: int| 0 <= i < w.tasks.len() implies {
        let status = (#[trigger] st.state(i)).status;
        status == "success"@ || status == "failed"@ || status == "blocked"@
    } by {
        assert(task_sound(m, run, w, i));
        assert(st.task_tracked(i));
        assert(!s.active.contains(w.tasks[i].id));
        if st.state(i).status == "pending"@ {
            lemma_some_task_moves(st, i);
        }
    }
    let rows = tasks_of(m.tasks, run);
    assert forall|k: int| 0 <= k < rows.len() implies #[trigger] rows[k].status != "pending"@ by {
        lemma_rows_are_states(m, run, k);
        let j = choose|j: int|
            0 <= j < m.tasks.len() && (#[trigger] m.tasks[j]).run_id == run && m.tasks[j].task
                == rows[k];
        assert(w.knows(m.tasks[j].task.id));
        let i = choose|i: int|
            0 <= i < w.tasks.len() && #[trigger] w.tasks[i].id == m.tasks[j].task.id;
        assert(st.state(i) == rows[k]);
    }
}

/// Where a task waits and nothing is active, some task can be blocked or
/// launched.
proof fn lemma_some_task_moves(st: RunState, i: int)
    requires
        st.sound(),
        !st.cancelled,
        st.scheduler.limit > 0,
        st.scheduler.active.len() == 0,
        0 <= i < st.scheduler.workflow.tasks.len(),
        st.state(i).status == "pending"@,
    ensures
        !(st.scheduler.action(st.db, false) is Conclude),
{
    lemma_statuses();
    let m = st.db;
    let s = st.scheduler;
    let w = s.workflow;
    let run = s.run;
    let open = |id: Seq<char>| m.status(run, id) == "pending"@;
    let j = lemma_first_open(w, open, i);
    let t = w.tasks[j];
    if hopeless(m, run, t) {
        let p = |t: TaskModel| doomed(m, run, t);
        assert(p(t));
        w.tasks.lemma_filter_contains(p, j);
        assert(doomed_tasks(m, run, w).len() > 0);
    } else {
        assert forall|k: int| 0 <= k < t.dependencies.len() implies m.status(
            run,
            #[trigger] t.dependencies[k],
        ) == "success"@ by {
            let dep = t.dependencies[k];
            assert(!open(dep));
            assert(!lost(m, run, dep));
            assert(w.knows(w.tasks[j].dependencies[k]));
            let u = choose|u: int| 0 <= u < w.tasks.len() && #[trigger] w.tasks[u].id == dep;
            assert(task_sound(m, run, w, u));
            assert(st.task_tracked(u));
            assert(!s.active.contains(w.tasks[u].id));
        }
        let p = |t: TaskModel| ready(m, run, t);
        assert(p(t));
        w.tasks.lemma_filter_contains(p, j);
        assert(ready_tasks(m, run, w).len() > 0);
        assert(s.chosen(m).len() > 0);
    }
}

/// The state of each task stands in a row of the run.
proof fn lemma_state_has_row(st: RunState, i: int) -> (k: int)
    requires
        st.sound(),
        0 <= i < st.scheduler.workflow.tasks.len(),
    ensures
        0 <= k < tasks_of(st.db.tasks, st.scheduler.run).len(),
        tasks_of(st.db.tasks, st.scheduler.run)[k] == st.state(i),
{
    let m = st.db;
    let run = st.scheduler.run;
    let id = st.scheduler.workflow.tasks[i].id;
    let p = |r: TaskRecord| r.run_id == run;
    assert(m.task(run, id) is Some);
    lemma_state_id(m.tasks, run, id);
    let j = choose|j: int| 0 <= j < m.tasks.len() && is_task(#[trigger] m.tasks[j], run, id);
    lemma_state_unique(m, run, id);
    m.tasks.lemma_filter_contains(p, j);
    let kept = m.tasks.filter(p);
    choose|k: int| 0 <= k < kept.len() && kept[k] == m.tasks[j]
}

/// The rows of a run tell of success exactly where every task of its workflow has
/// succeeded.
proof fn lemma_verdict_of_success(st: RunState)
    requires
        st.sound(),
    ensures
        verdict(tasks_of(st.db.tasks, st.scheduler.run), false) == Some("success"@) <==> forall|
            i: int,
        |
            0 <= i < st.scheduler.workflow.tasks.len() ==> (#[trigger] st.state(i)).status
                == "success"@,
{
    lemma_statuses();
    let m = st.db;
    let w = st.scheduler.workflow;
    let run = st.scheduler.run;
    let rows = tasks_of(m.tasks, run);
    if forall|i: int| 0 <= i < w.tasks.len() ==> (#[trigger] st.state(i)).status == "success"@ {
        assert forall|k: int| 0 <= k < rows.len() implies #[trigger] rows[k].status
            == "success"@ by {
            lemma_rows_are_states(m, run, k);
            let j = choose|j: int|
                0 <= j < m.tasks.len() && (#[trigger] m.tasks[j]).run_id == run
                    && m.tasks[j].task == rows[k];
            assert(w.knows(m.tasks[j].task.id));
            let i = choose|i: int|
                0 <= i < w.tasks.len() && #[trigger] w.tasks[i].id == m.tasks[j].task.id;
            assert(st.state(i) == rows[k]);
        }
    } else {
        let i = choose|i: int|
            0 <= i < w.tasks.len() && (#[trigger] st.state(i)).status != "success"@;
        let k = lemma_state_has_row(st, i);
        assert(rows[k].status != "success"@);
    }
}

/// A run that ends by itself has succeeded exactly where every task of its
/// workflow has. Where it may run a task at all, it has failed otherwise.
pub proof fn law_verdict_follows_the_tasks(st: RunState)
    requires
        st.sound(),
        !st.cancelled,
        st.scheduler.action(st.db, false) is Conclude,
    ensures
        verdict(tasks_of(st.db.tasks, st.scheduler.run), false) == Some("success"@) <==> forall|
            i: int,
        |
            0 <= i < st.scheduler.workflow.tasks.len() ==> (#[trigger] st.state(i)).status
                == "success"@,
        st.scheduler.limit > 0 ==> {
            ||| verdict(tasks_of(st.db.tasks, st.scheduler.run), false) == Some("success"@)
            ||| verdict(tasks_of(st.db.tasks, st.scheduler.run), false) == Some("failed"@)
        },
{
    lemma_verdict_of_success(st);
    if st.scheduler.limit > 0 {
        law_never_stuck(st);
    }
}

/// The number of tasks that wait.
pub open spec fn waiting(m: DbModel, run: Seq<char>, w: WorkflowModel) -> nat {
    w.tasks.filter(|t: TaskModel| m.status(run, t.id) == "pending"@).len()
}

/// Each time the scheduler blocks or launches, fewer tasks wait: it cannot go on
/// doing so for ever.
pub proof fn law_decisions_use_up_waiting_tasks(st: RunState, now: i64)
    requires
        st.sound(),
        st.legal(Step::Decide),
        st.scheduler.action(st.db, st.cancelled) is Again || st.scheduler.action(
            st.db,
            st.cancelled,
        ) is Launch,
    ensures
        waiting(
            st.after(Step::Decide, now).db,
            st.scheduler.run,
            st.scheduler.workflow,
        ) < waiting(st.db, st.scheduler.run, st.scheduler.workflow),
{
    lemma_statuses();
    let m = st.db;
    let s = st.scheduler;
    let w = s.workflow;
    let run = s.run;
    let after = st.after(Step::Decide, now).db;
    let p = |t: TaskModel| m.status(run, t.id) == "pending"@;
    let q = |t: TaskModel| after.status(run, t.id) == "pending"@;
    let tasks = s.moved(m, st.cancelled);
    lemma_moved(s, m, st.cancelled);
    lemma_decide_effect(s, m, st.cancelled, now);
    let i = lemma_some_task_moved(s, m, st.cancelled);
    let kept = |t: TaskModel| p(t) && q(t);
    assert(m.task(run, w.tasks[i].id) is Some);
    assert(p(w.tasks[i]) && !kept(w.tasks[i]));
    lemma_filter_smaller(w.tasks, p, kept);
    assert forall|j: int| 0 <= j < w.tasks.len() implies kept(w.tasks[j]) == q(w.tasks[j]) by {
        assert(m.task(run, w.tasks[j].id) is Some);
    }
    lemma_same_filter(w.tasks, kept, q);
}

/// Two rules that agree on every element keep the same.
pub proof fn lemma_same_filter(
    s: Seq<TaskModel>,
    p: spec_fn(TaskModel) -> bool,
    q: spec_fn(TaskModel) -> bool,
)
    requires
        forall|j: int| 0 <= j < s.len() ==> p(#[trigger] s[j]) == q(s[j]),
    ensures
        s.filter(p) == s.filter(q),
    decreases s.len(),
{
    reveal(Seq::filter);
    if s.len() > 0 {
        let head = s.drop_last();
        assert forall|j: int| 0 <= j < head.len() implies p(#[trigger] head[j]) == q(head[j]) by {
            assert(p(s[j]) == q(s[j]));
        }
        lemma_same_filter(head, p, q);
        assert(p(s[s.len() - 1]) == q(s[s.len() - 1]));
    }
}

// ---------------------------------------------------------------------------
// Attempts
// ---------------------------------------------------------------------------

/// No attempt at a task goes beyond its budget.
pub proof fn law_attempts_stay_within_the_budget(
    m: DbModel,
    run: Seq<char>,
    w: WorkflowModel,
    i: int,
    j: int,
)
    requires
        record_sound(m, run, w),
        0 <= i < w.tasks.len(),
        0 <= j < m.attempts.len(),
        m.attempts[j].run_id == run,
        m.attempts[j].attempt.task_id == w.tasks[i].id,
    ensures
        m.attempts[j].attempt.number <= state_of(m, run, w, i).attempts
            <= w.tasks[i].budget(),
{
    assert(is_counted(m, m.attempts[j]));
    assert(task_sound(m, run, w, i));
}

} // verus!
