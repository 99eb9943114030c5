//! Every run comes to an end: there is always something left to happen, and
//! everything that happens brings the end nearer.

use crate::lifecycle::{
    is_open, lemma_active_after_decision, lemma_budget_positive, lemma_decide_effect, lemma_moved,
    lemma_open_after_end, lemma_open_after_start, lemma_some_task_moved, lemma_statuses,
    lemma_step_state, lemma_without, task_sound, RunState, Step,
};
use crate::scheduler::{ActionModel, OutcomeModel};
use crate::worker::ResultModel;
use vstd::prelude::*;

verus! {

impl RunState {
    /// How much is left to happen to the task at a position, at most.
    pub open spec fn weight(self, i: int) -> int {
        let t = self.state(i);
        let left = self.task(i).budget() - t.attempts;
        if t.status == "pending"@ {
            if self.cancelled {
                0
            } else {
                4 * left + 3
            }
        } else if t.status == "queued"@ || t.status == "retrying"@ {
            4 * left + 2
        } else if t.status == "running"@ {
            if self.is_tried(i) {
                4 * left + 3
            } else {
                4 * left + 1
            }
        } else if t.status == "success"@ && self.is_active(i) {
            1
        } else {
            0
        }
    }

    /// How much is left to happen to the first `n` tasks, at most.
    pub open spec fn total(self, n: nat) -> int
        decreases n,
    {
        if n == 0 {
            0
        } else {
            self.total((n - 1) as nat) + self.weight(n - 1)
        }
    }

    /// How many more steps there are, at most.
    pub open spec fn measure(self) -> int {
        self.total(self.scheduler.workflow.tasks.len()) + if self.cancelled {
            0int
        } else {
            1
        }
    }

    /// The step changes something.
    pub open spec fn productive(self, step: Step) -> bool {
        match step {
            Step::Decide => match self.scheduler.action(self.db, self.cancelled) {
                ActionModel::Again => true,
                ActionModel::Launch(_) => true,
                _ => false,
            },
            _ => true,
        }
    }
}

proof fn lemma_total_not_negative(st: RunState, n: nat)
    requires
        st.sound(),
        n <= st.scheduler.workflow.tasks.len(),
    ensures
        st.total(n) >= 0,
    decreases n,
{
    if n > 0 {
        lemma_total_not_negative(st, (n - 1) as nat);
        assert(task_sound(st.db, st.scheduler.run, st.scheduler.workflow, n - 1));
    }
}

/// No weight grows.
spec fn lighter(st: RunState, next: RunState, n: nat) -> bool {
    forall|i: int| 0 <= i < n ==> #[trigger] next.weight(i) <= st.weight(i)
}

proof fn lemma_total(st: RunState, next: RunState, n: nat, j: int)
    requires
        lighter(st, next, n),
    ensures
        next.total(n) <= st.total(n),
        0 <= j < n && next.weight(j) < st.weight(j) ==> next.total(n) < st.total(n),
    decreases n,
{
    if n > 0 {
        lemma_total(st, next, (n - 1) as nat, j);
        assert(next.weight(n - 1) <= st.weight(n - 1));
    }
}

proof fn lemma_decide_counts_down(st: RunState, now: i64)
    requires
        st.sound(),
        st.legal(Step::Decide),
        st.productive(Step::Decide),
    ensures
        st.after(Step::Decide, now).measure() < st.measure(),
{
    lemma_statuses();
    let m = st.db;
    let s = st.scheduler;
    let w = s.workflow;
    let run = s.run;
    let next = st.after(Step::Decide, now);
    lemma_moved(s, m, st.cancelled);
    lemma_decide_effect(s, m, st.cancelled, now);
    assert forall|i: int| 0 <= i < w.tasks.len() implies #[trigger] next.weight(i) <= st.weight(
        i,
    ) by {
        assert(m.task(run, w.tasks[i].id) is Some);
        assert(task_sound(m, run, w, i));
        lemma_active_after_decision(st, w.tasks[i].id);
    }
    let i = lemma_some_task_moved(s, m, st.cancelled);
    assert(m.task(run, w.tasks[i].id) is Some);
    assert(task_sound(m, run, w, i));
    assert(next.weight(i) < st.weight(i));
    lemma_total(st, next, w.tasks.len(), i);
}

proof fn lemma_work_counts_down(st: RunState, step: Step, i: int, now: i64)
    requires
        st.sound(),
        st.legal(step),
        ({
            ||| step == Step::Start(i)
            ||| step matches Step::End(x, _) && x == i
            ||| step matches Step::Settle(x, _) && x == i
        }),
    ensures
        st.after(step, now).measure() < st.measure(),
{
    lemma_statuses();
    let m = st.db;
    let w = st.scheduler.workflow;
    let run = st.scheduler.run;
    let id = w.tasks[i].id;
    let next = st.after(step, now);
    if step is End {
        let open = choose|k: int|
            0 <= k < m.attempts.len() && is_open(#[trigger] m.attempts[k], run, id);
        assert(st.attempt_tracked(i, open));
    }
    assert forall|j: int| 0 <= j < w.tasks.len() implies #[trigger] next.weight(j) <= st.weight(j)
        && (j == i ==> next.weight(j) < st.weight(j)) by {
        assert(task_sound(m, run, w, j));
        lemma_budget_positive(w, j);
        lemma_step_state(st, step, now, j);
        if j != i {
            assert(w.tasks[j].id != id);
        }
        match step {
            Step::Start(_) => {
                let number = (st.state(i).attempts + 1) as i64;
                lemma_open_after_start(m.attempts, run, id, number, now, w.tasks[j].id);
            },
            Step::End(_, result) => {
                lemma_open_after_end(
                    st,
                    i,
                    result.status(),
                    result.error(),
                    now,
                    w.tasks[j].id,
                );
            },
            _ => {
                lemma_without(st.scheduler.active, id);
            },
        }
    }
    assert(next.weight(i) < st.weight(i));
    lemma_total(st, next, w.tasks.len(), i);
}

/// Whatever happens to a run, no more than a bounded number of things can: each
/// step that changes something brings a number down that is never negative.
pub proof fn law_every_step_counts_down(st: RunState, step: Step, now: i64)
    requires
        st.sound(),
        st.legal(step),
        st.productive(step),
    ensures
        0 <= st.measure(),
        st.after(step, now).measure() < st.measure(),
{
    lemma_total_not_negative(st, st.scheduler.workflow.tasks.len());
    match step {
        Step::Cancel => {
            let next = st.after(step, now);
            let w = st.scheduler.workflow;
            assert forall|j: int| 0 <= j < w.tasks.len() implies #[trigger] next.weight(j)
                <= st.weight(j) by {
                assert(task_sound(st.db, st.scheduler.run, w, j));
            }
            lemma_total(st, next, w.tasks.len(), 0);
        },
        Step::Decide => {
            lemma_decide_counts_down(st, now);
        },
        Step::Start(i) => {
            lemma_work_counts_down(st, step, i, now);
        },
        Step::End(i, _) => {
            lemma_work_counts_down(st, step, i, now);
        },
        Step::Settle(i, _) => {
            lemma_work_counts_down(st, step, i, now);
        },
    }
}

/// A run never hangs: as long as it is not to be concluded, some step that
/// changes something may happen.
pub proof fn law_some_step_is_possible(st: RunState) -> (step: Step)
    requires
        st.sound(),
        st.db.room((st.scheduler.workflow.tasks.len() + 2) as int),
        !(st.scheduler.action(st.db, st.cancelled) is Conclude),
    ensures
        st.legal(step),
        st.productive(step),
{
    lemma_statuses();
    let s = st.scheduler;
    let w = s.workflow;
    let m = st.db;
    if s.action(m, st.cancelled) is Wait {
        let id = s.active[0];
        assert(w.knows(s.active[0]));
        let i = choose|i: int| 0 <= i < w.tasks.len() && #[trigger] w.tasks[i].id == id;
        assert(s.active.contains(id));
        assert(st.task_tracked(i));
        let status = st.state(i).status;
        if st.is_tried(i) {
            Step::End(i, ResultModel::Success)
        } else if status == "success"@ {
            Step::Settle(i, OutcomeModel::Success)
        } else if st.cancelled {
            Step::Settle(i, OutcomeModel::Interrupted)
        } else if status == "running"@ {
            Step::Settle(i, OutcomeModel::Failed(Seq::empty()))
        } else {
            Step::Start(i)
        }
    } else {
        Step::Decide
    }
}

} // verus!
