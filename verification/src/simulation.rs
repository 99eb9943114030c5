//! Simulation: the groups of tasks that would run one after the other.

use crate::graph::{edge, is_order, lemma_order_exists, lemma_rank_descends, rank};
use crate::text::texts;
use crate::workflow::{lemma_graph_in_range, Task, TaskModel, Workflow, WorkflowModel};
use vstd::prelude::*;

verus! {

/// The first `n` elements, or all of them where there are fewer.
pub open spec fn first<A>(s: Seq<A>, n: nat) -> Seq<A> {
    if s.len() <= n {
        s
    } else {
        s.take(n as int)
    }
}

impl TaskModel {
    /// Not done, and every dependency is.
    pub open spec fn runnable(self, done: Set<Seq<char>>) -> bool {
        &&& !done.contains(self.id)
        &&& forall|k: int|
            0 <= k < self.dependencies.len() ==> done.contains(#[trigger] self.dependencies[k])
    }
}

impl WorkflowModel {
    /// The tasks that may run, in the order of the workflow.
    pub open spec fn runnable(self, done: Set<Seq<char>>) -> Seq<Seq<char>> {
        self.tasks.filter(|t: TaskModel| t.runnable(done)).map_values(|t: TaskModel| t.id)
    }

    /// The tasks that are not done.
    pub open spec fn remaining(self, done: Set<Seq<char>>) -> Seq<TaskModel> {
        self.tasks.filter(|t: TaskModel| !done.contains(t.id))
    }

    /// The groups that are left once `done` is done: the first `parallel` tasks
    /// that may run, and so on until none may.
    pub open spec fn groups_from(self, done: Set<Seq<char>>, parallel: nat) -> Seq<
        Seq<Seq<char>>,
    >
        decreases self.remaining(done).len(),
    {
        let group = first(self.runnable(done), parallel);
        if group.len() == 0 {
            Seq::empty()
        } else {
            proof {
                lemma_group_finishes(self, done, parallel);
            }
            seq![group] + self.groups_from(done.union(group.to_set()), parallel)
        }
    }

    /// The groups of the workflow.
    pub open spec fn groups(self, parallel: nat) -> Seq<Seq<Seq<char>>> {
        self.groups_from(Set::empty(), parallel)
    }
}

/// A stricter filter keeps no more, and fewer where it drops something.
pub proof fn lemma_filter_smaller<A>(s: Seq<A>, p: spec_fn(A) -> bool, q: spec_fn(A) -> bool)
    requires
        forall|a: A| #[trigger] q(a) ==> p(a),
    ensures
        s.filter(q).len() <= s.filter(p).len(),
        (exists|i: int| 0 <= i < s.len() && p(#[trigger] s[i]) && !q(s[i])) ==> s.filter(q).len()
            < s.filter(p).len(),
    decreases s.len(),
{
    reveal(Seq::filter);
    if s.len() > 0 {
        lemma_filter_smaller(s.drop_last(), p, q);
        if exists|i: int| 0 <= i < s.len() && p(#[trigger] s[i]) && !q(s[i]) {
            let i = choose|i: int| 0 <= i < s.len() && p(#[trigger] s[i]) && !q(s[i]);
            if i < s.len() - 1 {
                assert(p(s.drop_last()[i]) && !q(s.drop_last()[i]));
            }
        }
    }
}

/// What `runnable` holds: each entry is the identifier of a task that may run.
proof fn lemma_runnable_member(w: WorkflowModel, done: Set<Seq<char>>, i: int)
    requires
        0 <= i < w.runnable(done).len(),
    ensures
        exists|j: int|
            0 <= j < w.tasks.len() && #[trigger] w.tasks[j].id == w.runnable(done)[i]
                && w.tasks[j].runnable(done),
{
    let p = |t: TaskModel| t.runnable(done);
    let kept = w.tasks.filter(p);
    w.tasks.lemma_filter_pred(p, i);
    assert(kept.contains(kept[i]));
    w.tasks.lemma_filter_contains_rev(p, kept[i]);
    let j = choose|j: int| 0 <= j < w.tasks.len() && w.tasks[j] == kept[i];
    assert(w.tasks[j].id == w.runnable(done)[i]);
}

proof fn lemma_first_prefix<A>(s: Seq<A>, n: nat)
    ensures
        first(s, n).len() <= n,
        first(s, n).len() <= s.len(),
        forall|i: int| 0 <= i < first(s, n).len() ==> #[trigger] first(s, n)[i] == s[i],
        n > 0 && s.len() > 0 ==> first(s, n).len() > 0,
{
}

/// A group that is not empty leaves fewer tasks to do.
pub proof fn lemma_group_finishes(w: WorkflowModel, done: Set<Seq<char>>, parallel: nat)
    requires
        first(w.runnable(done), parallel).len() > 0,
    ensures
        w.remaining(done.union(first(w.runnable(done), parallel).to_set())).len()
            < w.remaining(done).len(),
{
    let group = first(w.runnable(done), parallel);
    let after = done.union(group.to_set());
    lemma_first_prefix(w.runnable(done), parallel);
    lemma_runnable_member(w, done, 0);
    let j = choose|j: int|
        0 <= j < w.tasks.len() && #[trigger] w.tasks[j].id == w.runnable(done)[0]
            && w.tasks[j].runnable(done);
    let p = |t: TaskModel| !done.contains(t.id);
    let q = |t: TaskModel| !after.contains(t.id);
    assert(group.contains(group[0]));
    assert(p(w.tasks[j]) && !q(w.tasks[j]));
    lemma_filter_smaller(w.tasks, p, q);
}

fn holds(done: &Vec<String>, id: &String) -> (b: bool)
    ensures
        b == texts(done@).contains(id@),
{
    let mut i: usize = 0;
    while i < done.len()
        invariant
            i <= done@.len(),
            forall|j: int| 0 <= j < i ==> #[trigger] texts(done@)[j] != id@,
        decreases done@.len() - i,
    {
        if done[i] == *id {
            assert(texts(done@)[i as int] == id@);
            return true;
        }
        i = i + 1;
    }
    false
}

fn may_run(task: &Task, done: &Vec<String>) -> (b: bool)
    ensures
        b == task@.runnable(texts(done@).to_set()),
{
    if holds(done, &task.id) {
        return false;
    }
    let mut k: usize = 0;
    while k < task.dependencies.len()
        invariant
            k <= task.dependencies@.len(),
            forall|j: int|
                0 <= j < k ==> texts(done@).to_set().contains(
                    #[trigger] task@.dependencies[j],
                ),
        decreases task.dependencies@.len() - k,
    {
        assert(task@.dependencies[k as int] == task.dependencies@[k as int]@);
        if !holds(done, &task.dependencies[k]) {
            return false;
        }
        k = k + 1;
    }
    true
}

impl Workflow {
    fn next_group(&self, done: &Vec<String>, parallel: usize) -> (r: Vec<String>)
        ensures
            texts(r@) == first(self@.runnable(texts(done@).to_set()), parallel as nat),
    {
        let ghost set = texts(done@).to_set();
        let ghost p = |t: TaskModel| t.runnable(set);
        let ghost id_of = |t: TaskModel| t.id;
        let ghost tasks = self@.tasks;
        let mut r: Vec<String> = Vec::new();
        let mut i: usize = 0;
        assert(tasks.take(0).filter(p) =~= Seq::<TaskModel>::empty()) by {
            reveal(Seq::filter);
        }
        assert(texts(r@) =~= first(tasks.take(0).filter(p).map_values(id_of), parallel as nat));
        while i < self.tasks.len()
            invariant
                i <= self.tasks@.len(),
                tasks == self@.tasks,
                set == texts(done@).to_set(),
                p == (|t: TaskModel| t.runnable(set)),
                id_of == (|t: TaskModel| t.id),
                texts(r@) == first(
                    tasks.take(i as int).filter(p).map_values(id_of),
                    parallel as nat,
                ),
            decreases self.tasks@.len() - i,
        {
            let ghost before = tasks.take(i as int).filter(p);
            let ghost t = tasks[i as int];
            assert(t == self.tasks@[i as int]@);
            proof {
                assert(tasks.take(i + 1) =~= tasks.take(i as int).push(t));
                tasks.take(i as int).lemma_filter_push(t, p);
                assert(before.push(t).map_values(id_of) =~= before.map_values(id_of).push(t.id));
                assert(texts(r@).len() == r@.len());
            }
            if r.len() < parallel && may_run(&self.tasks[i], done) {
                let ghost old_r = r@;
                r.push(self.tasks[i].id.clone());
                assert(texts(r@) =~= texts(old_r).push(t.id));
            }
            assert(texts(r@) =~= first(
                tasks.take(i + 1).filter(p).map_values(id_of),
                parallel as nat,
            ));
            i = i + 1;
        }
        assert(tasks.take(i as int) =~= tasks);
        r
    }

    /// The groups in which the tasks would run, at most `parallel` at a time:
    /// each group holds the first tasks, in the order of the workflow, whose
    /// dependencies are all in earlier groups.
    pub fn groups(&self, parallel: usize) -> (r: Vec<Vec<String>>)
        ensures
            r@.map_values(|g: Vec<String>| texts(g@)) == self@.groups(parallel as nat),
    {
        let ghost p = parallel as nat;
        let ghost reading = |g: Vec<String>| texts(g@);
        let mut done: Vec<String> = Vec::new();
        let mut r: Vec<Vec<String>> = Vec::new();
        assert(texts(done@).to_set() =~= Set::<Seq<char>>::empty());
        let mut group = self.next_group(&done, parallel);
        assert(r@.map_values(reading) + self@.groups_from(Set::empty(), p)
            =~= self@.groups(p));
        while group.len() > 0
            invariant
                p == parallel as nat,
                reading == (|g: Vec<String>| texts(g@)),
                texts(group@) == first(self@.runnable(texts(done@).to_set()), p),
                r@.map_values(reading) + self@.groups_from(texts(done@).to_set(), p)
                    == self@.groups(p),
            decreases self@.remaining(texts(done@).to_set()).len(),
        {
            let ghost set = texts(done@).to_set();
            let ghost current = texts(group@);
            let ghost before = texts(done@);
            let mut i: usize = 0;
            assert(current.len() == group@.len());
            assert(before + current.take(0) =~= before);
            while i < group.len()
                invariant
                    i <= group@.len(),
                    current == texts(group@),
                    texts(done@) == before + current.take(i as int),
                decreases group@.len() - i,
            {
                let ghost old_done = done@;
                done.push(group[i].clone());
                assert(texts(done@) =~= texts(old_done).push(current[i as int]));
                assert(texts(done@) =~= before + current.take(i + 1));
                i = i + 1;
            }
            assert(current.take(i as int) =~= current);
            assert(texts(done@).to_set() =~= set.union(current.to_set())) by {
                assert forall|x: Seq<char>|
                    texts(done@).contains(x) <==> before.contains(x) || current.contains(x) by {
                    if before.contains(x) {
                        let k = choose|k: int| 0 <= k < before.len() && before[k] == x;
                        assert(texts(done@)[k] == x);
                    }
                    if current.contains(x) {
                        let k = choose|k: int| 0 <= k < current.len() && current[k] == x;
                        assert(texts(done@)[before.len() + k] == x);
                    }
                }
            }
            proof {
                lemma_group_finishes(self@, set, p);
            }
            let ghost old_r = r@;
            let ghost rest = self@.groups_from(texts(done@).to_set(), p);
            r.push(group);
            assert(r@.map_values(reading) =~= old_r.map_values(reading).push(current));
            assert(r@.map_values(reading) + rest =~= old_r.map_values(reading) + (seq![current]
                + rest));
            group = self.next_group(&done, parallel);
        }
        assert(self@.groups_from(texts(done@).to_set(), p) =~= Seq::<Seq<Seq<char>>>::empty());
        assert(r@.map_values(reading) =~= self@.groups(p));
        r
    }
}

// ---------------------------------------------------------------------------
// Laws
// ---------------------------------------------------------------------------

/// In a valid workflow, among the tasks that `open` picks out there is one none
/// of whose dependencies is picked out.
pub proof fn lemma_first_open(w: WorkflowModel, open: spec_fn(Seq<char>) -> bool, i: int) -> (j:
    int)
    requires
        w.valid(),
        0 <= i < w.tasks.len(),
        open(w.tasks[i].id),
    ensures
        0 <= j < w.tasks.len(),
        open(w.tasks[j].id),
        forall|k: int|
            0 <= k < w.tasks[j].dependencies.len() ==> !open(
                #[trigger] w.tasks[j].dependencies[k],
            ),
{
    lemma_graph_in_range(w);
    let order = lemma_order_exists(w.graph());
    lemma_first_open_in(w, open, order, i)
}

proof fn lemma_first_open_in(
    w: WorkflowModel,
    open: spec_fn(Seq<char>) -> bool,
    order: Seq<int>,
    i: int,
) -> (j: int)
    requires
        w.valid(),
        is_order(w.graph(), order),
        0 <= i < w.tasks.len(),
        open(w.tasks[i].id),
    ensures
        0 <= j < w.tasks.len(),
        open(w.tasks[j].id),
        forall|k: int|
            0 <= k < w.tasks[j].dependencies.len() ==> !open(
                #[trigger] w.tasks[j].dependencies[k],
            ),
    decreases rank(order, i),
{
    let deps = w.tasks[i].dependencies;
    if forall|k: int| 0 <= k < deps.len() ==> !open(#[trigger] deps[k]) {
        i
    } else {
        let k = choose|k: int| 0 <= k < deps.len() && open(#[trigger] deps[k]);
        assert(w.knows(w.tasks[i].dependencies[k]));
        let u = w.position(deps[k]);
        assert(0 <= u < w.tasks.len() && w.tasks[u].id == deps[k]);
        assert(w.graph()[i][k] == u);
        assert(edge(w.graph(), i, u));
        lemma_rank_descends(w.graph(), order, i, u);
        lemma_first_open_in(w, open, order, u)
    }
}

/// The task stands in `done` or in one of the first `n` groups.
pub open spec fn placed(
    groups: Seq<Seq<Seq<char>>>,
    n: int,
    done: Set<Seq<char>>,
    id: Seq<char>,
) -> bool {
    done.contains(id) || exists|h: int| 0 <= h < n && (#[trigger] groups[h]).contains(id)
}

/// What the groups of a workflow meet, once `done` is done.
pub open spec fn orderly(
    w: WorkflowModel,
    groups: Seq<Seq<Seq<char>>>,
    done: Set<Seq<char>>,
    parallel: nat,
) -> bool {
    &&& forall|h: int| 0 <= h < groups.len() ==> 0 < (#[trigger] groups[h]).len() <= parallel
    &&& forall|h: int, i: int|
        0 <= h < groups.len() && 0 <= i < groups[h].len() ==> {
            &&& w.knows(#[trigger] groups[h][i])
            &&& !done.contains(groups[h][i])
        }
    &&& forall|h: int, t: int, k: int|
        0 <= h < groups.len() && 0 <= t < w.tasks.len() && #[trigger] groups[h].contains(
            w.tasks[t].id,
        ) && 0 <= k < w.tasks[t].dependencies.len() ==> placed(
            groups,
            h,
            done,
            #[trigger] w.tasks[t].dependencies[k],
        )
    &&& forall|h1: int, i1: int, h2: int, i2: int|
        0 <= h1 < groups.len() && 0 <= i1 < groups[h1].len() && 0 <= h2 < groups.len() && 0 <= i2
            < groups[h2].len() && #[trigger] groups[h1][i1] == #[trigger] groups[h2][i2] ==> h1
            == h2 && i1 == i2
}

/// The tasks that may run have distinct identifiers.
proof fn lemma_runnable_distinct(w: WorkflowModel, done: Set<Seq<char>>)
    requires
        w.distinct(),
    ensures
        w.runnable(done).no_duplicates(),
{
    let p = |t: TaskModel| t.runnable(done);
    lemma_filter_distinct(w.tasks, p);
    let kept = w.tasks.filter(p);
    assert forall|i: int, j: int|
        0 <= i < w.runnable(done).len() && 0 <= j < w.runnable(done).len() && i
            != j implies w.runnable(done)[i] != w.runnable(done)[j] by {
        assert(kept[i].id != kept[j].id);
    }
}

/// No two tasks share an identifier.
pub open spec fn distinct_ids(s: Seq<TaskModel>) -> bool {
    forall|i: int, j: int|
        0 <= i < s.len() && 0 <= j < s.len() && i != j ==> (#[trigger] s[i]).id != (
        #[trigger] s[j]).id
}

/// Filtering keeps distinct identifiers distinct.
pub proof fn lemma_filter_distinct(s: Seq<TaskModel>, p: spec_fn(TaskModel) -> bool)
    requires
        forall|i: int, j: int|
            0 <= i < j < s.len() ==> (#[trigger] s[i]).id != (#[trigger] s[j]).id,
    ensures
        distinct_ids(s.filter(p)),
        forall|i: int|
            0 <= i < s.filter(p).len() ==> s.contains(#[trigger] s.filter(p)[i]),
    decreases s.len(),
{
    reveal(Seq::filter);
    if s.len() > 0 {
        let head = s.drop_last();
        lemma_filter_distinct(head, p);
        let kept = head.filter(p);
        assert forall|i: int| 0 <= i < kept.len() implies s.contains(#[trigger] kept[i])
            && kept[i].id != s.last().id by {
            let j = choose|j: int| 0 <= j < head.len() && head[j] == kept[i];
            assert(s[j] == kept[i]);
            assert(s[j].id != s[s.len() - 1].id);
        }
        assert(s.contains(s[s.len() - 1]));
        if p(s.last()) {
            assert(s.filter(p) =~= kept.push(s.last()));
        } else {
            assert(s.filter(p) =~= kept);
        }
    }
}

proof fn lemma_orderly(w: WorkflowModel, done: Set<Seq<char>>, parallel: nat)
    requires
        w.distinct(),
    ensures
        orderly(w, w.groups_from(done, parallel), done, parallel),
    decreases w.remaining(done).len(),
{
    let group = first(w.runnable(done), parallel);
    let groups = w.groups_from(done, parallel);
    lemma_first_prefix(w.runnable(done), parallel);
    if group.len() > 0 {
        lemma_group_finishes(w, done, parallel);
        let after = done.union(group.to_set());
        let rest = w.groups_from(after, parallel);
        lemma_orderly(w, after, parallel);
        lemma_runnable_distinct(w, done);
        assert(groups =~= seq![group] + rest);
        assert(forall|h: int| 1 <= h < groups.len() ==> #[trigger] groups[h] == rest[h - 1]);
        assert forall|h: int, i: int|
            0 <= h < groups.len() && 0 <= i < groups[h].len() implies w.knows(
            #[trigger] groups[h][i],
        ) && !done.contains(groups[h][i]) by {
            if h == 0 {
                lemma_runnable_member(w, done, i);
            } else {
                assert(w.knows(rest[h - 1][i]));
                assert(!after.contains(rest[h - 1][i]));
            }
        }
        assert forall|h: int, t: int, k: int|
            0 <= h < groups.len() && 0 <= t < w.tasks.len() && #[trigger] groups[h].contains(
                w.tasks[t].id,
            ) && 0 <= k < w.tasks[t].dependencies.len() implies placed(
            groups,
            h,
            done,
            #[trigger] w.tasks[t].dependencies[k],
        ) by {
            let d = w.tasks[t].dependencies[k];
            if h == 0 {
                let i = choose|i: int| 0 <= i < group.len() && group[i] == w.tasks[t].id;
                lemma_runnable_member(w, done, i);
                let j = choose|j: int|
                    0 <= j < w.tasks.len() && #[trigger] w.tasks[j].id == w.runnable(done)[i]
                        && w.tasks[j].runnable(done);
                if j < t {
                    assert(w.tasks[j].id != w.tasks[t].id);
                } else if t < j {
                    assert(w.tasks[t].id != w.tasks[j].id);
                }
                assert(done.contains(d));
            } else {
                assert(rest[h - 1].contains(w.tasks[t].id));
                assert(placed(rest, h - 1, after, d));
                if !done.contains(d) {
                    if group.contains(d) {
                        assert(groups[0].contains(d));
                    } else {
                        let e = choose|e: int| 0 <= e < h - 1 && (#[trigger] rest[e]).contains(d);
                        assert(groups[e + 1].contains(d));
                    }
                }
            }
        }
        assert forall|h1: int, i1: int, h2: int, i2: int|
            0 <= h1 < groups.len() && 0 <= i1 < groups[h1].len() && 0 <= h2 < groups.len() && 0
                <= i2 < groups[h2].len() && #[trigger] groups[h1][i1]
                == #[trigger] groups[h2][i2] implies h1 == h2 && i1 == i2 by {
            if h1 == 0 && h2 == 0 {
                assert(w.runnable(done)[i1] == w.runnable(done)[i2]);
            } else if h1 == 0 {
                assert(group.contains(group[i1]));
                assert(!after.contains(rest[h2 - 1][i2]));
            } else if h2 == 0 {
                assert(group.contains(group[i2]));
                assert(!after.contains(rest[h1 - 1][i1]));
            } else {
                assert(rest[h1 - 1][i1] == rest[h2 - 1][i2]);
            }
        }
    } else {
        assert(groups =~= Seq::<Seq<Seq<char>>>::empty());
    }
}

proof fn lemma_runnable_contains(w: WorkflowModel, done: Set<Seq<char>>, j: int)
    requires
        0 <= j < w.tasks.len(),
        w.tasks[j].runnable(done),
    ensures
        w.runnable(done).len() > 0,
{
    let p = |t: TaskModel| t.runnable(done);
    let q = |t: TaskModel| false;
    assert(p(w.tasks[j]) && !q(w.tasks[j]));
    lemma_filter_smaller(w.tasks, p, q);
}

proof fn lemma_covered(w: WorkflowModel, done: Set<Seq<char>>, parallel: nat, i: int)
    requires
        w.valid(),
        parallel > 0,
        0 <= i < w.tasks.len(),
    ensures
        placed(
            w.groups_from(done, parallel),
            w.groups_from(done, parallel).len() as int,
            done,
            w.tasks[i].id,
        ),
    decreases w.remaining(done).len(),
{
    let id = w.tasks[i].id;
    let group = first(w.runnable(done), parallel);
    let groups = w.groups_from(done, parallel);
    lemma_first_prefix(w.runnable(done), parallel);
    if group.len() > 0 {
        lemma_group_finishes(w, done, parallel);
        let after = done.union(group.to_set());
        let rest = w.groups_from(after, parallel);
        lemma_covered(w, after, parallel, i);
        assert(groups =~= seq![group] + rest);
        if !done.contains(id) {
            if group.contains(id) {
                assert(groups[0].contains(id));
            } else {
                let e = choose|e: int| 0 <= e < rest.len() && (#[trigger] rest[e]).contains(id);
                assert(groups[e + 1].contains(id));
            }
        }
    } else if !done.contains(id) {
        let j = lemma_first_open(w, |x: Seq<char>| !done.contains(x), i);
        lemma_runnable_contains(w, done, j);
    }
}

/// The groups of a valid workflow hold every task exactly once, no group holds
/// more than `parallel` tasks, and every dependency of a task stands in an
/// earlier group.
pub proof fn law_groups_schedule_every_task(w: WorkflowModel, parallel: nat)
    requires
        w.valid(),
        parallel > 0,
    ensures
        orderly(w, w.groups(parallel), Set::empty(), parallel),
        forall|i: int|
            0 <= i < w.tasks.len() ==> placed(
                w.groups(parallel),
                w.groups(parallel).len() as int,
                Set::empty(),
                (#[trigger] w.tasks[i]).id,
            ),
{
    lemma_orderly(w, Set::empty(), parallel);
    assert forall|i: int| 0 <= i < w.tasks.len() implies placed(
        w.groups(parallel),
        w.groups(parallel).len() as int,
        Set::empty(),
        (#[trigger] w.tasks[i]).id,
    ) by {
        lemma_covered(w, Set::empty(), parallel, i);
    }
}

/// The places of what a filter keeps: rising, and all of them.
pub proof fn lemma_kept_places(s: Seq<TaskModel>, p: spec_fn(TaskModel) -> bool) -> (places: Seq<int>)
    ensures
        places.len() == s.filter(p).len(),
        forall|a: int|
            0 <= a < places.len() ==> 0 <= #[trigger] places[a] < s.len() && s.filter(p)[a]
                == s[places[a]] && p(s[places[a]]),
        forall|a: int, b: int|
            0 <= a < b < places.len() ==> #[trigger] places[a] < #[trigger] places[b],
        forall|i: int| 0 <= i < s.len() && p(#[trigger] s[i]) ==> places.contains(i),
    decreases s.len(),
{
    reveal(Seq::filter);
    if s.len() == 0 {
        Seq::empty()
    } else {
        let head = s.drop_last();
        let before = lemma_kept_places(head, p);
        let n = s.len() - 1;
        let places = if p(s.last()) {
            before.push(n)
        } else {
            before
        };
        assert forall|a: int| 0 <= a < places.len() implies 0 <= #[trigger] places[a] < s.len()
            && s.filter(p)[a] == s[places[a]] && p(s[places[a]]) by {
            if a < before.len() {
                assert(head[before[a]] == s[before[a]]);
                assert(s.filter(p)[a] == head.filter(p)[a]);
            }
        }
        assert forall|i: int| 0 <= i < s.len() && p(#[trigger] s[i]) implies places.contains(i) by {
            if i < n {
                assert(p(head[i]));
                assert(before.contains(i));
                let a = before.index_of(i);
                assert(places[a] == i);
            } else {
                assert(places[before.len() as int] == n);
            }
        }
        places
    }
}

/// Behind the first `h` groups it is the turn of the task at `t`: it stands in
/// none of them, and all that it depends on does.
pub open spec fn has_turn(
    w: WorkflowModel,
    groups: Seq<Seq<Seq<char>>>,
    h: int,
    done: Set<Seq<char>>,
    t: int,
) -> bool {
    &&& !placed(groups, h, done, w.tasks[t].id)
    &&& forall|k: int|
        0 <= k < w.tasks[t].dependencies.len() ==> placed(
            groups,
            h,
            done,
            #[trigger] w.tasks[t].dependencies[k],
        )
}

/// The group at `h` holds the tasks at these places, which rise: each has its
/// turn, and one that has its turn and is left out stands behind them all, with no
/// room left for it.
pub open spec fn is_next_group(
    w: WorkflowModel,
    groups: Seq<Seq<Seq<char>>>,
    h: int,
    done: Set<Seq<char>>,
    parallel: nat,
    places: Seq<int>,
) -> bool {
    &&& places.len() == groups[h].len()
    &&& forall|a: int|
        0 <= a < places.len() ==> 0 <= #[trigger] places[a] < w.tasks.len() && groups[h][a]
            == w.tasks[places[a]].id && has_turn(w, groups, h, done, places[a])
    &&& forall|a: int, b: int|
        0 <= a < b < places.len() ==> #[trigger] places[a] < #[trigger] places[b]
    &&& forall|t: int|
        0 <= t < w.tasks.len() && #[trigger] has_turn(w, groups, h, done, t) && !places.contains(t)
            ==> places.len() == parallel && forall|a: int|
            0 <= a < places.len() ==> #[trigger] places[a] < t
}

proof fn lemma_turns(w: WorkflowModel, done: Set<Seq<char>>, parallel: nat, h: int, t: int)
    requires
        first(w.runnable(done), parallel).len() > 0,
        1 <= h <= w.groups_from(done, parallel).len(),
    ensures
        ({
            let after = done.union(first(w.runnable(done), parallel).to_set());
            has_turn(w, w.groups_from(done, parallel), h, done, t) == has_turn(
                w,
                w.groups_from(after, parallel),
                h - 1,
                after,
                t,
            )
        }),
{
    let group = first(w.runnable(done), parallel);
    let after = done.union(group.to_set());
    let groups = w.groups_from(done, parallel);
    lemma_group_finishes(w, done, parallel);
    let rest = w.groups_from(after, parallel);
    assert(groups =~= seq![group] + rest);
    assert forall|id: Seq<char>| placed(groups, h, done, id) == #[trigger] placed(
        rest,
        h - 1,
        after,
        id,
    ) by {
        if placed(groups, h, done, id) && !done.contains(id) {
            let e = choose|e: int| 0 <= e < h && (#[trigger] groups[e]).contains(id);
            if e > 0 {
                assert(rest[e - 1].contains(id));
            }
        }
        if placed(rest, h - 1, after, id) && !done.contains(id) {
            if group.contains(id) {
                assert(groups[0].contains(id));
            } else {
                let e = choose|e: int| 0 <= e < h - 1 && (#[trigger] rest[e]).contains(id);
                assert(groups[e + 1].contains(id));
            }
        }
    }
}

proof fn lemma_next_group(w: WorkflowModel, done: Set<Seq<char>>, parallel: nat, h: int) -> (places:
    Seq<int>)
    requires
        0 <= h <= w.groups_from(done, parallel).len(),
    ensures
        h < w.groups_from(done, parallel).len() ==> is_next_group(
            w,
            w.groups_from(done, parallel),
            h,
            done,
            parallel,
            places,
        ),
        h == w.groups_from(done, parallel).len() && parallel > 0 ==> forall|t: int|
            0 <= t < w.tasks.len() ==> !#[trigger] has_turn(
                w,
                w.groups_from(done, parallel),
                h,
                done,
                t,
            ),
    decreases h,
{
    let p = |t: TaskModel| t.runnable(done);
    let group = first(w.runnable(done), parallel);
    let groups = w.groups_from(done, parallel);
    lemma_first_prefix(w.runnable(done), parallel);
    if h == 0 {
        let all = lemma_kept_places(w.tasks, p);
        let places = all.take(group.len() as int);
        assert forall|t: int| 0 <= t < w.tasks.len() implies #[trigger] has_turn(
            w,
            groups,
            0,
            done,
            t,
        ) == w.tasks[t].runnable(done) by {
            assert forall|id: Seq<char>| #[trigger] placed(groups, 0, done, id) == done.contains(
                id,
            ) by {}
        }
        if group.len() > 0 {
            lemma_group_finishes(w, done, parallel);
            assert(groups[0] == group);
            assert forall|a: int| 0 <= a < places.len() implies 0 <= #[trigger] places[a]
                < w.tasks.len() && groups[0][a] == w.tasks[places[a]].id && has_turn(
                w,
                groups,
                0,
                done,
                places[a],
            ) by {
                assert(places[a] == all[a]);
                assert(groups[0][a] == w.runnable(done)[a]);
            }
            assert forall|t: int|
                0 <= t < w.tasks.len() && #[trigger] has_turn(w, groups, 0, done, t)
                    && !places.contains(t) implies places.len() == parallel && forall|a: int|
                0 <= a < places.len() ==> #[trigger] places[a] < t by {
                assert(p(w.tasks[t]));
                assert(all.contains(t));
                let b = all.index_of(t);
                if b < places.len() {
                    assert(places[b] == t);
                }
                assert forall|a: int| 0 <= a < places.len() implies #[trigger] places[a] < t by {
                    assert(all[a] < all[b]);
                }
            }
        } else if parallel > 0 {
            assert forall|t: int| 0 <= t < w.tasks.len() implies !#[trigger] has_turn(
                w,
                groups,
                h,
                done,
                t,
            ) by {
                if has_turn(w, groups, 0, done, t) {
                    lemma_runnable_contains(w, done, t);
                }
            }
        }
        places
    } else {
        let after = done.union(group.to_set());
        lemma_group_finishes(w, done, parallel);
        let rest = w.groups_from(after, parallel);
        assert(groups =~= seq![group] + rest);
        let places = lemma_next_group(w, after, parallel, h - 1);
        assert forall|t: int| #[trigger] has_turn(w, groups, h, done, t) == has_turn(
            w,
            rest,
            h - 1,
            after,
            t,
        ) by {
            lemma_turns(w, done, parallel, h, t);
        }
        if h < groups.len() {
            assert(groups[h] == rest[h - 1]);
        }
        places
    }
}

/// The groups go as far as they can and no further: each holds the first tasks, in
/// the order of the workflow, whose dependencies all stand in earlier groups and
/// that stand in none themselves, as many as may run at once or all where there
/// are fewer; behind the last group no task has its turn.
pub proof fn law_groups_hold_the_first_tasks_that_may_run(
    w: WorkflowModel,
    parallel: nat,
    h: int,
) -> (places: Seq<int>)
    requires
        0 <= h <= w.groups(parallel).len(),
    ensures
        h < w.groups(parallel).len() ==> is_next_group(
            w,
            w.groups(parallel),
            h,
            Set::empty(),
            parallel,
            places,
        ),
        h == w.groups(parallel).len() && parallel > 0 ==> forall|t: int|
            0 <= t < w.tasks.len() ==> !#[trigger] has_turn(
                w,
                w.groups(parallel),
                h,
                Set::empty(),
                t,
            ),
{
    lemma_next_group(w, Set::empty(), parallel, h)
}

} // verus!
