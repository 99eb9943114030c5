//! What makes a workflow valid, and what is told of one that is not.

use crate::graph::{
    edge, has_cycle, is_cycle, is_walk, law_search_meets_every_cycle, on_cycle, search,
};
use crate::text::blank;
use crate::workflow::{
    about, cycle_message, law_cycle_messages_name_tasks_on_cycles, lemma_graph_in_range,
    lemma_local_messages, lemma_position, repeated_message, unknown_message, within, TaskModel,
    WorkflowModel,
};
use vstd::prelude::*;

verus! {

// ---------------------------------------------------------------------------
// Validity
// ---------------------------------------------------------------------------

/// The task at `i` names the one at `j` among its dependencies.
pub open spec fn depends(w: WorkflowModel, i: int, j: int) -> bool {
    &&& 0 <= i < w.tasks.len()
    &&& 0 <= j < w.tasks.len()
    &&& w.tasks[i].dependencies.contains(w.tasks[j].id)
}

/// A way along dependencies that comes back to the task that it started from.
pub open spec fn is_loop(w: WorkflowModel, walk: Seq<int>) -> bool {
    &&& walk.len() >= 2
    &&& walk[0] == walk.last()
    &&& forall|a: int| 0 <= a < walk.len() - 1 ==> depends(w, #[trigger] walk[a], walk[a + 1])
}

/// What is asked of each task by itself: an identifier and a command; a time limit
/// of a second to a week, up to a thousand retries or up to a thousand and one
/// attempts where it gives any, but not both; and each dependency once.
pub open spec fn is_fit(t: TaskModel) -> bool {
    &&& !blank(t.id)
    &&& !blank(t.command)
    &&& t.timeout_seconds matches Some(n) ==> 1 <= n <= 604_800
    &&& t.retries matches Some(n) ==> 0 <= n <= 1000
    &&& t.max_attempts matches Some(n) ==> 1 <= n <= 1001
    &&& t.retries is None || t.max_attempts is None
    &&& forall|a: int, b: int|
        0 <= a < b < t.dependencies.len() ==> #[trigger] t.dependencies[a]
            != #[trigger] t.dependencies[b]
}

/// Where identifiers are distinct and dependencies known, the graph has an edge
/// exactly where a task depends on another.
proof fn lemma_edges_are_dependencies(w: WorkflowModel, i: int, j: int)
    requires
        w.distinct(),
        w.closed(),
    ensures
        edge(w.graph(), i, j) <==> depends(w, i, j),
{
    lemma_graph_in_range(w);
    if edge(w.graph(), i, j) {
        let row = w.graph()[i];
        let k = row.index_of(j);
        let dep = w.tasks[i].dependencies[k];
        assert(w.knows(w.tasks[i].dependencies[k]));
        assert(row[k] == w.position(dep));
        assert(0 <= j < w.tasks.len() && w.tasks[j].id == dep);
        assert(w.tasks[i].dependencies.contains(dep));
    }
    if depends(w, i, j) {
        let k = w.tasks[i].dependencies.index_of(w.tasks[j].id);
        lemma_position(w, j);
        assert(w.graph()[i][k] == j);
    }
}

proof fn lemma_loops_are_cycles(w: WorkflowModel, walk: Seq<int>)
    requires
        w.distinct(),
        w.closed(),
    ensures
        is_cycle(w.graph(), walk) <==> is_loop(w, walk),
{
    if is_cycle(w.graph(), walk) {
        assert forall|a: int| 0 <= a < walk.len() - 1 implies depends(
            w,
            #[trigger] walk[a],
            walk[a + 1],
        ) by {
            assert(edge(w.graph(), walk[a], walk[a + 1]));
            lemma_edges_are_dependencies(w, walk[a], walk[a + 1]);
        }
    }
    if is_loop(w, walk) {
        assert forall|a: int| 0 <= a < walk.len() - 1 implies edge(
            w.graph(),
            #[trigger] walk[a],
            walk[a + 1],
        ) by {
            assert(depends(w, walk[a], walk[a + 1]));
            lemma_edges_are_dependencies(w, walk[a], walk[a + 1]);
        }
        assert(is_walk(w.graph(), walk));
    }
}

/// A workflow is valid exactly where it has a name and at least one task, its
/// limit, if it gives one, lies between one and 1024, each task is fit by itself,
/// no two share an identifier, every dependency names a task, and no way along
/// dependencies comes back to where it started.
pub proof fn law_which_workflows_are_valid(w: WorkflowModel)
    ensures
        w.valid() <==> {
            &&& !blank(w.name)
            &&& w.tasks.len() > 0
            &&& w.max_parallel matches Some(n) ==> 1 <= n <= 1024
            &&& forall|i: int| 0 <= i < w.tasks.len() ==> is_fit(#[trigger] w.tasks[i])
            &&& forall|i: int, j: int|
                0 <= i < j < w.tasks.len() ==> (#[trigger] w.tasks[i]).id != (
                #[trigger] w.tasks[j]).id
            &&& forall|i: int, k: int|
                0 <= i < w.tasks.len() && 0 <= k < w.tasks[i].dependencies.len() ==> is_named(
                    w,
                    #[trigger] w.tasks[i].dependencies[k],
                )
            &&& forall|walk: Seq<int>| !is_loop(w, walk)
        },
{
    assert forall|i: int| 0 <= i < w.tasks.len() implies (#[trigger] w.tasks[i]).sound() == is_fit(
        w.tasks[i],
    ) by {
        let t = w.tasks[i];
        if is_fit(t) {
            assert forall|a: int, b: int|
                0 <= a < t.dependencies.len() && 0 <= b < t.dependencies.len() && a
                    != b implies t.dependencies[a] != t.dependencies[b] by {
                if a < b {
                    assert(t.dependencies[a] != t.dependencies[b]);
                } else {
                    assert(t.dependencies[b] != t.dependencies[a]);
                }
            }
        }
    }
    if forall|i: int, k: int|
        0 <= i < w.tasks.len() && 0 <= k < w.tasks[i].dependencies.len() ==> is_named(
            w,
            #[trigger] w.tasks[i].dependencies[k],
        ) {
        assert(w.closed()) by {
            assert forall|i: int, k: int|
                0 <= i < w.tasks.len() && 0 <= k < w.tasks[i].dependencies.len() implies w.knows(
                #[trigger] w.tasks[i].dependencies[k],
            ) by {
                assert(is_named(w, w.tasks[i].dependencies[k]));
            }
        }
    }
    if w.closed() {
        assert forall|i: int, k: int|
            0 <= i < w.tasks.len() && 0 <= k < w.tasks[i].dependencies.len() implies is_named(
            w,
            #[trigger] w.tasks[i].dependencies[k],
        ) by {
            assert(w.knows(w.tasks[i].dependencies[k]));
        }
    }
    if w.well_formed() {
        assert forall|walk: Seq<int>| is_cycle(w.graph(), walk) == #[trigger] is_loop(w, walk) by {
            lemma_loops_are_cycles(w, walk);
        }
        if has_cycle(w.graph()) {
            let walk = choose|walk: Seq<int>| is_cycle(w.graph(), walk);
            assert(is_loop(w, walk));
        }
        if exists|walk: Seq<int>| is_loop(w, walk) {
            let walk = choose|walk: Seq<int>| is_loop(w, walk);
            assert(is_cycle(w.graph(), walk));
        }
    }
}

/// Some task has this identifier.
pub open spec fn is_named(w: WorkflowModel, id: Seq<char>) -> bool {
    exists|i: int| 0 <= i < w.tasks.len() && (#[trigger] w.tasks[i]).id == id
}

/// A task runs in the directory that it names, or in that of the workflow.
pub proof fn law_where_tasks_run(t: TaskModel)
    ensures
        t.workdir is Some ==> t.place() == t.workdir->0,
        t.workdir is None ==> t.place() == "."@,
{
}

// ---------------------------------------------------------------------------
// Messages
// ---------------------------------------------------------------------------

/// The beginning of what is told of a task.
pub open spec fn of_task(t: TaskModel) -> Seq<char> {
    "tâche '"@ + t.id + "' : "@
}

/// The message tells of a fault of the task at `i`.
pub open spec fn is_fault_of(w: WorkflowModel, i: int, message: Seq<char>) -> bool {
    let t = w.tasks[i];
    ||| blank(t.id) && message == "identifiant de tâche vide"@
    ||| (exists|j: int| 0 <= j < i && (#[trigger] w.tasks[j]).id == t.id) && message == of_task(t)
        + "identifiant dupliqué"@
    ||| blank(t.command) && message == of_task(t) + "commande vide"@
    ||| (t.timeout_seconds matches Some(n) && !(1 <= n <= 604_800)) && message == of_task(t)
        + "timeout_seconds doit être entre 1 et 604800"@
    ||| (t.retries matches Some(n) && !(0 <= n <= 1000)) && message == of_task(t)
        + "retries doit être entre 0 et 1000"@
    ||| (t.max_attempts matches Some(n) && !(1 <= n <= 1001)) && message == of_task(t)
        + "max_attempts doit être entre 1 et 1001"@
    ||| t.retries is Some && t.max_attempts is Some && message == of_task(t)
        + "choisir retries ou max_attempts"@
    ||| is_repetition_of(t, message)
}

/// The message tells of a dependency that the task had named before.
pub open spec fn is_repetition_of(t: TaskModel, message: Seq<char>) -> bool {
    exists|a: int, b: int|
        0 <= a < b < t.dependencies.len() && #[trigger] t.dependencies[a]
            == #[trigger] t.dependencies[b] && message == of_task(t) + ("dépendance '"@
            + t.dependencies[b] + "' dupliquée"@)
}

/// The message tells of a dependency of the task at `i` that names no task.
pub open spec fn is_stranger_of(w: WorkflowModel, i: int, message: Seq<char>) -> bool {
    exists|k: int|
        0 <= k < w.tasks[i].dependencies.len() && !is_named(
            w,
            #[trigger] w.tasks[i].dependencies[k],
        ) && message == of_task(w.tasks[i]) + ("dépendance inconnue '"@
            + w.tasks[i].dependencies[k] + "'"@)
}

/// The message tells of a fault of the workflow, other than a cycle.
pub open spec fn is_fault(w: WorkflowModel, message: Seq<char>) -> bool {
    ||| blank(w.name) && message == "nom du workflow vide"@
    ||| w.tasks.len() == 0 && message == "le workflow ne contient aucune tâche"@
    ||| (w.max_parallel matches Some(n) && !(1 <= n <= 1024)) && message
        == "max_parallel doit être entre 1 et 1024"@
    ||| exists|i: int| 0 <= i < w.tasks.len() && #[trigger] is_fault_of(w, i, message)
    ||| exists|i: int| 0 <= i < w.tasks.len() && #[trigger] is_stranger_of(w, i, message)
}

proof fn lemma_contains_add(a: Seq<Seq<char>>, b: Seq<Seq<char>>, x: Seq<char>)
    ensures
        (a + b).contains(x) <==> a.contains(x) || b.contains(x),
{
    if a.contains(x) {
        let i = a.index_of(x);
        assert((a + b)[i] == x);
    }
    if b.contains(x) {
        let i = b.index_of(x);
        assert((a + b)[a.len() + i] == x);
    }
    if (a + b).contains(x) {
        let i = (a + b).index_of(x);
        if i < a.len() {
            assert(a[i] == x);
        } else {
            assert(b[i - a.len()] == x);
        }
    }
}

proof fn lemma_when(b: bool, message: Seq<char>, x: Seq<char>)
    ensures
        crate::workflow::when(b, message).contains(x) <==> b && x == message,
{
    if b {
        assert(crate::workflow::when(b, message)[0] == message);
    }
}

/// The message tells of one of the first `k` dependencies that was named before.
spec fn repeats_within(t: TaskModel, k: nat, message: Seq<char>) -> bool {
    exists|a: int, b: int|
        0 <= a < b < k && #[trigger] t.dependencies[a] == #[trigger] t.dependencies[b] && message
            == of_task(t) + ("dépendance '"@ + t.dependencies[b] + "' dupliquée"@)
}

proof fn lemma_repetitions(t: TaskModel, k: nat, x: Seq<char>)
    requires
        k <= t.dependencies.len(),
    ensures
        t.repeated(k).contains(x) <==> repeats_within(t, k, x),
    decreases k,
{
    if k > 0 {
        let dep = t.dependencies[k - 1];
        let told = of_task(t) + ("dépendance '"@ + dep + "' dupliquée"@);
        let again = t.dependencies.take(k - 1).contains(dep);
        lemma_repetitions(t, (k - 1) as nat, x);
        lemma_contains_add(
            t.repeated((k - 1) as nat),
            crate::workflow::when(again, repeated_message(t.id, dep)),
            x,
        );
        lemma_when(again, repeated_message(t.id, dep), x);
        assert(repeated_message(t.id, dep) =~= told);
        if again && x == told {
            let a = t.dependencies.take(k - 1).index_of(dep);
            assert(t.dependencies[a] == t.dependencies[k - 1]);
        }
        if repeats_within(t, (k - 1) as nat, x) {
            let (a, b) = choose|a: int, b: int|
                0 <= a < b < k - 1 && #[trigger] t.dependencies[a] == #[trigger] t.dependencies[b]
                    && x == of_task(t) + ("dépendance '"@ + t.dependencies[b] + "' dupliquée"@);
            assert(t.dependencies[a] == t.dependencies[b]);
        }
        if repeats_within(t, k, x) {
            let (a, b) = choose|a: int, b: int|
                0 <= a < b < k && #[trigger] t.dependencies[a] == #[trigger] t.dependencies[b]
                    && x == of_task(t) + ("dépendance '"@ + t.dependencies[b] + "' dupliquée"@);
            if b == k - 1 {
                assert(t.dependencies.take(k - 1)[a] == dep);
            } else {
                assert(repeats_within(t, (k - 1) as nat, x));
            }
        }
    } else {
        assert(t.repeated(0) =~= Seq::<Seq<char>>::empty());
    }
}

proof fn lemma_task_faults(w: WorkflowModel, i: int, x: Seq<char>)
    requires
        0 <= i < w.tasks.len(),
    ensures
        w.task_messages(i).contains(x) <==> is_fault_of(w, i, x),
{
    let t = w.tasks[i];
    let id = t.id;
    let m1 = crate::workflow::when(blank(id), "identifiant de tâche vide"@);
    let m2 = crate::workflow::when(
        w.reused(i),
        about(id, "identifiant dupliqué"@),
    );
    let m3 = crate::workflow::when(blank(t.command), about(id, "commande vide"@));
    let late = !within(t.timeout_seconds, 1, 604_800);
    let m4 = crate::workflow::when(
        late,
        about(id, "timeout_seconds doit être entre 1 et 604800"@),
    );
    let often = !within(t.retries, 0, 1000);
    let m5 = crate::workflow::when(
        often,
        about(id, "retries doit être entre 0 et 1000"@),
    );
    let many = !within(t.max_attempts, 1, 1001);
    let m6 = crate::workflow::when(
        many,
        about(id, "max_attempts doit être entre 1 et 1001"@),
    );
    let both = t.retries is Some && t.max_attempts is Some;
    let m7 = crate::workflow::when(
        both,
        about(id, "choisir retries ou max_attempts"@),
    );
    let m8 = t.repeated(t.dependencies.len());
    lemma_contains_add(m1, m2, x);
    lemma_contains_add(m1 + m2, m3, x);
    lemma_contains_add(m1 + m2 + m3, m4, x);
    lemma_contains_add(m1 + m2 + m3 + m4, m5, x);
    lemma_contains_add(m1 + m2 + m3 + m4 + m5, m6, x);
    lemma_contains_add(m1 + m2 + m3 + m4 + m5 + m6, m7, x);
    lemma_contains_add(m1 + m2 + m3 + m4 + m5 + m6 + m7, m8, x);
    lemma_when(blank(id), "identifiant de tâche vide"@, x);
    lemma_when(w.reused(i), about(id, "identifiant dupliqué"@), x);
    lemma_when(blank(t.command), about(id, "commande vide"@), x);
    lemma_when(
        late,
        about(id, "timeout_seconds doit être entre 1 et 604800"@),
        x,
    );
    lemma_when(often, about(id, "retries doit être entre 0 et 1000"@), x);
    lemma_when(many, about(id, "max_attempts doit être entre 1 et 1001"@), x);
    lemma_when(both, about(id, "choisir retries ou max_attempts"@), x);
    lemma_repetitions(t, t.dependencies.len(), x);
    assert(w.reused(i) == exists|j: int| 0 <= j < i && (#[trigger] w.tasks[j]).id == t.id);
    assert(w.task_messages(i) == m1 + m2 + m3 + m4 + m5 + m6 + m7 + m8);
    assert(repeats_within(t, t.dependencies.len(), x) == is_repetition_of(t, x));
}

proof fn lemma_all_task_faults(w: WorkflowModel, n: nat, x: Seq<char>)
    requires
        n <= w.tasks.len(),
    ensures
        w.all_task_messages(n).contains(x) <==> exists|i: int|
            0 <= i < n && #[trigger] is_fault_of(w, i, x),
    decreases n,
{
    if n > 0 {
        lemma_all_task_faults(w, (n - 1) as nat, x);
        lemma_task_faults(w, n - 1, x);
        lemma_contains_add(w.all_task_messages((n - 1) as nat), w.task_messages(n - 1), x);
    } else {
        assert(w.all_task_messages(0) =~= Seq::<Seq<char>>::empty());
    }
}

/// The message tells of one of the first `k` dependencies of the task at `i` that
/// names no task.
spec fn strange_within(w: WorkflowModel, i: int, k: nat, message: Seq<char>) -> bool {
    exists|a: int|
        0 <= a < k && !is_named(w, #[trigger] w.tasks[i].dependencies[a]) && message == of_task(
            w.tasks[i],
        ) + ("dépendance inconnue '"@ + w.tasks[i].dependencies[a] + "'"@)
}

proof fn lemma_strangers(w: WorkflowModel, i: int, k: nat, x: Seq<char>)
    requires
        0 <= i < w.tasks.len(),
        k <= w.tasks[i].dependencies.len(),
    ensures
        w.unknown(i, k).contains(x) <==> strange_within(w, i, k, x),
    decreases k,
{
    if k > 0 {
        let t = w.tasks[i];
        let dep = t.dependencies[k - 1];
        let told = of_task(t) + ("dépendance inconnue '"@ + dep + "'"@);
        lemma_strangers(w, i, (k - 1) as nat, x);
        lemma_contains_add(
            w.unknown(i, (k - 1) as nat),
            crate::workflow::when(
                !w.knows(dep),
                unknown_message(t.id, dep),
            ),
            x,
        );
        lemma_when(!w.knows(dep), unknown_message(t.id, dep), x);
        assert(unknown_message(t.id, dep) =~= told);
        assert(w.knows(dep) == is_named(w, dep));
        if strange_within(w, i, (k - 1) as nat, x) {
            let a = choose|a: int|
                0 <= a < k - 1 && !is_named(w, #[trigger] w.tasks[i].dependencies[a]) && x
                    == of_task(w.tasks[i]) + ("dépendance inconnue '"@
                    + w.tasks[i].dependencies[a] + "'"@);
            assert(!is_named(w, w.tasks[i].dependencies[a]));
        }
    } else {
        assert(w.unknown(i, 0) =~= Seq::<Seq<char>>::empty());
    }
}

proof fn lemma_all_strangers(w: WorkflowModel, n: nat, x: Seq<char>)
    requires
        n <= w.tasks.len(),
    ensures
        w.all_unknown(n).contains(x) <==> exists|i: int|
            0 <= i < n && #[trigger] is_stranger_of(w, i, x),
    decreases n,
{
    if n > 0 {
        let deps = w.tasks[n - 1].dependencies.len();
        lemma_all_strangers(w, (n - 1) as nat, x);
        lemma_strangers(w, n - 1, deps, x);
        lemma_contains_add(w.all_unknown((n - 1) as nat), w.unknown(n - 1, deps), x);
        assert(strange_within(w, n - 1, deps, x) == is_stranger_of(w, n - 1, x));
    } else {
        assert(w.all_unknown(0) =~= Seq::<Seq<char>>::empty());
    }
}

/// Validation tells every fault that the workflow has, and none that it has not.
pub proof fn law_validation_tells_every_fault(w: WorkflowModel, message: Seq<char>)
    ensures
        is_fault(w, message) ==> w.messages().contains(message),
        w.messages().contains(message) && (exists|other: Seq<char>| is_fault(w, other))
            ==> is_fault(w, message),
{
    lemma_local_faults(w, message);
    if is_fault(w, message) {
        assert(w.local_messages().contains(message));
    }
    if exists|other: Seq<char>| is_fault(w, other) {
        let other = choose|other: Seq<char>| is_fault(w, other);
        lemma_local_faults(w, other);
        assert(w.local_messages().contains(other));
    }
}

proof fn lemma_local_faults(w: WorkflowModel, x: Seq<char>)
    ensures
        w.local_messages().contains(x) <==> is_fault(w, x),
{
    let n = w.tasks.len();
    let h1 = crate::workflow::when(blank(w.name), "nom du workflow vide"@);
    let h2 = crate::workflow::when(n == 0, "le workflow ne contient aucune tâche"@);
    let wide = !within(w.max_parallel, 1, 1024);
    let h3 = crate::workflow::when(wide, "max_parallel doit être entre 1 et 1024"@);
    lemma_when(blank(w.name), "nom du workflow vide"@, x);
    lemma_when(n == 0, "le workflow ne contient aucune tâche"@, x);
    lemma_when(wide, "max_parallel doit être entre 1 et 1024"@, x);
    lemma_contains_add(h1, h2, x);
    lemma_contains_add(h1 + h2, h3, x);
    assert(w.head_messages() == h1 + h2 + h3);
    lemma_all_task_faults(w, n, x);
    lemma_all_strangers(w, n, x);
    lemma_contains_add(w.head_messages(), w.all_task_messages(n), x);
    lemma_contains_add(w.head_messages() + w.all_task_messages(n), w.all_unknown(n), x);
}

proof fn lemma_faultless(w: WorkflowModel)
    requires
        forall|message: Seq<char>| !is_fault(w, message),
    ensures
        w.well_formed(),
        w.local_messages().len() == 0,
{
    lemma_local_messages(w);
    if w.local_messages().len() > 0 {
        let message = w.local_messages()[0];
        lemma_local_faults(w, message);
        assert(w.local_messages().contains(message));
        assert(is_fault(w, message));
    }
}

/// Where a workflow has no other fault, every way along dependencies that comes
/// back to where it started is told by the name of a task on it.
pub proof fn law_validation_tells_every_loop(w: WorkflowModel, walk: Seq<int>) -> (a: int)
    requires
        forall|message: Seq<char>| !is_fault(w, message),
        is_loop(w, walk),
    ensures
        0 <= a < walk.len(),
        w.messages().contains("cycle impliquant la tâche '"@ + w.tasks[walk[a]].id + "'"@),
{
    lemma_faultless(w);
    lemma_graph_in_range(w);
    lemma_loops_are_cycles(w, walk);
    let a = law_search_meets_every_cycle(w.graph(), walk);
    let reports = search(w.graph(), w.graph().len()).reports;
    let r = reports.index_of(walk[a]);
    assert(w.messages()[r] == cycle_message(w.tasks[walk[a]].id));
    a
}

/// Where a workflow has no other fault, a message names a task that lies on a way
/// along dependencies that comes back to it.
pub proof fn law_validation_tells_only_of_loops(w: WorkflowModel, r: int) -> (walk: Seq<int>)
    requires
        forall|message: Seq<char>| !is_fault(w, message),
        0 <= r < w.messages().len(),
    ensures
        is_loop(w, walk),
        w.messages()[r] == "cycle impliquant la tâche '"@ + w.tasks[walk[0]].id + "'"@,
{
    lemma_faultless(w);
    let v = law_cycle_messages_name_tasks_on_cycles(w, r);
    assert(on_cycle(w.graph(), v));
    let walk = choose|walk: Seq<int>| #[trigger] is_cycle(w.graph(), walk) && walk[0] == v;
    lemma_loops_are_cycles(w, walk);
    walk
}

/// A message where there is something to tell.
pub open spec fn told(b: bool, message: Seq<char>) -> Seq<Seq<char>> {
    if b {
        seq![message]
    } else {
        Seq::empty()
    }
}

/// Each fault is told once, and in order: first those of the workflow as a whole,
/// then those of each task in its turn, and at last the unknown dependencies of
/// each task in its turn. Cycles are told only where there is no other fault.
pub proof fn law_faults_are_told_in_order(w: WorkflowModel, i: int)
    ensures
        w.local_messages() == told(blank(w.name), "nom du workflow vide"@) + told(
            w.tasks.len() == 0,
            "le workflow ne contient aucune tâche"@,
        ) + told(
            w.max_parallel matches Some(n) && !(1 <= n <= 1024),
            "max_parallel doit être entre 1 et 1024"@,
        ) + w.all_task_messages(w.tasks.len()) + w.all_unknown(w.tasks.len()),
        w.all_task_messages(0).len() == 0,
        w.all_unknown(0).len() == 0,
        0 <= i < w.tasks.len() ==> {
            &&& w.all_task_messages((i + 1) as nat) == w.all_task_messages(i as nat)
                + w.task_messages(i)
            &&& w.all_unknown((i + 1) as nat) == w.all_unknown(i as nat) + w.unknown(
                i,
                w.tasks[i].dependencies.len(),
            )
        },
        w.local_messages().len() > 0 ==> w.messages() == w.local_messages(),
        w.local_messages().len() == 0 ==> w.messages().len() == search(
            w.graph(),
            w.tasks.len(),
        ).reports.len() && forall|r: int|
            0 <= r < w.messages().len() ==> #[trigger] w.messages()[r]
                == "cycle impliquant la tâche '"@ + w.tasks[search(
                w.graph(),
                w.tasks.len(),
            ).reports[r]].id + "'"@,
{
    assert(told(blank(w.name), "nom du workflow vide"@) == crate::workflow::when(
        blank(w.name),
        "nom du workflow vide"@,
    ));
    let wide = !within(w.max_parallel, 1, 1024);
    assert(wide == (w.max_parallel matches Some(n) && !(1 <= n <= 1024)));
}

/// The faults of a task by itself, each told once and in order, and at last each
/// dependency that it had named before, in the order in which it names them.
pub proof fn law_faults_of_a_task_are_told_in_order(w: WorkflowModel, i: int)
    requires
        0 <= i < w.tasks.len(),
    ensures
        ({
            let t = w.tasks[i];
            w.task_messages(i) == told(blank(t.id), "identifiant de tâche vide"@) + told(
                exists|j: int| 0 <= j < i && (#[trigger] w.tasks[j]).id == t.id,
                of_task(t) + "identifiant dupliqué"@,
            ) + told(blank(t.command), of_task(t) + "commande vide"@) + told(
                t.timeout_seconds matches Some(n) && !(1 <= n <= 604_800),
                of_task(t) + "timeout_seconds doit être entre 1 et 604800"@,
            ) + told(
                t.retries matches Some(n) && !(0 <= n <= 1000),
                of_task(t) + "retries doit être entre 0 et 1000"@,
            ) + told(
                t.max_attempts matches Some(n) && !(1 <= n <= 1001),
                of_task(t) + "max_attempts doit être entre 1 et 1001"@,
            ) + told(
                t.retries is Some && t.max_attempts is Some,
                of_task(t) + "choisir retries ou max_attempts"@,
            ) + t.repeated(t.dependencies.len())
        }),
{
    let t = w.tasks[i];
    assert(w.reused(i) == exists|j: int| 0 <= j < i && (#[trigger] w.tasks[j]).id == t.id);
}

/// The faults of the dependencies of a task, each told once and in the order in
/// which the task names them.
pub proof fn law_faults_of_dependencies_are_told_in_order(w: WorkflowModel, i: int, k: nat)
    requires
        0 <= i < w.tasks.len(),
        k < w.tasks[i].dependencies.len(),
    ensures
        ({
            let t = w.tasks[i];
            let dep = t.dependencies[k as int];
            &&& t.repeated(0).len() == 0
            &&& w.unknown(i, 0).len() == 0
            &&& t.repeated(k + 1) == t.repeated(k) + told(
                t.dependencies.take(k as int).contains(dep),
                of_task(t) + ("dépendance '"@ + dep + "' dupliquée"@),
            )
            &&& w.unknown(i, k + 1) == w.unknown(i, k) + told(
                !is_named(w, dep),
                of_task(t) + ("dépendance inconnue '"@ + dep + "'"@),
            )
        }),
{
    let t = w.tasks[i];
    let dep = t.dependencies[k as int];
    assert(repeated_message(t.id, dep) =~= of_task(t) + ("dépendance '"@ + dep + "' dupliquée"@));
    assert(unknown_message(t.id, dep) =~= of_task(t) + ("dépendance inconnue '"@ + dep + "'"@));
    assert(w.knows(dep) == is_named(w, dep));
}

} // verus!
