//! Workflows: their model, and what makes one valid.

use crate::graph::{cycle_reports, graph_of, has_cycle, in_range, indices, law_search_finds_cycles, on_cycle, search};
use crate::text::{blank, copy_optional, copy_texts, is_blank, join, joined, optional, texts};
use std::collections::HashMap;
use vstd::prelude::*;
use vstd::string::*;

verus! {

/// A workflow: named tasks and a limit on how many may run at once.
#[derive(Debug)]
pub struct Workflow {
    pub name: String,
    pub max_parallel: Option<i64>,
    pub tasks: Vec<Task>,
}

/// One task: a command, what it depends on, and how often it may be tried.
#[derive(Debug)]
pub struct Task {
    pub id: String,
    pub command: String,
    pub args: Vec<String>,
    pub dependencies: Vec<String>,
    pub workdir: Option<String>,
    pub timeout_seconds: Option<i64>,
    pub retries: Option<i64>,
    pub max_attempts: Option<i64>,
    pub env: HashMap<String, String>,
}

/// The mathematical reading of a [`Task`].
#[verifier::ext_equal]
pub struct TaskModel {
    pub id: Seq<char>,
    pub command: Seq<char>,
    pub args: Seq<Seq<char>>,
    pub dependencies: Seq<Seq<char>>,
    pub workdir: Option<Seq<char>>,
    pub timeout_seconds: Option<i64>,
    pub retries: Option<i64>,
    pub max_attempts: Option<i64>,
    pub env: Map<String, String>,
}

/// The mathematical reading of a [`Workflow`].
#[verifier::ext_equal]
pub struct WorkflowModel {
    pub name: Seq<char>,
    pub max_parallel: Option<i64>,
    pub tasks: Seq<TaskModel>,
}

impl View for Task {
    type V = TaskModel;

    open spec fn view(&self) -> TaskModel {
        TaskModel {
            id: self.id@,
            command: self.command@,
            args: texts(self.args@),
            dependencies: texts(self.dependencies@),
            workdir: optional(self.workdir),
            timeout_seconds: self.timeout_seconds,
            retries: self.retries,
            max_attempts: self.max_attempts,
            env: self.env@,
        }
    }
}

/// The tasks, one by one.
pub open spec fn task_models(v: Seq<Task>) -> Seq<TaskModel> {
    Seq::new(v.len(), |i: int| v[i]@)
}

impl View for Workflow {
    type V = WorkflowModel;

    open spec fn view(&self) -> WorkflowModel {
        WorkflowModel {
            name: self.name@,
            max_parallel: self.max_parallel,
            tasks: task_models(self.tasks@),
        }
    }
}

impl Clone for Task {
    fn clone(&self) -> (r: Task)
        ensures
            r@ == self@,
    {
        Task {
            id: self.id.clone(),
            command: self.command.clone(),
            args: copy_texts(&self.args),
            dependencies: copy_texts(&self.dependencies),
            workdir: copy_optional(&self.workdir),
            timeout_seconds: self.timeout_seconds,
            retries: self.retries,
            max_attempts: self.max_attempts,
            env: self.env.clone(),
        }
    }
}

impl Clone for Workflow {
    fn clone(&self) -> (r: Workflow)
        ensures
            r@ == self@,
    {
        let mut tasks: Vec<Task> = Vec::new();
        let mut i: usize = 0;
        while i < self.tasks.len()
            invariant
                i <= self.tasks.len(),
                task_models(tasks@) == self@.tasks.take(i as int),
            decreases self.tasks.len() - i,
        {
            let ghost before = tasks@;
            tasks.push(self.tasks[i].clone());
            assert(task_models(tasks@) =~= task_models(before).push(self.tasks@[i as int]@));
            assert(task_models(tasks@) =~= self@.tasks.take(i + 1));
            i = i + 1;
        }
        let r = Workflow { name: self.name.clone(), max_parallel: self.max_parallel, tasks };
        assert(r@ =~= self@);
        r
    }
}

/// A number, if there is one, lies between `low` and `high`.
pub open spec fn within(o: Option<i64>, low: int, high: int) -> bool {
    match o {
        Some(n) => low <= n <= high,
        None => true,
    }
}

impl TaskModel {
    /// The number of times that the task may be tried.
    pub open spec fn budget(self) -> int {
        match self.max_attempts {
            Some(n) => n as int,
            None => match self.retries {
                Some(n) => n + 1,
                None => 1,
            },
        }
    }

    /// The budget is a 64-bit number.
    pub open spec fn budget_defined(self) -> bool {
        self.max_attempts is Some || self.retries is None || self.retries->0 < i64::MAX
    }

    /// The directory to run in, relative to that of the workflow.
    pub open spec fn place(self) -> Seq<char> {
        match self.workdir {
            Some(dir) => dir,
            None => "."@,
        }
    }

    /// What a task has to meet by itself.
    pub open spec fn sound(self) -> bool {
        &&& !blank(self.id)
        &&& !blank(self.command)
        &&& within(self.timeout_seconds, 1, 604_800)
        &&& within(self.retries, 0, 1000)
        &&& within(self.max_attempts, 1, 1001)
        &&& !(self.retries is Some && self.max_attempts is Some)
        &&& self.dependencies.no_duplicates()
    }
}

impl Task {
    /// The number of times that the task may be tried: `max_attempts`, or one
    /// more than `retries`.
    pub fn attempts(&self) -> (n: i64)
        requires
            self@.budget_defined(),
        ensures
            n == self@.budget(),
    {
        match self.max_attempts {
            Some(n) => n,
            None => match self.retries {
                Some(n) => n + 1,
                None => 1,
            },
        }
    }

    /// Tells whether `count` attempts use up the budget.
    pub fn spent(&self, count: i64) -> (b: bool)
        ensures
            b == (count >= self@.budget()),
    {
        match self.max_attempts {
            Some(n) => count >= n,
            None => match self.retries {
                Some(n) => count > n,
                None => count >= 1,
            },
        }
    }

    /// The directory to run in, relative to that of the workflow.
    pub fn directory(&self) -> (d: &str)
        ensures
            d@ == self@.place(),
    {
        match &self.workdir {
            Some(dir) => dir.as_str(),
            None => ".",
        }
    }
}

impl WorkflowModel {
    /// Some task has this identifier.
    pub open spec fn knows(self, id: Seq<char>) -> bool {
        exists|i: int| 0 <= i < self.tasks.len() && #[trigger] self.tasks[i].id == id
    }

    /// No two tasks share an identifier.
    pub open spec fn distinct(self) -> bool {
        forall|i: int, j: int|
            0 <= i < j < self.tasks.len() ==> #[trigger] self.tasks[i].id
                != #[trigger] self.tasks[j].id
    }

    /// Every dependency names a task.
    pub open spec fn closed(self) -> bool {
        forall|i: int, k: int|
            0 <= i < self.tasks.len() && 0 <= k < self.tasks[i].dependencies.len() ==> self.knows(
                #[trigger] self.tasks[i].dependencies[k],
            )
    }

    /// Everything that is asked of a workflow, but for cycles.
    pub open spec fn well_formed(self) -> bool {
        &&& !blank(self.name)
        &&& self.tasks.len() > 0
        &&& within(self.max_parallel, 1, 1024)
        &&& forall|i: int| 0 <= i < self.tasks.len() ==> (#[trigger] self.tasks[i]).sound()
        &&& self.distinct()
        &&& self.closed()
    }

    /// The position of the task with this identifier.
    pub open spec fn position(self, id: Seq<char>) -> int {
        choose|i: int| 0 <= i < self.tasks.len() && #[trigger] self.tasks[i].id == id
    }

    /// The dependencies as a graph over the positions of the tasks.
    pub open spec fn graph(self) -> Seq<Seq<int>> {
        Seq::new(
            self.tasks.len(),
            |i: int|
                Seq::new(
                    self.tasks[i].dependencies.len(),
                    |k: int| self.position(self.tasks[i].dependencies[k]),
                ),
        )
    }

    /// A workflow that may run.
    pub open spec fn valid(self) -> bool {
        self.well_formed() && !has_cycle(self.graph())
    }
}

// ---------------------------------------------------------------------------
// What validation reports
// ---------------------------------------------------------------------------

/// A message where there is something to report, nothing else.
pub open spec fn when(b: bool, message: Seq<char>) -> Seq<Seq<char>> {
    if b {
        seq![message]
    } else {
        Seq::empty()
    }
}

/// A message about the task `id`.
pub open spec fn about(id: Seq<char>, rest: Seq<char>) -> Seq<char> {
    "tâche '"@ + id + "' : "@ + rest
}

/// A dependency was listed before.
pub open spec fn repeated_message(id: Seq<char>, dep: Seq<char>) -> Seq<char> {
    about(id, "dépendance '"@ + dep + "' dupliquée"@)
}

/// A dependency names no task.
pub open spec fn unknown_message(id: Seq<char>, dep: Seq<char>) -> Seq<char> {
    about(id, "dépendance inconnue '"@ + dep + "'"@)
}

/// A task lies on a cycle.
pub open spec fn cycle_message(id: Seq<char>) -> Seq<char> {
    "cycle impliquant la tâche '"@ + id + "'"@
}

impl TaskModel {
    /// One message for each of the first `k` dependencies that was listed before.
    pub open spec fn repeated(self, k: nat) -> Seq<Seq<char>>
        decreases k,
    {
        if k == 0 {
            Seq::empty()
        } else {
            let dep = self.dependencies[k - 1];
            self.repeated((k - 1) as nat) + when(
                self.dependencies.take(k - 1).contains(dep),
                repeated_message(self.id, dep),
            )
        }
    }
}

impl WorkflowModel {
    /// What is wrong with the workflow as a whole.
    pub open spec fn head_messages(self) -> Seq<Seq<char>> {
        when(blank(self.name), "nom du workflow vide"@) + when(
            self.tasks.len() == 0,
            "le workflow ne contient aucune tâche"@,
        ) + when(
            !within(self.max_parallel, 1, 1024),
            "max_parallel doit être entre 1 et 1024"@,
        )
    }

    /// The identifier of task `i` was used before.
    pub open spec fn reused(self, i: int) -> bool {
        exists|j: int| 0 <= j < i && #[trigger] self.tasks[j].id == self.tasks[i].id
    }

    /// What is wrong with task `i`.
    pub open spec fn task_messages(self, i: int) -> Seq<Seq<char>> {
        let t = self.tasks[i];
        when(blank(t.id), "identifiant de tâche vide"@) + when(
            self.reused(i),
            about(t.id, "identifiant dupliqué"@),
        ) + when(blank(t.command), about(t.id, "commande vide"@)) + when(
            !within(t.timeout_seconds, 1, 604_800),
            about(t.id, "timeout_seconds doit être entre 1 et 604800"@),
        ) + when(
            !within(t.retries, 0, 1000),
            about(t.id, "retries doit être entre 0 et 1000"@),
        ) + when(
            !within(t.max_attempts, 1, 1001),
            about(t.id, "max_attempts doit être entre 1 et 1001"@),
        ) + when(
            t.retries is Some && t.max_attempts is Some,
            about(t.id, "choisir retries ou max_attempts"@),
        ) + t.repeated(t.dependencies.len())
    }

    /// What is wrong with each of the first `n` tasks.
    pub open spec fn all_task_messages(self, n: nat) -> Seq<Seq<char>>
        decreases n,
    {
        if n == 0 {
            Seq::empty()
        } else {
            self.all_task_messages((n - 1) as nat) + self.task_messages(n - 1)
        }
    }

    /// The unknown ones among the first `k` dependencies of task `i`.
    pub open spec fn unknown(self, i: int, k: nat) -> Seq<Seq<char>>
        decreases k,
    {
        if k == 0 {
            Seq::empty()
        } else {
            let dep = self.tasks[i].dependencies[k - 1];
            self.unknown(i, (k - 1) as nat) + when(
                !self.knows(dep),
                unknown_message(self.tasks[i].id, dep),
            )
        }
    }

    /// The unknown dependencies of the first `n` tasks.
    pub open spec fn all_unknown(self, n: nat) -> Seq<Seq<char>>
        decreases n,
    {
        if n == 0 {
            Seq::empty()
        } else {
            self.all_unknown((n - 1) as nat) + self.unknown(
                n - 1,
                self.tasks[n - 1].dependencies.len(),
            )
        }
    }

    /// Everything that is wrong, but for cycles.
    pub open spec fn local_messages(self) -> Seq<Seq<char>> {
        self.head_messages() + self.all_task_messages(self.tasks.len()) + self.all_unknown(
            self.tasks.len(),
        )
    }

    /// One message for each task at which the search closed a cycle.
    pub open spec fn cycle_messages(self) -> Seq<Seq<char>> {
        let reports = search(self.graph(), self.tasks.len()).reports;
        Seq::new(reports.len(), |i: int| cycle_message(self.tasks[reports[i]].id))
    }

    /// The messages of validation, in order. Cycles are looked for only where
    /// nothing else is wrong.
    pub open spec fn messages(self) -> Seq<Seq<char>> {
        if self.local_messages().len() > 0 {
            self.local_messages()
        } else {
            self.cycle_messages()
        }
    }
}

proof fn lemma_repeated(t: TaskModel, k: nat)
    requires
        k <= t.dependencies.len(),
    ensures
        t.repeated(k).len() == 0 <==> t.dependencies.take(k as int).no_duplicates(),
    decreases k,
{
    if k > 0 {
        lemma_repeated(t, (k - 1) as nat);
        let shorter = t.dependencies.take(k - 1);
        let longer = t.dependencies.take(k as int);
        let dep = t.dependencies[k - 1];
        if shorter.contains(dep) {
            let i = choose|i: int| 0 <= i < shorter.len() && shorter[i] == dep;
            assert(longer[i] == longer[k - 1]);
        }
        if shorter.no_duplicates() && !shorter.contains(dep) {
            assert forall|i: int, j: int|
                0 <= i < longer.len() && 0 <= j < longer.len() && i != j implies longer[i]
                != longer[j] by {
                if i == k - 1 {
                    assert(shorter.contains(shorter[j]));
                } else if j == k - 1 {
                    assert(shorter.contains(shorter[i]));
                } else {
                    assert(shorter[i] != shorter[j]);
                }
            }
        }
        if longer.no_duplicates() {
            assert forall|i: int, j: int|
                0 <= i < shorter.len() && 0 <= j < shorter.len() && i != j implies shorter[i]
                != shorter[j] by {
                assert(longer[i] != longer[j]);
            }
        }
    }
}

proof fn lemma_task_messages(w: WorkflowModel, i: int)
    requires
        0 <= i < w.tasks.len(),
    ensures
        w.task_messages(i).len() == 0 <==> w.tasks[i].sound() && !w.reused(i),
{
    let t = w.tasks[i];
    lemma_repeated(t, t.dependencies.len());
    assert(t.dependencies.take(t.dependencies.len() as int) =~= t.dependencies);
}

proof fn lemma_all_task_messages(w: WorkflowModel, n: nat)
    requires
        n <= w.tasks.len(),
    ensures
        w.all_task_messages(n).len() == 0 <==> forall|i: int|
            0 <= i < n ==> (#[trigger] w.tasks[i]).sound() && !w.reused(i),
    decreases n,
{
    if n > 0 {
        lemma_all_task_messages(w, (n - 1) as nat);
        lemma_task_messages(w, n - 1);
    }
}

proof fn lemma_unknown(w: WorkflowModel, i: int, k: nat)
    requires
        0 <= i < w.tasks.len(),
        k <= w.tasks[i].dependencies.len(),
    ensures
        w.unknown(i, k).len() == 0 <==> forall|j: int|
            0 <= j < k ==> w.knows(#[trigger] w.tasks[i].dependencies[j]),
    decreases k,
{
    if k > 0 {
        lemma_unknown(w, i, (k - 1) as nat);
    }
}

proof fn lemma_all_unknown(w: WorkflowModel, n: nat)
    requires
        n <= w.tasks.len(),
    ensures
        w.all_unknown(n).len() == 0 <==> forall|i: int, k: int|
            0 <= i < n && 0 <= k < w.tasks[i].dependencies.len() ==> w.knows(
                #[trigger] w.tasks[i].dependencies[k],
            ),
    decreases n,
{
    if n > 0 {
        lemma_all_unknown(w, (n - 1) as nat);
        lemma_unknown(w, n - 1, w.tasks[n - 1].dependencies.len());
    }
}

/// Nothing but cycles is left to report exactly where the workflow is well formed.
pub proof fn lemma_local_messages(w: WorkflowModel)
    ensures
        w.local_messages().len() == 0 <==> w.well_formed(),
{
    lemma_all_task_messages(w, w.tasks.len());
    lemma_all_unknown(w, w.tasks.len());
    if w.local_messages().len() == 0 {
        assert(w.all_task_messages(w.tasks.len()).len() == 0);
        assert forall|i: int, j: int| 0 <= i < j < w.tasks.len() implies #[trigger] w.tasks[i].id
            != #[trigger] w.tasks[j].id by {
            assert(!w.reused(j));
        }
    }
    if w.well_formed() {
        assert forall|i: int| 0 <= i < w.tasks.len() implies (#[trigger] w.tasks[i]).sound()
            && !w.reused(i) by {}
    }
}

/// The position of an identifier is that of its one task.
pub proof fn lemma_position(w: WorkflowModel, i: int)
    requires
        w.distinct(),
        0 <= i < w.tasks.len(),
    ensures
        w.position(w.tasks[i].id) == i,
{
    let p = w.position(w.tasks[i].id);
    assert(0 <= p < w.tasks.len() && w.tasks[p].id == w.tasks[i].id);
    if p < i {
        assert(w.tasks[p].id != w.tasks[i].id);
    } else if i < p {
        assert(w.tasks[i].id != w.tasks[p].id);
    }
}

/// The graph of a workflow whose dependencies are known stays in range.
pub proof fn lemma_graph_in_range(w: WorkflowModel)
    requires
        w.closed(),
    ensures
        in_range(w.graph()),
{
    let g = w.graph();
    assert forall|v: int, k: int| 0 <= v < g.len() && 0 <= k < g[v].len() implies 0
        <= #[trigger] g[v][k] < g.len() by {
        let dep = w.tasks[v].dependencies[k];
        assert(w.knows(dep));
        let p = w.position(dep);
        assert(0 <= p < w.tasks.len() && w.tasks[p].id == dep);
    }
}

/// A workflow that is well formed but has cycles is told of tasks that lie on
/// them: each message names such a task.
pub proof fn law_cycle_messages_name_tasks_on_cycles(w: WorkflowModel, i: int) -> (v: int)
    requires
        w.well_formed(),
        0 <= i < w.messages().len(),
    ensures
        0 <= v < w.tasks.len(),
        on_cycle(w.graph(), v),
        w.messages()[i] == cycle_message(w.tasks[v].id),
{
    lemma_local_messages(w);
    lemma_graph_in_range(w);
    law_search_finds_cycles(w.graph());
    search(w.graph(), w.tasks.len()).reports[i]
}

proof fn lemma_texts_push(v: Seq<String>, s: String)
    ensures
        texts(v.push(s)) == texts(v).push(s@),
{
    assert(texts(v.push(s)) =~= texts(v).push(s@));
}

fn note(errors: &mut Vec<String>, message: String)
    ensures
        texts(final(errors)@) == texts(old(errors)@).push(message@),
{
    proof {
        lemma_texts_push(errors@, message);
    }
    errors.push(message);
}

fn about_task(id: &String, rest: &str) -> (r: String)
    ensures
        r@ == about(id@, rest@),
{
    "tâche '".to_owned().concat(id.as_str()).concat("' : ").concat(rest)
}

fn report(errors: &mut Vec<String>, found: bool, id: &String, rest: &str)
    ensures
        texts(final(errors)@) == texts(old(errors)@) + when(found, about(id@, rest@)),
{
    if found {
        note(errors, about_task(id, rest));
    }
    assert(texts(errors@) =~= texts(old(errors)@) + when(found, about(id@, rest@)));
}

fn outside(o: Option<i64>, low: i64, high: i64) -> (b: bool)
    ensures
        b == !within(o, low as int, high as int),
{
    match o {
        Some(n) => n < low || n > high,
        None => false,
    }
}

fn listed_before(v: &Vec<String>, k: usize) -> (b: bool)
    requires
        k < v@.len(),
    ensures
        b == texts(v@).take(k as int).contains(texts(v@)[k as int]),
{
    let ghost all = texts(v@);
    let mut i: usize = 0;
    while i < k
        invariant
            i <= k < v@.len(),
            all == texts(v@),
            forall|j: int| 0 <= j < i ==> all[j] != all[k as int],
        decreases k - i,
    {
        if v[i] == v[k] {
            assert(all.take(k as int)[i as int] == all[k as int]);
            return true;
        }
        assert(all[i as int] != all[k as int]);
        i = i + 1;
    }
    assert forall|j: int| 0 <= j < k implies all.take(k as int)[j] != all[k as int] by {
        assert(all.take(k as int)[j] == all[j]);
    }
    false
}

impl Workflow {
    /// The first of the first `n` tasks that has this identifier.
    pub(crate) fn find(&self, id: &String, n: usize) -> (r: Option<usize>)
        requires
            n <= self.tasks@.len(),
        ensures
            match r {
                Some(i) => i < n && self@.tasks[i as int].id == id@,
                None => forall|j: int| 0 <= j < n ==> #[trigger] self@.tasks[j].id != id@,
            },
    {
        let mut i: usize = 0;
        while i < n
            invariant
                i <= n <= self.tasks@.len(),
                forall|j: int| 0 <= j < i ==> #[trigger] self@.tasks[j].id != id@,
            decreases n - i,
        {
            assert(self@.tasks[i as int] == self.tasks@[i as int]@);
            if self.tasks[i].id == *id {
                return Some(i);
            }
            i = i + 1;
        }
        None
    }

    fn check_task(&self, i: usize) -> (errors: Vec<String>)
        requires
            i < self.tasks@.len(),
        ensures
            texts(errors@) == self@.task_messages(i as int),
    {
        let task = &self.tasks[i];
        let ghost t = self@.tasks[i as int];
        assert(t == task@);
        let mut errors: Vec<String> = Vec::new();
        assert(texts(errors@) =~= Seq::<Seq<char>>::empty());
        if is_blank(task.id.as_str()) {
            note(&mut errors, "identifiant de tâche vide".to_owned());
        }
        assert(texts(errors@) =~= when(blank(t.id), "identifiant de tâche vide"@));
        let reused = self.find(&task.id, i).is_some();
        assert(reused == self@.reused(i as int));
        report(&mut errors, reused, &task.id, "identifiant dupliqué");
        report(&mut errors, is_blank(task.command.as_str()), &task.id, "commande vide");
        report(
            &mut errors,
            outside(task.timeout_seconds, 1, 604_800),
            &task.id,
            "timeout_seconds doit être entre 1 et 604800",
        );
        report(
            &mut errors,
            outside(task.retries, 0, 1000),
            &task.id,
            "retries doit être entre 0 et 1000",
        );
        report(
            &mut errors,
            outside(task.max_attempts, 1, 1001),
            &task.id,
            "max_attempts doit être entre 1 et 1001",
        );
        report(
            &mut errors,
            task.retries.is_some() && task.max_attempts.is_some(),
            &task.id,
            "choisir retries ou max_attempts",
        );
        let ghost own = texts(errors@);
        let mut k: usize = 0;
        assert(texts(errors@) =~= own + t.repeated(0));
        while k < task.dependencies.len()
            invariant
                k <= task.dependencies@.len(),
                t == task@,
                texts(errors@) == own + t.repeated(k as nat),
            decreases task.dependencies@.len() - k,
        {
            if listed_before(&task.dependencies, k) {
                let rest = "dépendance '".to_owned().concat(task.dependencies[k].as_str()).concat(
                    "' dupliquée",
                );
                note(&mut errors, about_task(&task.id, rest.as_str()));
            }
            assert(texts(errors@) =~= own + t.repeated((k + 1) as nat));
            k = k + 1;
        }
        assert(own + t.repeated(t.dependencies.len()) == self@.task_messages(i as int));
        errors
    }

    fn check_unknown(&self, i: usize) -> (errors: Vec<String>)
        requires
            i < self.tasks@.len(),
        ensures
            texts(errors@) == self@.unknown(i as int, self@.tasks[i as int].dependencies.len()),
    {
        let task = &self.tasks[i];
        let ghost t = self@.tasks[i as int];
        assert(t == task@);
        let mut errors: Vec<String> = Vec::new();
        let mut k: usize = 0;
        assert(texts(errors@) =~= self@.unknown(i as int, 0));
        while k < task.dependencies.len()
            invariant
                i < self.tasks@.len(),
                k <= task.dependencies@.len(),
                t == task@,
                t == self@.tasks[i as int],
                texts(errors@) == self@.unknown(i as int, k as nat),
            decreases task.dependencies@.len() - k,
        {
            if self.find(&task.dependencies[k], self.tasks.len()).is_none() {
                assert(!self@.knows(t.dependencies[k as int]));
                let rest = "dépendance inconnue '".to_owned().concat(
                    task.dependencies[k].as_str(),
                ).concat("'");
                note(&mut errors, about_task(&task.id, rest.as_str()));
            } else {
                assert(self@.knows(t.dependencies[k as int]));
            }
            assert(texts(errors@) =~= self@.unknown(i as int, (k + 1) as nat));
            k = k + 1;
        }
        errors
    }

    fn check_locally(&self) -> (errors: Vec<String>)
        ensures
            texts(errors@) == self@.local_messages(),
    {
        let mut errors: Vec<String> = Vec::new();
        if is_blank(self.name.as_str()) {
            note(&mut errors, "nom du workflow vide".to_owned());
        }
        let ghost m1 = when(blank(self@.name), "nom du workflow vide"@);
        assert(texts(errors@) =~= m1);
        if self.tasks.len() == 0 {
            note(&mut errors, "le workflow ne contient aucune tâche".to_owned());
        }
        let ghost m2 = m1 + when(
            self@.tasks.len() == 0,
            "le workflow ne contient aucune tâche"@,
        );
        assert(texts(errors@) =~= m2);
        if outside(self.max_parallel, 1, 1024) {
            note(&mut errors, "max_parallel doit être entre 1 et 1024".to_owned());
        }
        let ghost m3 = self@.head_messages();
        assert(texts(errors@) =~= m3);
        let mut i: usize = 0;
        assert(texts(errors@) =~= m3 + self@.all_task_messages(0));
        while i < self.tasks.len()
            invariant
                i <= self.tasks@.len(),
                texts(errors@) == m3 + self@.all_task_messages(i as nat),
            decreases self.tasks@.len() - i,
        {
            let mut more = self.check_task(i);
            let ghost before = errors@;
            let ghost added = more@;
            errors.append(&mut more);
            assert(texts(errors@) =~= texts(before) + texts(added));
            assert(texts(errors@) =~= m3 + self@.all_task_messages((i + 1) as nat));
            i = i + 1;
        }
        let ghost m4 = m3 + self@.all_task_messages(self@.tasks.len());
        i = 0;
        assert(texts(errors@) =~= m4 + self@.all_unknown(0));
        while i < self.tasks.len()
            invariant
                i <= self.tasks@.len(),
                texts(errors@) == m4 + self@.all_unknown(i as nat),
            decreases self.tasks@.len() - i,
        {
            let mut more = self.check_unknown(i);
            let ghost before = errors@;
            let ghost added = more@;
            errors.append(&mut more);
            assert(texts(errors@) =~= texts(before) + texts(added));
            assert(texts(errors@) =~= m4 + self@.all_unknown((i + 1) as nat));
            i = i + 1;
        }
        errors
    }

    /// The dependencies of each task, by position.
    fn adjacency(&self) -> (g: Vec<Vec<usize>>)
        requires
            self@.distinct(),
            self@.closed(),
        ensures
            graph_of(g@) == self@.graph(),
    {
        let mut g: Vec<Vec<usize>> = Vec::new();
        let mut i: usize = 0;
        while i < self.tasks.len()
            invariant
                i <= self.tasks@.len(),
                self@.distinct(),
                self@.closed(),
                g@.len() == i,
                forall|j: int| 0 <= j < i ==> indices(#[trigger] g@[j]@) == self@.graph()[j],
            decreases self.tasks@.len() - i,
        {
            let task = &self.tasks[i];
            let ghost t = self@.tasks[i as int];
            assert(t == task@);
            let mut row: Vec<usize> = Vec::new();
            let mut k: usize = 0;
            while k < task.dependencies.len()
                invariant
                    i < self.tasks@.len(),
                    k <= task.dependencies@.len(),
                    self@.distinct(),
                    self@.closed(),
                    t == task@,
                    t == self@.tasks[i as int],
                    row@.len() == k,
                    forall|j: int|
                        0 <= j < k ==> (#[trigger] row@[j]) as int == self@.graph()[i as int][j],
                decreases task.dependencies@.len() - k,
            {
                let ghost dep = t.dependencies[k as int];
                assert(self@.knows(dep));
                match self.find(&task.dependencies[k], self.tasks.len()) {
                    Some(p) => {
                        proof {
                            lemma_position(self@, p as int);
                        }
                        row.push(p);
                    },
                    None => {
                        assert(false);
                    },
                }
                k = k + 1;
            }
            assert(indices(row@) =~= self@.graph()[i as int]);
            g.push(row);
            i = i + 1;
        }
        assert(graph_of(g@) =~= self@.graph());
        g
    }

    fn check_cycles(&self) -> (errors: Vec<String>)
        requires
            self@.well_formed(),
        ensures
            texts(errors@) == self@.cycle_messages(),
            errors@.len() == 0 <==> !has_cycle(self@.graph()),
    {
        proof {
            lemma_graph_in_range(self@);
        }
        let g = self.adjacency();
        let reports = cycle_reports(&g);
        let ghost found = search(self@.graph(), self@.tasks.len()).reports;
        assert(graph_of(g@).len() == g@.len());
        let mut errors: Vec<String> = Vec::new();
        let mut i: usize = 0;
        assert(texts(errors@) =~= self@.cycle_messages().take(0));
        while i < reports.len()
            invariant
                i <= reports@.len(),
                indices(reports@) == found,
                found == search(self@.graph(), self@.tasks.len()).reports,
                g@.len() == self.tasks@.len(),
                forall|j: int| 0 <= j < reports@.len() ==> (#[trigger] reports@[j]) < g@.len(),
                texts(errors@) == self@.cycle_messages().take(i as int),
            decreases reports@.len() - i,
        {
            let v: usize = reports[i];
            assert(found[i as int] == v);
            let message = "cycle impliquant la tâche '".to_owned().concat(
                self.tasks[v].id.as_str(),
            ).concat("'");
            note(&mut errors, message);
            assert(texts(errors@) =~= self@.cycle_messages().take(i + 1));
            i = i + 1;
        }
        assert(texts(errors@) =~= self@.cycle_messages());
        assert(errors@.len() == texts(errors@).len());
        errors
    }

    /// Checks the workflow: names and commands are not blank, numbers are in
    /// range, identifiers are unique, dependencies exist and are listed once,
    /// and no task depends on itself through others. The error lists all that
    /// was found, one message a line.
    pub fn validate(&self) -> (r: Result<(), String>)
        ensures
            r is Ok <==> self@.valid(),
            r is Ok <==> self@.messages().len() == 0,
            r matches Err(message) ==> message@ == joined(self@.messages(), "\n"@),
    {
        let mut errors = self.check_locally();
        proof {
            lemma_local_messages(self@);
            assert(errors@.len() == texts(errors@).len());
        }
        if errors.len() == 0 {
            errors = self.check_cycles();
            proof {
                assert(errors@.len() == texts(errors@).len());
            }
        }
        if errors.len() > 0 {
            return Err(join(&errors, "\n"));
        }
        Ok(())
    }

    /// Tells whether no two tasks share an identifier.
    pub fn has_distinct_tasks(&self) -> (b: bool)
        ensures
            b == self@.distinct(),
    {
        let mut i: usize = 0;
        while i < self.tasks.len()
            invariant
                i <= self.tasks@.len(),
                forall|j: int, k: int|
                    0 <= j < k < i ==> #[trigger] self@.tasks[j].id
                        != #[trigger] self@.tasks[k].id,
            decreases self.tasks@.len() - i,
        {
            if let Some(j) = self.find(&self.tasks[i].id, i) {
                assert(self@.tasks[j as int].id == self@.tasks[i as int].id);
                return false;
            }
            i = i + 1;
        }
        true
    }
}

} // verus!
