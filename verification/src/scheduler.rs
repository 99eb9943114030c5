//! The scheduler: which tasks to block, which to launch, when a run is over,
//! and when a task is tried again.

use crate::db::{Db, RunDetail, TaskView};
use crate::model::{
    attempts_interrupted, lemma_patched_state, lemma_recover_covers, lemma_recovered_room,
    status_patch, tasks_of, DbModel,
};
use crate::records::{task_states, DetailModel, TaskState};
use crate::simulation::first;
use crate::text::{joined, optional_slice, same, texts};
use crate::workflow::{task_models, Task, TaskModel, Workflow, WorkflowModel};
use vstd::prelude::*;
use vstd::string::*;

verus! {

/// The scheduling of one run.
pub struct Scheduler {
    run: String,
    workflow: Workflow,
    source_dir: String,
    limit: usize,
    active: Vec<String>,
}

/// The mathematical reading of a [`Scheduler`].
#[verifier::ext_equal]
pub struct SchedulerModel {
    /// The run.
    pub run: Seq<char>,
    /// What it runs.
    pub workflow: WorkflowModel,
    /// Where it runs.
    pub source_dir: Seq<char>,
    /// How many tasks may be active at once.
    pub limit: nat,
    /// The tasks that were launched and have not been settled.
    pub active: Seq<Seq<char>>,
}

impl View for Scheduler {
    type V = SchedulerModel;

    closed spec fn view(&self) -> SchedulerModel {
        SchedulerModel {
            run: self.run@,
            workflow: self.workflow@,
            source_dir: self.source_dir@,
            limit: self.limit as nat,
            active: texts(self.active@),
        }
    }
}

/// What the scheduler asks for.
pub enum Action {
    /// Some tasks were blocked: look again.
    Again,
    /// Launch these tasks, and wait for an active one.
    Launch(Vec<Task>),
    /// Wait for an active task.
    Wait,
    /// Nothing is active: conclude the run.
    Conclude,
}

/// The mathematical reading of an [`Action`].
pub enum ActionModel {
    Again,
    Launch(Seq<TaskModel>),
    Wait,
    Conclude,
}

impl View for Action {
    type V = ActionModel;

    open spec fn view(&self) -> ActionModel {
        match self {
            Action::Again => ActionModel::Again,
            Action::Launch(tasks) => ActionModel::Launch(task_models(tasks@)),
            Action::Wait => ActionModel::Wait,
            Action::Conclude => ActionModel::Conclude,
        }
    }
}

/// How a task ended.
pub enum Outcome {
    Success,
    Failed(String),
    Interrupted,
}

/// The mathematical reading of an [`Outcome`].
pub enum OutcomeModel {
    Success,
    Failed(Seq<char>),
    Interrupted,
}

impl OutcomeModel {
    /// The status of a task that ended so.
    pub open spec fn status(self) -> Seq<char> {
        match self {
            OutcomeModel::Success => "success"@,
            OutcomeModel::Failed(_) => "failed"@,
            OutcomeModel::Interrupted => "pending"@,
        }
    }

    /// What is noted about a task that ended so.
    pub open spec fn error(self) -> Option<Seq<char>> {
        match self {
            OutcomeModel::Success => None,
            OutcomeModel::Failed(e) => Some(e),
            OutcomeModel::Interrupted => Some("interrompue ; utiliser kordrel resume"@),
        }
    }
}

impl View for Outcome {
    type V = OutcomeModel;

    open spec fn view(&self) -> OutcomeModel {
        match self {
            Outcome::Success => OutcomeModel::Success,
            Outcome::Failed(e) => OutcomeModel::Failed(e@),
            Outcome::Interrupted => OutcomeModel::Interrupted,
        }
    }
}

// ---------------------------------------------------------------------------
// Rules
// ---------------------------------------------------------------------------

/// The task waits for a dependency that failed or is blocked.
pub open spec fn doomed(m: DbModel, run: Seq<char>, t: TaskModel) -> bool {
    &&& m.status(run, t.id) == "pending"@
    &&& exists|k: int|
        0 <= k < t.dependencies.len() && lost(m, run, #[trigger] t.dependencies[k])
}

/// The task failed or is blocked.
pub open spec fn lost(m: DbModel, run: Seq<char>, id: Seq<char>) -> bool {
    m.status(run, id) == "failed"@ || m.status(run, id) == "blocked"@
}

/// The task waits, and every dependency succeeded.
pub open spec fn ready(m: DbModel, run: Seq<char>, t: TaskModel) -> bool {
    &&& m.status(run, t.id) == "pending"@
    &&& forall|k: int|
        0 <= k < t.dependencies.len() ==> m.status(run, #[trigger] t.dependencies[k])
            == "success"@
}

/// The tasks that are to be blocked.
pub open spec fn doomed_tasks(m: DbModel, run: Seq<char>, w: WorkflowModel) -> Seq<TaskModel> {
    w.tasks.filter(|t: TaskModel| doomed(m, run, t))
}

/// The tasks that may be launched.
pub open spec fn ready_tasks(m: DbModel, run: Seq<char>, w: WorkflowModel) -> Seq<TaskModel> {
    w.tasks.filter(|t: TaskModel| ready(m, run, t))
}

/// The state once each task was given the same status, one behind the other.
pub open spec fn set_each(
    m: DbModel,
    run: Seq<char>,
    tasks: Seq<TaskModel>,
    status: Seq<char>,
    error: Option<Seq<char>>,
    now: i64,
) -> DbModel
    decreases tasks.len(),
{
    if tasks.len() == 0 {
        m
    } else {
        set_each(m, run, tasks.drop_last(), status, error, now).set_task(
            run,
            tasks.last().id,
            status,
            error,
            now,
        )
    }
}

/// The identifiers of tasks.
pub open spec fn ids(tasks: Seq<TaskModel>) -> Seq<Seq<char>> {
    tasks.map_values(|t: TaskModel| t.id)
}

/// `s` without the first occurrence of `id`.
pub open spec fn without(s: Seq<Seq<char>>, id: Seq<char>) -> Seq<Seq<char>>
    decreases s.len(),
{
    if s.len() == 0 {
        s
    } else if s[0] == id {
        s.drop_first()
    } else {
        seq![s[0]] + without(s.drop_first(), id)
    }
}

impl SchedulerModel {
    /// How many more tasks may be active.
    pub open spec fn spare(self) -> nat {
        if self.active.len() < self.limit {
            (self.limit - self.active.len()) as nat
        } else {
            0
        }
    }

    /// The tasks that are launched next.
    pub open spec fn chosen(self, m: DbModel) -> Seq<TaskModel> {
        first(ready_tasks(m, self.run, self.workflow), self.spare())
    }

    /// What is to be done: block what is doomed; else launch what is ready, as
    /// far as the limit lets it; else wait, or conclude where nothing is active.
    /// Once cancelled, neither block nor launch.
    pub open spec fn action(self, m: DbModel, cancelled: bool) -> ActionModel {
        if !cancelled && doomed_tasks(m, self.run, self.workflow).len() > 0 {
            ActionModel::Again
        } else if !cancelled && self.chosen(m).len() > 0 {
            ActionModel::Launch(self.chosen(m))
        } else if self.active.len() > 0 {
            ActionModel::Wait
        } else {
            ActionModel::Conclude
        }
    }

    /// The tasks that the decision moves: those that are blocked or launched.
    pub open spec fn moved(self, m: DbModel, cancelled: bool) -> Seq<TaskModel> {
        match self.action(m, cancelled) {
            ActionModel::Again => doomed_tasks(m, self.run, self.workflow),
            ActionModel::Launch(tasks) => tasks,
            _ => Seq::empty(),
        }
    }

    /// The status that the decision gives to the tasks that it moves.
    pub open spec fn moved_status(self, m: DbModel, cancelled: bool) -> Seq<char> {
        if self.action(m, cancelled) is Again {
            "blocked"@
        } else {
            "queued"@
        }
    }

    /// What the decision notes about the tasks that it moves.
    pub open spec fn moved_error(self, m: DbModel, cancelled: bool) -> Option<Seq<char>> {
        if self.action(m, cancelled) is Again {
            Some("dépendance échouée"@)
        } else {
            None
        }
    }

    /// The recorded state after [`Scheduler::next`].
    pub open spec fn next_db(self, m: DbModel, cancelled: bool, now: i64) -> DbModel {
        set_each(
            m,
            self.run,
            self.moved(m, cancelled),
            self.moved_status(m, cancelled),
            self.moved_error(m, cancelled),
            now,
        )
    }

    /// The scheduler after [`Scheduler::next`].
    pub open spec fn next(self, m: DbModel, cancelled: bool) -> SchedulerModel {
        match self.action(m, cancelled) {
            ActionModel::Launch(tasks) => SchedulerModel {
                active: self.active + ids(tasks),
                ..self
            },
            _ => self,
        }
    }

    /// The recorded state once a task has ended.
    pub open spec fn settle_db(
        self,
        m: DbModel,
        task: Seq<char>,
        outcome: OutcomeModel,
        now: i64,
    ) -> DbModel {
        m.set_task(self.run, task, outcome.status(), outcome.error(), now)
    }
}

/// How a run ends, or `None` where tasks wait that nothing can start.
pub open spec fn verdict(tasks: Seq<TaskState>, cancelled: bool) -> Option<Seq<char>> {
    if cancelled {
        Some("interrupted"@)
    } else if forall|i: int| 0 <= i < tasks.len() ==> #[trigger] tasks[i].status == "success"@ {
        Some("success"@)
    } else if exists|i: int| 0 <= i < tasks.len() && #[trigger] tasks[i].status == "pending"@ {
        None
    } else {
        Some("failed"@)
    }
}

/// Why a run was not taken up.
pub enum Refusal {
    /// No such run is recorded.
    Unknown,
    /// Its workflow is not valid, for these reasons.
    Invalid(String),
    /// It was started before, and this is no resumption.
    Started,
    /// It is over.
    Finished,
    /// A task of its workflow is not recorded.
    Unrecorded,
}

/// The mathematical reading of a [`Refusal`].
pub enum RefusalModel {
    Unknown,
    Invalid(Seq<char>),
    Started,
    Finished,
    Unrecorded,
}

impl View for Refusal {
    type V = RefusalModel;

    open spec fn view(&self) -> RefusalModel {
        match self {
            Refusal::Unknown => RefusalModel::Unknown,
            Refusal::Invalid(text) => RefusalModel::Invalid(text@),
            Refusal::Started => RefusalModel::Started,
            Refusal::Finished => RefusalModel::Finished,
            Refusal::Unrecorded => RefusalModel::Unrecorded,
        }
    }
}

impl RefusalModel {
    /// The message for the user.
    pub open spec fn message(self, run: Seq<char>) -> Seq<char> {
        match self {
            RefusalModel::Unknown => "exécution inconnue : "@ + run,
            RefusalModel::Invalid(text) => text,
            RefusalModel::Started => "exécution déjà démarrée : "@ + run,
            RefusalModel::Finished => "exécution terminée : "@ + run,
            RefusalModel::Unrecorded => "Query returned no rows"@,
        }
    }
}

/// Why a run cannot be taken up, if anything stands against it. Only a run that
/// was never started may start; one that is over may not be resumed.
pub open spec fn refusal(m: DbModel, run: Seq<char>, resume: bool) -> Option<RefusalModel> {
    match m.detail(run) {
        None => Some(RefusalModel::Unknown),
        Some(d) => if !d.workflow.valid() {
            Some(RefusalModel::Invalid(joined(d.workflow.messages(), "\n"@)))
        } else if !resume && d.run.status != "pending"@ {
            Some(RefusalModel::Started)
        } else if resume && (d.run.status == "success"@ || d.run.status == "failed"@) {
            Some(RefusalModel::Finished)
        } else if resume && !m.covers(run, d.workflow) {
            Some(RefusalModel::Unrecorded)
        } else {
            None
        },
    }
}

/// The recorded state once a run was taken up.
pub open spec fn taken_up(m: DbModel, run: Seq<char>, resume: bool, now: i64) -> DbModel {
    let ready = if resume {
        m.recover(run, m.detail(run)->0.workflow, now)
    } else {
        m
    };
    ready.set_run(run, "running"@, now)
}

/// The scheduler of a run that was taken up.
pub open spec fn scheduler_of(d: DetailModel, run: Seq<char>) -> SchedulerModel {
    SchedulerModel {
        run,
        workflow: d.workflow,
        source_dir: d.source_dir,
        limit: (d.max_parallel as usize) as nat,
        active: Seq::empty(),
    }
}

// ---------------------------------------------------------------------------
// Code
// ---------------------------------------------------------------------------

fn has_status(db: &Db, run: &String, id: &String, status: &str) -> (b: bool)
    requires
        db@.task(run@, id@) is Some,
    ensures
        b == (db@.status(run@, id@) == status@),
{
    match db.task(run.as_str(), id.as_str()) {
        Some(t) => same(t.status.as_str(), status),
        None => false,
    }
}

fn is_doomed(db: &Db, run: &String, task: &Task) -> (b: bool)
    requires
        db@.task(run@, task@.id) is Some,
        forall|k: int|
            0 <= k < task@.dependencies.len() ==> db@.task(
                run@,
                #[trigger] task@.dependencies[k],
            ) is Some,
    ensures
        b == doomed(db@, run@, task@),
{
    if !has_status(db, run, &task.id, "pending") {
        return false;
    }
    let ghost deps = task@.dependencies;
    let mut k: usize = 0;
    while k < task.dependencies.len()
        invariant
            k <= task.dependencies@.len(),
            deps == task@.dependencies,
            db@.status(run@, task@.id) == "pending"@,
            forall|j: int| 0 <= j < deps.len() ==> db@.task(run@, #[trigger] deps[j]) is Some,
            forall|j: int| 0 <= j < k ==> !lost(db@, run@, #[trigger] deps[j]),
        decreases task.dependencies@.len() - k,
    {
        assert(deps[k as int] == task.dependencies@[k as int]@);
        if has_status(db, run, &task.dependencies[k], "failed") || has_status(
            db,
            run,
            &task.dependencies[k],
            "blocked",
        ) {
            assert(lost(db@, run@, deps[k as int]));
            return true;
        }
        k = k + 1;
    }
    false
}

fn is_ready(db: &Db, run: &String, task: &Task) -> (b: bool)
    requires
        db@.task(run@, task@.id) is Some,
        forall|k: int|
            0 <= k < task@.dependencies.len() ==> db@.task(
                run@,
                #[trigger] task@.dependencies[k],
            ) is Some,
    ensures
        b == ready(db@, run@, task@),
{
    if !has_status(db, run, &task.id, "pending") {
        return false;
    }
    let ghost deps = task@.dependencies;
    let mut k: usize = 0;
    while k < task.dependencies.len()
        invariant
            k <= task.dependencies@.len(),
            deps == task@.dependencies,
            db@.status(run@, task@.id) == "pending"@,
            forall|j: int| 0 <= j < deps.len() ==> db@.task(run@, #[trigger] deps[j]) is Some,
            forall|j: int|
                0 <= j < k ==> db@.status(run@, #[trigger] deps[j]) == "success"@,
        decreases task.dependencies@.len() - k,
    {
        assert(deps[k as int] == task.dependencies@[k as int]@);
        if !has_status(db, run, &task.dependencies[k], "success") {
            return false;
        }
        k = k + 1;
    }
    true
}

/// Where every task of a workflow is recorded, so is what a task depends on.
pub proof fn lemma_dependencies_recorded(m: DbModel, run: Seq<char>, w: WorkflowModel, i: int)
    requires
        m.covers(run, w),
        w.closed(),
        0 <= i < w.tasks.len(),
    ensures
        m.task(run, w.tasks[i].id) is Some,
        forall|k: int|
            0 <= k < w.tasks[i].dependencies.len() ==> m.task(
                run,
                #[trigger] w.tasks[i].dependencies[k],
            ) is Some,
{
    assert forall|k: int| 0 <= k < w.tasks[i].dependencies.len() implies m.task(
        run,
        #[trigger] w.tasks[i].dependencies[k],
    ) is Some by {
        let dep = w.tasks[i].dependencies[k];
        assert(w.knows(dep));
        let j = choose|j: int| 0 <= j < w.tasks.len() && #[trigger] w.tasks[j].id == dep;
        assert(m.task(run, w.tasks[j].id) is Some);
    }
}

/// Setting the status of a task leaves the set of recorded tasks as it is.
pub proof fn lemma_set_task_covers(
    m: DbModel,
    run: Seq<char>,
    task: Seq<char>,
    status: Seq<char>,
    error: Option<Seq<char>>,
    now: i64,
    w: WorkflowModel,
)
    ensures
        m.set_task(run, task, status, error, now).covers(run, w) == m.covers(run, w),
{
    let after = m.set_task(run, task, status, error, now);
    assert forall|id: Seq<char>| (#[trigger] after.task(run, id)) is Some <==> m.task(run, id)
        is Some by {
        lemma_patched_state(m.tasks, run, task, status_patch(status, error, now), run, id);
    }
}

fn pick_doomed(db: &Db, run: &String, workflow: &Workflow) -> (r: Vec<Task>)
    requires
        db@.covers(run@, workflow@),
        workflow@.closed(),
    ensures
        task_models(r@) == doomed_tasks(db@, run@, workflow@),
{
    let mut r: Vec<Task> = Vec::new();
    let ghost all = workflow@.tasks;
    let ghost p = |t: TaskModel| doomed(db@, run@, t);
    proof {
        reveal(Seq::filter);
    }
    assert(task_models(r@) =~= all.take(0).filter(p));
    let mut i: usize = 0;
    while i < workflow.tasks.len()
        invariant
            i <= workflow.tasks@.len(),
            all == workflow@.tasks,
            p == (|t: TaskModel| doomed(db@, run@, t)),
            db@.covers(run@, workflow@),
            workflow@.closed(),
            task_models(r@) == all.take(i as int).filter(p),
        decreases workflow.tasks@.len() - i,
    {
        let ghost before = r@;
        let ghost t = all[i as int];
        assert(t == workflow.tasks@[i as int]@);
        assert(all.take(i + 1) =~= all.take(i as int).push(t));
        proof {
            all.take(i as int).lemma_filter_push(t, p);
            lemma_dependencies_recorded(db@, run@, workflow@, i as int);
        }
        if is_doomed(db, run, &workflow.tasks[i]) {
            r.push(workflow.tasks[i].clone());
            assert(task_models(r@) =~= task_models(before).push(t));
        }
        i = i + 1;
    }
    assert(all.take(i as int) =~= all);
    r
}

fn pick_ready(db: &Db, run: &String, workflow: &Workflow, max: usize) -> (r: Vec<Task>)
    requires
        db@.covers(run@, workflow@),
        workflow@.closed(),
    ensures
        task_models(r@) == first(ready_tasks(db@, run@, workflow@), max as nat),
{
    let mut r: Vec<Task> = Vec::new();
    let ghost all = workflow@.tasks;
    let ghost p = |t: TaskModel| ready(db@, run@, t);
    proof {
        reveal(Seq::filter);
    }
    assert(task_models(r@) =~= all.take(0).filter(p));
    let mut i: usize = 0;
    while i < workflow.tasks.len()
        invariant
            i <= workflow.tasks@.len(),
            all == workflow@.tasks,
            p == (|t: TaskModel| ready(db@, run@, t)),
            db@.covers(run@, workflow@),
            workflow@.closed(),
            task_models(r@) == all.take(i as int).filter(p),
        decreases workflow.tasks@.len() - i,
    {
        let ghost before = r@;
        let ghost t = all[i as int];
        assert(t == workflow.tasks@[i as int]@);
        assert(all.take(i + 1) =~= all.take(i as int).push(t));
        proof {
            all.take(i as int).lemma_filter_push(t, p);
            lemma_dependencies_recorded(db@, run@, workflow@, i as int);
        }
        if is_ready(db, run, &workflow.tasks[i]) {
            r.push(workflow.tasks[i].clone());
            assert(task_models(r@) =~= task_models(before).push(t));
        }
        i = i + 1;
    }
    assert(all.take(i as int) =~= all);
    let ghost found = task_models(r@);
    if r.len() > max {
        r.truncate(max);
    }
    assert(task_models(r@) =~= first(found, max as nat));
    r
}

fn set_all(
    db: &mut Db,
    run: &String,
    tasks: &Vec<Task>,
    status: &str,
    error: Option<&str>,
    now: i64,
    Ghost(w): Ghost<WorkflowModel>,
)
    requires
        old(db)@.well_formed(),
        old(db)@.room(tasks@.len() as int),
    ensures
        final(db)@ == set_each(
            old(db)@,
            run@,
            task_models(tasks@),
            status@,
            optional_slice(error),
            now,
        ),
        final(db)@.well_formed(),
        final(db)@.covers(run@, w) == old(db)@.covers(run@, w),
{
    let ghost all = task_models(tasks@);
    let mut i: usize = 0;
    while i < tasks.len()
        invariant
            i <= tasks@.len(),
            all == task_models(tasks@),
            db@ == set_each(
                old(db)@,
                run@,
                all.take(i as int),
                status@,
                optional_slice(error),
                now,
            ),
            db@.well_formed(),
            db@.covers(run@, w) == old(db)@.covers(run@, w),
            db@.last_event == old(db)@.last_event + i,
            old(db)@.room(tasks@.len() as int),
        decreases tasks@.len() - i,
    {
        assert(all.take(i + 1).drop_last() =~= all.take(i as int));
        assert(all.take(i + 1).last() == tasks@[i as int]@);
        proof {
            lemma_set_task_covers(
                db@,
                run@,
                tasks@[i as int].id@,
                status@,
                optional_slice(error),
                now,
                w,
            );
        }
        db.set_task(run.as_str(), tasks[i].id.as_str(), status, error, now);
        i = i + 1;
    }
    assert(all.take(i as int) =~= all);
}

/// The first place of `id` in a list.
fn position(list: &Vec<String>, id: &String) -> (r: Option<usize>)
    ensures
        match r {
            Some(n) => n < list@.len() && texts(list@)[n as int] == id@ && forall|j: int|
                0 <= j < n ==> #[trigger] texts(list@)[j] != id@,
            None => forall|j: int| 0 <= j < list@.len() ==> #[trigger] texts(list@)[j] != id@,
        },
{
    let mut i: usize = 0;
    while i < list.len()
        invariant
            i <= list@.len(),
            forall|j: int| 0 <= j < i ==> #[trigger] texts(list@)[j] != id@,
        decreases list@.len() - i,
    {
        assert(texts(list@)[i as int] == list@[i as int]@);
        if list[i] == *id {
            return Some(i);
        }
        i = i + 1;
    }
    None
}

impl Refusal {
    /// The message for the user.
    pub fn message(&self, run: &str) -> (r: String)
        ensures
            r@ == self@.message(run@),
    {
        match self {
            Refusal::Unknown => "exécution inconnue : ".to_owned().concat(run),
            Refusal::Invalid(text) => text.clone(),
            Refusal::Started => "exécution déjà démarrée : ".to_owned().concat(run),
            Refusal::Finished => "exécution terminée : ".to_owned().concat(run),
            Refusal::Unrecorded => "Query returned no rows".to_owned(),
        }
    }
}

impl Scheduler {
    /// Takes up a run: starts it, or resumes it after an interruption.
    pub fn begin(db: &mut Db, run: &str, resume: bool, now: i64) -> (r: Result<Scheduler, Refusal>)
        requires
            old(db)@.well_formed(),
            old(db)@.room(1),
            old(db)@.detail(run@) matches Some(d) ==> (resume ==> old(db)@.room(
                (d.workflow.tasks.len() + 1) as int,
            )),
        ensures
            match r {
                Ok(s) => {
                    &&& refusal(old(db)@, run@, resume) is None
                    &&& s@ == scheduler_of(old(db)@.detail(run@)->0, run@)
                    &&& final(db)@ == taken_up(old(db)@, run@, resume, now)
                    &&& s@.workflow.valid()
                    &&& resume || old(db)@.covers(run@, s@.workflow) ==> final(db)@.covers(
                        run@,
                        s@.workflow,
                    )
                },
                Err(e) => refusal(old(db)@, run@, resume) == Some(e@) && final(db)@ == old(db)@,
            },
            final(db)@.well_formed(),
    {
        let detail: RunDetail = match db.detail(run) {
            Some(d) => d,
            None => {
                return Err(Refusal::Unknown);
            },
        };
        if let Err(text) = detail.workflow.validate() {
            return Err(Refusal::Invalid(text));
        }
        let status: &str = detail.run.status.as_str();
        if !resume && !same(status, "pending") {
            return Err(Refusal::Started);
        }
        let ghost w = detail.workflow@;
        if resume {
            if same(status, "success") || same(status, "failed") {
                return Err(Refusal::Finished);
            }
            if db.recover(run, &detail.workflow, now).is_err() {
                return Err(Refusal::Unrecorded);
            }
            proof {
                let start = DbModel {
                    attempts: attempts_interrupted(old(db)@.attempts, run@, now),
                    ..old(db)@
                };
                lemma_recovered_room(start, run@, w.tasks, w.tasks.len(), now);
                assert forall|i: int| 0 <= i < w.tasks.len() implies db@.task(
                    run@,
                    (#[trigger] w.tasks[i]).id,
                ) is Some by {
                    lemma_recover_covers(start, run@, w.tasks, w.tasks.len(), now, w.tasks[i].id);
                    assert(old(db)@.task(run@, w.tasks[i].id) is Some);
                }
            }
        }
        let ghost before = db@;
        assert(resume ==> before.covers(run@, w));
        db.set_run(run, "running", now);
        assert forall|i: int| 0 <= i < w.tasks.len() && before.covers(run@, w) implies db@.task(
            run@,
            (#[trigger] w.tasks[i]).id,
        ) is Some by {
            assert(before.task(run@, w.tasks[i].id) is Some);
        }
        let s = Scheduler {
            run: run.to_owned(),
            workflow: detail.workflow,
            source_dir: detail.source_dir,
            limit: detail.max_parallel as usize,
            active: Vec::new(),
        };
        assert(s@ =~= scheduler_of(old(db)@.detail(run@)->0, run@));
        Ok(s)
    }
}

impl Scheduler {
    /// The run.
    pub fn run(&self) -> (r: &String)
        ensures
            r@ == self@.run,
    {
        &self.run
    }

    /// What it runs.
    pub fn workflow(&self) -> (r: &Workflow)
        ensures
            r@ == self@.workflow,
    {
        &self.workflow
    }

    /// Where it runs.
    pub fn source_dir(&self) -> (r: &String)
        ensures
            r@ == self@.source_dir,
    {
        &self.source_dir
    }

    /// Decides what to do next, and records it.
    pub fn next(&mut self, db: &mut Db, cancelled: bool, now: i64) -> (r: Action)
        requires
            old(db)@.well_formed(),
            old(db)@.room(old(self)@.workflow.tasks.len() as int),
            !cancelled ==> old(db)@.covers(old(self)@.run, old(self)@.workflow),
            old(self)@.workflow.closed(),
        ensures
            r@ == old(self)@.action(old(db)@, cancelled),
            final(db)@ == old(self)@.next_db(old(db)@, cancelled, now),
            final(self)@ == old(self)@.next(old(db)@, cancelled),
            final(db)@.well_formed(),
            !cancelled ==> final(db)@.covers(final(self)@.run, final(self)@.workflow),
    {
        if !cancelled {
            let lost_tasks = pick_doomed(db, &self.run, &self.workflow);
            proof {
                self@.workflow.tasks.lemma_filter_len(|t: TaskModel| doomed(db@, self@.run, t));
            }
            if lost_tasks.len() > 0 {
                set_all(
                    db,
                    &self.run,
                    &lost_tasks,
                    "blocked",
                    Some("dépendance échouée"),
                    now,
                    Ghost(self@.workflow),
                );
                return Action::Again;
            }
            let spare: usize = if self.active.len() < self.limit {
                self.limit - self.active.len()
            } else {
                0
            };
            let chosen = pick_ready(db, &self.run, &self.workflow, spare);
            proof {
                self@.workflow.tasks.lemma_filter_len(|t: TaskModel| ready(db@, self@.run, t));
            }
            if chosen.len() > 0 {
                set_all(db, &self.run, &chosen, "queued", None, now, Ghost(self@.workflow));
                self.activate(&chosen);
                return Action::Launch(chosen);
            }
        }
        if self.active.len() > 0 {
            Action::Wait
        } else {
            Action::Conclude
        }
    }

    fn activate(&mut self, tasks: &Vec<Task>)
        ensures
            final(self)@ == (SchedulerModel {
                active: old(self)@.active + ids(task_models(tasks@)),
                ..old(self)@
            }),
    {
        let ghost before = self@;
        let ghost all = ids(task_models(tasks@));
        let mut i: usize = 0;
        assert(before.active + all.take(0) =~= before.active);
        while i < tasks.len()
            invariant
                i <= tasks@.len(),
                all == ids(task_models(tasks@)),
                self@ == (SchedulerModel { active: before.active + all.take(i as int), ..before }),
            decreases tasks@.len() - i,
        {
            let ghost current = self.active@;
            self.active.push(tasks[i].id.clone());
            assert(texts(self.active@) =~= texts(current).push(tasks@[i as int].id@));
            assert(before.active + all.take(i + 1) =~= (before.active + all.take(i as int)).push(
                all[i as int],
            ));
            assert(self@ =~= (SchedulerModel {
                active: before.active + all.take(i + 1),
                ..before
            }));
            i = i + 1;
        }
        assert(all.take(i as int) =~= all);
    }

    /// Records how a task ended.
    pub fn settle(&mut self, db: &mut Db, task: &str, outcome: &Outcome, now: i64)
        requires
            old(db)@.well_formed(),
            old(db)@.room(1),
        ensures
            final(db)@ == old(self)@.settle_db(old(db)@, task@, outcome@, now),
            final(self)@ == (SchedulerModel {
                active: without(old(self)@.active, task@),
                ..old(self)@
            }),
            final(db)@.well_formed(),
    {
        let ghost active = self@.active;
        let found: Option<usize> = position(&self.active, &task.to_owned());
        match found {
            Some(n) => {
                proof {
                    lemma_without_at(active, task@, n as int);
                }
                let ghost current = self.active@;
                self.active.remove(n);
                assert(texts(self.active@) =~= texts(current).remove(n as int));
            },
            None => {
                proof {
                    lemma_without_none(active, task@);
                }
            },
        }
        assert(self@ =~= (SchedulerModel {
            active: without(old(self)@.active, task@),
            ..old(self)@
        }));
        match outcome {
            Outcome::Success => {
                db.set_task(self.run.as_str(), task, "success", None, now);
            },
            Outcome::Failed(error) => {
                db.set_task(self.run.as_str(), task, "failed", Some(error.as_str()), now);
            },
            Outcome::Interrupted => {
                db.set_task(
                    self.run.as_str(),
                    task,
                    "pending",
                    Some("interrompue ; utiliser kordrel resume"),
                    now,
                );
            },
        }
    }

    /// Ends the run and gives its final status. It fails where tasks wait that
    /// nothing can start.
    pub fn conclude(&self, db: &mut Db, cancelled: bool, now: i64) -> (r: Result<String, String>)
        requires
            old(db)@.well_formed(),
            old(db)@.room(1),
        ensures
            match (verdict(tasks_of(old(db)@.tasks, self@.run), cancelled), r) {
                (Some(status), Ok(s)) => s@ == status && final(db)@ == old(db)@.set_run(
                    self@.run,
                    status,
                    now,
                ),
                (None, Err(e)) => e@
                    == "scheduler bloqué : tâches en attente sans travail actif"@ && final(db)@
                    == old(db)@,
                _ => false,
            },
            final(db)@.well_formed(),
    {
        let status: &str = if cancelled {
            "interrupted"
        } else {
            let tasks: Vec<TaskView> = db.tasks(self.run.as_str());
            let (all_success, some_pending) = survey(&tasks);
            if all_success {
                "success"
            } else if some_pending {
                return Err("scheduler bloqué : tâches en attente sans travail actif".to_owned());
            } else {
                "failed"
            }
        };
        db.set_run(self.run.as_str(), status, now);
        Ok(status.to_owned())
    }
}

fn survey(tasks: &Vec<TaskView>) -> (r: (bool, bool))
    ensures
        r.0 <==> forall|i: int|
            0 <= i < tasks@.len() ==> #[trigger] task_states(tasks@)[i].status == "success"@,
        r.1 <==> exists|i: int|
            0 <= i < tasks@.len() && #[trigger] task_states(tasks@)[i].status == "pending"@,
{
    let ghost states = task_states(tasks@);
    let mut all_success: bool = true;
    let mut some_pending: bool = false;
    let mut i: usize = 0;
    while i < tasks.len()
        invariant
            i <= tasks@.len(),
            states == task_states(tasks@),
            all_success <==> forall|j: int|
                0 <= j < i ==> #[trigger] states[j].status == "success"@,
            some_pending <==> exists|j: int|
                0 <= j < i && #[trigger] states[j].status == "pending"@,
        decreases tasks@.len() - i,
    {
        assert(states[i as int].status == tasks@[i as int].status@);
        all_success = all_success && same(tasks[i].status.as_str(), "success");
        some_pending = some_pending || same(tasks[i].status.as_str(), "pending");
        i = i + 1;
    }
    (all_success, some_pending)
}

proof fn lemma_without_at(s: Seq<Seq<char>>, id: Seq<char>, n: int)
    requires
        0 <= n < s.len(),
        s[n] == id,
        forall|j: int| 0 <= j < n ==> #[trigger] s[j] != id,
    ensures
        without(s, id) == s.remove(n),
    decreases s.len(),
{
    if n > 0 {
        let rest = s.drop_first();
        assert(s[0] != id);
        assert forall|j: int| 0 <= j < n - 1 implies #[trigger] rest[j] != id by {
            assert(s[j + 1] != id);
        }
        lemma_without_at(rest, id, n - 1);
        assert(seq![s[0]] + rest.remove(n - 1) =~= s.remove(n));
    } else {
        assert(s.drop_first() =~= s.remove(0));
    }
}

proof fn lemma_without_none(s: Seq<Seq<char>>, id: Seq<char>)
    requires
        forall|j: int| 0 <= j < s.len() ==> #[trigger] s[j] != id,
    ensures
        without(s, id) == s,
    decreases s.len(),
{
    if s.len() > 0 {
        let rest = s.drop_first();
        assert(s[0] != id);
        assert forall|j: int| 0 <= j < rest.len() implies #[trigger] rest[j] != id by {
            assert(s[j + 1] != id);
        }
        lemma_without_none(rest, id);
        assert(seq![s[0]] + rest =~= s);
    }
}

} // verus!
