//! The rules of the command line: limits, files, and what is printed.

use crate::db::{Db, LogLine, RunDetail, TaskView};
use crate::model::{attempts_interrupted, lemma_recovered_room, logs_of, DbModel};
use crate::records::{log_models, DetailModel, LogModel, TaskState};
use crate::simulation::{law_groups_schedule_every_task, placed};
use crate::text::{
    decimal, decimal_nat, decimal_text, join, joined, law_decimals_read_back,
    law_joined_parts_are_there, natural_text, optional_slice, pad, padded, same, texts,
};
use crate::workflow::{Workflow, WorkflowModel};
use vstd::prelude::*;
use vstd::string::*;

verus! {

// ---------------------------------------------------------------------------
// Limits and files
// ---------------------------------------------------------------------------

/// The number of tasks that may run at once: that of the command, or that of
/// the workflow, or four.
pub open spec fn parallelism(w: WorkflowModel, override_value: Option<i64>) -> int {
    match override_value {
        Some(n) => n as int,
        None => match w.max_parallel {
            Some(n) => n as int,
            None => 4,
        },
    }
}

/// So many tasks may run at once.
pub open spec fn is_limit(n: int) -> bool {
    1 <= n <= 1024
}

/// The number of tasks that may run at once.
pub fn parallel(workflow: &Workflow, override_value: Option<i64>) -> (r: Result<usize, String>)
    ensures
        match r {
            Ok(n) => is_limit(n as int) && n == parallelism(workflow@, override_value),
            Err(e) => !is_limit(parallelism(workflow@, override_value)) && e@
                == "max_parallel doit être entre 1 et 1024"@,
        },
{
    let n: i64 = match override_value {
        Some(n) => n,
        None => match workflow.max_parallel {
            Some(n) => n,
            None => 4,
        },
    };
    if n < 1 || n > 1024 {
        return Err("max_parallel doit être entre 1 et 1024".to_owned());
    }
    Ok(n as usize)
}

/// The database to use where none was named.
pub open spec fn preferred<P>(
    current: P,
    current_exists: bool,
    legacy: P,
    legacy_exists: bool,
) -> P {
    if current_exists || !legacy_exists {
        current
    } else {
        legacy
    }
}

/// The database to use where none was named: the current one, unless only the
/// legacy one exists.
pub fn prefer_database<P>(
    current: P,
    current_exists: bool,
    legacy: P,
    legacy_exists: bool,
) -> (r: P)
    ensures
        r == preferred(current, current_exists, legacy, legacy_exists),
{
    if current_exists || !legacy_exists {
        current
    } else {
        legacy
    }
}

/// The database to use.
pub open spec fn named_database<P>(explicit: Option<P>, variable: Option<P>, preferred: P) -> P {
    match (explicit, variable) {
        (Some(path), _) => path,
        (None, Some(path)) => path,
        (None, None) => preferred,
    }
}

/// The database to use: the one that the command names, or the one of the
/// legacy variable, or the preferred one.
pub fn database_path<P>(explicit: Option<P>, variable: Option<P>, preferred: P) -> (r: P)
    ensures
        r == named_database(explicit, variable, preferred),
{
    match explicit {
        Some(path) => path,
        None => match variable {
            Some(path) => path,
            None => preferred,
        },
    }
}

/// The name of the file that keeps a second command from driving the run.
pub open spec fn lock_file(legacy: bool, id: Seq<char>) -> Seq<char> {
    (if legacy {
        "forge"@
    } else {
        "kordrel"@
    }) + "-"@ + id + ".lock"@
}

/// The name of the file that keeps a second command from driving the run.
pub fn lock_name(legacy: bool, id: &str) -> (r: String)
    ensures
        r@ == lock_file(legacy, id@),
{
    let prefix: &str = if legacy {
        "forge"
    } else {
        "kordrel"
    };
    prefix.to_owned().concat("-").concat(id).concat(".lock")
}

/// The exit code of a command that drove a run to this status.
pub open spec fn code_of(status: Seq<char>) -> i32 {
    if status == "failed"@ {
        1i32
    } else {
        0i32
    }
}

/// The exit code of a command that drove a run to this status.
pub fn exit_code(status: &str) -> (r: i32)
    ensures
        r == code_of(status@),
{
    if same(status, "failed") {
        1
    } else {
        0
    }
}

/// The recorded state once a run was given up.
pub open spec fn given_up(m: DbModel, run: Seq<char>, now: i64) -> DbModel {
    match m.detail(run) {
        Some(d) => if d.run.status == "running"@ {
            (if m.covers(run, d.workflow) {
                m.recover(run, d.workflow, now)
            } else {
                m
            }).set_run(run, "interrupted"@, now)
        } else {
            m
        },
        None => m,
    }
}

/// Gives up a run whose scheduling broke off: where it is running it is
/// interrupted, so that it can be resumed.
pub fn give_up(db: &mut Db, run: &str, now: i64)
    requires
        old(db)@.well_formed(),
        old(db)@.detail(run@) matches Some(d) ==> old(db)@.room(
            (d.workflow.tasks.len() + 1) as int,
        ),
    ensures
        final(db)@ == given_up(old(db)@, run@, now),
        final(db)@.well_formed(),
{
    if let Some(d) = db.detail(run) {
        if same(d.run.status.as_str(), "running") {
            let ghost w = d.workflow@;
            proof {
                let start = DbModel {
                    attempts: attempts_interrupted(db@.attempts, run@, now),
                    ..db@
                };
                lemma_recovered_room(start, run@, w.tasks, w.tasks.len(), now);
            }
            let _ = db.recover(run, &d.workflow, now);
            db.set_run(run, "interrupted", now);
        }
    }
}

// ---------------------------------------------------------------------------
// What is printed
// ---------------------------------------------------------------------------

/// What `validate` prints.
pub open spec fn validated_line(w: WorkflowModel) -> Seq<char> {
    "Workflow '"@ + w.name + "' valide ("@ + decimal_nat(w.tasks.len()) + " tâches)"@
}

/// What `validate` prints.
pub fn validated(workflow: &Workflow) -> (r: String)
    ensures
        r@ == validated_line(workflow@),
{
    "Workflow '".to_owned().concat(workflow.name.as_str()).concat("' valide (").concat(
        natural_text(workflow.tasks.len() as u64).as_str(),
    ).concat(" tâches)")
}

/// The line of one group of a simulation; groups count from one.
pub open spec fn group_line(i: int, group: Seq<Seq<char>>) -> Seq<char> {
    "groupe "@ + decimal_nat((i + 1) as nat) + " : "@ + joined(group, ", "@)
}

/// What `simulate` prints.
pub open spec fn simulation_lines(w: WorkflowModel, parallel: nat) -> Seq<Seq<char>> {
    let groups = w.groups(parallel);
    seq![w.name + " · limite de concurrence "@ + decimal_nat(parallel)] + Seq::new(
        groups.len(),
        |i: int| group_line(i, groups[i]),
    )
}

/// What `simulate` prints.
pub fn simulation(workflow: &Workflow, parallel: usize) -> (r: Vec<String>)
    ensures
        texts(r@) == simulation_lines(workflow@, parallel as nat),
{
    let mut r: Vec<String> = Vec::new();
    r.push(
        workflow.name.clone().concat(" · limite de concurrence ").concat(
            natural_text(parallel as u64).as_str(),
        ),
    );
    let groups: Vec<Vec<String>> = workflow.groups(parallel);
    let ghost all = workflow@.groups(parallel as nat);
    let ghost lines = simulation_lines(workflow@, parallel as nat);
    assert(texts(r@) =~= lines.take(1));
    let mut i: usize = 0;
    while i < groups.len()
        invariant
            i <= groups@.len(),
            all == workflow@.groups(parallel as nat),
            lines == simulation_lines(workflow@, parallel as nat),
            groups@.len() == all.len(),
            forall|j: int| 0 <= j < all.len() ==> texts((#[trigger] groups@[j])@) == all[j],
            texts(r@) == lines.take(i + 1),
        decreases groups@.len() - i,
    {
        let ghost before = r@;
        assert(texts(groups@[i as int]@) == all[i as int]);
        let line: String = "groupe ".to_owned().concat(natural_text(i as u64 + 1).as_str()).concat(
            " : ",
        ).concat(join(&groups[i], ", ").as_str());
        assert(line@ == group_line(i as int, all[i as int]));
        r.push(line);
        assert(texts(r@) =~= texts(before).push(lines[i + 1]));
        assert(texts(r@) =~= lines.take(i + 2));
        i = i + 1;
    }
    assert(lines.take(i + 1) =~= lines);
    r
}

/// The message where the run is not recorded.
pub open spec fn unknown_run_line(id: Seq<char>) -> Seq<char> {
    "exécution inconnue : "@ + id
}

/// The line of one task in a status.
pub open spec fn task_line(t: TaskState) -> Seq<char> {
    "  "@ + padded(t.id, 24) + " "@ + padded(t.status, 12) + " essais="@ + decimal(
        t.attempts as int,
    ) + (match t.error {
        Some(e) => " erreur="@ + e,
        None => ""@,
    })
}

/// What `status` prints.
pub open spec fn status_lines(d: DetailModel) -> Seq<Seq<char>> {
    seq![d.run.name + " ["@ + d.run.id + "] "@ + d.run.status] + Seq::new(
        d.tasks.len(),
        |i: int| task_line(d.tasks[i]),
    )
}

fn print_task(t: &TaskView) -> (r: String)
    ensures
        r@ == task_line(t@),
{
    let error: String = match &t.error {
        Some(e) => " erreur=".to_owned().concat(e.as_str()),
        None => "".to_owned(),
    };
    "  ".to_owned().concat(pad(t.id.as_str(), 24).as_str()).concat(" ").concat(
        pad(t.status.as_str(), 12).as_str(),
    ).concat(" essais=").concat(decimal_text(t.attempts).as_str()).concat(error.as_str())
}

/// What `status` prints, or the message for a run that is not recorded.
pub fn status(db: &Db, id: &str) -> (r: Result<Vec<String>, String>)
    ensures
        match (db@.detail(id@), r) {
            (Some(d), Ok(lines)) => texts(lines@) == status_lines(d),
            (None, Err(e)) => e@ == unknown_run_line(id@),
            _ => false,
        },
{
    let d: RunDetail = match db.detail(id) {
        Some(d) => d,
        None => {
            return Err("exécution inconnue : ".to_owned().concat(id));
        },
    };
    let ghost lines = status_lines(d@);
    let mut r: Vec<String> = Vec::new();
    r.push(
        d.run.name.clone().concat(" [").concat(d.run.id.as_str()).concat("] ").concat(
            d.run.status.as_str(),
        ),
    );
    assert(texts(r@) =~= lines.take(1));
    let mut i: usize = 0;
    while i < d.tasks.len()
        invariant
            i <= d.tasks@.len(),
            lines == status_lines(d@),
            texts(r@) == lines.take(i + 1),
        decreases d.tasks@.len() - i,
    {
        let ghost before = r@;
        assert(d@.tasks[i as int] == d.tasks@[i as int]@);
        r.push(print_task(&d.tasks[i]));
        assert(texts(r@) =~= texts(before).push(lines[i + 1]));
        assert(texts(r@) =~= lines.take(i + 2));
        i = i + 1;
    }
    assert(lines.take(i + 1) =~= lines);
    Ok(r)
}

/// The line of one log line.
pub open spec fn log_text(l: LogModel) -> Seq<char> {
    l.task_id + " #"@ + decimal(l.attempt as int) + " "@ + l.stream + ": "@ + l.line
}

fn print_log(l: &LogLine) -> (r: String)
    ensures
        r@ == log_text(l@),
{
    l.task_id.clone().concat(" #").concat(decimal_text(l.attempt).as_str()).concat(" ").concat(
        l.stream.as_str(),
    ).concat(": ").concat(l.line.as_str())
}

/// What `logs` prints, or the message for a run that is not recorded.
pub fn logs(db: &Db, id: &str, task: Option<&str>) -> (r: Result<Vec<String>, String>)
    requires
        db@.well_formed(),
    ensures
        match (db@.detail(id@), r) {
            (Some(_), Ok(lines)) => texts(lines@) == logs_of(
                db@.logs,
                id@,
                optional_slice(task),
            ).map_values(|l: LogModel| log_text(l)),
            (None, Err(e)) => e@ == unknown_run_line(id@),
            _ => false,
        },
{
    if db.detail(id).is_none() {
        return Err("exécution inconnue : ".to_owned().concat(id));
    }
    let found: Vec<LogLine> = db.logs(id, task);
    let ghost all = log_models(found@);
    let ghost lines = all.map_values(|l: LogModel| log_text(l));
    let mut r: Vec<String> = Vec::new();
    assert(texts(r@) =~= lines.take(0));
    let mut i: usize = 0;
    while i < found.len()
        invariant
            i <= found@.len(),
            all == log_models(found@),
            lines == all.map_values(|l: LogModel| log_text(l)),
            texts(r@) == lines.take(i as int),
        decreases found@.len() - i,
    {
        let ghost before = r@;
        assert(all[i as int] == found@[i as int]@);
        r.push(print_log(&found[i]));
        assert(texts(r@) =~= texts(before).push(lines[i as int]));
        assert(texts(r@) =~= lines.take(i + 1));
        i = i + 1;
    }
    assert(lines.take(i as int) =~= lines);
    Ok(r)
}

// ---------------------------------------------------------------------------
// Laws
// ---------------------------------------------------------------------------

/// The limit of the command comes first, then that of the workflow; where neither
/// gives one, it is four.
pub proof fn law_which_limit_counts(w: WorkflowModel, n: i64)
    ensures
        parallelism(w, Some(n)) == n,
        w.max_parallel is Some ==> parallelism(w, None) == w.max_parallel->0,
        w.max_parallel is None ==> parallelism(w, None) == 4,
        is_limit(n as int) <==> 0 < n && n <= 1024,
{
}

/// A command that names its database gets it, one that does not gets that of the
/// variable, and one with neither the preferred one: the legacy database where it
/// is the only one that exists, and the current one everywhere else.
pub proof fn law_which_database_is_used<P>(a: P, b: P, variable: Option<P>)
    ensures
        named_database(Some(a), variable, b) == a,
        named_database(None, Some(a), b) == a,
        named_database(None, None, b) == b,
        preferred(a, true, b, true) == a,
        preferred(a, true, b, false) == a,
        preferred(a, false, b, false) == a,
        preferred(a, false, b, true) == b,
{
}

/// Each run has a lock of its own, whose name tells the run, and the legacy
/// database has its own locks.
pub proof fn law_each_run_has_its_own_lock(legacy: bool, id: Seq<char>, other: Seq<char>)
    ensures
        lock_file(false, id) == "kordrel"@ + "-"@ + id + ".lock"@,
        lock_file(true, id) == "forge"@ + "-"@ + id + ".lock"@,
        id != other ==> lock_file(legacy, id) != lock_file(legacy, other),
{
    let a = lock_file(legacy, id);
    let b = lock_file(legacy, other);
    let start = (if legacy {
        "forge"@
    } else {
        "kordrel"@
    }) + "-"@;
    assert(a =~= start + id + ".lock"@);
    assert(b =~= start + other + ".lock"@);
    if a == b {
        assert(a.len() == start.len() + id.len() + ".lock"@.len());
        assert(b.len() == start.len() + other.len() + ".lock"@.len());
        assert(a.subrange(start.len() as int, (start.len() + id.len()) as int) =~= id);
        assert(b.subrange(start.len() as int, (start.len() + other.len()) as int) =~= other);
    }
}

/// A command ends with an error exactly where the run that it drove has failed.
pub proof fn law_failure_is_the_only_error(status: Seq<char>)
    ensures
        code_of(status) == 0 || code_of(status) == 1,
        code_of(status) == 1 <==> status == "failed"@,
{
}

/// A valid workflow is announced by its name and the number of its tasks.
pub proof fn law_validation_counts_the_tasks(w: WorkflowModel)
    ensures
        validated_line(w) == "Workflow '"@ + w.name + "' valide ("@ + decimal(w.tasks.len() as int)
            + " tâches)"@,
{
}

/// Who asks for a run that is not recorded is told which.
pub proof fn law_unknown_runs_are_named(id: Seq<char>)
    ensures
        unknown_run_line(id) == "exécution inconnue : "@ + id,
{
}

/// A simulation prints one line more than there are groups: first the name and the
/// limit, then each group in its turn, under its number from one, with all its
/// tasks.
pub proof fn law_a_simulation_prints_every_group(w: WorkflowModel, parallel: nat, h: int)
    ensures
        simulation_lines(w, parallel).len() == w.groups(parallel).len() + 1,
        simulation_lines(w, parallel)[0] == w.name + " · limite de concurrence "@ + decimal(
            parallel as int,
        ),
        0 <= h < w.groups(parallel).len() ==> simulation_lines(w, parallel)[h + 1] == "groupe "@
            + decimal(h + 1) + " : "@ + joined(w.groups(parallel)[h], ", "@),
{
}

/// Every task of a valid workflow is shown by a simulation, in the line of some
/// group.
pub proof fn law_a_simulation_shows_every_task(w: WorkflowModel, parallel: nat, i: int) -> (r: (
    int,
    int,
))
    requires
        w.valid(),
        parallel > 0,
        0 <= i < w.tasks.len(),
    ensures
        ({
            let (line, at) = r;
            let id = w.tasks[i].id;
            &&& 1 <= line < simulation_lines(w, parallel).len()
            &&& 0 <= at <= at + id.len() <= simulation_lines(w, parallel)[line].len()
            &&& simulation_lines(w, parallel)[line].subrange(at, at + id.len()) == id
        }),
{
    law_groups_schedule_every_task(w, parallel);
    let groups = w.groups(parallel);
    let id = w.tasks[i].id;
    assert(placed(groups, groups.len() as int, Set::empty(), w.tasks[i].id));
    let h = choose|h: int| 0 <= h < groups.len() && (#[trigger] groups[h]).contains(id);
    let k = groups[h].index_of(id);
    let at = law_joined_parts_are_there(groups[h], ", "@, k);
    law_a_simulation_prints_every_group(w, parallel, h);
    let start = "groupe "@ + decimal(h + 1) + " : "@;
    let line = simulation_lines(w, parallel)[h + 1];
    let list = joined(groups[h], ", "@);
    assert(line.subrange(start.len() + at, start.len() + at + id.len()) =~= list.subrange(
        at,
        at + id.len(),
    ));
    (h + 1, start.len() + at)
}

/// What is told of an error behind the number of attempts.
pub open spec fn error_part(error: Option<Seq<char>>) -> Seq<char> {
    match error {
        Some(e) => " erreur="@ + e,
        None => Seq::empty(),
    }
}

/// The line of a task: its identifier and its status, each in its column and never
/// cut, then the number of its attempts in base ten, and its error where it has
/// one. So the lines of tasks that were tried a different number of times differ.
pub proof fn law_a_status_tells_the_state_of_a_task(t: TaskState, attempts: i64)
    ensures
        task_line(t) == "  "@ + padded(t.id, 24) + " "@ + padded(t.status, 12) + " essais="@
            + decimal(t.attempts as int) + error_part(t.error),
        attempts != t.attempts ==> task_line(TaskState { attempts, ..t }) != task_line(t),
{
    reveal_strlit("");
    assert(""@ =~= Seq::<char>::empty());
    let u = TaskState { attempts, ..t };
    let start = "  "@ + padded(t.id, 24) + " "@ + padded(t.status, 12) + " essais="@;
    let rest = error_part(t.error);
    let a = decimal(t.attempts as int);
    let b = decimal(attempts as int);
    assert(task_line(t) =~= start + a + rest);
    assert(task_line(u) =~= start + b + rest);
    if task_line(u) == task_line(t) {
        assert(a.len() == b.len());
        assert((start + a + rest).subrange(start.len() as int, (start.len() + a.len()) as int)
            =~= a);
        assert((start + b + rest).subrange(start.len() as int, (start.len() + b.len()) as int)
            =~= b);
        law_decimals_read_back(t.attempts as int);
        law_decimals_read_back(attempts as int);
    }
}

/// A status prints the run first and then each of its tasks, one line for each and
/// in their order.
pub proof fn law_a_status_tells_every_task(d: DetailModel, i: int)
    ensures
        status_lines(d).len() == d.tasks.len() + 1,
        status_lines(d)[0] == d.run.name + " ["@ + d.run.id + "] "@ + d.run.status,
        0 <= i < d.tasks.len() ==> status_lines(d)[i + 1] == task_line(d.tasks[i]),
{
}

/// The line of a log tells the task, the attempt in base ten, the stream and what
/// was written.
pub proof fn law_a_log_line_tells_where_it_is_from(l: LogModel)
    ensures
        log_text(l) == l.task_id + " #"@ + decimal(l.attempt as int) + " "@ + l.stream + ": "@
            + l.line,
{
}

} // verus!
