//! The recorded state of the runs: what each operation does to it, and what
//! the queries read from it.

use crate::json::{
    field_models, number, number_field, object_text, optional_field, optional_text, text,
    text_field, Field,
};
use crate::model::{
    attempt_ended, attempt_payload, attempts_interrupted, attempts_of, batch, events_of, is_attempt,
    is_listing, is_task, lemma_attempts_keep, lemma_create_keeps, lemma_event_keeps,
    lemma_log_keeps, lemma_new_attempt_keeps, lemma_patch_keeps, lemma_recover_covers,
    lemma_run_found, lemma_run_set_keeps, lemma_state_unique, log_payload, logs_of, new_attempt,
    new_run, new_tasks, newest_first, patched, recent, recovery_patch, run_payload, run_record,
    run_set, start_patch, start_payload, status_patch, success_patch, success_payload, task_payload,
    task_state, tasks_of, PatchModel, Stamp,
};
use crate::records::{
    AttemptModel, AttemptRecord, EventModel, LogRecord, RunModel, RunRecord, TaskRecord,
};
use crate::simulation::first;
use crate::text::{copy_optional, optional, optional_slice, owned, same};
use crate::workflow::{Task, Workflow};
use vstd::prelude::*;
use vstd::seq_lib::{to_multiset_build, to_multiset_insert};

pub use crate::model::{DbError, DbModel};
pub use crate::records::{
    attempt_models, attempt_records, event_models, log_models, log_records, run_records,
    summary_models, task_records, task_states, AttemptRow, AttemptView, EventRow, LogLine, LogRow,
    RunDetail, RunRow, RunSummary, TaskRow, TaskView,
};

verus! {

/// The tables, row by row in the order of insertion, and the last identifiers
/// given to a log line and to an event.
pub struct Tables {
    pub runs: Vec<RunRow>,
    pub tasks: Vec<TaskRow>,
    pub attempts: Vec<AttemptRow>,
    pub logs: Vec<LogRow>,
    pub events: Vec<EventRow>,
    pub last_log: i64,
    pub last_event: i64,
}

impl View for Tables {
    type V = DbModel;

    open spec fn view(&self) -> DbModel {
        DbModel {
            runs: run_records(self.runs@),
            tasks: task_records(self.tasks@),
            attempts: attempt_records(self.attempts@),
            logs: log_records(self.logs@),
            events: event_models(self.events@),
            last_log: self.last_log,
            last_event: self.last_event,
        }
    }
}

/// The record of the runs.
pub struct Db {
    tables: Tables,
}

impl View for Db {
    type V = DbModel;

    closed spec fn view(&self) -> DbModel {
        self.tables@
    }
}

// ---------------------------------------------------------------------------
// Rows
// ---------------------------------------------------------------------------

/// A change to the state of a task.
pub struct Patch {
    pub status: String,
    pub error: Option<String>,
    pub counts: bool,
    pub started: Stamp,
    pub finished: Option<i64>,
}

impl View for Patch {
    type V = PatchModel;

    open spec fn view(&self) -> PatchModel {
        PatchModel {
            status: self.status@,
            error: optional(self.error),
            counts: self.counts,
            started: self.started,
            finished: self.finished,
        }
    }
}

// ---------------------------------------------------------------------------
// Payloads
// ---------------------------------------------------------------------------

fn run_event(status: &str) -> (r: String)
    ensures
        r@ == run_payload(status@),
{
    let mut fields: Vec<Field> = Vec::new();
    fields.push(text("status", status));
    assert(field_models(fields@) =~= seq![text_field("status"@, status@)]);
    object_text(&fields)
}

fn task_event(task: &str, status: &str, error: &Option<String>) -> (r: String)
    ensures
        r@ == task_payload(task@, status@, optional(*error)),
{
    let mut fields: Vec<Field> = Vec::new();
    fields.push(text("task_id", task));
    fields.push(text("status", status));
    fields.push(optional_text("error", error));
    assert(field_models(fields@) =~= seq![
                text_field("task_id"@, task@),
                text_field("status"@, status@),
                optional_field("error"@, optional(*error)),
            ]);
    object_text(&fields)
}

fn start_event(task: &str, attempt: i64) -> (r: String)
    ensures
        r@ == start_payload(task@, attempt as int),
{
    let mut fields: Vec<Field> = Vec::new();
    fields.push(text("task_id", task));
    fields.push(text("status", "running"));
    fields.push(number("attempt", attempt));
    assert(field_models(fields@) =~= seq![
                text_field("task_id"@, task@),
                text_field("status"@, "running"@),
                number_field("attempt"@, attempt as int),
            ]);
    object_text(&fields)
}

fn success_event(task: &str) -> (r: String)
    ensures
        r@ == success_payload(task@),
{
    let mut fields: Vec<Field> = Vec::new();
    fields.push(text("task_id", task));
    fields.push(text("status", "success"));
    assert(field_models(fields@) =~= seq![text_field("task_id"@, task@), text_field("status"@, "success"@)]);
    object_text(&fields)
}

fn attempt_event(task: &str, attempt: i64, status: &str, error: &Option<String>) -> (r: String)
    ensures
        r@ == attempt_payload(task@, attempt as int, status@, optional(*error)),
{
    let mut fields: Vec<Field> = Vec::new();
    fields.push(text("task_id", task));
    fields.push(number("attempt", attempt));
    fields.push(text("status", status));
    fields.push(optional_text("error", error));
    assert(field_models(fields@) =~= seq![
                text_field("task_id"@, task@),
                number_field("attempt"@, attempt as int),
                text_field("status"@, status@),
                optional_field("error"@, optional(*error)),
            ]);
    object_text(&fields)
}

fn log_event(task: &str, attempt: i64, stream: &str, line: &str) -> (r: String)
    ensures
        r@ == log_payload(task@, attempt as int, stream@, line@),
{
    let mut fields: Vec<Field> = Vec::new();
    fields.push(text("task_id", task));
    fields.push(number("attempt", attempt));
    fields.push(text("stream", stream));
    fields.push(text("line", line));
    assert(field_models(fields@) =~= seq![
                text_field("task_id"@, task@),
                number_field("attempt"@, attempt as int),
                text_field("stream"@, stream@),
                text_field("line"@, line@),
            ]);
    object_text(&fields)
}

// ---------------------------------------------------------------------------
// Operations
// ---------------------------------------------------------------------------

fn apply_patch(t: &mut TaskView, patch: &Patch)
    requires
        patch.counts ==> old(t).attempts < i64::MAX,
    ensures
        final(t)@ == patch@.apply(old(t)@),
{
    t.status = patch.status.clone();
    t.error = copy_optional(&patch.error);
    if patch.counts {
        t.attempts = t.attempts + 1;
    }
    match patch.started {
        Stamp::Keep => {},
        Stamp::Replace(at) => {
            t.started_at = Some(at);
        },
        Stamp::Fill(at) => {
            if t.started_at.is_none() {
                t.started_at = Some(at);
            }
        },
    }
    t.finished_at = patch.finished;
}

fn patch_rows(rows: &mut Vec<TaskRow>, run: &String, task: &String, patch: &Patch)
    requires
        patch.counts ==> forall|i: int|
            0 <= i < old(rows)@.len() && is_task(#[trigger] old(rows)@[i]@, run@, task@)
                ==> old(rows)@[i].task.attempts < i64::MAX,
    ensures
        task_records(final(rows)@) == patched(task_records(old(rows)@), run@, task@, patch@),
{
    let ghost before = rows@;
    let mut i: usize = 0;
    while i < rows.len()
        invariant
            i <= rows@.len(),
            rows@.len() == before.len(),
            before == old(rows)@,
            forall|j: int| i <= j < rows@.len() ==> #[trigger] rows@[j] == before[j],
            forall|j: int|
                0 <= j < i ==> (#[trigger] rows@[j])@ == patched(
                    task_records(before),
                    run@,
                    task@,
                    patch@,
                )[j],
            patch.counts ==> forall|j: int|
                0 <= j < before.len() && is_task(#[trigger] before[j]@, run@, task@)
                    ==> before[j].task.attempts < i64::MAX,
        decreases rows@.len() - i,
    {
        assert(rows@[i as int] == before[i as int]);
        if rows[i].run_id == *run && rows[i].task.id == *task {
            assert(is_task(before[i as int]@, run@, task@));
            apply_patch(&mut rows[i].task, patch);
        }
        i = i + 1;
    }
    assert(task_records(rows@) =~= patched(task_records(before), run@, task@, patch@));
}

fn set_run_rows(rows: &mut Vec<RunRow>, run: &String, status: &str, now: i64)
    ensures
        run_records(final(rows)@) == run_set(run_records(old(rows)@), run@, status@, now),
{
    let ghost before = rows@;
    let running: bool = same(status, "running");
    let mut i: usize = 0;
    while i < rows.len()
        invariant
            i <= rows@.len(),
            rows@.len() == before.len(),
            before == old(rows)@,
            running == (status@ == "running"@),
            forall|j: int| i <= j < rows@.len() ==> #[trigger] rows@[j] == before[j],
            forall|j: int|
                0 <= j < i ==> (#[trigger] rows@[j])@ == run_set(
                    run_records(before),
                    run@,
                    status@,
                    now,
                )[j],
        decreases rows@.len() - i,
    {
        assert(rows@[i as int] == before[i as int]);
        if rows[i].run.id == *run {
            rows[i].run.status = status.to_owned();
            if rows[i].run.started_at.is_none() {
                rows[i].run.started_at = Some(now);
            }
            rows[i].run.finished_at = if running {
                None
            } else {
                Some(now)
            };
        }
        i = i + 1;
    }
    assert(run_records(rows@) =~= run_set(run_records(before), run@, status@, now));
}

fn end_attempt(a: &mut AttemptView, status: &str, error: &Option<String>, now: i64)
    ensures
        final(a)@ == (AttemptModel {
            status: status@,
            finished_at: Some(now),
            error: optional(*error),
            ..old(a)@
        }),
{
    a.status = status.to_owned();
    a.finished_at = Some(now);
    a.error = copy_optional(error);
}

fn end_attempt_rows(
    rows: &mut Vec<AttemptRow>,
    run: &String,
    task: &String,
    number: i64,
    status: &str,
    error: &Option<String>,
    now: i64,
)
    ensures
        attempt_records(final(rows)@) == attempt_ended(
            attempt_records(old(rows)@),
            run@,
            task@,
            number,
            status@,
            optional(*error),
            now,
        ),
{
    let ghost before = rows@;
    let ghost after = attempt_ended(
        attempt_records(before),
        run@,
        task@,
        number,
        status@,
        optional(*error),
        now,
    );
    let mut i: usize = 0;
    while i < rows.len()
        invariant
            i <= rows@.len(),
            rows@.len() == before.len(),
            before == old(rows)@,
            after == attempt_ended(
                attempt_records(before),
                run@,
                task@,
                number,
                status@,
                optional(*error),
                now,
            ),
            forall|j: int| i <= j < rows@.len() ==> #[trigger] rows@[j] == before[j],
            forall|j: int| 0 <= j < i ==> (#[trigger] rows@[j])@ == after[j],
        decreases rows@.len() - i,
    {
        assert(rows@[i as int] == before[i as int]);
        if rows[i].run_id == *run && rows[i].attempt.task_id == *task && rows[i].attempt.number
            == number {
            end_attempt(&mut rows[i].attempt, status, error, now);
        }
        i = i + 1;
    }
    assert(attempt_records(rows@) =~= after);
}

fn interrupt_rows(rows: &mut Vec<AttemptRow>, run: &String, now: i64)
    ensures
        attempt_records(final(rows)@) == attempts_interrupted(
            attempt_records(old(rows)@),
            run@,
            now,
        ),
{
    let ghost before = rows@;
    let ghost after = attempts_interrupted(attempt_records(before), run@, now);
    let error: Option<String> = Some("Kordrel interrompu".to_owned());
    let mut i: usize = 0;
    while i < rows.len()
        invariant
            i <= rows@.len(),
            rows@.len() == before.len(),
            before == old(rows)@,
            after == attempts_interrupted(attempt_records(before), run@, now),
            optional(error) == Some("Kordrel interrompu"@),
            forall|j: int| i <= j < rows@.len() ==> #[trigger] rows@[j] == before[j],
            forall|j: int| 0 <= j < i ==> (#[trigger] rows@[j])@ == after[j],
        decreases rows@.len() - i,
    {
        assert(rows@[i as int] == before[i as int]);
        if rows[i].run_id == *run && same(rows[i].attempt.status.as_str(), "running") {
            end_attempt(&mut rows[i].attempt, "interrupted", &error, now);
        }
        i = i + 1;
    }
    assert(attempt_records(rows@) =~= after);
}

fn find_state<'a>(rows: &'a Vec<TaskRow>, run: &String, task: &String) -> (r: Option<&'a TaskView>)
    ensures
        task_state(task_records(rows@), run@, task@) == match r {
            Some(t) => Some(t@),
            None => None,
        },
{
    let mut i: usize = 0;
    assert(task_records(rows@).skip(0) =~= task_records(rows@));
    while i < rows.len()
        invariant
            i <= rows@.len(),
            task_state(task_records(rows@), run@, task@) == task_state(
                task_records(rows@).skip(i as int),
                run@,
                task@,
            ),
        decreases rows@.len() - i,
    {
        let ghost rest = task_records(rows@).skip(i as int);
        assert(rest[0] == rows@[i as int]@);
        assert(rest.drop_first() =~= task_records(rows@).skip(i + 1));
        if rows[i].run_id == *run && rows[i].task.id == *task {
            return Some(&rows[i].task);
        }
        i = i + 1;
    }
    None
}

fn find_run<'a>(rows: &'a Vec<RunRow>, run: &String) -> (r: Option<&'a RunRow>)
    ensures
        run_record(run_records(rows@), run@) == match r {
            Some(t) => Some(t@),
            None => None,
        },
{
    let mut i: usize = 0;
    assert(run_records(rows@).skip(0) =~= run_records(rows@));
    while i < rows.len()
        invariant
            i <= rows@.len(),
            run_record(run_records(rows@), run@) == run_record(
                run_records(rows@).skip(i as int),
                run@,
            ),
        decreases rows@.len() - i,
    {
        let ghost rest = run_records(rows@).skip(i as int);
        assert(rest[0] == rows@[i as int]@);
        assert(rest.drop_first() =~= run_records(rows@).skip(i + 1));
        if rows[i].run.id == *run {
            return Some(&rows[i]);
        }
        i = i + 1;
    }
    None
}

fn find_attempt(rows: &Vec<AttemptRow>, run: &String, task: &String, number: i64) -> (b: bool)
    ensures
        b <==> exists|i: int|
            0 <= i < rows@.len() && is_attempt(
                #[trigger] attempt_records(rows@)[i],
                run@,
                task@,
                number,
            ),
{
    let ghost records = attempt_records(rows@);
    let mut i: usize = 0;
    while i < rows.len()
        invariant
            i <= rows@.len(),
            records == attempt_records(rows@),
            forall|j: int|
                0 <= j < i ==> !is_attempt(#[trigger] records[j], run@, task@, number),
        decreases rows@.len() - i,
    {
        assert(records[i as int] == rows@[i as int]@);
        if rows[i].run_id == *run && rows[i].attempt.task_id == *task && rows[i].attempt.number
            == number {
            return true;
        }
        i = i + 1;
    }
    false
}

impl Db {
    /// A record that holds nothing.
    pub fn new() -> (d: Db)
        ensures
            d@ == DbModel::empty(),
            d@.well_formed(),
    {
        let d = Db {
            tables: Tables {
                runs: Vec::new(),
                tasks: Vec::new(),
                attempts: Vec::new(),
                logs: Vec::new(),
                events: Vec::new(),
                last_log: 0,
                last_event: 0,
            },
        };
        assert(d@ =~= DbModel::empty());
        d
    }

    /// The rows.
    pub fn into_tables(self) -> (t: Tables)
        ensures
            t@ == self@,
    {
        self.tables
    }

    /// Tells whether there is room for `n` more events.
    pub fn has_room(&self, n: u64) -> (b: bool)
        ensures
            b == self@.room(n as int),
    {
        self.tables.last_event as i128 + n as i128 <= i64::MAX as i128
    }

    /// Tells whether every task of the workflow is recorded for the run.
    pub fn covers(&self, run: &str, workflow: &Workflow) -> (b: bool)
        ensures
            b == self@.covers(run@, workflow@),
    {
        let key: String = run.to_owned();
        let mut i: usize = 0;
        while i < workflow.tasks.len()
            invariant
                i <= workflow.tasks@.len(),
                key@ == run@,
                forall|j: int|
                    0 <= j < i ==> self@.task(run@, (#[trigger] workflow@.tasks[j]).id) is Some,
            decreases workflow.tasks@.len() - i,
        {
            assert(workflow@.tasks[i as int].id == workflow.tasks@[i as int].id@);
            if find_state(&self.tables.tasks, &key, &workflow.tasks[i].id).is_none() {
                return false;
            }
            i = i + 1;
        }
        true
    }

    /// Records an event.
    pub fn event(&mut self, run: &str, kind: &str, payload: String, now: i64)
        requires
            old(self)@.well_formed(),
            old(self)@.room(1),
        ensures
            final(self)@ == old(self)@.with_event(run@, kind@, payload@, now),
            final(self)@.well_formed(),
    {
        let ghost before = self.tables.events@;
        proof {
            lemma_event_keeps(self@, run@, kind@, payload@, now);
        }
        let id: i64 = self.tables.last_event + 1;
        self.tables.last_event = id;
        self.tables.events.push(
            EventRow {
                id,
                run_id: run.to_owned(),
                kind: kind.to_owned(),
                payload,
                created_at: now,
            },
        );
        assert(event_models(self.tables.events@) =~= event_models(before).push(
            self.tables.events@.last()@,
        ));
        assert(self@ =~= old(self)@.with_event(run@, kind@, payload@, now));
    }

    fn patch(&mut self, run: &str, task: &str, patch: &Patch)
        requires
            old(self)@.well_formed(),
            patch.counts ==> old(self)@.task(run@, task@) is Some && old(self)@.task(
                run@,
                task@,
            )->0.attempts < i64::MAX,
        ensures
            final(self)@ == old(self)@.with_patch(run@, task@, patch@),
            final(self)@.well_formed(),
    {
        proof {
            lemma_patch_keeps(self@, run@, task@, patch@);
            if patch.counts {
                let rows = self@.tasks;
                lemma_state_unique(self@, run@, task@);
                assert forall|i: int|
                    0 <= i < self.tables.tasks@.len() && is_task(
                        #[trigger] self.tables.tasks@[i]@,
                        run@,
                        task@,
                    ) implies self.tables.tasks@[i].task.attempts < i64::MAX by {
                    assert(is_task(rows[i], run@, task@));
                }
            }
        }
        patch_rows(&mut self.tables.tasks, &run.to_owned(), &task.to_owned(), patch);
        assert(self@ =~= old(self)@.with_patch(run@, task@, patch@));
    }

    /// Sets the status of a run: the run has started, and it has finished
    /// unless it is running.
    pub fn set_run(&mut self, run: &str, status: &str, now: i64)
        requires
            old(self)@.well_formed(),
            old(self)@.room(1),
        ensures
            final(self)@ == old(self)@.set_run(run@, status@, now),
            final(self)@.well_formed(),
    {
        proof {
            lemma_run_set_keeps(self@, run@, status@, now);
        }
        set_run_rows(&mut self.tables.runs, &run.to_owned(), status, now);
        assert(self@ =~= (DbModel {
            runs: run_set(old(self)@.runs, run@, status@, now),
            ..old(self)@
        }));
        self.event(run, "run", run_event(status), now);
    }

    /// Sets the status of a task. A task that runs has just started, and a task
    /// that succeeded, failed or is blocked has just finished.
    pub fn set_task(&mut self, run: &str, task: &str, status: &str, error: Option<&str>, now: i64)
        requires
            old(self)@.well_formed(),
            old(self)@.room(1),
        ensures
            final(self)@ == old(self)@.set_task(run@, task@, status@, optional_slice(error), now),
            final(self)@.well_formed(),
    {
        let error: Option<String> = owned(error);
        let done: bool = same(status, "success") || same(status, "failed") || same(
            status,
            "blocked",
        );
        let patch = Patch {
            status: status.to_owned(),
            error: copy_optional(&error),
            counts: false,
            started: if same(status, "running") {
                Stamp::Replace(now)
            } else {
                Stamp::Keep
            },
            finished: if done {
                Some(now)
            } else {
                None
            },
        };
        assert(patch@ =~= status_patch(status@, optional(error), now));
        self.patch(run, task, &patch);
        self.event(run, "task", task_event(task, status, &error), now);
    }

    /// Starts an attempt at a task and gives its number: one more than the
    /// attempts so far.
    pub fn start_attempt(&mut self, run: &str, task: &str, now: i64) -> (r: Result<i64, DbError>)
        requires
            old(self)@.well_formed(),
            old(self)@.room(1),
        ensures
            r == old(self)@.next_attempt(run@, task@),
            r is Ok ==> final(self)@ == old(self)@.start_attempt(run@, task@, now),
            r is Err ==> final(self)@ == old(self)@,
            final(self)@.well_formed(),
    {
        let run_id: String = run.to_owned();
        let task_id: String = task.to_owned();
        let count: i64 = match find_state(&self.tables.tasks, &run_id, &task_id) {
            Some(t) => t.attempts,
            None => {
                return Err(DbError::NoSuchTask);
            },
        };
        if count == i64::MAX {
            return Err(DbError::TooManyAttempts);
        }
        let number: i64 = count + 1;
        if find_attempt(&self.tables.attempts, &run_id, &task_id, number) {
            return Err(DbError::AttemptExists);
        }
        let patch = Patch {
            status: "running".to_owned(),
            error: None,
            counts: true,
            started: Stamp::Fill(now),
            finished: None,
        };
        assert(patch@ =~= start_patch(now));
        self.patch(run, task, &patch);
        let ghost mid = self@;
        let ghost before = self.tables.attempts@;
        self.tables.attempts.push(
            AttemptRow {
                run_id,
                attempt: AttemptView {
                    task_id,
                    number,
                    status: "running".to_owned(),
                    started_at: now,
                    finished_at: None,
                    error: None,
                },
            },
        );
        assert(attempt_records(self.tables.attempts@) =~= attempt_records(before).push(
            new_attempt(run@, task@, number, now),
        ));
        assert(self@ =~= (DbModel {
            attempts: mid.attempts.push(new_attempt(run@, task@, number, now)),
            ..mid
        }));
        proof {
            lemma_new_attempt_keeps(mid, run@, task@, number, now);
        }
        self.event(run, "task", start_event(task, number), now);
        Ok(number)
    }

    /// Ends an attempt. Where it succeeded, so has its task.
    pub fn finish_attempt(
        &mut self,
        run: &str,
        task: &str,
        number: i64,
        status: &str,
        error: Option<&str>,
        now: i64,
    )
        requires
            old(self)@.well_formed(),
            old(self)@.room(2),
        ensures
            final(self)@ == old(self)@.finish_attempt(
                run@,
                task@,
                number,
                status@,
                optional_slice(error),
                now,
            ),
            final(self)@.well_formed(),
    {
        let error: Option<String> = owned(error);
        let ghost rows = attempt_ended(
            self@.attempts,
            run@,
            task@,
            number,
            status@,
            optional(error),
            now,
        );
        proof {
            lemma_attempts_keep(self@, rows);
        }
        end_attempt_rows(
            &mut self.tables.attempts,
            &run.to_owned(),
            &task.to_owned(),
            number,
            status,
            &error,
            now,
        );
        assert(self@ =~= (DbModel { attempts: rows, ..old(self)@ }));
        if same(status, "success") {
            let patch = Patch {
                status: "success".to_owned(),
                error: None,
                counts: false,
                started: Stamp::Keep,
                finished: Some(now),
            };
            assert(patch@ =~= success_patch(now));
            self.patch(run, task, &patch);
            self.event(run, "task", success_event(task), now);
        }
        self.event(run, "attempt", attempt_event(task, number, status, &error), now);
    }

    /// Records a line that a task wrote.
    pub fn log(&mut self, run: &str, task: &str, attempt: i64, stream: &str, line: &str, now: i64)
        requires
            old(self)@.well_formed(),
            old(self)@.last_log < i64::MAX,
            old(self)@.room(1),
        ensures
            final(self)@ == old(self)@.log(run@, task@, attempt, stream@, line@, now),
            final(self)@.well_formed(),
    {
        proof {
            lemma_log_keeps(self@, run@, task@, attempt, stream@, line@, now);
        }
        let ghost before = self.tables.logs@;
        let id: i64 = self.tables.last_log + 1;
        self.tables.last_log = id;
        self.tables.logs.push(
            LogRow {
                run_id: run.to_owned(),
                log: LogLine {
                    id,
                    task_id: task.to_owned(),
                    attempt,
                    stream: stream.to_owned(),
                    line: line.to_owned(),
                    created_at: now,
                },
            },
        );
        assert(log_records(self.tables.logs@) =~= log_records(before).push(
            self.tables.logs@.last()@,
        ));
        assert(self@ =~= old(self)@.with_log(run@, task@, attempt, stream@, line@, now));
        self.event(run, "log", log_event(task, attempt, stream, line), now);
    }
}

/// The shape of a random identifier: hexadecimal digits in groups of eight,
/// four, four, four and twelve, with the version and the variant in their places.
pub open spec fn is_run_id(s: Seq<char>) -> bool {
    &&& s.len() == 36
    &&& forall|i: int|
        0 <= i < 36 ==> if i == 8 || i == 13 || i == 18 || i == 23 {
            #[trigger] s[i] == '-'
        } else {
            '0' <= s[i] <= '9' || 'a' <= s[i] <= 'f'
        }
    &&& s[14] == '4'
    &&& s[19] == '8' || s[19] == '9' || s[19] == 'a' || s[19] == 'b'
}

/// `uuid::Uuid::new_v4`, written out by its `Display`. The contract claims the
/// shape of the text, [`is_run_id`]; the random digits are left open. The call
/// panics only where the operating system yields no randomness.
#[verifier::external_body]
fn new_run_id() -> (id: String)
    ensures
        is_run_id(id@),
{
    uuid::Uuid::new_v4().to_string()
}

impl Db {
    /// Closes the attempts of a run that were cut short, and sets the tasks that
    /// were under way back to waiting, or to failed where their budget is spent.
    pub fn recover(&mut self, run: &str, workflow: &Workflow, now: i64) -> (r: Result<(), DbError>)
        requires
            old(self)@.well_formed(),
            old(self)@.room(workflow@.tasks.len() as int),
        ensures
            r == old(self)@.recovery(run@, workflow@),
            r is Ok ==> final(self)@ == old(self)@.recover(run@, workflow@, now),
            r is Err ==> final(self)@ == old(self)@,
            final(self)@.well_formed(),
    {
        if !self.covers(run, workflow) {
            return Err(DbError::NoSuchTask);
        }
        let key: String = run.to_owned();
        let ghost start = DbModel {
            attempts: attempts_interrupted(self@.attempts, run@, now),
            ..self@
        };
        proof {
            lemma_attempts_keep(self@, start.attempts);
        }
        interrupt_rows(&mut self.tables.attempts, &key, now);
        assert(self@ =~= start);
        let ghost tasks = workflow@.tasks;
        assert(old(self)@.tasks == start.tasks);
        let mut i: usize = 0;
        while i < workflow.tasks.len()
            invariant
                i <= workflow.tasks@.len(),
                key@ == run@,
                tasks == workflow@.tasks,
                old(self)@.covers(run@, workflow@),
                start.tasks == old(self)@.tasks,
                self@ == start.recover_tasks(run@, tasks, i as nat, now),
                self@.well_formed(),
                self@.last_event <= old(self)@.last_event + i,
                old(self)@.room(tasks.len() as int),
            decreases workflow.tasks@.len() - i,
        {
            let ghost t = tasks[i as int];
            assert(t == workflow.tasks@[i as int]@);
            proof {
                lemma_recover_covers(start, run@, tasks, i as nat, now, t.id);
                assert(old(self)@.task(run@, workflow@.tasks[i as int].id) is Some);
            }
            self.recover_task(&key, &workflow.tasks[i], now);
            i = i + 1;
        }
        Ok(())
    }

    fn recover_task(&mut self, run: &String, task: &Task, now: i64)
        requires
            old(self)@.well_formed(),
            old(self)@.room(1),
            old(self)@.task(run@, task@.id) is Some,
        ensures
            final(self)@ == old(self)@.recover_task(run@, task@, now),
            final(self)@.well_formed(),
            final(self)@.last_event <= old(self)@.last_event + 1,
    {
        let (attempts, interrupted, waiting) = match find_state(
            &self.tables.tasks,
            run,
            &task.id,
        ) {
            Some(t) => (
                t.attempts,
                same(t.status.as_str(), "running") || same(t.status.as_str(), "retrying") || same(
                    t.status.as_str(),
                    "queued",
                ),
                same(t.status.as_str(), "pending"),
            ),
            None => {
                return ;
            },
        };
        let spent: bool = task.spent(attempts);
        if interrupted || waiting && spent {
            let status: &str = if spent {
                "failed"
            } else {
                "pending"
            };
            let error: Option<String> = if spent {
                Some("budget de tentatives épuisé après interruption".to_owned())
            } else {
                Some("tentative interrompue, reprise autorisée".to_owned())
            };
            let patch = Patch {
                status: status.to_owned(),
                error: copy_optional(&error),
                counts: false,
                started: Stamp::Keep,
                finished: if spent {
                    Some(now)
                } else {
                    None
                },
            };
            assert(patch@ =~= recovery_patch(attempts as int, task@.budget(), now));
            self.patch(run.as_str(), task.id.as_str(), &patch);
            self.event(
                run.as_str(),
                "task",
                task_event(task.id.as_str(), status, &error),
                now,
            );
        }
    }

    /// Records a new run of a workflow under a fresh random identifier, which is
    /// returned.
    pub fn create_run(
        &mut self,
        workflow: &Workflow,
        source_dir: &str,
        max_parallel: usize,
        now: i64,
    ) -> (r: Result<String, DbError>)
        requires
            old(self)@.well_formed(),
            old(self)@.room(1),
        ensures
            match r {
                Ok(id) => {
                    &&& is_run_id(id@)
                    &&& !old(self)@.has_run(id@)
                    &&& workflow@.distinct()
                    &&& final(self)@ == old(self)@.create_run(
                        id@,
                        workflow@,
                        source_dir@,
                        max_parallel,
                        now,
                    )
                },
                Err(e) => {
                    &&& final(self)@ == old(self)@
                    &&& e == DbError::RunExists && (exists|i: int|
                        0 <= i < old(self)@.runs.len() && is_run_id(
                            #[trigger] old(self)@.runs[i].run.id,
                        )) || e == DbError::TaskExists && !workflow@.distinct()
                },
            },
            final(self)@.well_formed(),
    {
        let id: String = new_run_id();
        match self.create_run_as(id.as_str(), workflow, source_dir, max_parallel, now) {
            Ok(()) => Ok(id),
            Err(e) => Err(e),
        }
    }

    /// Records a new run of a workflow under the identifier `id`.
    pub fn create_run_as(
        &mut self,
        id: &str,
        workflow: &Workflow,
        source_dir: &str,
        max_parallel: usize,
        now: i64,
    ) -> (r: Result<(), DbError>)
        requires
            old(self)@.well_formed(),
            old(self)@.room(1),
        ensures
            r == old(self)@.creation(id@, workflow@),
            r is Ok ==> final(self)@ == old(self)@.create_run(
                id@,
                workflow@,
                source_dir@,
                max_parallel,
                now,
            ),
            r is Err ==> final(self)@ == old(self)@,
            final(self)@.well_formed(),
    {
        proof {
            lemma_run_found(self@.runs, id@);
        }
        let key: String = id.to_owned();
        if find_run(&self.tables.runs, &key).is_some() {
            return Err(DbError::RunExists);
        }
        if !workflow.has_distinct_tasks() {
            return Err(DbError::TaskExists);
        }
        proof {
            lemma_create_keeps(self@, id@, workflow@, source_dir@, max_parallel, now);
        }
        let ghost runs = self.tables.runs@;
        self.tables.runs.push(
            RunRow {
                run: RunSummary {
                    id: id.to_owned(),
                    name: workflow.name.clone(),
                    status: "pending".to_owned(),
                    created_at: now,
                    started_at: None,
                    finished_at: None,
                },
                workflow: workflow.clone(),
                source_dir: source_dir.to_owned(),
                max_parallel: max_parallel as i64,
            },
        );
        assert(run_records(self.tables.runs@) =~= run_records(runs).push(
            new_run(id@, workflow@, source_dir@, max_parallel, now),
        ));
        let mut rows: Vec<TaskRow> = pending_rows(&key, workflow);
        let ghost tasks = self.tables.tasks@;
        let ghost added = rows@;
        self.tables.tasks.append(&mut rows);
        assert(task_records(self.tables.tasks@) =~= task_records(tasks) + task_records(added));
        assert(self@ =~= (DbModel {
            runs: old(self)@.runs.push(
                new_run(id@, workflow@, source_dir@, max_parallel, now),
            ),
            tasks: old(self)@.tasks + new_tasks(id@, workflow@),
            ..old(self)@
        }));
        self.event(id, "run", run_event("pending"), now);
        Ok(())
    }
}

fn pending_rows(run: &String, workflow: &Workflow) -> (r: Vec<TaskRow>)
    ensures
        task_records(r@) == new_tasks(run@, workflow@),
{
    let mut r: Vec<TaskRow> = Vec::new();
    let mut i: usize = 0;
    while i < workflow.tasks.len()
        invariant
            i <= workflow.tasks@.len(),
            task_records(r@) == new_tasks(run@, workflow@).take(i as int),
        decreases workflow.tasks@.len() - i,
    {
        let ghost before = r@;
        r.push(
            TaskRow {
                run_id: run.clone(),
                task: TaskView {
                    id: workflow.tasks[i].id.clone(),
                    status: "pending".to_owned(),
                    attempts: 0,
                    started_at: None,
                    finished_at: None,
                    error: None,
                },
            },
        );
        assert(task_records(r@) =~= task_records(before).push(r@.last()@));
        assert(task_records(r@) =~= new_tasks(run@, workflow@).take(i + 1));
        i = i + 1;
    }
    assert(task_records(r@) =~= new_tasks(run@, workflow@));
    r
}

// ---------------------------------------------------------------------------
// Queries
// ---------------------------------------------------------------------------

fn select_tasks(rows: &Vec<TaskRow>, run: &String) -> (r: Vec<TaskView>)
    ensures
        task_states(r@) == tasks_of(task_records(rows@), run@),
{
    let mut r: Vec<TaskView> = Vec::new();
    let ghost all = task_records(rows@);
    let ghost p = |r: TaskRecord| r.run_id == run@;
    let ghost f = |r: TaskRecord| r.task;
    let mut i: usize = 0;
    proof {
        reveal(Seq::filter);
    }
    assert(task_states(r@) =~= tasks_of(all.take(0), run@));
    while i < rows.len()
        invariant
            i <= rows@.len(),
            all == task_records(rows@),
            p == (|r: TaskRecord| r.run_id == run@),
            f == (|r: TaskRecord| r.task),
            task_states(r@) == all.take(i as int).filter(p).map_values(f),
        decreases rows@.len() - i,
    {
        let ghost before = r@;
        let ghost row = rows@[i as int]@;
        assert(all.take(i + 1) =~= all.take(i as int).push(row));
        proof {
            all.take(i as int).lemma_filter_push(row, p);
        }
        if rows[i].run_id == *run {
            r.push(rows[i].task.clone());
            assert(task_states(r@) =~= task_states(before).push(row.task));
        }
        assert(task_states(r@) =~= all.take(i + 1).filter(p).map_values(f));
        i = i + 1;
    }
    assert(all.take(i as int) =~= all);
    r
}

fn select_attempts(rows: &Vec<AttemptRow>, run: &String) -> (r: Vec<AttemptView>)
    ensures
        attempt_models(r@) == attempts_of(attempt_records(rows@), run@),
{
    let mut r: Vec<AttemptView> = Vec::new();
    let ghost all = attempt_records(rows@);
    let ghost p = |r: AttemptRecord| r.run_id == run@;
    let ghost f = |r: AttemptRecord| r.attempt;
    let mut i: usize = 0;
    proof {
        reveal(Seq::filter);
    }
    assert(attempt_models(r@) =~= attempts_of(all.take(0), run@));
    while i < rows.len()
        invariant
            i <= rows@.len(),
            all == attempt_records(rows@),
            p == (|r: AttemptRecord| r.run_id == run@),
            f == (|r: AttemptRecord| r.attempt),
            attempt_models(r@) == all.take(i as int).filter(p).map_values(f),
        decreases rows@.len() - i,
    {
        let ghost before = r@;
        let ghost row = rows@[i as int]@;
        assert(all.take(i + 1) =~= all.take(i as int).push(row));
        proof {
            all.take(i as int).lemma_filter_push(row, p);
        }
        if rows[i].run_id == *run {
            r.push(rows[i].attempt.clone());
            assert(attempt_models(r@) =~= attempt_models(before).push(row.attempt));
        }
        assert(attempt_models(r@) =~= all.take(i + 1).filter(p).map_values(f));
        i = i + 1;
    }
    assert(all.take(i as int) =~= all);
    r
}

/// Puts a run into a list that stands newest first.
fn insert_newest(list: &mut Vec<RunSummary>, run: RunSummary)
    requires
        newest_first(summary_models(old(list)@)),
    ensures
        newest_first(summary_models(final(list)@)),
        summary_models(final(list)@).to_multiset() == summary_models(
            old(list)@,
        ).to_multiset().insert(run@),
        final(list)@.len() == old(list)@.len() + 1,
{
    let ghost before = list@;
    let ghost s = summary_models(before);
    let mut k: usize = list.len();
    while k > 0 && list[k - 1].created_at < run.created_at
        invariant
            k <= list@.len(),
            list@ == before,
            s == summary_models(before),
            forall|j: int| k <= j < list@.len() ==> (#[trigger] s[j]).created_at < run.created_at,
        decreases k,
    {
        assert(s[k - 1] == before[k - 1]@);
        k = k - 1;
    }
    proof {
        if k > 0 {
            assert(s[k - 1] == before[k - 1]@);
        }
        to_multiset_insert(s, k as int, run@);
    }
    let ghost added = run@;
    list.insert(k, run);
    let ghost longer = s.insert(k as int, added);
    assert(summary_models(list@) =~= longer);
    assert forall|i: int, j: int| 0 <= i < j < longer.len() implies #[trigger] longer[i].created_at
        >= #[trigger] longer[j].created_at by {
        let a = if i < k {
            i
        } else {
            i - 1
        };
        let b = if j < k {
            j
        } else {
            j - 1
        };
        if i == k {
            assert(longer[j] == s[b]);
        } else if j == k {
            assert(longer[i] == s[i]);
            assert(s[i].created_at >= s[k - 1].created_at);
        } else {
            assert(longer[i] == s[a] && longer[j] == s[b]);
            assert(s[a].created_at >= s[b].created_at);
        }
    }
}

impl Db {
    /// The hundred newest runs, newest first.
    pub fn list_runs(&self) -> (r: Vec<RunSummary>)
        ensures
            exists|s: Seq<RunModel>|
                is_listing(s, self@.runs) && summary_models(r@) == recent(s),
    {
        let rows = &self.tables.runs;
        let ghost all = self@.runs;
        let ghost f = |r: RunRecord| r.run;
        let mut list: Vec<RunSummary> = Vec::new();
        assert(summary_models(list@) =~= all.take(0).map_values(f));
        let mut i: usize = 0;
        while i < rows.len()
            invariant
                i <= rows@.len(),
                rows == self.tables.runs,
                all == run_records(rows@),
                f == (|r: RunRecord| r.run),
                newest_first(summary_models(list@)),
                summary_models(list@).to_multiset() == all.take(i as int).map_values(
                    f,
                ).to_multiset(),
            decreases rows@.len() - i,
        {
            let ghost row = rows@[i as int]@;
            insert_newest(&mut list, rows[i].run.clone());
            assert(all.take(i + 1).map_values(f) =~= all.take(i as int).map_values(f).push(
                row.run,
            ));
            proof {
                to_multiset_build(all.take(i as int).map_values(f), row.run);
            }
            i = i + 1;
        }
        assert(all.take(i as int) =~= all);
        let ghost s = summary_models(list@);
        assert(is_listing(s, self@.runs));
        if list.len() > 100 {
            list.truncate(100);
        }
        assert(summary_models(list@) =~= recent(s));
        list
    }

    /// A run with its workflow, its tasks and their attempts, if it is recorded.
    pub fn detail(&self, id: &str) -> (r: Option<RunDetail>)
        ensures
            self@.detail(id@) == match r {
                Some(d) => Some(d@),
                None => None,
            },
    {
        let key: String = id.to_owned();
        match find_run(&self.tables.runs, &key) {
            Some(row) => {
                let d = RunDetail {
                    run: row.run.clone(),
                    workflow: row.workflow.clone(),
                    source_dir: row.source_dir.clone(),
                    max_parallel: row.max_parallel,
                    tasks: select_tasks(&self.tables.tasks, &key),
                    attempts: select_attempts(&self.tables.attempts, &key),
                };
                assert(d@ =~= self@.detail(id@)->0);
                Some(d)
            },
            None => None,
        }
    }

    /// The state of a task of a run, if it is recorded.
    pub fn task(&self, run: &str, task: &str) -> (r: Option<&TaskView>)
        ensures
            self@.task(run@, task@) == match r {
                Some(t) => Some(t@),
                None => None,
            },
    {
        find_state(&self.tables.tasks, &run.to_owned(), &task.to_owned())
    }

    /// The tasks of a run.
    pub fn tasks(&self, run: &str) -> (r: Vec<TaskView>)
        ensures
            task_states(r@) == tasks_of(self@.tasks, run@),
    {
        select_tasks(&self.tables.tasks, &run.to_owned())
    }

    /// The log lines of a run, or of one of its tasks, in the order of their
    /// identifiers.
    pub fn logs(&self, run: &str, task: Option<&str>) -> (r: Vec<LogLine>)
        requires
            self@.well_formed(),
        ensures
            log_models(r@) == logs_of(self@.logs, run@, optional_slice(task)),
            forall|i: int, j: int|
                0 <= i < j < r@.len() ==> (#[trigger] r@[i]).id < (#[trigger] r@[j]).id,
    {
        let rows = &self.tables.logs;
        let key: String = run.to_owned();
        let only: Option<String> = owned(task);
        let mut r: Vec<LogLine> = Vec::new();
        let ghost all = self@.logs;
        let ghost wanted = optional_slice(task);
        let ghost p = |r: LogRecord|
            r.run_id == run@ && (wanted is None || wanted == Some(r.log.task_id));
        let ghost f = |r: LogRecord| r.log;
        let mut i: usize = 0;
        proof {
            reveal(Seq::filter);
        }
        assert(log_models(r@) =~= all.take(0).filter(p).map_values(f));
        while i < rows.len()
            invariant
                i <= rows@.len(),
                rows == self.tables.logs,
                all == log_records(rows@),
                all == self@.logs,
                self@.numbered(),
                key@ == run@,
                optional(only) == wanted,
                p == (|r: LogRecord|
                    r.run_id == run@ && (wanted is None || wanted == Some(r.log.task_id))),
                f == (|r: LogRecord| r.log),
                log_models(r@) == all.take(i as int).filter(p).map_values(f),
                forall|k: int, l: int|
                    0 <= k < l < r@.len() ==> (#[trigger] r@[k]).id < (#[trigger] r@[l]).id,
                forall|k: int|
                    0 <= k < r@.len() ==> (i > 0 && (#[trigger] r@[k]).id <= all[i - 1].log.id),
            decreases rows@.len() - i,
        {
            let ghost before = r@;
            let ghost row = rows@[i as int]@;
            assert(row == all[i as int]);
            assert(all.take(i + 1) =~= all.take(i as int).push(row));
            proof {
                all.take(i as int).lemma_filter_push(row, p);
            }
            let wants: bool = match &only {
                Some(t) => rows[i].log.task_id == *t,
                None => true,
            };
            if rows[i].run_id == key && wants {
                r.push(rows[i].log.clone());
                assert(log_models(r@) =~= log_models(before).push(row.log));
            }
            assert(log_models(r@) =~= all.take(i + 1).filter(p).map_values(f));
            i = i + 1;
        }
        assert(all.take(i as int) =~= all);
        assert(logs_of(self@.logs, run@, wanted) =~= all.filter(p).map_values(f));
        r
    }

    /// The first two hundred events of a run behind the identifier `after`, in
    /// the order of their identifiers.
    pub fn events_after(&self, run: &str, after: i64) -> (r: Vec<EventRow>)
        requires
            self@.well_formed(),
        ensures
            event_models(r@) == batch(events_of(self@.events, run@, after as int)),
            forall|i: int, j: int|
                0 <= i < j < r@.len() ==> (#[trigger] r@[i]).id < (#[trigger] r@[j]).id,
    {
        let rows = &self.tables.events;
        let key: String = run.to_owned();
        let mut r: Vec<EventRow> = Vec::new();
        let ghost all = self@.events;
        let ghost p = |e: EventModel| e.run_id == run@ && e.id > after;
        let mut i: usize = 0;
        proof {
            reveal(Seq::filter);
        }
        assert(event_models(r@) =~= all.take(0).filter(p));
        while i < rows.len()
            invariant
                i <= rows@.len(),
                rows == self.tables.events,
                all == event_models(rows@),
                all == self@.events,
                self@.numbered(),
                key@ == run@,
                p == (|e: EventModel| e.run_id == run@ && e.id > after),
                event_models(r@) == all.take(i as int).filter(p),
                forall|k: int, l: int|
                    0 <= k < l < r@.len() ==> (#[trigger] r@[k]).id < (#[trigger] r@[l]).id,
                forall|k: int|
                    0 <= k < r@.len() ==> (i > 0 && (#[trigger] r@[k]).id <= all[i - 1].id),
            decreases rows@.len() - i,
        {
            let ghost before = r@;
            let ghost row = rows@[i as int]@;
            assert(row == all[i as int]);
            assert(all.take(i + 1) =~= all.take(i as int).push(row));
            proof {
                all.take(i as int).lemma_filter_push(row, p);
            }
            if rows[i].run_id == key && rows[i].id > after {
                r.push(rows[i].clone());
                assert(event_models(r@) =~= event_models(before).push(row));
            }
            i = i + 1;
        }
        assert(all.take(i as int) =~= all);
        assert(events_of(self@.events, run@, after as int) =~= all.filter(p));
        let ghost found = event_models(r@);
        if r.len() > 200 {
            r.truncate(200);
        }
        assert(event_models(r@) =~= first(found, 200));
        r
    }
}

// ---------------------------------------------------------------------------
// Loading
// ---------------------------------------------------------------------------

impl Tables {
    fn runs_fit(&self) -> (b: bool)
        ensures
            b <==> forall|i: int, j: int|
                0 <= i < j < self@.runs.len() ==> #[trigger] self@.runs[i].run.id
                    != #[trigger] self@.runs[j].run.id,
    {
        let ghost all = self@.runs;
        let mut j: usize = 0;
        while j < self.runs.len()
            invariant
                j <= self.runs@.len(),
                all == self@.runs,
                forall|i: int, k: int|
                    0 <= i < k < j ==> #[trigger] all[i].run.id != #[trigger] all[k].run.id,
            decreases self.runs@.len() - j,
        {
            assert(all[j as int] == self.runs@[j as int]@);
            let mut i: usize = 0;
            while i < j
                invariant
                    i <= j < self.runs@.len(),
                    all == self@.runs,
                    all[j as int] == self.runs@[j as int]@,
                    forall|k: int| 0 <= k < i ==> #[trigger] all[k].run.id != all[j as int].run.id,
                decreases j - i,
            {
                assert(all[i as int] == self.runs@[i as int]@);
                if self.runs[i].run.id == self.runs[j].run.id {
                    assert(all[i as int].run.id == all[j as int].run.id);
                    return false;
                }
                i = i + 1;
            }
            j = j + 1;
        }
        true
    }

    fn tasks_fit(&self) -> (b: bool)
        ensures
            b <==> forall|i: int, j: int|
                0 <= i < j < self@.tasks.len() ==> !is_task(
                    #[trigger] self@.tasks[i],
                    (#[trigger] self@.tasks[j]).run_id,
                    self@.tasks[j].task.id,
                ),
    {
        let ghost all = self@.tasks;
        let mut j: usize = 0;
        while j < self.tasks.len()
            invariant
                j <= self.tasks@.len(),
                all == self@.tasks,
                forall|i: int, k: int|
                    0 <= i < k < j ==> !is_task(
                        #[trigger] all[i],
                        (#[trigger] all[k]).run_id,
                        all[k].task.id,
                    ),
            decreases self.tasks@.len() - j,
        {
            assert(all[j as int] == self.tasks@[j as int]@);
            let mut i: usize = 0;
            while i < j
                invariant
                    i <= j < self.tasks@.len(),
                    all == self@.tasks,
                    all[j as int] == self.tasks@[j as int]@,
                    forall|k: int|
                        0 <= k < i ==> !is_task(
                            #[trigger] all[k],
                            all[j as int].run_id,
                            all[j as int].task.id,
                        ),
                decreases j - i,
            {
                assert(all[i as int] == self.tasks@[i as int]@);
                if self.tasks[i].run_id == self.tasks[j].run_id && self.tasks[i].task.id
                    == self.tasks[j].task.id {
                    assert(is_task(all[i as int], all[j as int].run_id, all[j as int].task.id));
                    return false;
                }
                i = i + 1;
            }
            j = j + 1;
        }
        true
    }

    fn attempts_fit(&self) -> (b: bool)
        ensures
            b <==> forall|i: int, j: int|
                0 <= i < j < self@.attempts.len() ==> !is_attempt(
                    #[trigger] self@.attempts[i],
                    (#[trigger] self@.attempts[j]).run_id,
                    self@.attempts[j].attempt.task_id,
                    self@.attempts[j].attempt.number,
                ),
    {
        let ghost all = self@.attempts;
        let mut j: usize = 0;
        while j < self.attempts.len()
            invariant
                j <= self.attempts@.len(),
                all == self@.attempts,
                forall|i: int, k: int|
                    0 <= i < k < j ==> !is_attempt(
                        #[trigger] all[i],
                        (#[trigger] all[k]).run_id,
                        all[k].attempt.task_id,
                        all[k].attempt.number,
                    ),
            decreases self.attempts@.len() - j,
        {
            let ghost last = all[j as int];
            assert(last == self.attempts@[j as int]@);
            let mut i: usize = 0;
            while i < j
                invariant
                    i <= j < self.attempts@.len(),
                    all == self@.attempts,
                    last == all[j as int],
                    last == self.attempts@[j as int]@,
                    forall|k: int|
                        0 <= k < i ==> !is_attempt(
                            #[trigger] all[k],
                            last.run_id,
                            last.attempt.task_id,
                            last.attempt.number,
                        ),
                decreases j - i,
            {
                assert(all[i as int] == self.attempts@[i as int]@);
                if self.attempts[i].run_id == self.attempts[j].run_id
                    && self.attempts[i].attempt.task_id == self.attempts[j].attempt.task_id
                    && self.attempts[i].attempt.number == self.attempts[j].attempt.number {
                    assert(is_attempt(
                        all[i as int],
                        last.run_id,
                        last.attempt.task_id,
                        last.attempt.number,
                    ));
                    return false;
                }
                i = i + 1;
            }
            j = j + 1;
        }
        true
    }

    fn tasks_owned(&self) -> (b: bool)
        ensures
            b <==> forall|i: int|
                0 <= i < self@.tasks.len() ==> self@.has_run((#[trigger] self@.tasks[i]).run_id),
    {
        let mut i: usize = 0;
        while i < self.tasks.len()
            invariant
                i <= self.tasks@.len(),
                forall|k: int|
                    0 <= k < i ==> self@.has_run((#[trigger] self@.tasks[k]).run_id),
            decreases self.tasks@.len() - i,
        {
            assert(self@.tasks[i as int] == self.tasks@[i as int]@);
            proof {
                lemma_run_found(self@.runs, self.tasks@[i as int].run_id@);
            }
            if find_run(&self.runs, &self.tasks[i].run_id).is_none() {
                assert(!self@.has_run(self@.tasks[i as int].run_id));
                return false;
            }
            i = i + 1;
        }
        true
    }

    fn logs_numbered(&self) -> (b: bool)
        ensures
            b <==> {
                &&& forall|i: int, j: int|
                    0 <= i < j < self@.logs.len() ==> #[trigger] self@.logs[i].log.id
                        < #[trigger] self@.logs[j].log.id
                &&& forall|i: int|
                    0 <= i < self@.logs.len() ==> 0 < #[trigger] self@.logs[i].log.id
                        <= self@.last_log
                &&& 0 <= self@.last_log
            },
    {
        if self.last_log < 0 {
            return false;
        }
        let ghost all = self@.logs;
        let mut i: usize = 0;
        while i < self.logs.len()
            invariant
                i <= self.logs@.len(),
                all == self@.logs,
                forall|k: int, l: int|
                    0 <= k < l < i ==> #[trigger] all[k].log.id < #[trigger] all[l].log.id,
                forall|k: int| 0 <= k < i ==> 0 < #[trigger] all[k].log.id <= self@.last_log,
            decreases self.logs@.len() - i,
        {
            assert(all[i as int] == self.logs@[i as int]@);
            if i > 0 {
                assert(all[i - 1] == self.logs@[i - 1]@);
                if self.logs[i - 1].log.id >= self.logs[i].log.id {
                    assert(all[i - 1].log.id >= all[i as int].log.id);
                    return false;
                }
            }
            if self.logs[i].log.id <= 0 || self.logs[i].log.id > self.last_log {
                assert(!(0 < all[i as int].log.id <= self@.last_log));
                return false;
            }
            i = i + 1;
        }
        true
    }

    fn events_numbered(&self) -> (b: bool)
        ensures
            b <==> {
                &&& forall|i: int, j: int|
                    0 <= i < j < self@.events.len() ==> #[trigger] self@.events[i].id
                        < #[trigger] self@.events[j].id
                &&& forall|i: int|
                    0 <= i < self@.events.len() ==> 0 < #[trigger] self@.events[i].id
                        <= self@.last_event
                &&& 0 <= self@.last_event
            },
    {
        if self.last_event < 0 {
            return false;
        }
        let ghost all = self@.events;
        let mut i: usize = 0;
        while i < self.events.len()
            invariant
                i <= self.events@.len(),
                all == self@.events,
                forall|k: int, l: int|
                    0 <= k < l < i ==> #[trigger] all[k].id < #[trigger] all[l].id,
                forall|k: int| 0 <= k < i ==> 0 < #[trigger] all[k].id <= self@.last_event,
            decreases self.events@.len() - i,
        {
            assert(all[i as int] == self.events@[i as int]@);
            if i > 0 {
                assert(all[i - 1] == self.events@[i - 1]@);
                if self.events[i - 1].id >= self.events[i].id {
                    assert(all[i - 1].id >= all[i as int].id);
                    return false;
                }
            }
            if self.events[i].id <= 0 || self.events[i].id > self.last_event {
                assert(!(0 < all[i as int].id <= self@.last_event));
                return false;
            }
            i = i + 1;
        }
        true
    }
}

impl Db {
    /// A record that holds these rows, if they fit together.
    pub fn load(tables: Tables) -> (r: Result<Db, DbError>)
        ensures
            match r {
                Ok(d) => tables@.well_formed() && d@ == tables@,
                Err(e) => !tables@.well_formed() && e == DbError::Inconsistent,
            },
    {
        if tables.runs_fit() && tables.tasks_fit() && tables.attempts_fit() && tables.tasks_owned()
            && tables.logs_numbered() && tables.events_numbered() {
            Ok(Db { tables })
        } else {
            Err(DbError::Inconsistent)
        }
    }
}

} // verus!
