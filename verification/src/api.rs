//! The answers of the read-only interface.

use crate::db::{Db, EventRow, LogLine, RunDetail, TaskView};
use crate::json::{field_models, json_object, object_text, text, text_field, Field};
use crate::model::{batch, events_of, logs_of, DbModel};
use crate::records::{event_models, log_models, task_states, EventModel, TaskState};
use crate::text::{
    decimal, integer_value, law_decimals_read_back, optional_slice, parse_integer, same,
};
use std::collections::VecDeque;
use vstd::prelude::*;

verus! {

/// A refused request: an HTTP status and a message.
#[derive(Debug)]
pub struct Failure {
    pub status: u16,
    pub message: String,
}

/// The mathematical reading of a [`Failure`].
#[verifier::ext_equal]
pub struct FailureModel {
    pub status: u16,
    pub message: Seq<char>,
}

impl View for Failure {
    type V = FailureModel;

    open spec fn view(&self) -> FailureModel {
        FailureModel { status: self.status, message: self.message@ }
    }
}

/// The answer where the run is not recorded.
pub open spec fn unknown_run() -> FailureModel {
    FailureModel { status: 404, message: "exécution inconnue"@ }
}

/// The answer where the run has no such task.
pub open spec fn unknown_task() -> FailureModel {
    FailureModel { status: 404, message: "tâche inconnue"@ }
}

impl Failure {
    /// What went wrong inside.
    pub fn internal(message: &str) -> (f: Failure)
        ensures
            f@ == (FailureModel { status: 500, message: message@ }),
    {
        Failure { status: 500, message: message.to_owned() }
    }

    fn not_found(message: &str) -> (f: Failure)
        ensures
            f@ == (FailureModel { status: 404, message: message@ }),
    {
        Failure { status: 404, message: message.to_owned() }
    }

    /// The body of the answer: an object with the message under `error`.
    pub fn body(&self) -> (r: String)
        ensures
            r@ == json_object(seq![text_field("error"@, self@.message)]),
    {
        let mut fields: Vec<Field> = Vec::new();
        fields.push(text("error", self.message.as_str()));
        assert(field_models(fields@) =~= seq![text_field("error"@, self@.message)]);
        object_text(&fields)
    }
}

/// A run with its workflow, tasks and attempts.
pub fn detail(db: &Db, id: &str) -> (r: Result<RunDetail, Failure>)
    ensures
        match (db@.detail(id@), r) {
            (Some(d), Ok(found)) => found@ == d,
            (None, Err(f)) => f@ == unknown_run(),
            _ => false,
        },
{
    match db.detail(id) {
        Some(d) => Ok(d),
        None => Err(Failure::not_found("exécution inconnue")),
    }
}

/// The tasks of a run.
pub fn tasks(db: &Db, id: &str) -> (r: Result<Vec<TaskView>, Failure>)
    ensures
        match (db@.detail(id@), r) {
            (Some(d), Ok(found)) => task_states(found@) == d.tasks,
            (None, Err(f)) => f@ == unknown_run(),
            _ => false,
        },
{
    match detail(db, id) {
        Ok(d) => Ok(d.tasks),
        Err(f) => Err(f),
    }
}

/// The log lines of a run.
pub fn logs(db: &Db, id: &str) -> (r: Result<Vec<LogLine>, Failure>)
    requires
        db@.well_formed(),
    ensures
        match (db@.detail(id@), r) {
            (Some(_), Ok(found)) => log_models(found@) == logs_of(db@.logs, id@, None),
            (None, Err(f)) => f@ == unknown_run(),
            _ => false,
        },
{
    match detail(db, id) {
        Ok(_) => Ok(db.logs(id, None)),
        Err(f) => Err(f),
    }
}

/// The run has a task with this identifier.
pub open spec fn lists(tasks: Seq<TaskState>, id: Seq<char>) -> bool {
    exists|i: int| 0 <= i < tasks.len() && #[trigger] tasks[i].id == id
}

fn has_task(tasks: &Vec<TaskView>, id: &str) -> (b: bool)
    ensures
        b == lists(task_states(tasks@), id@),
{
    let ghost states = task_states(tasks@);
    let mut i: usize = 0;
    while i < tasks.len()
        invariant
            i <= tasks@.len(),
            states == task_states(tasks@),
            forall|j: int| 0 <= j < i ==> #[trigger] states[j].id != id@,
        decreases tasks@.len() - i,
    {
        assert(states[i as int].id == tasks@[i as int].id@);
        if same(tasks[i].id.as_str(), id) {
            return true;
        }
        i = i + 1;
    }
    false
}

/// The log lines of one task of a run.
pub fn task_logs(db: &Db, id: &str, task: &str) -> (r: Result<Vec<LogLine>, Failure>)
    requires
        db@.well_formed(),
    ensures
        match (db@.detail(id@), r) {
            (Some(d), Ok(found)) => lists(d.tasks, task@) && log_models(found@) == logs_of(
                db@.logs,
                id@,
                Some(task@),
            ),
            (Some(d), Err(f)) => !lists(d.tasks, task@) && f@ == unknown_task(),
            (None, Err(f)) => f@ == unknown_run(),
            (None, Ok(_)) => false,
        },
{
    let run: RunDetail = match detail(db, id) {
        Ok(d) => d,
        Err(f) => {
            return Err(f);
        },
    };
    if !has_task(&run.tasks, task) {
        return Err(Failure::not_found("tâche inconnue"));
    }
    Ok(db.logs(id, Some(task)))
}

// ---------------------------------------------------------------------------
// Events
// ---------------------------------------------------------------------------

/// How long to wait for new events, in milliseconds.
pub const POLL_DELAY: u64 = 500;

/// How long to wait once reading events has failed, in milliseconds.
pub const ERROR_DELAY: u64 = 1000;

/// A reader of the events of a run.
pub struct EventFeed {
    run: String,
    cursor: i64,
    pending: VecDeque<EventRow>,
}

/// The mathematical reading of an [`EventFeed`].
#[verifier::ext_equal]
pub struct FeedModel {
    /// The run.
    pub run: Seq<char>,
    /// The last event that was delivered.
    pub cursor: i64,
    /// The events that were read and not delivered.
    pub pending: Seq<EventModel>,
}

impl View for EventFeed {
    type V = FeedModel;

    closed spec fn view(&self) -> FeedModel {
        FeedModel {
            run: self.run@,
            cursor: self.cursor,
            pending: event_models(self.pending@),
        }
    }
}

/// Where a reader starts: behind the event that it names, or at the beginning
/// where it names none.
pub open spec fn start_of(last: Option<Seq<char>>) -> i64 {
    match last {
        Some(s) => match integer_value(s) {
            Some(v) => if i64::MIN <= v <= i64::MAX {
                v as i64
            } else {
                0
            },
            None => 0,
        },
        None => 0,
    }
}

impl FeedModel {
    /// The events that are ready: those read before or, where there are none,
    /// those that are read now.
    pub open spec fn ready(self, m: DbModel) -> Seq<EventModel> {
        if self.pending.len() > 0 {
            self.pending
        } else {
            batch(events_of(m.events, self.run, self.cursor as int))
        }
    }

    /// The reader after [`EventFeed::next`].
    pub open spec fn next(self, m: DbModel) -> FeedModel {
        let events = self.ready(m);
        if events.len() > 0 {
            FeedModel { cursor: events[0].id, pending: events.drop_first(), ..self }
        } else {
            self
        }
    }
}

impl EventFeed {
    /// Starts to read the events of a run, behind the event whose identifier the
    /// reader gives as the last it has seen.
    pub fn open(db: &Db, id: &str, last: Option<&str>) -> (r: Result<EventFeed, Failure>)
        ensures
            match (db@.detail(id@), r) {
                (Some(_), Ok(f)) => f@ == (FeedModel {
                    run: id@,
                    cursor: start_of(optional_slice(last)),
                    pending: Seq::empty(),
                }),
                (None, Err(f)) => f@ == unknown_run(),
                _ => false,
            },
    {
        match detail(db, id) {
            Ok(_) => {
                let cursor: i64 = match last {
                    Some(s) => match parse_integer(s) {
                        Some(v) => v,
                        None => 0,
                    },
                    None => 0,
                };
                let f = EventFeed { run: id.to_owned(), cursor, pending: VecDeque::new() };
                assert(f@ =~= (FeedModel {
                    run: id@,
                    cursor: start_of(optional_slice(last)),
                    pending: Seq::empty(),
                }));
                Ok(f)
            },
            Err(f) => Err(f),
        }
    }

    /// The last event that was delivered.
    pub fn cursor(&self) -> (r: i64)
        ensures
            r == self@.cursor,
    {
        self.cursor
    }

    /// Tells whether all that was read has been delivered.
    pub fn is_drained(&self) -> (b: bool)
        ensures
            b == (self@.pending.len() == 0),
    {
        self.pending.len() == 0
    }

    /// The next event, or `None` where the reader has to wait for
    /// [`POLL_DELAY`].
    pub fn next(&mut self, db: &Db) -> (r: Option<EventRow>)
        requires
            db@.well_formed(),
        ensures
            final(self)@ == old(self)@.next(db@),
            match r {
                Some(row) => old(self)@.ready(db@).len() > 0 && row@ == old(self)@.ready(db@)[0],
                None => old(self)@.ready(db@).len() == 0,
            },
    {
        if self.pending.len() == 0 {
            let rows: Vec<EventRow> = db.events_after(self.run.as_str(), self.cursor);
            self.refill(rows);
        }
        let ghost events = self@.pending;
        assert(events == old(self)@.ready(db@));
        match self.pending.pop_front() {
            Some(row) => {
                assert(row@ == events[0]);
                self.cursor = row.id;
                assert(self@ =~= old(self)@.next(db@));
                Some(row)
            },
            None => {
                assert(self@ =~= old(self)@.next(db@));
                None
            },
        }
    }

    fn refill(&mut self, rows: Vec<EventRow>)
        requires
            old(self)@.pending.len() == 0,
        ensures
            final(self)@ == (FeedModel { pending: event_models(rows@), ..old(self)@ }),
    {
        let ghost all = rows@;
        let mut i: usize = 0;
        assert(event_models(self.pending@) =~= event_models(all.take(0)));
        while i < rows.len()
            invariant
                i <= rows@.len(),
                all == rows@,
                self.run == old(self).run,
                self.cursor == old(self).cursor,
                event_models(self.pending@) == event_models(all.take(i as int)),
            decreases rows@.len() - i,
        {
            let ghost before = self.pending@;
            self.pending.push_back(rows[i].clone());
            assert(event_models(self.pending@) =~= event_models(before).push(all[i as int]@));
            assert(event_models(all.take(i + 1)) =~= event_models(all.take(i as int)).push(
                all[i as int]@,
            ));
            i = i + 1;
        }
        assert(all.take(i as int) =~= all);
        assert(self@ =~= (FeedModel { pending: event_models(rows@), ..old(self)@ }));
    }
}

impl FeedModel {
    /// The events that are due: those of the run behind the last delivered.
    pub open spec fn due(self, m: DbModel) -> Seq<EventModel> {
        events_of(m.events, self.run, self.cursor as int)
    }

    /// What was read and not delivered comes first among what is due.
    pub open spec fn sound(self, m: DbModel) -> bool {
        self.pending.is_prefix_of(self.due(m))
    }
}

proof fn lemma_next_due(s: Seq<EventModel>, run: Seq<char>, after: int)
    requires
        forall|i: int, j: int|
            0 <= i < j < s.len() ==> (#[trigger] s[i]).id < (#[trigger] s[j]).id,
        events_of(s, run, after).len() > 0,
    ensures
        s.contains(events_of(s, run, after)[0]),
        events_of(s, run, events_of(s, run, after)[0].id as int) == events_of(
            s,
            run,
            after,
        ).drop_first(),
    decreases s.len(),
{
    reveal(Seq::filter);
    let p = |e: EventModel| e.run_id == run && e.id > after;
    let head = s.drop_last();
    let x = s.last();
    let due = events_of(s, run, after);
    let before = events_of(head, run, after);
    let e = due[0];
    let q = |f: EventModel| f.run_id == run && f.id > e.id;
    assert(s.contains(s[s.len() - 1]));
    if before.len() > 0 {
        lemma_next_due(head, run, after);
        assert(e == before[0]);
        let k = choose|k: int| 0 <= k < head.len() && head[k] == e;
        assert(s[k] == e);
        assert(s[k].id < s[s.len() - 1].id);
        head.lemma_filter_pred(p, 0);
        if p(x) {
            assert(due =~= before.push(x));
            assert(events_of(s, run, e.id as int) =~= events_of(head, run, e.id as int).push(x));
            assert(due.drop_first() =~= before.drop_first().push(x));
        }
    } else {
        assert(due =~= seq![x]);
        let rest = head.filter(q);
        if rest.len() > 0 {
            head.lemma_filter_pred(q, 0);
            assert(rest.contains(rest[0]));
            head.lemma_filter_contains_rev(q, rest[0]);
            let k = choose|k: int| 0 <= k < head.len() && head[k] == rest[0];
            assert(s[k].id < s[s.len() - 1].id);
        }
        assert(events_of(s, run, e.id as int) =~= due.drop_first());
    }
}

/// A reader gets each event once and in order: the event that it is given is the
/// first that is due, and afterwards exactly the others are due. It waits only
/// where nothing is due.
pub proof fn law_feed_delivers_each_event_once(f: FeedModel, m: DbModel)
    requires
        m.well_formed(),
        f.sound(m),
    ensures
        f.ready(m).len() > 0 <==> f.due(m).len() > 0,
        f.next(m).sound(m),
        f.due(m).len() > 0 ==> f.ready(m)[0] == f.due(m)[0] && f.next(m).due(m)
            == f.due(m).drop_first(),
{
    if f.due(m).len() > 0 {
        lemma_next_due(m.events, f.run, f.cursor as int);
        let events = f.ready(m);
        assert(events.is_prefix_of(f.due(m)));
        assert(events[0] == f.due(m)[0]);
        assert(f.next(m).pending.is_prefix_of(f.due(m).drop_first()));
    }
}

/// New events join the end of what is due, and take nothing away from it.
pub proof fn law_feed_sees_new_events(f: FeedModel, m: DbModel, after: DbModel)
    requires
        f.sound(m),
        m.events.is_prefix_of(after.events),
    ensures
        f.due(m).is_prefix_of(f.due(after)),
        f.sound(after),
{
    let p = |e: EventModel| e.run_id == f.run && e.id > f.cursor;
    let added = after.events.skip(m.events.len() as int);
    assert(after.events =~= m.events + added);
    Seq::filter_distributes_over_add(m.events, added, p);
    assert(f.due(m) == m.events.filter(p));
    assert(f.due(after) == after.events.filter(p));
}

/// A reader that names the last event it has seen, in base ten, goes on behind it,
/// whatever its number; so does one that writes the number in any other way. A
/// reader that names none, or what is no number of an event, starts at the
/// beginning.
pub proof fn law_readers_start_behind_the_event_they_name(n: i64, s: Seq<char>)
    ensures
        start_of(Some(decimal(n as int))) == n,
        start_of(None) == 0,
        integer_value(s) is None ==> start_of(Some(s)) == 0,
        integer_value(s) matches Some(v) ==> {
            &&& i64::MIN <= v <= i64::MAX ==> start_of(Some(s)) == v
            &&& v < i64::MIN || i64::MAX < v ==> start_of(Some(s)) == 0
        },
{
    law_decimals_read_back(n as int);
}

/// What is due to a reader: the events of its run behind the last that it was
/// given, all of them and no others, in the order of their identifiers.
pub proof fn law_what_is_due(f: FeedModel, m: DbModel)
    requires
        m.well_formed(),
    ensures
        forall|i: int|
            0 <= i < f.due(m).len() ==> {
                let e = #[trigger] f.due(m)[i];
                m.events.contains(e) && e.run_id == f.run && e.id > f.cursor
            },
        forall|j: int|
            0 <= j < m.events.len() && (#[trigger] m.events[j]).run_id == f.run && m.events[j].id
                > f.cursor ==> f.due(m).contains(m.events[j]),
        forall|i: int, j: int|
            0 <= i < j < f.due(m).len() ==> (#[trigger] f.due(m)[i]).id < (#[trigger] f.due(
                m,
            )[j]).id,
{
    let p = |e: EventModel| e.run_id == f.run && e.id > f.cursor;
    let due = f.due(m);
    assert(due == m.events.filter(p));
    assert forall|i: int| 0 <= i < due.len() implies {
        let e = #[trigger] due[i];
        m.events.contains(e) && e.run_id == f.run && e.id > f.cursor
    } by {
        m.events.lemma_filter_pred(p, i);
        assert(due.contains(due[i]));
        m.events.lemma_filter_contains_rev(p, due[i]);
    }
    assert forall|j: int|
        0 <= j < m.events.len() && (#[trigger] m.events[j]).run_id == f.run && m.events[j].id
            > f.cursor implies due.contains(m.events[j]) by {
        m.events.lemma_filter_contains(p, j);
    }
    lemma_filter_rising(m.events, p);
}

proof fn lemma_filter_rising(s: Seq<EventModel>, p: spec_fn(EventModel) -> bool)
    requires
        forall|i: int, j: int|
            0 <= i < j < s.len() ==> (#[trigger] s[i]).id < (#[trigger] s[j]).id,
    ensures
        forall|i: int, j: int|
            0 <= i < j < s.filter(p).len() ==> (#[trigger] s.filter(p)[i]).id < (
            #[trigger] s.filter(p)[j]).id,
    decreases s.len(),
{
    reveal(Seq::filter);
    if s.len() > 0 {
        let head = s.drop_last();
        lemma_filter_rising(head, p);
        let kept = head.filter(p);
        assert forall|i: int| 0 <= i < kept.len() implies (#[trigger] kept[i]).id
            < s.last().id by {
            assert(kept.contains(kept[i]));
            head.lemma_filter_contains_rev(p, kept[i]);
            let k = choose|k: int| 0 <= k < head.len() && head[k] == kept[i];
            assert(s[k].id < s[s.len() - 1].id);
        }
    }
}

/// A reader reads on in its own run. The event that it is given is where it
/// stands next; where there is none, it stays where it is.
pub proof fn law_readers_stand_at_what_they_were_given(f: FeedModel, m: DbModel)
    ensures
        f.next(m).run == f.run,
        f.ready(m).len() > 0 ==> f.next(m).cursor == f.ready(m)[0].id && f.next(m).pending
            == f.ready(m).drop_first(),
        f.ready(m).len() == 0 ==> f.next(m) == f,
        f.pending.len() > 0 ==> f.ready(m) == f.pending,
{
}

/// A task of a run is known exactly where a row of the run has its identifier.
pub proof fn law_listed_tasks(tasks: Seq<TaskState>, t: TaskState, id: Seq<char>)
    ensures
        !lists(Seq::empty(), id),
        lists(tasks.push(t), id) <==> lists(tasks, id) || t.id == id,
{
    let longer = tasks.push(t);
    if lists(tasks, id) {
        let i = choose|i: int| 0 <= i < tasks.len() && #[trigger] tasks[i].id == id;
        assert(longer[i].id == id);
    }
    if t.id == id {
        assert(longer[tasks.len() as int].id == id);
    }
    if lists(longer, id) && t.id != id {
        let i = choose|i: int| 0 <= i < longer.len() && #[trigger] longer[i].id == id;
        assert(tasks[i].id == id);
    }
}

/// What is not recorded is not found, and the answer says whether it was the run
/// or the task.
pub proof fn law_what_is_not_recorded_is_not_found()
    ensures
        unknown_run().status == 404,
        unknown_task().status == 404,
        unknown_run().message == "exécution inconnue"@,
        unknown_task().message == "tâche inconnue"@,
{
}

/// A reader looks for new events twice a second, and waits a second once reading
/// has failed.
pub proof fn law_how_long_readers_wait()
    ensures
        2 * POLL_DELAY == 1000,
        ERROR_DELAY == 1000,
{
}

} // verus!
