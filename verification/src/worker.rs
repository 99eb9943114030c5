//! The work on one task: attempts, and what follows each of them.

use crate::db::Db;
use crate::model::{DbError, DbModel};
use crate::scheduler::{Outcome, OutcomeModel};
use crate::text::{decimal, decimal_text};
use crate::workflow::{Task, TaskModel};
use vstd::arithmetic::power2::{lemma2_to64, lemma_pow2_strictly_increases, lemma_pow2_unfold, pow2};
use vstd::prelude::*;
use vstd::string::*;

verus! {

/// How one attempt ended.
pub enum AttemptResult {
    Success,
    Failure(String),
    Interrupted,
}

/// The mathematical reading of an [`AttemptResult`].
pub enum ResultModel {
    Success,
    Failure(Seq<char>),
    Interrupted,
}

impl ResultModel {
    /// The status of an attempt that ended so.
    pub open spec fn status(self) -> Seq<char> {
        match self {
            ResultModel::Success => "success"@,
            ResultModel::Failure(_) => "failed"@,
            ResultModel::Interrupted => "interrupted"@,
        }
    }

    /// What is noted about an attempt that ended so.
    pub open spec fn error(self) -> Option<Seq<char>> {
        match self {
            ResultModel::Success => None,
            ResultModel::Failure(e) => Some(e),
            ResultModel::Interrupted => Some("arrêt demandé"@),
        }
    }
}

impl View for AttemptResult {
    type V = ResultModel;

    open spec fn view(&self) -> ResultModel {
        match self {
            AttemptResult::Success => ResultModel::Success,
            AttemptResult::Failure(e) => ResultModel::Failure(e@),
            AttemptResult::Interrupted => ResultModel::Interrupted,
        }
    }
}

/// What became of the process of an attempt.
pub enum Ending {
    /// It could not be started, for this reason.
    NotStarted(String),
    /// It ended, well or not, with this status.
    Exited(bool, String),
    /// Waiting for it failed, for this reason.
    Lost(String),
    /// It was killed after this many seconds.
    TimedOut(i64),
    /// It was killed because the run was cancelled.
    Cancelled,
}

impl Ending {
    /// The result of the attempt.
    pub open spec fn result(self) -> ResultModel {
        match self {
            Ending::NotStarted(e) => ResultModel::Failure("démarrage impossible : "@ + e@),
            Ending::Exited(success, status) => if success {
                ResultModel::Success
            } else {
                ResultModel::Failure("code de sortie : "@ + status@)
            },
            Ending::Lost(e) => ResultModel::Failure(e@),
            Ending::TimedOut(n) => ResultModel::Failure(
                "timeout après "@ + decimal(n as int) + " s"@,
            ),
            Ending::Cancelled => ResultModel::Interrupted,
        }
    }

    /// The result of the attempt.
    pub fn into_result(self) -> (r: AttemptResult)
        ensures
            r@ == self.result(),
    {
        match self {
            Ending::NotStarted(e) => AttemptResult::Failure(
                "démarrage impossible : ".to_owned().concat(e.as_str()),
            ),
            Ending::Exited(success, status) => if success {
                AttemptResult::Success
            } else {
                AttemptResult::Failure("code de sortie : ".to_owned().concat(status.as_str()))
            },
            Ending::Lost(e) => AttemptResult::Failure(e),
            Ending::TimedOut(n) => AttemptResult::Failure(
                "timeout après ".to_owned().concat(decimal_text(n).as_str()).concat(" s"),
            ),
            Ending::Cancelled => AttemptResult::Interrupted,
        }
    }
}

/// What follows an attempt.
pub enum Next {
    /// The task is over.
    Done(Outcome),
    /// Try again after this many milliseconds.
    Retry(u64),
}

/// The mathematical reading of a [`Next`].
pub enum NextModel {
    Done(OutcomeModel),
    Retry(int),
}

impl View for Next {
    type V = NextModel;

    open spec fn view(&self) -> NextModel {
        match self {
            Next::Done(o) => NextModel::Done(o@),
            Next::Retry(delay) => NextModel::Retry(*delay as int),
        }
    }
}

/// The delay behind the attempt of this number, in milliseconds: a quarter of a
/// second, doubled for each attempt before, and half a minute at most.
pub open spec fn delay(attempt: int) -> int {
    let doublings = if attempt <= 1 {
        0
    } else if attempt >= 17 {
        16
    } else {
        attempt - 1
    };
    let full = 250 * pow2(doublings as nat);
    if full > 30_000 {
        30_000
    } else {
        full as int
    }
}

/// The delay behind the attempt of this number, in milliseconds.
pub fn retry_delay(attempt: i64) -> (ms: u64)
    ensures
        ms == delay(attempt as int),
{
    let doublings: u64 = if attempt <= 1 {
        0
    } else if attempt >= 17 {
        16
    } else {
        (attempt - 1) as u64
    };
    let mut full: u64 = 250;
    let mut k: u64 = 0;
    proof {
        lemma2_to64();
    }
    while k < doublings
        invariant
            k <= doublings <= 16,
            full == 250 * pow2(k as nat),
            pow2(16) == 0x10000,
        decreases doublings - k,
    {
        proof {
            lemma_pow2_unfold((k + 1) as nat);
            if k + 1 < 16 {
                lemma_pow2_strictly_increases((k + 1) as nat, 16);
            }
        }
        full = full * 2;
        k = k + 1;
    }
    if full > 30_000 {
        30_000
    } else {
        full
    }
}

/// The delay starts at a quarter of a second, doubles from one attempt to the
/// next, and never exceeds half a minute.
pub proof fn law_delay_doubles_up_to_half_a_minute(attempt: int)
    ensures
        delay(1) == 250,
        attempt <= 1 ==> delay(attempt) == 250,
        250 <= delay(attempt) <= 30_000,
        attempt >= 1 ==> delay(attempt + 1) == if 2 * delay(attempt) > 30_000 {
            30_000
        } else {
            2 * delay(attempt)
        },
{
    lemma2_to64();
    if 1 <= attempt < 17 {
        lemma_pow2_unfold(attempt as nat);
        if attempt > 1 {
            lemma_pow2_strictly_increases(0, (attempt - 1) as nat);
        }
        if attempt == 16 {
            assert(pow2(15) == 0x8000);
        }
    }
}

/// A number of retries gives one attempt more; the same budget may be given as a
/// number of attempts.
pub proof fn law_retries_add_an_attempt(t: TaskModel, n: i64)
    requires
        t.retries == Some(n),
        t.max_attempts is None,
        n < i64::MAX,
    ensures
        t.budget() == n + 1,
        (TaskModel { retries: None, ..t }).budget() == 1,
        (TaskModel { retries: None, max_attempts: Some((n + 1) as i64), ..t }).budget()
            == t.budget(),
{
}

/// A number of attempts is the budget, whatever else the task says; a task that
/// gives no number at all is tried once.
pub proof fn law_a_task_is_tried_as_often_as_it_says(t: TaskModel)
    ensures
        t.max_attempts is Some ==> t.budget() == t.max_attempts->0,
        t.max_attempts is None && t.retries is Some ==> t.budget() == t.retries->0 + 1,
        t.max_attempts is None && t.retries is None ==> t.budget() == 1,
{
}

/// What follows an attempt with this result: a failed task is tried again until
/// its budget is spent.
pub open spec fn next_step(t: TaskModel, attempt: int, result: ResultModel) -> NextModel {
    match result {
        ResultModel::Success => NextModel::Done(OutcomeModel::Success),
        ResultModel::Interrupted => NextModel::Done(OutcomeModel::Interrupted),
        ResultModel::Failure(e) => if attempt >= t.budget() {
            NextModel::Done(OutcomeModel::Failed(e))
        } else {
            NextModel::Retry(delay(attempt))
        },
    }
}

/// A task that keeps failing is tried until its budget is spent, and no further;
/// an interrupted or successful attempt is the last.
pub proof fn law_failures_are_retried_within_the_budget(
    t: TaskModel,
    attempt: int,
    result: ResultModel,
)
    ensures
        next_step(t, attempt, result) is Retry <==> result is Failure && attempt < t.budget(),
{
}

proof fn lemma_doubled(n: nat)
    ensures
        n >= 16 ==> pow2(n) >= 0x10000,
        pow2(n) > 0,
{
    lemma2_to64();
    if n > 16 {
        lemma_pow2_strictly_increases(16, n);
    }
    if n > 0 {
        lemma_pow2_strictly_increases(0, n);
    }
}

/// The wait between two attempts: a quarter of a second behind the first, twice as
/// long behind each further one, and half a minute at most, for every failure that
/// leaves attempts in the budget.
pub proof fn law_waits_double_from_one_failure_to_the_next(
    t: TaskModel,
    attempt: int,
    e: Seq<char>,
    f: Seq<char>,
)
    requires
        1 <= attempt < t.budget(),
    ensures
        ({
            let full = 250 * pow2((attempt - 1) as nat);
            next_step(t, attempt, ResultModel::Failure(e)) == NextModel::Retry(
                if full > 30_000 {
                    30_000
                } else {
                    full as int
                },
            )
        }),
        next_step(t, 1, ResultModel::Failure(e)) == NextModel::Retry(250),
        attempt + 1 < t.budget() ==> {
            let before = next_step(t, attempt, ResultModel::Failure(e))->Retry_0;
            let after = next_step(t, attempt + 1, ResultModel::Failure(f));
            after == NextModel::Retry(
                if 2 * before > 30_000 {
                    30_000
                } else {
                    2 * before
                },
            )
        },
{
    lemma2_to64();
    lemma_doubled((attempt - 1) as nat);
    law_delay_doubles_up_to_half_a_minute(attempt);
}

/// A success or an interruption is the end of a task, and so is the failure that
/// uses up its budget; the failed task keeps the reason.
pub proof fn law_the_last_attempt_decides(t: TaskModel, attempt: int, e: Seq<char>)
    ensures
        next_step(t, attempt, ResultModel::Success) == NextModel::Done(OutcomeModel::Success),
        next_step(t, attempt, ResultModel::Interrupted) == NextModel::Done(
            OutcomeModel::Interrupted,
        ),
        attempt >= t.budget() ==> next_step(t, attempt, ResultModel::Failure(e))
            == NextModel::Done(OutcomeModel::Failed(e)),
{
}

/// An attempt succeeds exactly where its process ended well, and is interrupted
/// exactly where it was cancelled. Whatever else becomes of it is a failure that
/// tells the reason; a timeout tells after how many seconds.
pub proof fn law_endings(ending: Ending)
    ensures
        ending.result() is Success <==> (ending matches Ending::Exited(well, _) && well),
        ending.result() is Interrupted <==> ending is Cancelled,
        ending matches Ending::NotStarted(e) ==> ending.result() == ResultModel::Failure(
            "démarrage impossible : "@ + e@,
        ),
        ending matches Ending::Exited(well, status) ==> (!well ==> ending.result()
            == ResultModel::Failure("code de sortie : "@ + status@)),
        ending matches Ending::Lost(e) ==> ending.result() == ResultModel::Failure(e@),
        ending matches Ending::TimedOut(n) ==> ending.result() == ResultModel::Failure(
            "timeout après "@ + decimal(n as int) + " s"@,
        ),
{
}

/// How an attempt that ended is recorded: a success without a reason, a failure
/// with its reason, and an interruption as one that was asked for.
pub proof fn law_results_are_recorded_as_what_they_are(e: Seq<char>)
    ensures
        ResultModel::Success.status() == "success"@,
        ResultModel::Success.error() is None,
        ResultModel::Failure(e).status() == "failed"@,
        ResultModel::Failure(e).error() == Some(e),
        ResultModel::Interrupted.status() == "interrupted"@,
        ResultModel::Interrupted.error() == Some("arrêt demandé"@),
        OutcomeModel::Success.status() == "success"@,
        OutcomeModel::Success.error() is None,
        OutcomeModel::Failed(e).status() == "failed"@,
        OutcomeModel::Failed(e).error() == Some(e),
        OutcomeModel::Interrupted.status() == "pending"@,
        OutcomeModel::Interrupted.error() == Some("interrompue ; utiliser kordrel resume"@),
{
}

/// The recorded state once an attempt has ended.
pub open spec fn attempt_closed(
    m: DbModel,
    run: Seq<char>,
    t: TaskModel,
    attempt: i64,
    result: ResultModel,
    now: i64,
) -> DbModel {
    let closed = m.finish_attempt(run, t.id, attempt, result.status(), result.error(), now);
    if result is Failure && attempt < t.budget() {
        closed.set_task(run, t.id, "retrying"@, result.error(), now)
    } else {
        closed
    }
}

/// What a worker does next.
pub enum Turn {
    /// Make the attempt of this number.
    Attempt(i64),
    /// The task is over.
    Done(Outcome),
}

/// The mathematical reading of a [`Turn`].
pub enum TurnModel {
    Attempt(i64),
    Done(OutcomeModel),
}

impl View for Turn {
    type V = TurnModel;

    open spec fn view(&self) -> TurnModel {
        match self {
            Turn::Attempt(n) => TurnModel::Attempt(*n),
            Turn::Done(o) => TurnModel::Done(o@),
        }
    }
}

/// Starts the next attempt at a task; once the run is cancelled there is none,
/// and the task is interrupted.
pub fn begin_attempt(db: &mut Db, run: &str, task: &Task, cancelled: bool, now: i64) -> (r: Result<
    Turn,
    DbError,
>)
    requires
        old(db)@.well_formed(),
        old(db)@.room(1),
    ensures
        cancelled ==> final(db)@ == old(db)@ && r is Ok && r->Ok_0@ == TurnModel::Done(
            OutcomeModel::Interrupted,
        ),
        !cancelled ==> match (old(db)@.next_attempt(run@, task@.id), r) {
            (Ok(n), Ok(turn)) => turn@ == TurnModel::Attempt(n) && final(db)@
                == old(db)@.start_attempt(run@, task@.id, now),
            (Err(e), Err(f)) => e == f && final(db)@ == old(db)@,
            _ => false,
        },
        final(db)@.well_formed(),
{
    if cancelled {
        return Ok(Turn::Done(Outcome::Interrupted));
    }
    match db.start_attempt(run, task.id.as_str(), now) {
        Ok(n) => Ok(Turn::Attempt(n)),
        Err(e) => Err(e),
    }
}

/// Records how an attempt ended, and decides what follows.
pub fn end_attempt(
    db: &mut Db,
    run: &str,
    task: &Task,
    attempt: i64,
    result: AttemptResult,
    now: i64,
) -> (r: Next)
    requires
        old(db)@.well_formed(),
        old(db)@.room(2),
    ensures
        r@ == next_step(task@, attempt as int, result@),
        final(db)@ == attempt_closed(old(db)@, run@, task@, attempt, result@, now),
        final(db)@.well_formed(),
{
    let id: &str = task.id.as_str();
    match result {
        AttemptResult::Success => {
            db.finish_attempt(run, id, attempt, "success", None, now);
            Next::Done(Outcome::Success)
        },
        AttemptResult::Interrupted => {
            db.finish_attempt(run, id, attempt, "interrupted", Some("arrêt demandé"), now);
            Next::Done(Outcome::Interrupted)
        },
        AttemptResult::Failure(error) => {
            db.finish_attempt(run, id, attempt, "failed", Some(error.as_str()), now);
            if task.spent(attempt) {
                Next::Done(Outcome::Failed(error))
            } else {
                proof {
                    reveal_strlit("failed");
                    reveal_strlit("success");
                }
                assert("failed"@.len() != "success"@.len());
                db.set_task(run, id, "retrying", Some(error.as_str()), now);
                Next::Retry(retry_delay(attempt))
            }
        },
    }
}

impl TaskModel {
    /// The number of seconds after which an attempt is killed, if there is a
    /// limit.
    pub open spec fn time_limit(self) -> Option<u64> {
        match self.timeout_seconds {
            Some(n) => Some(n as u64),
            None => None,
        }
    }
}

/// An attempt is killed after the number of seconds that its task gives, and never
/// where it gives none.
pub proof fn law_time_limits(t: TaskModel)
    ensures
        t.timeout_seconds is None <==> t.time_limit() is None,
        t.timeout_seconds matches Some(n) ==> (n >= 0 ==> t.time_limit()->0 == n),
{
}

impl Task {
    /// The number of seconds after which an attempt is killed, if there is a
    /// limit.
    pub fn deadline(&self) -> (r: Option<u64>)
        ensures
            r == self@.time_limit(),
    {
        match self.timeout_seconds {
            Some(n) => Some(n as u64),
            None => None,
        }
    }
}

} // verus!
