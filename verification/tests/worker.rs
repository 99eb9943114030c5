use kordrel::db::{Db, DbError};
use kordrel::scheduler::Outcome;
use kordrel::worker::{
    begin_attempt, end_attempt, retry_delay, AttemptResult, Ending, Next, Turn,
};
use kordrel::workflow::{Task, Workflow};
use std::collections::HashMap;

fn task(id: &str, max_attempts: i64) -> Task {
    Task {
        id: id.into(),
        command: "sh".into(),
        args: vec![],
        dependencies: vec![],
        workdir: None,
        timeout_seconds: None,
        retries: None,
        max_attempts: Some(max_attempts),
        env: HashMap::new(),
    }
}

fn number(turn: Result<Turn, DbError>) -> i64 {
    match turn {
        Ok(Turn::Attempt(n)) => n,
        _ => panic!(),
    }
}

fn setup(t: &Task) -> Db {
    let w = Workflow {
        name: "test".into(),
        max_parallel: None,
        tasks: vec![t.clone()],
    };
    let mut db = Db::new();
    db.create_run_as("r", &w, "/src", 1, 1).unwrap();
    db
}

#[test]
fn delay_starts_small_doubles_and_is_capped() {
    let expected = [250, 500, 1000, 2000, 4000, 8000, 16000, 30000, 30000];
    for (i, ms) in expected.iter().enumerate() {
        assert_eq!(retry_delay(i as i64 + 1), *ms);
    }
    for n in [10, 16, 17, 18, 1000, i64::MAX] {
        assert_eq!(retry_delay(n), 30000);
    }
    for n in [0, -1, i64::MIN] {
        assert_eq!(retry_delay(n), 250);
    }
}

#[test]
fn delay_matches_the_shift() {
    for n in 1..40i64 {
        let shifted = 250u64
            .saturating_mul(1u64 << ((n - 1).clamp(0, 16) as u32))
            .min(30_000);
        assert_eq!(retry_delay(n), shifted);
    }
}

#[test]
fn endings_give_results() {
    let text = |e: Ending| match e.into_result() {
        AttemptResult::Failure(s) => s,
        _ => panic!(),
    };
    assert_eq!(
        text(Ending::NotStarted("absent".into())),
        "démarrage impossible : absent"
    );
    assert_eq!(
        text(Ending::Exited(false, "exit status: 9".into())),
        "code de sortie : exit status: 9"
    );
    assert_eq!(text(Ending::Lost("perdu".into())), "perdu");
    assert_eq!(text(Ending::TimedOut(30)), "timeout après 30 s");
    assert!(matches!(
        Ending::Exited(true, "exit status: 0".into()).into_result(),
        AttemptResult::Success
    ));
    assert!(matches!(
        Ending::Cancelled.into_result(),
        AttemptResult::Interrupted
    ));
}

#[test]
fn failing_task_is_tried_until_its_budget_is_spent() {
    let t = task("a", 3);
    let mut db = setup(&t);
    let mut delays = vec![];
    loop {
        let n = number(begin_attempt(&mut db, "r", &t, false, 5));
        match end_attempt(&mut db, "r", &t, n, AttemptResult::Failure(format!("e{}", n)), 6) {
            Next::Retry(ms) => {
                delays.push(ms);
                let state = db.task("r", "a").unwrap();
                assert_eq!(state.status, "retrying");
                assert_eq!(state.error, Some(format!("e{}", n)));
            }
            Next::Done(Outcome::Failed(e)) => {
                assert_eq!(e, "e3");
                break;
            }
            Next::Done(_) => panic!(),
        }
    }
    assert_eq!(delays, vec![250, 500]);
    let d = db.detail("r").unwrap();
    assert_eq!(d.attempts.len(), 3);
    assert_eq!(d.tasks[0].attempts, 3);
    assert_eq!(d.tasks[0].status, "running");
}

#[test]
fn success_ends_the_task() {
    let t = task("a", 3);
    let mut db = setup(&t);
    let n = number(begin_attempt(&mut db, "r", &t, false, 5));
    assert!(matches!(
        end_attempt(&mut db, "r", &t, n, AttemptResult::Success, 6),
        Next::Done(Outcome::Success)
    ));
    let d = db.detail("r").unwrap();
    assert_eq!(d.tasks[0].status, "success");
    assert_eq!(d.attempts[0].status, "success");
}

#[test]
fn interruption_closes_the_attempt() {
    let t = task("a", 3);
    let mut db = setup(&t);
    let n = number(begin_attempt(&mut db, "r", &t, false, 5));
    assert!(matches!(
        end_attempt(&mut db, "r", &t, n, AttemptResult::Interrupted, 6),
        Next::Done(Outcome::Interrupted)
    ));
    let d = db.detail("r").unwrap();
    assert_eq!(d.attempts[0].status, "interrupted");
    assert_eq!(d.attempts[0].error, Some("arrêt demandé".to_string()));
    assert_eq!(d.attempts[0].finished_at, Some(6));
}

#[test]
fn cancelled_tasks_are_not_tried() {
    let t = task("a", 3);
    let mut db = setup(&t);
    assert!(matches!(
        begin_attempt(&mut db, "r", &t, true, 5),
        Ok(Turn::Done(Outcome::Interrupted))
    ));
    assert_eq!(db.task("r", "a").unwrap().status, "pending");
    assert!(matches!(
        begin_attempt(&mut db, "x", &t, false, 5),
        Err(DbError::NoSuchTask)
    ));
}
