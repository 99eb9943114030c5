use kordrel::db::{Db, DbError, RunDetail};
use kordrel::scheduler::{Action, Outcome, Refusal, Scheduler};
use kordrel::worker::{begin_attempt, end_attempt, AttemptResult, Ending, Next, Turn};
use kordrel::workflow::{Task, Workflow};
use std::collections::HashMap;

fn task(id: &str, deps: &[&str]) -> Task {
    Task {
        id: id.into(),
        command: "sh".into(),
        args: vec![],
        dependencies: deps.iter().map(|s| s.to_string()).collect(),
        workdir: None,
        timeout_seconds: None,
        retries: None,
        max_attempts: None,
        env: HashMap::new(),
    }
}

fn workflow(tasks: Vec<Task>) -> Workflow {
    Workflow {
        name: "test".into(),
        max_parallel: Some(2),
        tasks,
    }
}

fn failure(text: &str) -> AttemptResult {
    AttemptResult::Failure(text.to_string())
}

fn number(turn: Result<Turn, DbError>) -> i64 {
    match turn {
        Ok(Turn::Attempt(n)) => n,
        _ => panic!(),
    }
}

/// Works on a task without interruption until it is over.
fn work(
    db: &mut Db,
    run: &str,
    task: &Task,
    now: &mut i64,
    play: &mut dyn FnMut(&str, i64) -> AttemptResult,
) -> Outcome {
    loop {
        *now += 1;
        let n = number(begin_attempt(db, run, task, false, *now));
        *now += 1;
        let result = play(&task.id, n);
        match end_attempt(db, run, task, n, result, *now) {
            Next::Done(outcome) => return outcome,
            Next::Retry(_) => {}
        }
    }
}

/// Drives a run to its end. `play` says how each attempt goes.
fn drive(
    db: &mut Db,
    run: &str,
    resume: bool,
    play: &mut dyn FnMut(&str, i64) -> AttemptResult,
) -> String {
    let mut now = 1000;
    let mut s = match Scheduler::begin(db, run, resume, now) {
        Ok(s) => s,
        Err(e) => panic!("{}", e.message(run)),
    };
    let mut active: Vec<Task> = vec![];
    loop {
        now += 1;
        match s.next(db, false, now) {
            Action::Again => continue,
            Action::Launch(tasks) => active.extend(tasks),
            Action::Wait => {}
            Action::Conclude => return s.conclude(db, false, now).unwrap(),
        }
        let t = active.remove(0);
        let outcome = work(db, run, &t, &mut now, play);
        now += 1;
        s.settle(db, &t.id, &outcome, now);
    }
}

fn setup(w: &Workflow, limit: usize) -> (Db, String) {
    w.validate().unwrap();
    let mut db = Db::new();
    let id = db.create_run(w, "/src", limit, 1).unwrap();
    (db, id)
}

fn statuses(d: &RunDetail) -> Vec<&str> {
    d.tasks.iter().map(|t| t.status.as_str()).collect()
}

#[test]
fn dependencies_and_failure_propagation() {
    let w = workflow(vec![
        task("prepare", &[]),
        task("check", &["prepare"]),
        task("fail", &["check"]),
        task("blocked", &["fail"]),
        task("descendant", &["blocked"]),
    ]);
    let (mut db, id) = setup(&w, 2);
    let mut tried = vec![];
    let status = drive(&mut db, &id, false, &mut |t, _| {
        tried.push(t.to_string());
        if t == "fail" {
            failure("code de sortie : 9")
        } else {
            AttemptResult::Success
        }
    });
    assert_eq!(status, "failed");
    let view = db.detail(&id).unwrap();
    assert_eq!(
        statuses(&view),
        vec!["success", "success", "failed", "blocked", "blocked"]
    );
    assert_eq!(tried, vec!["prepare", "check", "fail"]);
    assert_eq!(view.run.status, "failed");
    assert_eq!(view.tasks[3].error, Some("dépendance échouée".to_string()));
    assert_eq!(view.tasks[2].error, Some("code de sortie : 9".to_string()));
}

#[test]
fn other_branches_go_on_after_a_failure() {
    let w = workflow(vec![
        task("bad", &[]),
        task("good", &[]),
        task("after_bad", &["bad"]),
        task("after_good", &["good"]),
        task("after_both", &["bad", "good"]),
    ]);
    let (mut db, id) = setup(&w, 1);
    let status = drive(&mut db, &id, false, &mut |t, _| {
        if t == "bad" {
            failure("x")
        } else {
            AttemptResult::Success
        }
    });
    assert_eq!(status, "failed");
    assert_eq!(
        statuses(&db.detail(&id).unwrap()),
        vec!["failed", "success", "blocked", "success", "blocked"]
    );
}

#[test]
fn parallel_respects_limit() {
    let w = workflow(vec![task("a", &[]), task("b", &[])]);
    let (mut db, id) = setup(&w, 2);
    let mut s = Scheduler::begin(&mut db, &id, false, 1000).ok().unwrap();
    let tasks = match s.next(&mut db, false, 1001) {
        Action::Launch(tasks) => tasks,
        _ => panic!(),
    };
    assert_eq!(tasks.len(), 2);
    for (k, t) in tasks.iter().enumerate() {
        number(begin_attempt(&mut db, &id, t, false, 1010 + k as i64));
    }
    assert!(matches!(s.next(&mut db, false, 1020), Action::Wait));
    for (k, t) in tasks.iter().enumerate() {
        let at = 1360 + k as i64;
        match end_attempt(&mut db, &id, t, 1, AttemptResult::Success, at) {
            Next::Done(o) => s.settle(&mut db, &t.id, &o, at),
            Next::Retry(_) => panic!(),
        }
    }
    assert!(matches!(s.next(&mut db, false, 1400), Action::Conclude));
    assert_eq!(s.conclude(&mut db, false, 1401), Ok("success".to_string()));
    let tasks = db.detail(&id).unwrap().tasks;
    assert!(
        tasks[0].started_at.unwrap() < tasks[1].finished_at.unwrap()
            && tasks[1].started_at.unwrap() < tasks[0].finished_at.unwrap()
    );
    let (mut db, id) = setup(&w, 1);
    assert_eq!(
        drive(&mut db, &id, false, &mut |_, _| AttemptResult::Success),
        "success"
    );
    let tasks = db.detail(&id).unwrap().tasks;
    assert!(tasks[0].finished_at.unwrap() <= tasks[1].started_at.unwrap());
}

#[test]
fn launches_fill_the_limit_and_stop_there() {
    let w = workflow(vec![task("a", &[]), task("b", &[]), task("c", &[])]);
    let (mut db, id) = setup(&w, 2);
    let mut s = Scheduler::begin(&mut db, &id, false, 10).ok().unwrap();
    assert_eq!(s.run(), &id);
    assert_eq!(s.source_dir(), "/src");
    assert_eq!(s.workflow().tasks.len(), 3);
    match s.next(&mut db, false, 11) {
        Action::Launch(tasks) => {
            let ids: Vec<_> = tasks.iter().map(|t| t.id.as_str()).collect();
            assert_eq!(ids, vec!["a", "b"]);
        }
        _ => panic!(),
    }
    assert_eq!(
        statuses(&db.detail(&id).unwrap()),
        vec!["queued", "queued", "pending"]
    );
    assert!(matches!(s.next(&mut db, false, 12), Action::Wait));
    s.settle(&mut db, "b", &Outcome::Success, 13);
    match s.next(&mut db, false, 14) {
        Action::Launch(tasks) => assert_eq!(tasks[0].id, "c"),
        _ => panic!(),
    }
    assert!(matches!(s.next(&mut db, false, 15), Action::Wait));
}

/// Checks the times of a run whose limit is one.
fn check_times(d: &RunDetail) {
    for (i, t) in d.tasks.iter().enumerate() {
        assert_eq!(t.started_at.is_some(), t.attempts > 0);
        for (j, u) in d.tasks.iter().enumerate() {
            if let (Some(s), Some(r)) = (t.started_at, u.started_at) {
                let before = |f: Option<i64>, s: i64| f.map_or(false, |f| f <= s);
                assert!(i == j || before(t.finished_at, r) || before(u.finished_at, s));
            }
        }
        for dep in &d.workflow.tasks[i].dependencies {
            if let Some(s) = t.started_at {
                assert!(d.attempts.iter().any(|a| a.task_id == *dep
                    && a.status == "success"
                    && a.finished_at.unwrap() <= s));
                let u = d.tasks.iter().find(|u| u.id == *dep).unwrap();
                assert!(u.finished_at.unwrap() <= s);
            }
        }
    }
}

#[test]
fn tasks_do_not_overlap_at_limit_one() {
    let mut b = task("b", &["a"]);
    b.retries = Some(3);
    let w = workflow(vec![
        task("d", &["b", "c"]),
        task("a", &[]),
        b,
        task("c", &["a"]),
        task("e", &[]),
    ]);
    let (mut db, id) = setup(&w, 1);
    let mut s = Scheduler::begin(&mut db, &id, false, 10).ok().unwrap();
    let mut now = 20;
    loop {
        now += 1;
        let t = match s.next(&mut db, false, now) {
            Action::Launch(mut tasks) => tasks.remove(0),
            _ => panic!(),
        };
        check_times(&db.detail(&id).unwrap());
        if t.id == "b" {
            let n = number(begin_attempt(&mut db, &id, &t, false, now + 1));
            end_attempt(&mut db, &id, &t, n, AttemptResult::Interrupted, now + 2);
            s.settle(&mut db, "b", &Outcome::Interrupted, now + 3);
            break;
        }
        let o = work(&mut db, &id, &t, &mut now, &mut |_, _| AttemptResult::Success);
        s.settle(&mut db, &t.id, &o, now);
    }
    assert_eq!(s.conclude(&mut db, true, 90), Ok("interrupted".to_string()));
    check_times(&db.detail(&id).unwrap());
    let mut tried = vec![];
    assert_eq!(
        drive(&mut db, &id, true, &mut |t, n| {
            tried.push((t.to_string(), n));
            AttemptResult::Success
        }),
        "success"
    );
    assert_eq!(tried[0], ("b".to_string(), 2));
    check_times(&db.detail(&id).unwrap());
}

#[test]
fn independent_tasks_go_in_listed_order_at_limit_one() {
    let mut z = task("z", &[]);
    z.retries = Some(1);
    let w = workflow(vec![z, task("m", &[]), task("late", &["a"]), task("a", &[])]);
    let (mut db, id) = setup(&w, 1);
    let mut s = Scheduler::begin(&mut db, &id, false, 10).ok().unwrap();
    let z = match s.next(&mut db, false, 11) {
        Action::Launch(mut tasks) => tasks.remove(0),
        _ => panic!(),
    };
    assert_eq!(z.id, "z");
    let n = number(begin_attempt(&mut db, &id, &z, false, 12));
    end_attempt(&mut db, &id, &z, n, AttemptResult::Interrupted, 13);
    s.settle(&mut db, "z", &Outcome::Interrupted, 14);
    assert_eq!(s.conclude(&mut db, true, 15), Ok("interrupted".to_string()));
    let mut tried = vec![];
    let status = drive(&mut db, &id, true, &mut |t, _| {
        tried.push(t.to_string());
        if t == "z" {
            failure("x")
        } else {
            AttemptResult::Success
        }
    });
    assert_eq!(status, "failed");
    assert_eq!(tried, vec!["z", "m", "a", "late"]);
    let tasks = db.detail(&id).unwrap().tasks;
    for (i, j) in [(0, 1), (0, 2), (0, 3), (1, 2), (1, 3)] {
        assert!(tasks[i].finished_at.unwrap() <= tasks[j].started_at.unwrap());
    }
}

#[test]
fn successful_attempt_is_the_last() {
    let mut a = task("a", &[]);
    a.retries = Some(5);
    let w = workflow(vec![a, task("b", &["a"])]);
    let (mut db, id) = setup(&w, 2);
    let mut tried = vec![];
    let status = drive(&mut db, &id, false, &mut |t, n| {
        tried.push((t.to_string(), n));
        if t == "a" && n < 3 {
            failure("x")
        } else {
            AttemptResult::Success
        }
    });
    assert_eq!(status, "success");
    let expected: Vec<_> = [("a", 1), ("a", 2), ("a", 3), ("b", 1)]
        .iter()
        .map(|(t, n)| (t.to_string(), *n))
        .collect();
    assert_eq!(tried, expected);
    assert_eq!(db.task(&id, "a").unwrap().attempts, 3);
}

#[test]
fn without_room_for_a_task_only_success_is_a_verdict() {
    let w = workflow(vec![task("a", &[])]);
    let (mut db, id) = setup(&w, 0);
    let mut s = Scheduler::begin(&mut db, &id, false, 10).ok().unwrap();
    assert!(matches!(s.next(&mut db, false, 11), Action::Conclude));
    assert!(s.conclude(&mut db, false, 12).is_err());
    db.set_task(&id, "a", "success", None, 13);
    assert!(matches!(s.next(&mut db, false, 14), Action::Conclude));
    assert_eq!(s.conclude(&mut db, false, 15), Ok("success".to_string()));
}

#[test]
fn unrecorded_tasks_do_not_keep_a_run_from_its_start() {
    let w = workflow(vec![task("a", &[])]);
    let (db, id) = setup(&w, 1);
    let mut tables = db.into_tables();
    tables.tasks.clear();
    let mut db = Db::load(tables).unwrap();
    let mut s = Scheduler::begin(&mut db, &id, false, 10).ok().unwrap();
    assert_eq!(db.detail(&id).unwrap().run.status, "running");
    assert!(!db.covers(&id, s.workflow()));
    assert!(matches!(s.next(&mut db, true, 11), Action::Conclude));
    assert_eq!(s.conclude(&mut db, true, 12), Ok("interrupted".to_string()));
    assert!(matches!(
        Scheduler::begin(&mut db, &id, true, 13),
        Err(Refusal::Unrecorded)
    ));
}

#[test]
fn settled_success_stays_as_it_is() {
    let w = workflow(vec![task("a", &[]), task("b", &["a"])]);
    let (mut db, id) = setup(&w, 1);
    let mut s = Scheduler::begin(&mut db, &id, false, 10).ok().unwrap();
    let a = match s.next(&mut db, false, 11) {
        Action::Launch(mut tasks) => tasks.remove(0),
        _ => panic!(),
    };
    let mut now = 12;
    let o = work(&mut db, &id, &a, &mut now, &mut |_, _| AttemptResult::Success);
    s.settle(&mut db, "a", &o, 20);
    let before = format!("{:?}", db.task(&id, "a"));
    let rows = |db: &Db| {
        let all = db.detail(&id).unwrap().attempts;
        let own: Vec<_> = all.into_iter().filter(|r| r.task_id == "a").collect();
        format!("{:?}", own)
    };
    let own = rows(&db);
    assert!(matches!(s.next(&mut db, false, 21), Action::Launch(_)));
    db.start_attempt(&id, "b", 22).unwrap();
    assert!(Scheduler::begin(&mut db, &id, true, 30).is_ok());
    assert_eq!(format!("{:?}", db.task(&id, "a")), before);
    assert_eq!(rows(&db), own);
    assert_eq!(db.task(&id, "b").unwrap().status, "failed");
}

#[test]
fn retry_success_and_final_failure() {
    let mut a = task("flaky", &[]);
    a.retries = Some(1);
    let mut b = task("always_fails", &[]);
    b.retries = Some(1);
    let w = workflow(vec![a, b]);
    let (mut db, id) = setup(&w, 2);
    let status = drive(&mut db, &id, false, &mut |t, n| {
        if t == "flaky" && n == 2 {
            AttemptResult::Success
        } else {
            failure("code de sortie : 3")
        }
    });
    assert_eq!(status, "failed");
    let view = db.detail(&id).unwrap();
    assert_eq!(view.tasks[0].status, "success");
    assert_eq!(view.tasks[0].attempts, 2);
    assert_eq!(view.tasks[1].status, "failed");
    assert_eq!(view.tasks[1].attempts, 2);
    assert_eq!(view.attempts.len(), 4);
}

#[test]
fn timeout_kills_task() {
    let mut a = task("slow", &[]);
    a.timeout_seconds = Some(1);
    let limit = a.deadline().unwrap();
    let w = workflow(vec![a]);
    let (mut db, id) = setup(&w, 1);
    let status = drive(&mut db, &id, false, &mut |_, _| {
        Ending::TimedOut(limit as i64).into_result()
    });
    assert_eq!(status, "failed");
    assert!(db.detail(&id).unwrap().attempts[0]
        .error
        .as_ref()
        .unwrap()
        .contains("timeout"));
}

#[test]
fn interrupted_run_resumes_without_repeating_success() {
    let a = task("first", &[]);
    let mut b = task("second", &["first"]);
    b.max_attempts = Some(2);
    let w = workflow(vec![a, b]);
    let (mut db, id) = setup(&w, 1);
    let mut s = Scheduler::begin(&mut db, &id, false, 10).ok().unwrap();
    let mut now = 20;
    for step in 0..2 {
        let t = match s.next(&mut db, false, now) {
            Action::Launch(mut tasks) => tasks.remove(0),
            _ => panic!(),
        };
        if step == 0 {
            let o = work(&mut db, &id, &t, &mut now, &mut |_, _| AttemptResult::Success);
            s.settle(&mut db, &t.id, &o, 30);
        } else {
            let n = number(begin_attempt(&mut db, &id, &t, false, 40));
            assert!(matches!(s.next(&mut db, true, 41), Action::Wait));
            match end_attempt(&mut db, &id, &t, n, AttemptResult::Interrupted, 42) {
                Next::Done(o) => s.settle(&mut db, &t.id, &o, 43),
                Next::Retry(_) => panic!(),
            }
        }
    }
    assert!(matches!(s.next(&mut db, true, 50), Action::Conclude));
    assert_eq!(s.conclude(&mut db, true, 51), Ok("interrupted".to_string()));
    let view = db.detail(&id).unwrap();
    assert_eq!(view.run.status, "interrupted");
    assert_eq!(statuses(&view), vec!["success", "pending"]);
    assert_eq!(
        view.tasks[1].error,
        Some("interrompue ; utiliser kordrel resume".to_string())
    );
    assert_eq!(view.attempts[1].status, "interrupted");
    assert_eq!(view.attempts[1].error, Some("arrêt demandé".to_string()));
    let mut tried = vec![];
    assert_eq!(
        drive(&mut db, &id, true, &mut |t, n| {
            tried.push((t.to_string(), n));
            AttemptResult::Success
        }),
        "success"
    );
    assert_eq!(tried, vec![("second".to_string(), 2)]);
    let view = db.detail(&id).unwrap();
    assert_eq!(view.tasks[0].attempts, 1);
    assert_eq!(view.tasks[1].attempts, 2);
}

#[test]
fn interrupted_attempt_uses_up_the_budget() {
    let w = workflow(vec![task("only", &[]), task("after", &["only"])]);
    let (mut db, id) = setup(&w, 1);
    let mut s = Scheduler::begin(&mut db, &id, false, 10).ok().unwrap();
    assert!(matches!(s.next(&mut db, false, 11), Action::Launch(_)));
    let t = task("only", &[]);
    let n = number(begin_attempt(&mut db, &id, &t, false, 12));
    end_attempt(&mut db, &id, &t, n, AttemptResult::Interrupted, 13);
    s.settle(&mut db, "only", &Outcome::Interrupted, 14);
    assert_eq!(s.conclude(&mut db, true, 15), Ok("interrupted".to_string()));
    let status = drive(&mut db, &id, true, &mut |_, _| unreachable!());
    assert_eq!(status, "failed");
    assert_eq!(
        statuses(&db.detail(&id).unwrap()),
        vec!["failed", "blocked"]
    );
}

#[test]
fn crash_recovery_closes_stale_attempt() {
    let first = task("first", &[]);
    let mut second = task("second", &["first"]);
    second.max_attempts = Some(2);
    let w = workflow(vec![first, second]);
    let (mut db, id) = setup(&w, 1);
    db.set_run(&id, "running", 10);
    let number = db.start_attempt(&id, "first", 11).unwrap();
    db.finish_attempt(&id, "first", number, "success", None, 12);
    db.set_task(&id, "first", "success", None, 13);
    db.start_attempt(&id, "second", 14).unwrap();
    let mut tried = vec![];
    assert_eq!(
        drive(&mut db, &id, true, &mut |t, _| {
            tried.push(t.to_string());
            AttemptResult::Success
        }),
        "success"
    );
    let view = db.detail(&id).unwrap();
    assert_eq!(
        view.attempts
            .iter()
            .find(|a| a.task_id == "second" && a.number == 1)
            .unwrap()
            .status,
        "interrupted"
    );
    assert_eq!(view.tasks[0].attempts, 1);
    assert_eq!(tried, vec!["second"]);
}

#[test]
fn cancelled_run_launches_and_blocks_nothing() {
    let w = workflow(vec![task("a", &[]), task("b", &["a"])]);
    let (mut db, id) = setup(&w, 2);
    let mut s = Scheduler::begin(&mut db, &id, false, 10).ok().unwrap();
    db.set_task(&id, "a", "failed", Some("x"), 11);
    assert!(matches!(s.next(&mut db, true, 12), Action::Conclude));
    assert_eq!(db.task(&id, "b").unwrap().status, "pending");
    assert!(matches!(s.next(&mut db, false, 13), Action::Again));
    assert_eq!(db.task(&id, "b").unwrap().status, "blocked");
    assert!(matches!(s.next(&mut db, false, 14), Action::Conclude));
    assert_eq!(s.conclude(&mut db, false, 15), Ok("failed".to_string()));
}

#[test]
fn blocking_goes_one_level_at_a_time() {
    let w = workflow(vec![task("a", &[]), task("b", &["a"]), task("c", &["b"])]);
    let (mut db, id) = setup(&w, 2);
    let mut s = Scheduler::begin(&mut db, &id, false, 10).ok().unwrap();
    db.set_task(&id, "a", "failed", None, 11);
    assert!(matches!(s.next(&mut db, false, 12), Action::Again));
    assert_eq!(
        statuses(&db.detail(&id).unwrap()),
        vec!["failed", "blocked", "pending"]
    );
    assert!(matches!(s.next(&mut db, false, 13), Action::Again));
    assert_eq!(
        statuses(&db.detail(&id).unwrap()),
        vec!["failed", "blocked", "blocked"]
    );
}

#[test]
fn waiting_tasks_without_work_are_reported() {
    let w = workflow(vec![task("a", &[])]);
    let (mut db, id) = setup(&w, 0);
    let mut s = Scheduler::begin(&mut db, &id, false, 10).ok().unwrap();
    assert!(matches!(s.next(&mut db, false, 11), Action::Conclude));
    assert_eq!(
        s.conclude(&mut db, false, 12),
        Err("scheduler bloqué : tâches en attente sans travail actif".to_string())
    );
    assert_eq!(db.detail(&id).unwrap().run.status, "running");
}

fn refused(db: &mut Db, run: &str, resume: bool) -> Refusal {
    let before = format!("{:?}", db.detail(run));
    match Scheduler::begin(db, run, resume, 99) {
        Ok(_) => panic!(),
        Err(e) => {
            assert_eq!(format!("{:?}", db.detail(run)), before);
            e
        }
    }
}

#[test]
fn runs_are_refused_with_a_reason() {
    let w = workflow(vec![task("a", &[])]);
    let (mut db, id) = setup(&w, 1);
    let e = refused(&mut db, "x", false);
    assert!(matches!(e, Refusal::Unknown));
    assert_eq!(e.message("x"), "exécution inconnue : x");
    assert!(Scheduler::begin(&mut db, &id, false, 10).is_ok());
    let e = refused(&mut db, &id, false);
    assert!(matches!(e, Refusal::Started));
    assert_eq!(e.message("r"), "exécution déjà démarrée : r");
    assert!(Scheduler::begin(&mut db, &id, true, 11).is_ok());
    for status in ["success", "failed"] {
        db.set_run(&id, status, 12);
        let e = refused(&mut db, &id, true);
        assert!(matches!(e, Refusal::Finished));
        assert_eq!(e.message("r"), "exécution terminée : r");
        assert!(matches!(refused(&mut db, &id, false), Refusal::Started));
    }
    db.set_run(&id, "interrupted", 13);
    assert!(Scheduler::begin(&mut db, &id, true, 14).is_ok());
    assert_eq!(db.detail(&id).unwrap().run.status, "running");
}

#[test]
fn invalid_and_incomplete_runs_are_refused() {
    let mut db = Db::new();
    let w = workflow(vec![task("a", &["b"])]);
    db.create_run_as("r", &w, "/src", 1, 1).unwrap();
    let e = refused(&mut db, "r", false);
    assert!(matches!(e, Refusal::Invalid(_)));
    assert_eq!(e.message("r"), "tâche 'a' : dépendance inconnue 'b'");
    let w = workflow(vec![task("a", &[])]);
    let mut db = Db::new();
    db.create_run_as("r", &w, "/src", 1, 1).unwrap();
    let mut t = db.into_tables();
    t.tasks.clear();
    let mut db = Db::load(t).unwrap();
    let e = refused(&mut db, "r", true);
    assert!(matches!(e, Refusal::Unrecorded));
    assert_eq!(e.message("r"), "Query returned no rows");
}

#[test]
fn settling_records_the_outcome() {
    let w = workflow(vec![task("a", &[]), task("b", &[]), task("c", &[])]);
    let (mut db, id) = setup(&w, 3);
    let mut s = Scheduler::begin(&mut db, &id, false, 10).ok().unwrap();
    assert!(matches!(s.next(&mut db, false, 11), Action::Launch(_)));
    s.settle(&mut db, "a", &Outcome::Success, 12);
    s.settle(&mut db, "b", &Outcome::Failed("non".into()), 13);
    s.settle(&mut db, "c", &Outcome::Interrupted, 14);
    let view = db.detail(&id).unwrap();
    assert_eq!(statuses(&view), vec!["success", "failed", "pending"]);
    assert_eq!(view.tasks[0].finished_at, Some(12));
    assert_eq!(view.tasks[1].error, Some("non".to_string()));
    assert_eq!(view.tasks[2].finished_at, None);
}
