use kordrel::db::{
    AttemptRow, AttemptView, Db, DbError, EventRow, LogLine, LogRow, RunRow, RunSummary, Tables,
    TaskRow, TaskView,
};
use kordrel::workflow::{Task, Workflow};
use std::collections::HashMap;

fn task(id: &str, deps: &[&str]) -> Task {
    Task {
        id: id.into(),
        command: "true".into(),
        args: vec![],
        dependencies: deps.iter().map(|s| s.to_string()).collect(),
        workdir: None,
        timeout_seconds: None,
        retries: None,
        max_attempts: None,
        env: HashMap::new(),
    }
}

fn workflow(tasks: Vec<Task>) -> Workflow {
    Workflow {
        name: "test".into(),
        max_parallel: Some(2),
        tasks,
    }
}

fn new_db(id: &str, w: &Workflow) -> Db {
    let mut db = Db::new();
    assert_eq!(db.create_run_as(id, w, "/src", 2, 10), Ok(()));
    db
}

fn payloads(db: &Db, run: &str) -> Vec<(String, String)> {
    db.events_after(run, 0)
        .into_iter()
        .map(|e| (e.kind, e.payload))
        .collect()
}

fn last_event(db: &Db, run: &str) -> (String, String) {
    payloads(db, run).pop().unwrap()
}

#[test]
fn new_run_waits_with_all_its_tasks() {
    let w = workflow(vec![task("b", &[]), task("a", &["b"])]);
    let db = new_db("r", &w);
    let d = db.detail("r").unwrap();
    assert_eq!(d.run.id, "r");
    assert_eq!(d.run.name, "test");
    assert_eq!(d.run.status, "pending");
    assert_eq!(d.run.created_at, 10);
    assert_eq!(d.run.started_at, None);
    assert_eq!(d.run.finished_at, None);
    assert_eq!(d.source_dir, "/src");
    assert_eq!(d.max_parallel, 2);
    assert_eq!(d.workflow.tasks.len(), 2);
    let ids: Vec<_> = d.tasks.iter().map(|t| t.id.as_str()).collect();
    assert_eq!(ids, vec!["b", "a"]);
    for t in &d.tasks {
        assert_eq!(t.status, "pending");
        assert_eq!(t.attempts, 0);
        assert_eq!(t.started_at, None);
        assert_eq!(t.finished_at, None);
        assert_eq!(t.error, None);
    }
    assert!(d.attempts.is_empty());
    assert_eq!(
        payloads(&db, "r"),
        vec![("run".to_string(), "{\"status\":\"pending\"}".to_string())]
    );
    assert!(db.detail("other").is_none());
}

#[test]
fn run_identifiers_are_random_uuids() {
    let w = workflow(vec![task("a", &[])]);
    let mut db = Db::new();
    let first = db.create_run(&w, "/src", 2, 1).unwrap();
    let second = db.create_run(&w, "/src", 2, 2).unwrap();
    assert_ne!(first, second);
    for id in [&first, &second] {
        let chars: Vec<char> = id.chars().collect();
        assert_eq!(chars.len(), 36);
        for (i, c) in chars.iter().enumerate() {
            if [8, 13, 18, 23].contains(&i) {
                assert_eq!(*c, '-');
            } else {
                assert!(c.is_ascii_digit() || ('a'..='f').contains(c));
            }
        }
        assert_eq!(chars[14], '4');
        assert!("89ab".contains(chars[19]));
        assert!(db.detail(id).is_some());
    }
}

#[test]
fn run_and_task_identifiers_are_used_once() {
    let w = workflow(vec![task("a", &[])]);
    let mut db = new_db("r", &w);
    assert_eq!(
        db.create_run_as("r", &w, "/src", 2, 11),
        Err(DbError::RunExists)
    );
    let twice = workflow(vec![task("a", &[]), task("a", &[])]);
    assert_eq!(
        db.create_run_as("s", &twice, "/src", 2, 11),
        Err(DbError::TaskExists)
    );
    assert_eq!(
        db.create_run(&twice, "/src", 2, 11).unwrap_err(),
        DbError::TaskExists
    );
    assert!(db.detail("s").is_none());
    assert_eq!(payloads(&db, "s"), vec![]);
    assert_eq!(db.list_runs().len(), 1);
}

#[test]
fn run_status_sets_times() {
    let w = workflow(vec![task("a", &[])]);
    let mut db = new_db("r", &w);
    db.set_run("r", "running", 20);
    let run = db.detail("r").unwrap().run;
    assert_eq!(run.status, "running");
    assert_eq!(run.started_at, Some(20));
    assert_eq!(run.finished_at, None);
    db.set_run("r", "interrupted", 30);
    let run = db.detail("r").unwrap().run;
    assert_eq!(run.started_at, Some(20));
    assert_eq!(run.finished_at, Some(30));
    db.set_run("r", "running", 40);
    let run = db.detail("r").unwrap().run;
    assert_eq!(run.started_at, Some(20));
    assert_eq!(run.finished_at, None);
    assert_eq!(
        last_event(&db, "r"),
        ("run".to_string(), "{\"status\":\"running\"}".to_string())
    );
}

#[test]
fn task_status_sets_times_and_error() {
    let w = workflow(vec![task("a", &[]), task("b", &[])]);
    let mut db = new_db("r", &w);
    db.set_task("r", "a", "running", None, 20);
    let t = db.task("r", "a").unwrap();
    assert_eq!(t.started_at, Some(20));
    assert_eq!(t.finished_at, None);
    for status in ["success", "failed", "blocked"] {
        db.set_task("r", "a", status, Some("x"), 30);
        let t = db.task("r", "a").unwrap();
        assert_eq!(t.status, status);
        assert_eq!(t.started_at, Some(20));
        assert_eq!(t.finished_at, Some(30));
        assert_eq!(t.error, Some("x".to_string()));
    }
    for status in ["pending", "queued", "retrying"] {
        db.set_task("r", "a", status, None, 40);
        let t = db.task("r", "a").unwrap();
        assert_eq!(t.status, status);
        assert_eq!(t.started_at, Some(20));
        assert_eq!(t.finished_at, None);
        assert_eq!(t.error, None);
    }
    assert_eq!(db.task("r", "b").unwrap().status, "pending");
    assert_eq!(
        last_event(&db, "r").1,
        "{\"error\":null,\"status\":\"retrying\",\"task_id\":\"a\"}"
    );
}

#[test]
fn events_of_unknown_runs_are_still_recorded() {
    let mut db = Db::new();
    db.set_task("r", "a", "failed", Some("\"é\"\n"), 1);
    assert_eq!(
        payloads(&db, "r"),
        vec![(
            "task".to_string(),
            "{\"error\":\"\\\"é\\\"\\n\",\"status\":\"failed\",\"task_id\":\"a\"}".to_string()
        )]
    );
    assert!(db.tasks("r").is_empty());
}

#[test]
fn attempts_are_numbered_and_recorded() {
    let w = workflow(vec![task("a", &[])]);
    let mut db = new_db("r", &w);
    assert_eq!(db.start_attempt("r", "a", 20), Ok(1));
    assert_eq!(
        last_event(&db, "r"),
        (
            "task".to_string(),
            "{\"attempt\":1,\"status\":\"running\",\"task_id\":\"a\"}".to_string()
        )
    );
    db.finish_attempt("r", "a", 1, "failed", Some("boum"), 30);
    let t = db.task("r", "a").unwrap();
    assert_eq!(t.status, "running");
    assert_eq!(t.attempts, 1);
    assert_eq!(t.started_at, Some(20));
    assert_eq!(
        last_event(&db, "r"),
        (
            "attempt".to_string(),
            "{\"attempt\":1,\"error\":\"boum\",\"status\":\"failed\",\"task_id\":\"a\"}".to_string()
        )
    );
    assert_eq!(db.start_attempt("r", "a", 40), Ok(2));
    let t = db.task("r", "a").unwrap();
    assert_eq!(t.attempts, 2);
    assert_eq!(t.started_at, Some(20));
    assert_eq!(t.error, None);
    db.finish_attempt("r", "a", 2, "success", None, 50);
    let d = db.detail("r").unwrap();
    assert_eq!(d.tasks[0].status, "success");
    assert_eq!(d.tasks[0].finished_at, Some(50));
    assert_eq!(d.attempts.len(), 2);
    assert_eq!(d.attempts[0].number, 1);
    assert_eq!(d.attempts[0].status, "failed");
    assert_eq!(d.attempts[0].started_at, 20);
    assert_eq!(d.attempts[0].finished_at, Some(30));
    assert_eq!(d.attempts[0].error, Some("boum".to_string()));
    assert_eq!(d.attempts[1].number, 2);
    assert_eq!(d.attempts[1].status, "success");
    assert_eq!(d.attempts[1].error, None);
    let all = payloads(&db, "r");
    assert_eq!(
        all[all.len() - 2],
        (
            "task".to_string(),
            "{\"status\":\"success\",\"task_id\":\"a\"}".to_string()
        )
    );
    assert_eq!(
        all[all.len() - 1].1,
        "{\"attempt\":2,\"error\":null,\"status\":\"success\",\"task_id\":\"a\"}"
    );
}

fn run_row(id: &str, created_at: i64, w: &Workflow) -> RunRow {
    RunRow {
        run: RunSummary {
            id: id.into(),
            name: "test".into(),
            status: "running".into(),
            created_at,
            started_at: None,
            finished_at: None,
        },
        workflow: w.clone(),
        source_dir: "/src".into(),
        max_parallel: 1,
    }
}

fn task_row(run: &str, id: &str, status: &str, attempts: i64) -> TaskRow {
    TaskRow {
        run_id: run.into(),
        task: TaskView {
            id: id.into(),
            status: status.into(),
            attempts,
            started_at: None,
            finished_at: None,
            error: None,
        },
    }
}

fn attempt_row(run: &str, task: &str, number: i64, status: &str) -> AttemptRow {
    AttemptRow {
        run_id: run.into(),
        attempt: AttemptView {
            task_id: task.into(),
            number,
            status: status.into(),
            started_at: 1,
            finished_at: None,
            error: None,
        },
    }
}

fn log_row(run: &str, id: i64) -> LogRow {
    LogRow {
        run_id: run.into(),
        log: LogLine {
            id,
            task_id: "a".into(),
            attempt: 1,
            stream: "stdout".into(),
            line: "x".into(),
            created_at: 1,
        },
    }
}

fn event_row(run: &str, id: i64) -> EventRow {
    EventRow {
        id,
        run_id: run.into(),
        kind: "run".into(),
        payload: "{}".into(),
        created_at: 1,
    }
}

fn tables() -> Tables {
    Tables {
        runs: vec![],
        tasks: vec![],
        attempts: vec![],
        logs: vec![],
        events: vec![],
        last_log: 0,
        last_event: 0,
    }
}

#[test]
fn attempts_are_refused_where_they_cannot_be_counted() {
    let w = workflow(vec![task("a", &[]), task("b", &[])]);
    let mut t = tables();
    t.runs.push(run_row("r", 1, &w));
    t.tasks.push(task_row("r", "a", "pending", i64::MAX));
    t.tasks.push(task_row("r", "b", "pending", 4));
    t.attempts.push(attempt_row("r", "b", 5, "failed"));
    let mut db = Db::load(t).unwrap();
    assert_eq!(
        db.start_attempt("r", "a", 2),
        Err(DbError::TooManyAttempts)
    );
    assert_eq!(db.start_attempt("r", "b", 2), Err(DbError::AttemptExists));
    assert_eq!(db.start_attempt("r", "c", 2), Err(DbError::NoSuchTask));
    assert_eq!(db.task("r", "b").unwrap().status, "pending");
    assert_eq!(payloads(&db, "r"), vec![]);
}

#[test]
fn rows_that_do_not_fit_are_refused() {
    let w = workflow(vec![task("a", &[])]);
    let check = |t: Tables| matches!(Db::load(t), Err(DbError::Inconsistent));
    assert!(!check(tables()));
    let mut t = tables();
    t.runs.push(run_row("r", 1, &w));
    t.runs.push(run_row("r", 2, &w));
    assert!(check(t));
    let mut t = tables();
    t.runs.push(run_row("r", 1, &w));
    t.tasks.push(task_row("r", "a", "pending", 0));
    t.tasks.push(task_row("r", "a", "failed", 1));
    assert!(check(t));
    let mut t = tables();
    t.tasks.push(task_row("r", "a", "pending", 0));
    assert!(check(t));
    let mut t = tables();
    t.attempts.push(attempt_row("r", "a", 1, "failed"));
    t.attempts.push(attempt_row("r", "a", 1, "running"));
    assert!(check(t));
    let mut t = tables();
    t.logs.push(log_row("r", 2));
    t.logs.push(log_row("r", 2));
    t.last_log = 2;
    assert!(check(t));
    let mut t = tables();
    t.logs.push(log_row("r", 2));
    t.last_log = 1;
    assert!(check(t));
    let mut t = tables();
    t.last_log = -1;
    assert!(check(t));
    let mut t = tables();
    t.events.push(event_row("r", 2));
    t.events.push(event_row("r", 1));
    t.last_event = 2;
    assert!(check(t));
    let mut t = tables();
    t.events.push(event_row("r", 0));
    assert!(check(t));
    let mut t = tables();
    t.last_event = -1;
    assert!(check(t));
    let mut t = tables();
    t.runs.push(run_row("r", 1, &w));
    t.tasks.push(task_row("r", "a", "pending", 0));
    t.attempts.push(attempt_row("r", "a", 1, "failed"));
    t.attempts.push(attempt_row("r", "a", 2, "failed"));
    t.events.push(event_row("r", 3));
    t.logs.push(log_row("r", 5));
    t.last_event = 3;
    t.last_log = 9;
    let back = Db::load(t).unwrap().into_tables();
    assert_eq!(back.attempts.len(), 2);
    assert_eq!(back.last_log, 9);
}

#[test]
fn recovery_sets_interrupted_tasks_back() {
    let mut t1 = task("spent", &[]);
    t1.max_attempts = Some(1);
    let mut t2 = task("left", &[]);
    t2.max_attempts = Some(2);
    let names = ["queued", "retrying", "waiting", "success", "failed", "blocked"];
    let mut all = vec![t1, t2];
    all.extend(names.iter().map(|n| task(n, &[])));
    let w = workflow(all);
    let mut t = tables();
    t.runs.push(run_row("r", 1, &w));
    t.tasks.push(task_row("r", "spent", "running", 1));
    t.tasks.push(task_row("r", "left", "running", 1));
    t.tasks.push(task_row("r", "queued", "queued", 0));
    t.tasks.push(task_row("r", "retrying", "retrying", 1));
    t.tasks.push(task_row("r", "waiting", "pending", 1));
    t.tasks.push(task_row("r", "success", "success", 1));
    t.tasks.push(task_row("r", "failed", "failed", 1));
    t.tasks.push(task_row("r", "blocked", "blocked", 0));
    t.attempts.push(attempt_row("r", "left", 1, "running"));
    t.attempts.push(attempt_row("r", "success", 1, "success"));
    t.attempts.push(attempt_row("other", "left", 1, "running"));
    let mut db = Db::load(t).unwrap();
    assert_eq!(db.recover("r", &w, 99), Ok(()));
    let expect = |id: &str, status: &str, finished: Option<i64>, error: Option<&str>| {
        let t = db.task("r", id).unwrap();
        assert_eq!(t.status, status, "{}", id);
        assert_eq!(t.finished_at, finished, "{}", id);
        assert_eq!(t.error.as_deref(), error, "{}", id);
    };
    let spent = Some("budget de tentatives épuisé après interruption");
    let left = Some("tentative interrompue, reprise autorisée");
    expect("spent", "failed", Some(99), spent);
    expect("left", "pending", None, left);
    expect("queued", "pending", None, left);
    expect("retrying", "failed", Some(99), spent);
    expect("waiting", "failed", Some(99), spent);
    expect("success", "success", None, None);
    expect("failed", "failed", None, None);
    expect("blocked", "blocked", None, None);
    assert_eq!(db.task("r", "left").unwrap().attempts, 1);
    assert_eq!(payloads(&db, "r").len(), 5);
    assert_eq!(
        payloads(&db, "r")[1].1,
        "{\"error\":\"tentative interrompue, reprise autorisée\",\"status\":\"pending\",\"task_id\":\"left\"}"
    );
    assert_eq!(db.recover("r", &w, 100), Ok(()));
    assert_eq!(payloads(&db, "r").len(), 5);
    let back = db.into_tables();
    assert_eq!(back.attempts[0].attempt.status, "interrupted");
    assert_eq!(back.attempts[0].attempt.finished_at, Some(99));
    assert_eq!(
        back.attempts[0].attempt.error,
        Some("Kordrel interrompu".to_string())
    );
    assert_eq!(back.attempts[1].attempt.status, "success");
    assert_eq!(back.attempts[2].attempt.status, "running");
}

#[test]
fn recovery_of_an_unrecorded_task_changes_nothing() {
    let w = workflow(vec![task("a", &[])]);
    let mut db = new_db("r", &w);
    db.start_attempt("r", "a", 20).unwrap();
    let more = workflow(vec![task("a", &[]), task("b", &[])]);
    assert!(db.covers("r", &w));
    assert!(!db.covers("r", &more));
    assert_eq!(db.recover("r", &more, 30), Err(DbError::NoSuchTask));
    assert_eq!(db.task("r", "a").unwrap().status, "running");
    assert_eq!(db.detail("r").unwrap().attempts[0].status, "running");
}

#[test]
fn logs_read_back_in_order() {
    let w = workflow(vec![task("a", &[]), task("b", &[])]);
    let mut db = new_db("r", &w);
    db.create_run_as("s", &w, "/src", 2, 11).unwrap();
    db.log("r", "a", 1, "stdout", "one", 1);
    db.log("r", "b", 1, "stderr", "two", 2);
    db.log("s", "a", 1, "stdout", "other", 3);
    db.log("r", "a", 2, "stdout", "three", 4);
    let lines = |v: Vec<LogLine>| v.into_iter().map(|l| l.line).collect::<Vec<_>>();
    assert_eq!(lines(db.logs("r", None)), vec!["one", "two", "three"]);
    assert_eq!(lines(db.logs("r", Some("a"))), vec!["one", "three"]);
    assert_eq!(lines(db.logs("r", Some("c"))), Vec::<String>::new());
    assert_eq!(lines(db.logs("s", None)), vec!["other"]);
    let found = db.logs("r", Some("b"));
    assert_eq!(found[0].id, 2);
    assert_eq!(found[0].attempt, 1);
    assert_eq!(found[0].stream, "stderr");
    assert_eq!(found[0].created_at, 2);
    assert_eq!(
        last_event(&db, "r"),
        (
            "log".to_string(),
            "{\"attempt\":2,\"line\":\"three\",\"stream\":\"stdout\",\"task_id\":\"a\"}".to_string()
        )
    );
}

#[test]
fn events_come_two_hundred_at_a_time() {
    let mut db = Db::new();
    for i in 0..450 {
        db.event("r", "k", i.to_string(), i);
        db.event("s", "k", i.to_string(), i);
    }
    let first = db.events_after("r", 0);
    assert_eq!(first.len(), 200);
    assert_eq!(first[0].id, 1);
    assert_eq!(first[199].payload, "199");
    let next = db.events_after("r", first[199].id);
    assert_eq!(next[0].payload, "200");
    assert_eq!(next.len(), 200);
    let last = db.events_after("r", next[199].id);
    assert_eq!(last.len(), 50);
    assert_eq!(db.events_after("r", last[49].id).len(), 0);
}

#[test]
fn the_hundred_newest_runs_are_listed() {
    let w = workflow(vec![task("a", &[])]);
    let mut db = Db::new();
    for i in 0..130i64 {
        let at = (i * 37) % 130;
        db.create_run_as(&i.to_string(), &w, "/src", 1, at).unwrap();
    }
    let list = db.list_runs();
    assert_eq!(list.len(), 100);
    let times: Vec<i64> = list.iter().map(|r| r.created_at).collect();
    assert_eq!(times, (30..130).rev().collect::<Vec<i64>>());
}

#[test]
fn operations_leave_other_runs_alone() {
    let w = workflow(vec![task("a", &[])]);
    let mut db = new_db("r", &w);
    db.create_run_as("s", &w, "/src", 2, 11).unwrap();
    let before = format!("{:?}", db.detail("s"));
    db.set_run("r", "running", 1);
    db.set_task("r", "a", "queued", None, 2);
    db.start_attempt("r", "a", 3).unwrap();
    db.finish_attempt("r", "a", 1, "success", None, 4);
    db.log("r", "a", 1, "stdout", "x", 5);
    db.recover("r", &w, 6).unwrap();
    assert_eq!(format!("{:?}", db.detail("s")), before);
    assert_eq!(db.events_after("s", 0).len(), 1);
}

#[test]
fn room_for_events() {
    let mut t = tables();
    t.last_event = i64::MAX - 3;
    let db = Db::load(t).unwrap();
    assert!(db.has_room(3));
    assert!(!db.has_room(4));
}

#[test]
fn refusals_have_a_message() {
    assert_eq!(DbError::NoSuchTask.message(), "Query returned no rows");
    assert_eq!(
        DbError::RunExists.message(),
        "UNIQUE constraint failed: runs.id"
    );
    assert_eq!(
        DbError::TaskExists.message(),
        "UNIQUE constraint failed: tasks.run_id, tasks.id"
    );
    assert_eq!(
        DbError::AttemptExists.message(),
        "UNIQUE constraint failed: attempts.run_id, attempts.task_id, attempts.number"
    );
    assert_eq!(
        DbError::TooManyAttempts.message(),
        "Invalid column type Real at index: 0, name: attempts"
    );
    assert_eq!(
        DbError::Inconsistent.message(),
        "lignes incohérentes dans la base"
    );
}

#[test]
fn recovery_is_idempotent_even_where_identifiers_repeat() {
    let mut one = task("a", &[]);
    one.max_attempts = Some(1);
    let mut three = task("a", &[]);
    three.max_attempts = Some(3);
    let w = workflow(vec![task("a", &[])]);
    let twice = workflow(vec![three, one]);
    let mut db = new_db("r", &w);
    db.start_attempt("r", "a", 20).unwrap();
    db.recover("r", &twice, 30).unwrap();
    assert_eq!(db.task("r", "a").unwrap().status, "failed");
    let events = payloads(&db, "r").len();
    let before = format!("{:?}", db.detail("r"));
    db.recover("r", &twice, 40).unwrap();
    assert_eq!(format!("{:?}", db.detail("r")), before);
    assert_eq!(payloads(&db, "r").len(), events);
}
