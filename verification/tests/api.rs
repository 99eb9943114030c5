use kordrel::api::{detail, logs, task_logs, tasks, EventFeed, Failure, ERROR_DELAY, POLL_DELAY};
use kordrel::db::Db;
use kordrel::workflow::{Task, Workflow};
use std::collections::HashMap;

fn setup() -> Db {
    let w = Workflow {
        name: "test".into(),
        max_parallel: None,
        tasks: vec![Task {
            id: "hello".into(),
            command: "sh".into(),
            args: vec!["-c".into(), "echo hello".into()],
            dependencies: vec![],
            workdir: None,
            timeout_seconds: None,
            retries: None,
            max_attempts: None,
            env: HashMap::new(),
        }],
    };
    let mut db = Db::new();
    db.create_run_as("r", &w, "/src", 1, 1).unwrap();
    db
}

#[test]
fn api_returns_persisted_states_and_logs() {
    let mut db = setup();
    db.start_attempt("r", "hello", 2).unwrap();
    db.log("r", "hello", 1, "stdout", "hello", 3);
    db.finish_attempt("r", "hello", 1, "success", None, 4);
    let value = detail(&db, "r").unwrap();
    assert_eq!(value.tasks[0].status, "success");
    assert_eq!(tasks(&db, "r").unwrap()[0].status, "success");
    assert_eq!(task_logs(&db, "r", "hello").unwrap()[0].line, "hello");
    assert_eq!(logs(&db, "r").unwrap().len(), 1);
}

#[test]
fn unknown_runs_and_tasks_are_not_found() {
    let db = setup();
    let run = |f: Failure| {
        assert_eq!(f.status, 404);
        assert_eq!(f.message, "exécution inconnue");
        assert_eq!(f.body(), "{\"error\":\"exécution inconnue\"}");
    };
    run(detail(&db, "x").unwrap_err());
    run(tasks(&db, "x").unwrap_err());
    run(logs(&db, "x").unwrap_err());
    run(task_logs(&db, "x", "hello").unwrap_err());
    run(EventFeed::open(&db, "x", None).err().unwrap());
    let f = task_logs(&db, "r", "x").unwrap_err();
    assert_eq!(f.status, 404);
    assert_eq!(f.body(), "{\"error\":\"tâche inconnue\"}");
    assert!(task_logs(&db, "r", "hello").unwrap().is_empty());
}

#[test]
fn internal_failures_carry_their_message() {
    let f = Failure::internal("a \"b\"\u{1}");
    assert_eq!(f.status, 500);
    let mut map = serde_json::Map::new();
    map.insert("error".into(), serde_json::Value::from("a \"b\"\u{1}"));
    assert_eq!(f.body(), serde_json::Value::Object(map).to_string());
}

#[test]
fn feed_delivers_each_event_once_and_in_order() {
    let mut db = setup();
    let mut feed = EventFeed::open(&db, "r", None).ok().unwrap();
    let mut seen = vec![];
    for i in 0..500 {
        db.event("r", "k", i.to_string(), i);
        db.event("other", "k", i.to_string(), i);
        if i % 7 == 0 {
            seen.push(feed.next(&db).unwrap());
        }
    }
    while let Some(row) = feed.next(&db) {
        seen.push(row);
    }
    assert_eq!(seen.len(), 501);
    assert_eq!(seen[0].kind, "run");
    for i in 0..500 {
        assert_eq!(seen[i + 1].payload, i.to_string());
        assert!(seen[i].id < seen[i + 1].id);
    }
    assert!(feed.next(&db).is_none());
    db.event("r", "k", "new".into(), 1);
    assert_eq!(feed.next(&db).unwrap().payload, "new");
    assert!(feed.next(&db).is_none());
}

#[test]
fn feed_goes_on_behind_the_last_event_seen() {
    let mut db = setup();
    for i in 0..5 {
        db.event("r", "k", i.to_string(), i);
    }
    let first = |last: Option<&str>| {
        let mut feed = EventFeed::open(&db, "r", last).ok().unwrap();
        feed.next(&db).map(|e| e.id)
    };
    assert_eq!(first(None), Some(1));
    assert_eq!(first(Some("3")), Some(4));
    assert_eq!(first(Some("+3")), Some(4));
    assert_eq!(first(Some("-1")), Some(1));
    assert_eq!(first(Some("abc")), Some(1));
    assert_eq!(first(Some("99999999999999999999")), Some(1));
    assert_eq!(first(Some("6")), None);
}

#[test]
fn delays_of_the_feed() {
    assert_eq!(POLL_DELAY, 500);
    assert_eq!(ERROR_DELAY, 1000);
}
