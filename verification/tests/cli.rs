use kordrel::cli::{
    database_path, exit_code, give_up, lock_name, logs, parallel, prefer_database, simulation,
    status, validated,
};
use kordrel::db::Db;
use kordrel::scheduler::Scheduler;
use kordrel::workflow::{Task, Workflow};
use std::collections::HashMap;

fn task(id: &str, deps: &[&str]) -> Task {
    Task {
        id: id.into(),
        command: "true".into(),
        args: vec![],
        dependencies: deps.iter().map(|s| s.to_string()).collect(),
        workdir: None,
        timeout_seconds: None,
        retries: None,
        max_attempts: None,
        env: HashMap::new(),
    }
}

fn workflow(max_parallel: Option<i64>) -> Workflow {
    Workflow {
        name: "demo".into(),
        max_parallel,
        tasks: vec![task("a", &[]), task("b", &["a"]), task("c", &["a"])],
    }
}

#[test]
fn existing_database_is_preserved_during_rename() {
    let current = ".kordrel/kordrel.db";
    let legacy = ".forge/forge.db";
    assert_eq!(prefer_database(current, false, legacy, false), current);
    assert_eq!(prefer_database(current, false, legacy, true), legacy);
    assert_eq!(prefer_database(current, true, legacy, true), current);
    assert_eq!(prefer_database(current, true, legacy, false), current);
}

#[test]
fn named_databases_come_first() {
    assert_eq!(database_path(Some("a"), Some("b"), "c"), "a");
    assert_eq!(database_path(Some("a"), None, "c"), "a");
    assert_eq!(database_path(None, Some("b"), "c"), "b");
    assert_eq!(database_path(None, None, "c"), "c");
}

#[test]
fn limit_of_the_command_wins() {
    assert_eq!(parallel(&workflow(None), None), Ok(4));
    assert_eq!(parallel(&workflow(Some(7)), None), Ok(7));
    assert_eq!(parallel(&workflow(Some(7)), Some(1)), Ok(1));
    assert_eq!(parallel(&workflow(None), Some(1024)), Ok(1024));
    for n in [0, -1, 1025, i64::MIN, i64::MAX] {
        assert_eq!(
            parallel(&workflow(Some(7)), Some(n)),
            Err("max_parallel doit être entre 1 et 1024".to_string())
        );
    }
}

#[test]
fn lock_names() {
    assert_eq!(lock_name(false, "x"), "kordrel-x.lock");
    assert_eq!(lock_name(true, "x"), "forge-x.lock");
}

#[test]
fn only_failed_runs_fail_the_command() {
    assert_eq!(exit_code("failed"), 1);
    for s in ["success", "interrupted", ""] {
        assert_eq!(exit_code(s), 0);
    }
}

#[test]
fn printed_workflow() {
    assert_eq!(validated(&workflow(None)), "Workflow 'demo' valide (3 tâches)");
    assert_eq!(
        simulation(&workflow(None), 2),
        vec![
            "demo · limite de concurrence 2",
            "groupe 1 : a",
            "groupe 2 : b, c"
        ]
    );
}

fn setup() -> Db {
    let mut db = Db::new();
    db.create_run_as("r", &workflow(None), "/src", 2, 1).unwrap();
    db
}

#[test]
fn printed_status() {
    let mut db = setup();
    db.start_attempt("r", "a", 2).unwrap();
    db.set_task("r", "a", "failed", Some("code de sortie : 9"), 3);
    assert_eq!(
        status(&db, "r").unwrap(),
        vec![
            "demo [r] pending".to_string(),
            format!(
                "  {:<24} {:<12} essais={}{}",
                "a", "failed", 1, " erreur=code de sortie : 9"
            ),
            format!("  {:<24} {:<12} essais={}{}", "b", "pending", 0, ""),
            format!("  {:<24} {:<12} essais={}{}", "c", "pending", 0, ""),
        ]
    );
    assert_eq!(status(&db, "x"), Err("exécution inconnue : x".to_string()));
}

#[test]
fn printed_logs() {
    let mut db = setup();
    db.log("r", "a", 1, "stdout", "one", 1);
    db.log("r", "b", 2, "stderr", "two", 2);
    assert_eq!(
        logs(&db, "r", None).unwrap(),
        vec!["a #1 stdout: one", "b #2 stderr: two"]
    );
    assert_eq!(
        logs(&db, "r", Some("b")).unwrap(),
        vec!["b #2 stderr: two"]
    );
    assert_eq!(logs(&db, "r", Some("z")).unwrap(), Vec::<String>::new());
    assert_eq!(logs(&db, "x", None), Err("exécution inconnue : x".to_string()));
}

#[test]
fn given_up_runs_can_be_resumed() {
    let mut db = setup();
    give_up(&mut db, "r", 5);
    assert_eq!(db.detail("r").unwrap().run.status, "pending");
    give_up(&mut db, "x", 5);
    assert!(Scheduler::begin(&mut db, "r", false, 6).is_ok());
    db.set_task("r", "a", "queued", None, 7);
    give_up(&mut db, "r", 8);
    let d = db.detail("r").unwrap();
    assert_eq!(d.run.status, "interrupted");
    assert_eq!(d.run.finished_at, Some(8));
    assert_eq!(d.tasks[0].status, "pending");
    assert!(Scheduler::begin(&mut db, "r", true, 9).is_ok());
}
