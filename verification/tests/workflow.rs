use kordrel::workflow::{Task, Workflow};
use std::collections::HashMap;

fn task(id: &str, deps: &[&str]) -> Task {
    Task {
        id: id.into(),
        command: "true".into(),
        args: vec![],
        dependencies: deps.iter().map(|s| s.to_string()).collect(),
        workdir: None,
        timeout_seconds: None,
        retries: None,
        max_attempts: None,
        env: HashMap::new(),
    }
}

#[test]
fn cycle_and_unknown_dependency() {
    let w = Workflow {
        name: "x".into(),
        max_parallel: None,
        tasks: vec![task("a", &["b"]), task("b", &["a"])],
    };
    assert!(w.validate().unwrap_err().to_string().contains("cycle"));
    let w = Workflow {
        name: "x".into(),
        max_parallel: None,
        tasks: vec![task("a", &["missing"])],
    };
    assert!(w
        .validate()
        .unwrap_err()
        .to_string()
        .contains("dépendance inconnue 'missing'"));
}

#[test]
fn duplicate_and_invalid_limits_name_tasks() {
    let mut a = task("a", &[]);
    a.timeout_seconds = Some(0);
    a.retries = Some(-1);
    let w = Workflow {
        name: "x".into(),
        max_parallel: Some(0),
        tasks: vec![a, task("a", &[])],
    };
    let message = w.validate().unwrap_err().to_string();
    assert!(message.contains("identifiant dupliqué"));
    assert!(message.contains("tâche 'a' : timeout_seconds"));
    assert!(message.contains("tâche 'a' : retries"));
    assert!(message.contains("max_parallel"));
}

fn workflow(tasks: Vec<Task>) -> Workflow {
    Workflow {
        name: "w".into(),
        max_parallel: None,
        tasks,
    }
}

#[test]
fn valid_workflow_is_accepted() {
    let w = workflow(vec![task("a", &[]), task("b", &["a"])]);
    assert_eq!(w.validate(), Ok(()));
}

#[test]
fn empty_workflow_reports_name_and_tasks() {
    let w = Workflow {
        name: " \t\u{a0}".into(),
        max_parallel: None,
        tasks: vec![],
    };
    assert_eq!(
        w.validate().unwrap_err(),
        "nom du workflow vide\nle workflow ne contient aucune tâche"
    );
}

#[test]
fn blank_id_and_command_are_reported() {
    let mut t = task(" ", &[]);
    t.command = "\n".into();
    assert_eq!(
        workflow(vec![t]).validate().unwrap_err(),
        "identifiant de tâche vide\ntâche ' ' : commande vide"
    );
}

#[test]
fn limits_are_inclusive() {
    let mut t = task("a", &[]);
    for n in [1, 604_800] {
        t.timeout_seconds = Some(n);
        assert!(workflow(vec![t.clone()]).validate().is_ok());
    }
    for n in [0, 604_801] {
        t.timeout_seconds = Some(n);
        let message = workflow(vec![t.clone()]).validate().unwrap_err();
        assert!(message.starts_with("tâche 'a' : timeout_seconds"));
    }
    t.timeout_seconds = None;
    for (n, ok) in [(-1, false), (0, true), (1000, true), (1001, false)] {
        t.retries = Some(n);
        let result = workflow(vec![t.clone()]).validate();
        assert_eq!(result.is_ok(), ok);
        if !ok {
            assert_eq!(
                result.unwrap_err(),
                "tâche 'a' : retries doit être entre 0 et 1000"
            );
        }
    }
    t.retries = None;
    for (n, ok) in [(0, false), (1, true), (1001, true), (1002, false)] {
        t.max_attempts = Some(n);
        let result = workflow(vec![t.clone()]).validate();
        assert_eq!(result.is_ok(), ok);
        if !ok {
            assert_eq!(
                result.unwrap_err(),
                "tâche 'a' : max_attempts doit être entre 1 et 1001"
            );
        }
    }
    for (n, ok) in [(0, false), (1, true), (1024, true), (1025, false)] {
        let mut w = workflow(vec![task("a", &[])]);
        w.max_parallel = Some(n);
        assert_eq!(w.validate().is_ok(), ok);
    }
}

#[test]
fn retries_and_max_attempts_exclude_each_other() {
    let mut t = task("a", &[]);
    t.retries = Some(1);
    t.max_attempts = Some(2);
    assert_eq!(
        workflow(vec![t]).validate().unwrap_err(),
        "tâche 'a' : choisir retries ou max_attempts"
    );
}

#[test]
fn repeated_dependencies_are_reported() {
    let w = workflow(vec![task("a", &[]), task("b", &["a", "a", "a"])]);
    assert_eq!(
        w.validate().unwrap_err(),
        "tâche 'b' : dépendance 'a' dupliquée\ntâche 'b' : dépendance 'a' dupliquée"
    );
}

#[test]
fn cycles_are_searched_only_where_nothing_else_is_wrong() {
    let w = workflow(vec![task("a", &["b"]), task("b", &["a", "x"])]);
    assert_eq!(
        w.validate().unwrap_err(),
        "tâche 'b' : dépendance inconnue 'x'"
    );
    let w = workflow(vec![task("a", &["a"])]);
    assert_eq!(w.validate().unwrap_err(), "cycle impliquant la tâche 'a'");
    let w = workflow(vec![
        task("a", &[]),
        task("b", &["a", "d"]),
        task("c", &["b"]),
        task("d", &["c"]),
    ]);
    assert_eq!(w.validate().unwrap_err(), "cycle impliquant la tâche 'b'");
}

#[test]
fn two_cycles_give_two_reports() {
    let w = workflow(vec![
        task("a", &["b"]),
        task("b", &["a"]),
        task("c", &["d"]),
        task("d", &["c"]),
    ]);
    assert_eq!(
        w.validate().unwrap_err(),
        "cycle impliquant la tâche 'a'\ncycle impliquant la tâche 'c'"
    );
}

#[test]
fn budget_of_attempts() {
    let mut t = task("a", &[]);
    assert_eq!(t.attempts(), 1);
    t.retries = Some(2);
    assert_eq!(t.attempts(), 3);
    assert!(!t.spent(2));
    assert!(t.spent(3));
    t.retries = None;
    t.max_attempts = Some(3);
    assert_eq!(t.attempts(), 3);
    assert!(!t.spent(2));
    assert!(t.spent(3));
    t.max_attempts = None;
    t.retries = Some(i64::MAX);
    assert!(!t.spent(i64::MAX));
}

#[test]
fn directory_is_that_of_the_workflow_by_default() {
    let mut t = task("a", &[]);
    assert_eq!(t.directory(), ".");
    t.workdir = Some("sub".into());
    assert_eq!(t.directory(), "sub");
}

#[test]
fn deadline_is_the_timeout() {
    let mut t = task("a", &[]);
    assert_eq!(t.deadline(), None);
    t.timeout_seconds = Some(7);
    assert_eq!(t.deadline(), Some(7));
}

#[test]
fn groups_follow_dependencies() {
    let w = workflow(vec![
        task("prepare", &[]),
        task("by_region", &["prepare"]),
        task("by_month", &["prepare"]),
        task("validate", &["by_region", "by_month"]),
        task("report", &["validate"]),
    ]);
    assert_eq!(
        w.groups(2),
        vec![
            vec!["prepare"],
            vec!["by_region", "by_month"],
            vec!["validate"],
            vec!["report"]
        ]
    );
    assert_eq!(
        w.groups(1),
        vec![
            vec!["prepare"],
            vec!["by_region"],
            vec!["by_month"],
            vec!["validate"],
            vec!["report"]
        ]
    );
}

#[test]
fn groups_stop_where_nothing_can_run() {
    let w = workflow(vec![task("a", &[]), task("b", &["c"]), task("c", &["b"])]);
    assert_eq!(w.groups(4), vec![vec!["a"]]);
    assert_eq!(w.groups(0), Vec::<Vec<String>>::new());
    assert_eq!(workflow(vec![]).groups(3), Vec::<Vec<String>>::new());
}

#[test]
fn distinct_tasks() {
    assert!(workflow(vec![task("a", &[]), task("b", &[])]).has_distinct_tasks());
    assert!(!workflow(vec![task("a", &[]), task("b", &[]), task("a", &[])]).has_distinct_tasks());
}

#[test]
fn copies_are_equal() {
    let mut t = task("a", &["b"]);
    t.env.insert("K".into(), "V".into());
    t.args.push("x".into());
    let w = workflow(vec![t]);
    assert_eq!(format!("{:?}", w.clone()), format!("{:?}", w));
}
