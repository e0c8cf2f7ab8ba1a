//! Data, paths and ids.

use loom::clock::Timestamp;
use loom::error::Error;
use loom::model::{
    extension_is, join_path, new_id, Ancestor, Escalation, Policy, Task, TaskState, Workspace,
};

fn up(path: &str, has_work: bool) -> Ancestor {
    Ancestor { path: path.into(), has_work }
}

#[test]
fn workspace_discovery_walks_up() {
    let way = vec![up("/tmp/x/a/b", false), up("/tmp/x/a", false), up("/tmp/x", true), up("/", true)];
    assert_eq!(Workspace::discover("/tmp/x/a/b", &way).unwrap().root, "/tmp/x");
    let orphan = vec![up("/tmp/y", false), up("/tmp", false), up("/", false)];
    match Workspace::discover("/tmp/y", &orphan) {
        Err(Error::WorkspaceNotFound(start)) => assert_eq!(start, "/tmp/y"),
        _ => panic!("an orphan has no workspace"),
    }
}

#[test]
fn policy_defaults_include_independent_verification() {
    let p = Policy::default();
    assert_eq!(p.budget.tiers_minutes, vec![10, 45, 180]);
    assert_eq!(p.verify.mode, "independent");
    assert_eq!(p.lease.ttl_minutes, 15);
    assert_eq!(p.lease.heartbeat_minutes, 5);
    assert_eq!(f64::from_bits(p.schedule.half_life_bits), 72.0);
}

fn nanos() -> u128 {
    std::time::SystemTime::now().duration_since(std::time::UNIX_EPOCH).unwrap().as_nanos()
}

#[test]
fn ids_are_unique_enough() {
    let start = nanos();
    let a = new_id(start, 4711);
    let mut now = nanos();
    while now < start + 2_000_000 {
        now = nanos();
    }
    assert_ne!(a, new_id(now, 4711));
}

#[test]
fn an_id_is_the_low_hex_digits_reversed() {
    // the hexadecimal digits of the number, last first, ten at most
    let n: u128 = 0x1234_5678_9abc_def0;
    assert_eq!(new_id(n, 1), "0fedcba987");
    let text: String = format!("{:x}", n ^ (77u128 << 64)).chars().rev().take(10).collect();
    assert_eq!(new_id(n, 77), text);
    assert_eq!(new_id(0xabc, 0), "cba");
    assert_eq!(new_id(0, 0), "0");
    // times that differ in the low forty bits give different ids
    assert_ne!(new_id(n, 1), new_id(n + 1, 1));
    // the process number lies above those digits
    assert_eq!(new_id(n, 1), new_id(n, 2));
}

#[test]
fn paths_of_a_workspace() {
    let ws = Workspace { root: "/repo".into() };
    assert_eq!(ws.tasks_dir(), "/repo/.work/tasks");
    assert_eq!(ws.escalations_dir(), "/repo/.work/escalations");
    assert_eq!(ws.policy_path(), "/repo/.work/policy.toml");
    assert_eq!(ws.task_path("abc"), "/repo/.work/tasks/abc.toml");
    assert_eq!(ws.escalation_path("e1"), "/repo/.work/escalations/e1.toml");
    let root = Workspace { root: "/".into() };
    assert_eq!(root.tasks_dir(), "/.work/tasks");
    assert_eq!(join_path("", "a"), "a");
    assert_eq!(join_path("/repo", "/abs"), "/abs");
}

#[test]
fn extensions_stand_behind_the_last_dot() {
    assert!(extension_is("a.toml", "toml"));
    assert!(extension_is("a.b.toml", "toml"));
    assert!(!extension_is(".toml", "toml"));
    assert!(!extension_is("atoml", "toml"));
    assert!(!extension_is("a.toml.bak", "toml"));
}

#[test]
fn an_escalation_is_open_until_it_is_answered() {
    let at = Timestamp::parse("2026-07-01T00:00:00Z").unwrap();
    let mut e = Escalation {
        id: "e".into(),
        question: "q".into(),
        options: vec!["a".into(), "b".into()],
        recommend: "a".into(),
        evidence: vec![],
        blocking: vec![],
        deadline: None,
        default: None,
        answer: None,
        answered_by: None,
        created: at,
    };
    assert!(e.is_open());
    e.answer = Some("a".into());
    assert!(!e.is_open());
}

#[test]
fn a_clone_is_the_same_task() {
    let t = Task {
        id: "abc".into(),
        goal: "do a thing".into(),
        state: TaskState::Open,
        value_bits: 5.0f64.to_bits(),
        deps: vec!["xyz".into()],
        contract: vec!["c".into()],
        accept: vec!["tests/accept/abc.rs".into()],
        context: vec!["git:HEAD".into()],
        tier_initial: 1,
        created: Timestamp::new(1_767_225_600, 5).unwrap(),
    };
    assert_eq!(format!("{:?}", t.clone()), format!("{t:?}"));
}
