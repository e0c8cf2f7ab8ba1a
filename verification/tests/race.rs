//! Two agents and one remote that compares and swaps.

use std::cell::RefCell;
use std::collections::BTreeMap;
use std::rc::Rc;

use loom::clock::Timestamp;
use loom::commands::{apply_default, lease, lease_payloads, Snapshot};
use loom::error::Error;
use loom::git::Git;
use loom::model::{Escalation, LeasePayload, Task, TaskState};
use loom::refs::{begin_lease, Decoded, MirrorRow};
use loom::runner::{Outcome, SystemRunner};
use loom::table::Table;

/// The refs of a remote, and how many commits were made.
#[derive(Default)]
struct Remote {
    refs: BTreeMap<String, String>,
    messages: BTreeMap<String, String>,
    commits: usize,
}

fn printed(s: &str) -> Outcome {
    Outcome::Finished {
        success: true,
        code: Some(0),
        stdout: s.as_bytes().to_vec(),
        stderr: vec![],
    }
}

fn refused() -> Outcome {
    Outcome::Finished {
        success: false,
        code: Some(1),
        stdout: vec![],
        stderr: b"[rejected] (stale info)\n".to_vec(),
    }
}

/// A git that knows one remote.
fn fake_git(remote: &RefCell<Remote>, program: &str, args: &[&str]) -> Outcome {
    assert_eq!(program, "git");
    let mut remote = remote.borrow_mut();
    match args[0] {
        "mktree" => printed("\n"),
        "commit-tree" => {
            remote.commits += 1;
            let sha = format!("c{}", remote.commits);
            remote.messages.insert(sha.clone(), args[3].to_string());
            printed(&format!("{sha}\n"))
        }
        "fetch" => printed(""),
        "for-each-ref" => {
            let prefix = args[2].replace("mirror/", "");
            let lines: Vec<String> = remote
                .refs
                .iter()
                .filter(|(name, _)| name.starts_with(&prefix))
                .map(|(name, sha)| {
                    let mirror = name.replace("refs/loom/", "refs/loom/mirror/");
                    format!("{mirror}\0{sha}\0{}", remote.messages[sha])
                })
                .collect();
            printed(&lines.join("\n"))
        }
        "push" => {
            let (new, name) = args[2].split_once(':').unwrap();
            let lease = args[3].strip_prefix("--force-with-lease=").unwrap();
            let (lease_name, expected) = lease.split_once(':').unwrap();
            assert_eq!(name, lease_name);
            let current = remote.refs.get(name).cloned().unwrap_or_default();
            if current != expected {
                return refused();
            }
            if new.is_empty() {
                remote.refs.remove(name);
            } else {
                remote.refs.insert(name.to_string(), new.to_string());
            }
            printed("")
        }
        other => panic!("unexpected git {other}"),
    }
}

fn ts(s: &str) -> Timestamp {
    Timestamp::parse(s).unwrap()
}

fn clone_of(
    remote: &Rc<RefCell<Remote>>,
) -> Git<SystemRunner<impl Fn(&str, &[&str]) -> Outcome>> {
    let remote = remote.clone();
    let launch = move |program: &str, args: &[&str]| fake_git(&remote, program, args);
    Git::new(SystemRunner::new(launch), None)
}

/// The payload of these leases is the name of the agent.
fn read(row: MirrorRow) -> Decoded<LeasePayload> {
    let value = Ok(begin_lease(&row.suffix, &row.msg, 0, ts("2026-07-01T00:00:00Z")));
    Decoded { suffix: row.suffix, sha: row.sha, value }
}

#[test]
fn exactly_one_agent_wins_a_race() {
    let remote = Rc::new(RefCell::new(Remote::default()));
    let mut a = clone_of(&remote);
    let mut b = clone_of(&remote);
    a.acquire_lease("t", "agent-a").unwrap();
    match b.acquire_lease("t", "agent-b").unwrap_err() {
        Error::LeaseRaceLost { task, .. } => assert_eq!(task, "t"),
        e => panic!("unexpected {e:?}"),
    }
    // other tasks are not touched by the race
    b.acquire_lease("u", "agent-b").unwrap();
    let rows: Vec<_> = b.lease_rows().unwrap().into_iter().map(read).collect();
    let seen = b.leases(&rows).unwrap();
    assert_eq!(seen.len(), 2);
    assert_eq!(seen.get("t").unwrap().payload.agent, "agent-a");
    assert_eq!(seen.get("u").unwrap().payload.agent, "agent-b");
    let payloads = lease_payloads(&seen);
    assert_eq!(payloads.get("t").unwrap().agent, "agent-a");
    assert!(payloads.get("v").is_none());
    // only once the lease is given up can the other have it
    assert!(b.acquire_lease("t", "agent-b").is_err());
    a.release_lease(&seen, "t", "agent-a", false).unwrap();
    b.acquire_lease("t", "agent-b").unwrap();
}

#[test]
fn what_changed_since_it_was_read_is_left_alone() {
    let remote = Rc::new(RefCell::new(Remote::default()));
    let mut a = clone_of(&remote);
    let mut b = clone_of(&remote);
    a.acquire_lease("t", "agent-a").unwrap();
    let rows: Vec<_> = b.lease_rows().unwrap().into_iter().map(read).collect();
    let stale = b.leases(&rows).unwrap();
    // the holder gives a sign of life, so the sweeper's view is out of date
    let sha = stale.get("t").unwrap().sha.clone();
    a.heartbeat_lease("t", &sha, "agent-a").unwrap();
    assert!(matches!(b.release_lease(&stale, "t", "agent-b", true), Err(Error::Git { .. })));
    assert!(matches!(a.heartbeat_lease("t", &sha, "agent-a"), Err(Error::Git { .. })));
    assert!(remote.borrow().refs.contains_key("refs/loom/lease/t"));
}

#[test]
fn attempts_never_overwrite_each_other() {
    let remote = Rc::new(RefCell::new(Remote::default()));
    let mut a = clone_of(&remote);
    let mut b = clone_of(&remote);
    a.record_attempt("t", "id1", "one").unwrap();
    b.record_attempt("t", "id2", "two").unwrap();
    b.record_attempt("u", "id1", "three").unwrap();
    assert!(b.record_attempt("t", "id1", "four").is_err());
    let mut messages: Vec<String> =
        a.attempt_rows().unwrap().into_iter().map(|r| r.msg).collect();
    messages.sort();
    assert_eq!(messages, vec!["one", "three", "two"]);
}

#[test]
fn time_does_not_lift_a_hard_block() {
    let mut e = Escalation {
        id: "e".into(),
        question: "q".into(),
        options: vec!["a".into(), "b".into()],
        recommend: "a".into(),
        evidence: vec![],
        blocking: vec!["t".into()],
        deadline: Some(ts("2020-01-01T00:00:00Z")),
        default: None,
        answer: None,
        answered_by: None,
        created: ts("2019-01-01T00:00:00Z"),
    };
    let mut tasks = Table::new();
    tasks.insert(
        "t".into(),
        Task {
            id: "t".into(),
            goal: "g".into(),
            state: TaskState::Open,
            value_bits: 1.0f64.to_bits(),
            deps: vec![],
            contract: vec![],
            accept: vec![],
            context: vec![],
            tier_initial: 0,
            created: ts("2019-01-01T00:00:00Z"),
        },
    );
    let snap = Snapshot { tasks, leases: Table::new(), attempts: Table::new(), canonical: true };
    assert!(!apply_default(&mut e, &ts("2030-01-01T00:00:00Z")));
    let err = lease(&snap, Ok(vec![e.clone()]), "t", &vec![10]).unwrap_err();
    assert_eq!(err.exit_code(), 4);
    e.answer = Some("b".into());
    assert!(lease(&snap, Ok(vec![e]), "t", &vec![10]).is_ok());
}

#[test]
fn minutes_grow_with_time() {
    let start = ts("2026-07-01T00:00:00.5Z");
    let mut last = i64::MIN;
    for s in [
        "2026-06-30T23:58:00Z",
        "2026-07-01T00:00:00Z",
        "2026-07-01T00:01:00.4Z",
        "2026-07-01T00:01:00.5Z",
        "2026-07-02T00:00:00Z",
    ] {
        let m = ts(s).minutes_since(&start);
        assert!(m >= last);
        last = m;
    }
    assert_eq!(last, 1439);
}
