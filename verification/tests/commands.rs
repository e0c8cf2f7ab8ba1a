//! What the commands decide.

use loom::clock::Timestamp;
use loom::commands::{
    apply_default, attempt, attempt_ends, canonical_tasks, context, daemon_step, dead, dead_attempt, doctor,
    doctor_line, escalate, escalate_at, existing_knowledge, heartbeat_seconds, index_tasks, known_deps, lease,
    lease_payloads, main_ref, needs_probe, next, probe_done, show, sort_escalations, state_label,
    status, sweep, swept_attempt, task_create, tasks, telemetry, verify,
    verify_flags, ContextEntry, Ctx, DaemonStep, Failure, ParsedTask, Question, Snapshot, TaskSpec,
};
use loom::done::{Action, Done, Event};
use loom::error::Error;
use loom::git::Git;
use loom::model::{
    new_id, AttemptRecord, Escalation, HeldLease, History, LeasePayload, Policy, Task, TaskState,
    Verdict, Workspace,
};
use loom::protocol::Derived;
use loom::refs::{Decoded, MirrorRow};
use loom::runner::{ScriptRunner, Step};
use loom::json::stamp;
use loom::table::Table;
use serde_json::Value;

fn ts(s: &str) -> Timestamp {
    Timestamp::parse(s).unwrap()
}

fn ok(s: &str) -> Step {
    Step::Print(s.into())
}

fn fail(s: &str) -> Step {
    Step::Fail(s.into())
}

fn git(steps: Vec<Step>) -> Git<ScriptRunner> {
    Git { runner: ScriptRunner::new(steps), remote: "origin".into() }
}

fn assert_calls(g: &Git<ScriptRunner>, expected: &[&str]) {
    assert!(g.runner.is_done(), "unconsumed steps remain");
    assert_eq!(g.runner.count(), expected.len());
    for (i, fragment) in expected.iter().enumerate() {
        let call = g.runner.call(i);
        assert!(call.contains(fragment), "expected {fragment}, got {call}");
    }
}

fn task(id: &str, accept: bool) -> Task {
    Task {
        id: id.into(),
        goal: "g".into(),
        state: TaskState::Open,
        value_bits: 1.0f64.to_bits(),
        deps: vec![],
        contract: vec![],
        accept: if accept { vec!["t.rs".into()] } else { vec![] },
        context: vec![],
        tier_initial: 0,
        created: ts("2026-07-01T00:00:00Z"),
    }
}

fn text(v: &Value, key: &str) -> String {
    v.get(key).and_then(Value::as_str).unwrap().to_string()
}

fn attempt_of(row: MirrorRow) -> Decoded<AttemptRecord> {
    let v: Value = serde_json::from_str(&row.msg).unwrap();
    Decoded {
        suffix: row.suffix,
        sha: row.sha,
        value: Ok(AttemptRecord {
            task: text(&v, "task"),
            tier: v.get("tier").and_then(Value::as_u64).unwrap() as usize,
            sha: text(&v, "sha"),
            outcome: text(&v, "outcome"),
            lesson: text(&v, "lesson"),
            agent: text(&v, "agent"),
            at: ts(&text(&v, "at")),
        }),
    }
}

fn verdict_of(row: MirrorRow) -> Decoded<Verdict> {
    let v: Value = serde_json::from_str(&row.msg).unwrap();
    Decoded {
        suffix: row.suffix,
        sha: row.sha,
        value: Ok(Verdict {
            task: text(&v, "task"),
            sha: text(&v, "sha"),
            verdict: text(&v, "verdict"),
            agent: text(&v, "agent"),
            self_verdict: v.get("self_verdict").and_then(Value::as_bool).unwrap(),
            at: ts(&text(&v, "at")),
        }),
    }
}

fn no_leases(rows: Vec<MirrorRow>) -> Vec<Decoded<LeasePayload>> {
    assert!(rows.is_empty());
    vec![]
}

fn held(agent: &str, task: &str, acquired: Option<&str>, heartbeat: &str) -> HeldLease {
    HeldLease {
        payload: LeasePayload {
            agent: agent.into(),
            task: task.into(),
            tier: 0,
            acquired: acquired.map(ts),
            heartbeat: ts(heartbeat),
        },
        sha: "sha".into(),
    }
}

fn snapshot(all: Vec<Task>) -> Snapshot {
    let mut t = Table::new();
    for one in all {
        t.insert(one.id.clone(), one);
    }
    Snapshot { tasks: t, leases: Table::new(), attempts: Table::new(), canonical: true }
}

fn tiers() -> Vec<u64> {
    vec![10, 45, 180]
}

/// A task file in memory: what it says of the state.
struct File {
    state: TaskState,
    kept: Option<TaskState>,
}

/// Runs `done` on a task, as a caller does who can read and write the file.
fn run_done(
    g: &mut Git<ScriptRunner>,
    file: &mut File,
    message: Option<String>,
    agent: &str,
) -> Result<(), Error> {
    let (mut done, mut action) = Done::start("abc", "independent", &message);
    loop {
        let event = match action {
            Action::Load => {
                let mut t = task("abc", true);
                t.state = file.state;
                Event::Loaded(Ok(t))
            }
            Action::Test(path) => Event::Tested(path == "t.rs"),
            Action::Head => Event::HeadRead(g.head()),
            Action::Judge => {
                g.fetch_loom_refs().unwrap();
                let rows: Vec<_> = g.verdict_rows().unwrap().into_iter().map(verdict_of).collect();
                Event::Judged { verdict: g.verdict(&rows, "abc"), agent: agent.into() }
            }
            Action::Keep => {
                file.kept = Some(file.state);
                Event::Kept(Ok(()))
            }
            Action::Save(t) => {
                file.state = t.state;
                Event::Saved(Ok(()))
            }
            Action::Commit(m) => Event::Committed(g.commit_all(&m)),
            Action::Restore => {
                file.state = file.kept.unwrap();
                Event::Restored(Ok(()))
            }
            Action::Release => {
                g.fetch_loom_refs().unwrap();
                let rows = no_leases(g.lease_rows().unwrap());
                let leases = g.leases(&rows).unwrap();
                let _ = g.release_lease(&leases, "abc", agent, false);
                Event::Released
            }
            Action::Finish => return Ok(()),
            Action::Fail(e) => return Err(e),
        };
        let (d, a) = done.step(event);
        done = d;
        action = a;
    }
}

#[test]
fn done_is_gated_atomic_and_rolls_back_on_commit_failure() {
    let approve = "refs/loom/mirror/verdict/abc";
    let mut file = File { state: TaskState::Open, kept: None };

    // 1) VerdictMissing (mode independent, no verdict): exit 5, no writes.
    let mut g = git(vec![ok("headsha"), ok(""), ok("")]);
    let err = run_done(&mut g, &mut file, None, "impl-agent").unwrap_err();
    assert_eq!(err.exit_code(), 5);
    assert_calls(&g, &["git rev-parse HEAD", "git fetch origin --prune", "git for-each-ref"]);
    assert_eq!(file.state, TaskState::Open);
    assert!(file.kept.is_none());

    // 2) Self-verdict blocked in independent mode.
    let selfv = format!("{approve}\0s\0{{\"task\":\"abc\",\"sha\":\"headsha\",\"verdict\":\"approve\",\"agent\":\"impl-agent\",\"self_verdict\":true,\"at\":\"2026-07-01T00:00:00Z\"}}");
    let mut g2 = git(vec![ok("headsha"), ok(""), ok(&selfv)]);
    assert!(matches!(
        run_done(&mut g2, &mut file, None, "impl-agent").unwrap_err(),
        Error::VerdictNotIndependent { .. }
    ));
    assert!(g2.runner.is_done());

    // 3) Valid independent verdict, but the commit fails: file restored,
    //    error DoneNotCommitted.
    let okv = format!("{approve}\0s\0{{\"task\":\"abc\",\"sha\":\"headsha\",\"verdict\":\"approve\",\"agent\":\"rev\",\"self_verdict\":false,\"at\":\"2026-07-01T00:00:00Z\"}}");
    let mut g3 = git(vec![
        ok("headsha"),
        ok(""),
        ok(&okv),
        ok(""),
        fail("pre-commit hook failed"),
    ]);
    let err = run_done(&mut g3, &mut file, None, "impl-agent").unwrap_err();
    match err {
        Error::DoneNotCommitted { task, msg } => {
            assert_eq!(task, "abc");
            assert!(msg.contains("pre-commit hook failed"));
        }
        e => panic!("unexpected {e:?}"),
    }
    assert_eq!(
        file.state,
        TaskState::Open,
        "task file must be rolled back on commit failure"
    );
    assert_calls(
        &g3,
        &[
            "git rev-parse HEAD",
            "git fetch origin --prune",
            "git for-each-ref",
            "git add -A",
            "git commit -m task abc: g",
        ],
    );

    // 4) Happy path: verdict ok, commit ok, lease release best-effort.
    let mut g4 = git(vec![
        ok("headsha"),
        ok(""),
        ok(&okv),
        ok(""),
        ok("committed"),
        ok(""),
        ok(""), // release: no lease found, fine
    ]);
    run_done(&mut g4, &mut file, Some("msg".into()), "impl-agent").unwrap();
    assert_eq!(file.state, TaskState::Done);
    assert_calls(
        &g4,
        &[
            "git rev-parse HEAD",
            "git fetch origin --prune",
            "git for-each-ref",
            "git add -A",
            "git commit -m msg",
            "git fetch origin --prune",
            "git for-each-ref",
        ],
    );
}

#[test]
fn done_refuses_before_anything_is_written() {
    // no acceptance tests
    let (d, a) = Done::start("abc", "off", &None);
    assert!(matches!(a, Action::Load));
    match d.step(Event::Loaded(Ok(task("abc", false)))).1 {
        Action::Fail(Error::Other(msg)) => {
            assert_eq!(msg, "refusing to mark 'abc' done: it has no acceptance tests");
        }
        a => panic!("unexpected {a:?}"),
    }
    // a test that is not there, even where no verdict is asked for
    let (d, _) = Done::start("abc", "off", &None);
    let mut t = task("abc", true);
    t.accept = vec!["a.rs".into(), "b.rs".into()];
    let (d, a) = d.step(Event::Loaded(Ok(t)));
    assert!(matches!(a, Action::Test(p) if p == "a.rs"));
    let (d, a) = d.step(Event::Tested(true));
    assert!(matches!(a, Action::Test(p) if p == "b.rs"));
    match d.step(Event::Tested(false)).1 {
        Action::Fail(Error::Other(msg)) => {
            assert_eq!(msg, "acceptance test 'b.rs' does not exist on disk");
        }
        a => panic!("unexpected {a:?}"),
    }
    // a file that cannot be read
    let (d, _) = Done::start("abc", "off", &None);
    let lost = Event::Loaded(Err(Error::TaskNotFound("abc".into())));
    assert!(matches!(d.step(lost).1, Action::Fail(Error::TaskNotFound(_))));
    // an event out of turn
    let (d, _) = Done::start("abc", "off", &None);
    assert!(matches!(d.step(Event::Released).1, Action::Fail(Error::Other(_))));
}

#[test]
fn done_flips_nothing_but_the_state() {
    let (d, _) = Done::start("abc", "off", &None);
    let (d, _) = d.step(Event::Loaded(Ok(task("abc", true))));
    let (d, a) = d.step(Event::Tested(true));
    assert!(matches!(a, Action::Head));
    let (d, a) = d.step(Event::HeadRead(Ok("h".into())));
    assert!(matches!(a, Action::Judge));
    let (d, a) = d.step(Event::Judged { verdict: Ok(None), agent: "me".into() });
    assert!(matches!(a, Action::Keep));
    let (d, a) = d.step(Event::Kept(Ok(())));
    let mut wanted = task("abc", true);
    wanted.state = TaskState::Done;
    match a {
        Action::Save(t) => assert_eq!(format!("{t:?}"), format!("{wanted:?}")),
        a => panic!("unexpected {a:?}"),
    }
    // a write that fails is the error, and nothing is committed
    let failed = Event::Saved(Err(Error::Io("disk full".into())));
    assert!(matches!(d.step(failed).1, Action::Fail(Error::Io(_))));
}

#[test]
fn attempt_records_ref_and_exit2_at_ladder_end() {
    // snapshot: fetch, leases, attempts, canonical fetch fails: the worktree's
    // task; then the attempt is pushed and the lease released.
    let two_attempts = "refs/loom/mirror/attempt/abc/x\0s\0{\"task\":\"abc\",\"tier\":0,\"sha\":\"a\",\"outcome\":\"tests-red\",\"lesson\":\"1\",\"agent\":\"a\",\"at\":\"2026-07-01T00:00:00Z\"}\nrefs/loom/mirror/attempt/abc/y\0s\0{\"task\":\"abc\",\"tier\":1,\"sha\":\"b\",\"outcome\":\"tests-red\",\"lesson\":\"2\",\"agent\":\"a\",\"at\":\"2026-07-02T00:00:00Z\"}";
    let mut g = git(vec![
        ok(""),
        ok(""),
        ok(two_attempts),
        fail("no ref"),
        ok("tree"),
        ok("csha"),
        ok(""),
        ok(""),
        ok(""),
    ]);
    g.fetch_loom_refs().unwrap();
    let rows = no_leases(g.lease_rows().unwrap());
    let leases = g.leases(&rows).unwrap();
    let rows: Vec<_> = g.attempt_rows().unwrap().into_iter().map(attempt_of).collect();
    let attempts = g.attempts(&rows).unwrap();
    assert!(g.canonical_task_blobs("main").unwrap().is_none());
    let mut worktree = Table::new();
    worktree.insert("abc".into(), task("abc", true));
    let snap = Snapshot {
        tasks: worktree,
        leases: lease_payloads(&leases),
        attempts,
        canonical: false,
    };
    let failure = Failure { sha: "c".into(), outcome: "tests-red".into(), lesson: "3".into() };
    let now = ts("2026-07-03T00:00:00Z");
    let plan = attempt(&snap, &None, "abc", failure, "a", now, &tiers()).unwrap();
    assert_eq!(plan.record.tier, 2);
    assert_eq!(plan.record.sha, "c");
    g.record_attempt("abc", &new_id(1, 1), "{}").unwrap();
    g.fetch_loom_refs().unwrap();
    let rows = no_leases(g.lease_rows().unwrap());
    let leases = g.leases(&rows).unwrap();
    assert!(g.release_lease(&leases, "abc", "a", false).is_err());
    // third failure on a 3-tier ladder: exhausted
    let err = attempt_ends(&plan).unwrap_err();
    assert_eq!(err.exit_code(), 2);
    assert_calls(
        &g,
        &[
            "git fetch origin --prune",
            "git for-each-ref",
            "git for-each-ref",
            "git fetch origin main",
            "git mktree",
            "git commit-tree",
            "git push origin csha:refs/loom/attempt/abc/",
            "git fetch origin --prune",
            "git for-each-ref",
        ],
    );
}

#[test]
fn an_attempt_below_the_last_tier_leads_to_the_next() {
    let snap = snapshot(vec![task("abc", true)]);
    let failure = || Failure { sha: "c".into(), outcome: "tests-red".into(), lesson: "l".into() };
    let now = ts("2026-07-03T00:00:00Z");
    let plan = attempt(&snap, &None, "abc", failure(), "a", now, &tiers()).unwrap();
    assert_eq!(plan.record.tier, 0);
    assert_eq!(plan.record.task, "abc");
    assert_eq!(plan.record.outcome, "tests-red");
    assert_eq!(plan.record.lesson, "l");
    assert_eq!(plan.record.at, now);
    assert_eq!(attempt_ends(&plan).unwrap(), 1);
    // a task that only the worktree has
    let mut late = task("xyz", true);
    late.tier_initial = 2;
    let plan = attempt(&snap, &Some(late), "xyz", failure(), "a", now, &tiers()).unwrap();
    assert!(matches!(attempt_ends(&plan), Err(Error::TierExhausted { tier: 2, .. })));
    assert!(matches!(
        attempt(&snap, &None, "xyz", failure(), "a", now, &tiers()),
        Err(Error::TaskNotFound(_))
    ));
    // a ladder without tiers is exhausted from the start
    let plan = attempt(&snap, &None, "abc", failure(), "a", now, &vec![]).unwrap();
    assert!(attempt_ends(&plan).is_err());
}

#[test]
fn canonical_graph_is_used_when_remote_main_exists() {
    let mut g = git(vec![
        ok(""),
        ok(""),
        ok(""),
        ok(""),
        ok(".work/tasks/abc.toml"),
        ok("id=\"abc\"\ngoal=\"canonical goal\"\nstate=\"open\"\naccept=[\"t.rs\"]\ncreated=\"2026-07-01T00:00:00Z\"\n"),
    ]);
    g.fetch_loom_refs().unwrap();
    let rows = no_leases(g.lease_rows().unwrap());
    let leases = g.leases(&rows).unwrap();
    assert!(g.attempt_rows().unwrap().is_empty());
    let blobs = g.canonical_task_blobs("main").unwrap().unwrap();
    // what the caller reads from the blob, whatever the worktree holds
    let files: Vec<ParsedTask> = blobs
        .iter()
        .map(|b| {
            let v: toml::Value = b.body.parse().unwrap();
            let mut t = task(v.get("id").and_then(|x| x.as_str()).unwrap(), true);
            t.goal = v.get("goal").and_then(|x| x.as_str()).unwrap().to_string();
            ParsedTask { path: b.path.clone(), task: Ok(t) }
        })
        .collect();
    // the worktree has a different copy, which must be ignored
    let worktree = vec![ParsedTask { path: "w".into(), task: Ok(task("abc", true)) }];
    let (tasks, canonical) = canonical_tasks(Ok(Some(files)), &worktree).unwrap();
    let snap = Snapshot {
        tasks,
        leases: lease_payloads(&leases),
        attempts: Table::new(),
        canonical,
    };
    assert!(snap.canonical);
    let (tasks, canonical) = canonical_tasks(Ok(None), &worktree).unwrap();
    assert!(!canonical);
    // a branch that cannot be read is an error, whatever the worktree holds
    let lost = Error::Git { args: vec![], code: Some(128), stderr: "no route".into() };
    assert!(matches!(canonical_tasks(Err(lost), &worktree), Err(Error::Git { .. })));
    assert_eq!(tasks.get("abc").unwrap().goal, "g");
    assert_eq!(snap.tasks.get("abc").unwrap().goal, "canonical goal");
    assert_calls(
        &g,
        &[
            "git fetch origin --prune",
            "git for-each-ref",
            "git for-each-ref",
            "git fetch origin main",
            "git ls-tree -r --name-only origin/main -- .work/tasks",
            "git show origin/main:.work/tasks/abc.toml",
        ],
    );
}

#[test]
fn a_task_file_that_cannot_be_read_is_a_parse_error() {
    let files = vec![
        ParsedTask { path: "a.toml".into(), task: Ok(task("a", true)) },
        ParsedTask { path: "b.toml".into(), task: Err("bad".into()) },
        ParsedTask { path: "c.toml".into(), task: Err("worse".into()) },
    ];
    match index_tasks(&files) {
        Err(Error::Parse { what, path, msg }) => {
            assert_eq!((what.as_str(), path.as_str(), msg.as_str()), ("task", "b.toml", "bad"));
        }
        _ => panic!("a bad file is an error"),
    }
    let mut newer = task("a", true);
    newer.goal = "newer".into();
    let files = vec![
        ParsedTask { path: "a.toml".into(), task: Ok(task("a", true)) },
        ParsedTask { path: "z.toml".into(), task: Ok(newer) },
    ];
    let t = index_tasks(&files).unwrap();
    assert_eq!(t.len(), 1);
    assert_eq!(t.get("a").unwrap().goal, "newer");
}

fn escalation(deadline: Option<&str>, default: Option<&str>) -> Escalation {
    Escalation {
        id: "e1".into(),
        question: "q".into(),
        options: vec!["a".into(), "b".into()],
        recommend: "a".into(),
        evidence: vec![],
        blocking: vec![],
        deadline: deadline.map(ts),
        default: default.map(String::from),
        answer: None,
        answered_by: None,
        created: ts("2019-12-01T00:00:00Z"),
    }
}

#[test]
fn escalation_deadline_defaults_still_apply() {
    let mut e = escalation(Some("2020-01-01T00:00:00Z"), Some("a"));
    assert!(apply_default(&mut e, &ts("2026-07-01T00:00:00Z")));
    assert_eq!(e.answer.as_deref(), Some("a"));
    assert_eq!(e.answered_by.as_deref(), Some("deadline-default"));
    // once is enough
    assert!(!apply_default(&mut e, &ts("2026-07-02T00:00:00Z")));
}

#[test]
fn defaults_wait_for_the_deadline() {
    let mut e = escalation(Some("2020-01-01T00:00:00Z"), Some("a"));
    assert!(!apply_default(&mut e, &ts("2019-12-31T23:59:59.999Z")));
    assert!(e.is_open());
    assert!(apply_default(&mut e, &ts("2020-01-01T00:00:00Z")));
    let later = ts("2030-01-01T00:00:00Z");
    assert!(!apply_default(&mut escalation(None, Some("a")), &later));
    assert!(!apply_default(&mut escalation(Some("2020-01-01T00:00:00Z"), None), &later));
    let mut answered = escalation(Some("2020-01-01T00:00:00Z"), Some("a"));
    answered.answer = Some("b".into());
    assert!(!apply_default(&mut answered, &later));
    assert_eq!(answered.answer.as_deref(), Some("b"));
}

fn question() -> Question {
    Question {
        question: "which?".into(),
        options: vec!["a".into(), "b".into()],
        recommend: "a".into(),
        evidence: vec!["log".into()],
        blocking: vec!["t1".into()],
        deadline: None,
        default: None,
    }
}

fn fault(q: Question) -> String {
    match escalate(q, "id".into(), ts("2026-07-01T00:00:00Z")) {
        Err(Error::Other(msg)) => msg,
        r => panic!("unexpected {r:?}"),
    }
}

#[test]
fn questions_are_checked_in_order() {
    let now = ts("2026-07-01T00:00:00Z");
    let e = escalate(question(), "id".into(), now).unwrap();
    assert!(e.is_open());
    assert_eq!((e.id.as_str(), e.recommend.as_str()), ("id", "a"));
    assert_eq!(e.created, now);
    assert_eq!(e.blocking, vec!["t1"]);

    let mut q = question();
    q.options = vec!["a".into()];
    q.recommend = "zzz".into();
    assert_eq!(fault(q), "an escalation needs at least two options");
    let mut q = question();
    q.recommend = "c".into();
    assert_eq!(fault(q), "--recommend must be one of the --option values");
    let mut q = question();
    q.default = Some("c".into());
    assert_eq!(fault(q), "--default must be one of the --option values");
    let mut q = question();
    q.default = Some("b".into());
    assert_eq!(fault(q), "--default requires --deadline");
    let mut q = question();
    q.deadline = Some("soon".into());
    let msg = fault(q);
    assert!(msg.starts_with("bad --deadline 'soon': "), "{msg}");

    let mut q = question();
    q.deadline = Some("2026-08-01T00:00:00Z".into());
    q.default = Some("b".into());
    let e = escalate(q, "id".into(), now).unwrap();
    assert_eq!(e.deadline, Some(ts("2026-08-01T00:00:00Z")));
    assert_eq!(e.default.as_deref(), Some("b"));

    // the same, for a deadline that was read elsewhere
    let mut q = question();
    q.deadline = Some("whenever".into());
    let read = Some(Err("not a time".to_string()));
    match escalate_at(q, read, "id".into(), now) {
        Err(Error::Other(msg)) => assert_eq!(msg, "bad --deadline 'whenever': not a time"),
        r => panic!("unexpected {r:?}"),
    }
}

#[test]
fn escalations_are_listed_in_the_order_of_filing() {
    let mut a = escalation(None, None);
    a.id = "late".into();
    a.created = ts("2026-07-02T00:00:00Z");
    let mut b = escalation(None, None);
    b.id = "first".into();
    b.created = ts("2026-07-01T00:00:00Z");
    let mut c = escalation(None, None);
    c.id = "second".into();
    c.created = ts("2026-07-01T00:00:00Z");
    let ids: Vec<String> = sort_escalations(&vec![a, b, c]).into_iter().map(|e| e.id).collect();
    assert_eq!(ids, vec!["first", "second", "late"]);
}

#[test]
fn an_agent_is_named_by_configuration_git_or_process() {
    let ctx = |steps| Ctx {
        git: git(steps),
        ws: Workspace { root: "/r".into() },
        policy: Policy::default(),
    };
    let mut c = ctx(vec![]);
    assert_eq!(c.agent(&Some("worker-1".into()), 7), "worker-1");
    assert_eq!(c.git.runner.count(), 0);
    let mut c = ctx(vec![ok("me@example.org")]);
    assert_eq!(c.agent(&Some("  ".into()), 7), "me@example.org");
    assert_calls(&c.git, &["git config user.email"]);
    assert_eq!(ctx(vec![ok("")]).agent(&None, 7), "agent-7");
    assert_eq!(ctx(vec![fail("unset")]).agent(&None, 4711), "agent-4711");
    assert_eq!(ctx(vec![]).agent(&None, 0), "agent-0");
    assert_eq!(main_ref(None), "main");
    assert_eq!(main_ref(Some("trunk".into())), "trunk");
}

#[test]
fn the_doctor_names_dangling_dependencies() {
    let mut a = task("a", true);
    a.deps = vec!["b".into(), "x".into(), "y".into()];
    let snap = snapshot(vec![a, task("b", true)]);
    match doctor(&snap, &Some(vec![])) {
        Err(Error::Other(msg)) => assert_eq!(msg, "dangling deps: a→x, a→y"),
        r => panic!("unexpected {r:?}"),
    }
    let snap = snapshot(vec![task("a", true), task("b", true)]);
    doctor(&snap, &Some(vec!["knowledge/x.md".into()])).unwrap();
    match doctor(&snap, &None) {
        Err(Error::Other(msg)) => assert_eq!(msg, "knowledge/ is missing: run `loom init`"),
        r => panic!("unexpected {r:?}"),
    }
    let ws = Workspace { root: "/repo".into() };
    assert_eq!(
        doctor_line(&ws, &snap, &Policy::default(), "me"),
        "ok: root=/repo graph=canonical(origin/main) tasks=2 tiers=[10, 45, 180] lease_ttl=15m verify=independent agent=me"
    );
}

#[test]
fn a_new_task_is_open_and_as_specified() {
    let mut worktree = Table::new();
    worktree.insert("known".into(), task("known", true));
    let mut canonical = Table::new();
    canonical.insert("shared".into(), task("shared", true));
    let now = ts("2026-07-01T00:00:00Z");
    let create = |deps: &[&str]| {
        let spec = TaskSpec {
            goal: "goal".into(),
            value_bits: 3.0f64.to_bits(),
            deps: deps.iter().map(|d| d.to_string()).collect(),
            contract: vec!["c".into()],
            accept: vec![],
            context: vec!["x".into()],
            tier: 1,
        };
        task_create(spec, &worktree, &canonical, "id1".into(), now)
    };
    let made = create(&["known", "shared"]).unwrap();
    assert_eq!(made.deps, vec!["known", "shared"]);
    match create(&["shared", "other", "known", "third"]).unwrap_err() {
        Error::TaskNotFound(dep) => assert_eq!(dep, "other"),
        e => panic!("unexpected {e:?}"),
    }
    let deps = vec!["shared".to_string()];
    known_deps(&deps, &worktree, &canonical).unwrap();
    assert!(matches!(
        known_deps(&deps, &worktree, &Table::new()),
        Err(Error::TaskNotFound(_))
    ));
    known_deps(&vec![], &Table::new(), &Table::new()).unwrap();
    assert_eq!(made.id, "id1");
    assert_eq!(made.state, TaskState::Open);
    assert_eq!(made.tier_initial, 1);
    assert_eq!(made.created, now);
    assert_eq!(f64::from_bits(made.value_bits), 3.0);
    assert!(needs_probe(&made));
    assert!(!needs_probe(&task("a", true)));
}

#[test]
fn labels_are_the_debug_text_in_lower_case() {
    assert_eq!(state_label(&Derived::Open), "open");
    assert_eq!(state_label(&Derived::Done), "done");
    assert_eq!(state_label(&Derived::Leased("Worker \"1\"".into())), "leased(\"worker \\\"1\\\"\")");
    let blocked = Derived::Blocked(vec!["A".into(), "b".into()]);
    assert_eq!(state_label(&blocked), "blocked([\"a\", \"b\"])");
    assert_eq!(state_label(&blocked), format!("{blocked:?}").to_lowercase());
}

fn tried(id: &str, times: usize) -> (String, History) {
    let records = (0..times)
        .map(|i| AttemptRecord {
            task: id.into(),
            tier: i,
            sha: "s".into(),
            outcome: "tests-red".into(),
            lesson: format!("lesson {i}"),
            agent: "a".into(),
            at: ts("2026-07-01T00:00:00Z"),
        })
        .collect();
    (id.into(), History { records })
}

#[test]
fn listings_show_derived_state_and_tier() {
    let mut blocked = task("b", true);
    blocked.deps = vec!["a".into()];
    let mut snap = snapshot(vec![blocked, task("a", true)]);
    let (id, h) = tried("a", 1);
    snap.attempts.insert(id, h);
    let rows = tasks(&snap, &tiers());
    assert_eq!(rows.len(), 2);
    assert_eq!((rows[0].id.as_str(), rows[0].state.as_str()), ("a", "parked"));
    assert_eq!((rows[0].tier, rows[0].attempts), (1, 1));
    assert_eq!(rows[1].state, "blocked([\"a\"])");
    assert_eq!(rows[1].deps, vec!["a"]);
    let s = show(&snap, "a", &tiers()).unwrap();
    assert_eq!(s.derived, "parked");
    assert_eq!(s.unblocks, 1);
    assert_eq!(s.tier, 1);
    assert_eq!(s.attempts.len(), 1);
    assert_eq!(s.attempts[0].lesson, "lesson 0");
    assert_eq!(s.graph, "canonical");
    assert!(show(&snap, "b", &tiers()).unwrap().attempts.is_empty());
    assert!(matches!(show(&snap, "c", &tiers()), Err(Error::TaskNotFound(_))));
}

#[test]
fn next_prints_the_best_or_all() {
    let snap = snapshot(vec![task("a", true), task("b", false)]);
    let scores = vec![1.0f64.to_bits(), 2.0f64.to_bits()];
    let best = next(&snap, &scores, &tiers(), false).unwrap();
    assert_eq!(best.len(), 1);
    assert_eq!(best[0].id, "b");
    let all = next(&snap, &scores, &tiers(), true).unwrap();
    assert_eq!(all.len(), 2);
    let nothing = snapshot(vec![]);
    assert!(matches!(
        next(&nothing, &vec![], &tiers(), false),
        Err(Error::NothingSchedulable)
    ));
}

#[test]
fn a_lease_is_granted_on_a_free_task_only() {
    let mut blocked = task("b", true);
    blocked.deps = vec!["a".into(), "x".into()];
    let mut finished = task("d", true);
    finished.state = TaskState::Done;
    let mut snap = snapshot(vec![task("a", true), blocked, finished, task("l", true)]);
    snap.leases.insert(
        "l".into(),
        held("w", "l", None, "2026-07-01T00:00:00Z").payload,
    );
    let g = lease(&snap, Ok(vec![]), "a", &tiers()).unwrap();
    assert_eq!((g.tier, g.minutes), (0, 10));
    assert!(!g.needs_probe && !g.resumes);
    let err = lease(&snap, Ok(vec![]), "l", &tiers()).unwrap_err();
    assert_eq!(err.exit_code(), 3);
    match lease(&snap, Ok(vec![]), "b", &tiers()).unwrap_err() {
        Error::Other(msg) => assert_eq!(msg, "task 'b' is blocked by open deps: a, x"),
        e => panic!("unexpected {e:?}"),
    }
    match lease(&snap, Ok(vec![]), "d", &tiers()).unwrap_err() {
        Error::Other(msg) => assert_eq!(msg, "task 'd' is not open"),
        e => panic!("unexpected {e:?}"),
    }
    assert!(matches!(lease(&snap, Ok(vec![]), "q", &tiers()), Err(Error::TaskNotFound(_))));
    // escalations that cannot be read only matter for a free task
    let unreadable = || Err(Error::Io("no".into()));
    assert!(matches!(lease(&snap, unreadable(), "a", &tiers()), Err(Error::Io(_))));
    assert!(matches!(lease(&snap, unreadable(), "l", &tiers()), Err(Error::LeaseRaceLost { .. })));
    // prior attempts raise the tier
    let (id, h) = tried("a", 2);
    snap.attempts.insert(id, h);
    let g = lease(&snap, Ok(vec![]), "a", &tiers()).unwrap();
    assert_eq!((g.tier, g.minutes, g.resumes), (2, 180, true));
}

#[test]
fn the_oracle_blocks_until_it_answers() {
    let snap = snapshot(vec![task("a", false)]);
    let mut e = escalation(None, None);
    e.blocking = vec!["z".into(), "a".into()];
    let err = lease(&snap, Ok(vec![e.clone()]), "a", &tiers()).unwrap_err();
    assert_eq!(err.exit_code(), 4);
    match err {
        Error::OracleBlocked { task, escalation } => {
            assert_eq!((task.as_str(), escalation.as_str()), ("a", "e1"));
        }
        e => panic!("unexpected {e:?}"),
    }
    let mut soft = e.clone();
    soft.default = Some("a".into());
    assert!(lease(&snap, Ok(vec![soft]), "a", &tiers()).unwrap().needs_probe);
    let mut answered = e.clone();
    answered.answer = Some("b".into());
    assert!(lease(&snap, Ok(vec![answered]), "a", &tiers()).is_ok());
    let mut other = e.clone();
    other.blocking = vec!["z".into()];
    assert!(lease(&snap, Ok(vec![other]), "a", &tiers()).is_ok());
}

#[test]
fn the_heartbeat_stops_with_lease_holder_or_budget() {
    let mut leases = Table::new();
    leases.insert(
        "t".into(),
        held("w", "t", Some("2026-07-16T00:00:00Z"), "2026-07-16T00:08:00Z"),
    );
    let step = |id: &str, agent: &str, now: &str| {
        daemon_step(&leases, id, agent, &ts(now), &tiers())
    };
    assert_eq!(step("t", "w", "2026-07-16T00:09:59Z"), DaemonStep::Beat);
    assert_eq!(step("t", "w", "2026-07-16T00:10:00Z"), DaemonStep::Stop);
    assert_eq!(step("t", "v", "2026-07-16T00:01:00Z"), DaemonStep::Stop);
    assert_eq!(step("u", "w", "2026-07-16T00:01:00Z"), DaemonStep::Stop);
    // without a start, the clock runs from the last heartbeat
    let mut bare = Table::new();
    bare.insert("t".into(), held("w", "t", None, "2026-07-16T00:08:00Z"));
    let now = ts("2026-07-16T00:10:00Z");
    assert_eq!(daemon_step(&bare, "t", "w", &now, &tiers()), DaemonStep::Beat);
    assert_eq!(heartbeat_seconds(5), 300);
    assert_eq!(heartbeat_seconds(0), 60);
    assert_eq!(heartbeat_seconds(-3), 60);
}

#[test]
fn the_lease_clock_counts_down() {
    let mut leases = Table::new();
    leases.insert(
        "t".into(),
        held("w", "t", Some("2026-07-16T00:00:00Z"), "2026-07-16T00:08:00Z"),
    );
    let c = status(&leases, "t", &ts("2026-07-16T00:04:30Z"), &tiers()).unwrap();
    assert_eq!(c.leased_by, "w");
    assert_eq!((c.elapsed_minutes, c.budget_minutes, c.remaining_minutes), (4, 10, 6));
    assert!(!c.over_budget);
    let c = status(&leases, "t", &ts("2026-07-16T00:12:00Z"), &tiers()).unwrap();
    assert_eq!((c.elapsed_minutes, c.remaining_minutes, c.over_budget), (12, 0, true));
    assert!(status(&leases, "u", &ts("2026-07-16T00:12:00Z"), &tiers()).is_none());
}

#[test]
fn giving_up_changes_the_state_and_says_why() {
    let t = dead(task("a", true));
    assert_eq!(t.state, TaskState::Dead);
    assert_eq!(t.accept, vec!["t.rs"]);
    let now = ts("2026-07-01T00:00:00Z");
    let a = dead_attempt("a", 1, "superseded", "me", now);
    assert_eq!((a.outcome.as_str(), a.lesson.as_str()), ("dead", "superseded"));
    assert_eq!((a.tier, a.sha.as_str(), a.agent.as_str()), (1, "", "me"));
}

#[test]
fn a_probe_sets_tests_and_context() {
    match probe_done(vec![], vec![], Ok(task("a", true))) {
        Err(Error::Other(msg)) => {
            assert_eq!(msg, "probe must produce at least one acceptance test");
        }
        r => panic!("unexpected {r:?}"),
    }
    let mut t = task("a", false);
    t.context = vec!["old".into()];
    let r = probe_done(vec!["x.rs".into()], vec![], Ok(t.clone())).unwrap();
    assert_eq!(r.accept, vec!["x.rs"]);
    assert_eq!(r.context, vec!["old"]);
    assert_eq!(r.state, TaskState::Open);
    let r = probe_done(vec!["x.rs".into()], vec!["new".into()], Ok(t)).unwrap();
    assert_eq!(r.context, vec!["new"]);
    // a probe can be done over
    let r = probe_done(vec!["y.rs".into()], vec![], Ok(r)).unwrap();
    assert_eq!(r.accept, vec!["y.rs"]);
    assert_eq!(r.context, vec!["new"]);
    assert_eq!((r.id.as_str(), r.goal.as_str(), r.deps.len()), ("a", "g", 0));
    let lost = Err(Error::TaskNotFound("a".into()));
    assert!(matches!(
        probe_done(vec!["x".into()], vec![], lost),
        Err(Error::TaskNotFound(_))
    ));
}

#[test]
fn verdicts_are_bound_and_rejections_need_reasons() {
    assert!(verify_flags(true, true).is_err());
    match verify_flags(false, false).unwrap_err() {
        Error::Other(msg) => assert_eq!(msg, "pass exactly one of --approve / --reject"),
        e => panic!("unexpected {e:?}"),
    }
    verify_flags(true, false).unwrap();
    verify_flags(false, true).unwrap();
    let mut leases = Table::new();
    leases.insert("t".into(), held("w", "t", None, "2026-07-16T00:08:00Z"));
    let now = ts("2026-07-16T00:10:00Z");
    let p = verify(&leases, "t", true, "h", None, "rev", now).unwrap();
    assert_eq!((p.verdict.verdict.as_str(), p.verdict.sha.as_str()), ("approve", "h"));
    assert!(!p.verdict.self_verdict);
    assert!(p.attempt.is_none());
    assert!(verify(&leases, "t", true, "h", None, "w", now).unwrap().verdict.self_verdict);
    assert!(!verify(&leases, "u", true, "h", None, "w", now).unwrap().verdict.self_verdict);
    let p = verify(&leases, "t", false, "h", Some("why".into()), "rev", now).unwrap();
    assert_eq!(p.verdict.verdict, "reject");
    let a = p.attempt.unwrap();
    assert_eq!((a.outcome.as_str(), a.lesson.as_str(), a.sha.as_str()), ("review-reject", "why", "h"));
    assert_eq!(a.tier, 0);
    match verify(&leases, "t", false, "h", None, "rev", now) {
        Err(Error::Other(msg)) => assert_eq!(
            msg,
            "--lesson is required when rejecting (state the reasons; better: add them as failing acceptance tests)"
        ),
        r => panic!("unexpected {r:?}"),
    }
}

#[test]
fn the_sweep_takes_silent_leases_but_never_the_merge_lock() {
    let mut leases = Table::new();
    leases.insert("b".into(), held("w", "b", None, "2026-07-16T00:00:00Z"));
    leases.insert("a".into(), held("v", "a", None, "2026-07-16T00:00:00Z"));
    leases.insert("c".into(), held("w", "c", None, "2026-07-16T00:10:00Z"));
    leases.insert("merge-lock".into(), held("w", "merge-lock", None, "2020-01-01T00:00:00Z"));
    let now = ts("2026-07-16T00:15:00Z");
    let stale = sweep(&leases, &now, 15);
    let ids: Vec<&str> = stale.iter().map(|r| r.task.as_str()).collect();
    assert_eq!(ids, vec!["a", "b"]);
    let told = swept_attempt(&stale[0], "me", now);
    assert_eq!(told.outcome, "lease-swept");
    assert_eq!(
        told.lesson,
        "lease held by v went silent (last heartbeat 2026-07-16 00:00:00 UTC)"
    );
    assert_eq!((told.task.as_str(), told.agent.as_str()), ("a", "me"));
}

#[test]
fn telemetry_is_stamped_with_agent_and_time() {
    let now = ts("2026-07-16T00:15:00Z");
    let s = telemetry("{ \"outcome\": \"merged\", \"agent\": \"forged\" }", "me", &now).unwrap();
    assert_eq!(
        s,
        "{\"agent\":\"me\",\"at\":\"2026-07-16T00:15:00Z\",\"outcome\":\"merged\"}"
    );
    // what is stored is one line, and says what it said
    let s = telemetry("{\n \"outcome\": \"merged\",\n \"note\": \"two\\nlines\"\n}", "me", &now).unwrap();
    assert_eq!(
        s,
        "{\"agent\":\"me\",\"at\":\"2026-07-16T00:15:00Z\",\"note\":\"two\\nlines\",\"outcome\":\"merged\"}"
    );
    let tiers = vec![10u64];
    let count = |r: String| loom::retro::retro(&vec![r], &Table::new(), &tiers, &vec![]).counts.merged;
    assert_eq!(count(s), 1);
    // an object without any string is stamped too
    assert_eq!(
        telemetry("{\"n\":1}", "me", &now).unwrap(),
        "{\"agent\":\"me\",\"at\":\"2026-07-16T00:15:00Z\",\"n\":1}"
    );
    let mut v: Value = "{\"at\":7,\"n\":1}".parse().unwrap();
    stamp(&mut v, "me", "then");
    assert_eq!(v.to_string(), "{\"agent\":\"me\",\"at\":\"then\",\"n\":1}");
    let mut v = Value::Null;
    stamp(&mut v, "me", "then");
    assert_eq!(v, Value::Null);
    // what is not an object is kept as it is
    assert_eq!(telemetry("[1, 2]", "me", &now).unwrap(), "[1,2]");
    match telemetry("{", "me", &now).unwrap_err() {
        Error::Other(msg) => assert!(msg.starts_with("--json must be valid JSON: "), "{msg}"),
        e => panic!("unexpected {e:?}"),
    }
}

#[test]
fn knowledge_files_are_markdown_and_sorted() {
    let names: Vec<String> =
        ["z.md", "README.md", "notes.txt", ".md", "a.b.md"].iter().map(|s| s.to_string()).collect();
    assert_eq!(
        existing_knowledge(&names),
        vec!["knowledge/README.md", "knowledge/a.b.md", "knowledge/z.md"]
    );
    assert!(existing_knowledge(&vec![]).is_empty());
}

#[test]
fn a_manifest_names_git_objects_files_and_knowledge() {
    let mut t = task("a", true);
    t.context = vec!["git:HEAD~1".into(), "src/x.rs".into(), "git".into()];
    t.contract = vec!["c.md".into()];
    let snap = snapshot(vec![t]);
    let known = vec!["knowledge/x.md".to_string()];
    let m = context(&snap.tasks, "a", &known).unwrap();
    assert_eq!(m.context.len(), 3);
    assert!(matches!(&m.context[0], ContextEntry::Git(r) if r == "HEAD~1"));
    assert!(matches!(&m.context[1], ContextEntry::File(p) if p == "src/x.rs"));
    assert!(matches!(&m.context[2], ContextEntry::File(p) if p == "git"));
    assert_eq!(m.knowledge, known);
    assert_eq!((m.id.as_str(), m.goal.as_str()), ("a", "g"));
    assert_eq!(m.contract, vec!["c.md"]);
    assert_eq!(m.accept, vec!["t.rs"]);
    assert!(matches!(context(&snap.tasks, "b", &known), Err(Error::TaskNotFound(_))));
}
