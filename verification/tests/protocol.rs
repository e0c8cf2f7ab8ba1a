//! The rules of the protocol.

use loom::clock::Timestamp;
use loom::error::Error;
use loom::model::{
    AttemptRecord, History, LeasePayload, Policy, Task, TaskState, Verdict, DEFAULT_HALF_LIFE_BITS,
};
use loom::protocol::{
    can_rank, count_failures, current_tier, daemon_should_continue, ladder_exhausted,
    lease_is_stale, schedule, score_inputs, staleness_minutes, tier_budget, unblocks, verify_gate,
    Candidate, Derived,
};
use loom::table::Table;

fn ts(s: &str) -> Timestamp {
    Timestamp::parse(s).unwrap()
}

fn task(id: &str, deps: &[&str], value: f64, tier: usize, accept: bool) -> Task {
    Task {
        id: id.into(),
        goal: format!("goal {id}"),
        state: TaskState::Open,
        value_bits: value.to_bits(),
        deps: deps.iter().map(|s| s.to_string()).collect(),
        contract: vec![],
        accept: if accept { vec!["t".into()] } else { vec![] },
        context: vec![],
        tier_initial: tier,
        created: ts("2026-07-01T00:00:00Z"),
    }
}

fn graph(tasks: Vec<Task>) -> Table<Task> {
    let mut t = Table::new();
    for one in tasks {
        t.insert(one.id.clone(), one);
    }
    t
}

fn attempt(task: &str, outcome: &str, at: &str) -> AttemptRecord {
    AttemptRecord {
        task: task.into(),
        tier: 0,
        sha: "s".into(),
        outcome: outcome.into(),
        lesson: "l".into(),
        agent: "a".into(),
        at: ts(at),
    }
}

fn lease(agent: &str, task: &str) -> LeasePayload {
    LeasePayload {
        agent: agent.into(),
        task: task.into(),
        tier: 0,
        acquired: None,
        heartbeat: ts("2026-07-16T00:40:00Z"),
    }
}

fn derived(
    t: &Task,
    all: &Table<Task>,
    leases: &Table<LeasePayload>,
    attempts: &Table<History>,
) -> Derived {
    loom::protocol::derive(t, all, leases, attempts)
}

/// The staleness factor that the score is computed with.
fn staleness_factor(created: &Timestamp, now: &Timestamp, half_life_hours: f64) -> f64 {
    if half_life_hours <= 0.0 {
        return 1.0;
    }
    1.0 + staleness_minutes(created, now) as f64 / 60.0 / half_life_hours
}

/// The scores of all tasks, in the order of the table.
fn scores(all: &Table<Task>, attempts: &Table<History>, now: &Timestamp, p: &Policy) -> Vec<u64> {
    let mut out = Vec::new();
    for i in 0..all.len() {
        let t = all.value(i);
        let parts = score_inputs(t, all, attempts, now, &p.budget.tiers_minutes);
        let score = f64::from_bits(t.value_bits)
            * (1.0 + parts.unblocks as f64)
            * staleness_factor(&t.created, now, f64::from_bits(p.schedule.half_life_bits))
            / (1.0 + parts.tier as f64);
        out.push(score.to_bits());
    }
    out
}

#[test]
fn tier_is_derived_from_attempt_count() {
    let t = task("a", &[], 1.0, 0, true);
    let tiers = vec![10u64, 45, 180];
    let mut attempts = Table::new();
    assert_eq!(current_tier(&t, &attempts, &tiers), 0);
    attempts.insert(
        "a".into(),
        History { records: vec![attempt("a", "tests-red", "2026-07-01T00:00:00Z")] },
    );
    assert_eq!(current_tier(&t, &attempts, &tiers), 1);
    attempts.insert(
        "a".into(),
        History {
            records: vec![
                attempt("a", "tests-red", "2026-07-01T00:00:00Z"),
                attempt("a", "tests-red", "2026-07-01T01:00:00Z"),
                attempt("a", "tests-red", "2026-07-01T02:00:00Z"),
            ],
        },
    );
    assert_eq!(current_tier(&t, &attempts, &tiers), 2); // capped
    assert!(ladder_exhausted(&t, 3, &tiers));
    assert!(!ladder_exhausted(&t, 2, &tiers));
    // initial tier offsets the ladder
    let t1 = task("b", &[], 1.0, 1, true);
    assert!(ladder_exhausted(&t1, 2, &tiers));
}

#[test]
fn derived_state_uses_attempt_refs_for_parked() {
    let a = task("a", &[], 1.0, 0, true);
    let all = graph(vec![a.clone()]);
    let leases = Table::new();
    let mut attempts = Table::new();
    assert_eq!(derived(&a, &all, &leases, &attempts), Derived::Open);
    attempts.insert(
        "a".into(),
        History { records: vec![attempt("a", "tests-red", "2026-07-01T00:00:00Z")] },
    );
    assert_eq!(derived(&a, &all, &leases, &attempts), Derived::Parked);
}

#[test]
fn schedule_orders_by_value_unblocks_and_derived_tier() {
    let all = graph(vec![
        task("c", &[], 2.0, 0, true),
        task("x", &["c"], 1.0, 0, true),
        task("y", &["c"], 1.0, 0, true),
        task("d", &[], 5.0, 0, true),
    ]);
    let leases = Table::new();
    // d has one failed attempt: derived tier 1, score 5/2 = 2.5
    let mut attempts = Table::new();
    attempts.insert(
        "d".into(),
        History { records: vec![attempt("d", "tests-red", "2026-07-01T00:00:00Z")] },
    );
    let now = ts("2026-07-01T00:00:00Z");
    let policy = Policy::default();
    let scores = scores(&all, &attempts, &now, &policy);
    let sched = schedule(&all, &leases, &attempts, &scores, &policy.budget.tiers_minutes);
    let ids: Vec<&str> = sched.iter().map(|c| c.id.as_str()).collect();
    assert_eq!(ids, vec!["c", "d"]); // c: 6.0, d: 2.5; x,y blocked
    assert_eq!(f64::from_bits(sched[0].score_bits), 6.0);
    assert_eq!(f64::from_bits(sched[1].score_bits), 2.5);
    assert!(sched[1].resumes);
    assert_eq!(sched[1].tier, 1);
}

#[test]
fn daemon_stops_at_budget_boundary() {
    let acquired = ts("2026-07-16T00:00:00Z");
    let tiers = vec![10u64, 45, 180];
    let inside = ts("2026-07-16T00:09:00Z");
    let outside = ts("2026-07-16T00:10:00Z");
    assert!(daemon_should_continue(&acquired, &inside, 0, &tiers));
    assert!(!daemon_should_continue(&acquired, &outside, 0, &tiers));
    assert!(daemon_should_continue(&acquired, &outside, 1, &tiers)); // 45m tier
}

#[test]
fn verify_gate_enforces_presence_binding_and_independence() {
    let v = |agent: &str, sha: &str, verdict: &str| {
        Some(Verdict {
            task: "t".into(),
            sha: sha.into(),
            verdict: verdict.into(),
            agent: agent.into(),
            self_verdict: false,
            at: ts("2026-07-01T00:00:00Z"),
        })
    };
    // off: anything goes
    verify_gate("t", "h", "me", &None, "off").unwrap();
    // missing
    assert_eq!(
        verify_gate("t", "h", "me", &None, "independent").unwrap_err().exit_code(),
        5
    );
    // reject verdict doesn't pass
    let r = v("rev", "h", "reject");
    assert!(verify_gate("t", "h", "me", &r, "any").is_err());
    // stale sha
    let stale = v("rev", "old", "approve");
    assert!(matches!(
        verify_gate("t", "h", "me", &stale, "independent").unwrap_err(),
        Error::VerdictStale { .. }
    ));
    // self-verdict blocked in independent, allowed in any
    let selfv = v("me", "h", "approve");
    assert!(matches!(
        verify_gate("t", "h", "me", &selfv, "independent").unwrap_err(),
        Error::VerdictNotIndependent { .. }
    ));
    verify_gate("t", "h", "me", &selfv, "any").unwrap();
    // the happy path
    let ok = v("rev", "h", "approve");
    verify_gate("t", "h", "me", &ok, "independent").unwrap();
}

#[test]
fn staleness_and_lease_ttl() {
    let created = ts("2026-07-01T00:00:00Z");
    let now = ts("2026-07-04T00:00:00Z");
    assert!((staleness_factor(&created, &now, 72.0) - 2.0).abs() < 1e-9);
    let held = LeasePayload {
        agent: "w".into(),
        task: "t".into(),
        tier: 0,
        acquired: None,
        heartbeat: ts("2026-07-16T00:40:00Z"),
    };
    let now2 = ts("2026-07-16T01:00:00Z");
    assert!(lease_is_stale(&held, &now2, 15));
    assert!(!lease_is_stale(&held, &now2, 30));
}

#[test]
fn staleness_never_falls_below_one() {
    let created = ts("2026-07-04T00:00:00Z");
    let before = ts("2026-07-01T00:00:00Z");
    assert_eq!(staleness_minutes(&created, &before), 0);
    assert_eq!(staleness_minutes(&before, &created), 3 * 24 * 60);
    assert_eq!(staleness_factor(&created, &before, 72.0), 1.0);
    assert_eq!(staleness_factor(&before, &created, 0.0), 1.0);
}

#[test]
fn lease_goes_stale_at_the_exact_minute() {
    let held = lease("w", "t"); // heartbeat 00:40:00
    assert!(!lease_is_stale(&held, &ts("2026-07-16T00:54:59.999Z"), 15));
    assert!(lease_is_stale(&held, &ts("2026-07-16T00:55:00Z"), 15));
    // what is stale stays stale
    assert!(lease_is_stale(&held, &ts("2027-01-01T00:00:00Z"), 15));
    // a heartbeat from the future is not stale
    assert!(!lease_is_stale(&held, &ts("2026-07-16T00:00:00Z"), 15));
}

#[test]
fn blocked_lists_every_dependency_that_is_not_done() {
    let mut done = task("done", &[], 1.0, 0, true);
    done.state = TaskState::Done;
    let mut dead = task("dead", &[], 1.0, 0, true);
    dead.state = TaskState::Dead;
    let open = task("open", &[], 1.0, 0, true);
    let t = task("t", &["open", "done", "dead", "unknown"], 1.0, 0, true);
    let all = graph(vec![done.clone(), dead.clone(), open, t.clone()]);
    let leases = Table::new();
    let attempts = Table::new();
    assert_eq!(
        derived(&t, &all, &leases, &attempts),
        Derived::Blocked(vec!["open".into(), "dead".into(), "unknown".into()])
    );
    assert_eq!(derived(&done, &all, &leases, &attempts), Derived::Done);
    assert_eq!(derived(&dead, &all, &leases, &attempts), Derived::Dead);
}

#[test]
fn a_leased_task_is_never_scheduled() {
    let all = graph(vec![task("a", &[], 1.0, 0, true), task("b", &[], 9.0, 0, false)]);
    let mut leases = Table::new();
    leases.insert("b".into(), lease("w", "b"));
    let attempts = Table::new();
    let b = task("b", &[], 9.0, 0, false);
    assert_eq!(derived(&b, &all, &leases, &attempts), Derived::Leased("w".into()));
    let bits = vec![1.0f64.to_bits(), 9.0f64.to_bits()];
    let tiers = vec![10u64, 45, 180];
    let sched = schedule(&all, &leases, &attempts, &bits, &tiers);
    let ids: Vec<&str> = sched.iter().map(|c| c.id.as_str()).collect();
    assert_eq!(ids, vec!["a"]);
    assert!(!sched[0].needs_probe);
    assert!(!sched[0].resumes);
    let free = schedule(&all, &Table::new(), &attempts, &bits, &tiers);
    let ids: Vec<&str> = free.iter().map(|c| c.id.as_str()).collect();
    assert_eq!(ids, vec!["b", "a"]);
    assert!(free[0].needs_probe);
}

#[test]
fn equal_scores_are_ordered_by_id_and_signs_are_respected() {
    let names = ["d", "b", "a", "c", "e"];
    let all = graph(names.iter().map(|n| task(n, &[], 1.0, 0, true)).collect());
    // table order: a b c d e
    let values = [-1.0f64, 0.0, -0.0, 3.5, -2.0];
    let bits: Vec<u64> = values.iter().map(|v| v.to_bits()).collect();
    let sched: Vec<Candidate> =
        schedule(&all, &Table::new(), &Table::new(), &bits, &vec![10u64]);
    let ids: Vec<&str> = sched.iter().map(|c| c.id.as_str()).collect();
    assert_eq!(ids, vec!["d", "b", "c", "a", "e"]);
}

#[test]
fn scores_that_are_no_numbers_leave_it_to_the_id() {
    let rank = |names: &[&str], values: &[f64]| {
        let all = graph(names.iter().map(|n| task(n, &[], 1.0, 0, true)).collect());
        let bits: Vec<u64> = values.iter().map(|v| v.to_bits()).collect();
        let (leases, attempts, tiers) = (Table::new(), Table::new(), vec![10u64]);
        if !can_rank(&all, &leases, &attempts, &bits, &tiers) {
            return None;
        }
        let found = schedule(&all, &leases, &attempts, &bits, &tiers);
        Some(found.into_iter().map(|c| c.id).collect::<Vec<String>>().join(""))
    };
    let nan = f64::NAN;
    assert_eq!(rank(&["a", "b"], &[1.0, nan]).as_deref(), Some("ab"));
    assert_eq!(rank(&["a", "b"], &[nan, 1.0]).as_deref(), Some("ab"));
    assert_eq!(rank(&["a", "b", "c"], &[-nan, nan, nan]).as_deref(), Some("abc"));
    assert_eq!(rank(&["a", "b", "c"], &[1.0, 5.0, nan]).as_deref(), Some("bac"));
    let inf = f64::INFINITY;
    assert_eq!(rank(&["a", "b", "c"], &[-inf, inf, 0.0]).as_deref(), Some("bca"));
    // a before the one that is no number, that one before c, and c before a
    assert_eq!(rank(&["a", "b", "c"], &[1.0, nan, 5.0]), None);
}

#[test]
fn every_failure_climbs_one_tier_until_the_last() {
    let t = task("a", &[], 1.0, 0, true);
    let tiers = vec![10u64, 45, 180];
    for failed in 0..6usize {
        let mut attempts = Table::new();
        let records = (0..failed)
            .map(|_| attempt("a", "tests-red", "2026-07-01T00:00:00Z"))
            .collect();
        attempts.insert("a".into(), History { records });
        assert_eq!(count_failures(&attempts, "a"), failed);
        let tier = current_tier(&t, &attempts, &tiers);
        assert_eq!(tier, failed.min(2));
        // an attempt ends the ladder exactly when it is made at the last tier
        assert_eq!(ladder_exhausted(&t, failed + 1, &tiers), tier == 2);
    }
    assert_eq!(current_tier(&t, &Table::new(), &vec![]), 0);
    assert!(ladder_exhausted(&t, 0, &vec![]));
    let high = task("a", &[], 1.0, usize::MAX, true);
    assert_eq!(current_tier(&high, &Table::new(), &tiers), 2);
}

#[test]
fn unblocks_counts_open_tasks_that_wait() {
    let mut closed = task("z", &["c"], 1.0, 0, true);
    closed.state = TaskState::Done;
    let all = graph(vec![
        task("c", &[], 1.0, 0, true),
        task("x", &["c"], 1.0, 0, true),
        task("y", &["d", "c"], 1.0, 0, true),
        closed,
    ]);
    assert_eq!(unblocks("c", &all), 2);
    assert_eq!(unblocks("d", &all), 1);
    assert_eq!(unblocks("q", &all), 0);
}

#[test]
fn a_tier_beyond_the_ladder_has_no_budget() {
    let tiers = vec![10u64, 45, 180];
    assert_eq!(tier_budget(&tiers, 2), 180);
    assert_eq!(tier_budget(&tiers, 3), 0);
    let t = ts("2026-07-16T00:00:00Z");
    assert!(!daemon_should_continue(&t, &t, 3, &tiers));
}

#[test]
fn gate_errors_carry_what_they_compare() {
    let v = Some(Verdict {
        task: "t".into(),
        sha: "old".into(),
        verdict: "approve".into(),
        agent: "rev".into(),
        self_verdict: false,
        at: ts("2026-07-01T00:00:00Z"),
    });
    match verify_gate("t", "h", "me", &v, "any").unwrap_err() {
        Error::VerdictStale { task, verdict_sha, head } => {
            assert_eq!((task.as_str(), verdict_sha.as_str(), head.as_str()), ("t", "old", "h"));
        }
        e => panic!("unexpected {e:?}"),
    }
    // a verdict on another task counts for nothing
    match verify_gate("u", "old", "me", &v, "any").unwrap_err() {
        Error::VerdictMissing { task, sha } => {
            assert_eq!((task.as_str(), sha.as_str()), ("u", "old"));
        }
        e => panic!("unexpected {e:?}"),
    }
}

#[test]
fn default_half_life_is_seventy_two_hours() {
    assert_eq!(f64::from_bits(DEFAULT_HALF_LIFE_BITS), 72.0);
}
