//! Coordination through git, against a script.

use loom::clock::Timestamp;
use loom::error::Error;
use loom::git::{EncodedAttempt, Git};
use loom::model::{AttemptRecord, HeldLease, LeasePayload, Verdict};
use loom::refs::{begin_lease, begin_merge_lock, check_holder, renew_lease, Decoded, MirrorRow};
use loom::runner::{Outcome, ScriptRunner, Step, SystemRunner};
use loom::table::Table;
use serde_json::Value;

fn ts(s: &str) -> Timestamp {
    Timestamp::parse(s).unwrap()
}

fn ok(s: &str) -> Step {
    Step::Print(s.into())
}

fn fail(s: &str) -> Step {
    Step::Fail(s.into())
}

fn git(steps: Vec<Step>) -> Git<ScriptRunner> {
    Git { runner: ScriptRunner::new(steps), remote: "origin".into() }
}

/// The script is played, and each call contains the fragment expected of it.
fn assert_calls(g: &Git<ScriptRunner>, expected: &[&str]) {
    assert!(g.runner.is_done(), "unconsumed steps remain");
    assert_eq!(g.runner.count(), expected.len());
    for (i, fragment) in expected.iter().enumerate() {
        let call = g.runner.call(i);
        assert!(call.contains(fragment), "expected {fragment}, got {call}");
    }
}

fn text(v: &Value, key: &str) -> String {
    v.get(key).and_then(Value::as_str).unwrap().to_string()
}

fn attempt_of(row: MirrorRow) -> Decoded<AttemptRecord> {
    let value = match serde_json::from_str::<Value>(&row.msg) {
        Ok(v) => Ok(AttemptRecord {
            task: text(&v, "task"),
            tier: v.get("tier").and_then(Value::as_u64).unwrap() as usize,
            sha: text(&v, "sha"),
            outcome: text(&v, "outcome"),
            lesson: text(&v, "lesson"),
            agent: text(&v, "agent"),
            at: ts(&text(&v, "at")),
        }),
        Err(e) => Err(e.to_string()),
    };
    Decoded { suffix: row.suffix, sha: row.sha, value }
}

fn verdict_of(row: MirrorRow) -> Decoded<Verdict> {
    let value = match serde_json::from_str::<Value>(&row.msg) {
        Ok(v) => Ok(Verdict {
            task: text(&v, "task"),
            sha: text(&v, "sha"),
            verdict: text(&v, "verdict"),
            agent: text(&v, "agent"),
            self_verdict: v.get("self_verdict").and_then(Value::as_bool).unwrap(),
            at: ts(&text(&v, "at")),
        }),
        Err(e) => Err(e.to_string()),
    };
    Decoded { suffix: row.suffix, sha: row.sha, value }
}

fn payload(agent: &str, task: &str) -> LeasePayload {
    begin_lease(task, agent, 1, ts("2026-07-16T00:00:00Z"))
}

fn lease_row(suffix: &str, sha: &str, agent: &str) -> Decoded<LeasePayload> {
    Decoded { suffix: suffix.into(), sha: sha.into(), value: Ok(payload(agent, suffix)) }
}

fn held(g: &Git<ScriptRunner>, rows: Vec<Decoded<LeasePayload>>) -> Table<HeldLease> {
    g.leases(&rows).unwrap()
}

#[test]
fn acquire_lease_is_one_cas_push_and_maps_race() {
    let mut g = git(vec![
        ok("4b825dc642cb6eb9a060e54bf8d69288fbee4904"),
        ok("deadbeef"),
        ok(""),
    ]);
    g.acquire_lease("7f3a", "{\"agent\":\"agent-1\"}").unwrap();
    assert_calls(
        &g,
        &[
            "git mktree",
            "git commit-tree",
            "git push origin deadbeef:refs/loom/lease/7f3a --force-with-lease=refs/loom/lease/7f3a:",
        ],
    );

    let mut g2 = git(vec![
        ok("4b825dc642cb6eb9a060e54bf8d69288fbee4904"),
        ok("deadbeef"),
        fail("[rejected] (stale info)"),
    ]);
    let err = g2.acquire_lease("7f3a", "{\"agent\":\"agent-2\"}").unwrap_err();
    assert_eq!(err.exit_code(), 3);
    assert_calls(&g2, &["git mktree", "git commit-tree", "git push"]);
}

#[test]
fn attempts_group_and_sort_by_task() {
    let listing = concat_lines(&[
        "refs/loom/mirror/attempt/t1/b\0s1\0{\"task\":\"t1\",\"tier\":1,\"sha\":\"y\",\"outcome\":\"tests-red\",\"lesson\":\"l2\",\"agent\":\"a\",\"at\":\"2026-07-02T00:00:00Z\"}\n",
        "refs/loom/mirror/attempt/t1/a\0s2\0{\"task\":\"t1\",\"tier\":0,\"sha\":\"x\",\"outcome\":\"tests-red\",\"lesson\":\"l1\",\"agent\":\"a\",\"at\":\"2026-07-01T00:00:00Z\"}",
    ]);
    let mut g = git(vec![ok(&listing)]);
    let rows: Vec<_> = g.attempt_rows().unwrap().into_iter().map(attempt_of).collect();
    let map = g.attempts(&rows).unwrap();
    let recs = &map.get("t1").unwrap().records;
    assert_eq!(recs.len(), 2);
    assert_eq!(recs[0].lesson, "l1"); // chronological
    assert_calls(&g, &["git for-each-ref"]);
}

fn concat_lines(parts: &[&str]) -> String {
    parts.iter().map(|s| s.to_string()).collect()
}

#[test]
fn verdict_roundtrip_shape() {
    let mut g = git(vec![ok(
        "refs/loom/mirror/verdict/t1\0s\0{\"task\":\"t1\",\"sha\":\"abc\",\"verdict\":\"approve\",\"agent\":\"rev\",\"self_verdict\":false,\"at\":\"2026-07-01T00:00:00Z\"}",
    )]);
    let rows: Vec<_> = g.verdict_rows().unwrap().into_iter().map(verdict_of).collect();
    let v = g.verdict(&rows, "t1").unwrap().unwrap();
    assert_eq!(v.verdict, "approve");
    assert_eq!(v.sha, "abc");
    assert_calls(&g, &["git for-each-ref"]);
}

#[test]
fn canonical_blobs_fall_back_when_remote_main_missing() {
    let mut g = git(vec![fail("couldn't find remote ref")]);
    assert!(g.canonical_task_blobs("main").unwrap().is_none());
    assert_calls(&g, &["git fetch origin main"]);
}

#[test]
fn only_a_missing_branch_is_no_graph() {
    for missing in [
        "fatal: couldn't find remote ref main",
        "warning: x\nfatal: Couldn't find remote ref main",
        "no ref",
    ] {
        let mut g = git(vec![fail(missing)]);
        assert!(g.canonical_task_blobs("main").unwrap().is_none(), "{missing}");
    }
    for broken in [
        "",
        "fatal: Could not read from remote repository.",
        "fatal: Authentication failed: no refresh token",
        "couldn't find remote",
    ] {
        let mut g = git(vec![fail(broken), fail(broken)]);
        match g.canonical_task_blobs("main").unwrap_err() {
            Error::Git { args, code, stderr } => {
                assert_eq!(args, vec!["fetch", "origin", "main"]);
                assert_eq!((code, stderr.as_str()), (Some(1), broken));
            }
            e => panic!("unexpected {e:?}"),
        }
        assert_calls(
            &g,
            &["git fetch origin main", "git ls-remote --exit-code origin refs/heads/main"],
        );
        // a remote that has the branch, or gives no answer, does not lack it
        for reply in [vec![ok("sha\trefs/heads/main")], vec![]] {
            let mut g = git(std::iter::once(fail(broken)).chain(reply).collect());
            assert!(matches!(g.canonical_task_blobs("main"), Err(Error::Git { .. })));
        }
    }
}

#[test]
fn a_missing_branch_is_known_in_any_language() {
    let answers = |status: i32| {
        move |_: &str, args: &[&str]| Outcome::Finished {
            success: false,
            code: Some(if args[0] == "ls-remote" { status } else { 128 }),
            stdout: vec![],
            stderr: "Fataler Fehler: Konnte Remote-Referenz main nicht finden".into(),
        }
    };
    let mut g = Git::new(SystemRunner::new(answers(2)), None);
    assert!(g.canonical_task_blobs("main").unwrap().is_none());
    let mut g = Git::new(SystemRunner::new(answers(128)), None);
    match g.canonical_task_blobs("main").unwrap_err() {
        Error::Git { args, code, .. } => {
            assert_eq!((args[0].as_str(), code), ("fetch", Some(128)));
        }
        e => panic!("unexpected {e:?}"),
    }
}

#[test]
fn canonical_blobs_are_the_task_files_of_the_branch() {
    let mut g = git(vec![
        ok(""),
        ok(".work/tasks/a.toml\n.work/tasks/notes.md\r\n.work/tasks/b.toml"),
        ok("body a"),
        ok("body b"),
    ]);
    let blobs = g.canonical_task_blobs("trunk").unwrap().unwrap();
    let found: Vec<(&str, &str)> =
        blobs.iter().map(|b| (b.path.as_str(), b.body.as_str())).collect();
    assert_eq!(
        found,
        vec![(".work/tasks/a.toml", "body a"), (".work/tasks/b.toml", "body b")]
    );
    assert_calls(
        &g,
        &[
            "git fetch origin trunk",
            "git ls-tree -r --name-only origin/trunk -- .work/tasks",
            "git show origin/trunk:.work/tasks/a.toml",
            "git show origin/trunk:.work/tasks/b.toml",
        ],
    );
    // a listing that fails is an error, and so is a file that cannot be read
    let mut g = git(vec![ok(""), fail("not a tree")]);
    match g.canonical_task_blobs("main").unwrap_err() {
        Error::Git { stderr, .. } => assert_eq!(stderr, "not a tree"),
        e => panic!("unexpected {e:?}"),
    }
    let mut g = git(vec![ok(""), ok("a.toml\nb.toml"), fail("gone")]);
    assert!(matches!(g.canonical_task_blobs("main"), Err(Error::Git { .. })));
    assert_calls(&g, &["fetch", "ls-tree", "git show origin/main:a.toml"]);
}

#[test]
fn the_remote_is_configurable() {
    let g = Git::new(ScriptRunner::new(vec![]), None);
    assert_eq!(g.remote, "origin");
    let mut g = Git::new(ScriptRunner::new(vec![ok("")]), Some("fleet".into()));
    g.fetch_loom_refs().unwrap();
    assert_calls(&g, &["git fetch fleet --prune +refs/loom/*:refs/loom/mirror/*"]);
}

#[test]
fn an_empty_tree_is_named_when_git_prints_none() {
    let mut g = git(vec![ok(""), ok("c1"), ok("")]);
    g.record_attempt("t", "id9", "{}").unwrap();
    assert_calls(
        &g,
        &[
            "git mktree",
            "git commit-tree 4b825dc642cb6eb9a060e54bf8d69288fbee4904 -m {}",
            "git push origin c1:refs/loom/attempt/t/id9 --force-with-lease=refs/loom/attempt/t/id9:",
        ],
    );
}

#[test]
fn a_session_stops_at_the_first_failure() {
    let mut g = git(vec![fail("no tree")]);
    assert!(matches!(g.acquire_lease("t", "{}"), Err(Error::LeaseRaceLost { .. })));
    assert_calls(&g, &["git mktree"]);
    let mut g = git(vec![ok("tree"), fail("no commit")]);
    assert!(matches!(g.record_attempt("t", "i", "{}"), Err(Error::Git { .. })));
    assert_calls(&g, &["git mktree", "git commit-tree tree -m {}"]);
    // an error that is not git's is passed on
    let mut g = git(vec![]);
    assert!(matches!(g.acquire_lease("t", "{}"), Err(Error::Other(_))));
}

#[test]
fn mirrored_rows_are_cut_from_the_listing() {
    let mut g = git(vec![ok(
        "refs/loom/mirror/lease/t1\0s1\0 {\"x\":1}  \n\n   \nno fields here\nrefs/loom/mirror/lease/t2\0s2\0a\0b\nother\0s3\0m",
    )]);
    let rows = g.lease_rows().unwrap();
    let seen: Vec<(&str, &str, &str)> =
        rows.iter().map(|r| (r.suffix.as_str(), r.sha.as_str(), r.msg.as_str())).collect();
    assert_eq!(
        seen,
        vec![("t1", "s1", "{\"x\":1}"), ("t2", "s2", "a\0b"), ("other", "s3", "m")]
    );
    assert_calls(
        &g,
        &["git for-each-ref --format=%(refname)%00%(objectname)%00%(contents:subject)%(contents:body) refs/loom/mirror/lease/"],
    );
    // a listing that fails lists nothing
    let mut g = git(vec![fail("no refs")]);
    assert!(g.lease_rows().unwrap().is_empty());
    // any other error is one
    let mut g = git(vec![]);
    assert!(matches!(g.lease_rows(), Err(Error::Other(_))));
}

#[test]
fn a_payload_that_cannot_be_read_is_an_error_of_shape() {
    let g = git(vec![]);
    let bad = |suffix: &str| Decoded::<LeasePayload> {
        suffix: suffix.into(),
        sha: "s".into(),
        value: Err("EOF".into()),
    };
    let rows = vec![lease_row("a", "s1", "w"), bad("b"), bad("c")];
    match g.leases(&rows) {
        Err(Error::Shape { context }) => assert_eq!(context, "lease payload for b: EOF"),
        _ => panic!("a bad lease payload is an error"),
    }
    let rows = vec![Decoded::<AttemptRecord> {
        suffix: "t/x".into(),
        sha: "s".into(),
        value: Err("EOF".into()),
    }];
    match g.attempts(&rows) {
        Err(Error::Shape { context }) => assert_eq!(context, "attempt payload t/x: EOF"),
        _ => panic!("a bad attempt payload is an error"),
    }
    let rows = vec![Decoded::<Verdict> {
        suffix: "t".into(),
        sha: "s".into(),
        value: Err("EOF".into()),
    }];
    match g.verdict(&rows, "t") {
        Err(Error::Shape { context }) => assert_eq!(context, "verdict payload t: EOF"),
        _ => panic!("a bad verdict payload is an error"),
    }
    // a bad verdict on another task does not matter
    assert!(g.verdict(&rows, "u").unwrap().is_none());
}

#[test]
fn only_the_holder_acts_on_a_lease() {
    let mut g = git(vec![ok("")]);
    let leases = held(&g, vec![lease_row("t", "sha1", "w"), lease_row("u", "sha2", "w")]);
    assert!(matches!(g.release_lease(&leases, "x", "w", false), Err(Error::NoLease(_))));
    match g.release_lease(&leases, "t", "v", false).unwrap_err() {
        Error::NotLeaseHolder { task, holder } => {
            assert_eq!((task.as_str(), holder.as_str()), ("t", "w"));
        }
        e => panic!("unexpected {e:?}"),
    }
    assert_eq!(g.runner.count(), 0);
    g.release_lease(&leases, "t", "w", false).unwrap();
    assert_calls(
        &g,
        &["git push origin :refs/loom/lease/t --force-with-lease=refs/loom/lease/t:sha1"],
    );
    // force overrides who holds it, not what it is
    let mut g = git(vec![fail("stale")]);
    assert!(matches!(g.release_lease(&leases, "u", "v", true), Err(Error::Git { .. })));
    assert_calls(&g, &["--force-with-lease=refs/loom/lease/u:sha2"]);
    assert_eq!(check_holder(&leases, "u", "w", false).unwrap().sha, "sha2");
}

#[test]
fn a_heartbeat_changes_nothing_but_the_sign_of_life() {
    let mut g = git(vec![ok("tree"), ok("c2"), ok("")]);
    let leases = held(&g, vec![lease_row("t", "sha1", "w")]);
    let now = ts("2026-07-16T00:05:00Z");
    let renewed = renew_lease(&leases, "t", "w", now).unwrap();
    assert_eq!(renewed.sha, "sha1");
    assert_eq!(renewed.payload.tier, 1);
    assert_eq!(renewed.payload.acquired, Some(ts("2026-07-16T00:00:00Z")));
    assert_eq!(renewed.payload.heartbeat, now);
    assert!(matches!(renew_lease(&leases, "t", "v", now), Err(Error::NotLeaseHolder { .. })));
    assert!(matches!(renew_lease(&leases, "x", "w", now), Err(Error::NoLease(_))));
    g.heartbeat_lease("t", "sha1", "{}").unwrap();
    assert_calls(
        &g,
        &[
            "git mktree",
            "git commit-tree tree -m {}",
            "git push origin c2:refs/loom/lease/t --force-with-lease=refs/loom/lease/t:sha1",
        ],
    );
}

#[test]
fn a_later_row_replaces_an_earlier_one() {
    let g = git(vec![]);
    let leases = held(
        &g,
        vec![lease_row("t", "s1", "a"), lease_row("b", "s2", "b"), lease_row("t", "s3", "c")],
    );
    assert_eq!(leases.len(), 2);
    assert_eq!(leases.key(0), "b");
    assert_eq!(leases.get("t").unwrap().sha, "s3");
    assert_eq!(leases.get("t").unwrap().payload.agent, "c");
}

#[test]
fn attempts_of_the_same_instant_keep_their_order() {
    let g = git(vec![]);
    let row = |suffix: &str, lesson: &str, at: &str| Decoded {
        suffix: suffix.into(),
        sha: "s".into(),
        value: Ok(AttemptRecord {
            task: "ignored".into(),
            tier: 0,
            sha: "s".into(),
            outcome: "o".into(),
            lesson: lesson.into(),
            agent: "a".into(),
            at: ts(at),
        }),
    };
    let rows = vec![
        row("t/1", "one", "2026-07-02T00:00:00Z"),
        row("t/2", "two", "2026-07-02T00:00:00Z"),
        row("t/3", "three", "2026-07-01T00:00:00Z"),
        row("u", "four", "2026-07-01T00:00:00Z"),
    ];
    let map = g.attempts(&rows).unwrap();
    let lessons: Vec<&str> =
        map.get("t").unwrap().records.iter().map(|r| r.lesson.as_str()).collect();
    assert_eq!(lessons, vec!["three", "one", "two"]);
    assert_eq!(map.get("u").unwrap().records.len(), 1);
    assert!(map.get("ignored").is_none());
}

#[test]
fn a_verdict_is_forced_and_a_rejection_is_also_an_attempt() {
    let mut g = git(vec![ok("tree"), ok("c1"), ok("")]);
    g.publish_verdict("t", "{}").unwrap();
    assert_calls(
        &g,
        &["git mktree", "git commit-tree", "git push --force origin c1:refs/loom/verdict/t"],
    );
    let attempt = Some(EncodedAttempt { id: "i1".into(), payload: "{\"a\":1}".into() });
    let mut g = git(vec![ok("tree"), ok("c1"), ok(""), ok("tree"), ok("c2"), ok("")]);
    g.publish_verification("t", "{}", &attempt).unwrap();
    assert_calls(
        &g,
        &[
            "git mktree",
            "git commit-tree tree -m {}",
            "git push --force origin c1:refs/loom/verdict/t",
            "git mktree",
            "git commit-tree tree -m {\"a\":1}",
            "git push origin c2:refs/loom/attempt/t/i1",
        ],
    );
    // what is not published is not recorded
    let mut g = git(vec![ok("tree"), ok("c1"), fail("offline")]);
    assert!(g.publish_verification("t", "{}", &attempt).is_err());
    assert_eq!(g.runner.count(), 3);
    let mut g = git(vec![ok("tree"), ok("c1"), ok("")]);
    g.publish_verification("t", "{}", &None).unwrap();
    assert_eq!(g.runner.count(), 3);
}

#[test]
fn a_reclaimed_lease_is_told_to_the_fleet() {
    let attempt = EncodedAttempt { id: "i1".into(), payload: "{}".into() };
    let mut g = git(vec![ok(""), ok("tree"), ok("c2"), fail("offline")]);
    let leases = held(&g, vec![lease_row("t", "sha1", "w")]);
    g.reclaim_lease(&leases, "t", "sweeper", &attempt).unwrap();
    assert_calls(
        &g,
        &[
            "git push origin :refs/loom/lease/t --force-with-lease=refs/loom/lease/t:sha1",
            "git mktree",
            "git commit-tree",
            "git push origin c2:refs/loom/attempt/t/i1",
        ],
    );
    // a lease that changed meanwhile is not taken, and nothing is told
    let mut g = git(vec![fail("stale info")]);
    assert!(g.reclaim_lease(&leases, "t", "sweeper", &attempt).is_err());
    assert_eq!(g.runner.count(), 1);
    let mut g = git(vec![]);
    assert!(matches!(
        g.reclaim_lease(&leases, "x", "sweeper", &attempt),
        Err(Error::NoLease(_))
    ));
}

#[test]
fn the_merge_lock_is_one_ref() {
    let claim = begin_merge_lock("w", ts("2026-07-16T00:00:00Z"));
    assert_eq!(claim.task, "merge-lock");
    assert_eq!(claim.tier, 0);
    assert_eq!(claim.acquired, Some(claim.heartbeat));
    let mut g = git(vec![ok("tree"), ok("c1"), ok("")]);
    g.acquire_merge_lock("{}").unwrap();
    assert_calls(
        &g,
        &[
            "git mktree",
            "git commit-tree",
            "git push origin c1:refs/loom/merge-lock --force-with-lease=refs/loom/merge-lock:",
        ],
    );
    let mut g = git(vec![ok("tree"), ok("c1"), fail("taken")]);
    match g.acquire_merge_lock("{}").unwrap_err() {
        Error::LeaseRaceLost { task, holder } => {
            assert_eq!((task.as_str(), holder.as_str()), ("merge-lock", "another agent"));
        }
        e => panic!("unexpected {e:?}"),
    }
    let mut g = git(vec![ok("")]);
    g.release_merge_lock().unwrap();
    assert_calls(&g, &["git push origin :refs/loom/merge-lock"]);
}

#[test]
fn telemetry_is_noted_and_shared_if_possible() {
    let mut g = git(vec![ok(""), fail("offline")]);
    g.record_telemetry("HEAD", "{\"x\":1}").unwrap();
    assert_calls(
        &g,
        &[
            "git notes --ref refs/notes/loom-telemetry append -m {\"x\":1} HEAD",
            "git push origin refs/notes/loom-telemetry:refs/notes/loom-telemetry",
        ],
    );
    let mut g = git(vec![fail("bad object")]);
    assert!(matches!(g.record_telemetry("nope", "{}"), Err(Error::Git { .. })));
}

#[test]
fn telemetry_records_are_the_json_lines_of_all_notes() {
    let mut g = git(vec![
        fail("no notes there"),
        ok("n1 c1\n\nn2 c2\n"),
        ok("{\"outcome\":\"merged\"}\n\nnot json\n[1]"),
        ok("{\"a\":2}"),
    ]);
    let records = g.telemetry_records().unwrap();
    assert_eq!(records, vec!["{\"outcome\":\"merged\"}", "[1]", "{\"a\":2}"]);
    assert_calls(
        &g,
        &[
            "git fetch origin +refs/notes/loom-telemetry:refs/notes/loom-telemetry",
            "git notes --ref refs/notes/loom-telemetry list",
            "git cat-file blob n1",
            "git cat-file blob n2",
        ],
    );
    let mut g = git(vec![ok(""), fail("no notes")]);
    assert!(g.telemetry_records().unwrap().is_empty());
    let mut g = git(vec![ok(""), ok("n1\nn2"), fail("gone")]);
    assert!(matches!(g.telemetry_records(), Err(Error::Git { .. })));
    assert_eq!(g.runner.count(), 3);
}

#[test]
fn the_doctor_needs_a_repository_and_a_remote() {
    let mut g = git(vec![ok("/repo"), ok("")]);
    g.check_remote().unwrap();
    assert_calls(&g, &["git rev-parse --show-toplevel", "git ls-remote --heads origin"]);
    let mut g = git(vec![ok("/repo"), fail("no route")]);
    match g.check_remote().unwrap_err() {
        Error::Other(msg) => assert_eq!(
            msg,
            "cannot reach remote 'origin': git [\"ls-remote\", \"--heads\", \"origin\"] failed (exit Some(1)): no route"
        ),
        e => panic!("unexpected {e:?}"),
    }
    let mut g = git(vec![fail("not a repository")]);
    assert!(matches!(g.check_remote(), Err(Error::Git { .. })));
    let mut g = git(vec![fail("not a repository")]);
    match g.require_repository().unwrap_err() {
        Error::Other(msg) => assert_eq!(msg, "loom init must run inside a git repository"),
        e => panic!("unexpected {e:?}"),
    }
}

#[test]
fn committing_everything_adds_first() {
    let mut g = git(vec![ok(""), ok("committed")]);
    g.commit_all("a message").unwrap();
    assert_calls(&g, &["git add -A", "git commit -m a message"]);
    let mut g = git(vec![fail("index locked")]);
    assert!(g.commit_all("a message").is_err());
    assert_eq!(g.runner.count(), 1);
    let mut g = git(vec![ok("headsha")]);
    assert_eq!(g.head().unwrap(), "headsha");
    assert_calls(&g, &["git rev-parse HEAD"]);
}
