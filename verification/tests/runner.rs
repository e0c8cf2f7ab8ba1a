//! Running programs.

use std::cell::Cell;

use loom::error::Error;
use loom::runner::{settle, Outcome, Runner, ScriptRunner, Step, SystemRunner};

#[test]
fn try_run_converts_git_failure_to_none() {
    let mut r = ScriptRunner::new(vec![Step::Fail("stale info".into())]);
    assert_eq!(r.try_run("git", &["push"]).unwrap(), None);
    assert!(r.call(0).contains("push"));
    assert!(r.is_done());
}

#[test]
fn try_run_passes_output_and_other_errors_on() {
    let mut r = ScriptRunner::new(vec![Step::Print("out".into())]);
    assert_eq!(r.try_run("git", &["status"]).unwrap(), Some("out".to_string()));
    // past the end of the script there is no answer, and that is an error
    assert!(matches!(r.try_run("git", &["status"]), Err(Error::Other(_))));
}

#[test]
fn a_script_notes_calls_and_fails_as_git_does() {
    let mut r = ScriptRunner::new(vec![
        Step::Print("one".into()),
        Step::Fail("two".into()),
    ]);
    assert!(!r.is_done());
    assert_eq!(r.run("git", &["rev-parse", "HEAD"]).unwrap(), "one");
    match r.run("git", &["push", "origin"]).unwrap_err() {
        Error::Git { args, code, stderr } => {
            assert_eq!(args, vec!["push", "origin"]);
            assert_eq!(code, Some(1));
            assert_eq!(stderr, "two");
        }
        e => panic!("unexpected {e:?}"),
    }
    assert!(r.is_done());
    assert_eq!(r.count(), 2);
    assert_eq!(r.call(0), "git rev-parse HEAD");
    assert_eq!(r.call(1), "git push origin");
    match r.run("git", &["x"]).unwrap_err() {
        Error::Other(msg) => assert_eq!(msg, "unexpected call: git x"),
        e => panic!("unexpected {e:?}"),
    }
}

#[test]
fn a_finished_process_gives_its_output_without_trailing_space() {
    let out = Outcome::Finished {
        success: true,
        code: Some(0),
        stdout: b"  abc \r\n\n".to_vec(),
        stderr: b"noise".to_vec(),
    };
    assert_eq!(settle("git", &["x"], out).unwrap(), "  abc");
    let bad = Outcome::Finished {
        success: true,
        code: Some(0),
        stdout: vec![b'a', 0xff, b'b', b'\n'],
        stderr: vec![],
    };
    assert_eq!(settle("git", &["x"], bad).unwrap(), "a\u{fffd}b");
}

#[test]
fn a_failing_process_is_a_git_error() {
    let out = Outcome::Finished {
        success: false,
        code: None,
        stdout: b"abc".to_vec(),
        stderr: b"fatal: no\n".to_vec(),
    };
    match settle("git", &["a", "b"], out).unwrap_err() {
        Error::Git { args, code, stderr } => {
            assert_eq!(args, vec!["a", "b"]);
            assert_eq!(code, None);
            assert_eq!(stderr, "fatal: no");
        }
        e => panic!("unexpected {e:?}"),
    }
}

#[test]
fn a_process_that_does_not_start_is_an_error() {
    let missing = || Outcome::NotStarted { not_found: true, msg: "no such file".into() };
    match settle("git", &[], missing()).unwrap_err() {
        Error::MissingDependency(name) => assert_eq!(name, "git"),
        e => panic!("unexpected {e:?}"),
    }
    match settle("hg", &[], missing()).unwrap_err() {
        Error::Io(msg) => assert_eq!(msg, "no such file"),
        e => panic!("unexpected {e:?}"),
    }
    let refused = Outcome::NotStarted { not_found: false, msg: "denied".into() };
    assert!(matches!(settle("git", &[], refused), Err(Error::Io(_))));
}

#[test]
fn the_system_runner_launches_once_per_run() {
    let calls = Cell::new(0);
    // answers every call with the name of the program and the first argument
    let echo = |program: &str, args: &[&str]| {
        calls.set(calls.get() + 1);
        Outcome::Finished {
            success: args.len() < 2,
            code: Some(3),
            stdout: format!("{program} {} {}\n", args[0], calls.get()).into_bytes(),
            stderr: b"too many\n".to_vec(),
        }
    };
    let mut r = SystemRunner::new(echo);
    assert_eq!(r.run("git", &["status"]).unwrap(), "git status 1");
    assert_eq!(r.try_run("git", &["a", "b"]).unwrap(), None);
    match r.run("git", &["a", "b"]).unwrap_err() {
        Error::Git { args, code, stderr } => {
            assert_eq!(args, vec!["a", "b"]);
            assert_eq!((code, stderr.as_str()), (Some(3), "too many"));
        }
        e => panic!("unexpected {e:?}"),
    }
    assert_eq!(r.run("git", &["status"]).unwrap(), "git status 4");
    assert_eq!(calls.get(), 4);
}
