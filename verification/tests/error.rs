//! Exit codes and messages.

use loom::error::{quote_list, Error};

fn s(x: &str) -> String {
    x.to_string()
}

fn all() -> Vec<(Error, i32, &'static str)> {
    vec![
        (
            Error::MissingDependency(s("git")),
            1,
            "missing dependency: `git` not found on PATH",
        ),
        (
            Error::WorkspaceNotFound(s("/x")),
            1,
            "not inside a loom workspace: no .work/ found upward from /x (run `loom init`)",
        ),
        (Error::TaskNotFound(s("t")), 1, "task 't' not found"),
        (
            Error::Parse { what: s("task"), path: s("p"), msg: s("m") },
            1,
            "invalid task file p: m",
        ),
        (
            Error::LeaseRaceLost { task: s("t"), holder: s("h") },
            3,
            "lease race lost for task 't': held by 'h' — pick another task",
        ),
        (
            Error::NotLeaseHolder { task: s("t"), holder: s("h") },
            1,
            "lease for 't' is held by 'h', not you",
        ),
        (Error::NoLease(s("t")), 1, "no lease exists for task 't'"),
        (
            Error::TierExhausted { task: s("t"), tier: 12 },
            2,
            "budget tier 12 is the last tier for task 't': decompose or escalate",
        ),
        (
            Error::OracleBlocked { task: s("t"), escalation: s("e") },
            4,
            "task 't' is blocked on open escalation 'e' with no default",
        ),
        (
            Error::VerdictMissing { task: s("t"), sha: s("h") },
            5,
            "no approving verdict for 't' at h: run `loom verify` from an independent agent (or set [verify] mode in policy)",
        ),
        (
            Error::VerdictNotIndependent { task: s("t"), agent: s("a") },
            5,
            "verdict for 't' was issued by the implementer 'a'; [verify] mode = \"independent\" requires a different agent",
        ),
        (
            Error::VerdictStale { task: s("t"), verdict_sha: s("v"), head: s("h") },
            5,
            "verdict for 't' is bound to v, but HEAD is h — re-verify the current candidate",
        ),
        (
            Error::DoneNotCommitted { task: s("t"), msg: s("m") },
            1,
            "`loom done` could not commit atomically for 't': m (task file restored; nothing was marked done)",
        ),
        (Error::NothingSchedulable, 1, "nothing schedulable"),
        (
            Error::Git { args: vec![s("push"), s("a\"b")], code: Some(-1), stderr: s("e") },
            1,
            "git [\"push\", \"a\\\"b\"] failed (exit Some(-1)): e",
        ),
        (
            Error::Git { args: vec![], code: None, stderr: s("") },
            1,
            "git [] failed (exit None): ",
        ),
        (Error::Shape { context: s("c") }, 1, "unexpected output shape: c"),
        (Error::Io(s("i")), 1, "i"),
        (Error::Json(s("j")), 1, "j"),
        (Error::Other(s("o")), 1, "o"),
    ]
}

#[test]
fn every_error_has_its_exit_code_and_message() {
    for (e, code, message) in all() {
        assert_eq!(e.exit_code(), code, "{e:?}");
        assert_eq!(e.message(), message);
    }
}

#[test]
fn lists_are_quoted_as_debug_does() {
    let v = vec![s("a"), s("tab\t\u{1F600}é\u{7f}"), s("\\")];
    assert_eq!(quote_list(&v), format!("{v:?}"));
}
