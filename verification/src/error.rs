//! What can go wrong, and the exit code that says so.
//!
//! | code | meaning |
//! |---|---|
//! | 0 | success |
//! | 1 | error: protocol violation, git failure, bad input |
//! | 2 | budget tier exhausted: the task must be decomposed or escalated |
//! | 3 | lease race lost: pick another task |
//! | 4 | blocked on the human oracle: an open escalation with no default |
//! | 5 | verification gate: no valid independent verdict for this candidate |

use crate::text::{
    decimal, decimal_text, join, joined, law_occurs, occurs, quote, quoted, signed_decimal,
    signed_decimal_text, views,
};
use vstd::prelude::*;

verus! {

/// An error of loom.
#[derive(Debug)]
pub enum Error {
    /// A program that loom runs is not installed.
    MissingDependency(String),
    /// No directory upward from this one holds a workspace.
    WorkspaceNotFound(String),
    /// No task has this id.
    TaskNotFound(String),
    /// A file does not hold what it should.
    Parse { what: String, path: String, msg: String },
    /// Another agent took the lease first.
    LeaseRaceLost { task: String, holder: String },
    /// The lease belongs to another agent.
    NotLeaseHolder { task: String, holder: String },
    /// Nobody holds a lease on the task.
    NoLease(String),
    /// The last budget tier has failed.
    TierExhausted { task: String, tier: usize },
    /// An open escalation without a default blocks the task.
    OracleBlocked { task: String, escalation: String },
    /// No verdict approves the candidate.
    VerdictMissing { task: String, sha: String },
    /// The implementer issued the verdict.
    VerdictNotIndependent { task: String, agent: String },
    /// The verdict approves another candidate.
    VerdictStale { task: String, verdict_sha: String, head: String },
    /// The commit failed and the task file was restored.
    DoneNotCommitted { task: String, msg: String },
    /// No task can be worked on now.
    NothingSchedulable,
    /// A git command failed.
    Git { args: Vec<String>, code: Option<i32>, stderr: String },
    /// Git printed something of an unexpected shape.
    Shape { context: String },
    /// An input or output operation failed.
    Io(String),
    /// A value could not be written as JSON.
    Json(String),
    /// Anything else.
    Other(String),
}

/// The result of an operation of loom.
pub type Result<T> = std::result::Result<T, Error>;

/// The model of an error.
pub enum ErrorView {
    /// A program that loom runs is not installed.
    MissingDependency(Seq<char>),
    /// No directory upward from this one holds a workspace.
    WorkspaceNotFound(Seq<char>),
    /// No task has this id.
    TaskNotFound(Seq<char>),
    /// A file does not hold what it should.
    Parse { what: Seq<char>, path: Seq<char>, msg: Seq<char> },
    /// Another agent took the lease first.
    LeaseRaceLost { task: Seq<char>, holder: Seq<char> },
    /// The lease belongs to another agent.
    NotLeaseHolder { task: Seq<char>, holder: Seq<char> },
    /// Nobody holds a lease on the task.
    NoLease(Seq<char>),
    /// The last budget tier has failed.
    TierExhausted { task: Seq<char>, tier: usize },
    /// An open escalation without a default blocks the task.
    OracleBlocked { task: Seq<char>, escalation: Seq<char> },
    /// No verdict approves the candidate.
    VerdictMissing { task: Seq<char>, sha: Seq<char> },
    /// The implementer issued the verdict.
    VerdictNotIndependent { task: Seq<char>, agent: Seq<char> },
    /// The verdict approves another candidate.
    VerdictStale { task: Seq<char>, verdict_sha: Seq<char>, head: Seq<char> },
    /// The commit failed and the task file was restored.
    DoneNotCommitted { task: Seq<char>, msg: Seq<char> },
    /// No task can be worked on now.
    NothingSchedulable,
    /// A git command failed.
    Git { args: Seq<Seq<char>>, code: Option<i32>, stderr: Seq<char> },
    /// Git printed something of an unexpected shape.
    Shape { context: Seq<char> },
    /// An input or output operation failed.
    Io(Seq<char>),
    /// A value could not be written as JSON.
    Json(Seq<char>),
    /// Anything else.
    Other(Seq<char>),
}

impl View for Error {
    type V = ErrorView;

    open spec fn view(&self) -> ErrorView {
        match *self {
            Error::MissingDependency(dependency) => ErrorView::MissingDependency(dependency@),
            Error::WorkspaceNotFound(start) => ErrorView::WorkspaceNotFound(start@),
            Error::TaskNotFound(task) => ErrorView::TaskNotFound(task@),
            Error::Parse { what, path, msg } => ErrorView::Parse {
                what: what@,
                path: path@,
                msg: msg@,
            },
            Error::LeaseRaceLost { task, holder } => ErrorView::LeaseRaceLost {
                task: task@,
                holder: holder@,
            },
            Error::NotLeaseHolder { task, holder } => ErrorView::NotLeaseHolder {
                task: task@,
                holder: holder@,
            },
            Error::NoLease(task) => ErrorView::NoLease(task@),
            Error::TierExhausted { task, tier } => ErrorView::TierExhausted {
                task: task@,
                tier: tier,
            },
            Error::OracleBlocked { task, escalation } => ErrorView::OracleBlocked {
                task: task@,
                escalation: escalation@,
            },
            Error::VerdictMissing { task, sha } => ErrorView::VerdictMissing {
                task: task@,
                sha: sha@,
            },
            Error::VerdictNotIndependent { task, agent } => ErrorView::VerdictNotIndependent {
                task: task@,
                agent: agent@,
            },
            Error::VerdictStale { task, verdict_sha, head } => ErrorView::VerdictStale {
                task: task@,
                verdict_sha: verdict_sha@,
                head: head@,
            },
            Error::DoneNotCommitted { task, msg } => ErrorView::DoneNotCommitted {
                task: task@,
                msg: msg@,
            },
            Error::NothingSchedulable => ErrorView::NothingSchedulable,
            Error::Git { args, code, stderr } => ErrorView::Git {
                args: views(args@),
                code: code,
                stderr: stderr@,
            },
            Error::Shape { context } => ErrorView::Shape { context: context@ },
            Error::Io(msg) => ErrorView::Io(msg@),
            Error::Json(msg) => ErrorView::Json(msg@),
            Error::Other(msg) => ErrorView::Other(msg@),
        }
    }
}

/// The view of a result.
pub open spec fn result_view<T: View>(r: Result<T>) -> std::result::Result<T::V, ErrorView> {
    match r {
        Ok(t) => Ok(t@),
        Err(e) => Err(e@),
    }
}

/// The view of a result without a value.
pub open spec fn unit_view(r: Result<()>) -> std::result::Result<(), ErrorView> {
    match r {
        Ok(_) => Ok(()),
        Err(e) => Err(e@),
    }
}

/// The exit code of an error.
pub open spec fn exit_code_of(e: ErrorView) -> i32 {
    match e {
        ErrorView::TierExhausted { .. } => 2,
        ErrorView::LeaseRaceLost { .. } => 3,
        ErrorView::OracleBlocked { .. } => 4,
        ErrorView::VerdictMissing { .. } => 5,
        ErrorView::VerdictNotIndependent { .. } => 5,
        ErrorView::VerdictStale { .. } => 5,
        _ => 1,
    }
}

/// A list of texts as `{:?}` writes it.
pub open spec fn quoted_list(s: Seq<Seq<char>>) -> Seq<char> {
    "["@ + joined(s.map_values(|t: Seq<char>| quoted(t)), ", "@) + "]"@
}

/// Writes a list of texts as `{:?}` does.
pub fn quote_list(v: &Vec<String>) -> (r: String)
    ensures
        r@ == quoted_list(views(v@)),
{
    let mut parts: Vec<String> = Vec::new();
    for i in 0..v.len()
        invariant
            parts@.len() == i,
            forall|j: int| 0 <= j < i ==> (#[trigger] parts@[j])@ == quoted(v@[j]@),
    {
        parts.push(quote(v[i].as_str()));
    }
    assert(views(parts@) =~= views(v@).map_values(|t: Seq<char>| quoted(t)));
    let mut r = "[".to_string();
    r.append(join(&parts, ", ").as_str());
    r.append("]");
    r
}

/// An exit status as `{:?}` writes it.
pub open spec fn status_text(code: Option<i32>) -> Seq<char> {
    match code {
        Some(n) => "Some("@ + signed_decimal(n as int) + ")"@,
        None => "None"@,
    }
}

fn write_status(code: &Option<i32>) -> (r: String)
    ensures
        r@ == status_text(*code),
{
    match code {
        Some(n) => {
            let mut r = "Some(".to_string();
            r.append(signed_decimal_text(*n as i64).as_str());
            r.append(")");
            r
        },
        None => "None".to_string(),
    }
}

/// What an error says.
pub open spec fn message_of(e: ErrorView) -> Seq<char> {
    match e {
        ErrorView::MissingDependency(dependency) => {
            "missing dependency: `"@ + dependency + "` not found on PATH"@
        },
        ErrorView::WorkspaceNotFound(start) => {
            "not inside a loom workspace: no .work/ found upward from "@ + start
                + " (run `loom init`)"@
        },
        ErrorView::TaskNotFound(task) => "task '"@ + task + "' not found"@,
        ErrorView::Parse { what, path, msg } => "invalid "@ + what + " file "@ + path + ": "@ + msg,
        ErrorView::LeaseRaceLost { task, holder } => {
            "lease race lost for task '"@ + task + "': held by '"@ + holder
                + "' — pick another task"@
        },
        ErrorView::NotLeaseHolder { task, holder } => {
            "lease for '"@ + task + "' is held by '"@ + holder + "', not you"@
        },
        ErrorView::NoLease(task) => "no lease exists for task '"@ + task + "'"@,
        ErrorView::TierExhausted { task, tier } => {
            "budget tier "@ + decimal(tier as nat) + " is the last tier for task '"@ + task
                + "': decompose or escalate"@
        },
        ErrorView::OracleBlocked { task, escalation } => {
            "task '"@ + task + "' is blocked on open escalation '"@ + escalation
                + "' with no default"@
        },
        ErrorView::VerdictMissing { task, sha } => {
            "no approving verdict for '"@ + task + "' at "@ + sha
                + ": run `loom verify` from an independent agent (or set [verify] mode in policy)"@
        },
        ErrorView::VerdictNotIndependent { task, agent } => {
            "verdict for '"@ + task + "' was issued by the implementer '"@ + agent
                + "'; [verify] mode = \"independent\" requires a different agent"@
        },
        ErrorView::VerdictStale { task, verdict_sha, head } => {
            "verdict for '"@ + task + "' is bound to "@ + verdict_sha + ", but HEAD is "@ + head
                + " — re-verify the current candidate"@
        },
        ErrorView::DoneNotCommitted { task, msg } => {
            "`loom done` could not commit atomically for '"@ + task + "': "@ + msg
                + " (task file restored; nothing was marked done)"@
        },
        ErrorView::NothingSchedulable => "nothing schedulable"@,
        ErrorView::Git { args, code, stderr } => {
            "git "@ + quoted_list(args) + " failed (exit "@ + status_text(code) + "): "@ + stderr
        },
        ErrorView::Shape { context } => "unexpected output shape: "@ + context,
        ErrorView::Io(msg) => msg,
        ErrorView::Json(msg) => msg,
        ErrorView::Other(msg) => msg,
    }
}

impl Error {
    /// The exit code of the process that ends with this error.
    pub fn exit_code(&self) -> (c: i32)
        ensures
            c == exit_code_of(self@),
    {
        match self {
            Error::TierExhausted { .. } => 2,
            Error::LeaseRaceLost { .. } => 3,
            Error::OracleBlocked { .. } => 4,
            Error::VerdictMissing { .. } => 5,
            Error::VerdictNotIndependent { .. } => 5,
            Error::VerdictStale { .. } => 5,
            _ => 1,
        }
    }

    /// What the error says.
    pub fn message(&self) -> (s: String)
        ensures
            s@ == message_of(self@),
    {
        match self {
            Error::MissingDependency(dependency) => {
                let mut s = "missing dependency: `".to_string();
                s.append(dependency.as_str());
                s.append("` not found on PATH");
                s
            },
            Error::WorkspaceNotFound(start) => {
                let mut s = "not inside a loom workspace: no .work/ found upward from ".to_string();
                s.append(start.as_str());
                s.append(" (run `loom init`)");
                s
            },
            Error::TaskNotFound(task) => {
                let mut s = "task '".to_string();
                s.append(task.as_str());
                s.append("' not found");
                s
            },
            Error::Parse { what, path, msg } => {
                let mut s = "invalid ".to_string();
                s.append(what.as_str());
                s.append(" file ");
                s.append(path.as_str());
                s.append(": ");
                s.append(msg.as_str());
                s
            },
            Error::LeaseRaceLost { task, holder } => {
                let mut s = "lease race lost for task '".to_string();
                s.append(task.as_str());
                s.append("': held by '");
                s.append(holder.as_str());
                s.append("' — pick another task");
                s
            },
            Error::NotLeaseHolder { task, holder } => {
                let mut s = "lease for '".to_string();
                s.append(task.as_str());
                s.append("' is held by '");
                s.append(holder.as_str());
                s.append("', not you");
                s
            },
            Error::NoLease(task) => {
                let mut s = "no lease exists for task '".to_string();
                s.append(task.as_str());
                s.append("'");
                s
            },
            Error::TierExhausted { task, tier } => {
                let mut s = "budget tier ".to_string();
                s.append(decimal_text(*tier as u64).as_str());
                s.append(" is the last tier for task '");
                s.append(task.as_str());
                s.append("': decompose or escalate");
                s
            },
            Error::OracleBlocked { task, escalation } => {
                let mut s = "task '".to_string();
                s.append(task.as_str());
                s.append("' is blocked on open escalation '");
                s.append(escalation.as_str());
                s.append("' with no default");
                s
            },
            Error::VerdictMissing { task, sha } => {
                let mut s = "no approving verdict for '".to_string();
                s.append(task.as_str());
                s.append("' at ");
                s.append(sha.as_str());
                s.append(": run `loom verify` from an independent agent (or set [verify] mode in policy)");
                s
            },
            Error::VerdictNotIndependent { task, agent } => {
                let mut s = "verdict for '".to_string();
                s.append(task.as_str());
                s.append("' was issued by the implementer '");
                s.append(agent.as_str());
                s.append("'; [verify] mode = \"independent\" requires a different agent");
                s
            },
            Error::VerdictStale { task, verdict_sha, head } => {
                let mut s = "verdict for '".to_string();
                s.append(task.as_str());
                s.append("' is bound to ");
                s.append(verdict_sha.as_str());
                s.append(", but HEAD is ");
                s.append(head.as_str());
                s.append(" — re-verify the current candidate");
                s
            },
            Error::DoneNotCommitted { task, msg } => {
                let mut s = "`loom done` could not commit atomically for '".to_string();
                s.append(task.as_str());
                s.append("': ");
                s.append(msg.as_str());
                s.append(" (task file restored; nothing was marked done)");
                s
            },
            Error::NothingSchedulable => "nothing schedulable".to_string(),
            Error::Git { args, code, stderr } => {
                let mut s = "git ".to_string();
                s.append(quote_list(args).as_str());
                s.append(" failed (exit ");
                s.append(write_status(code).as_str());
                s.append("): ");
                s.append(stderr.as_str());
                s
            },
            Error::Shape { context } => {
                let mut s = "unexpected output shape: ".to_string();
                s.append(context.as_str());
                s
            },
            Error::Io(msg) => msg.clone(),
            Error::Json(msg) => msg.clone(),
            Error::Other(msg) => msg.clone(),
        }
    }
}

// ----------------------------------------------------------------------- laws

/// The exit code tells a shell what to do next: the budget is spent, the race is
/// lost, the human is to be asked, a verdict is missing, or something failed. It
/// depends on the kind of the error alone.
pub proof fn law_exit_codes(e: ErrorView)
    ensures
        exit_code_of(e) == 2 <==> e is TierExhausted,
        exit_code_of(e) == 3 <==> e is LeaseRaceLost,
        exit_code_of(e) == 4 <==> e is OracleBlocked,
        exit_code_of(e) == 5 <==> e is VerdictMissing || e is VerdictNotIndependent
            || e is VerdictStale,
        1 <= exit_code_of(e) <= 5,
{
}

/// A message names everything that its error is about.
pub proof fn law_messages_name_their_subjects(e: ErrorView)
    ensures
        match e {
            ErrorView::MissingDependency(name) => occurs(name, message_of(e)),
            ErrorView::WorkspaceNotFound(start) => occurs(start, message_of(e)),
            ErrorView::TaskNotFound(task) => occurs(task, message_of(e)),
            ErrorView::Parse { what, path, msg } => occurs(what, message_of(e)) && occurs(
                path,
                message_of(e),
            ) && occurs(msg, message_of(e)),
            ErrorView::LeaseRaceLost { task, holder } => occurs(task, message_of(e)) && occurs(
                holder,
                message_of(e),
            ),
            ErrorView::NotLeaseHolder { task, holder } => occurs(task, message_of(e)) && occurs(
                holder,
                message_of(e),
            ),
            ErrorView::NoLease(task) => occurs(task, message_of(e)),
            ErrorView::TierExhausted { task, tier } => occurs(task, message_of(e)) && occurs(
                decimal(tier as nat),
                message_of(e),
            ),
            ErrorView::OracleBlocked { task, escalation } => occurs(task, message_of(e))
                && occurs(escalation, message_of(e)),
            ErrorView::VerdictMissing { task, sha } => occurs(task, message_of(e)) && occurs(
                sha,
                message_of(e),
            ),
            ErrorView::VerdictNotIndependent { task, agent } => occurs(task, message_of(e))
                && occurs(agent, message_of(e)),
            ErrorView::VerdictStale { task, verdict_sha, head } => occurs(task, message_of(e))
                && occurs(verdict_sha, message_of(e)) && occurs(head, message_of(e)),
            ErrorView::DoneNotCommitted { task, msg } => occurs(task, message_of(e)) && occurs(
                msg,
                message_of(e),
            ),
            ErrorView::NothingSchedulable => message_of(e) == "nothing schedulable"@,
            ErrorView::Git { args, code, stderr } => occurs(stderr, message_of(e)) && occurs(
                quoted_list(args),
                message_of(e),
            ) && occurs(status_text(code), message_of(e)),
            ErrorView::Shape { context } => occurs(context, message_of(e)),
            ErrorView::Io(msg) => message_of(e) == msg,
            ErrorView::Json(msg) => message_of(e) == msg,
            ErrorView::Other(msg) => message_of(e) == msg,
        },
{
    let m = message_of(e);
    match e {
        ErrorView::MissingDependency(name) => {
            lemma_names("missing dependency: `"@, name, "` not found on PATH"@, m);
        },
        ErrorView::WorkspaceNotFound(start) => {
            lemma_names(
                "not inside a loom workspace: no .work/ found upward from "@,
                start,
                " (run `loom init`)"@,
                m,
            );
        },
        ErrorView::TaskNotFound(task) => {
            lemma_names("task '"@, task, "' not found"@, m);
        },
        ErrorView::Parse { what, path, msg } => {
            let a = "invalid "@;
            let b = " file "@;
            lemma_names(a, what, b + path + ": "@ + msg, m);
            lemma_names(a + what + b, path, ": "@ + msg, m);
            lemma_names(a + what + b + path + ": "@, msg, Seq::empty(), m);
        },
        ErrorView::LeaseRaceLost { task, holder } => {
            lemma_names_two(
                "lease race lost for task '"@,
                task,
                "': held by '"@,
                holder,
                "' — pick another task"@,
                m,
            );
        },
        ErrorView::NotLeaseHolder { task, holder } => {
            lemma_names_two("lease for '"@, task, "' is held by '"@, holder, "', not you"@, m);
        },
        ErrorView::NoLease(task) => {
            lemma_names("no lease exists for task '"@, task, "'"@, m);
        },
        ErrorView::TierExhausted { task, tier } => {
            lemma_names_two(
                "budget tier "@,
                decimal(tier as nat),
                " is the last tier for task '"@,
                task,
                "': decompose or escalate"@,
                m,
            );
        },
        ErrorView::OracleBlocked { task, escalation } => {
            lemma_names_two(
                "task '"@,
                task,
                "' is blocked on open escalation '"@,
                escalation,
                "' with no default"@,
                m,
            );
        },
        ErrorView::VerdictMissing { task, sha } => {
            lemma_names_two(
                "no approving verdict for '"@,
                task,
                "' at "@,
                sha,
                ": run `loom verify` from an independent agent (or set [verify] mode in policy)"@,
                m,
            );
        },
        ErrorView::VerdictNotIndependent { task, agent } => {
            lemma_names_two(
                "verdict for '"@,
                task,
                "' was issued by the implementer '"@,
                agent,
                "'; [verify] mode = \"independent\" requires a different agent"@,
                m,
            );
        },
        ErrorView::VerdictStale { task, verdict_sha, head } => {
            let a = "verdict for '"@;
            let b = "' is bound to "@;
            let c = ", but HEAD is "@;
            let d = " — re-verify the current candidate"@;
            lemma_names(a, task, b + verdict_sha + c + head + d, m);
            lemma_names(a + task + b, verdict_sha, c + head + d, m);
            lemma_names(a + task + b + verdict_sha + c, head, d, m);
        },
        ErrorView::DoneNotCommitted { task, msg } => {
            lemma_names_two(
                "`loom done` could not commit atomically for '"@,
                task,
                "': "@,
                msg,
                " (task file restored; nothing was marked done)"@,
                m,
            );
        },
        ErrorView::Git { args, code, stderr } => {
            let a = "git "@;
            let b = " failed (exit "@;
            let c = "): "@;
            let (x, y) = (quoted_list(args), status_text(code));
            lemma_names(a, x, b + y + c + stderr, m);
            lemma_names(a + x + b, y, c + stderr, m);
            lemma_names(a + x + b + y + c, stderr, Seq::empty(), m);
        },
        ErrorView::Shape { context } => {
            lemma_names("unexpected output shape: "@, context, Seq::empty(), m);
        },
        _ => {},
    }
}

proof fn lemma_names(a: Seq<char>, x: Seq<char>, b: Seq<char>, m: Seq<char>)
    requires
        m =~= a + x + b,
    ensures
        occurs(x, m),
{
    law_occurs(a, x, b, m);
}

proof fn lemma_names_two(
    a: Seq<char>,
    x: Seq<char>,
    b: Seq<char>,
    y: Seq<char>,
    c: Seq<char>,
    m: Seq<char>,
)
    requires
        m =~= a + x + b + y + c,
    ensures
        occurs(x, m),
        occurs(y, m),
{
    lemma_names(a, x, b + y + c, m);
    lemma_names(a + x + b, y, c, m);
}

/// A status and a list of arguments are written as Rust's debug format has them.
pub proof fn law_debug_texts(n: i32, one: Seq<char>, more: Seq<Seq<char>>)
    ensures
        status_text(None) == "None"@,
        status_text(Some(n)) == "Some("@ + signed_decimal(n as int) + ")"@,
        quoted_list(Seq::empty()) == "[]"@,
        quoted_list(seq![one]) == "["@ + quoted(one) + "]"@,
        more.len() > 0 ==> quoted_list(more.push(one)) == quoted_list(more).drop_last() + ", "@
            + quoted(one) + "]"@,
{
    let f = |t: Seq<char>| quoted(t);
    reveal_strlit("[]");
    reveal_strlit("[");
    reveal_strlit("]");
    assert(Seq::<Seq<char>>::empty().map_values(f) =~= Seq::<Seq<char>>::empty());
    assert(quoted_list(Seq::empty()) =~= "[]"@);
    assert(seq![one].map_values(f) =~= seq![quoted(one)]);
    if more.len() > 0 {
        let all = more.push(one).map_values(f);
        assert(all.drop_last() =~= more.map_values(f));
        assert(quoted_list(more).drop_last() =~= "["@ + joined(more.map_values(f), ", "@));
        assert(quoted_list(more.push(one)) =~= quoted_list(more).drop_last() + ", "@ + quoted(one)
            + "]"@);
    }
}

/// The view of a result succeeds where the result does, with the view of what it
/// holds.
pub proof fn law_result_views<T: View>(t: T, e: Error)
    ensures
        result_view(Ok::<T, Error>(t)) == Ok::<T::V, ErrorView>(t@),
        result_view(Err::<T, Error>(e)) == Err::<T::V, ErrorView>(e@),
        unit_view(Ok(())) is Ok,
        unit_view(Err(e)) == Err::<(), ErrorView>(e@),
{
}

} // verus!
