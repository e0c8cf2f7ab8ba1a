//! The layer that runs programs.
//!
//! The only program that loom needs is `git`: leases, locks and telemetry are
//! git objects and refs. Every command goes through a [`Runner`], so that it
//! can be tried against a script, with no repository and no network.

use crate::error::{result_view, Error, ErrorView, Result};
use crate::text::{join, joined, lemma_views_push, trim_back, trim_end, views};
use vstd::prelude::*;

verus! {

/// One run of a program: what was called, and what came back.
#[verifier::ext_equal]
pub struct Event {
    /// The name of the program.
    pub program: Seq<char>,
    /// Its arguments.
    pub args: Seq<Seq<char>>,
    /// What it printed, or how it failed.
    pub reply: std::result::Result<Seq<char>, ErrorView>,
}

/// What a probe makes of a reply: a failing command is an answer, anything
/// else that goes wrong is not.
pub open spec fn probed(
    reply: std::result::Result<Seq<char>, ErrorView>,
) -> std::result::Result<Option<Seq<char>>, ErrorView> {
    match reply {
        Ok(s) => Ok(Some(s)),
        Err(ErrorView::Git { .. }) => Ok(None),
        Err(e) => Err(e),
    }
}

/// The view of the result of a probe.
pub open spec fn probe_view(r: Result<Option<String>>) -> std::result::Result<
    Option<Seq<char>>,
    ErrorView,
> {
    match r {
        Ok(Some(s)) => Ok(Some(s@)),
        Ok(None) => Ok(None),
        Err(e) => Err(e@),
    }
}

/// What runs programs.
pub trait Runner {
    /// Everything run so far.
    spec fn log(&self) -> Seq<Event>;

    /// Runs a program once and waits for it.
    fn run(&mut self, program: &str, args: &[&str]) -> (r: Result<String>)
        ensures
            final(self).log() == old(self).log().push(
                (Event { program: program@, args: views(args@), reply: result_view(r) }),
            ),
    ;

    /// Runs a program for which failure is an answer.
    fn try_run(&mut self, program: &str, args: &[&str]) -> (r: Result<Option<String>>)
        ensures
            exists|reply: std::result::Result<Seq<char>, ErrorView>|
                final(self).log() == old(self).log().push(
                    (Event { program: program@, args: views(args@), reply }),
                ) && probe_view(r) == #[trigger] probed(reply),
    {
        match self.run(program, args) {
            Ok(s) => {
                assert(probed(Ok::<Seq<char>, ErrorView>(s@)) == Ok::<Option<Seq<char>>, ErrorView>(
                    Some(s@),
                ));
                Ok(Some(s))
            },
            Err(e) => {
                assert(probed(Err::<Seq<char>, ErrorView>(e@)) is Ok <==> e@ is Git);
                match e {
                    Error::Git { .. } => Ok(None),
                    _ => Err(e),
                }
            },
        }
    }
}

// ---------------------------------------------------------- system processes

/// The text of a byte sequence, with every malformed part replaced.
pub uninterp spec fn lossy_text(bytes: Seq<u8>) -> Seq<char>;

/// `String::from_utf8_lossy`: the result is a function of the bytes alone.
#[verifier::external_body]
fn decode_lossy(bytes: &Vec<u8>) -> (s: String)
    ensures
        s@ == lossy_text(bytes@),
{
    String::from_utf8_lossy(bytes).into_owned()
}

/// How a process went.
#[derive(Debug)]
pub enum Outcome {
    /// It could not be started.
    NotStarted {
        /// Whether there is no such program.
        not_found: bool,
        /// What the system says.
        msg: String,
    },
    /// It ran to its end.
    Finished {
        /// Whether it exited with status zero.
        success: bool,
        /// Its exit status, if it exited by itself.
        code: Option<i32>,
        /// What it printed.
        stdout: Vec<u8>,
        /// What it complained of.
        stderr: Vec<u8>,
    },
}

/// One start of a process: what was started, and how it went.
#[verifier::ext_equal]
pub struct Start {
    /// The name of the program.
    pub program: Seq<char>,
    /// Its arguments.
    pub args: Seq<Seq<char>>,
    /// How the process went.
    pub outcome: Outcome,
}

/// The runner that starts real processes. `launch` starts a program and waits
/// for its end; nothing is assumed of it.
pub struct SystemRunner<L: Fn(&str, &[&str]) -> Outcome> {
    launch: L,
    started: Ghost<Seq<Start>>,
    log: Ghost<Seq<Event>>,
}

/// What a process that went this way amounts to: its output without trailing
/// white space, or the error.
pub open spec fn settled(
    program: Seq<char>,
    args: Seq<Seq<char>>,
    outcome: Outcome,
) -> std::result::Result<Seq<char>, ErrorView> {
    match outcome {
        Outcome::NotStarted { not_found, msg } => Err(
            if not_found && program == "git"@ {
                ErrorView::MissingDependency("git"@)
            } else {
                ErrorView::Io(msg@)
            },
        ),
        Outcome::Finished { success, code, stdout, stderr } => if success {
            Ok(trim_back(lossy_text(stdout@)))
        } else {
            Err(ErrorView::Git { args, code, stderr: trim_back(lossy_text(stderr@)) })
        },
    }
}

/// Owned copies of arguments.
fn own_args(args: &[&str]) -> (r: Vec<String>)
    ensures
        views(r@) == views(args@),
{
    let mut r: Vec<String> = Vec::new();
    for i in 0..args.len()
        invariant
            r@.len() == i,
            forall|j: int| 0 <= j < i ==> (#[trigger] r@[j])@ == args@[j]@,
    {
        r.push(args[i].to_string());
    }
    assert(views(r@) =~= views(args@));
    r
}

/// What a process that went this way amounts to.
pub fn settle(program: &str, args: &[&str], outcome: Outcome) -> (r: Result<String>)
    ensures
        result_view(r) == settled(program@, views(args@), outcome),
{
    match outcome {
        Outcome::NotStarted { not_found, msg } => {
            if not_found && *program == *"git" {
                Err(Error::MissingDependency("git".to_string()))
            } else {
                Err(Error::Io(msg))
            }
        },
        Outcome::Finished { success, code, stdout, stderr } => {
            if success {
                Ok(trim_end(decode_lossy(&stdout).as_str()))
            } else {
                Err(
                    Error::Git {
                        args: own_args(args),
                        code,
                        stderr: trim_end(decode_lossy(&stderr).as_str()),
                    },
                )
            }
        },
    }
}

impl<L: Fn(&str, &[&str]) -> Outcome> SystemRunner<L> {
    /// What starts the processes.
    pub closed spec fn launch(&self) -> L {
        self.launch
    }

    /// The processes started so far.
    pub closed spec fn started(&self) -> Seq<Start> {
        self.started@
    }

    #[verifier::type_invariant]
    spec fn launches_anything(&self) -> bool {
        forall|program: &str, args: &[&str]| #[trigger] call_requires(self.launch, (program, args))
    }

    /// A runner that has run nothing yet.
    pub fn new(launch: L) -> (r: SystemRunner<L>)
        requires
            forall|program: &str, args: &[&str]| #[trigger] call_requires(launch, (program, args)),
        ensures
            r.launch() == launch,
            r.started() == Seq::<Start>::empty(),
            r.log() == Seq::<Event>::empty(),
    {
        SystemRunner { launch, started: Ghost(Seq::empty()), log: Ghost(Seq::empty()) }
    }
}

impl<L: Fn(&str, &[&str]) -> Outcome> Runner for SystemRunner<L> {
    closed spec fn log(&self) -> Seq<Event> {
        self.log@
    }

    /// Starts the program once, with these arguments, and reports its output or
    /// the error.
    fn run(&mut self, program: &str, args: &[&str]) -> (r: Result<String>)
        ensures
            final(self).launch() == old(self).launch(),
            final(self).started() == old(self).started().push(final(self).started().last()),
            final(self).started().last().program == program@,
            final(self).started().last().args == views(args@),
            call_ensures(
                old(self).launch(),
                (program, args),
                final(self).started().last().outcome,
            ),
            result_view(r) == settled(
                program@,
                views(args@),
                final(self).started().last().outcome,
            ),
    {
        proof {
            use_type_invariant(&*self);
        }
        let outcome = (self.launch)(program, args);
        let ghost went = outcome;
        let r = settle(program, args, outcome);
        self.started = Ghost(
            self.started@.push(Start { program: program@, args: views(args@), outcome: went }),
        );
        self.log = Ghost(
            self.log@.push(
                Event { program: program@, args: views(args@), reply: result_view(r) },
            ),
        );
        r
    }
}

// --------------------------------------------------------------------- script

/// One reply of a script.
#[derive(Debug)]
pub enum Step {
    /// The command prints this.
    Print(String),
    /// The command fails with status one and complains of this.
    Fail(String),
}

/// A runner that runs nothing: it answers from a script and notes the calls.
pub struct ScriptRunner {
    steps: Vec<Step>,
    next: usize,
    calls: Vec<String>,
    log: Ghost<Seq<Event>>,
}

/// What a step answers to a call.
pub open spec fn step_reply(
    step: Step,
    args: Seq<Seq<char>>,
) -> std::result::Result<Seq<char>, ErrorView> {
    match step {
        Step::Print(s) => Ok(s@),
        Step::Fail(s) => Err(ErrorView::Git { args, code: Some(1), stderr: s@ }),
    }
}

/// A call as one line: the program and its arguments, separated by blanks.
pub open spec fn call_line(program: Seq<char>, args: Seq<Seq<char>>) -> Seq<char> {
    program + " "@ + joined(args, " "@)
}

impl ScriptRunner {
    /// A runner that will answer with these steps.
    pub fn new(steps: Vec<Step>) -> (r: ScriptRunner)
        ensures
            r.script() == steps@,
            r.noted() == Seq::<Seq<char>>::empty(),
            r.log() == Seq::<Event>::empty(),
    {
        let calls: Vec<String> = Vec::new();
        assert(views(calls@) =~= Seq::<Seq<char>>::empty());
        ScriptRunner { steps, next: 0, calls, log: Ghost(Seq::empty()) }
    }

    /// The steps that are left.
    pub closed spec fn script(&self) -> Seq<Step> {
        self.steps@.skip(self.next as int)
    }

    /// The calls so far, one line each.
    pub closed spec fn noted(&self) -> Seq<Seq<char>> {
        views(self.calls@)
    }

    #[verifier::type_invariant]
    spec fn within(&self) -> bool {
        self.next <= self.steps@.len()
    }

    /// Whether the script has been played to its end.
    pub fn is_done(&self) -> (b: bool)
        ensures
            b == (self.script().len() == 0),
    {
        proof {
            use_type_invariant(self);
        }
        self.next == self.steps.len()
    }

    /// The number of calls so far.
    pub fn count(&self) -> (n: usize)
        ensures
            n == self.noted().len(),
    {
        self.calls.len()
    }

    /// A call, as one line.
    pub fn call(&self, i: usize) -> (s: &str)
        requires
            i < self.noted().len(),
        ensures
            s@ == self.noted()[i as int],
    {
        self.calls[i].as_str()
    }
}

impl Runner for ScriptRunner {
    closed spec fn log(&self) -> Seq<Event> {
        self.log@
    }

    /// Answers with the next step; a call past the end of the script is an
    /// error that names the call.
    fn run(&mut self, program: &str, args: &[&str]) -> (r: Result<String>)
        ensures
            final(self).noted() == old(self).noted().push(call_line(program@, views(args@))),
            if old(self).script().len() > 0 {
                &&& result_view(r) == step_reply(old(self).script()[0], views(args@))
                &&& final(self).script() == old(self).script().drop_first()
            } else {
                &&& result_view(r) == Err::<Seq<char>, ErrorView>(
                    ErrorView::Other("unexpected call: "@ + call_line(program@, views(args@))),
                )
                &&& final(self).script() == old(self).script()
            },
    {
        proof {
            use_type_invariant(&*self);
        }
        let mut line = program.to_string();
        line.append(" ");
        line.append(join(&own_args(args), " ").as_str());
        let mut unexpected = "unexpected call: ".to_string();
        unexpected.append(line.as_str());
        proof {
            lemma_views_push(self.calls@, line);
        }
        let mut calls: Vec<String> = Vec::new();
        std::mem::swap(&mut self.calls, &mut calls);
        calls.push(line);
        self.calls = calls;
        let ghost steps = self.steps@.skip(self.next as int);
        let r: Result<String> = if self.next < self.steps.len() {
            let reply = match &self.steps[self.next] {
                Step::Print(s) => Ok(s.clone()),
                Step::Fail(s) => Err(
                    Error::Git { args: own_args(args), code: Some(1), stderr: s.clone() },
                ),
            };
            self.next = self.next + 1;
            assert(self.steps@.skip(self.next as int) =~= steps.drop_first());
            reply
        } else {
            Err(Error::Other(unexpected))
        };
        self.log = Ghost(
            self.log@.push(
                Event { program: program@, args: views(args@), reply: result_view(r) },
            ),
        );
        r
    }
}

/// What a process amounts to: what it printed without trailing white space where
/// it succeeded, its arguments, status and complaint where it failed, the missing
/// git where there is none, and otherwise what the system says.
pub proof fn law_settled(
    program: Seq<char>,
    args: Seq<Seq<char>>,
    msg: String,
    not_found: bool,
    success: bool,
    code: Option<i32>,
    stdout: Vec<u8>,
    stderr: Vec<u8>,
)
    ensures
        ({
            let failed = settled(program, args, Outcome::NotStarted { not_found, msg });
            let ended = settled(
                program,
                args,
                Outcome::Finished { success, code, stdout, stderr },
            );
            &&& success ==> ended is Ok && ended->Ok_0 == trim_back(lossy_text(stdout@))
            &&& !success ==> ended == Err::<Seq<char>, ErrorView>(
                ErrorView::Git { args, code, stderr: trim_back(lossy_text(stderr@)) },
            )
            &&& not_found && program == "git"@ ==> failed == Err::<Seq<char>, ErrorView>(
                ErrorView::MissingDependency("git"@),
            )
            &&& !not_found || program != "git"@ ==> failed == Err::<Seq<char>, ErrorView>(
                ErrorView::Io(msg@),
            )
        }),
{
}

/// A probe takes a failing command for an answer, and no other error; what was
/// printed it passes on.
pub proof fn law_probe(out: Seq<char>, e: ErrorView)
    ensures
        probed(Ok(out)) == Ok::<Option<Seq<char>>, ErrorView>(Some(out)),
        e is Git ==> probed(Err(e)) == Ok::<Option<Seq<char>>, ErrorView>(None),
        !(e is Git) ==> probed(Err(e)) == Err::<Option<Seq<char>>, ErrorView>(e),
{
}

/// A script answers as it is written: a printed step succeeds with its text, and a
/// failing one fails with status one and its complaint.
pub proof fn law_script_step(text: String, program: Seq<char>, args: Seq<Seq<char>>)
    ensures
        step_reply(Step::Print(text), args) == Ok::<Seq<char>, ErrorView>(text@),
        step_reply(Step::Fail(text), args) == Err::<Seq<char>, ErrorView>(
            ErrorView::Git { args, code: Some(1), stderr: text@ },
        ),
        program.is_prefix_of(call_line(program, args)),
{
    assert(call_line(program, args).take(program.len() as int) =~= program);
}

} // verus!
