//! What the commands decide.
//!
//! Decisions across agents read the canonical graph, never a worktree that a
//! branch may have changed. Reading and writing files, the clock, the
//! environment and the encoding of payloads are the caller's; every function
//! here turns what the caller has read into what the caller is to do.

use crate::clock::{
    displayed_instant, earlier, instant_key, law_instant_key_orders, minutes_between,
    parsed_instant, rfc3339_instant, valid_instant, Timestamp,
};
use crate::done::flipped;
use crate::error::{
    exit_code_of, quote_list, quoted_list, result_view, unit_view, Error, ErrorView, Result,
};
use crate::git::{is_record, Git};
use crate::json::{
    json_texts, json_valid, parsed_value, printed_value, stamp_text, stamped, stamped_texts,
};
use crate::model::{
    extension_is, has_extension, KNOWLEDGE_DIR, AttemptRecord, AttemptRecordView, Escalation,
    EscalationView, HeldLease, HeldLeaseView, History, LeasePayload, LeasePayloadView, Policy, Task,
    TaskState, TaskView, Verdict, VerdictView, Workspace,
};
use crate::order::{
    ascending, key_lt, law_sort_is_stable, law_stably_sorted, lemma_filter_contains,
    lemma_filter_first, lemma_filter_take, lemma_rank, lemma_rank_bounds, rank, sort_by_keys,
    stable_order, stably_sorted, SortKey,
};
use crate::protocol::{
    budget_of, candidates, count_failures, current_tier, daemon_should_continue, derived, exhausted,
    failures, gate, is_schedule, law_schedulable, ladder_exhausted, lease_is_stale, rankable,
    schedulable, schedule, tier_after, tier_budget, unblocks, waits_for, Attempts, Candidate,
    CandidateView, Derived, DerivedView, Leases, Tasks,
};
use crate::refs::{copy_records, held_by, records_of, renewed};
use crate::runner::{probe_view, probed, Event, Runner};
use crate::session::{asked, grew, list_view, opt_list_view, since};
use crate::table::{keys_of, law_put, lookup, put, Table};
use crate::text::{
    blank, chars_of, copy_texts, decimal, decimal_text, holds, is_blank, join, joined,
    lemma_one_line, lemma_views_push, lex_lt, lines_of, lowercased, opt_view, quote, quoted,
    signed_decimal, signed_decimal_text, starts_with, text_of, to_lowercase, views,
    white_space,
};
use vstd::prelude::*;

verus! {

// ------------------------------------------------------------------- identity

/// The name of the canonical branch: the configured one, or `main`.
pub fn main_ref(named: Option<String>) -> (r: String)
    ensures
        r@ == match named {
            Some(name) => name@,
            None => "main"@,
        },
{
    match named {
        Some(name) => name,
        None => "main".to_string(),
    }
}

/// A configured name of an agent counts unless it is blank.
pub open spec fn names_agent(named: Option<Seq<char>>) -> bool {
    named is Some && !blank(named->Some_0)
}

/// The name that git knows the user by, where it knows one.
pub open spec fn known_to_git(reply: std::result::Result<Seq<char>, ErrorView>) -> Option<
    Seq<char>,
> {
    match reply {
        Ok(email) if email.len() > 0 => Some(email),
        _ => None,
    }
}

/// What the commands work with.
pub struct Ctx<R: Runner> {
    /// Git.
    pub git: Git<R>,
    /// The workspace.
    pub ws: Workspace,
    /// Its policy.
    pub policy: Policy,
}

impl<R: Runner> Ctx<R> {
    /// The identity of this agent: the configured name; else the user's mail
    /// address as git knows it; else a name made from the process number.
    pub fn agent(&mut self, named: &Option<String>, pid: u32) -> (r: String)
        ensures
            final(self).git.remote == old(self).git.remote,
            final(self).ws == old(self).ws,
            final(self).policy == old(self).policy,
            if names_agent(opt_view(*named)) {
                r@ == named->Some_0@ && final(self).git.log() == old(self).git.log()
            } else {
                &&& grew(old(self).git.log(), final(self).git.log())
                &&& since(old(self).git.log(), final(self).git.log()).len() == 1
                &&& asked(
                    since(old(self).git.log(), final(self).git.log())[0],
                    seq!["config"@, "user.email"@],
                )
                &&& r@ == match known_to_git(
                    since(old(self).git.log(), final(self).git.log())[0].reply,
                ) {
                    Some(email) => email,
                    None => "agent-"@ + decimal(pid as nat),
                }
            },
    {
        if let Some(name) = named {
            if !is_blank(name.as_str()) {
                return name.clone();
            }
        }
        let ghost l0 = self.git.log();
        let args: [&str; 2] = ["config", "user.email"];
        assert(views(args@) =~= seq!["config"@, "user.email"@]);
        let email = self.git.runner.try_run("git", &args);
        proof {
            let reply = choose|reply: std::result::Result<Seq<char>, ErrorView>|
                self.git.log() == l0.push((Event { program: "git"@, args: views(args@), reply }))
                    && probe_view(email) == #[trigger] probed(reply);
            let e = Event { program: "git"@, args: views(args@), reply };
            assert(since(l0, self.git.log()) =~= seq![e]);
            assert(self.git.log() =~= l0 + seq![e]);
        }
        if let Ok(Some(email)) = email {
            if !email.as_str().is_empty() {
                return email;
            }
        }
        let mut r = "agent-".to_string();
        r.append(decimal_text(pid as u64).as_str());
        r
    }
}

// ------------------------------------------------------------------ the graph

/// A task file that has been read as TOML: the task, or what the TOML reader
/// says is wrong with it.
#[derive(Debug)]
pub struct ParsedTask {
    /// Where the file is.
    pub path: String,
    /// The task.
    pub task: std::result::Result<Task, String>,
}

/// The model of a [`ParsedTask`].
#[verifier::ext_equal]
pub struct ParsedTaskView {
    pub path: Seq<char>,
    pub task: std::result::Result<TaskView, Seq<char>>,
}

impl View for ParsedTask {
    type V = ParsedTaskView;

    open spec fn view(&self) -> ParsedTaskView {
        ParsedTaskView {
            path: self.path@,
            task: match self.task {
                Ok(t) => Ok(t@),
                Err(e) => Err(e@),
            },
        }
    }
}

/// The tasks by id: a later file with the same id replaces an earlier one, and
/// the first file that cannot be read is an error.
pub open spec fn indexed(files: Seq<ParsedTaskView>) -> std::result::Result<Tasks, ErrorView>
    decreases files.len(),
{
    if files.len() == 0 {
        Ok(Seq::empty())
    } else {
        match indexed(files.drop_last()) {
            Err(e) => Err(e),
            Ok(t) => match files.last().task {
                Ok(task) => Ok(put(t, task.id, task)),
                Err(msg) => Err(
                    ErrorView::Parse { what: "task"@, path: files.last().path, msg },
                ),
            },
        }
    }
}

proof fn lemma_indexed_stops(files: Seq<ParsedTaskView>, n: int)
    requires
        0 <= n <= files.len(),
        indexed(files.take(n)) is Err,
    ensures
        indexed(files) == indexed(files.take(n)),
    decreases files.len(),
{
    if n < files.len() {
        assert(files.drop_last().take(n) =~= files.take(n));
        lemma_indexed_stops(files.drop_last(), n);
    } else {
        assert(files.take(n) =~= files);
    }
}

/// The tasks by id.
pub fn index_tasks(files: &Vec<ParsedTask>) -> (r: Result<Table<Task>>)
    ensures
        result_view(r) == indexed(views(files@)),
{
    let mut t: Table<Task> = Table::new();
    let ghost all = views(files@);
    assert(all.take(0) =~= Seq::<ParsedTaskView>::empty());
    for i in 0..files.len()
        invariant
            all == views(files@),
            indexed(all.take(i as int)) == Ok::<Tasks, ErrorView>(t@),
    {
        let file = &files[i];
        proof {
            assert(all.take(i + 1).drop_last() =~= all.take(i as int));
            assert(all.take(i + 1).last() == file@);
        }
        match &file.task {
            Ok(task) => {
                t.insert(task.id.clone(), task.clone());
            },
            Err(msg) => {
                proof {
                    lemma_indexed_stops(all, i + 1);
                }
                return Err(
                    Error::Parse {
                        what: "task".to_string(),
                        path: file.path.clone(),
                        msg: msg.clone(),
                    },
                );
            },
        }
    }
    assert(all.take(all.len() as int) =~= all);
    Ok(t)
}

/// The graph that decisions across agents read, and whether it is the canonical
/// one: the files of the remote's main branch. Where the remote has no such
/// branch yet, and only there, it is the files of the worktree; where the branch
/// cannot be read it is an error.
pub fn canonical_tasks(
    branch: Result<Option<Vec<ParsedTask>>>,
    worktree: &Vec<ParsedTask>,
) -> (r: Result<(Table<Task>, bool)>)
    ensures
        match (opt_list_view(branch), r) {
            (Err(e), Err(f)) => f@ == e,
            (Ok(Some(files)), Ok(g)) => indexed(files) == Ok::<Tasks, ErrorView>(g.0@) && g.1,
            (Ok(Some(files)), Err(f)) => indexed(files) == Err::<Tasks, ErrorView>(f@),
            (Ok(None), Ok(g)) => indexed(views(worktree@)) == Ok::<Tasks, ErrorView>(g.0@)
                && !g.1,
            (Ok(None), Err(f)) => indexed(views(worktree@)) == Err::<Tasks, ErrorView>(f@),
            _ => false,
        },
{
    match branch {
        Err(e) => Err(e),
        Ok(Some(files)) => match index_tasks(&files) {
            Ok(t) => Ok((t, true)),
            Err(e) => Err(e),
        },
        Ok(None) => match index_tasks(worktree) {
            Ok(t) => Ok((t, false)),
            Err(e) => Err(e),
        },
    }
}

/// The leases without their commits.
pub open spec fn payloads(held: Seq<(Seq<char>, HeldLeaseView)>) -> Leases {
    held.map_values(|e: (Seq<char>, HeldLeaseView)| (e.0, e.1.payload))
}

/// What the fleet looks like at one moment.
pub struct Snapshot {
    /// The tasks.
    pub tasks: Table<Task>,
    /// The leases.
    pub leases: Table<LeasePayload>,
    /// The attempts.
    pub attempts: Table<History>,
    /// Whether the tasks are those of the canonical branch.
    pub canonical: bool,
}

/// The leases without their commits.
pub fn lease_payloads(held: &Table<HeldLease>) -> (r: Table<LeasePayload>)
    ensures
        r@ == payloads(held@),
{
    let mut r: Table<LeasePayload> = Table::new();
    let n: usize = held.len();
    assert(r@ =~= payloads(held@.take(0)));
    for i in 0..n
        invariant
            n == held@.len(),
            ascending(keys_of(held@)),
            r@ == payloads(held@.take(i as int)),
    {
        let payload = held.value(i).payload.clone();
        proof {
            lemma_put_payload(held@, i as int);
        }
        r.insert(held.key(i).to_string(), payload);
    }
    assert(held@.take(n as int) =~= held@);
    r
}

proof fn lemma_put_payload(held: Seq<(Seq<char>, HeldLeaseView)>, i: int)
    requires
        0 <= i < held.len(),
        ascending(keys_of(held)),
    ensures
        put(payloads(held.take(i)), held[i].0, held[i].1.payload) == payloads(held.take(i + 1)),
{
    let t = payloads(held.take(i));
    let keys = keys_of(t);
    assert forall|j: int| 0 <= j < i implies lex_lt(#[trigger] keys[j], held[i].0) by {
        assert(keys[j] == keys_of(held)[j]);
        assert(lex_lt(keys_of(held)[j], keys_of(held)[i]));
    }
    lemma_rank(keys, held[i].0, i);
    assert(put(t, held[i].0, held[i].1.payload) =~= payloads(held.take(i + 1)));
}

// --------------------------------------------------------------------- doctor

/// An id that no task has.
pub open spec fn unknown(all: Tasks) -> spec_fn(Seq<char>) -> bool {
    |dep: Seq<char>| lookup(all, dep) is None
}

/// The dependencies of a task that no task has, each with the task.
pub open spec fn dangling_of(task: TaskView, all: Tasks) -> Seq<Seq<char>> {
    task.deps.filter(unknown(all)).map_values(|dep: Seq<char>| task.id + "→"@ + dep)
}

/// The dangling dependencies of the first `n` tasks.
pub open spec fn dangling(all: Tasks, n: int) -> Seq<Seq<char>>
    decreases n,
{
    if n <= 0 {
        Seq::empty()
    } else {
        dangling(all, n - 1) + dangling_of(all[n - 1].1, all)
    }
}

/// Appends the dangling dependencies of a task.
fn push_dangling(out: &mut Vec<String>, task: &Task, all: &Table<Task>)
    ensures
        views(final(out)@) == views(old(out)@) + dangling_of(task@, all@),
{
    let ghost deps = views(task.deps@);
    let ghost p = unknown(all@);
    let ghost f = |dep: Seq<char>| task@.id + "→"@ + dep;
    let ghost so_far = views(out@);
    proof {
        lemma_filter_take(deps, p, 0);
        assert(views(out@) =~= so_far + deps.take(0).filter(p).map_values(f));
    }
    for i in 0..task.deps.len()
        invariant
            deps == views(task.deps@),
            p == unknown(all@),
            f == (|dep: Seq<char>| task@.id + "→"@ + dep),
            views(out@) == so_far + deps.take(i as int).filter(p).map_values(f),
    {
        proof {
            lemma_filter_take(deps, p, i as int);
            assert(deps[i as int] == task.deps@[i as int]@);
        }
        if !all.contains(task.deps[i].as_str()) {
            let mut s = task.id.clone();
            s.append("→");
            s.append(task.deps[i].as_str());
            let ghost chosen = deps.take(i as int).filter(p);
            proof {
                lemma_views_push(out@, s);
                assert(chosen.push(deps[i as int]).map_values(f) =~= chosen.map_values(f).push(s@));
            }
            out.push(s);
            assert(views(out@) =~= so_far + deps.take(i + 1).filter(p).map_values(f));
        }
    }
    proof {
        lemma_filter_take(deps, p, deps.len() as int);
    }
}

/// What the doctor finds wrong with the graph and the knowledge directory.
/// `knowledge` says whether there is such a directory.
pub open spec fn diagnosis(all: Tasks, knowledge: bool) -> std::result::Result<(), ErrorView> {
    let bad = dangling(all, all.len() as int);
    if bad.len() > 0 {
        Err(ErrorView::Other("dangling deps: "@ + joined(bad, ", "@)))
    } else if !knowledge {
        Err(ErrorView::Other("knowledge/ is missing: run `loom init`"@))
    } else {
        Ok(())
    }
}

/// Checks that every dependency is a task and that the knowledge directory is
/// there. `knowledge` holds the files of the directory, if there is one.
pub fn doctor(snap: &Snapshot, knowledge: &Option<Vec<String>>) -> (r: Result<()>)
    ensures
        unit_view(r) == diagnosis(snap.tasks@, knowledge is Some),
{
    let mut bad: Vec<String> = Vec::new();
    let n: usize = snap.tasks.len();
    assert(views(bad@) =~= dangling(snap.tasks@, 0));
    for i in 0..n
        invariant
            n == snap.tasks@.len(),
            views(bad@) == dangling(snap.tasks@, i as int),
    {
        push_dangling(&mut bad, snap.tasks.value(i), &snap.tasks);
    }
    if bad.len() > 0 {
        let mut msg = "dangling deps: ".to_string();
        msg.append(join(&bad, ", ").as_str());
        return Err(Error::Other(msg));
    }
    match knowledge {
        Some(_) => Ok(()),
        None => Err(Error::Other("knowledge/ is missing: run `loom init`".to_string())),
    }
}

/// Numbers as `{:?}` writes a list of them.
pub open spec fn number_list(s: Seq<u64>) -> Seq<char> {
    "["@ + joined(s.map_values(|n: u64| decimal(n as nat)), ", "@) + "]"@
}

fn write_numbers(v: &Vec<u64>) -> (r: String)
    ensures
        r@ == number_list(v@),
{
    let mut parts: Vec<String> = Vec::new();
    for i in 0..v.len()
        invariant
            parts@.len() == i,
            forall|j: int| 0 <= j < i ==> (#[trigger] parts@[j])@ == decimal(v@[j] as nat),
    {
        parts.push(decimal_text(v[i]));
    }
    assert(views(parts@) =~= v@.map_values(|n: u64| decimal(n as nat)));
    let mut r = "[".to_string();
    r.append(join(&parts, ", ").as_str());
    r.append("]");
    r
}

/// Which graph was read.
pub open spec fn graph_name(canonical: bool) -> Seq<char> {
    if canonical {
        "canonical(origin/main)"@
    } else {
        "worktree(fallback)"@
    }
}

/// What the doctor reports of a healthy workspace.
pub fn doctor_line(
    ws: &Workspace,
    snap: &Snapshot,
    policy: &Policy,
    agent: &str,
) -> (r: String)
    ensures
        r@ == "ok: root="@ + ws.root@ + " graph="@ + graph_name(snap.canonical) + " tasks="@
            + decimal(snap.tasks@.len()) + " tiers="@ + number_list(policy@.budget.tiers_minutes)
            + " lease_ttl="@ + signed_decimal(policy@.lease.ttl_minutes as int) + "m verify="@
            + policy@.verify.mode + " agent="@ + agent@,
{
    let mut r = "ok: root=".to_string();
    r.append(ws.root.as_str());
    r.append(" graph=");
    if snap.canonical {
        r.append("canonical(origin/main)");
    } else {
        r.append("worktree(fallback)");
    }
    r.append(" tasks=");
    r.append(decimal_text(snap.tasks.len() as u64).as_str());
    r.append(" tiers=");
    r.append(write_numbers(&policy.budget.tiers_minutes).as_str());
    r.append(" lease_ttl=");
    r.append(signed_decimal_text(policy.lease.ttl_minutes).as_str());
    r.append("m verify=");
    r.append(policy.verify.mode.as_str());
    r.append(" agent=");
    r.append(agent);
    r
}

// ---------------------------------------------------------------------- tasks

/// An id that neither graph has.
pub open spec fn in_neither(worktree: Tasks, canonical: Tasks) -> spec_fn(Seq<char>) -> bool {
    |dep: Seq<char>| lookup(worktree, dep) is None && lookup(canonical, dep) is None
}

/// What is wrong with the dependencies of a new task: the first that neither graph
/// has is not found.
pub open spec fn deps_checked(
    deps: Seq<Seq<char>>,
    worktree: Tasks,
    canonical: Tasks,
) -> std::result::Result<(), ErrorView> {
    let lost = deps.filter(in_neither(worktree, canonical));
    if lost.len() > 0 {
        Err(ErrorView::TaskNotFound(lost[0]))
    } else {
        Ok(())
    }
}

/// Checks that every dependency is a task of the worktree or of the canonical
/// graph.
pub fn known_deps(deps: &Vec<String>, worktree: &Table<Task>, canonical: &Table<Task>) -> (r:
    Result<()>)
    ensures
        unit_view(r) == deps_checked(views(deps@), worktree@, canonical@),
{
    let ghost all = views(deps@);
    let ghost p = in_neither(worktree@, canonical@);
    proof {
        lemma_filter_take(all, p, 0);
    }
    let mut i: usize = 0;
    while i < deps.len()
        invariant
            i <= deps@.len(),
            all == views(deps@),
            p == in_neither(worktree@, canonical@),
            all.take(i as int).filter(p).len() == 0,
        decreases deps@.len() - i,
    {
        let dep = deps[i].as_str();
        proof {
            lemma_filter_take(all, p, i as int);
            assert(all[i as int] == dep@);
        }
        if !worktree.contains(dep) && !canonical.contains(dep) {
            proof {
                lemma_filter_first(all, p, i as int);
            }
            return Err(Error::TaskNotFound(dep.to_string()));
        }
        i += 1;
    }
    proof {
        lemma_filter_take(all, p, all.len() as int);
    }
    Ok(())
}

/// What a new task is to be.
#[derive(Debug)]
pub struct TaskSpec {
    /// What the task is to achieve.
    pub goal: String,
    /// Its worth: the bits of a double-precision number.
    pub value_bits: u64,
    /// The tasks that must be done first.
    pub deps: Vec<String>,
    /// Interface contracts.
    pub contract: Vec<String>,
    /// Acceptance tests.
    pub accept: Vec<String>,
    /// What to read to start.
    pub context: Vec<String>,
    /// The starting budget tier.
    pub tier: usize,
}

/// A new task: open, and as specified.
pub open spec fn new_task(spec_of: TaskSpec, id: Seq<char>, now: (i64, u32)) -> TaskView {
    TaskView {
        id,
        goal: spec_of.goal@,
        state: TaskState::Open,
        value_bits: spec_of.value_bits,
        deps: views(spec_of.deps@),
        contract: views(spec_of.contract@),
        accept: views(spec_of.accept@),
        context: views(spec_of.context@),
        tier_initial: spec_of.tier,
        created: now,
    }
}

/// A new task: open, and as specified. Every dependency must be a task of the
/// worktree or of the canonical graph.
pub fn task_create(
    spec_of: TaskSpec,
    worktree: &Table<Task>,
    canonical: &Table<Task>,
    id: String,
    now: Timestamp,
) -> (r: Result<Task>)
    ensures
        result_view(r) == match deps_checked(views(spec_of.deps@), worktree@, canonical@) {
            Err(e) => Err(e),
            Ok(_) => Ok(new_task(spec_of, id@, now@)),
        },
{
    match known_deps(&spec_of.deps, worktree, canonical) {
        Ok(_) => {},
        Err(e) => {
            return Err(e);
        },
    }
    Ok(
        Task {
            id,
            goal: spec_of.goal,
            state: TaskState::Open,
            value_bits: spec_of.value_bits,
            deps: spec_of.deps,
            contract: spec_of.contract,
            accept: spec_of.accept,
            context: spec_of.context,
            tier_initial: spec_of.tier,
            created: now,
        },
    )
}

/// Whether a task still needs a probe: it has no acceptance tests.
pub fn needs_probe(task: &Task) -> (r: bool)
    ensures
        r == (task@.accept.len() == 0),
{
    task.accept.len() == 0
}

/// A derived state as `{:?}` writes it.
pub open spec fn state_text(d: DerivedView) -> Seq<char> {
    match d {
        DerivedView::Done => "Done"@,
        DerivedView::Dead => "Dead"@,
        DerivedView::Blocked(deps) => "Blocked("@ + quoted_list(deps) + ")"@,
        DerivedView::Leased(agent) => "Leased("@ + quoted(agent) + ")"@,
        DerivedView::Parked => "Parked"@,
        DerivedView::Open => "Open"@,
    }
}

/// A derived state as listings show it, in lower case.
pub fn state_label(d: &Derived) -> (r: String)
    ensures
        r@ == lowercased(state_text(d@)),
{
    let text = match d {
        Derived::Done => "Done".to_string(),
        Derived::Dead => "Dead".to_string(),
        Derived::Blocked(deps) => {
            let mut s = "Blocked(".to_string();
            s.append(quote_list(deps).as_str());
            s.append(")");
            s
        },
        Derived::Leased(agent) => {
            let mut s = "Leased(".to_string();
            s.append(quote(agent.as_str()).as_str());
            s.append(")");
            s
        },
        Derived::Parked => "Parked".to_string(),
        Derived::Open => "Open".to_string(),
    };
    to_lowercase(text.as_str())
}

/// One line of the listing of tasks.
#[derive(Debug)]
pub struct TaskRow {
    /// The task.
    pub id: String,
    /// Its goal.
    pub goal: String,
    /// Its worth: the bits of a double-precision number.
    pub value_bits: u64,
    /// Its current tier.
    pub tier: usize,
    /// Its derived state.
    pub state: String,
    /// The tasks that it depends on.
    pub deps: Vec<String>,
    /// How often it was attempted.
    pub attempts: usize,
}

/// The model of a [`TaskRow`].
#[verifier::ext_equal]
pub struct TaskRowView {
    pub id: Seq<char>,
    pub goal: Seq<char>,
    pub value_bits: u64,
    pub tier: usize,
    pub state: Seq<char>,
    pub deps: Seq<Seq<char>>,
    pub attempts: usize,
}

impl View for TaskRow {
    type V = TaskRowView;

    open spec fn view(&self) -> TaskRowView {
        TaskRowView {
            id: self.id@,
            goal: self.goal@,
            value_bits: self.value_bits,
            tier: self.tier,
            state: self.state@,
            deps: views(self.deps@),
            attempts: self.attempts,
        }
    }
}

/// The line of a task.
pub open spec fn row_for(
    task: TaskView,
    all: Tasks,
    leases: Leases,
    attempts: Attempts,
    tiers: nat,
) -> TaskRowView {
    TaskRowView {
        id: task.id,
        goal: task.goal,
        value_bits: task.value_bits,
        tier: tier_after(task.tier_initial as nat, failures(attempts, task.id), tiers) as usize,
        state: lowercased(state_text(derived(task, all, leases, attempts))),
        deps: task.deps,
        attempts: failures(attempts, task.id) as usize,
    }
}

/// The listing of all tasks, in the order of their ids.
pub fn tasks(snap: &Snapshot, tiers: &Vec<u64>) -> (r: Vec<TaskRow>)
    ensures
        views(r@) == snap.tasks@.map_values(
            |e: (Seq<char>, TaskView)|
                row_for(e.1, snap.tasks@, snap.leases@, snap.attempts@, tiers@.len()),
        ),
{
    let mut r: Vec<TaskRow> = Vec::new();
    let n: usize = snap.tasks.len();
    for i in 0..n
        invariant
            n == snap.tasks@.len(),
            r@.len() == i,
            forall|j: int| 0 <= j < i ==> (#[trigger] r@[j])@ == row_for(
                snap.tasks@[j].1,
                snap.tasks@,
                snap.leases@,
                snap.attempts@,
                tiers@.len(),
            ),
    {
        let t = snap.tasks.value(i);
        let d = crate::protocol::derive(t, &snap.tasks, &snap.leases, &snap.attempts);
        let row = TaskRow {
            id: t.id.clone(),
            goal: t.goal.clone(),
            value_bits: t.value_bits,
            tier: current_tier(t, &snap.attempts, tiers),
            state: state_label(&d),
            deps: copy_texts(&t.deps),
            attempts: count_failures(&snap.attempts, t.id.as_str()),
        };
        r.push(row);
    }
    assert(views(r@) =~= snap.tasks@.map_values(
        |e: (Seq<char>, TaskView)|
            row_for(e.1, snap.tasks@, snap.leases@, snap.attempts@, tiers@.len()),
    ));
    r
}

/// Everything about one task.
#[derive(Debug)]
pub struct TaskReport {
    /// The task.
    pub task: Task,
    /// Its derived state.
    pub derived: String,
    /// Its current tier.
    pub tier: usize,
    /// How many open tasks wait for it.
    pub unblocks: usize,
    /// The attempts at it, with their lessons.
    pub attempts: Vec<AttemptRecord>,
    /// Which graph was read.
    pub graph: String,
}

/// Everything about one task.
pub fn show(snap: &Snapshot, id: &str, tiers: &Vec<u64>) -> (r: Result<TaskReport>)
    ensures
        match (lookup(snap.tasks@, id@), r) {
            (Some(t), Ok(s)) => {
                &&& s.task@ == t
                &&& s.derived@ == lowercased(
                    state_text(derived(t, snap.tasks@, snap.leases@, snap.attempts@)),
                )
                &&& s.tier == tier_after(
                    t.tier_initial as nat,
                    failures(snap.attempts@, t.id),
                    tiers@.len(),
                )
                &&& s.unblocks == snap.tasks@.filter(waits_for(id@)).len()
                &&& views(s.attempts@) == records_of(snap.attempts@, id@)
                &&& s.graph@ == if snap.canonical {
                    "canonical"@
                } else {
                    "worktree"@
                }
            },
            (None, Err(e)) => e@ == ErrorView::TaskNotFound(id@),
            _ => false,
        },
{
    let t = match snap.tasks.get(id) {
        Some(t) => t,
        None => {
            return Err(Error::TaskNotFound(id.to_string()));
        },
    };
    let d = crate::protocol::derive(t, &snap.tasks, &snap.leases, &snap.attempts);
    let attempts = match snap.attempts.get(id) {
        Some(h) => copy_records(&h.records),
        None => Vec::new(),
    };
    assert(views(attempts@) =~= records_of(snap.attempts@, id@));
    Ok(
        TaskReport {
            task: t.clone(),
            derived: state_label(&d),
            tier: current_tier(t, &snap.attempts, tiers),
            unblocks: unblocks(id, &snap.tasks),
            attempts,
            graph: if snap.canonical {
                "canonical".to_string()
            } else {
                "worktree".to_string()
            },
        },
    )
}

// ----------------------------------------------------------------- scheduling

/// The best candidate, or all of them, the best first. `scores` holds the score
/// of each task, in the order of the table.
pub fn next(
    snap: &Snapshot,
    scores: &Vec<u64>,
    tiers: &Vec<u64>,
    all_candidates: bool,
) -> (r: Result<Vec<Candidate>>)
    requires
        scores@.len() == snap.tasks@.len(),
        rankable(
            candidates(
                snap.tasks@,
                snap.leases@,
                snap.attempts@,
                scores@,
                tiers@.len(),
                snap.tasks@.len() as int,
            ),
        ),
    ensures
        exists|found: Seq<CandidateView>| #[trigger]
            is_schedule(
                found,
                snap.tasks@,
                snap.leases@,
                snap.attempts@,
                scores@,
                tiers@.len(),
            ) && list_view(r) == if found.len() == 0 {
                Err(ErrorView::NothingSchedulable)
            } else if all_candidates {
                Ok(found)
            } else {
                Ok(found.take(1))
            },
{
    let found = schedule(&snap.tasks, &snap.leases, &snap.attempts, scores, tiers);
    let ghost all = views(found@);
    if found.len() == 0 {
        return Err(Error::NothingSchedulable);
    }
    if !all_candidates {
        let best = found[0].clone();
        let mut only: Vec<Candidate> = Vec::new();
        only.push(best);
        assert(views(only@) =~= all.take(1));
        return Ok(only);
    }
    Ok(found)
}

// --------------------------------------------------------------------- leases

/// An open question without a default that blocks a task.
pub open spec fn hard_block(id: Seq<char>) -> spec_fn(EscalationView) -> bool {
    |e: EscalationView| e.answer is None && e.default is None && e.blocking.contains(id)
}

/// Why a task cannot be leased now, if so: it is not free, or the human oracle
/// owes an answer.
pub open spec fn lease_refusal(
    id: Seq<char>,
    d: DerivedView,
    loaded: std::result::Result<Seq<EscalationView>, ErrorView>,
) -> Option<ErrorView> {
    match d {
        DerivedView::Leased(holder) => Some(ErrorView::LeaseRaceLost { task: id, holder }),
        DerivedView::Blocked(deps) => Some(
            ErrorView::Other(
                "task '"@ + id + "' is blocked by open deps: "@ + joined(deps, ", "@),
            ),
        ),
        DerivedView::Done => Some(ErrorView::Other("task '"@ + id + "' is not open"@)),
        DerivedView::Dead => Some(ErrorView::Other("task '"@ + id + "' is not open"@)),
        _ => match loaded {
            Err(e) => Some(e),
            Ok(list) => if list.filter(hard_block(id)).len() > 0 {
                Some(
                    ErrorView::OracleBlocked {
                        task: id,
                        escalation: list.filter(hard_block(id))[0].id,
                    },
                )
            } else {
                None
            },
        },
    }
}

/// What a lease is granted for.
#[derive(Debug, Clone, Copy, PartialEq, Eq)]
pub struct Grant {
    /// The tier.
    pub tier: usize,
    /// The minutes of the tier.
    pub minutes: u64,
    /// Whether the task needs a probe first.
    pub needs_probe: bool,
    /// Whether there are lessons of prior attempts to read.
    pub resumes: bool,
}

/// What a lease on a task is granted for.
pub open spec fn granted(
    task: TaskView,
    attempts: Attempts,
    id: Seq<char>,
    tiers: Seq<u64>,
) -> Grant {
    let tier = tier_after(task.tier_initial as nat, failures(attempts, task.id), tiers.len());
    Grant {
        tier: tier as usize,
        minutes: if tier < tiers.len() {
            tiers[tier as int]
        } else {
            0
        },
        needs_probe: task.accept.len() == 0,
        resumes: failures(attempts, id) > 0,
    }
}

/// The first open question without a default that blocks a task.
fn find_hard_block(list: &Vec<Escalation>, id: &str) -> (r: Option<String>)
    ensures
        opt_view(r) == if views(list@).filter(hard_block(id@)).len() > 0 {
            Some(views(list@).filter(hard_block(id@))[0].id)
        } else {
            None
        },
{
    let ghost all = views(list@);
    let ghost p = hard_block(id@);
    proof {
        lemma_filter_take(all, p, 0);
    }
    let mut i: usize = 0;
    while i < list.len()
        invariant
            i <= list@.len(),
            all == views(list@),
            p == hard_block(id@),
            all.take(i as int).filter(p).len() == 0,
        decreases list@.len() - i,
    {
        let e = &list[i];
        proof {
            lemma_filter_take(all, p, i as int);
            assert(all[i as int] == e@);
        }
        if e.is_open() && e.default.is_none() && holds(&e.blocking, id) {
            proof {
                lemma_filter_first(all, p, i as int);
            }
            return Some(e.id.clone());
        }
        i += 1;
    }
    proof {
        lemma_filter_take(all, p, all.len() as int);
    }
    None
}

/// Whether a task can be leased now, and for what. `loaded` holds the
/// escalations, if they could be read.
pub fn lease(
    snap: &Snapshot,
    loaded: Result<Vec<Escalation>>,
    id: &str,
    tiers: &Vec<u64>,
) -> (r: Result<Grant>)
    ensures
        match lookup(snap.tasks@, id@) {
            None => r matches Err(e) && e@ == ErrorView::TaskNotFound(id@),
            Some(t) => match lease_refusal(
                id@,
                derived(t, snap.tasks@, snap.leases@, snap.attempts@),
                list_view(loaded),
            ) {
                Some(refusal) => r matches Err(e) && e@ == refusal,
                None => r matches Ok(g) && g.tier == tier_after(
                    t.tier_initial as nat,
                    failures(snap.attempts@, t.id),
                    tiers@.len(),
                ) && g.minutes == (if g.tier < tiers@.len() {
                    tiers@[g.tier as int]
                } else {
                    0
                }) && g.needs_probe == (t.accept.len() == 0) && g.resumes == (failures(
                    snap.attempts@,
                    id@,
                ) > 0) && g == granted(t, snap.attempts@, id@, tiers@),
            },
        },
{
    let t = match snap.tasks.get(id) {
        Some(t) => t,
        None => {
            return Err(Error::TaskNotFound(id.to_string()));
        },
    };
    match crate::protocol::derive(t, &snap.tasks, &snap.leases, &snap.attempts) {
        Derived::Open => {},
        Derived::Parked => {},
        Derived::Leased(holder) => {
            return Err(Error::LeaseRaceLost { task: id.to_string(), holder });
        },
        Derived::Blocked(deps) => {
            let mut msg = "task '".to_string();
            msg.append(id);
            msg.append("' is blocked by open deps: ");
            msg.append(join(&deps, ", ").as_str());
            return Err(Error::Other(msg));
        },
        _ => {
            let mut msg = "task '".to_string();
            msg.append(id);
            msg.append("' is not open");
            return Err(Error::Other(msg));
        },
    }
    let list = match loaded {
        Ok(list) => list,
        Err(e) => {
            return Err(e);
        },
    };
    if let Some(escalation) = find_hard_block(&list, id) {
        return Err(Error::OracleBlocked { task: id.to_string(), escalation });
    }
    let tier: usize = current_tier(t, &snap.attempts, tiers);
    let minutes: u64 = if tier < tiers.len() {
        tiers[tier]
    } else {
        0
    };
    Ok(
        Grant {
            tier,
            minutes,
            needs_probe: t.accept.len() == 0,
            resumes: count_failures(&snap.attempts, id) > 0,
        },
    )
}

/// What the heartbeat does next.
#[derive(Debug, Clone, Copy, PartialEq, Eq, Structural)]
pub enum DaemonStep {
    /// Renews the lease and sleeps.
    Beat,
    /// Ends.
    Stop,
}

/// When the budget clock of a lease started: with the lease, or with its last
/// heartbeat where the lease does not say.
pub open spec fn clock_start(lease: LeasePayloadView) -> (i64, u32) {
    match lease.acquired {
        Some(t) => t,
        None => lease.heartbeat,
    }
}

fn start_of(lease: &LeasePayload) -> (t: Timestamp)
    ensures
        t@ == clock_start(lease@),
{
    match lease.acquired {
        Some(t) => t,
        None => lease.heartbeat,
    }
}

/// The heartbeat goes on while the agent holds the lease and the budget of its
/// tier lasts.
pub open spec fn beats_on(
    leases: Seq<(Seq<char>, HeldLeaseView)>,
    id: Seq<char>,
    agent: Seq<char>,
    now: (i64, u32),
    tiers: Seq<u64>,
) -> bool {
    match lookup(leases, id) {
        Some(held) => held.payload.agent == agent && minutes_between(
            now,
            clock_start(held.payload),
        ) < budget_of(tiers, held.payload.tier),
        None => false,
    }
}

/// What the heartbeat does next, given the leases that it has just read.
pub fn daemon_step(
    leases: &Table<HeldLease>,
    id: &str,
    agent: &str,
    now: &Timestamp,
    tiers: &Vec<u64>,
) -> (r: DaemonStep)
    ensures
        r == (if beats_on(leases@, id@, agent@, now@, tiers@) {
            DaemonStep::Beat
        } else {
            DaemonStep::Stop
        }),
{
    let held = match leases.get(id) {
        Some(held) => held,
        None => {
            return DaemonStep::Stop;
        },
    };
    if !(*held.payload.agent.as_str() == *agent) {
        return DaemonStep::Stop;
    }
    let acquired = start_of(&held.payload);
    if daemon_should_continue(&acquired, now, held.payload.tier, tiers) {
        DaemonStep::Beat
    } else {
        DaemonStep::Stop
    }
}

/// The seconds between two heartbeats: the minutes of the policy, one at least.
pub fn heartbeat_seconds(minutes: i64) -> (r: u64)
    requires
        minutes <= 0x0444_4444_4444_4444,
    ensures
        r == 60 * (if minutes > 1 {
            minutes as int
        } else {
            1
        }),
{
    if minutes > 1 {
        (minutes as u64) * 60
    } else {
        60
    }
}

/// Where a lease stands against its budget.
#[derive(Debug)]
pub struct Clock {
    /// The holder.
    pub leased_by: String,
    /// The tier.
    pub tier: usize,
    /// The minutes since the lease was acquired.
    pub elapsed_minutes: i64,
    /// The minutes of the tier.
    pub budget_minutes: i64,
    /// The minutes that are left.
    pub remaining_minutes: i128,
    /// Whether the budget is spent.
    pub over_budget: bool,
}

/// Where the lease on a task stands against its budget, if there is a lease.
pub fn status(leases: &Table<HeldLease>, id: &str, now: &Timestamp, tiers: &Vec<u64>) -> (r: Option<
    Clock,
>)
    ensures
        match (lookup(leases@, id@), r) {
            (Some(held), Some(c)) => {
                &&& c.leased_by@ == held.payload.agent
                &&& c.tier == held.payload.tier
                &&& c.elapsed_minutes == minutes_between(now@, clock_start(held.payload))
                &&& c.budget_minutes == budget_of(tiers@, held.payload.tier)
                &&& c.remaining_minutes == if c.budget_minutes > c.elapsed_minutes {
                    c.budget_minutes - c.elapsed_minutes
                } else {
                    0
                }
                &&& c.over_budget == (c.elapsed_minutes >= c.budget_minutes)
                &&& c.over_budget == (c.remaining_minutes == 0)
                &&& c.over_budget == !beats_on(
                    leases@,
                    id@,
                    held.payload.agent,
                    now@,
                    tiers@,
                )
                &&& held.payload.acquired matches Some(t) ==> c.elapsed_minutes
                    == minutes_between(now@, t)
            },
            (None, None) => true,
            _ => false,
        },
{
    let held = match leases.get(id) {
        Some(held) => held,
        None => {
            return None;
        },
    };
    let start = start_of(&held.payload);
    let elapsed: i64 = now.minutes_since(&start);
    let budget: i64 = tier_budget(tiers, held.payload.tier);
    let remaining: i128 = if budget > elapsed {
        (budget as i128) - (elapsed as i128)
    } else {
        0
    };
    Some(
        Clock {
            leased_by: held.payload.agent.clone(),
            tier: held.payload.tier,
            elapsed_minutes: elapsed,
            budget_minutes: budget,
            remaining_minutes: remaining,
            over_budget: elapsed >= budget,
        },
    )
}

// ------------------------------------------------------------------ lifecycle

/// A task given up: only its state changes.
pub open spec fn given_up(task: TaskView) -> TaskView {
    TaskView { state: TaskState::Dead, ..task }
}

/// Gives a task up.
pub fn dead(task: Task) -> (r: Task)
    ensures
        r@ == given_up(task@),
{
    let mut r = task;
    r.state = TaskState::Dead;
    r
}

/// The attempt that tells why a task was given up.
pub open spec fn told_dead(
    id: Seq<char>,
    tier_initial: usize,
    why: Seq<char>,
    agent: Seq<char>,
    now: (i64, u32),
) -> AttemptRecordView {
    AttemptRecordView {
        task: id,
        tier: tier_initial,
        sha: Seq::empty(),
        outcome: "dead"@,
        lesson: why,
        agent,
        at: now,
    }
}

/// The attempt that tells why a task was given up.
pub fn dead_attempt(id: &str, tier_initial: usize, why: &str, agent: &str, now: Timestamp) -> (r:
    AttemptRecord)
    ensures
        r@ == told_dead(id@, tier_initial, why@, agent@, now@),
{
    let sha = String::new();
    assert(sha@ =~= Seq::<char>::empty());
    AttemptRecord {
        task: id.to_string(),
        tier: tier_initial,
        sha,
        outcome: "dead".to_string(),
        lesson: why.to_string(),
        agent: agent.to_string(),
        at: now,
    }
}

/// A task after a probe: its acceptance tests are the probe's, and its context
/// too where the probe names one. Nothing else changes.
pub open spec fn after_probe(
    task: TaskView,
    accept: Seq<Seq<char>>,
    context: Seq<Seq<char>>,
) -> TaskView {
    TaskView {
        accept,
        context: if context.len() > 0 {
            context
        } else {
            task.context
        },
        ..task
    }
}

/// A task after a probe, which must produce an acceptance test. `loaded` holds
/// the task, if it could be read.
pub fn probe_done(accept: Vec<String>, context: Vec<String>, loaded: Result<Task>) -> (r: Result<
    Task,
>)
    ensures
        result_view(r) == if accept@.len() == 0 {
            Err(ErrorView::Other("probe must produce at least one acceptance test"@))
        } else {
            match result_view(loaded) {
                Err(e) => Err(e),
                Ok(t) => Ok(after_probe(t, views(accept@), views(context@))),
            }
        },
{
    if accept.len() == 0 {
        return Err(Error::Other("probe must produce at least one acceptance test".to_string()));
    }
    match loaded {
        Err(e) => Err(e),
        Ok(t) => {
            let mut t = t;
            t.accept = accept;
            if context.len() > 0 {
                t.context = context;
            }
            Ok(t)
        },
    }
}

/// A failed attempt that is to be recorded.
#[derive(Debug)]
pub struct AttemptPlan {
    /// The record.
    pub record: AttemptRecord,
    /// The tier of the next attempt, unless this is the last that the ladder
    /// allows.
    pub next_tier: Option<usize>,
}

/// The task that an attempt was made at: the canonical one, or that of the
/// worktree.
pub open spec fn attempted_task(
    all: Tasks,
    worktree: Option<TaskView>,
    id: Seq<char>,
) -> Option<TaskView> {
    match lookup(all, id) {
        Some(t) => Some(t),
        None => worktree,
    }
}

/// The record of a failed attempt at a task, at the tier that the task is at now.
pub open spec fn failed_attempt(
    task: TaskView,
    attempts: Attempts,
    id: Seq<char>,
    failure: Failure,
    agent: Seq<char>,
    now: (i64, u32),
    tiers: nat,
) -> AttemptRecordView {
    AttemptRecordView {
        task: id,
        tier: tier_after(
            task.tier_initial as nat,
            failures(attempts, task.id),
            tiers,
        ) as usize,
        sha: failure.sha@,
        outcome: failure.outcome@,
        lesson: failure.lesson@,
        agent,
        at: now,
    }
}

/// Where a failed attempt at this tier leads: to the next tier, unless the ladder
/// ends with it.
pub open spec fn tier_beyond(
    task: TaskView,
    attempts: Attempts,
    id: Seq<char>,
    tier: usize,
    tiers: nat,
) -> Option<usize> {
    if exhausted(task.tier_initial as nat, failures(attempts, id) + 1, tiers) {
        None
    } else {
        Some((tier + 1) as usize)
    }
}

/// How a failed attempt went.
#[derive(Debug)]
pub struct Failure {
    /// The candidate commit.
    pub sha: String,
    /// How the attempt ended.
    pub outcome: String,
    /// What the next attempt should know.
    pub lesson: String,
}

/// The record of a failed attempt, at the tier that the task is at now.
/// `worktree` holds the task of the worktree, if it could be read.
pub fn attempt(
    snap: &Snapshot,
    worktree: &Option<Task>,
    id: &str,
    failure: Failure,
    agent: &str,
    now: Timestamp,
    tiers: &Vec<u64>,
) -> (r: Result<AttemptPlan>)
    ensures
        match (attempted_task(snap.tasks@, opt_view(*worktree), id@), r) {
            (Some(t), Ok(plan)) => {
                &&& plan.record@ == failed_attempt(
                    t,
                    snap.attempts@,
                    id@,
                    failure,
                    agent@,
                    now@,
                    tiers@.len(),
                )
                &&& plan.next_tier == tier_beyond(
                    t,
                    snap.attempts@,
                    id@,
                    plan.record.tier,
                    tiers@.len(),
                )
            },
            (None, Err(e)) => e@ == ErrorView::TaskNotFound(id@),
            _ => false,
        },
{
    let t = match snap.tasks.get(id) {
        Some(t) => t,
        None => match worktree {
            Some(t) => t,
            None => {
                return Err(Error::TaskNotFound(id.to_string()));
            },
        },
    };
    let record = AttemptRecord {
        task: id.to_string(),
        tier: current_tier(t, &snap.attempts, tiers),
        sha: failure.sha,
        outcome: failure.outcome,
        lesson: failure.lesson,
        agent: agent.to_string(),
        at: now,
    };
    let before: usize = count_failures(&snap.attempts, id);
    let next_tier = if before >= tiers.len() || ladder_exhausted(t, before + 1, tiers) {
        None
    } else {
        Some(record.tier + 1)
    };
    Ok(AttemptPlan { record, next_tier })
}

/// What a recorded attempt comes to: the tier of the next attempt, or the end of
/// the ladder.
pub fn attempt_ends(plan: &AttemptPlan) -> (r: Result<usize>)
    ensures
        match (plan.next_tier, r) {
            (Some(next), Ok(tier)) => tier == next,
            (None, Err(e)) => e@ == (ErrorView::TierExhausted {
                task: plan.record@.task,
                tier: plan.record.tier,
            }),
            _ => false,
        },
{
    match plan.next_tier {
        Some(tier) => Ok(tier),
        None => Err(
            Error::TierExhausted { task: plan.record.task.clone(), tier: plan.record.tier },
        ),
    }
}

// --------------------------------------------------------------- verification

/// A verdict is one of two.
pub fn verify_flags(approve: bool, reject: bool) -> (r: Result<()>)
    ensures
        unit_view(r) == if approve == reject {
            Err(ErrorView::Other("pass exactly one of --approve / --reject"@))
        } else {
            Ok(())
        },
{
    if approve == reject {
        return Err(Error::Other("pass exactly one of --approve / --reject".to_string()));
    }
    Ok(())
}

/// What a verification publishes.
#[derive(Debug)]
pub struct VerifyPlan {
    /// The verdict.
    pub verdict: Verdict,
    /// The attempt that a rejection counts as.
    pub attempt: Option<AttemptRecord>,
}

/// The model of a [`VerifyPlan`].
#[verifier::ext_equal]
pub struct VerifyPlanView {
    pub verdict: VerdictView,
    pub attempt: Option<AttemptRecordView>,
}

impl View for VerifyPlan {
    type V = VerifyPlanView;

    open spec fn view(&self) -> VerifyPlanView {
        VerifyPlanView { verdict: self.verdict@, attempt: opt_view(self.attempt) }
    }
}

/// Whether an agent judges its own work: it holds the lease.
pub open spec fn judges_itself(
    leases: Seq<(Seq<char>, HeldLeaseView)>,
    id: Seq<char>,
    agent: Seq<char>,
) -> bool {
    match lookup(leases, id) {
        Some(held) => held.payload.agent == agent,
        None => false,
    }
}

/// A verdict on a candidate.
pub open spec fn judged(
    id: Seq<char>,
    head: Seq<char>,
    approve: bool,
    agent: Seq<char>,
    self_verdict: bool,
    at: (i64, u32),
) -> VerdictView {
    VerdictView {
        task: id,
        sha: head,
        verdict: if approve {
            "approve"@
        } else {
            "reject"@
        },
        agent,
        self_verdict,
        at,
    }
}

/// What the verdict of an agent on a candidate publishes.
pub open spec fn verification(
    leases: Seq<(Seq<char>, HeldLeaseView)>,
    id: Seq<char>,
    approve: bool,
    head: Seq<char>,
    lesson: Option<Seq<char>>,
    agent: Seq<char>,
    now: (i64, u32),
) -> std::result::Result<VerifyPlanView, ErrorView> {
    let verdict = judged(id, head, approve, agent, judges_itself(leases, id, agent), now);
    if approve {
        Ok(VerifyPlanView { verdict, attempt: None })
    } else {
        match lesson {
            Some(why) => Ok(
                VerifyPlanView {
                    verdict,
                    attempt: Some(
                        AttemptRecordView {
                            task: id,
                            tier: 0,
                            sha: head,
                            outcome: "review-reject"@,
                            lesson: why,
                            agent,
                            at: now,
                        },
                    ),
                },
            ),
            None => Err(
                ErrorView::Other(
                    "--lesson is required when rejecting (state the reasons; better: add them as failing acceptance tests)"@,
                ),
            ),
        }
    }
}

/// What the verdict of an agent on a candidate publishes. A rejection must come
/// with its reasons, and counts as an attempt.
pub fn verify(
    leases: &Table<HeldLease>,
    id: &str,
    approve: bool,
    head: &str,
    lesson: Option<String>,
    agent: &str,
    now: Timestamp,
) -> (r: Result<VerifyPlan>)
    ensures
        result_view(r) == verification(
            leases@,
            id@,
            approve,
            head@,
            opt_view(lesson),
            agent@,
            now@,
        ),
{
    let self_verdict = match leases.get(id) {
        Some(held) => *held.payload.agent.as_str() == *agent,
        None => false,
    };
    if approve {
        let verdict = Verdict {
            task: id.to_string(),
            sha: head.to_string(),
            verdict: "approve".to_string(),
            agent: agent.to_string(),
            self_verdict,
            at: now,
        };
        return Ok(VerifyPlan { verdict, attempt: None });
    }
    match lesson {
        Some(lesson) => {
            let verdict = Verdict {
                task: id.to_string(),
                sha: head.to_string(),
                verdict: "reject".to_string(),
                agent: agent.to_string(),
                self_verdict,
                at: now,
            };
            let record = AttemptRecord {
                task: id.to_string(),
                tier: 0,
                sha: head.to_string(),
                outcome: "review-reject".to_string(),
                lesson,
                agent: agent.to_string(),
                at: now,
            };
            Ok(VerifyPlan { verdict, attempt: Some(record) })
        },
        None => Err(
            Error::Other(
                "--lesson is required when rejecting (state the reasons; better: add them as failing acceptance tests)".to_string(),
            ),
        ),
    }
}

// ---------------------------------------------------------------- escalations

/// A question to be filed.
#[derive(Debug)]
pub struct Question {
    /// The question.
    pub question: String,
    /// The answers to choose from.
    pub options: Vec<String>,
    /// The recommended answer.
    pub recommend: String,
    /// What speaks for it.
    pub evidence: Vec<String>,
    /// The tasks that wait for the answer.
    pub blocking: Vec<String>,
    /// When the default becomes the answer, as text.
    pub deadline: Option<String>,
    /// The answer once the deadline has passed.
    pub default: Option<String>,
}

/// The model of a [`Question`].
#[verifier::ext_equal]
pub struct QuestionView {
    pub question: Seq<char>,
    pub options: Seq<Seq<char>>,
    pub recommend: Seq<char>,
    pub evidence: Seq<Seq<char>>,
    pub blocking: Seq<Seq<char>>,
    pub deadline: Option<Seq<char>>,
    pub default: Option<Seq<char>>,
}

impl View for Question {
    type V = QuestionView;

    open spec fn view(&self) -> QuestionView {
        QuestionView {
            question: self.question@,
            options: views(self.options@),
            recommend: self.recommend@,
            evidence: views(self.evidence@),
            blocking: views(self.blocking@),
            deadline: opt_view(self.deadline),
            default: opt_view(self.default),
        }
    }
}

/// What is wrong with a question whose deadline has been read as `deadline`, if
/// anything: there must be a choice, the recommendation and the default must be
/// options, and a default needs a deadline.
pub open spec fn question_fault(
    q: QuestionView,
    deadline: Option<std::result::Result<(i64, u32), Seq<char>>>,
) -> Option<Seq<char>> {
    if q.options.len() < 2 {
        Some("an escalation needs at least two options"@)
    } else if !q.options.contains(q.recommend) {
        Some("--recommend must be one of the --option values"@)
    } else if q.default is Some && !q.options.contains(q.default->Some_0) {
        Some("--default must be one of the --option values"@)
    } else {
        match deadline {
            Some(Err(e)) => Some("bad --deadline '"@ + q.deadline->Some_0 + "': "@ + e),
            Some(Ok(_)) => None,
            None => if q.default is Some {
                Some("--default requires --deadline"@)
            } else {
                None
            },
        }
    }
}

/// A question as it is filed: open, with the deadline that was read.
pub open spec fn filed(
    q: QuestionView,
    deadline: Option<(i64, u32)>,
    id: Seq<char>,
    now: (i64, u32),
) -> EscalationView {
    EscalationView {
        id,
        question: q.question,
        options: q.options,
        recommend: q.recommend,
        evidence: q.evidence,
        blocking: q.blocking,
        deadline,
        default: q.default,
        answer: None,
        answered_by: None,
        created: now,
    }
}

/// What reading an optional text as an instant gives.
pub open spec fn read_deadline(text: Option<Seq<char>>) -> Option<
    std::result::Result<(i64, u32), Seq<char>>,
> {
    match text {
        Some(s) => Some(parsed_instant(s)),
        None => None,
    }
}

/// The instant that was read, if any.
pub open spec fn read_instant(
    deadline: Option<std::result::Result<(i64, u32), Seq<char>>>,
) -> Option<(i64, u32)> {
    match deadline {
        Some(Ok(t)) => Some(t),
        _ => None,
    }
}

/// The view of an optional reading of an instant.
pub open spec fn reading_view(
    deadline: Option<std::result::Result<Timestamp, String>>,
) -> Option<std::result::Result<(i64, u32), Seq<char>>> {
    match deadline {
        Some(Ok(t)) => Some(Ok(t@)),
        Some(Err(e)) => Some(Err(e@)),
        None => None,
    }
}

/// Files a question whose deadline has been read as `deadline`.
pub fn escalate_at(
    q: Question,
    deadline: Option<std::result::Result<Timestamp, String>>,
    id: String,
    now: Timestamp,
) -> (r: Result<Escalation>)
    requires
        deadline is Some <==> q.deadline is Some,
    ensures
        result_view(r) == match question_fault(q@, reading_view(deadline)) {
            Some(fault) => Err(ErrorView::Other(fault)),
            None => Ok(filed(q@, read_instant(reading_view(deadline)), id@, now@)),
        },
{
    if q.options.len() < 2 {
        return Err(Error::Other("an escalation needs at least two options".to_string()));
    }
    if !holds(&q.options, q.recommend.as_str()) {
        return Err(Error::Other("--recommend must be one of the --option values".to_string()));
    }
    if let Some(d) = &q.default {
        if !holds(&q.options, d.as_str()) {
            return Err(Error::Other("--default must be one of the --option values".to_string()));
        }
    }
    let deadline = match deadline {
        Some(Ok(t)) => Some(t),
        Some(Err(e)) => {
            let mut msg = "bad --deadline '".to_string();
            if let Some(text) = &q.deadline {
                msg.append(text.as_str());
            }
            msg.append("': ");
            msg.append(e.as_str());
            return Err(Error::Other(msg));
        },
        None => None,
    };
    if q.default.is_some() && deadline.is_none() {
        return Err(Error::Other("--default requires --deadline".to_string()));
    }
    Ok(
        Escalation {
            id,
            question: q.question,
            options: q.options,
            recommend: q.recommend,
            evidence: q.evidence,
            blocking: q.blocking,
            deadline,
            default: q.default,
            answer: None,
            answered_by: None,
            created: now,
        },
    )
}

/// Files a question.
pub fn escalate(q: Question, id: String, now: Timestamp) -> (r: Result<Escalation>)
    ensures
        result_view(r) == match question_fault(q@, read_deadline(q@.deadline)) {
            Some(fault) => Err(ErrorView::Other(fault)),
            None => Ok(filed(q@, read_instant(read_deadline(q@.deadline)), id@, now@)),
        },
{
    let deadline = match &q.deadline {
        Some(text) => Some(Timestamp::parse(text.as_str())),
        None => None,
    };
    assert(reading_view(deadline) == read_deadline(q@.deadline));
    escalate_at(q, deadline, id, now)
}

/// Whether the default of a question becomes its answer now: it is open, it has
/// a default, and its deadline has passed.
pub open spec fn default_due(e: EscalationView, now: (i64, u32)) -> bool {
    e.answer is None && e.default is Some && e.deadline is Some && !earlier(
        now,
        e.deadline->Some_0,
    )
}

/// A question after its default was applied where it is due.
pub open spec fn defaulted(e: EscalationView, now: (i64, u32)) -> EscalationView {
    if default_due(e, now) {
        EscalationView {
            answer: e.default,
            answered_by: Some("deadline-default"@),
            ..e
        }
    } else {
        e
    }
}

/// Answers a question with its default where that is due, and says whether it
/// did.
pub fn apply_default(e: &mut Escalation, now: &Timestamp) -> (r: bool)
    ensures
        final(e)@ == defaulted(old(e)@, now@),
        r == default_due(old(e)@, now@),
{
    if !e.is_open() {
        return false;
    }
    let deadline = match e.deadline {
        Some(t) => t,
        None => {
            return false;
        },
    };
    let default = match &e.default {
        Some(d) => d.clone(),
        None => {
            return false;
        },
    };
    if !now.at_or_after(&deadline) {
        return false;
    }
    e.answer = Some(default);
    e.answered_by = Some("deadline-default".to_string());
    true
}

/// The key that puts questions in the order in which they were filed.
pub open spec fn filing_key(e: EscalationView) -> (int, Seq<char>) {
    (instant_key(e.created), Seq::empty())
}

/// Questions in the order in which they were filed.
pub fn sort_escalations(list: &Vec<Escalation>) -> (r: Vec<Escalation>)
    ensures
        stably_sorted(
            views(list@),
            views(list@).map_values(|e: EscalationView| filing_key(e)),
            views(r@),
        ),
{
    let mut keys: Vec<SortKey> = Vec::new();
    for i in 0..list.len()
        invariant
            keys@.len() == i,
            forall|j: int| 0 <= j < i ==> (#[trigger] keys@[j])@ == filing_key(list@[j]@),
    {
        let key = SortKey { number: list[i].created.key(), text: String::new() };
        assert(key@ == filing_key(list@[i as int]@)) by {
            assert(key.text@ =~= Seq::<char>::empty());
        }
        keys.push(key);
    }
    assert(views(keys@) =~= views(list@).map_values(|e: EscalationView| filing_key(e)));
    sort_by_keys(list, &keys)
}

// ---------------------------------------------------------------------- sweep

/// A lease that has been silent for the time to live. The merge lock is never
/// swept.
pub open spec fn is_stale(now: (i64, u32), ttl_minutes: i64) -> spec_fn(
    (Seq<char>, HeldLeaseView),
) -> bool {
    |e: (Seq<char>, HeldLeaseView)|
        e.0 != "merge-lock"@ && minutes_between(now, e.1.payload.heartbeat) >= ttl_minutes
}

/// A lease to be reclaimed.
#[derive(Debug)]
pub struct Reclaim {
    /// The task.
    pub task: String,
    /// The lease.
    pub payload: LeasePayload,
}

/// The model of a [`Reclaim`].
#[verifier::ext_equal]
pub struct ReclaimView {
    pub task: Seq<char>,
    pub payload: LeasePayloadView,
}

impl View for Reclaim {
    type V = ReclaimView;

    open spec fn view(&self) -> ReclaimView {
        ReclaimView { task: self.task@, payload: self.payload@ }
    }
}

/// The stale leases.
pub open spec fn stale(
    leases: Seq<(Seq<char>, HeldLeaseView)>,
    now: (i64, u32),
    ttl_minutes: i64,
) -> Seq<ReclaimView> {
    leases.filter(is_stale(now, ttl_minutes)).map_values(
        |e: (Seq<char>, HeldLeaseView)| ReclaimView { task: e.0, payload: e.1.payload },
    )
}

/// The leases to be reclaimed, in the order of their tasks.
pub fn sweep(leases: &Table<HeldLease>, now: &Timestamp, ttl_minutes: i64) -> (r: Vec<Reclaim>)
    ensures
        views(r@) == stale(leases@, now@, ttl_minutes),
{
    let ghost t = leases@;
    let ghost p = is_stale(now@, ttl_minutes);
    let ghost f = |e: (Seq<char>, HeldLeaseView)|
        ReclaimView { task: e.0, payload: e.1.payload };
    let mut r: Vec<Reclaim> = Vec::new();
    let n: usize = leases.len();
    proof {
        lemma_filter_take(t, p, 0);
        assert(views(r@) =~= t.take(0).filter(p).map_values(f));
    }
    for i in 0..n
        invariant
            t == leases@,
            n == t.len(),
            p == is_stale(now@, ttl_minutes),
            f == (|e: (Seq<char>, HeldLeaseView)|
                ReclaimView { task: e.0, payload: e.1.payload }),
            views(r@) == t.take(i as int).filter(p).map_values(f),
    {
        proof {
            lemma_filter_take(t, p, i as int);
        }
        let held = leases.value(i);
        if !(*leases.key(i) == *"merge-lock") && lease_is_stale(&held.payload, now, ttl_minutes) {
            let one = Reclaim {
                task: leases.key(i).to_string(),
                payload: held.payload.clone(),
            };
            let ghost chosen = t.take(i as int).filter(p);
            proof {
                lemma_views_push(r@, one);
                assert(chosen.push(t[i as int]).map_values(f) =~= chosen.map_values(f).push(one@));
            }
            r.push(one);
        }
    }
    proof {
        lemma_filter_take(t, p, t.len() as int);
    }
    r
}

/// The attempt that tells the fleet of a reclaimed lease.
pub open spec fn told_swept(
    one: ReclaimView,
    agent: Seq<char>,
    now: (i64, u32),
) -> AttemptRecordView {
    AttemptRecordView {
        task: one.task,
        tier: one.payload.tier,
        sha: Seq::empty(),
        outcome: "lease-swept"@,
        lesson: "lease held by "@ + one.payload.agent + " went silent (last heartbeat "@
            + displayed_instant(one.payload.heartbeat.0, one.payload.heartbeat.1) + ")"@,
        agent,
        at: now,
    }
}

/// The attempt that tells the fleet of a reclaimed lease.
pub fn swept_attempt(one: &Reclaim, agent: &str, now: Timestamp) -> (r: AttemptRecord)
    ensures
        r@ == told_swept(one@, agent@, now@),
{
    let mut lesson = "lease held by ".to_string();
    lesson.append(one.payload.agent.as_str());
    lesson.append(" went silent (last heartbeat ");
    lesson.append(one.payload.heartbeat.display().as_str());
    lesson.append(")");
    let sha = String::new();
    assert(sha@ =~= Seq::<char>::empty());
    AttemptRecord {
        task: one.task.clone(),
        tier: one.payload.tier,
        sha,
        outcome: "lease-swept".to_string(),
        lesson,
        agent: agent.to_string(),
        at: now,
    }
}

// ------------------------------------------------------------------ telemetry

/// A telemetry record as it is stored: on one line, with the agent and the time
/// where it is an object. What else it says stays.
pub fn telemetry(record_json: &str, agent: &str, now: &Timestamp) -> (r: Result<String>)
    ensures
        result_view(r) == match parsed_value(record_json@) {
            Ok(value) => Ok(
                printed_value(stamped(value, agent@, rfc3339_instant(now@.0, now@.1))),
            ),
            Err(e) => Err(ErrorView::Other("--json must be valid JSON: "@ + e)),
        },
        match r {
            Ok(s) => {
                &&& lines_of(s@) == seq![s@]
                &&& json_valid(s@) ==> is_record()(s@)
                &&& json_valid(s@) ==> json_texts(s@) == stamped_texts(
                    json_texts(record_json@),
                    agent@,
                    rfc3339_instant(now@.0, now@.1),
                )
            },
            Err(_) => true,
        },
{
    match stamp_text(record_json, agent, now.rfc3339().as_str()) {
        Ok(s) => {
            proof {
                lemma_one_line(s@);
            }
            Ok(s)
        },
        Err(e) => {
            let mut msg = "--json must be valid JSON: ".to_string();
            msg.append(e.as_str());
            Err(Error::Other(msg))
        },
    }
}

// ------------------------------------------------------------------ knowledge

/// A Markdown file.
pub open spec fn is_markdown() -> spec_fn(Seq<char>) -> bool {
    |name: Seq<char>| has_extension(name, "md"@)
}

/// The knowledge files among the files of the directory, by their paths.
pub open spec fn knowledge_paths(names: Seq<Seq<char>>) -> Seq<Seq<char>> {
    names.filter(is_markdown()).map_values(|name: Seq<char>| "knowledge"@ + "/"@ + name)
}

/// The knowledge files among the files of the directory, by their paths, in
/// ascending order.
pub fn existing_knowledge(names: &Vec<String>) -> (r: Vec<String>)
    ensures
        stably_sorted(
            knowledge_paths(views(names@)),
            knowledge_paths(views(names@)).map_values(|path: Seq<char>| (0int, path)),
            views(r@),
        ),
{
    let ghost all = views(names@);
    let ghost p = is_markdown();
    let ghost f = |name: Seq<char>| "knowledge"@ + "/"@ + name;
    let mut paths: Vec<String> = Vec::new();
    let mut keys: Vec<SortKey> = Vec::new();
    proof {
        lemma_filter_take(all, p, 0);
        assert(views(paths@) =~= all.take(0).filter(p).map_values(f));
    }
    for i in 0..names.len()
        invariant
            all == views(names@),
            p == is_markdown(),
            f == (|name: Seq<char>| "knowledge"@ + "/"@ + name),
            views(paths@) == all.take(i as int).filter(p).map_values(f),
            keys@.len() == paths@.len(),
            forall|j: int| 0 <= j < keys@.len() ==> (#[trigger] keys@[j])@ == (0int, paths@[j]@),
    {
        proof {
            lemma_filter_take(all, p, i as int);
            assert(all[i as int] == names@[i as int]@);
        }
        if extension_is(names[i].as_str(), "md") {
            let mut path = KNOWLEDGE_DIR.to_string();
            path.append("/");
            path.append(names[i].as_str());
            let ghost chosen = all.take(i as int).filter(p);
            proof {
                lemma_views_push(paths@, path);
                assert(chosen.push(all[i as int]).map_values(f) =~= chosen.map_values(f).push(
                    path@,
                ));
            }
            keys.push(SortKey { number: 0, text: path.clone() });
            paths.push(path);
        }
    }
    proof {
        lemma_filter_take(all, p, all.len() as int);
    }
    let ghost found = views(paths@);
    assert(found == knowledge_paths(all));
    assert(views(keys@) =~= found.map_values(|path: Seq<char>| (0int, path)));
    sort_by_keys(&paths, &keys)
}

// -------------------------------------------------------------------- context

/// Something to read before starting a task.
#[derive(Debug)]
pub enum ContextEntry {
    /// An object of git.
    Git(String),
    /// A file.
    File(String),
}

/// The model of a [`ContextEntry`].
#[verifier::ext_equal]
pub enum ContextEntryView {
    /// An object of git.
    Git(Seq<char>),
    /// A file.
    File(Seq<char>),
}

impl View for ContextEntry {
    type V = ContextEntryView;

    open spec fn view(&self) -> ContextEntryView {
        match *self {
            ContextEntry::Git(s) => ContextEntryView::Git(s@),
            ContextEntry::File(s) => ContextEntryView::File(s@),
        }
    }
}

/// What an entry of a context manifest names.
pub open spec fn entry_of(text: Seq<char>) -> ContextEntryView {
    if "git:"@.is_prefix_of(text) {
        ContextEntryView::Git(text.skip("git:"@.len() as int))
    } else {
        ContextEntryView::File(text)
    }
}

/// What to read before starting a task.
#[derive(Debug)]
pub struct Manifest {
    /// The task.
    pub id: String,
    /// Its goal.
    pub goal: String,
    /// Its contracts.
    pub contract: Vec<String>,
    /// Its acceptance tests.
    pub accept: Vec<String>,
    /// Its context.
    pub context: Vec<ContextEntry>,
    /// The knowledge files.
    pub knowledge: Vec<String>,
}

/// The entries of a context manifest.
fn read_entries(v: &Vec<String>) -> (r: Vec<ContextEntry>)
    ensures
        views(r@) == views(v@).map_values(|text: Seq<char>| entry_of(text)),
{
    let mut r: Vec<ContextEntry> = Vec::new();
    for i in 0..v.len()
        invariant
            r@.len() == i,
            forall|j: int| 0 <= j < i ==> (#[trigger] r@[j])@ == entry_of(v@[j]@),
    {
        let text = v[i].as_str();
        if starts_with(text, "git:") {
            proof {
                reveal_strlit("git:");
            }
            let chars = chars_of(text);
            let rest = text_of(&chars, 4, chars.len());
            assert(rest@ =~= text@.skip(4));
            r.push(ContextEntry::Git(rest));
        } else {
            r.push(ContextEntry::File(text.to_string()));
        }
    }
    assert(views(r@) =~= views(v@).map_values(|text: Seq<char>| entry_of(text)));
    r
}

/// What to read before starting a task of the graph, with the index of the
/// knowledge files.
pub fn context(tasks: &Table<Task>, id: &str, knowledge: &Vec<String>) -> (r: Result<Manifest>)
    ensures
        match (lookup(tasks@, id@), r) {
            (Some(t), Ok(m)) => {
                &&& m.id@ == t.id
                &&& m.goal@ == t.goal
                &&& views(m.contract@) == t.contract
                &&& views(m.accept@) == t.accept
                &&& views(m.context@) == t.context.map_values(|text: Seq<char>| entry_of(text))
                &&& views(m.knowledge@) == views(knowledge@)
            },
            (None, Err(e)) => e@ == ErrorView::TaskNotFound(id@),
            _ => false,
        },
{
    match tasks.get(id) {
        Some(t) => Ok(
            Manifest {
                id: t.id.clone(),
                goal: t.goal.clone(),
                contract: copy_texts(&t.contract),
                accept: copy_texts(&t.accept),
                context: read_entries(&t.context),
                knowledge: copy_texts(knowledge),
            },
        ),
        None => Err(Error::TaskNotFound(id.to_string())),
    }
}

// ----------------------------------------------------------------------- laws

/// A task can be created exactly when each of its dependencies is a task of the
/// worktree or of the canonical graph.
pub proof fn law_deps_are_tasks(deps: Seq<Seq<char>>, worktree: Tasks, canonical: Tasks)
    ensures
        deps_checked(deps, worktree, canonical) is Ok <==> forall|dep: Seq<char>| #[trigger]
            deps.contains(dep) ==> lookup(worktree, dep) is Some || lookup(
                canonical,
                dep,
            ) is Some,
        deps_checked(deps, worktree, canonical) matches Err(e) ==> exists|dep: Seq<char>| #[trigger]
            deps.contains(dep) && lookup(worktree, dep) is None && lookup(canonical, dep) is None
                && e == ErrorView::TaskNotFound(dep),
{
    let p = in_neither(worktree, canonical);
    let lost = deps.filter(p);
    if lost.len() > 0 {
        assert(lost.contains(lost[0]));
        lemma_filter_contains(deps, p, lost[0]);
    } else {
        assert forall|dep: Seq<char>| #[trigger] deps.contains(dep) implies lookup(
            worktree,
            dep,
        ) is Some || lookup(canonical, dep) is Some by {
            lemma_filter_contains(deps, p, dep);
        }
    }
}

/// What is fixed for the life of a task.
pub open spec fn same_spec(a: TaskView, b: TaskView) -> bool {
    &&& a.id == b.id
    &&& a.goal == b.goal
    &&& a.value_bits == b.value_bits
    &&& a.deps == b.deps
    &&& a.contract == b.contract
    &&& a.tier_initial == b.tier_initial
    &&& a.created == b.created
}

/// What a task is stays fixed for its life: a probe writes its acceptance tests
/// and its context, finishing it or giving it up writes its state, and nothing
/// writes the rest.
pub proof fn law_spec_is_fixed(
    task: TaskView,
    accept: Seq<Seq<char>>,
    context: Seq<Seq<char>>,
)
    ensures
        same_spec(after_probe(task, accept, context), task),
        after_probe(task, accept, context).state == task.state,
        same_spec(flipped(task), task),
        flipped(task).accept == task.accept && flipped(task).context == task.context,
        same_spec(given_up(task), task),
        given_up(task).accept == task.accept && given_up(task).context == task.context,
        flipped(task).state == TaskState::Done,
        given_up(task).state == TaskState::Dead,
        after_probe(task, accept, context).accept == accept,
        context.len() > 0 ==> after_probe(task, accept, context).context == context,
        context.len() == 0 ==> after_probe(task, accept, context).context == task.context,
{
}

/// A probe can be done over: the acceptance tests are those of the last probe,
/// and the context is that of the last probe that names one.
pub proof fn law_probe_is_a_do_over(
    task: TaskView,
    first: Seq<Seq<char>>,
    first_context: Seq<Seq<char>>,
    last: Seq<Seq<char>>,
    last_context: Seq<Seq<char>>,
)
    ensures
        after_probe(after_probe(task, first, first_context), last, last_context) == after_probe(
            task,
            last,
            if last_context.len() > 0 {
                last_context
            } else {
                first_context
            },
        ),
{
}

/// Who an agent is: a configured name counts unless it holds nothing but white
/// space, and git's address counts unless git has none or an empty one.
pub proof fn law_identity(name: Seq<char>, email: Seq<char>, e: ErrorView)
    ensures
        names_agent(Some(name)) <==> exists|i: int|
            0 <= i < name.len() && !white_space(#[trigger] name[i]),
        !names_agent(None),
        email.len() > 0 ==> known_to_git(Ok(email)) == Some(email),
        email.len() == 0 ==> known_to_git(Ok(email)) is None,
        known_to_git(Err(e)) is None,
{
}

/// A new task is open and holds what it was specified by, under the id and the
/// time that it was given.
pub proof fn law_new_task(spec_of: TaskSpec, id: Seq<char>, now: (i64, u32))
    ensures
        ({
            let t = new_task(spec_of, id, now);
            &&& t.id == id
            &&& t.created == now
            &&& t.state == TaskState::Open
            &&& t.goal == spec_of.goal@
            &&& t.value_bits == spec_of.value_bits
            &&& t.tier_initial == spec_of.tier
            &&& t.deps == views(spec_of.deps@)
            &&& t.contract == views(spec_of.contract@)
            &&& t.accept == views(spec_of.accept@)
            &&& t.context == views(spec_of.context@)
        }),
{
}

/// The text of a derived state begins with its name, and names the agent of a
/// lease, or the tasks that are waited for, in quotes and in brackets.
pub proof fn law_state_text(agent: Seq<char>, deps: Seq<Seq<char>>)
    ensures
        state_text(DerivedView::Done) == "Done"@,
        state_text(DerivedView::Dead) == "Dead"@,
        state_text(DerivedView::Parked) == "Parked"@,
        state_text(DerivedView::Open) == "Open"@,
        state_text(DerivedView::Leased(agent)) == "Leased("@ + quoted(agent) + ")"@,
        state_text(DerivedView::Blocked(deps)) == "Blocked("@ + quoted_list(deps) + ")"@,
{
}

/// The line of a task tells of the task itself: its id, goal, value and
/// dependencies, as many attempts as are on record for it, and its derived state
/// in lower case.
pub proof fn law_row(
    task: TaskView,
    all: Tasks,
    leases: Leases,
    attempts: Attempts,
    records: Seq<AttemptRecordView>,
    tiers: nat,
)
    requires
        lookup(attempts, task.id) == Some(records) || (lookup(attempts, task.id) is None
            && records.len() == 0),
        records.len() <= usize::MAX,
        tiers <= usize::MAX,
    ensures
        ({
            let row = row_for(task, all, leases, attempts, tiers);
            &&& row.id == task.id
            &&& row.goal == task.goal
            &&& row.value_bits == task.value_bits
            &&& row.deps == task.deps
            &&& row.attempts == records.len()
            &&& task.tier_initial + records.len() < tiers ==> row.tier == task.tier_initial
                + records.len()
            &&& task.tier_initial + records.len() >= tiers && tiers > 0 ==> row.tier == tiers - 1
            &&& row.state == lowercased(state_text(derived(task, all, leases, attempts)))
        }),
{
}

/// What the doctor refuses: a missing knowledge directory in any case, and a
/// dependency that no task has, which it names with the task that has it.
pub proof fn law_doctor_refuses(all: Tasks, knowledge: bool)
    ensures
        !knowledge ==> diagnosis(all, knowledge) is Err,
        diagnosis(all, knowledge) is Ok <==> knowledge && forall|i: int, dep: Seq<char>|
            0 <= i < all.len() && (#[trigger] all[i]).1.deps.contains(dep) ==> (#[trigger] lookup(
                all,
                dep,
            )) is Some,
        forall|i: int, dep: Seq<char>|
            0 <= i < all.len() && (#[trigger] all[i]).1.deps.contains(dep) && (#[trigger] lookup(
                all,
                dep,
            )) is None ==> dangling(all, all.len() as int).contains(all[i].1.id + "→"@ + dep),
        dangling(all, all.len() as int).len() > 0 ==> diagnosis(all, knowledge) == Err::<
            (),
            ErrorView,
        >(
            ErrorView::Other(
                "dangling deps: "@ + joined(dangling(all, all.len() as int), ", "@),
            ),
        ),
{
    law_doctor_accepts(all);
    lemma_dangling(all, all.len() as int);
    assert forall|i: int, dep: Seq<char>|
        0 <= i < all.len() && (#[trigger] all[i]).1.deps.contains(dep) && (#[trigger] lookup(
            all,
            dep,
        )) is None implies dangling(all, all.len() as int).contains(
        all[i].1.id + "→"@ + dep,
    ) by {
        lemma_dangling_named(all, all.len() as int, i, dep);
    }
}

proof fn lemma_dangling_named(all: Tasks, n: int, i: int, dep: Seq<char>)
    requires
        0 <= i < n <= all.len(),
        all[i].1.deps.contains(dep),
        lookup(all, dep) is None,
    ensures
        dangling(all, n).contains(all[i].1.id + "→"@ + dep),
    decreases n,
{
    let name = all[i].1.id + "→"@ + dep;
    let init = dangling(all, n - 1);
    let task = all[n - 1].1;
    let last = dangling_of(task, all);
    if i < n - 1 {
        lemma_dangling_named(all, n - 1, i, dep);
        let k = choose|k: int| 0 <= k < init.len() && init[k] == name;
        assert(dangling(all, n)[k] == name);
    } else {
        let bad = task.deps.filter(unknown(all));
        lemma_filter_contains(task.deps, unknown(all), dep);
        let k = choose|k: int| 0 <= k < bad.len() && bad[k] == dep;
        assert(last[k] == name);
        assert(dangling(all, n)[init.len() + k] == name);
    }
}

/// Whether a lease is granted, read off the fields: the task must be stored as
/// open, all its dependencies known and done, and without a lease; and no question
/// may be open that has no answer and no default and names the task anywhere among
/// those that it blocks.
pub proof fn law_lease_is_granted(
    id: Seq<char>,
    task: TaskView,
    all: Tasks,
    leases: Leases,
    attempts: Attempts,
    list: Seq<EscalationView>,
)
    ensures
        lease_refusal(id, derived(task, all, leases, attempts), Ok(list)) is None <==> {
            &&& task.state == TaskState::Open
            &&& lookup(leases, task.id) is None
            &&& forall|d: Seq<char>| #[trigger]
                task.deps.contains(d) ==> (lookup(all, d) is Some && lookup(all, d)->Some_0.state
                    == TaskState::Done)
            &&& forall|i: int|
                0 <= i < list.len() ==> !((#[trigger] list[i]).answer is None && list[i].default
                    is None && list[i].blocking.contains(id))
        },
{
    let d = derived(task, all, leases, attempts);
    law_schedulable(task, all, leases, attempts);
    law_oracle_blocks(id, d, list);
}

/// For a task that is free, the human oracle decides: the lease is refused exactly
/// when some question in the list has neither an answer nor a default and blocks
/// the task, at whatever place, and the refusal names the first such question.
pub proof fn law_oracle_blocks(id: Seq<char>, d: DerivedView, list: Seq<EscalationView>)
    ensures
        d is Open || d is Parked ==> (lease_refusal(id, d, Ok(list)) is Some <==> exists|i: int|
            0 <= i < list.len() && (#[trigger] list[i]).answer is None && list[i].default is None
                && list[i].blocking.contains(id)),
        forall|i: int|
            (d is Open || d is Parked) && 0 <= i < list.len() && (#[trigger] list[i]).answer is None
                && list[i].default is None && list[i].blocking.contains(id) && (forall|j: int|
                0 <= j < i ==> !((#[trigger] list[j]).answer is None && list[j].default is None
                    && list[j].blocking.contains(id))) ==> lease_refusal(id, d, Ok(list)) == Some(
                ErrorView::OracleBlocked { task: id, escalation: list[i].id },
            ),
{
    let p = hard_block(id);
    let found = list.filter(p);
    if found.len() > 0 {
        assert(found.contains(found[0]));
        lemma_filter_contains(list, p, found[0]);
        let i = choose|i: int| 0 <= i < list.len() && list[i] == found[0];
        assert(list[i].answer is None && list[i].default is None && list[i].blocking.contains(id));
    }
    assert forall|i: int|
        0 <= i < list.len() && (#[trigger] list[i]).answer is None && list[i].default is None
            && list[i].blocking.contains(id) implies found.len() > 0 by {
        assert(list.contains(list[i]));
        lemma_filter_contains(list, p, list[i]);
        assert(p(list[i]));
    }
    assert forall|i: int|
        0 <= i < list.len() && (#[trigger] list[i]).answer is None && list[i].default is None
            && list[i].blocking.contains(id) && (forall|j: int|
            0 <= j < i ==> !((#[trigger] list[j]).answer is None && list[j].default is None
                && list[j].blocking.contains(id))) implies found[0] == list[i] by {
        let head = list.take(i);
        if head.filter(p).len() > 0 {
            let e = head.filter(p)[0];
            assert(head.filter(p).contains(e));
            lemma_filter_contains(head, p, e);
            let j = choose|j: int| 0 <= j < head.len() && head[j] == e;
            assert(list[j] == e && p(e));
        }
        lemma_filter_first(list, p, i);
    }
}

/// Why a lease is refused on a task that is not free: it names the holder of the
/// lease, or the dependencies that are waited for, or says that the task is not
/// open; escalations that cannot be read are passed on.
pub proof fn law_lease_says_why(
    id: Seq<char>,
    holder: Seq<char>,
    deps: Seq<Seq<char>>,
    loaded: std::result::Result<Seq<EscalationView>, ErrorView>,
)
    ensures
        lease_refusal(id, DerivedView::Leased(holder), loaded) == Some(
            ErrorView::LeaseRaceLost { task: id, holder },
        ),
        lease_refusal(id, DerivedView::Blocked(deps), loaded) == Some(
            ErrorView::Other(
                "task '"@ + id + "' is blocked by open deps: "@ + joined(deps, ", "@),
            ),
        ),
        lease_refusal(id, DerivedView::Done, loaded) == Some(
            ErrorView::Other("task '"@ + id + "' is not open"@),
        ),
        lease_refusal(id, DerivedView::Dead, loaded) == Some(
            ErrorView::Other("task '"@ + id + "' is not open"@),
        ),
        loaded is Err ==> lease_refusal(id, DerivedView::Open, loaded) == Some(loaded->Err_0)
            && lease_refusal(id, DerivedView::Parked, loaded) == Some(loaded->Err_0),
{
}

/// A grant is for the tier that the attempts on record lead to, with the minutes
/// of that tier, and says whether there are tests and lessons to go by.
pub proof fn law_grant(
    task: TaskView,
    attempts: Attempts,
    records: Seq<AttemptRecordView>,
    tiers: Seq<u64>,
)
    requires
        lookup(attempts, task.id) == Some(records) || (lookup(attempts, task.id) is None
            && records.len() == 0),
        tiers.len() <= usize::MAX,
    ensures
        ({
            let g = granted(task, attempts, task.id, tiers);
            let sum = task.tier_initial + records.len();
            &&& sum < tiers.len() ==> g.tier == sum && g.minutes == tiers[sum]
            &&& sum >= tiers.len() && tiers.len() > 0 ==> g.tier == tiers.len() - 1 && g.minutes
                == tiers.last()
            &&& tiers.len() == 0 ==> g.tier == 0 && g.minutes == 0
            &&& g.needs_probe <==> task.accept.len() == 0
            &&& g.resumes <==> records.len() > 0
        }),
{
}

/// The budget clock of a lease starts when the lease was acquired, at any tier and
/// whatever its heartbeats: the heartbeat goes on exactly while the agent holds the
/// lease and fewer minutes than those of the tier have passed since then. Only a
/// lease that does not say when it was acquired is timed by its heartbeat.
pub proof fn law_budget_clock(
    leases: Seq<(Seq<char>, HeldLeaseView)>,
    id: Seq<char>,
    agent: Seq<char>,
    now: (i64, u32),
    tiers: Seq<u64>,
    held: HeldLeaseView,
    start: (i64, u32),
)
    requires
        lookup(leases, id) == Some(held),
        held.payload.acquired == Some(start) || (held.payload.acquired is None
            && held.payload.heartbeat == start),
    ensures
        clock_start(held.payload) == start,
        beats_on(leases, id, agent, now, tiers) <==> {
            &&& held.payload.agent == agent
            &&& held.payload.tier < tiers.len() ==> minutes_between(now, start)
                < tiers[held.payload.tier as int] as i64
            &&& held.payload.tier >= tiers.len() ==> minutes_between(now, start) < 0
        },
{
}

/// Renewing a lease never moves its budget clock: it says when it was acquired as
/// before, keeps its tier, its holder and the commit that it replaces, and only
/// its sign of life is new.
pub proof fn law_renewal_keeps_the_clock(
    leases: Seq<(Seq<char>, HeldLeaseView)>,
    task: Seq<char>,
    agent: Seq<char>,
    now: (i64, u32),
)
    requires
        held_by(leases, task, agent, false) is Ok,
    ensures
        ({
            let old_lease = lookup(leases, task)->Some_0;
            let new_lease = renewed(held_by(leases, task, agent, false)->Ok_0, task, agent, now);
            &&& new_lease.payload.acquired == old_lease.payload.acquired
            &&& new_lease.payload.tier == old_lease.payload.tier
            &&& new_lease.payload.agent == old_lease.payload.agent
            &&& new_lease.payload.task == task
            &&& new_lease.payload.heartbeat == now
            &&& new_lease.sha == old_lease.sha
            &&& old_lease.payload.acquired is Some ==> clock_start(new_lease.payload)
                == old_lease.payload.acquired->Some_0
        }),
{
}

/// A task that was given up is on record with the reason, by whom and when, and
/// without a commit.
pub proof fn law_dead_is_on_record(
    id: Seq<char>,
    tier_initial: usize,
    why: Seq<char>,
    agent: Seq<char>,
    now: (i64, u32),
)
    ensures
        ({
            let a = told_dead(id, tier_initial, why, agent, now);
            &&& a.task == id
            &&& a.tier == tier_initial
            &&& a.lesson == why
            &&& a.outcome == "dead"@
            &&& a.agent == agent
            &&& a.at == now
            &&& a.sha.len() == 0
        }),
{
}

/// A reclaimed lease is on record under its task and tier, with the silent holder
/// and its last sign of life, by whom and when.
pub proof fn law_sweep_is_on_record(one: ReclaimView, agent: Seq<char>, now: (i64, u32))
    ensures
        ({
            let a = told_swept(one, agent, now);
            let (secs, nanos) = one.payload.heartbeat;
            &&& a.task == one.task
            &&& a.tier == one.payload.tier
            &&& a.outcome == "lease-swept"@
            &&& a.lesson == "lease held by "@ + one.payload.agent
                + " went silent (last heartbeat "@ + displayed_instant(secs, nanos) + ")"@
            &&& a.agent == agent
            &&& a.at == now
            &&& a.sha.len() == 0
        }),
{
}

/// A failed attempt is on record under its task, by whom and when, with what was
/// said of it, at the tier of the attempts before it; and it leads to the next
/// tier, unless the initial tier, the attempts before it and itself use the ladder
/// up.
pub proof fn law_attempt_is_on_record(
    task: TaskView,
    attempts: Attempts,
    records: Seq<AttemptRecordView>,
    failure: Failure,
    agent: Seq<char>,
    now: (i64, u32),
    tiers: nat,
)
    requires
        lookup(attempts, task.id) == Some(records) || (lookup(attempts, task.id) is None
            && records.len() == 0),
        tiers <= usize::MAX,
    ensures
        ({
            let a = failed_attempt(task, attempts, task.id, failure, agent, now, tiers);
            let sum = task.tier_initial + records.len();
            let next = tier_beyond(task, attempts, task.id, a.tier, tiers);
            &&& a.task == task.id
            &&& a.sha == failure.sha@
            &&& a.outcome == failure.outcome@
            &&& a.lesson == failure.lesson@
            &&& a.agent == agent
            &&& a.at == now
            &&& sum < tiers ==> a.tier == sum
            &&& sum >= tiers && tiers > 0 ==> a.tier == tiers - 1
            &&& sum + 1 >= tiers ==> next is None
            &&& sum + 1 < tiers ==> next == Some((sum + 1) as usize)
        }),
{
}

/// The task of an attempt is the canonical one, and that of the worktree only
/// where the graph does not have it.
pub proof fn law_canonical_task_first(all: Tasks, worktree: Option<TaskView>, id: Seq<char>)
    ensures
        lookup(all, id) is Some ==> attempted_task(all, worktree, id) == lookup(all, id),
        lookup(all, id) is None ==> attempted_task(all, worktree, id) == worktree,
{
}

/// A published verdict names the agent that gave it, the task and the commit, for
/// approvals and rejections alike, and says that it is the agent's own exactly when
/// the agent holds the lease. A rejection comes with its reasons and is an attempt
/// at that commit by that agent; without reasons there is none.
pub proof fn law_verdict_names_its_judge(
    leases: Seq<(Seq<char>, HeldLeaseView)>,
    id: Seq<char>,
    approve: bool,
    head: Seq<char>,
    lesson: Option<Seq<char>>,
    agent: Seq<char>,
    now: (i64, u32),
)
    ensures
        verification(leases, id, approve, head, lesson, agent, now) is Ok <==> approve || lesson
            is Some,
        verification(leases, id, approve, head, lesson, agent, now) matches Ok(plan) ==> {
            &&& plan.verdict.agent == agent
            &&& plan.verdict.task == id
            &&& plan.verdict.sha == head
            &&& plan.verdict.at == now
            &&& approve ==> plan.verdict.verdict == "approve"@ && plan.attempt is None
            &&& !approve ==> plan.verdict.verdict == "reject"@ && plan.attempt is Some
            &&& plan.verdict.self_verdict <==> lookup(leases, id) is Some && lookup(
                leases,
                id,
            )->Some_0.payload.agent == agent
            &&& plan.attempt matches Some(a) ==> {
                &&& a.task == id
                &&& a.sha == head
                &&& a.agent == agent
                &&& a.at == now
                &&& a.outcome == "review-reject"@
                &&& a.tier == 0
                &&& Some(a.lesson) == lesson
            }
        },
{
}

/// No agent passes its own work in the independent mode: the approval that it
/// publishes is refused for itself, by its name, and accepted for any other
/// implementer of the same commit. A rejection passes nobody.
pub proof fn law_own_approval_is_refused(
    leases: Seq<(Seq<char>, HeldLeaseView)>,
    id: Seq<char>,
    head: Seq<char>,
    lesson: Seq<char>,
    agent: Seq<char>,
    other: Seq<char>,
    now: (i64, u32),
)
    requires
        other != agent,
    ensures
        ({
            let approval = verification(leases, id, true, head, None, agent, now)->Ok_0.verdict;
            let rejection = verification(
                leases,
                id,
                false,
                head,
                Some(lesson),
                agent,
                now,
            )->Ok_0.verdict;
            &&& gate(id, head, agent, Some(approval), "independent"@) == Err::<(), ErrorView>(
                ErrorView::VerdictNotIndependent { task: id, agent },
            )
            &&& gate(id, head, other, Some(approval), "independent"@) is Ok
            &&& gate(id, head, agent, Some(approval), "any"@) is Ok
            &&& gate(id, head, agent, Some(rejection), "any"@) is Err
            &&& gate(id, head, other, Some(rejection), "independent"@) is Err
        }),
{
    reveal_strlit("off");
    reveal_strlit("any");
    reveal_strlit("independent");
    reveal_strlit("approve");
    reveal_strlit("reject");
    assert("off"@.len() != "independent"@.len());
    assert("off"@[0] != "any"@[0]);
    assert("approve"@.len() != "reject"@.len());
}

/// A question can be filed exactly when there is a choice, the recommendation and
/// any default are among the options, any deadline can be read, and a default has
/// a deadline.
pub proof fn law_question_is_sound(
    q: QuestionView,
    deadline: Option<std::result::Result<(i64, u32), Seq<char>>>,
)
    ensures
        question_fault(q, deadline) is None <==> {
            &&& q.options.len() >= 2
            &&& q.options.contains(q.recommend)
            &&& q.default is Some ==> q.options.contains(q.default->Some_0)
            &&& deadline is Some ==> deadline->Some_0 is Ok
            &&& q.default is Some ==> deadline is Some
        },
{
}

/// What is wrong with a question is told in the order of the checks: the choice,
/// the recommendation, the default, the deadline, and the default without one.
pub proof fn law_question_says_why(
    q: QuestionView,
    deadline: Option<std::result::Result<(i64, u32), Seq<char>>>,
)
    ensures
        q.options.len() < 2 ==> question_fault(q, deadline) == Some(
            "an escalation needs at least two options"@,
        ),
        q.options.len() >= 2 && !q.options.contains(q.recommend) ==> question_fault(q, deadline)
            == Some("--recommend must be one of the --option values"@),
        q.options.len() >= 2 && q.options.contains(q.recommend) && q.default is Some
            && !q.options.contains(q.default->Some_0) ==> question_fault(q, deadline) == Some(
            "--default must be one of the --option values"@,
        ),
        q.options.len() >= 2 && q.options.contains(q.recommend) && (q.default is None
            || q.options.contains(q.default->Some_0)) && deadline is Some && deadline->Some_0 is Err
            ==> question_fault(q, deadline) == Some(
            "bad --deadline '"@ + q.deadline->Some_0 + "': "@ + deadline->Some_0->Err_0,
        ),
        q.options.len() >= 2 && q.options.contains(q.recommend) && q.default is Some
            && q.options.contains(q.default->Some_0) && deadline is None ==> question_fault(
            q,
            deadline,
        ) == Some("--default requires --deadline"@),
{
}

/// A filed question holds what was asked, unanswered, with the deadline that was
/// read, under the id and the time that it was given.
pub proof fn law_filed(
    q: QuestionView,
    deadline: Option<(i64, u32)>,
    id: Seq<char>,
    now: (i64, u32),
)
    ensures
        ({
            let e = filed(q, deadline, id, now);
            &&& e.id == id
            &&& e.created == now
            &&& e.question == q.question
            &&& e.options == q.options
            &&& e.recommend == q.recommend
            &&& e.evidence == q.evidence
            &&& e.blocking == q.blocking
            &&& e.default == q.default
            &&& e.deadline == deadline
            &&& e.answer is None
            &&& e.answered_by is None
        }),
        read_instant(None) is None,
        forall|t: (i64, u32)| read_instant(Some(Ok(t))) == Some(t),
        forall|text: Seq<char>| #[trigger] read_deadline(Some(text)) == Some(parsed_instant(text)),
        read_deadline(None) is None,
{
}

/// When a default becomes the answer, read off the fields: the question has no
/// answer, it has a default, and its deadline is not after now. The answer is then
/// the default, by the deadline, and nothing else changes.
pub proof fn law_default_becomes_the_answer(e: EscalationView, now: (i64, u32))
    ensures
        default_due(e, now) <==> {
            &&& e.answer is None
            &&& e.default is Some
            &&& e.deadline is Some
            &&& e.deadline->Some_0.0 < now.0 || (e.deadline->Some_0.0 == now.0
                && e.deadline->Some_0.1 <= now.1)
        },
        !default_due(e, now) ==> defaulted(e, now) == e,
        default_due(e, now) ==> {
            let a = defaulted(e, now);
            &&& a.answer == e.default
            &&& a.answered_by == Some("deadline-default"@)
            &&& a.id == e.id
            &&& a.question == e.question
            &&& a.options == e.options
            &&& a.recommend == e.recommend
            &&& a.evidence == e.evidence
            &&& a.blocking == e.blocking
            &&& a.deadline == e.deadline
            &&& a.default == e.default
            &&& a.created == e.created
        },
{
}

/// Questions are listed as they were filed: none before an earlier one, and none
/// is lost or invented.
pub proof fn law_listed_as_filed(before: Seq<EscalationView>, after: Seq<EscalationView>)
    requires
        stably_sorted(before, before.map_values(|e: EscalationView| filing_key(e)), after),
        forall|i: int|
            0 <= i < before.len() ==> valid_instant(
                (#[trigger] before[i]).created.0 as int,
                before[i].created.1 as int,
            ),
    ensures
        after.len() == before.len(),
        forall|e: EscalationView| after.contains(e) <==> before.contains(e),
        forall|i: int, j: int|
            0 <= i < j < after.len() ==> {
                let (a, b) = ((#[trigger] after[i]).created, (#[trigger] after[j]).created);
                a.0 < b.0 || (a.0 == b.0 && a.1 <= b.1)
            },
{
    let key = |e: EscalationView| filing_key(e);
    law_stably_sorted(before, key, after);
    assert forall|i: int, j: int| 0 <= i < j < after.len() implies {
        let (a, b) = ((#[trigger] after[i]).created, (#[trigger] after[j]).created);
        a.0 < b.0 || (a.0 == b.0 && a.1 <= b.1)
    } by {
        assert(!key_lt(key(after[j]), key(after[i])));
        assert(after.contains(after[i]) && after.contains(after[j]));
        let x = choose|x: int| 0 <= x < before.len() && before[x] == after[i];
        let y = choose|y: int| 0 <= y < before.len() && before[y] == after[j];
        assert(valid_instant(before[x].created.0 as int, before[x].created.1 as int));
        assert(valid_instant(before[y].created.0 as int, before[y].created.1 as int));
        law_instant_key_orders(after[j].created, after[i].created);
    }
}

/// The knowledge files are the files of the directory whose names end in `.md`
/// with something before it, under the directory's name, in ascending order.
pub proof fn law_knowledge_files(names: Seq<Seq<char>>, found: Seq<Seq<char>>, path: Seq<char>)
    requires
        stably_sorted(
            knowledge_paths(names),
            knowledge_paths(names).map_values(|path: Seq<char>| (0int, path)),
            found,
        ),
    ensures
        found.contains(path) <==> exists|i: int|
            0 <= i < names.len() && path == "knowledge/"@ + (#[trigger] names[i])
                && names[i].len() > 3 && names[i].skip(names[i].len() - 3) == ".md"@,
        forall|i: int, j: int|
            0 <= i < j < found.len() ==> !lex_lt(#[trigger] found[j], #[trigger] found[i]),
{
    let key = |path: Seq<char>| (0int, path);
    let paths = knowledge_paths(names);
    let p = is_markdown();
    let f = |name: Seq<char>| "knowledge"@ + "/"@ + name;
    let chosen = names.filter(p);
    law_stably_sorted(paths, key, found);
    assert forall|i: int, j: int| 0 <= i < j < found.len() implies !lex_lt(
        #[trigger] found[j],
        #[trigger] found[i],
    ) by {
        assert(!key_lt(key(found[j]), key(found[i])));
    }
    reveal_strlit("md");
    reveal_strlit(".md");
    reveal_strlit("knowledge");
    reveal_strlit("/");
    reveal_strlit("knowledge/");
    assert("knowledge"@ + "/"@ =~= "knowledge/"@);
    assert(seq!['.'] + "md"@ =~= ".md"@);
    assert forall|name: Seq<char>| #[trigger] p(name) <==> name.len() > 3 && name.skip(
        name.len() - 3,
    ) == ".md"@ by {
        if name.len() >= 3 {
            assert(name.skip(name.len() - 3) =~= name.subrange(name.len() - 3, name.len() as int));
        }
    }
    assert(found.contains(path) <==> paths.contains(path));
    if paths.contains(path) {
        let k = choose|k: int| 0 <= k < paths.len() && paths[k] == path;
        assert(chosen.contains(chosen[k]));
        lemma_filter_contains(names, p, chosen[k]);
        let i = choose|i: int| 0 <= i < names.len() && names[i] == chosen[k];
        assert(p(names[i]));
        assert(path == "knowledge/"@ + names[i]);
    }
    if exists|i: int|
        0 <= i < names.len() && path == "knowledge/"@ + (#[trigger] names[i]) && names[i].len() > 3
            && names[i].skip(names[i].len() - 3) == ".md"@ {
        let i = choose|i: int|
            0 <= i < names.len() && path == "knowledge/"@ + (#[trigger] names[i])
                && names[i].len() > 3 && names[i].skip(names[i].len() - 3) == ".md"@;
        assert(names.contains(names[i]));
        assert(p(names[i]));
        lemma_filter_contains(names, p, names[i]);
        let k = choose|k: int| 0 <= k < chosen.len() && chosen[k] == names[i];
        assert(paths[k] == path);
    }
}

/// An entry of a context manifest that begins with `git:` names the object behind
/// that, and any other names itself as a file.
pub proof fn law_context_entry(text: Seq<char>)
    ensures
        entry_of("git:"@ + text) == ContextEntryView::Git(text),
        entry_of(text) is File ==> entry_of(text)->File_0 == text,
        entry_of(text) is Git ==> text == "git:"@ + entry_of(text)->Git_0,
        entry_of(text) is Git <==> "git:"@.is_prefix_of(text),
{
    let p = "git:"@;
    assert((p + text).take(p.len() as int) =~= p);
    assert((p + text).skip(p.len() as int) =~= text);
    if p.is_prefix_of(text) {
        assert(text =~= p + text.skip(p.len() as int));
    }
}

/// A list of numbers is written in brackets, separated by a comma and a blank.
pub proof fn law_number_list(s: Seq<u64>)
    ensures
        number_list(s) == "["@ + joined(
            Seq::new(s.len(), |i: int| decimal(s[i] as nat)),
            ", "@,
        ) + "]"@,
        graph_name(true) == "canonical(origin/main)"@,
        graph_name(false) == "worktree(fallback)"@,
{
    assert(s.map_values(|n: u64| decimal(n as nat)) =~= Seq::new(
        s.len(),
        |i: int| decimal(s[i] as nat),
    ));
}

/// Only an open question whose deadline has passed takes its default; whoever
/// answered before keeps the answer, and applying defaults twice is applying
/// them once.
pub proof fn law_defaults(e: EscalationView, now: (i64, u32))
    ensures
        e.answer is Some ==> defaulted(e, now) == e,
        e.deadline is Some && earlier(now, e.deadline->Some_0) ==> defaulted(e, now) == e,
        e.deadline is None || e.default is None ==> defaulted(e, now) == e,
        defaulted(defaulted(e, now), now) == defaulted(e, now),
        default_due(e, now) ==> defaulted(e, now).answer == e.default,
{
}

/// The answer of a default is one of the options of the question.
pub proof fn law_default_is_an_option(
    q: QuestionView,
    deadline: Option<std::result::Result<(i64, u32), Seq<char>>>,
    id: Seq<char>,
    filed_at: (i64, u32),
    now: (i64, u32),
)
    requires
        question_fault(q, deadline) is None,
    ensures
        ({
            let e = defaulted(filed(q, read_instant(deadline), id, filed_at), now);
            e.answer is Some ==> e.options.contains(e.answer->Some_0)
        }),
{
}

/// A filed question without a default blocks its tasks until it is answered: no
/// passing of time changes that.
pub proof fn law_hard_block_lasts(e: EscalationView, id: Seq<char>, now: (i64, u32))
    requires
        hard_block(id)(e),
    ensures
        hard_block(id)(defaulted(e, now)),
{
}

/// The sweep reclaims exactly the leases that have been silent for the time to
/// live, and never the merge lock.
pub proof fn law_sweep(
    leases: Seq<(Seq<char>, HeldLeaseView)>,
    now: (i64, u32),
    ttl_minutes: i64,
    one: ReclaimView,
)
    ensures
        stale(leases, now, ttl_minutes).contains(one) <==> exists|i: int|
            0 <= i < leases.len() && (#[trigger] leases[i]).0 == one.task && leases[i].1.payload
                == one.payload && one.task != "merge-lock"@ && minutes_between(
                now,
                one.payload.heartbeat,
            ) >= ttl_minutes,
{
    let p = is_stale(now, ttl_minutes);
    let f = |e: (Seq<char>, HeldLeaseView)| ReclaimView { task: e.0, payload: e.1.payload };
    let chosen = leases.filter(p);
    let out = stale(leases, now, ttl_minutes);
    if out.contains(one) {
        let k = choose|k: int| 0 <= k < out.len() && out[k] == one;
        assert(f(chosen[k]) == one);
        assert(chosen.contains(chosen[k]));
        lemma_filter_contains(leases, p, chosen[k]);
        let i = choose|i: int| 0 <= i < leases.len() && leases[i] == chosen[k];
        assert(leases[i].0 == one.task);
    }
    if exists|i: int|
        0 <= i < leases.len() && (#[trigger] leases[i]).0 == one.task && leases[i].1.payload
            == one.payload && one.task != "merge-lock"@ && minutes_between(
            now,
            one.payload.heartbeat,
        ) >= ttl_minutes {
        let i = choose|i: int|
            0 <= i < leases.len() && (#[trigger] leases[i]).0 == one.task && leases[i].1.payload
                == one.payload && one.task != "merge-lock"@ && minutes_between(
                now,
                one.payload.heartbeat,
            ) >= ttl_minutes;
        assert(leases.contains(leases[i]));
        lemma_filter_contains(leases, p, leases[i]);
        let k = choose|k: int| 0 <= k < chosen.len() && chosen[k] == leases[i];
        assert(out[k] == one);
    }
}

/// The timebox is structural: once the budget of its tier is spent, a lease gets
/// no more heartbeats, and neither does one that another agent holds or nobody.
pub proof fn law_heartbeat_stops(
    leases: Seq<(Seq<char>, HeldLeaseView)>,
    id: Seq<char>,
    agent: Seq<char>,
    now: (i64, u32),
    tiers: Seq<u64>,
)
    ensures
        lookup(leases, id) is None ==> !beats_on(leases, id, agent, now, tiers),
        lookup(leases, id) is Some && lookup(leases, id)->Some_0.payload.agent != agent
            ==> !beats_on(leases, id, agent, now, tiers),
        lookup(leases, id) is Some && minutes_between(
            now,
            clock_start(lookup(leases, id)->Some_0.payload),
        ) >= budget_of(tiers, lookup(leases, id)->Some_0.payload.tier) ==> !beats_on(
            leases,
            id,
            agent,
            now,
            tiers,
        ),
{
}

/// A lease is only ever granted on a schedulable task.
pub proof fn law_grant_is_schedulable(
    id: Seq<char>,
    d: DerivedView,
    loaded: std::result::Result<Seq<EscalationView>, ErrorView>,
)
    ensures
        lease_refusal(id, d, loaded) is None ==> schedulable(d),
        lease_refusal(id, d, loaded) is None ==> loaded is Ok && forall|e: EscalationView| #[trigger]
            loaded->Ok_0.contains(e) ==> !hard_block(id)(e),
        d is Leased ==> exit_code_of(lease_refusal(id, d, loaded)->Some_0) == 3,
        schedulable(d) && loaded is Ok && lease_refusal(id, d, loaded) is Some ==> exit_code_of(
            lease_refusal(id, d, loaded)->Some_0,
        ) == 4,
{
    if lease_refusal(id, d, loaded) is None {
        let list = loaded->Ok_0;
        assert forall|e: EscalationView| #[trigger] list.contains(e) implies !hard_block(id)(e) by {
            lemma_filter_contains(list, hard_block(id), e);
        }
    }
}

/// Where the knowledge directory is there, the doctor accepts exactly the graphs
/// in which every dependency of every task is a task.
pub proof fn law_doctor_accepts(all: Tasks)
    ensures
        diagnosis(all, true) is Ok <==> forall|i: int, dep: Seq<char>|
            0 <= i < all.len() && (#[trigger] all[i]).1.deps.contains(dep) ==> (#[trigger] lookup(
                all,
                dep,
            )) is Some,
{
    lemma_dangling(all, all.len() as int);
}

proof fn lemma_dangling(all: Tasks, n: int)
    requires
        0 <= n <= all.len(),
    ensures
        dangling(all, n).len() == 0 <==> forall|i: int, dep: Seq<char>|
            0 <= i < n && (#[trigger] all[i]).1.deps.contains(dep) ==> (#[trigger] lookup(
                all,
                dep,
            )) is Some,
    decreases n,
{
    if n > 0 {
        lemma_dangling(all, n - 1);
        let task = all[n - 1].1;
        let bad = task.deps.filter(unknown(all));
        assert(dangling_of(task, all).len() == bad.len());
        if bad.len() > 0 {
            assert(bad.contains(bad[0]));
            lemma_filter_contains(task.deps, unknown(all), bad[0]);
            assert(all[n - 1].1.deps.contains(bad[0]) && lookup(all, bad[0]) is None);
        } else {
            assert forall|dep: Seq<char>| task.deps.contains(dep) implies (#[trigger] lookup(
                all,
                dep,
            )) is Some by {
                lemma_filter_contains(task.deps, unknown(all), dep);
            }
        }
    }
}

/// The graph is indexed by the ids of the tasks: every entry stands under the id
/// of its task, and an id leads to the last file that has it.
pub proof fn law_index_is_by_id(files: Seq<ParsedTaskView>, id: Seq<char>)
    requires
        indexed(files) is Ok,
    ensures
        ({
            let t = indexed(files)->Ok_0;
            let mine = files.filter(|f: ParsedTaskView| f.task->Ok_0.id == id);
            &&& ascending(keys_of(t))
            &&& forall|i: int| 0 <= i < t.len() ==> (#[trigger] t[i]).0 == t[i].1.id
            &&& lookup(t, id) == if mine.len() > 0 {
                Some(mine.last().task->Ok_0)
            } else {
                None
            }
        }),
    decreases files.len(),
{
    reveal(Seq::filter);
    let p = |f: ParsedTaskView| f.task->Ok_0.id == id;
    if files.len() > 0 {
        let init = files.drop_last();
        law_index_is_by_id(init, id);
        let t = indexed(init)->Ok_0;
        let task = files.last().task->Ok_0;
        law_put(t, task.id, task, id);
        law_put(t, task.id, task, task.id);
        let n = put(t, task.id, task);
        lemma_rank_bounds(keys_of(t), task.id);
        assert forall|i: int| 0 <= i < n.len() implies (#[trigger] n[i]).0 == n[i].1.id by {
            let r = rank(keys_of(t), task.id);
            if n.len() == t.len() {
                if i != r {
                    assert(n[i] == t[i]);
                }
            } else if i < r {
                assert(n[i] == t[i]);
            } else if i > r {
                assert(n[i] == t[i - 1]);
            }
        }
    } else {
        assert(files.filter(p) =~= Seq::<ParsedTaskView>::empty());
    }
}

/// A task is leased in a snapshot exactly when its lease was read, by the agent
/// that holds it.
pub proof fn law_payloads(held: Seq<(Seq<char>, HeldLeaseView)>, task: Seq<char>)
    ensures
        lookup(payloads(held), task) == match lookup(held, task) {
            Some(h) => Some(h.payload),
            None => None,
        },
    decreases held.len(),
{
    if held.len() > 0 {
        law_payloads(held.drop_first(), task);
        assert(payloads(held).drop_first() =~= payloads(held.drop_first()));
    }
}

/// Questions that were filed at the same instant stay in the order in which they
/// were read; all others stand in the order of time, and of nothing else.
pub proof fn law_listing_is_by_time_alone(
    before: Seq<EscalationView>,
    after: Seq<EscalationView>,
) -> (p: Seq<int>)
    requires
        stably_sorted(before, before.map_values(|e: EscalationView| filing_key(e)), after),
        forall|i: int|
            0 <= i < before.len() ==> valid_instant(
                (#[trigger] before[i]).created.0 as int,
                before[i].created.1 as int,
            ),
    ensures
        p.len() == before.len(),
        after.len() == before.len(),
        forall|i: int|
            0 <= i < p.len() ==> 0 <= #[trigger] p[i] < before.len() && after[i] == before[p[i]],
        forall|i: int, j: int|
            0 <= i < j < p.len() ==> {
                let (x, y) = (#[trigger] p[i], #[trigger] p[j]);
                let (a, b) = (before[x].created, before[y].created);
                a.0 < b.0 || (a.0 == b.0 && a.1 < b.1) || (a == b && x < y)
            },
{
    let keys = before.map_values(|e: EscalationView| filing_key(e));
    let p = choose|p: Seq<int>| #[trigger]
        stable_order(keys, p) && after == p.map_values(|k: int| before[k]);
    assert forall|i: int, j: int| 0 <= i < j < p.len() implies {
        let (x, y) = (#[trigger] p[i], #[trigger] p[j]);
        let (a, b) = (before[x].created, before[y].created);
        a.0 < b.0 || (a.0 == b.0 && a.1 < b.1) || (a == b && x < y)
    } by {
        let (x, y) = (p[i], p[j]);
        law_sort_is_stable(keys, p, i, j);
        assert(keys[x] == filing_key(before[x]));
        assert(keys[y] == filing_key(before[y]));
        assert(valid_instant(before[x].created.0 as int, before[x].created.1 as int));
        assert(valid_instant(before[y].created.0 as int, before[y].created.1 as int));
        law_instant_key_orders(before[x].created, before[y].created);
        law_instant_key_orders(before[y].created, before[x].created);
    }
    p
}

} // verus!
