//! The data of loom.
//!
//! Task files are near-immutable: they hold identity, spec, and the two
//! mutations of a leaseholder. Everything that changes often (attempts,
//! verdicts, leases) lives in git refs.

use crate::clock::Timestamp;
use crate::error::{Error, ErrorView, Result};
use crate::text::{copy_opt, copy_texts, digit, digit_char, ends_with, opt_view, starts_with, views};
use vstd::prelude::*;

verus! {

/// The directory of a workspace that holds tasks, escalations and the policy.
pub const WORK_DIR: &'static str = ".work";

/// The directory of institutional memory: one small fact file per topic.
pub const KNOWLEDGE_DIR: &'static str = "knowledge";

// ---------------------------------------------------------------------- data

/// The stored state of a task.
#[derive(Clone, Copy, Debug, PartialEq, Eq, Structural)]
pub enum TaskState {
    /// To be worked on.
    Open,
    /// Finished.
    Done,
    /// Given up.
    Dead,
}

/// A unit of work. Its file is near-immutable: identity, spec, and the two
/// mutations that a leaseholder makes (the output of a probe, the final state).
#[derive(Debug)]
pub struct Task {
    /// The identity of the task.
    pub id: String,
    /// What the task is to achieve.
    pub goal: String,
    /// The stored state.
    pub state: TaskState,
    /// The worth of the task: the bits of a double-precision number.
    pub value_bits: u64,
    /// The tasks that must be done first.
    pub deps: Vec<String>,
    /// Interface contracts that the task implements or consumes.
    pub contract: Vec<String>,
    /// Failing acceptance tests that define done. None: the task needs a probe.
    pub accept: Vec<String>,
    /// What to read to start: the output of probes.
    pub context: Vec<String>,
    /// The starting budget tier.
    pub tier_initial: usize,
    /// When the task was created.
    pub created: Timestamp,
}

/// The model of a [`Task`].
#[verifier::ext_equal]
pub struct TaskView {
    pub id: Seq<char>,
    pub goal: Seq<char>,
    pub state: TaskState,
    pub value_bits: u64,
    pub deps: Seq<Seq<char>>,
    pub contract: Seq<Seq<char>>,
    pub accept: Seq<Seq<char>>,
    pub context: Seq<Seq<char>>,
    pub tier_initial: usize,
    pub created: (i64, u32),
}

impl View for Task {
    type V = TaskView;

    open spec fn view(&self) -> TaskView {
        TaskView {
            id: self.id@,
            goal: self.goal@,
            state: self.state,
            value_bits: self.value_bits,
            deps: views(self.deps@),
            contract: views(self.contract@),
            accept: views(self.accept@),
            context: views(self.context@),
            tier_initial: self.tier_initial,
            created: self.created@,
        }
    }
}

impl Clone for Task {
    fn clone(&self) -> (r: Self)
        ensures
            r@ == self@,
    {
        Task {
            id: self.id.clone(),
            goal: self.goal.clone(),
            state: self.state,
            value_bits: self.value_bits,
            deps: copy_texts(&self.deps),
            contract: copy_texts(&self.contract),
            accept: copy_texts(&self.accept),
            context: copy_texts(&self.context),
            tier_initial: self.tier_initial,
            created: self.created,
        }
    }
}

/// The ladder of time budgets.
#[derive(Debug)]
pub struct Budget {
    /// The minutes of each tier.
    pub tiers_minutes: Vec<u64>,
}

/// The model of a [`Budget`].
#[verifier::ext_equal]
pub struct BudgetView {
    pub tiers_minutes: Seq<u64>,
}

impl View for Budget {
    type V = BudgetView;

    open spec fn view(&self) -> BudgetView {
        BudgetView {
            tiers_minutes: self.tiers_minutes@,
        }
    }
}

/// How long leases live.
#[derive(Debug)]
pub struct LeasePolicy {
    /// After this many minutes of silence a lease is stale.
    pub ttl_minutes: i64,
    /// The minutes between two heartbeats.
    pub heartbeat_minutes: i64,
}

/// The model of a [`LeasePolicy`].
#[verifier::ext_equal]
pub struct LeasePolicyView {
    pub ttl_minutes: i64,
    pub heartbeat_minutes: i64,
}

impl View for LeasePolicy {
    type V = LeasePolicyView;

    open spec fn view(&self) -> LeasePolicyView {
        LeasePolicyView {
            ttl_minutes: self.ttl_minutes,
            heartbeat_minutes: self.heartbeat_minutes,
        }
    }
}

/// How scheduling ages tasks.
#[derive(Debug)]
pub struct SchedulePolicy {
    /// The hours in which the staleness of a task grows by one: the bits of a
    /// double-precision number.
    pub half_life_bits: u64,
}

/// The model of a [`SchedulePolicy`].
#[verifier::ext_equal]
pub struct SchedulePolicyView {
    pub half_life_bits: u64,
}

impl View for SchedulePolicy {
    type V = SchedulePolicyView;

    open spec fn view(&self) -> SchedulePolicyView {
        SchedulePolicyView {
            half_life_bits: self.half_life_bits,
        }
    }
}

/// The verdict gate on finishing a task: `independent` asks for an approving
/// verdict of another agent on the exact candidate, `any` allows the implementer's
/// own verdict, `off` asks for none. Green tests are required in every mode: the
/// hooks of the commit that finishes the task see to that.
#[derive(Debug)]
pub struct VerifyPolicy {
    /// The mode of the verdict gate.
    pub mode: String,
}

/// The model of a [`VerifyPolicy`].
#[verifier::ext_equal]
pub struct VerifyPolicyView {
    pub mode: Seq<char>,
}

impl View for VerifyPolicy {
    type V = VerifyPolicyView;

    open spec fn view(&self) -> VerifyPolicyView {
        VerifyPolicyView {
            mode: self.mode@,
        }
    }
}

/// The policy of a workspace.
#[derive(Debug)]
pub struct Policy {
    /// The time budgets.
    pub budget: Budget,
    /// The leases.
    pub lease: LeasePolicy,
    /// The scheduling.
    pub schedule: SchedulePolicy,
    /// The verification gate.
    pub verify: VerifyPolicy,
}

/// The model of a [`Policy`].
#[verifier::ext_equal]
pub struct PolicyView {
    pub budget: BudgetView,
    pub lease: LeasePolicyView,
    pub schedule: SchedulePolicyView,
    pub verify: VerifyPolicyView,
}

impl View for Policy {
    type V = PolicyView;

    open spec fn view(&self) -> PolicyView {
        PolicyView {
            budget: self.budget@,
            lease: self.lease@,
            schedule: self.schedule@,
            verify: self.verify@,
        }
    }
}

/// A typed question for the human oracle.
#[derive(Debug)]
pub struct Escalation {
    /// The identity of the question.
    pub id: String,
    /// The question.
    pub question: String,
    /// The answers to choose from.
    pub options: Vec<String>,
    /// The answer that the asking agent recommends.
    pub recommend: String,
    /// What speaks for it.
    pub evidence: Vec<String>,
    /// The tasks that wait for the answer.
    pub blocking: Vec<String>,
    /// When the default becomes the answer.
    pub deadline: Option<Timestamp>,
    /// The answer once the deadline has passed.
    pub default: Option<String>,
    /// The answer.
    pub answer: Option<String>,
    /// Who answered.
    pub answered_by: Option<String>,
    /// When the question was filed.
    pub created: Timestamp,
}

/// The model of an [`Escalation`].
#[verifier::ext_equal]
pub struct EscalationView {
    pub id: Seq<char>,
    pub question: Seq<char>,
    pub options: Seq<Seq<char>>,
    pub recommend: Seq<char>,
    pub evidence: Seq<Seq<char>>,
    pub blocking: Seq<Seq<char>>,
    pub deadline: Option<(i64, u32)>,
    pub default: Option<Seq<char>>,
    pub answer: Option<Seq<char>>,
    pub answered_by: Option<Seq<char>>,
    pub created: (i64, u32),
}

impl View for Escalation {
    type V = EscalationView;

    open spec fn view(&self) -> EscalationView {
        EscalationView {
            id: self.id@,
            question: self.question@,
            options: views(self.options@),
            recommend: self.recommend@,
            evidence: views(self.evidence@),
            blocking: views(self.blocking@),
            deadline: opt_view(self.deadline),
            default: opt_view(self.default),
            answer: opt_view(self.answer),
            answered_by: opt_view(self.answered_by),
            created: self.created@,
        }
    }
}

impl Clone for Escalation {
    fn clone(&self) -> (r: Self)
        ensures
            r@ == self@,
    {
        Escalation {
            id: self.id.clone(),
            question: self.question.clone(),
            options: copy_texts(&self.options),
            recommend: self.recommend.clone(),
            evidence: copy_texts(&self.evidence),
            blocking: copy_texts(&self.blocking),
            deadline: self.deadline,
            default: copy_opt(&self.default),
            answer: copy_opt(&self.answer),
            answered_by: copy_opt(&self.answered_by),
            created: self.created,
        }
    }
}

/// What a lease ref says.
#[derive(Debug)]
pub struct LeasePayload {
    /// The agent that holds the lease.
    pub agent: String,
    /// The leased task.
    pub task: String,
    /// The budget tier of the lease.
    pub tier: usize,
    /// When the lease was first acquired: the budget clock starts here.
    pub acquired: Option<Timestamp>,
    /// The last sign of life.
    pub heartbeat: Timestamp,
}

/// The model of a [`LeasePayload`].
#[verifier::ext_equal]
pub struct LeasePayloadView {
    pub agent: Seq<char>,
    pub task: Seq<char>,
    pub tier: usize,
    pub acquired: Option<(i64, u32)>,
    pub heartbeat: (i64, u32),
}

impl View for LeasePayload {
    type V = LeasePayloadView;

    open spec fn view(&self) -> LeasePayloadView {
        LeasePayloadView {
            agent: self.agent@,
            task: self.task@,
            tier: self.tier,
            acquired: opt_view(self.acquired),
            heartbeat: self.heartbeat@,
        }
    }
}

impl Clone for LeasePayload {
    fn clone(&self) -> (r: Self)
        ensures
            r@ == self@,
    {
        LeasePayload {
            agent: self.agent.clone(),
            task: self.task.clone(),
            tier: self.tier,
            acquired: self.acquired,
            heartbeat: self.heartbeat,
        }
    }
}

/// What an attempt ref says. Attempts are only ever added.
#[derive(Debug)]
pub struct AttemptRecord {
    /// The attempted task.
    pub task: String,
    /// The budget tier of the attempt.
    pub tier: usize,
    /// The candidate commit.
    pub sha: String,
    /// How the attempt ended.
    pub outcome: String,
    /// What the next attempt should know.
    pub lesson: String,
    /// The agent that made the attempt.
    pub agent: String,
    /// When the attempt was recorded.
    pub at: Timestamp,
}

/// The model of an [`AttemptRecord`].
#[verifier::ext_equal]
pub struct AttemptRecordView {
    pub task: Seq<char>,
    pub tier: usize,
    pub sha: Seq<char>,
    pub outcome: Seq<char>,
    pub lesson: Seq<char>,
    pub agent: Seq<char>,
    pub at: (i64, u32),
}

impl View for AttemptRecord {
    type V = AttemptRecordView;

    open spec fn view(&self) -> AttemptRecordView {
        AttemptRecordView {
            task: self.task@,
            tier: self.tier,
            sha: self.sha@,
            outcome: self.outcome@,
            lesson: self.lesson@,
            agent: self.agent@,
            at: self.at@,
        }
    }
}

impl Clone for AttemptRecord {
    fn clone(&self) -> (r: Self)
        ensures
            r@ == self@,
    {
        AttemptRecord {
            task: self.task.clone(),
            tier: self.tier,
            sha: self.sha.clone(),
            outcome: self.outcome.clone(),
            lesson: self.lesson.clone(),
            agent: self.agent.clone(),
            at: self.at,
        }
    }
}

/// What a verdict ref says. It is bound to the exact candidate it judges.
#[derive(Debug)]
pub struct Verdict {
    /// The judged task.
    pub task: String,
    /// The judged candidate.
    pub sha: String,
    /// `approve` or `reject`.
    pub verdict: String,
    /// The judging agent.
    pub agent: String,
    /// Whether the judge held the lease.
    pub self_verdict: bool,
    /// When the verdict was issued.
    pub at: Timestamp,
}

/// The model of a [`Verdict`].
#[verifier::ext_equal]
pub struct VerdictView {
    pub task: Seq<char>,
    pub sha: Seq<char>,
    pub verdict: Seq<char>,
    pub agent: Seq<char>,
    pub self_verdict: bool,
    pub at: (i64, u32),
}

impl View for Verdict {
    type V = VerdictView;

    open spec fn view(&self) -> VerdictView {
        VerdictView {
            task: self.task@,
            sha: self.sha@,
            verdict: self.verdict@,
            agent: self.agent@,
            self_verdict: self.self_verdict,
            at: self.at@,
        }
    }
}

impl Clone for Verdict {
    fn clone(&self) -> (r: Self)
        ensures
            r@ == self@,
    {
        Verdict {
            task: self.task.clone(),
            sha: self.sha.clone(),
            verdict: self.verdict.clone(),
            agent: self.agent.clone(),
            self_verdict: self.self_verdict,
            at: self.at,
        }
    }
}

/// A lease and the commit that its ref points to.
#[derive(Debug)]
pub struct HeldLease {
    /// What the lease says.
    pub payload: LeasePayload,
    /// The commit to compare against when the lease changes.
    pub sha: String,
}

/// The model of a [`HeldLease`].
#[verifier::ext_equal]
pub struct HeldLeaseView {
    pub payload: LeasePayloadView,
    pub sha: Seq<char>,
}

impl View for HeldLease {
    type V = HeldLeaseView;

    open spec fn view(&self) -> HeldLeaseView {
        HeldLeaseView {
            payload: self.payload@,
            sha: self.sha@,
        }
    }
}

impl Clone for HeldLease {
    fn clone(&self) -> (r: Self)
        ensures
            r@ == self@,
    {
        HeldLease {
            payload: self.payload.clone(),
            sha: self.sha.clone(),
        }
    }
}

/// The attempts at one task, in the order of time.
#[derive(Debug)]
pub struct History {
    /// The records.
    pub records: Vec<AttemptRecord>,
}

impl View for History {
    type V = Seq<AttemptRecordView>;

    open spec fn view(&self) -> Seq<AttemptRecordView> {
        views(self.records@)
    }
}

impl Escalation {
    /// Whether the question still waits for an answer.
    pub fn is_open(&self) -> (b: bool)
        ensures
            b == self@.answer is None,
    {
        self.answer.is_none()
    }
}

// ------------------------------------------------------------------ defaults

impl Default for Budget {
    fn default() -> (r: Self)
        ensures
            r@.tiers_minutes == seq![10u64, 45, 180],
    {
        Budget { tiers_minutes: vec![10, 45, 180] }
    }
}

impl Default for LeasePolicy {
    fn default() -> (r: Self)
        ensures
            r.ttl_minutes == 15,
            r.heartbeat_minutes == 5,
    {
        LeasePolicy { ttl_minutes: 15, heartbeat_minutes: 5 }
    }
}

/// The bits of the number 72.
pub const DEFAULT_HALF_LIFE_BITS: u64 = 0x4052000000000000;

impl Default for SchedulePolicy {
    fn default() -> (r: Self)
        ensures
            r.half_life_bits == DEFAULT_HALF_LIFE_BITS,
    {
        SchedulePolicy { half_life_bits: DEFAULT_HALF_LIFE_BITS }
    }
}

impl Default for VerifyPolicy {
    fn default() -> (r: Self)
        ensures
            r@.mode == "independent"@,
    {
        VerifyPolicy { mode: "independent".to_string() }
    }
}

impl Default for Policy {
    fn default() -> (r: Self)
        ensures
            r@ == (PolicyView {
                budget: BudgetView { tiers_minutes: seq![10u64, 45, 180] },
                lease: LeasePolicyView { ttl_minutes: 15, heartbeat_minutes: 5 },
                schedule: SchedulePolicyView { half_life_bits: DEFAULT_HALF_LIFE_BITS },
                verify: VerifyPolicyView { mode: "independent"@ },
            }),
    {
        Policy {
            budget: Budget::default(),
            lease: LeasePolicy::default(),
            schedule: SchedulePolicy::default(),
            verify: VerifyPolicy::default(),
        }
    }
}

// ----------------------------------------------------------------- workspace

/// A path joined to a base: an absolute path replaces the base, and one
/// separator stands between the two.
pub open spec fn joined_path(base: Seq<char>, rest: Seq<char>) -> Seq<char> {
    if rest.len() > 0 && rest[0] == '/' {
        rest
    } else if base.len() == 0 || base.last() == '/' {
        base + rest
    } else {
        base + "/"@ + rest
    }
}

/// Joins a path to a base.
pub fn join_path(base: &str, rest: &str) -> (r: String)
    ensures
        r@ == joined_path(base@, rest@),
{
    proof {
        reveal_strlit("/");
        assert("/"@ =~= seq!['/']);
    }
    if starts_with(rest, "/") {
        assert("/"@[0] == rest@[0]);
        return rest.to_string();
    }
    assert(rest@.len() > 0 ==> rest@[0] != '/') by {
        if rest@.len() > 0 && rest@[0] == '/' {
            assert("/"@ =~= rest@.take(1));
        }
    }
    let mut r = base.to_string();
    let closed = ends_with(base, "/");
    assert(closed == (base@.len() > 0 && base@.last() == '/')) by {
        if base@.len() > 0 && base@.last() == '/' {
            assert("/"@ =~= base@.skip(base@.len() - 1));
        }
        if closed {
            assert("/"@[0] == base@[base@.len() - 1]);
        }
    }
    if !base.is_empty() && !closed {
        r.append("/");
    }
    r.append(rest);
    r
}

/// The root of a tree that loom manages.
#[derive(Debug)]
pub struct Workspace {
    /// The path of the root.
    pub root: String,
}

/// A directory on the way up, and whether it holds a workspace.
#[derive(Debug)]
pub struct Ancestor {
    /// The path of the directory.
    pub path: String,
    /// Whether [`WORK_DIR`] is a directory in it.
    pub has_work: bool,
}

/// The nearest of the directories on the way up that holds a workspace.
pub open spec fn nearest(way_up: Seq<Ancestor>) -> Option<Seq<char>>
    decreases way_up.len(),
{
    if way_up.len() == 0 {
        None
    } else if way_up[0].has_work {
        Some(way_up[0].path@)
    } else {
        nearest(way_up.drop_first())
    }
}

impl Workspace {
    /// The workspace nearest to `start`, given the directories from `start`
    /// upward.
    pub fn discover(start: &str, way_up: &Vec<Ancestor>) -> (r: Result<Workspace>)
        ensures
            match r {
                Ok(w) => nearest(way_up@) == Some(w.root@),
                Err(e) => nearest(way_up@) is None && e@ == ErrorView::WorkspaceNotFound(start@),
            },
    {
        let mut i: usize = 0;
        assert(way_up@.skip(0) =~= way_up@);
        while i < way_up.len()
            invariant
                i <= way_up@.len(),
                nearest(way_up@) == nearest(way_up@.skip(i as int)),
            decreases way_up@.len() - i,
        {
            if way_up[i].has_work {
                return Ok(Workspace { root: way_up[i].path.clone() });
            }
            assert(way_up@.skip(i as int).drop_first() =~= way_up@.skip(i + 1));
            i += 1;
        }
        Err(Error::WorkspaceNotFound(start.to_string()))
    }

    /// The directory of the task files.
    pub fn tasks_dir(&self) -> (r: String)
        ensures
            r@ == joined_path(joined_path(self.root@, ".work"@), "tasks"@),
    {
        join_path(join_path(self.root.as_str(), WORK_DIR).as_str(), "tasks")
    }

    /// The directory of the escalations.
    pub fn escalations_dir(&self) -> (r: String)
        ensures
            r@ == joined_path(joined_path(self.root@, ".work"@), "escalations"@),
    {
        join_path(join_path(self.root.as_str(), WORK_DIR).as_str(), "escalations")
    }

    /// The file of the policy.
    pub fn policy_path(&self) -> (r: String)
        ensures
            r@ == joined_path(joined_path(self.root@, ".work"@), "policy.toml"@),
    {
        join_path(join_path(self.root.as_str(), WORK_DIR).as_str(), "policy.toml")
    }

    /// The file of an escalation.
    pub fn escalation_path(&self, id: &str) -> (r: String)
        ensures
            r@ == joined_path(
                joined_path(joined_path(self.root@, ".work"@), "escalations"@),
                id@ + ".toml"@,
            ),
    {
        let mut file = id.to_string();
        file.append(".toml");
        join_path(self.escalations_dir().as_str(), file.as_str())
    }

    /// The file of a task.
    pub fn task_path(&self, id: &str) -> (r: String)
        ensures
            r@ == joined_path(
                joined_path(joined_path(self.root@, ".work"@), "tasks"@),
                id@ + ".toml"@,
            ),
    {
        let mut file = id.to_string();
        file.append(".toml");
        join_path(self.tasks_dir().as_str(), file.as_str())
    }
}

/// A file name with the given extension: the extension stands behind the last
/// dot, and something stands before that dot.
pub open spec fn has_extension(name: Seq<char>, ext: Seq<char>) -> bool {
    (seq!['.'] + ext).is_suffix_of(name) && name.len() > ext.len() + 1
}

/// Whether a file name has the given extension, which holds no dot.
pub fn extension_is(name: &str, ext: &str) -> (r: bool)
    ensures
        r == has_extension(name@, ext@),
{
    let mut tail = String::new();
    tail.push('.');
    tail.append(ext);
    assert(tail@ =~= seq!['.'] + ext@);
    assert(tail@.is_suffix_of(name@) && name@.len() == tail@.len() ==> name@ =~= tail@);
    ends_with(name, tail.as_str()) && !(*name == *tail.as_str())
}

/// Discovery takes the first directory on the way up that holds a workspace.
pub proof fn law_nearest(way_up: Seq<Ancestor>, k: int)
    requires
        0 <= k < way_up.len(),
        way_up[k].has_work,
        forall|j: int| 0 <= j < k ==> !(#[trigger] way_up[j]).has_work,
    ensures
        nearest(way_up) == Some(way_up[k].path@),
    decreases k,
{
    if k > 0 {
        assert(!way_up[0].has_work);
        let t = way_up.drop_first();
        assert forall|j: int| 0 <= j < k - 1 implies !(#[trigger] t[j]).has_work by {
            assert(t[j] == way_up[j + 1]);
        }
        law_nearest(t, k - 1);
    }
}

// ------------------------------------------------------------------------ ids

/// The number behind an id: the time in nanoseconds, with the process number
/// above its low sixty-four bits.
pub open spec fn id_number(nanos: u128, pid: u32) -> u128 {
    nanos ^ ((pid as u128) << 64)
}

/// Up to `n` hexadecimal digits of `x`, the lowest first.
pub open spec fn low_digits(x: nat, n: nat) -> Seq<char>
    decreases n,
{
    if n == 0 {
        Seq::empty()
    } else if x < 16 {
        seq![digit(x as int)]
    } else {
        seq![digit((x % 16) as int)] + low_digits(x / 16, (n - 1) as nat)
    }
}

/// A short id for the given time and process: the ten lowest hexadecimal
/// digits of its number, the lowest first.
pub fn new_id(nanos: u128, pid: u32) -> (r: String)
    ensures
        r@ == low_digits(id_number(nanos, pid) as nat, 10),
{
    let mut x: u128 = nanos ^ ((pid as u128) << 64);
    let mut r = String::new();
    let mut left: u32 = 10;
    let ghost all = low_digits(x as nat, 10);
    assert(r@ + low_digits(x as nat, left as nat) =~= all);
    while left > 0
        invariant
            left <= 10,
            all == low_digits(id_number(nanos, pid) as nat, 10),
            r@ + low_digits(x as nat, left as nat) == all,
        decreases left,
    {
        let ghost so_far = r@;
        let d: u64 = (x % 16) as u64;
        r.push(digit_char(d));
        if x < 16 {
            assert(r@ =~= so_far + low_digits(x as nat, left as nat));
            return r;
        }
        assert(r@ + low_digits((x / 16) as nat, (left - 1) as nat) =~= so_far + low_digits(
            x as nat,
            left as nat,
        ));
        x = x / 16;
        left -= 1;
    }
    assert(r@ =~= all);
    r
}

spec fn sixteen_to(n: nat) -> nat
    decreases n,
{
    if n == 0 {
        1
    } else {
        16 * sixteen_to((n - 1) as nat)
    }
}

proof fn lemma_low_digits_len(x: nat, n: nat)
    requires
        n > 0,
    ensures
        low_digits(x, n).len() <= n,
        low_digits(x, n).len() == n <==> x >= sixteen_to((n - 1) as nat) || n == 1,
    decreases n,
{
    reveal_with_fuel(low_digits, 2);
    if n > 1 {
        assert(sixteen_to((n - 1) as nat) == 16 * sixteen_to((n - 2) as nat));
        lemma_sixteen_positive((n - 2) as nat);
        lemma_low_digits_len(x / 16, (n - 1) as nat);
        if n == 2 {
            assert(sixteen_to(0) == 1);
        }
    }
}

proof fn lemma_sixteen_positive(n: nat)
    ensures
        sixteen_to(n) >= 1,
    decreases n,
{
    if n > 0 {
        lemma_sixteen_positive((n - 1) as nat);
    }
}

proof fn lemma_digit_injective(a: int, b: int)
    requires
        0 <= a < 16,
        0 <= b < 16,
        digit(a) == digit(b),
    ensures
        a == b,
{
}

proof fn lemma_low_digits_agree(x: nat, y: nat, n: nat)
    requires
        n > 0,
        x >= sixteen_to((n - 1) as nat),
        y >= sixteen_to((n - 1) as nat),
    ensures
        low_digits(x, n) == low_digits(y, n) <==> x % sixteen_to(n) == y % sixteen_to(n),
    decreases n,
{
    lemma_sixteen_positive((n - 1) as nat);
    let m = sixteen_to((n - 1) as nat);
    assert(sixteen_to(n) == 16 * m);
    vstd::arithmetic::div_mod::lemma_mod_breakdown(x as int, 16, m as int);
    vstd::arithmetic::div_mod::lemma_mod_breakdown(y as int, 16, m as int);
    let p = low_digits(x, n);
    let q = low_digits(y, n);
    lemma_low_digits_len(x, n);
    lemma_low_digits_len(y, n);
    assert(p[0] == digit((x % 16) as int));
    assert(q[0] == digit((y % 16) as int));
    if n == 1 {
        assert(m == 1);
        assert(low_digits(x, 1) =~= seq![digit((x % 16) as int)]) by {
            assert(low_digits(x / 16, 0) =~= Seq::<char>::empty());
        }
        assert(low_digits(y, 1) =~= seq![digit((y % 16) as int)]) by {
            assert(low_digits(y / 16, 0) =~= Seq::<char>::empty());
        }
        if p == q {
            lemma_digit_injective((x % 16) as int, (y % 16) as int);
        }
    } else {
        let k = (n - 1) as nat;
        assert(m == 16 * sixteen_to((k - 1) as nat));
        lemma_sixteen_positive((k - 1) as nat);
        lemma_low_digits_agree(x / 16, y / 16, k);
        assert(p.drop_first() =~= low_digits(x / 16, k));
        assert(q.drop_first() =~= low_digits(y / 16, k));
        if p == q {
            lemma_digit_injective((x % 16) as int, (y % 16) as int);
        } else if x % 16 == y % 16 && low_digits(x / 16, k) == low_digits(y / 16, k) {
            assert(p =~= q);
        }
        assert(p == q <==> (x % 16 == y % 16 && (x / 16) % m == (y / 16) % m));
        assert(x % 16 < 16 && y % 16 < 16);
    }
}

/// An id has ten digits, unless its number has fewer; a real process makes no
/// such number at a time below sixty-four bits.
pub proof fn law_id_has_ten_digits(nanos: u128, pid: u32)
    ensures
        low_digits(id_number(nanos, pid) as nat, 10).len() == 10 <==> id_number(nanos, pid)
            >= 0x10_0000_0000,
        nanos < 0x1_0000_0000_0000_0000 && pid > 0 ==> id_number(nanos, pid) >= 0x10_0000_0000,
{
    lemma_id_number(nanos, pid);
    lemma_sixteen_ten();
    lemma_low_digits_len(id_number(nanos, pid) as nat, 10);
}

/// Two ids of ten digits are the same exactly when their times agree in the
/// low forty bits: whatever the processes, ids taken at nanoseconds that
/// differ there are different.
pub proof fn law_ids_differ(nanos: u128, pid: u32, other_nanos: u128, other_pid: u32)
    requires
        id_number(nanos, pid) >= 0x10_0000_0000,
        id_number(other_nanos, other_pid) >= 0x10_0000_0000,
    ensures
        low_digits(id_number(nanos, pid) as nat, 10) == low_digits(
            id_number(other_nanos, other_pid) as nat,
            10,
        ) <==> nanos % 0x100_0000_0000 == other_nanos % 0x100_0000_0000,
{
    lemma_id_number(nanos, pid);
    lemma_id_number(other_nanos, other_pid);
    lemma_sixteen_ten();
    lemma_low_digits_agree(
        id_number(nanos, pid) as nat,
        id_number(other_nanos, other_pid) as nat,
        10,
    );
}

proof fn lemma_id_number(nanos: u128, pid: u32)
    ensures
        nanos < 0x1_0000_0000_0000_0000 && pid > 0 ==> id_number(nanos, pid)
            >= 0x1_0000_0000_0000_0000,
        id_number(nanos, pid) % 0x100_0000_0000 == nanos % 0x100_0000_0000,
{
    assert(nanos < 0x1_0000_0000_0000_0000 && pid > 0 ==> (nanos ^ ((pid as u128) << 64))
        >= 0x1_0000_0000_0000_0000) by (bit_vector);
    assert((nanos ^ ((pid as u128) << 64)) % 0x100_0000_0000 == nanos % 0x100_0000_0000)
        by (bit_vector);
}

proof fn lemma_sixteen_ten()
    ensures
        sixteen_to(10) == 0x100_0000_0000,
        sixteen_to(9) == 0x10_0000_0000,
{
    reveal_with_fuel(sixteen_to, 11);
}

/// Without a workspace on the way up none is found.
pub proof fn law_no_workspace(way_up: Seq<Ancestor>)
    ensures
        nearest(way_up) is None <==> forall|i: int|
            0 <= i < way_up.len() ==> !(#[trigger] way_up[i]).has_work,
    decreases way_up.len(),
{
    if way_up.len() > 0 {
        let t = way_up.drop_first();
        law_no_workspace(t);
        if !way_up[0].has_work && nearest(way_up) is None {
            assert forall|i: int| 0 <= i < way_up.len() implies !(#[trigger]
            way_up[i]).has_work by {
                if i > 0 {
                    assert(!t[i - 1].has_work);
                }
            }
        }
        if forall|i: int| 0 <= i < way_up.len() ==> !(#[trigger] way_up[i]).has_work {
            assert(!way_up[0].has_work);
            assert forall|i: int| 0 <= i < t.len() implies !(#[trigger] t[i]).has_work by {
                assert(!way_up[i + 1].has_work);
            }
        }
    }
}

/// A path joined to a base begins with the base and ends with the path, with
/// exactly one separator between the two that neither may have; an absolute path
/// stands alone.
pub proof fn law_joined_path(base: Seq<char>, rest: Seq<char>)
    ensures
        rest.len() > 0 && rest[0] == '/' ==> joined_path(base, rest) == rest,
        (rest.len() == 0 || rest[0] != '/') && base.len() > 0 && base[base.len() - 1] != '/'
            ==> joined_path(base, rest) == base.push('/') + rest,
        (rest.len() == 0 || rest[0] != '/') && base.len() > 0 && base[base.len() - 1] == '/'
            ==> joined_path(base, rest) == base + rest,
        (rest.len() == 0 || rest[0] != '/') && base.len() == 0 ==> joined_path(base, rest) == rest,
{
    reveal_strlit("/");
    assert(base + "/"@ + rest =~= base.push('/') + rest);
    assert(Seq::<char>::empty() + rest =~= rest);
    if base.len() == 0 {
        assert(base + rest =~= rest);
    }
}

/// A file name has an extension where that stands behind a dot at its end, with
/// something before the dot.
pub proof fn law_extension(stem: Seq<char>, ext: Seq<char>, name: Seq<char>)
    ensures
        has_extension(stem + seq!['.'] + ext, ext) <==> stem.len() > 0,
        has_extension(name, ext) ==> name.len() > ext.len() + 1 && name.skip(
            name.len() - ext.len(),
        ) == ext && name[name.len() - ext.len() - 1] == '.',
{
    let tail = seq!['.'] + ext;
    let all = stem + seq!['.'] + ext;
    assert(all.subrange(all.len() - tail.len(), all.len() as int) =~= tail);
    if has_extension(name, ext) {
        let k = name.len() - tail.len();
        let end = name.subrange(k, name.len() as int);
        assert(end =~= tail);
        assert(name[k] == end[0]);
        assert(name.skip(name.len() - ext.len()) =~= end.skip(1));
        assert(end.skip(1) =~= ext);
    }
}

/// The digits of an id are the hexadecimal digits of its number, from the lowest
/// up: the first is what is left by sixteen, and the others are those of the
/// sixteenth.
pub proof fn law_id_digits(x: nat, n: nat)
    requires
        n > 0,
    ensures
        low_digits(x, n).len() > 0,
        low_digits(x, n)[0] == digit((x % 16) as int),
        x >= 16 ==> low_digits(x, n).drop_first() == low_digits(x / 16, (n - 1) as nat),
        x < 16 ==> low_digits(x, n).len() == 1,
{
    if x >= 16 {
        assert(low_digits(x, n).drop_first() =~= low_digits(x / 16, (n - 1) as nat));
    }
}

/// The number of an id holds the time in its low bits and the process number above
/// them.
pub proof fn law_id_number(nanos: u128, pid: u32)
    ensures
        id_number(nanos, pid) % 0x1_0000_0000_0000_0000 == nanos % 0x1_0000_0000_0000_0000,
        nanos < 0x1_0000_0000_0000_0000 ==> id_number(nanos, pid) / 0x1_0000_0000_0000_0000 == pid,
{
    assert((nanos ^ ((pid as u128) << 64)) % 0x1_0000_0000_0000_0000 == nanos
        % 0x1_0000_0000_0000_0000) by (bit_vector);
    assert(nanos < 0x1_0000_0000_0000_0000 ==> (nanos ^ ((pid as u128) << 64))
        / 0x1_0000_0000_0000_0000 == pid) by (bit_vector);
}

/// The model of a task is read off its fields.
pub proof fn law_task_model(t: Task)
    ensures
        t@.id == t.id@,
        t@.goal == t.goal@,
        t@.state == t.state,
        t@.value_bits == t.value_bits,
        t@.deps == views(t.deps@),
        t@.contract == views(t.contract@),
        t@.accept == views(t.accept@),
        t@.context == views(t.context@),
        t@.tier_initial == t.tier_initial,
        t@.created == t.created@,
{
}

/// The model of a question is read off its fields.
pub proof fn law_escalation_model(e: Escalation)
    ensures
        e@.id == e.id@,
        e@.question == e.question@,
        e@.options == views(e.options@),
        e@.recommend == e.recommend@,
        e@.evidence == views(e.evidence@),
        e@.blocking == views(e.blocking@),
        e@.deadline == opt_view(e.deadline),
        e@.default == opt_view(e.default),
        e@.answer == opt_view(e.answer),
        e@.answered_by == opt_view(e.answered_by),
        e@.created == e.created@,
{
}

/// The models of what the refs hold are read off their fields.
pub proof fn law_ref_models(held: HeldLease, a: AttemptRecord, v: Verdict, h: History)
    ensures
        held@.sha == held.sha@,
        held@.payload.agent == held.payload.agent@,
        held@.payload.task == held.payload.task@,
        held@.payload.tier == held.payload.tier,
        held@.payload.acquired == opt_view(held.payload.acquired),
        held@.payload.heartbeat == held.payload.heartbeat@,
        a@.task == a.task@,
        a@.tier == a.tier,
        a@.sha == a.sha@,
        a@.outcome == a.outcome@,
        a@.lesson == a.lesson@,
        a@.agent == a.agent@,
        a@.at == a.at@,
        v@.task == v.task@,
        v@.sha == v.sha@,
        v@.verdict == v.verdict@,
        v@.agent == v.agent@,
        v@.self_verdict == v.self_verdict,
        v@.at == v.at@,
        h@ == views(h.records@),
{
}

} // verus!
