//! The rules of the protocol, without input or output.
//!
//! The state of a task is derived from its file, the leases and the attempts.
//! Its budget tier is derived too: the initial tier plus the failed attempts.
//! Whether a heartbeat goes on and whether a candidate may be called done are
//! decided here.

use crate::clock::{
    earlier, law_minutes_monotone_outside_leaps, minutes_between, Timestamp, NANOS_PER_SECOND,
};
use crate::error::{exit_code_of, unit_view, Error, ErrorView, Result};
use crate::model::{
    AttemptRecordView, History, LeasePayload, LeasePayloadView, Task, TaskState, TaskView, Verdict,
    VerdictView,
};
use crate::order::{
    key_lt, lemma_distinct_positions, lemma_filter_contains, lemma_filter_take, lemma_key_lt_total,
    lemma_key_lt_transitive, pick, positions,
};
use crate::table::{lookup, Table};
use crate::text::{
    holds, law_lex_irreflexive, lemma_views_push, lex_lt, opt_view, precedes, views,
};
use vstd::prelude::*;

verus! {

/// Tasks by id.
pub type Tasks = Seq<(Seq<char>, TaskView)>;

/// Leases by task.
pub type Leases = Seq<(Seq<char>, LeasePayloadView)>;

/// Attempts by task.
pub type Attempts = Seq<(Seq<char>, Seq<AttemptRecordView>)>;

// -------------------------------------------------------------- derived state

/// The state of a task, as the graph, the leases and the attempts make it.
#[derive(Debug, PartialEq, Eq)]
pub enum Derived {
    /// Finished.
    Done,
    /// Given up.
    Dead,
    /// Waiting for these tasks.
    Blocked(Vec<String>),
    /// Being worked on by this agent.
    Leased(String),
    /// Free, and tried before.
    Parked,
    /// Free, and not tried yet.
    Open,
}

/// The model of a [`Derived`] state.
#[verifier::ext_equal]
pub enum DerivedView {
    /// Finished.
    Done,
    /// Given up.
    Dead,
    /// Waiting for these tasks.
    Blocked(Seq<Seq<char>>),
    /// Being worked on by this agent.
    Leased(Seq<char>),
    /// Free, and tried before.
    Parked,
    /// Free, and not tried yet.
    Open,
}

impl View for Derived {
    type V = DerivedView;

    open spec fn view(&self) -> DerivedView {
        match *self {
            Derived::Done => DerivedView::Done,
            Derived::Dead => DerivedView::Dead,
            Derived::Blocked(deps) => DerivedView::Blocked(views(deps@)),
            Derived::Leased(agent) => DerivedView::Leased(agent@),
            Derived::Parked => DerivedView::Parked,
            Derived::Open => DerivedView::Open,
        }
    }
}

/// A dependency still holds a task up unless it is known and done.
pub open spec fn pending(all: Tasks) -> spec_fn(Seq<char>) -> bool {
    |dep: Seq<char>|
        match lookup(all, dep) {
            Some(t) => t.state != TaskState::Done,
            None => true,
        }
}

/// How many attempts at a task are on record.
pub open spec fn failures(attempts: Attempts, id: Seq<char>) -> nat {
    match lookup(attempts, id) {
        Some(records) => records.len(),
        None => 0,
    }
}

/// The derived state of a task.
pub open spec fn derived(
    task: TaskView,
    all: Tasks,
    leases: Leases,
    attempts: Attempts,
) -> DerivedView {
    match task.state {
        TaskState::Done => DerivedView::Done,
        TaskState::Dead => DerivedView::Dead,
        TaskState::Open => {
            let open = task.deps.filter(pending(all));
            if open.len() > 0 {
                DerivedView::Blocked(open)
            } else {
                match lookup(leases, task.id) {
                    Some(lease) => DerivedView::Leased(lease.agent),
                    None => if failures(attempts, task.id) > 0 {
                        DerivedView::Parked
                    } else {
                        DerivedView::Open
                    },
                }
            }
        },
    }
}

/// Whether a dependency still holds a task up.
fn is_pending(all: &Table<Task>, dep: &str) -> (r: bool)
    ensures
        r == pending(all@)(dep@),
{
    match all.get(dep) {
        Some(t) => t.state != TaskState::Done,
        None => true,
    }
}

/// How many attempts at a task are on record.
pub fn count_failures(attempts: &Table<History>, id: &str) -> (n: usize)
    ensures
        n == failures(attempts@, id@),
{
    match attempts.get(id) {
        Some(h) => h.records.len(),
        None => 0,
    }
}

/// The derived state of a task.
pub fn derive(
    task: &Task,
    all: &Table<Task>,
    leases: &Table<LeasePayload>,
    attempts: &Table<History>,
) -> (r: Derived)
    ensures
        r@ == derived(task@, all@, leases@, attempts@),
{
    match task.state {
        TaskState::Done => {
            return Derived::Done;
        },
        TaskState::Dead => {
            return Derived::Dead;
        },
        TaskState::Open => {},
    }
    let ghost deps = views(task.deps@);
    let ghost p = pending(all@);
    let mut open: Vec<String> = Vec::new();
    proof {
        lemma_filter_take(deps, p, 0);
        assert(views(open@) =~= deps.take(0).filter(p));
    }
    for i in 0..task.deps.len()
        invariant
            deps == views(task.deps@),
            p == pending(all@),
            views(open@) == deps.take(i as int).filter(p),
    {
        proof {
            lemma_filter_take(deps, p, i as int);
            assert(deps[i as int] == task.deps@[i as int]@);
        }
        if is_pending(all, task.deps[i].as_str()) {
            let dep = task.deps[i].clone();
            proof {
                lemma_views_push(open@, dep);
            }
            open.push(dep);
        }
    }
    proof {
        lemma_filter_take(deps, p, deps.len() as int);
    }
    if open.len() > 0 {
        return Derived::Blocked(open);
    }
    if let Some(lease) = leases.get(task.id.as_str()) {
        return Derived::Leased(lease.agent.clone());
    }
    if count_failures(attempts, task.id.as_str()) > 0 {
        return Derived::Parked;
    }
    Derived::Open
}

// ---------------------------------------------------------------- budget tier

/// The tier after so many failures on a ladder of `tiers` tiers: one up for each
/// failure, and never above the last.
pub open spec fn tier_after(initial: nat, failed: nat, tiers: nat) -> nat {
    let last = if tiers > 0 {
        (tiers - 1) as nat
    } else {
        0
    };
    if initial + failed < last {
        initial + failed
    } else {
        last
    }
}

/// The current tier of a task.
pub fn current_tier(task: &Task, attempts: &Table<History>, tiers: &Vec<u64>) -> (r: usize)
    ensures
        r == tier_after(
            task.tier_initial as nat,
            failures(attempts@, task@.id),
            tiers@.len(),
        ),
{
    let failed: usize = count_failures(attempts, task.id.as_str());
    let last: usize = if tiers.len() > 0 {
        tiers.len() - 1
    } else {
        0
    };
    if task.tier_initial < last && failed < last - task.tier_initial {
        task.tier_initial + failed
    } else {
        last
    }
}

/// The ladder ends with the attempt that brings the count to this.
pub open spec fn exhausted(initial: nat, attempts_after: nat, tiers: nat) -> bool {
    initial + attempts_after >= tiers
}

/// Whether the ladder is exhausted once this many attempts are on record.
pub fn ladder_exhausted(task: &Task, attempts_after: usize, tiers: &Vec<u64>) -> (r: bool)
    ensures
        r == exhausted(task.tier_initial as nat, attempts_after as nat, tiers@.len()),
{
    task.tier_initial >= tiers.len() || attempts_after >= tiers.len() - task.tier_initial
}

// ----------------------------------------------------------------- scheduling

/// An open task that depends on `id`.
pub open spec fn waits_for(id: Seq<char>) -> spec_fn((Seq<char>, TaskView)) -> bool {
    |e: (Seq<char>, TaskView)| e.1.state == TaskState::Open && e.1.deps.contains(id)
}

/// How many open tasks depend on a task.
pub fn unblocks(id: &str, all: &Table<Task>) -> (n: usize)
    ensures
        n == all@.filter(waits_for(id@)).len(),
{
    let mut n: usize = 0;
    let len: usize = all.len();
    let ghost p = waits_for(id@);
    proof {
        lemma_filter_take(all@, p, 0);
    }
    for i in 0..len
        invariant
            len == all@.len(),
            p == waits_for(id@),
            n == all@.take(i as int).filter(p).len(),
            n <= i,
    {
        proof {
            lemma_filter_take(all@, p, i as int);
        }
        let t = all.value(i);
        if t.state == TaskState::Open && holds(&t.deps, id) {
            n += 1;
        }
    }
    proof {
        lemma_filter_take(all@, p, all@.len() as int);
    }
    n
}

/// The age of something in minutes; what lies in the future has no age.
pub open spec fn age(created: (i64, u32), now: (i64, u32)) -> int {
    if minutes_between(now, created) > 0 {
        minutes_between(now, created)
    } else {
        0
    }
}

/// The minutes by which the staleness of something grows.
pub fn staleness_minutes(created: &Timestamp, now: &Timestamp) -> (m: i64)
    ensures
        m == age(created@, now@),
{
    let m: i64 = now.minutes_since(created);
    if m > 0 {
        m
    } else {
        0
    }
}

/// What the score of a task is computed from, besides its value and the half
/// life: the score is
/// `value * (1 + unblocks) * (1 + age / 60 / half life) / (1 + tier)`, without
/// the age where the half life is not positive.
#[derive(Debug, Clone, Copy, PartialEq, Eq)]
pub struct ScoreInputs {
    /// How many open tasks wait for the task.
    pub unblocks: usize,
    /// The age of the task in minutes.
    pub age_minutes: i64,
    /// The current tier of the task.
    pub tier: usize,
}

/// What the score of a task is computed from.
pub fn score_inputs(
    task: &Task,
    all: &Table<Task>,
    attempts: &Table<History>,
    now: &Timestamp,
    tiers: &Vec<u64>,
) -> (r: ScoreInputs)
    ensures
        r.unblocks == all@.filter(waits_for(task@.id)).len(),
        r.age_minutes == age(task@.created, now@),
        r.tier == tier_after(
            task.tier_initial as nat,
            failures(attempts@, task@.id),
            tiers@.len(),
        ),
{
    ScoreInputs {
        unblocks: unblocks(task.id.as_str(), all),
        age_minutes: staleness_minutes(&task.created, now),
        tier: current_tier(task, attempts, tiers),
    }
}

/// A task that can be worked on now.
#[derive(Debug)]
pub struct Candidate {
    /// The task.
    pub id: String,
    /// Its goal.
    pub goal: String,
    /// Its score: the bits of a double-precision number.
    pub score_bits: u64,
    /// Whether it has no acceptance tests yet.
    pub needs_probe: bool,
    /// Its current tier.
    pub tier: usize,
    /// Whether it was tried before.
    pub resumes: bool,
}

/// The model of a [`Candidate`].
#[verifier::ext_equal]
pub struct CandidateView {
    pub id: Seq<char>,
    pub goal: Seq<char>,
    pub score_bits: u64,
    pub needs_probe: bool,
    pub tier: usize,
    pub resumes: bool,
}

impl View for Candidate {
    type V = CandidateView;

    open spec fn view(&self) -> CandidateView {
        CandidateView {
            id: self.id@,
            goal: self.goal@,
            score_bits: self.score_bits,
            needs_probe: self.needs_probe,
            tier: self.tier,
            resumes: self.resumes,
        }
    }
}

/// A number that orders double-precision numbers, given by their bits, as they
/// are ordered: the magnitude, negated where the sign bit is set. The two zeros
/// are equal.
pub open spec fn bits_order(bits: u64) -> int {
    if bits < 0x8000_0000_0000_0000 {
        bits as int
    } else {
        0x8000_0000_0000_0000 - bits
    }
}

/// A task is schedulable while it is free: open or parked.
pub open spec fn schedulable(d: DerivedView) -> bool {
    d is Open || d is Parked
}

/// The task at position `i`, as a candidate.
pub open spec fn candidate(
    task: TaskView,
    attempts: Attempts,
    score_bits: u64,
    tiers: nat,
) -> CandidateView {
    CandidateView {
        id: task.id,
        goal: task.goal,
        score_bits,
        needs_probe: task.accept.len() == 0,
        tier: tier_after(
            task.tier_initial as nat,
            failures(attempts, task.id),
            tiers,
        ) as usize,
        resumes: failures(attempts, task.id) > 0,
    }
}

/// The candidates among the first `n` tasks, in the order of their ids.
pub open spec fn candidates(
    all: Tasks,
    leases: Leases,
    attempts: Attempts,
    scores: Seq<u64>,
    tiers: nat,
    n: int,
) -> Seq<CandidateView>
    decreases n,
{
    if n <= 0 {
        Seq::empty()
    } else {
        let init = candidates(all, leases, attempts, scores, tiers, n - 1);
        let task = all[n - 1].1;
        if schedulable(derived(task, all, leases, attempts)) {
            init.push(candidate(task, attempts, scores[n - 1], tiers))
        } else {
            init
        }
    }
}

/// Whether the bits of a double-precision number are those of a number, and not
/// of a NaN.
pub open spec fn is_number(bits: u64) -> bool {
    if bits < 0x8000_0000_0000_0000 {
        bits <= 0x7ff0_0000_0000_0000
    } else {
        bits <= 0xfff0_0000_0000_0000
    }
}

/// A candidate belongs before another: its score is higher. Where the scores are
/// equal, or one of them is not a number, the id decides.
pub open spec fn outranks(a: CandidateView, b: CandidateView) -> bool {
    if is_number(a.score_bits) && is_number(b.score_bits) && bits_order(a.score_bits)
        != bits_order(b.score_bits) {
        bits_order(a.score_bits) > bits_order(b.score_bits)
    } else {
        lex_lt(a.id, b.id)
    }
}

/// The candidate at position `i` goes before the one at position `j`: it outranks
/// it, or neither outranks the other and it stands first.
pub open spec fn goes_first(free: Seq<CandidateView>, i: int, j: int) -> bool {
    outranks(free[i], free[j]) || (!outranks(free[j], free[i]) && i < j)
}

/// Three candidates do not go round in a circle.
pub open spec fn no_circle(free: Seq<CandidateView>, i: int, j: int, k: int) -> bool {
    goes_first(free, i, j) && goes_first(free, j, k) ==> goes_first(free, i, k)
}

/// The candidates can be ranked: no three of them go round in a circle. Only
/// scores that are not numbers can make them do so.
pub open spec fn rankable(free: Seq<CandidateView>) -> bool {
    forall|i: int, j: int, k: int|
        0 <= i < free.len() && 0 <= j < free.len() && 0 <= k < free.len() ==> #[trigger] no_circle(
            free,
            i,
            j,
            k,
        )
}

/// `p` lists the positions of the candidates, the best first.
pub open spec fn ranked(free: Seq<CandidateView>, p: Seq<int>) -> bool {
    &&& p.len() == free.len()
    &&& forall|i: int| 0 <= i < p.len() ==> 0 <= #[trigger] p[i] < free.len()
    &&& forall|i: int, j: int|
        0 <= i < j < p.len() ==> goes_first(free, #[trigger] p[i], #[trigger] p[j])
}

/// The candidates, the best first.
pub open spec fn is_schedule(
    found: Seq<CandidateView>,
    all: Tasks,
    leases: Leases,
    attempts: Attempts,
    scores: Seq<u64>,
    tiers: nat,
) -> bool {
    let free = candidates(all, leases, attempts, scores, tiers, all.len() as int);
    exists|p: Seq<int>| #[trigger] ranked(free, p) && found == p.map_values(|k: int| free[k])
}

impl Clone for Candidate {
    fn clone(&self) -> (r: Self)
        ensures
            r@ == self@,
    {
        Candidate {
            id: self.id.clone(),
            goal: self.goal.clone(),
            score_bits: self.score_bits,
            needs_probe: self.needs_probe,
            tier: self.tier,
            resumes: self.resumes,
        }
    }
}

/// Whether the bits of a double-precision number are those of a number.
fn holds_number(bits: u64) -> (r: bool)
    ensures
        r == is_number(bits),
{
    if bits < 0x8000_0000_0000_0000 {
        bits <= 0x7ff0_0000_0000_0000
    } else {
        bits <= 0xfff0_0000_0000_0000
    }
}

/// The order of a double-precision number given by its bits.
fn order_number(bits: u64) -> (n: i128)
    ensures
        n == bits_order(bits),
{
    if bits < 0x8000_0000_0000_0000 {
        bits as i128
    } else {
        0x8000_0000_0000_0000 - (bits as i128)
    }
}

/// Whether a candidate belongs before another.
fn ranks_above(a: &Candidate, b: &Candidate) -> (r: bool)
    ensures
        r == outranks(a@, b@),
{
    let x: i128 = order_number(a.score_bits);
    let y: i128 = order_number(b.score_bits);
    if holds_number(a.score_bits) && holds_number(b.score_bits) && x != y {
        x > y
    } else {
        precedes(a.id.as_str(), b.id.as_str())
    }
}

/// The candidates, in the order of their ids.
fn find_candidates(
    all: &Table<Task>,
    leases: &Table<LeasePayload>,
    attempts: &Table<History>,
    scores: &Vec<u64>,
    tiers: &Vec<u64>,
) -> (free: Vec<Candidate>)
    requires
        scores@.len() == all@.len(),
    ensures
        views(free@) == candidates(
            all@,
            leases@,
            attempts@,
            scores@,
            tiers@.len(),
            all@.len() as int,
        ),
{
    let mut free: Vec<Candidate> = Vec::new();
    let n: usize = all.len();
    assert(views(free@) =~= Seq::<CandidateView>::empty());
    for i in 0..n
        invariant
            n == all@.len(),
            scores@.len() == n,
            views(free@) == candidates(
                all@,
                leases@,
                attempts@,
                scores@,
                tiers@.len(),
                i as int,
            ),
    {
        let t = all.value(i);
        let free_now = match derive(t, all, leases, attempts) {
            Derived::Open => true,
            Derived::Parked => true,
            _ => false,
        };
        if free_now {
            let c = Candidate {
                id: t.id.clone(),
                goal: t.goal.clone(),
                score_bits: scores[i],
                needs_probe: t.accept.len() == 0,
                tier: current_tier(t, attempts, tiers),
                resumes: count_failures(attempts, t.id.as_str()) > 0,
            };
            assert(c@ == candidate(all@[i as int].1, attempts@, scores@[i as int], tiers@.len()));
            proof {
                lemma_views_push(free@, c);
            }
            free.push(c);
        }
    }
    free
}

/// Whether three candidates do not go round in a circle.
fn in_line(free: &Vec<Candidate>, i: usize, j: usize, k: usize) -> (r: bool)
    requires
        i < free@.len(),
        j < free@.len(),
        k < free@.len(),
    ensures
        r == no_circle(views(free@), i as int, j as int, k as int),
{
    !(first_of(free, i, j) && first_of(free, j, k)) || first_of(free, i, k)
}

/// Whether a candidate goes before another.
fn first_of(free: &Vec<Candidate>, i: usize, j: usize) -> (r: bool)
    requires
        i < free@.len(),
        j < free@.len(),
    ensures
        r == goes_first(views(free@), i as int, j as int),
{
    ranks_above(&free[i], &free[j]) || (!ranks_above(&free[j], &free[i]) && i < j)
}

/// Whether no three candidates go round in a circle.
fn form_a_line(free: &Vec<Candidate>) -> (r: bool)
    ensures
        r == rankable(views(free@)),
{
    let ghost f = views(free@);
    let n: usize = free.len();
    let mut numbers = true;
    for i in 0..n
        invariant
            n == free@.len(),
            f == views(free@),
            numbers <==> forall|j: int| 0 <= j < i ==> is_number((#[trigger] f[j]).score_bits),
    {
        assert(f[i as int] == free@[i as int]@);
        if !holds_number(free[i].score_bits) {
            numbers = false;
        }
    }
    if numbers {
        proof {
            law_numbers_can_be_ranked(f);
        }
        return true;
    }
    for i in 0..n
        invariant
            n == free@.len(),
            f == views(free@),
            forall|a: int, b: int, c: int|
                0 <= a < i && 0 <= b < n && 0 <= c < n ==> #[trigger] no_circle(f, a, b, c),
    {
        for j in 0..n
            invariant
                i < n,
                n == free@.len(),
                f == views(free@),
                forall|b: int, c: int|
                    0 <= b < j && 0 <= c < n ==> #[trigger] no_circle(f, i as int, b, c),
        {
            for k in 0..n
                invariant
                    i < n,
                    j < n,
                    n == free@.len(),
                    f == views(free@),
                    forall|c: int|
                        0 <= c < k ==> #[trigger] no_circle(f, i as int, j as int, c),
            {
                if !in_line(free, i, j, k) {
                    return false;
                }
            }
        }
    }
    true
}

/// Whether the candidates can be ranked by these scores. They can unless some
/// score is not a number.
pub fn can_rank(
    all: &Table<Task>,
    leases: &Table<LeasePayload>,
    attempts: &Table<History>,
    scores: &Vec<u64>,
    tiers: &Vec<u64>,
) -> (r: bool)
    requires
        scores@.len() == all@.len(),
    ensures
        r == rankable(
            candidates(all@, leases@, attempts@, scores@, tiers@.len(), all@.len() as int),
        ),
{
    let free = find_candidates(all, leases, attempts, scores, tiers);
    form_a_line(&free)
}

/// The candidates, the best first. `scores` holds the score of each task, in
/// the order of the table.
pub fn schedule(
    all: &Table<Task>,
    leases: &Table<LeasePayload>,
    attempts: &Table<History>,
    scores: &Vec<u64>,
    tiers: &Vec<u64>,
) -> (r: Vec<Candidate>)
    requires
        scores@.len() == all@.len(),
        rankable(candidates(all@, leases@, attempts@, scores@, tiers@.len(), all@.len() as int)),
    ensures
        is_schedule(views(r@), all@, leases@, attempts@, scores@, tiers@.len()),
{
    let free = find_candidates(all, leases, attempts, scores, tiers);
    let ghost f = views(free@);
    let mut p: Vec<usize> = Vec::new();
    for i in 0..free.len()
        invariant
            f == views(free@),
            rankable(f),
            p@.len() == i,
            forall|a: int| 0 <= a < p@.len() ==> #[trigger] p@[a] < i,
            forall|a: int, b: int|
                0 <= a < b < p@.len() ==> goes_first(
                    f,
                    #[trigger] p@[a] as int,
                    #[trigger] p@[b] as int,
                ),
    {
        let mut at: usize = p.len();
        while at > 0 && ranks_above(&free[i], &free[p[at - 1]])
            invariant
                f == views(free@),
                p@.len() == i,
                i < free@.len(),
                at <= p@.len(),
                forall|a: int| 0 <= a < p@.len() ==> #[trigger] p@[a] < i,
                forall|a: int|
                    at <= a < p@.len() ==> outranks(f[i as int], f[#[trigger] p@[a] as int]),
            decreases at,
        {
            at -= 1;
        }
        let ghost q = p@;
        p.insert(at, i);
        assert(forall|a: int| 0 <= a < at ==> #[trigger] p@[a] == q[a]);
        assert(forall|a: int| at < a < p@.len() ==> #[trigger] p@[a] == q[a - 1]);
        assert forall|a: int, b: int| 0 <= a < b < p@.len() implies goes_first(
            f,
            #[trigger] p@[a] as int,
            #[trigger] p@[b] as int,
        ) by {
            if b == at {
                let last = q[at - 1] as int;
                assert(goes_first(f, last, i as int));
                if a < at - 1 {
                    assert(goes_first(f, q[a] as int, last));
                    assert(no_circle(f, q[a] as int, last, i as int));
                }
            } else if a != at {
                let x = if a < at { a } else { a - 1 };
                let y = if b < at { b } else { b - 1 };
                assert(goes_first(f, q[x] as int, q[y] as int));
            }
        }
    }
    let ghost q = positions(p@);
    assert(ranked(f, q)) by {
        assert forall|a: int, b: int| 0 <= a < b < q.len() implies goes_first(
            f,
            #[trigger] q[a],
            #[trigger] q[b],
        ) by {
            assert(goes_first(f, p@[a] as int, p@[b] as int));
        }
    }
    pick(&free, &p)
}

// --------------------------------------------------------------------- leases

/// Whether a lease has been silent for the time to live.
pub fn lease_is_stale(lease: &LeasePayload, now: &Timestamp, ttl_minutes: i64) -> (r: bool)
    ensures
        r == (minutes_between(now@, lease@.heartbeat) >= ttl_minutes),
{
    now.minutes_since(&lease.heartbeat) >= ttl_minutes
}

/// The minutes of a tier, as a signed number; a tier beyond the ladder has none.
pub open spec fn budget_of(tiers: Seq<u64>, tier: usize) -> i64 {
    if tier < tiers.len() {
        tiers[tier as int] as i64
    } else {
        0
    }
}

/// The minutes of a tier.
pub fn tier_budget(tiers: &Vec<u64>, tier: usize) -> (m: i64)
    ensures
        m == budget_of(tiers@, tier),
{
    if tier < tiers.len() {
        tiers[tier] as i64
    } else {
        0
    }
}

/// Whether the heartbeat of a lease goes on: only inside the budget of its
/// tier. Silence at the end of the budget lets the sweep reclaim the task.
pub fn daemon_should_continue(
    acquired: &Timestamp,
    now: &Timestamp,
    tier: usize,
    tiers_minutes: &Vec<u64>,
) -> (r: bool)
    ensures
        r == (minutes_between(now@, acquired@) < budget_of(tiers_minutes@, tier)),
{
    now.minutes_since(acquired) < tier_budget(tiers_minutes, tier)
}

// --------------------------------------------------------------- verification

/// What the verdict gate says of a candidate.
pub open spec fn gate(
    task: Seq<char>,
    head: Seq<char>,
    implementer: Seq<char>,
    verdict: Option<VerdictView>,
    mode: Seq<char>,
) -> std::result::Result<(), ErrorView> {
    if mode == "off"@ {
        Ok(())
    } else {
        match verdict {
            Some(v) if v.verdict == "approve"@ && v.task == task => if v.sha != head {
                Err(ErrorView::VerdictStale { task, verdict_sha: v.sha, head })
            } else if mode == "independent"@ && v.agent == implementer {
                Err(ErrorView::VerdictNotIndependent { task, agent: v.agent })
            } else {
                Ok(())
            },
            _ => Err(ErrorView::VerdictMissing { task, sha: head }),
        }
    }
}

/// The verdict gate on finishing a task.
pub fn verify_gate(
    task_id: &str,
    head: &str,
    implementer: &str,
    verdict: &Option<Verdict>,
    mode: &str,
) -> (r: Result<()>)
    ensures
        unit_view(r) == gate(task_id@, head@, implementer@, opt_view(*verdict), mode@),
{
    if *mode == *"off" {
        return Ok(());
    }
    let v = match verdict {
        Some(v) => v,
        None => {
            return Err(
                Error::VerdictMissing { task: task_id.to_string(), sha: head.to_string() },
            );
        },
    };
    if !(*v.verdict.as_str() == *"approve") || !(*v.task.as_str() == *task_id) {
        return Err(Error::VerdictMissing { task: task_id.to_string(), sha: head.to_string() });
    }
    if !(*v.sha.as_str() == *head) {
        return Err(
            Error::VerdictStale {
                task: task_id.to_string(),
                verdict_sha: v.sha.clone(),
                head: head.to_string(),
            },
        );
    }
    if *mode == *"independent" && *v.agent.as_str() == *implementer {
        return Err(
            Error::VerdictNotIndependent { task: task_id.to_string(), agent: v.agent.clone() },
        );
    }
    Ok(())
}

// ----------------------------------------------------------------------- laws

/// Every failure raises the tier by one until the last tier, where it stays; a
/// tier of a ladder is always one of its tiers.
pub proof fn law_tier_climbs(initial: nat, failed: nat, tiers: nat)
    ensures
        tier_after(initial, failed + 1, tiers) == tier_after(initial, failed, tiers)
            || tier_after(initial, failed + 1, tiers) == tier_after(initial, failed, tiers) + 1,
        tier_after(initial, failed + 1, tiers) == tier_after(initial, failed, tiers) ==> tier_after(
            initial,
            failed,
            tiers,
        ) + 1 >= tiers,
        tiers > 0 ==> tier_after(initial, failed, tiers) < tiers,
        initial < tiers ==> tier_after(initial, 0, tiers) == initial,
{
}

/// An attempt exhausts the ladder exactly when it was made at the last tier;
/// any other attempt leads to the next tier.
pub proof fn law_ladder_ends_at_last_tier(initial: nat, failed: nat, tiers: nat)
    requires
        tiers > 0,
    ensures
        exhausted(initial, failed + 1, tiers) <==> tier_after(initial, failed, tiers) == tiers - 1,
        !exhausted(initial, failed + 1, tiers) ==> tier_after(initial, failed + 1, tiers)
            == tier_after(initial, failed, tiers) + 1,
{
}

/// A task is schedulable exactly when it is stored as open, everything that it
/// depends on is known and done, and nobody holds its lease.
pub proof fn law_schedulable(task: TaskView, all: Tasks, leases: Leases, attempts: Attempts)
    ensures
        schedulable(derived(task, all, leases, attempts)) <==> {
            &&& task.state == TaskState::Open
            &&& lookup(leases, task.id) is None
            &&& forall|d: Seq<char>| #[trigger]
                task.deps.contains(d) ==> (lookup(all, d) is Some && lookup(all, d)->Some_0.state
                    == TaskState::Done)
        },
{
    let p = pending(all);
    let open = task.deps.filter(p);
    if open.len() > 0 {
        assert(open.contains(open[0]));
        lemma_filter_contains(task.deps, p, open[0]);
        assert(p(open[0]));
    } else {
        assert forall|d: Seq<char>| #[trigger] task.deps.contains(d) implies !p(d) by {
            lemma_filter_contains(task.deps, p, d);
        }
    }
}

/// A dependency that is dead or unknown never clears: it keeps an open task
/// blocked, and the task says so.
pub proof fn law_dead_dependency_blocks(
    task: TaskView,
    all: Tasks,
    leases: Leases,
    attempts: Attempts,
    dep: Seq<char>,
)
    requires
        task.state == TaskState::Open,
        task.deps.contains(dep),
        lookup(all, dep) is None || lookup(all, dep)->Some_0.state == TaskState::Dead,
    ensures
        derived(task, all, leases, attempts) is Blocked,
        derived(task, all, leases, attempts)->Blocked_0.contains(dep),
{
    let p = pending(all);
    lemma_filter_contains(task.deps, p, dep);
    assert(p(dep));
}

/// A done or dead task stays so, whatever the leases and attempts.
pub proof fn law_final_states(task: TaskView, all: Tasks, leases: Leases, attempts: Attempts)
    ensures
        task.state == TaskState::Done <==> derived(task, all, leases, attempts) is Done,
        task.state == TaskState::Dead <==> derived(task, all, leases, attempts) is Dead,
{
}

proof fn lemma_candidates(
    all: Tasks,
    leases: Leases,
    attempts: Attempts,
    scores: Seq<u64>,
    tiers: nat,
    n: int,
    c: CandidateView,
)
    requires
        0 <= n <= all.len(),
    ensures
        candidates(all, leases, attempts, scores, tiers, n).contains(c) <==> exists|i: int|
            0 <= i < n && schedulable(derived(#[trigger] all[i].1, all, leases, attempts)) && c
                == candidate(all[i].1, attempts, scores[i], tiers),
    decreases n,
{
    let s = candidates(all, leases, attempts, scores, tiers, n);
    if n > 0 {
        lemma_candidates(all, leases, attempts, scores, tiers, n - 1, c);
        let init = candidates(all, leases, attempts, scores, tiers, n - 1);
        let last = candidate(all[n - 1].1, attempts, scores[n - 1], tiers);
        if init.contains(c) {
            let k = choose|k: int| 0 <= k < init.len() && init[k] == c;
            assert(s[k] == c);
        }
        if schedulable(derived(all[n - 1].1, all, leases, attempts)) {
            assert(s[s.len() - 1] == last);
            if s.contains(c) && !init.contains(c) {
                let k = choose|k: int| 0 <= k < s.len() && s[k] == c;
                assert(k == s.len() - 1) by {
                    if k < s.len() - 1 {
                        assert(init[k] == c);
                    }
                }
            }
        }
    }
}

proof fn lemma_outranks(a: CandidateView, b: CandidateView)
    ensures
        !(outranks(a, b) && outranks(b, a)),
        is_number(a.score_bits) && is_number(b.score_bits) ==> (outranks(a, b) <==> key_lt(
            (-bits_order(a.score_bits), a.id),
            (-bits_order(b.score_bits), b.id),
        )),
{
    lemma_key_lt_total((0, a.id), (0, b.id));
}

/// Candidates can always be ranked where all their scores are numbers, and where
/// there are no more than two.
pub proof fn law_numbers_can_be_ranked(free: Seq<CandidateView>)
    requires
        free.len() <= 2 || forall|i: int|
            0 <= i < free.len() ==> is_number((#[trigger] free[i]).score_bits),
    ensures
        rankable(free),
{
    assert forall|i: int, j: int, k: int|
        0 <= i < free.len() && 0 <= j < free.len() && 0 <= k < free.len() implies #[trigger]
        no_circle(free, i, j, k) by {
        let (a, b, c) = (free[i], free[j], free[k]);
        lemma_outranks(a, b);
        lemma_outranks(b, a);
        lemma_outranks(b, c);
        lemma_outranks(c, b);
        lemma_outranks(a, c);
        lemma_outranks(c, a);
        if free.len() > 2 {
            let x = (-bits_order(a.score_bits), a.id);
            let y = (-bits_order(b.score_bits), b.id);
            let z = (-bits_order(c.score_bits), c.id);
            lemma_key_lt_total(x, y);
            lemma_key_lt_total(y, z);
            lemma_key_lt_total(x, z);
            if key_lt(x, y) && key_lt(y, z) {
                lemma_key_lt_transitive(x, y, z);
            }
        }
    }
}

/// A ranking lists every candidate exactly once, and there is only one.
pub proof fn law_ranking(free: Seq<CandidateView>, p: Seq<int>, q: Seq<int>)
    requires
        ranked(free, p),
        ranked(free, q),
    ensures
        p.no_duplicates(),
        forall|k: int| 0 <= k < free.len() ==> p.contains(k),
        p == q,
{
    lemma_ranking_covers(free, p);
    lemma_ranking_covers(free, q);
    lemma_rankings_agree(free, p, q, p.len() as int);
    assert(p.take(p.len() as int) =~= p);
    assert(q.take(q.len() as int) =~= q);
}

proof fn lemma_goes_first(free: Seq<CandidateView>, i: int, j: int)
    ensures
        !(goes_first(free, i, j) && goes_first(free, j, i)),
{
    lemma_outranks(free[i], free[j]);
}

proof fn lemma_ranking_covers(free: Seq<CandidateView>, p: Seq<int>)
    requires
        ranked(free, p),
    ensures
        p.no_duplicates(),
        forall|k: int| 0 <= k < free.len() ==> p.contains(k),
{
    assert forall|i: int, j: int| 0 <= i < p.len() && 0 <= j < p.len() && i != j implies p[i]
        != p[j] by {
        lemma_goes_first(free, p[i], p[i]);
        if i < j {
            assert(goes_first(free, p[i], p[j]));
        } else {
            assert(goes_first(free, p[j], p[i]));
        }
    }
    lemma_distinct_positions(p, free.len());
}

proof fn lemma_rankings_agree(free: Seq<CandidateView>, p: Seq<int>, q: Seq<int>, n: int)
    requires
        ranked(free, p),
        ranked(free, q),
        forall|k: int| 0 <= k < free.len() ==> p.contains(k),
        forall|k: int| 0 <= k < free.len() ==> q.contains(k),
        p.no_duplicates(),
        q.no_duplicates(),
        0 <= n <= p.len(),
    ensures
        p.take(n) == q.take(n),
    decreases n,
{
    if n > 0 {
        let i = n - 1;
        lemma_rankings_agree(free, p, q, i);
        assert forall|j: int| 0 <= j < i implies p[j] == q[j] by {
            assert(p.take(i)[j] == q.take(i)[j]);
        }
        if p[i] != q[i] {
            assert(q.contains(p[i]));
            assert(p.contains(q[i]));
            let a = choose|a: int| 0 <= a < q.len() && q[a] == p[i];
            let b = choose|b: int| 0 <= b < p.len() && p[b] == q[i];
            assert(a > i) by {
                if a < i {
                    assert(p[a] == p[i]);
                }
            }
            assert(b > i) by {
                if b < i {
                    assert(q[b] == q[i]);
                }
            }
            assert(goes_first(free, q[i], q[a]));
            assert(goes_first(free, p[i], p[b]));
            lemma_goes_first(free, p[i], q[i]);
        }
        assert(p.take(n) =~= q.take(n));
    }
}

/// The schedule holds exactly the schedulable tasks, never one that is leased,
/// and no candidate stands behind one that it outranks: among numbers no score is
/// followed by a higher one, and among equal scores the ids ascend.
pub proof fn law_schedule(
    found: Seq<CandidateView>,
    all: Tasks,
    leases: Leases,
    attempts: Attempts,
    scores: Seq<u64>,
    tiers: nat,
)
    requires
        scores.len() == all.len(),
        is_schedule(found, all, leases, attempts, scores, tiers),
    ensures
        forall|c: CandidateView| #[trigger]
            found.contains(c) <==> exists|i: int|
                0 <= i < all.len() && schedulable(
                    derived(#[trigger] all[i].1, all, leases, attempts),
                ) && c == candidate(all[i].1, attempts, scores[i], tiers),
        forall|c: CandidateView| #[trigger] found.contains(c) ==> lookup(leases, c.id) is None,
        forall|i: int, j: int|
            0 <= i < j < found.len() ==> {
                let (a, b) = (#[trigger] found[i], #[trigger] found[j]);
                &&& !outranks(b, a)
                &&& is_number(a.score_bits) && is_number(b.score_bits) ==> bits_order(a.score_bits)
                    >= bits_order(b.score_bits)
                &&& bits_order(a.score_bits) == bits_order(b.score_bits) ==> !lex_lt(
                    b.id,
                    a.id,
                )
            },
{
    let free = candidates(all, leases, attempts, scores, tiers, all.len() as int);
    let p = choose|p: Seq<int>| #[trigger]
        ranked(free, p) && found == p.map_values(|k: int| free[k]);
    law_ranking(free, p, p);
    assert forall|c: CandidateView| #[trigger]
        found.contains(c) <==> exists|i: int|
            0 <= i < all.len() && schedulable(derived(#[trigger] all[i].1, all, leases, attempts))
                && c == candidate(all[i].1, attempts, scores[i], tiers) by {
        lemma_candidates(all, leases, attempts, scores, tiers, all.len() as int, c);
        if found.contains(c) {
            let i = choose|i: int| 0 <= i < found.len() && found[i] == c;
            assert(free[p[i]] == c);
        }
        if free.contains(c) {
            let k = choose|k: int| 0 <= k < free.len() && free[k] == c;
            assert(p.contains(k));
            let i = choose|i: int| 0 <= i < p.len() && p[i] == k;
            assert(found[i] == c);
        }
    }
    assert forall|c: CandidateView| #[trigger] found.contains(c) implies lookup(
        leases,
        c.id,
    ) is None by {
        let i = choose|i: int|
            0 <= i < all.len() && schedulable(derived(#[trigger] all[i].1, all, leases, attempts))
                && c == candidate(all[i].1, attempts, scores[i], tiers);
        law_schedulable(all[i].1, all, leases, attempts);
    }
    assert forall|i: int, j: int| 0 <= i < j < found.len() implies {
        let (a, b) = (#[trigger] found[i], #[trigger] found[j]);
        &&& !outranks(b, a)
        &&& is_number(a.score_bits) && is_number(b.score_bits) ==> bits_order(a.score_bits)
            >= bits_order(b.score_bits)
        &&& bits_order(a.score_bits) == bits_order(b.score_bits) ==> !lex_lt(
            b.id,
            a.id,
        )
    } by {
        assert(goes_first(free, p[i], p[j]));
        lemma_outranks(found[i], found[j]);
    }
}

/// In the independent mode only another agent's approval of the exact candidate
/// passes the verdict gate.
pub proof fn law_independent_gate(
    task: Seq<char>,
    head: Seq<char>,
    implementer: Seq<char>,
    verdict: Option<VerdictView>,
)
    ensures
        gate(task, head, implementer, verdict, "independent"@) is Ok <==> match verdict {
            Some(v) => v.verdict == "approve"@ && v.task == task && v.sha == head && v.agent
                != implementer,
            None => false,
        },
{
    reveal_strlit("off");
    reveal_strlit("independent");
    assert("off"@.len() != "independent"@.len());
}

/// The mode `any` also takes the implementer's own approval; nothing else about
/// the verdict gate changes.
pub proof fn law_any_gate(
    task: Seq<char>,
    head: Seq<char>,
    implementer: Seq<char>,
    verdict: Option<VerdictView>,
)
    ensures
        gate(task, head, implementer, verdict, "any"@) is Ok <==> match verdict {
            Some(v) => v.verdict == "approve"@ && v.task == task && v.sha == head,
            None => false,
        },
        gate(task, head, implementer, verdict, "independent"@) is Ok ==> gate(
            task,
            head,
            implementer,
            verdict,
            "any"@,
        ) is Ok,
        gate(task, head, implementer, verdict, "off"@) is Ok,
{
    reveal_strlit("off");
    reveal_strlit("any");
    reveal_strlit("independent");
    assert("off"@[0] != "any"@[0]);
    assert("any"@.len() != "independent"@.len());
    law_independent_gate(task, head, implementer, verdict);
}

/// Whatever the verdict gate refuses ends with exit code five.
pub proof fn law_gate_exit_code(
    task: Seq<char>,
    head: Seq<char>,
    implementer: Seq<char>,
    verdict: Option<VerdictView>,
    mode: Seq<char>,
)
    ensures
        gate(task, head, implementer, verdict, mode) matches Err(e) ==> exit_code_of(
            e,
        ) == 5,
{
}

/// Outside leap seconds, a lease that is stale stays stale until a heartbeat,
/// and a budget that is spent stays spent.
pub proof fn law_silence_lasts(
    start: (i64, u32),
    now: (i64, u32),
    later: (i64, u32),
    limit: int,
)
    requires
        !earlier(later, now),
        start.1 < NANOS_PER_SECOND,
        now.1 < NANOS_PER_SECOND,
        later.1 < NANOS_PER_SECOND,
        minutes_between(now, start) >= limit,
    ensures
        minutes_between(later, start) >= limit,
{
    law_minutes_monotone_outside_leaps(now, later, start);
}

/// The order of scores that are numbers: among those without a sign bit it is
/// that of their bits, among the others the reverse, and the former are never
/// below the latter.
pub proof fn law_bits_order(a: u64, b: u64)
    ensures
        a < 0x8000_0000_0000_0000 && b < 0x8000_0000_0000_0000 ==> (a <= b <==> bits_order(a)
            <= bits_order(b)),
        a >= 0x8000_0000_0000_0000 && b >= 0x8000_0000_0000_0000 ==> (a <= b <==> bits_order(a)
            >= bits_order(b)),
        a < 0x8000_0000_0000_0000 && b >= 0x8000_0000_0000_0000 ==> bits_order(a) >= bits_order(b),
{
}

/// The tier of a task is its initial tier plus one for each attempt on record,
/// as long as the ladder has such a tier; beyond that it is the last, and on a
/// ladder without tiers it is zero.
pub proof fn law_tier_counts_attempts(
    task: TaskView,
    attempts: Attempts,
    records: Seq<AttemptRecordView>,
    tiers: nat,
)
    requires
        lookup(attempts, task.id) == Some(records) || (lookup(attempts, task.id) is None
            && records.len() == 0),
    ensures
        ({
            let tier = tier_after(
                task.tier_initial as nat,
                failures(attempts, task.id),
                tiers,
            );
            &&& task.tier_initial + records.len() < tiers ==> tier == task.tier_initial
                + records.len()
            &&& task.tier_initial + records.len() >= tiers && tiers > 0 ==> tier == tiers - 1
            &&& tiers == 0 ==> tier == 0
        }),
{
}

/// The ladder is exhausted once the initial tier and the attempts together reach
/// the number of tiers, and stays so with every further attempt.
pub proof fn law_exhaustion_lasts(initial: nat, attempts: nat, more: nat, tiers: nat)
    ensures
        exhausted(initial, attempts, tiers) <==> initial + attempts >= tiers,
        exhausted(initial, attempts, tiers) ==> exhausted(initial, attempts + more, tiers),
        exhausted(initial, tiers, tiers),
        initial < tiers ==> !exhausted(initial, (tiers - initial - 1) as nat, tiers),
{
}

/// The derived state of a task, read off its fields: a stored end is final, an
/// open task waits for exactly the dependencies that are not known to be done, in
/// the order in which it names them; free of those it belongs to the agent of its
/// lease; and a free task is parked exactly when an attempt is on record.
pub proof fn law_derived_states(task: TaskView, all: Tasks, leases: Leases, attempts: Attempts)
    ensures
        ({
            let d = derived(task, all, leases, attempts);
            let waits = task.deps.filter(
                |dep: Seq<char>|
                    !(lookup(all, dep) is Some && lookup(all, dep)->Some_0.state
                        == TaskState::Done),
            );
            &&& d is Done <==> task.state == TaskState::Done
            &&& d is Dead <==> task.state == TaskState::Dead
            &&& d is Blocked <==> task.state == TaskState::Open && waits.len() > 0
            &&& d is Blocked ==> d->Blocked_0 == waits
            &&& d is Leased <==> task.state == TaskState::Open && waits.len() == 0 && lookup(
                leases,
                task.id,
            ) is Some
            &&& d is Leased ==> d->Leased_0 == lookup(leases, task.id)->Some_0.agent
            &&& d is Parked <==> task.state == TaskState::Open && waits.len() == 0 && lookup(
                leases,
                task.id,
            ) is None && lookup(attempts, task.id) is Some && lookup(
                attempts,
                task.id,
            )->Some_0.len() > 0
        }),
{
    let p = pending(all);
    let q = |dep: Seq<char>|
        !(lookup(all, dep) is Some && lookup(all, dep)->Some_0.state == TaskState::Done);
    assert(p =~= q);
}

/// The unblock count of an id is the number of entries that are stored as open and
/// name the id among their dependencies: an empty graph has none, and each entry
/// adds one exactly when it is such an entry.
pub proof fn law_unblocks_counts_open_dependents(
    all: Tasks,
    entry: (Seq<char>, TaskView),
    id: Seq<char>,
)
    ensures
        Seq::<(Seq<char>, TaskView)>::empty().filter(waits_for(id)).len() == 0,
        all.push(entry).filter(waits_for(id)).len() == all.filter(waits_for(id)).len() + (
        if entry.1.state == TaskState::Open && entry.1.deps.contains(id) {
            1int
        } else {
            0int
        }),
{
    reveal(Seq::filter);
    assert(all.push(entry).drop_last() =~= all);
}

/// The unblock count depends on nothing but the states and the dependencies of
/// the tasks: goals, values, acceptance tests, context and tiers may change.
pub proof fn law_unblocks_ignores_the_rest(all: Tasks, other: Tasks, id: Seq<char>)
    requires
        all.len() == other.len(),
        forall|i: int|
            0 <= i < all.len() ==> (#[trigger] all[i]).1.state == other[i].1.state
                && all[i].1.deps == other[i].1.deps,
    ensures
        all.filter(waits_for(id)).len() == other.filter(waits_for(id)).len(),
    decreases all.len(),
{
    if all.len() > 0 {
        let a = all.drop_last();
        let b = other.drop_last();
        assert forall|i: int| 0 <= i < a.len() implies (#[trigger] a[i]).1.state == b[i].1.state
            && a[i].1.deps == b[i].1.deps by {
            assert(a[i] == all[i]);
        }
        law_unblocks_ignores_the_rest(a, b, id);
        law_unblocks_counts_open_dependents(a, all.last(), id);
        law_unblocks_counts_open_dependents(b, other.last(), id);
        assert(a.push(all.last()) =~= all);
        assert(b.push(other.last()) =~= other);
        assert(all[all.len() - 1].1.state == other[all.len() - 1].1.state);
    } else {
        assert(all =~= Seq::<(Seq<char>, TaskView)>::empty());
        assert(other =~= Seq::<(Seq<char>, TaskView)>::empty());
    }
}

/// A candidate tells of its task: it has the task's id and goal and the score that
/// was given for it, it needs a probe exactly when the task has no acceptance
/// tests, and it resumes exactly when an attempt at the task is on record.
pub proof fn law_candidate_tells_of_its_task(
    task: TaskView,
    attempts: Attempts,
    score_bits: u64,
    tiers: nat,
)
    ensures
        ({
            let c = candidate(task, attempts, score_bits, tiers);
            &&& c.id == task.id
            &&& c.goal == task.goal
            &&& c.score_bits == score_bits
            &&& c.needs_probe <==> task.accept.len() == 0
            &&& c.resumes <==> lookup(attempts, task.id) is Some && lookup(
                attempts,
                task.id,
            )->Some_0.len() > 0
            &&& tiers > 0 && tiers <= usize::MAX ==> c.tier < tiers
            &&& tiers <= usize::MAX && task.tier_initial + failures(attempts, task.id) < tiers
                ==> c.tier == task.tier_initial + failures(attempts, task.id)
        }),
{
}

/// What is older is never less stale, and what lies in the future is not stale at
/// all: the age is the whole minutes since the creation where those are positive.
pub proof fn law_age(created: (i64, u32), now: (i64, u32))
    ensures
        age(created, now) >= 0,
        age(created, now) >= minutes_between(now, created),
        age(created, now) == 0 || age(created, now) == minutes_between(now, created),
{
}

/// The bits of a score are those of a number exactly when they do not have all
/// exponent bits set together with some bit of the fraction.
pub proof fn law_is_number(bits: u64)
    ensures
        is_number(bits) <==> !((bits & 0x7ff0_0000_0000_0000) == 0x7ff0_0000_0000_0000 && (bits
            & 0x000f_ffff_ffff_ffff) != 0),
{
    assert((if bits < 0x8000_0000_0000_0000 {
        bits <= 0x7ff0_0000_0000_0000
    } else {
        bits <= 0xfff0_0000_0000_0000
    }) <==> !((bits & 0x7ff0_0000_0000_0000) == 0x7ff0_0000_0000_0000 && (bits
        & 0x000f_ffff_ffff_ffff) != 0)) by (bit_vector);
}

/// Among numbers the higher score goes first, and equal scores, the two zeros
/// included, go by id; a score that is not a number leaves it to the id.
pub proof fn law_outranks(a: CandidateView, b: CandidateView)
    ensures
        a.score_bits < b.score_bits < 0x7ff0_0000_0000_0001 ==> outranks(b, a) && !outranks(a, b),
        0x8000_0000_0000_0000 <= a.score_bits < b.score_bits < 0xfff0_0000_0000_0001 ==> outranks(
            a,
            b,
        ) && !outranks(b, a),
        0 < a.score_bits < 0x7ff0_0000_0000_0001 && 0x8000_0000_0000_0000 <= b.score_bits
            < 0xfff0_0000_0000_0001 ==> outranks(a, b) && !outranks(b, a),
        a.score_bits == 0 && 0x8000_0000_0000_0000 < b.score_bits < 0xfff0_0000_0000_0001
            ==> outranks(a, b) && !outranks(b, a),
        a.score_bits == b.score_bits ==> (outranks(a, b) <==> lex_lt(a.id, b.id)),
        a.score_bits == 0 && b.score_bits == 0x8000_0000_0000_0000 ==> (outranks(a, b) <==> lex_lt(
            a.id,
            b.id,
        )) && (outranks(b, a) <==> lex_lt(b.id, a.id)),
        (a.score_bits > 0x7ff0_0000_0000_0000 && a.score_bits < 0x8000_0000_0000_0000)
            || a.score_bits > 0xfff0_0000_0000_0000 ==> (outranks(a, b) <==> lex_lt(a.id, b.id)) && (
        outranks(b, a) <==> lex_lt(b.id, a.id)),
{
}

/// A tier has the minutes that the policy gives it, and a tier beyond the ladder
/// has none.
pub proof fn law_budget(tiers: Seq<u64>, tier: usize)
    ensures
        tier < tiers.len() && tiers[tier as int] <= i64::MAX ==> budget_of(tiers, tier)
            == tiers[tier as int],
        tier >= tiers.len() ==> budget_of(tiers, tier) == 0,
{
}

/// The verdict gate says what is missing, whatever the mode: where any verdict is
/// asked for, a candidate without an approval of the task is without a verdict, an
/// approval of another commit is stale and names both commits, and the
/// implementer's own approval of the right commit is refused in the independent
/// mode alone, by the name of the judge.
pub proof fn law_gate_says_what_is_missing(
    task: Seq<char>,
    head: Seq<char>,
    implementer: Seq<char>,
    verdict: Option<VerdictView>,
    mode: Seq<char>,
)
    ensures
        ({
            let r = gate(task, head, implementer, verdict, mode);
            let approved = verdict is Some && verdict->Some_0.verdict == "approve"@
                && verdict->Some_0.task == task;
            let v = verdict->Some_0;
            &&& mode == "off"@ ==> r is Ok
            &&& mode != "off"@ && !approved ==> r == Err::<(), ErrorView>(
                ErrorView::VerdictMissing { task, sha: head },
            )
            &&& mode != "off"@ && approved && v.sha != head ==> r == Err::<(), ErrorView>(
                ErrorView::VerdictStale { task, verdict_sha: v.sha, head },
            )
            &&& mode != "off"@ && approved && v.sha == head && mode == "independent"@ && v.agent
                == implementer ==> r == Err::<(), ErrorView>(
                ErrorView::VerdictNotIndependent { task, agent: implementer },
            )
            &&& mode != "off"@ && approved && v.sha == head && (mode != "independent"@ || v.agent
                != implementer) ==> r is Ok
        }),
{
}

/// The candidates are found task by task: one that is open, whose dependencies are
/// all done and that nobody holds is a candidate with its score, and no other is.
pub proof fn law_candidates_in_turn(
    all: Tasks,
    leases: Leases,
    attempts: Attempts,
    scores: Seq<u64>,
    tiers: nat,
    n: int,
)
    requires
        0 <= n < all.len(),
    ensures
        candidates(all, leases, attempts, scores, tiers, 0) == Seq::<CandidateView>::empty(),
        ({
            let task = all[n].1;
            let free = task.state == TaskState::Open && lookup(leases, task.id) is None && forall|
                j: int,
            |
                0 <= j < task.deps.len() ==> lookup(all, #[trigger] task.deps[j]) is Some
                    && lookup(all, task.deps[j])->Some_0.state == TaskState::Done;
            let before = candidates(all, leases, attempts, scores, tiers, n);
            let more = candidates(all, leases, attempts, scores, tiers, n + 1);
            &&& free ==> more == before.push(candidate(task, attempts, scores[n], tiers))
            &&& !free ==> more == before
        }),
{
    let task = all[n].1;
    let p = pending(all);
    let open = task.deps.filter(p);
    assert forall|j: int| 0 <= j < task.deps.len() && open.len() == 0 implies lookup(
        all,
        #[trigger] task.deps[j],
    ) is Some && lookup(all, task.deps[j])->Some_0.state == TaskState::Done by {
        assert(task.deps.contains(task.deps[j]));
        lemma_filter_contains(task.deps, p, task.deps[j]);
    }
    if open.len() > 0 {
        assert(open.contains(open[0]));
        lemma_filter_contains(task.deps, p, open[0]);
        let j = choose|j: int| 0 <= j < task.deps.len() && task.deps[j] == open[0];
        assert(p(task.deps[j]));
    }
}

/// A schedule holds every candidate once. The better score comes first, then the
/// smaller id, and what is equal in both stays in the order of the tasks.
pub proof fn law_schedule_order(
    found: Seq<CandidateView>,
    all: Tasks,
    leases: Leases,
    attempts: Attempts,
    scores: Seq<u64>,
    tiers: nat,
) -> (p: Seq<int>)
    requires
        is_schedule(found, all, leases, attempts, scores, tiers),
    ensures
        ({
            let free = candidates(all, leases, attempts, scores, tiers, all.len() as int);
            &&& found.len() == free.len()
            &&& p.len() == free.len()
            &&& forall|i: int|
                0 <= i < p.len() ==> 0 <= #[trigger] p[i] < free.len() && found[i] == free[p[i]]
            &&& forall|i: int, j: int|
                0 <= i < j < p.len() ==> #[trigger] p[i] != #[trigger] p[j] && (outranks(
                    found[i],
                    found[j],
                ) || (!outranks(found[j], found[i]) && p[i] < p[j]))
        }),
{
    let free = candidates(all, leases, attempts, scores, tiers, all.len() as int);
    let p = choose|p: Seq<int>| #[trigger]
        ranked(free, p) && found == p.map_values(|k: int| free[k]);
    assert forall|i: int, j: int| 0 <= i < j < p.len() implies #[trigger] p[i] != #[trigger] p[j]
        && (outranks(found[i], found[j]) || (!outranks(found[j], found[i]) && p[i] < p[j])) by {
        assert(goes_first(free, p[i], p[j]));
        if p[i] == p[j] {
            law_lex_irreflexive(found[i].id);
        }
    }
    p
}

} // verus!
