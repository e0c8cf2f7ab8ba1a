//! The learning loop: what the history of the fleet says about its policy and
//! its knowledge.

use crate::json::{json_number, json_texts, number_field, stamped_texts, text_at, text_field};
use crate::knowledge::{are_candidates, knowledge_candidates, KnowledgeCandidate};
use crate::model::{AttemptRecordView, History};
use crate::order::lemma_filter_take;
use crate::protocol::Attempts;
use crate::table::Table;
use crate::text::{decimal, decimal_text, opt_view, views};
use vstd::prelude::*;

verus! {

// --------------------------------------------------------------------- counts

/// A telemetry record of something merged.
pub open spec fn is_merged() -> spec_fn(Seq<char>) -> bool {
    |record: Seq<char>| text_at(json_texts(record), "outcome"@) == Some("merged"@)
}

/// The review cycles that the merged records tell of, as the bits of
/// double-precision numbers, in their order.
pub open spec fn cycles_in(records: Seq<Seq<char>>) -> Seq<u64>
    decreases records.len(),
{
    if records.len() == 0 {
        Seq::empty()
    } else {
        let init = cycles_in(records.drop_last());
        match json_number(records.last(), "review_cycles"@) {
            Some(bits) if is_merged()(records.last()) => init.push(bits),
            _ => init,
        }
    }
}

/// How many attempts there are.
pub open spec fn total(attempts: Attempts) -> nat
    decreases attempts.len(),
{
    if attempts.len() == 0 {
        0
    } else {
        total(attempts.drop_last()) + attempts.last().1.len()
    }
}

/// A task that was attempted.
pub open spec fn was_attempted() -> spec_fn((Seq<char>, Seq<AttemptRecordView>)) -> bool {
    |e: (Seq<char>, Seq<AttemptRecordView>)| e.1.len() > 0
}

/// A task with as many attempts as there are tiers.
pub open spec fn used_all(tiers: nat) -> spec_fn((Seq<char>, Seq<AttemptRecordView>)) -> bool {
    |e: (Seq<char>, Seq<AttemptRecordView>)| e.1.len() >= tiers
}

/// An attempt that a review ended.
pub open spec fn was_rejected() -> spec_fn(AttemptRecordView) -> bool {
    |a: AttemptRecordView| a.outcome == "review-reject"@
}

/// How many attempts a review ended.
pub open spec fn rejects(attempts: Attempts) -> nat
    decreases attempts.len(),
{
    if attempts.len() == 0 {
        0
    } else {
        rejects(attempts.drop_last()) + attempts.last().1.filter(was_rejected()).len()
    }
}

/// The numbers of a report.
#[derive(Debug, Clone, Copy, PartialEq, Eq)]
pub struct Counts {
    /// Telemetry records of something merged.
    pub merged: usize,
    /// Telemetry records.
    pub telemetry_records: usize,
    /// Attempts.
    pub attempts_total: u128,
    /// Tasks that were attempted.
    pub tasks_with_attempts: usize,
    /// Attempts that a review ended.
    pub review_rejects: u128,
    /// Tasks with as many attempts as there are tiers.
    pub ladder_exhaustions: usize,
}

/// How many records tell of something merged.
fn count_merged(records: &Vec<String>) -> (n: usize)
    ensures
        n == views(records@).filter(is_merged()).len(),
{
    let ghost all = views(records@);
    let ghost p = is_merged();
    let mut n: usize = 0;
    proof {
        lemma_filter_take(all, p, 0);
    }
    for i in 0..records.len()
        invariant
            all == views(records@),
            p == is_merged(),
            n == all.take(i as int).filter(p).len(),
            n <= i,
    {
        proof {
            lemma_filter_take(all, p, i as int);
            assert(all[i as int] == records@[i as int]@);
        }
        if merges(records[i].as_str()) {
            n += 1;
        }
    }
    proof {
        lemma_filter_take(all, p, all.len() as int);
    }
    n
}

/// Whether a record tells of something merged.
fn merges(record: &str) -> (r: bool)
    ensures
        r == is_merged()(record@),
{
    match text_field(record, "outcome") {
        Some(outcome) => *outcome.as_str() == *"merged",
        None => false,
    }
}

/// The review cycles that the merged records tell of.
fn review_cycles(records: &Vec<String>) -> (r: Vec<u64>)
    ensures
        r@ == cycles_in(views(records@)),
{
    let ghost all = views(records@);
    let mut r: Vec<u64> = Vec::new();
    assert(r@ =~= cycles_in(all.take(0)));
    for i in 0..records.len()
        invariant
            all == views(records@),
            r@ == cycles_in(all.take(i as int)),
    {
        proof {
            assert(all.take(i + 1).drop_last() =~= all.take(i as int));
            assert(all.take(i + 1).last() == records@[i as int]@);
        }
        if merges(records[i].as_str()) {
            if let Some(bits) = number_field(records[i].as_str(), "review_cycles") {
                r.push(bits);
            }
        }
    }
    assert(all.take(all.len() as int) =~= all);
    r
}

/// How many of some attempts a review ended.
fn count_rejects(history: &History) -> (n: usize)
    ensures
        n == history@.filter(was_rejected()).len(),
        n <= history@.len(),
{
    let ghost all = history@;
    let ghost p = was_rejected();
    let mut n: usize = 0;
    proof {
        lemma_filter_take(all, p, 0);
    }
    for i in 0..history.records.len()
        invariant
            all == history@,
            p == was_rejected(),
            n == all.take(i as int).filter(p).len(),
            n <= i,
    {
        proof {
            lemma_filter_take(all, p, i as int);
            assert(all[i as int] == history.records@[i as int]@);
        }
        if *history.records[i].outcome.as_str() == *"review-reject" {
            n += 1;
        }
    }
    proof {
        lemma_filter_take(all, p, all.len() as int);
    }
    n
}

/// The numbers of the history.
pub fn count(records: &Vec<String>, attempts: &Table<History>, tiers: &Vec<u64>) -> (r: Counts)
    ensures
        r.merged == views(records@).filter(is_merged()).len(),
        r.telemetry_records == records@.len(),
        r.attempts_total == total(attempts@),
        r.tasks_with_attempts == attempts@.filter(was_attempted()).len(),
        r.review_rejects == rejects(attempts@),
        r.ladder_exhaustions == attempts@.filter(used_all(tiers@.len())).len(),
{
    let mut attempts_total: u128 = 0;
    let mut tasks_with_attempts: usize = 0;
    let mut review_rejects: u128 = 0;
    let mut ladder_exhaustions: usize = 0;
    let n: usize = attempts.len();
    let ghost t = attempts@;
    let ghost p = was_attempted();
    let ghost q = used_all(tiers@.len());
    proof {
        lemma_filter_take(t, p, 0);
        lemma_filter_take(t, q, 0);
    }
    for i in 0..n
        invariant
            t == attempts@,
            n == t.len(),
            p == was_attempted(),
            q == used_all(tiers@.len()),
            attempts_total == total(t.take(i as int)),
            attempts_total <= i * 0xffff_ffff_ffff_ffff,
            tasks_with_attempts == t.take(i as int).filter(p).len(),
            tasks_with_attempts <= i,
            review_rejects == rejects(t.take(i as int)),
            review_rejects <= i * 0xffff_ffff_ffff_ffff,
            ladder_exhaustions == t.take(i as int).filter(q).len(),
            ladder_exhaustions <= i,
    {
        let history = attempts.value(i);
        proof {
            lemma_filter_take(t, p, i as int);
            lemma_filter_take(t, q, i as int);
            assert(t.take(i + 1).drop_last() =~= t.take(i as int));
            assert(i <= 0xffff_ffff_ffff_fffe);
        }
        let len: usize = history.records.len();
        attempts_total = attempts_total + len as u128;
        review_rejects = review_rejects + count_rejects(history) as u128;
        if len > 0 {
            tasks_with_attempts += 1;
        }
        if len >= tiers.len() {
            ladder_exhaustions += 1;
        }
    }
    proof {
        lemma_filter_take(t, p, t.len() as int);
        lemma_filter_take(t, q, t.len() as int);
        assert(t.take(t.len() as int) =~= t);
    }
    Counts {
        merged: count_merged(records),
        telemetry_records: records.len(),
        attempts_total,
        tasks_with_attempts,
        review_rejects,
        ladder_exhaustions,
    }
}

// ---------------------------------------------------------------- suggestions

/// Attempted tasks take two attempts on average, or more.
pub open spec fn attempts_are_many(c: Counts) -> bool {
    c.tasks_with_attempts > 0 && c.attempts_total >= 2 * c.tasks_with_attempts
}

/// Reviews end a third of the attempts, or more.
pub open spec fn rejects_are_many(c: Counts) -> bool {
    c.attempts_total > 0 && 3 * c.review_rejects >= c.attempts_total
}

/// The minutes of the first tier.
pub open spec fn first_tier(tiers: Seq<u64>) -> u64 {
    if tiers.len() > 0 {
        tiers[0]
    } else {
        0
    }
}

/// A suggestion, where it applies.
pub open spec fn said_if(applies: bool, text: Seq<char>) -> Seq<Seq<char>> {
    if applies {
        seq![text]
    } else {
        Seq::empty()
    }
}

/// The changes of policy that the numbers suggest. `mean_attempts` is the mean
/// number of attempts of an attempted task, and `mean_review` the mean number of
/// review cycles where it is too high, both as texts.
pub open spec fn suggested(
    c: Counts,
    tiers: Seq<u64>,
    mean_attempts: Seq<char>,
    mean_review: Option<Seq<char>>,
) -> Seq<Seq<char>> {
    said_if(
        attempts_are_many(c),
        "mean attempts/task = "@ + mean_attempts
            + ": probes are under-specifying; raise tier-0 minutes ("@ + decimal(
            first_tier(tiers) as nat,
        ) + " now) or demand stricter acceptance tests at probe-done"@,
    ) + said_if(
        rejects_are_many(c),
        "review-reject rate ≥ 33% of attempts: implementations are gaming or missing specs; tighten acceptance tests before execution"@,
    ) + said_if(
        c.ladder_exhaustions > 0,
        decimal(c.ladder_exhaustions as nat)
            + " task(s) exhausted the ladder: decomposition is happening too late; lower the size threshold at probe time"@,
    ) + match mean_review {
        Some(mean) => seq![
            "mean review cycles = "@ + mean
                + ": candidates arrive under-verified; run the mechanical gate before requesting verdicts"@,
        ],
        None => Seq::empty(),
    }
}

/// The changes of policy that the numbers suggest.
pub fn suggestions(
    c: &Counts,
    tiers: &Vec<u64>,
    mean_attempts: &str,
    mean_review: &Option<String>,
) -> (r: Vec<String>)
    ensures
        views(r@) == suggested(*c, tiers@, mean_attempts@, opt_view(*mean_review)),
{
    let mut r: Vec<String> = Vec::new();
    if c.tasks_with_attempts > 0 && c.attempts_total >= 2 * (c.tasks_with_attempts as u128) {
        let minutes: u64 = if tiers.len() > 0 {
            tiers[0]
        } else {
            0
        };
        let mut s = "mean attempts/task = ".to_string();
        s.append(mean_attempts);
        s.append(": probes are under-specifying; raise tier-0 minutes (");
        s.append(decimal_text(minutes).as_str());
        s.append(" now) or demand stricter acceptance tests at probe-done");
        r.push(s);
    }
    let third: u128 = c.attempts_total / 3;
    let enough: u128 = if c.attempts_total % 3 > 0 {
        third + 1
    } else {
        third
    };
    if c.attempts_total > 0 && c.review_rejects >= enough {
        r.push(
            "review-reject rate ≥ 33% of attempts: implementations are gaming or missing specs; tighten acceptance tests before execution".to_string(),
        );
    }
    if c.ladder_exhaustions > 0 {
        let mut s = decimal_text(c.ladder_exhaustions as u64);
        s.append(
            " task(s) exhausted the ladder: decomposition is happening too late; lower the size threshold at probe time",
        );
        r.push(s);
    }
    if let Some(mean) = mean_review {
        let mut s = "mean review cycles = ".to_string();
        s.append(mean.as_str());
        s.append(
            ": candidates arrive under-verified; run the mechanical gate before requesting verdicts",
        );
        r.push(s);
    }
    assert(views(r@) =~= suggested(*c, tiers@, mean_attempts@, opt_view(*mean_review)));
    r
}

// --------------------------------------------------------------------- report

/// What the history says.
#[derive(Debug)]
pub struct Report {
    /// The numbers.
    pub counts: Counts,
    /// The review cycles of what was merged, as the bits of double-precision
    /// numbers.
    pub review_cycles: Vec<u64>,
    /// The files of institutional memory that the lessons call for.
    pub knowledge_candidates: Vec<KnowledgeCandidate>,
}

/// What telemetry and attempts say about policy and knowledge.
pub fn retro(
    telemetry: &Vec<String>,
    attempts: &Table<History>,
    tiers: &Vec<u64>,
    existing_knowledge: &Vec<String>,
) -> (r: Report)
    ensures
        r.counts.merged == views(telemetry@).filter(is_merged()).len(),
        r.counts.telemetry_records == telemetry@.len(),
        r.counts.attempts_total == total(attempts@),
        r.counts.tasks_with_attempts == attempts@.filter(was_attempted()).len(),
        r.counts.review_rejects == rejects(attempts@),
        r.counts.ladder_exhaustions == attempts@.filter(used_all(tiers@.len())).len(),
        r.review_cycles@ == cycles_in(views(telemetry@)),
        are_candidates(views(r.knowledge_candidates@), attempts@, views(existing_knowledge@)),
{
    Report {
        counts: count(telemetry, attempts, tiers),
        review_cycles: review_cycles(telemetry),
        knowledge_candidates: knowledge_candidates(attempts, existing_knowledge),
    }
}

/// Reviews cannot end more attempts than there are.
pub proof fn law_rejects_are_attempts(attempts: Attempts)
    ensures
        rejects(attempts) <= total(attempts),
    decreases attempts.len(),
{
    if attempts.len() > 0 {
        law_rejects_are_attempts(attempts.drop_last());
        attempts.last().1.lemma_filter_len(was_rejected());
    }
}

/// Stamping a telemetry record with its agent and time does not change whether it
/// tells of something merged.
pub proof fn law_stamp_keeps_outcome(
    record: Seq<char>,
    stamped: Seq<char>,
    agent: Seq<char>,
    at: Seq<char>,
)
    requires
        json_texts(stamped) == stamped_texts(json_texts(record), agent, at),
    ensures
        is_merged()(stamped) == is_merged()(record),
{
    reveal_strlit("agent");
    reveal_strlit("at");
    reveal_strlit("outcome");
    assert("outcome"@.len() != "agent"@.len() && "outcome"@.len() != "at"@.len());
}

/// The numbers of the attempts add up task by task: each task adds its attempts,
/// one to the attempted tasks where it has any, one to the exhausted ladders where
/// it has as many as there are tiers, and its attempts that ended in
/// `review-reject`, each of them once.
pub proof fn law_counts_add_up(
    attempts: Attempts,
    task: Seq<char>,
    records: Seq<AttemptRecordView>,
    tiers: nat,
)
    ensures
        ({
            let more = attempts.push((task, records));
            &&& total(more) == total(attempts) + records.len()
            &&& more.filter(was_attempted()).len() == attempts.filter(was_attempted()).len() + (
            if records.len() > 0 {
                1int
            } else {
                0int
            })
            &&& more.filter(used_all(tiers)).len() == attempts.filter(used_all(tiers)).len() + (
            if records.len() >= tiers {
                1int
            } else {
                0int
            })
            &&& rejects(more) == rejects(attempts) + records.filter(
                |a: AttemptRecordView| a.outcome == "review-reject"@,
            ).len()
        }),
        total(Seq::empty()) == 0,
        rejects(Seq::empty()) == 0,
{
    let more = attempts.push((task, records));
    reveal(Seq::filter);
    assert(more.drop_last() =~= attempts);
    assert(was_rejected() =~= (|a: AttemptRecordView| a.outcome == "review-reject"@));
}

/// A telemetry record counts as merged exactly when its outcome is the string
/// `merged`, and its review cycles count where it is merged and has such a number.
pub proof fn law_merged_records(records: Seq<Seq<char>>, record: Seq<char>)
    ensures
        is_merged()(record) <==> {
            &&& json_texts(record) is Some
            &&& json_texts(record)->Some_0.dom().contains("outcome"@)
            &&& json_texts(record)->Some_0["outcome"@] == "merged"@
        },
        is_merged()(record) && json_number(record, "review_cycles"@) is Some ==> cycles_in(
            records.push(record),
        ) == cycles_in(records).push(json_number(record, "review_cycles"@)->Some_0),
        !is_merged()(record) || json_number(record, "review_cycles"@) is None ==> cycles_in(
            records.push(record),
        ) == cycles_in(records),
        cycles_in(Seq::empty()).len() == 0,
{
    assert(records.push(record).drop_last() =~= records);
    assert(records.push(record).last() == record);
}

/// What is suggested follows from the numbers: the attempts are many at two for
/// each attempted task, the rejections at a third of all attempts, and a single
/// exhausted ladder is one too many; each of these, and too many review cycles,
/// earns one suggestion, and nothing else does.
pub proof fn law_suggestions(
    c: Counts,
    tiers: Seq<u64>,
    mean_attempts: Seq<char>,
    mean_review: Option<Seq<char>>,
)
    ensures
        attempts_are_many(c) <==> c.tasks_with_attempts > 0 && c.attempts_total
            >= c.tasks_with_attempts + c.tasks_with_attempts,
        rejects_are_many(c) <==> c.attempts_total > 0 && c.review_rejects + c.review_rejects
            + c.review_rejects >= c.attempts_total,
        suggested(c, tiers, mean_attempts, mean_review).len() == (if c.tasks_with_attempts > 0
            && c.attempts_total >= 2 * c.tasks_with_attempts {
            1int
        } else {
            0int
        }) + (if c.attempts_total > 0 && 3 * c.review_rejects >= c.attempts_total {
            1int
        } else {
            0int
        }) + (if c.ladder_exhaustions > 0 {
            1int
        } else {
            0int
        }) + (if mean_review is Some {
            1int
        } else {
            0int
        }),
        attempts_are_many(c) ==> suggested(c, tiers, mean_attempts, mean_review)[0]
            == "mean attempts/task = "@ + mean_attempts
            + ": probes are under-specifying; raise tier-0 minutes ("@ + decimal(
            (if tiers.len() > 0 {
                tiers[0]
            } else {
                0
            }) as nat,
        ) + " now) or demand stricter acceptance tests at probe-done"@,
        rejects_are_many(c) ==> suggested(c, tiers, mean_attempts, mean_review).contains(
            "review-reject rate ≥ 33% of attempts: implementations are gaming or missing specs; tighten acceptance tests before execution"@,
        ),
        c.ladder_exhaustions > 0 ==> suggested(c, tiers, mean_attempts, mean_review).contains(
            decimal(c.ladder_exhaustions as nat)
                + " task(s) exhausted the ladder: decomposition is happening too late; lower the size threshold at probe time"@,
        ),
        mean_review matches Some(mean) ==> suggested(c, tiers, mean_attempts, mean_review).last()
            == "mean review cycles = "@ + mean
            + ": candidates arrive under-verified; run the mechanical gate before requesting verdicts"@,
{
    let all = suggested(c, tiers, mean_attempts, mean_review);
    let a: int = if attempts_are_many(c) {
        1
    } else {
        0
    };
    let b: int = if rejects_are_many(c) {
        1
    } else {
        0
    };
    if rejects_are_many(c) {
        assert(all[a]
            == "review-reject rate ≥ 33% of attempts: implementations are gaming or missing specs; tighten acceptance tests before execution"@);
    }
    if c.ladder_exhaustions > 0 {
        assert(all[a + b] == decimal(c.ladder_exhaustions as nat)
            + " task(s) exhausted the ladder: decomposition is happening too late; lower the size threshold at probe time"@);
    }
}

} // verus!
