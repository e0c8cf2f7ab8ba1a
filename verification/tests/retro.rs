//! The learning loop.

use loom::clock::Timestamp;
use loom::knowledge::{
    knowledge_candidates, normalize, slug, Group, KnowledgeCandidate, Rule, SLUG_MAX,
};
use loom::model::{AttemptRecord, History, Policy};
use loom::retro::{count, retro, suggestions, Report};
use loom::table::Table;

fn attempt_lesson(task: &str, outcome: &str, lesson: &str, at: &str) -> AttemptRecord {
    AttemptRecord {
        task: task.into(),
        tier: 0,
        sha: "s".into(),
        outcome: outcome.into(),
        lesson: lesson.into(),
        agent: "a".into(),
        at: Timestamp::parse(at).unwrap(),
    }
}

fn attempt(task: &str, outcome: &str, at: &str) -> AttemptRecord {
    attempt_lesson(task, outcome, "l", at)
}

fn mean(report: &Report) -> f64 {
    let cycles: Vec<f64> = report.review_cycles.iter().map(|b| f64::from_bits(*b)).collect();
    if cycles.is_empty() {
        0.0
    } else {
        cycles.iter().sum::<f64>() / cycles.len() as f64
    }
}

/// The suggestions of a report, with the means written as it prints them.
fn suggested(report: &Report, tiers: &Vec<u64>) -> Vec<String> {
    let c = &report.counts;
    let attempts = c.attempts_total as f64 / c.tasks_with_attempts.max(1) as f64;
    let review = mean(report);
    let review = if review > 1.5 { Some(format!("{review:.1}")) } else { None };
    suggestions(c, tiers, &format!("{attempts:.1}"), &review)
}

fn run(attempts: &Table<History>, existing: &[&str]) -> Vec<KnowledgeCandidate> {
    let existing: Vec<String> = existing.iter().map(|s| s.to_string()).collect();
    let tiers = Policy::default().budget.tiers_minutes;
    retro(&vec![], attempts, &tiers, &existing).knowledge_candidates
}

#[test]
fn retro_aggregates_and_suggests() {
    let telemetry = vec![
        "{\"outcome\":\"merged\",\"review_cycles\":2.0}".to_string(),
        "{\"outcome\":\"merged\",\"review_cycles\":2.0}".to_string(),
    ];
    let mut attempts = Table::new();
    attempts.insert(
        "a".into(),
        History {
            records: vec![
                attempt("a", "tests-red", "2026-07-01T00:00:00Z"),
                attempt("a", "review-reject", "2026-07-01T01:00:00Z"),
                attempt("a", "tests-red", "2026-07-01T02:00:00Z"),
            ],
        },
    );
    let tiers = Policy::default().budget.tiers_minutes;
    let report = retro(&telemetry, &attempts, &tiers, &vec![]);
    assert_eq!(report.counts.merged, 2);
    assert_eq!(report.counts.attempts_total, 3);
    assert_eq!(report.counts.ladder_exhaustions, 1);
    let s = suggested(&report, &tiers);
    assert!(s.len() >= 3, "expected multiple suggestions, got {s:?}");
    assert_eq!(
        s,
        vec![
            "mean attempts/task = 3.0: probes are under-specifying; raise tier-0 minutes (10 now) or demand stricter acceptance tests at probe-done",
            "review-reject rate ≥ 33% of attempts: implementations are gaming or missing specs; tighten acceptance tests before execution",
            "1 task(s) exhausted the ladder: decomposition is happening too late; lower the size threshold at probe time",
            "mean review cycles = 2.0: candidates arrive under-verified; run the mechanical gate before requesting verdicts",
        ]
    );
}

#[test]
fn retro_proposes_knowledge_files_for_lessons_learned_twice() {
    let mut attempts = Table::new();
    attempts.insert(
        "a".into(),
        History {
            records: vec![attempt_lesson(
                "a",
                "tests-red",
                "Push probe output before continuing.",
                "2026-07-01T00:00:00Z",
            )],
        },
    );
    attempts.insert(
        "b".into(),
        History {
            records: vec![
                attempt_lesson(
                    "b",
                    "review-reject",
                    "push probe output before continuing",
                    "2026-07-01T01:00:00Z",
                ),
                attempt_lesson(
                    "b",
                    "tests-red",
                    "a one-off detail nobody hits twice",
                    "2026-07-01T02:00:00Z",
                ),
            ],
        },
    );

    let cands = run(&attempts, &["knowledge/README.md"]);
    let repeated = cands
        .iter()
        .find(|c| c.lessons.iter().any(|l| l == "Push probe output before continuing."))
        .unwrap_or_else(|| panic!("lesson learned on two tasks becomes a candidate: {cands:?}"));
    let path = repeated.path.as_str();
    assert!(
        path.starts_with("knowledge/") && path.ends_with(".md"),
        "candidate path is a knowledge file, got {path}"
    );
    assert_eq!(path, "knowledge/push-probe-output-before-continuing.md");
    assert_eq!(repeated.tasks, vec!["a", "b"]);
    assert!(!repeated.exists);
    assert!(!repeated.reason.is_empty(), "each candidate says why it earned a file");
    assert_eq!(
        repeated.reason,
        "2 recurring lessons share this topic across 2 tasks (a, b): the fleet keeps re-learning it"
    );
    assert!(
        !cands
            .iter()
            .any(|c| c.lessons.iter().any(|l| l == "a one-off detail nobody hits twice")),
        "a lesson seen once isn't institutional memory yet: {cands:?}"
    );
}

#[test]
fn retro_knowledge_candidates_group_recurring_outcomes_and_flag_existing_files() {
    let mut attempts = Table::new();
    for (i, id) in ["a", "b", "c"].iter().enumerate() {
        attempts.insert(
            (*id).into(),
            History {
                records: vec![attempt_lesson(
                    id,
                    "review-reject",
                    &format!("lesson from {id}"),
                    &format!("2026-07-0{}T00:00:00Z", i + 1),
                )],
            },
        );
    }

    let cands = run(&attempts, &["knowledge/attempt-review-reject.md"]);
    let by_outcome = cands
        .iter()
        .find(|c| c.path == "knowledge/attempt-review-reject.md")
        .unwrap_or_else(|| panic!("recurring outcome earns a file: {cands:?}"));
    assert_eq!(by_outcome.tasks, vec!["a", "b", "c"]);
    assert!(by_outcome.exists);
    assert_eq!(by_outcome.lessons.len(), 3, "the file carries its source lessons");
    assert_eq!(
        by_outcome.reason,
        "'review-reject' ended attempts on 3 tasks (a, b, c): a recurring failure mode worth one written cause — the file exists, so append"
    );
    assert_eq!(by_outcome.topic, "review-reject");
}

#[test]
fn retro_knowledge_candidates_are_one_per_path_even_when_slugs_collide() {
    // Identical for the first 48 slug chars, different after it.
    let alpha = "Always run the full test suite before committing the alpha branch";
    let beta = "Always run the full test suite before committing the beta branch";
    let unrelated = "Escalate ambiguous specs instead of guessing";

    let mut attempts: Table<History> = Table::new();
    let mut add = |task: &str, lesson: &str, day: usize| {
        attempts.insert(
            task.into(),
            History {
                records: vec![attempt_lesson(
                    task,
                    "tests-red",
                    lesson,
                    &format!("2026-07-{:02}T00:00:00Z", day),
                )],
            },
        );
    };
    // alpha on 4 tasks, unrelated on 3, beta on 2: the counts straddle, so
    // sorting by evidence width separates the colliding pair.
    for (i, t) in ["a", "b", "c", "d"].iter().enumerate() {
        add(t, alpha, i + 1);
    }
    for (i, t) in ["e", "f", "g"].iter().enumerate() {
        add(t, unrelated, i + 1);
    }
    for (i, t) in ["h", "i"].iter().enumerate() {
        add(t, beta, i + 1);
    }

    let cands = run(&attempts, &[]);
    let paths: Vec<&str> = cands.iter().map(|c| c.path.as_str()).collect();
    let distinct: std::collections::BTreeSet<&&str> = paths.iter().collect();
    assert_eq!(
        paths.len(),
        distinct.len(),
        "every candidate names a distinct file, got {paths:?}"
    );

    let collided = cands
        .iter()
        .find(|c| {
            !c.path.starts_with("knowledge/attempt-") && c.lessons.iter().any(|l| l == alpha)
        })
        .unwrap_or_else(|| panic!("the colliding lessons still earn a file: {cands:?}"));
    assert!(
        collided.lessons.iter().any(|l| l == beta),
        "a collapsed path keeps both lessons: {collided:?}"
    );
    assert_eq!(
        collided.tasks,
        vec!["a", "b", "c", "d", "h", "i"],
        "and every task that produced them"
    );
    // widest evidence first
    let widths: Vec<usize> = cands.iter().map(|c| c.tasks.len()).collect();
    assert_eq!(widths, vec![9, 6, 3]);
    assert_eq!(collided.topics, vec![alpha, beta]);
}

#[test]
fn one_task_repeating_itself_is_no_knowledge() {
    let mut attempts = Table::new();
    attempts.insert(
        "a".into(),
        History {
            records: vec![
                attempt_lesson("a", "tests-red", "same", "2026-07-01T00:00:00Z"),
                attempt_lesson("a", "tests-red", "same", "2026-07-02T00:00:00Z"),
                attempt_lesson("a", "tests-red", "same", "2026-07-03T00:00:00Z"),
            ],
        },
    );
    assert!(knowledge_candidates(&attempts, &vec![]).is_empty());
}

#[test]
fn lessons_without_words_are_not_grouped() {
    let mut attempts = Table::new();
    for id in ["a", "b", "c"] {
        attempts.insert(
            id.into(),
            History {
                records: vec![attempt_lesson(id, "dead", if id == "b" { "" } else { " -- " }, "2026-07-01T00:00:00Z")],
            },
        );
    }
    let cands = knowledge_candidates(&attempts, &vec![]);
    assert_eq!(cands.len(), 1);
    assert_eq!(cands[0].path, "knowledge/attempt-dead.md");
    assert_eq!(cands[0].lessons, vec![" -- "]);
}

#[test]
fn outcomes_that_share_a_slug_share_a_file() {
    let mut attempts = Table::new();
    for (i, id) in ["a", "b", "c", "d", "e", "f"].iter().enumerate() {
        let outcome = if i % 2 == 0 { "tests red" } else { "Tests-Red" };
        attempts.insert(
            (*id).into(),
            History {
                records: vec![attempt_lesson(id, outcome, &format!("l{i}"), "2026-07-01T00:00:00Z")],
            },
        );
    }
    let cands = knowledge_candidates(&attempts, &vec![]);
    assert_eq!(cands.len(), 1);
    assert_eq!(cands[0].path, "knowledge/attempt-tests-red.md");
    // groups come in the order of their keys
    assert_eq!(cands[0].topics, vec!["Tests-Red", "tests red"]);
    assert_eq!(cands[0].tasks, vec!["b", "d", "f", "a", "c", "e"]);
    assert_eq!(
        cands[0].reason,
        "outcomes Tests-Red, tests red ended attempts on 6 tasks (b, d, f, a, c, e): a recurring failure mode worth one written cause"
    );
}

#[test]
fn normalizing_keeps_the_sentence() {
    assert_eq!(normalize("  Push   PROBE\toutput, (now)! "), "push probe output now");
    assert_eq!(normalize("don't -- stop"), "don't stop");
    assert_eq!(normalize("ÄÖ ß"), "äö ß");
    assert_eq!(normalize("..."), "");
    // spacing does not count
    assert_eq!(normalize("a b"), normalize("\n a \u{a0} b "));
}

#[test]
fn stems_are_sound_file_names() {
    assert_eq!(slug("Hello, World!"), "hello-world");
    assert_eq!(slug("--a--b--"), "a-b");
    assert_eq!(slug(""), "untitled");
    assert_eq!(slug("!!!"), "untitled");
    assert_eq!(slug("äx"), "x");
    let long = "a".repeat(100);
    assert_eq!(slug(&long), "a".repeat(SLUG_MAX));
    // a dash at the cut is dropped
    let cut = format!("{} b", "a".repeat(SLUG_MAX - 1));
    assert_eq!(slug(&cut), "a".repeat(SLUG_MAX - 1));
    assert_eq!(slug(&slug("Some Topic: x")), "some-topic-x");
}

#[test]
fn a_group_gathers_and_absorbs() {
    let mut g = Group::new(Rule::Lesson);
    g.add("One lesson", "t1", "One lesson");
    g.add("One lesson", "t2", "");
    assert_eq!(g.path(), "knowledge/one-lesson.md");
    assert_eq!(g.topics, vec!["One lesson"]);
    assert_eq!(g.tasks, vec!["t1", "t2"]);
    assert_eq!(g.lessons, vec!["One lesson"]);
    assert_eq!(
        g.reason(false),
        "the same lesson was recorded on 2 tasks (t1, t2): the fleet keeps re-learning it"
    );
    let mut h = Group::new(Rule::Lesson);
    h.add("one: lesson", "t2", "one: lesson");
    h.add("one: lesson", "t3", "one: lesson");
    g.absorb(&h);
    assert_eq!(g.topics, vec!["One lesson", "one: lesson"]);
    assert_eq!(g.tasks, vec!["t1", "t2", "t3"]);
    assert_eq!(Group::new(Rule::Outcome).path(), "knowledge/attempt-untitled.md");
}

#[test]
fn counts_and_thresholds() {
    let mut attempts = Table::new();
    attempts.insert(
        "a".into(),
        History {
            records: vec![
                attempt("a", "review-reject", "2026-07-01T00:00:00Z"),
                attempt("a", "tests-red", "2026-07-01T00:00:00Z"),
                attempt("a", "tests-red", "2026-07-01T00:00:00Z"),
            ],
        },
    );
    attempts.insert("b".into(), History { records: vec![] });
    attempts.insert(
        "c".into(),
        History { records: vec![attempt("c", "tests-red", "2026-07-01T00:00:00Z")] },
    );
    let records = vec![
        "{\"outcome\":\"merged\"}".to_string(),
        "{\"outcome\":\"dropped\",\"review_cycles\":9}".to_string(),
        "{\"outcome\":\"merged\",\"review_cycles\":3}".to_string(),
        "[1]".to_string(),
    ];
    let tiers = vec![10u64, 45, 180];
    let c = count(&records, &attempts, &tiers);
    assert_eq!(c.merged, 2);
    assert_eq!(c.telemetry_records, 4);
    assert_eq!(c.attempts_total, 4);
    assert_eq!(c.tasks_with_attempts, 2);
    assert_eq!(c.review_rejects, 1);
    assert_eq!(c.ladder_exhaustions, 1);
    // four attempts on two tasks are two each; one reject in four is no third
    let s = suggestions(&c, &vec![], "2.0", &None);
    assert_eq!(s.len(), 2);
    assert!(s[0].contains("(0 now)"));
    assert!(s[1].starts_with("1 task(s) exhausted"));
    let report = retro(&records, &attempts, &tiers, &vec![]);
    let cycles: Vec<f64> = report.review_cycles.iter().map(|b| f64::from_bits(*b)).collect();
    assert_eq!(cycles, vec![3.0]);
}
