//! Lessons that recur: which files of institutional memory they call for.

use crate::model::{KNOWLEDGE_DIR, AttemptRecordView, History};
use crate::order::{
    ascending, ascending_set, distinct, distinct_from, key_lt, law_distinct, law_distinct_of_both,
    law_sorted_set, law_stably_sorted, lemma_filter_contains, lemma_filter_first, lemma_filter_take,
    push_all_distinct, push_distinct, sort_by_keys, sorted_set, stably_sorted, with_distinct,
    SortKey,
};
use crate::protocol::Attempts;
use crate::table::Table;
use crate::text::{
    alphanumeric, chars_of, copy_texts, decimal, decimal_text, holds, is_alphanumeric, join, joined,
    law_joined, law_lex_irreflexive, law_lex_total, law_words, lemma_views_push, lex_lt, lowercased,
    solid, text_of, to_lowercase, views, white_space, words, words_of,
};
use vstd::prelude::*;

verus! {

// ---------------------------------------------------------------------- names

/// A text without what is not alphanumeric at its front.
pub open spec fn without_marks_front(s: Seq<char>) -> Seq<char>
    decreases s.len(),
{
    if s.len() > 0 && !alphanumeric(s[0]) {
        without_marks_front(s.drop_first())
    } else {
        s
    }
}

/// A text without what is not alphanumeric at its back.
pub open spec fn without_marks_back(s: Seq<char>) -> Seq<char>
    decreases s.len(),
{
    if s.len() > 0 && !alphanumeric(s.last()) {
        without_marks_back(s.drop_last())
    } else {
        s
    }
}

/// A word without surrounding marks, in lower case.
pub open spec fn bare_word(s: Seq<char>) -> Seq<char> {
    lowercased(without_marks_back(without_marks_front(s)))
}

/// Whether there is anything in a text.
pub open spec fn nonempty() -> spec_fn(Seq<char>) -> bool {
    |s: Seq<char>| s.len() > 0
}

/// The key of a lesson: its words without surrounding marks, in lower case,
/// separated by one blank. Case, punctuation and spacing are noise; the sentence
/// is the fact.
pub open spec fn normalized(text: Seq<char>) -> Seq<char> {
    joined(words_of(text).map_values(|w: Seq<char>| bare_word(w)).filter(nonempty()), " "@)
}

/// A word without surrounding marks, in lower case.
fn bare(word: &str) -> (r: String)
    ensures
        r@ == bare_word(word@),
{
    let v = chars_of(word);
    let mut a: usize = 0;
    assert(v@.skip(0) =~= v@);
    while a < v.len() && !is_alphanumeric(v[a])
        invariant
            a <= v@.len(),
            without_marks_front(v@) == without_marks_front(v@.skip(a as int)),
        decreases v@.len() - a,
    {
        assert(v@.skip(a as int).drop_first() =~= v@.skip(a + 1));
        a += 1;
    }
    let mut b: usize = v.len();
    let ghost t = v@.skip(a as int);
    assert(v@.subrange(a as int, b as int) =~= t);
    while b > a && !is_alphanumeric(v[b - 1])
        invariant
            a <= b <= v@.len(),
            without_marks_back(t) == without_marks_back(v@.subrange(a as int, b as int)),
        decreases b,
    {
        assert(v@.subrange(a as int, b as int).drop_last() =~= v@.subrange(a as int, b - 1));
        b -= 1;
    }
    let core = text_of(&v, a, b);
    to_lowercase(core.as_str())
}

/// The key of a lesson.
pub fn normalize(text: &str) -> (r: String)
    ensures
        r@ == normalized(text@),
{
    let all = words(text);
    let ghost mapped = views(all@).map_values(|w: Seq<char>| bare_word(w));
    let ghost p = nonempty();
    let mut parts: Vec<String> = Vec::new();
    proof {
        lemma_filter_take(mapped, p, 0);
        assert(views(parts@) =~= mapped.take(0).filter(p));
    }
    for i in 0..all.len()
        invariant
            mapped == views(all@).map_values(|w: Seq<char>| bare_word(w)),
            p == nonempty(),
            views(parts@) == mapped.take(i as int).filter(p),
    {
        proof {
            lemma_filter_take(mapped, p, i as int);
        }
        let w = bare(all[i].as_str());
        assert(w@ == mapped[i as int]);
        if !w.as_str().is_empty() {
            proof {
                lemma_views_push(parts@, w);
            }
            parts.push(w);
        }
    }
    proof {
        lemma_filter_take(mapped, p, mapped.len() as int);
    }
    join(&parts, " ")
}

/// A letter or digit of ASCII.
pub open spec fn ascii_alphanumeric(c: char) -> bool {
    ('0' <= c && c <= '9') || ('a' <= c && c <= 'z') || ('A' <= c && c <= 'Z')
}

/// A letter of ASCII in lower case; anything else as it is.
pub open spec fn ascii_lower(c: char) -> char {
    if 'A' <= c && c <= 'Z' {
        (c as int + 32) as char
    } else {
        c
    }
}

fn is_ascii_alphanumeric(c: char) -> (r: bool)
    ensures
        r == ascii_alphanumeric(c),
{
    ('0' <= c && c <= '9') || ('a' <= c && c <= 'z') || ('A' <= c && c <= 'Z')
}

fn to_ascii_lower(c: char) -> (r: char)
    ensures
        r == ascii_lower(c),
{
    if 'A' <= c && c <= 'Z' {
        ((c as u8) + 32) as char
    } else {
        c
    }
}

/// The longest file name stem.
pub const SLUG_MAX: usize = 48;

/// Letters and digits in lower case, with one dash for each run of anything
/// else, up to the longest stem; a leading run leaves nothing.
pub open spec fn dashed(s: Seq<char>) -> Seq<char>
    decreases s.len(),
{
    if s.len() == 0 {
        Seq::empty()
    } else {
        let init = dashed(s.drop_last());
        if init.len() >= SLUG_MAX {
            init
        } else if ascii_alphanumeric(s.last()) {
            init.push(ascii_lower(s.last()))
        } else if init.len() > 0 && init.last() != '-' {
            init.push('-')
        } else {
            init
        }
    }
}

/// The file name stem of a text.
pub open spec fn slugged(s: Seq<char>) -> Seq<char> {
    let d = dashed(s);
    if d.len() == 0 {
        "untitled"@
    } else if d.last() == '-' {
        d.drop_last()
    } else {
        d
    }
}

/// The file name stem of a text.
pub fn slug(text: &str) -> (r: String)
    ensures
        r@ == slugged(text@),
{
    let v = chars_of(text);
    let mut out: Vec<char> = Vec::new();
    assert(v@.take(0) =~= Seq::<char>::empty());
    let mut i: usize = 0;
    while i < v.len() && out.len() < SLUG_MAX
        invariant
            i <= v@.len(),
            out@ == dashed(v@.take(i as int)),
        decreases v@.len() - i,
    {
        let c = v[i];
        assert(v@.take(i + 1).drop_last() =~= v@.take(i as int));
        if is_ascii_alphanumeric(c) {
            out.push(to_ascii_lower(c));
        } else if out.len() > 0 && out[out.len() - 1] != '-' {
            out.push('-');
        }
        i += 1;
    }
    proof {
        lemma_dashed_stops(v@, i as int);
        assert(v@.take(v@.len() as int) =~= v@);
    }
    let n: usize = out.len();
    if n == 0 {
        return "untitled".to_string();
    }
    if out[n - 1] == '-' {
        assert(out@.subrange(0, n - 1) =~= out@.drop_last());
        return text_of(&out, 0, n - 1);
    }
    assert(out@.subrange(0, n as int) =~= out@);
    text_of(&out, 0, n)
}

proof fn lemma_dashed_stops(s: Seq<char>, i: int)
    requires
        0 <= i <= s.len(),
        i == s.len() || dashed(s.take(i)).len() >= SLUG_MAX,
    ensures
        dashed(s) == dashed(s.take(i)),
    decreases s.len(),
{
    if i < s.len() {
        assert(s.drop_last().take(i) =~= s.take(i));
        lemma_dashed_stops(s.drop_last(), i);
    } else {
        assert(s.take(i) =~= s);
    }
}

/// A character of a file name stem.
pub open spec fn stem_char(c: char) -> bool {
    ('0' <= c && c <= '9') || ('a' <= c && c <= 'z') || c == '-'
}

proof fn lemma_dashed_shape(s: Seq<char>)
    ensures
        dashed(s).len() <= SLUG_MAX,
        forall|i: int| 0 <= i < dashed(s).len() ==> stem_char(#[trigger] dashed(s)[i]),
        dashed(s).len() > 0 ==> dashed(s)[0] != '-',
        forall|i: int, j: int|
            0 <= i < dashed(s).len() && j == i + 1 && j < dashed(s).len() ==> !(#[trigger] dashed(
                s,
            )[i] == '-' && #[trigger] dashed(s)[j] == '-'),
    decreases s.len(),
{
    if s.len() > 0 {
        lemma_dashed_shape(s.drop_last());
        let init = dashed(s.drop_last());
        let d = dashed(s);
        assert(forall|i: int| 0 <= i < init.len() ==> d[i] == init[i]);
    }
}

/// A stem is a sound file name: lower case letters and digits with single
/// dashes between them, never empty, never longer than the longest stem.
pub proof fn law_slug_shape(s: Seq<char>)
    ensures
        0 < slugged(s).len() <= SLUG_MAX,
        forall|i: int| 0 <= i < slugged(s).len() ==> stem_char(#[trigger] slugged(s)[i]),
        slugged(s)[0] != '-',
        slugged(s).last() != '-',
        forall|i: int, j: int|
            0 <= i < slugged(s).len() && j == i + 1 && j < slugged(s).len()
                ==> !(#[trigger] slugged(s)[i] == '-' && #[trigger] slugged(s)[j] == '-'),
{
    lemma_dashed_shape(s);
    reveal_strlit("untitled");
    let d = dashed(s);
    if d.len() > 0 && d.last() == '-' {
        assert(d.len() > 1);
        assert(d.drop_last().last() == d[d.len() - 2]);
        let i = d.len() - 2;
        let j = d.len() - 1;
        assert(!(d[i] == '-' && d[j] == '-'));
    }
}

/// A stem is its own stem: naming a file after its own stem changes nothing.
pub proof fn law_slug_of_slug(s: Seq<char>)
    ensures
        slugged(slugged(s)) == slugged(s),
{
    let t = slugged(s);
    law_slug_shape(s);
    lemma_dashed_keeps(t, t.len() as int);
    assert(t.take(t.len() as int) =~= t);
}

proof fn lemma_dashed_keeps(t: Seq<char>, n: int)
    requires
        0 <= n <= t.len(),
        t.len() <= SLUG_MAX,
        forall|i: int| 0 <= i < t.len() ==> stem_char(#[trigger] t[i]),
        t.len() > 0 ==> t[0] != '-',
        forall|i: int, j: int|
            0 <= i < t.len() && j == i + 1 && j < t.len() ==> !(#[trigger] t[i] == '-'
                && #[trigger] t[j] == '-'),
    ensures
        dashed(t.take(n)) == t.take(n),
    decreases n,
{
    if n > 0 {
        lemma_dashed_keeps(t, n - 1);
        assert(t.take(n).drop_last() =~= t.take(n - 1));
        assert(stem_char(t[n - 1]));
        if t[n - 1] == '-' {
            assert(n > 1);
            assert(t.take(n - 1).last() == t[n - 2]);
            let i = n - 2;
            let j = n - 1;
            assert(!(t[i] == '-' && t[j] == '-'));
        }
        assert(dashed(t.take(n)) =~= t.take(n));
    } else {
        assert(dashed(t.take(0)) =~= t.take(0));
    }
}

// ------------------------------------------------------------------- evidence

/// What one attempt says: on which task it was made, how it ended, and its
/// lesson.
#[verifier::ext_equal]
pub struct EvidenceView {
    pub task: Seq<char>,
    pub outcome: Seq<char>,
    pub lesson: Seq<char>,
}

/// What all attempts say, task by task.
pub open spec fn evidence(attempts: Attempts) -> Seq<EvidenceView>
    decreases attempts.len(),
{
    if attempts.len() == 0 {
        Seq::empty()
    } else {
        evidence(attempts.drop_last()) + testimony(attempts.last().0, attempts.last().1)
    }
}

/// What the attempts at one task say.
pub open spec fn testimony(task: Seq<char>, records: Seq<AttemptRecordView>) -> Seq<EvidenceView> {
    records.map_values(
        |r: AttemptRecordView| EvidenceView { task, outcome: r.outcome, lesson: r.lesson },
    )
}

/// What one attempt says, with the key of its lesson.
struct Evidence {
    task: String,
    outcome: String,
    lesson: String,
    key: String,
}

impl View for Evidence {
    type V = EvidenceView;

    closed spec fn view(&self) -> EvidenceView {
        EvidenceView { task: self.task@, outcome: self.outcome@, lesson: self.lesson@ }
    }
}

/// The keys of the lessons are right.
spec fn keyed(all: Seq<Evidence>) -> bool {
    forall|i: int| 0 <= i < all.len() ==> (#[trigger] all[i]).key@ == normalized(all[i].lesson@)
}

/// What all attempts say, task by task.
fn collect_evidence(attempts: &Table<History>) -> (r: Vec<Evidence>)
    ensures
        views(r@) == evidence(attempts@),
        keyed(r@),
{
    let mut r: Vec<Evidence> = Vec::new();
    let n: usize = attempts.len();
    assert(views(r@) =~= evidence(attempts@.take(0)));
    for i in 0..n
        invariant
            n == attempts@.len(),
            views(r@) == evidence(attempts@.take(i as int)),
            keyed(r@),
    {
        let history = attempts.value(i);
        let ghost so_far = views(r@);
        let ghost said = testimony(attempts@[i as int].0, views(history.records@));
        proof {
            assert(attempts@.take(i + 1).drop_last() =~= attempts@.take(i as int));
            assert(views(r@) =~= so_far + said.take(0));
        }
        for j in 0..history.records.len()
            invariant
                i < attempts@.len(),
                said == testimony(attempts@[i as int].0, views(history.records@)),
                views(r@) == so_far + said.take(j as int),
                keyed(r@),
        {
            let record = &history.records[j];
            let e = Evidence {
                task: attempts.key(i).to_string(),
                outcome: record.outcome.clone(),
                lesson: record.lesson.clone(),
                key: normalize(record.lesson.as_str()),
            };
            proof {
                lemma_views_push(r@, e);
                assert(e@ == said[j as int]);
                assert(said.take(j + 1) =~= said.take(j as int).push(said[j as int]));
                assert(so_far + said.take(j + 1) =~= (so_far + said.take(j as int)).push(
                    said[j as int],
                ));
            }
            r.push(e);
        }
        assert(said.take(said.len() as int) =~= said);
    }
    assert(attempts@.take(n as int) =~= attempts@);
    r
}

// --------------------------------------------------------------------- groups

/// Which rule earns a file: it decides the name of the file and the reason.
#[derive(Clone, Copy, Debug, PartialEq, Eq, Structural)]
pub enum Rule {
    /// The same lesson on several tasks.
    Lesson,
    /// The same outcome on several tasks.
    Outcome,
}

/// The evidence for one file.
#[derive(Debug)]
pub struct Group {
    /// The rule.
    pub rule: Rule,
    /// The distinct lessons, or outcomes, that name the file.
    pub topics: Vec<String>,
    /// The distinct tasks.
    pub tasks: Vec<String>,
    /// The distinct lessons.
    pub lessons: Vec<String>,
}

/// The model of a [`Group`].
#[verifier::ext_equal]
pub struct GroupView {
    pub rule: Rule,
    pub topics: Seq<Seq<char>>,
    pub tasks: Seq<Seq<char>>,
    pub lessons: Seq<Seq<char>>,
}

impl View for Group {
    type V = GroupView;

    open spec fn view(&self) -> GroupView {
        GroupView {
            rule: self.rule,
            topics: views(self.topics@),
            tasks: views(self.tasks@),
            lessons: views(self.lessons@),
        }
    }
}

/// What an attempt is grouped by.
pub open spec fn has_key(rule: Rule, key: Seq<char>) -> spec_fn(EvidenceView) -> bool {
    |e: EvidenceView|
        match rule {
            Rule::Lesson => normalized(e.lesson) == key,
            Rule::Outcome => e.outcome == key,
        }
}

/// What an attempt contributes to the name of a file.
pub open spec fn topic_of(rule: Rule, e: EvidenceView) -> Seq<char> {
    match rule {
        Rule::Lesson => e.lesson,
        Rule::Outcome => e.outcome,
    }
}

/// The group of some attempts: their distinct topics, tasks and lessons, each in
/// the order of first occurrence.
pub open spec fn group_of(rule: Rule, said: Seq<EvidenceView>) -> GroupView {
    GroupView {
        rule,
        topics: distinct(said.map_values(|e: EvidenceView| topic_of(rule, e))),
        tasks: distinct(said.map_values(|e: EvidenceView| e.task)),
        lessons: distinct(said.map_values(|e: EvidenceView| e.lesson).filter(nonempty())),
    }
}

/// The keys under which attempts are grouped. A lesson without words has none.
pub open spec fn keys_for(rule: Rule, said: Seq<EvidenceView>) -> Seq<Seq<char>> {
    match rule {
        Rule::Lesson => sorted_set(
            said.map_values(|e: EvidenceView| normalized(e.lesson)).filter(nonempty()),
        ),
        Rule::Outcome => sorted_set(said.map_values(|e: EvidenceView| e.outcome)),
    }
}

/// The groups of a rule, in the order of their keys.
pub open spec fn groups_for(rule: Rule, said: Seq<EvidenceView>) -> Seq<GroupView> {
    keys_for(rule, said).map_values(
        |key: Seq<char>| group_of(rule, said.filter(has_key(rule, key))),
    )
}

impl Group {
    /// A group without evidence.
    pub fn new(rule: Rule) -> (g: Group)
        ensures
            g@ == group_of(rule, Seq::empty()),
    {
        let g = Group { rule, topics: Vec::new(), tasks: Vec::new(), lessons: Vec::new() };
        proof {
            lemma_group_of_nothing(rule);
            assert(g@ =~= group_of(rule, Seq::empty()));
        }
        g
    }

    /// Adds what an attempt says; what is there already is not repeated, and an
    /// empty lesson is not one.
    pub fn add(&mut self, topic: &str, task: &str, lesson: &str)
        ensures
            final(self)@ == (GroupView {
                rule: old(self)@.rule,
                topics: with_distinct(old(self)@.topics, topic@),
                tasks: with_distinct(old(self)@.tasks, task@),
                lessons: if lesson@.len() == 0 {
                    old(self)@.lessons
                } else {
                    with_distinct(old(self)@.lessons, lesson@)
                },
            }),
    {
        push_distinct(&mut self.topics, topic);
        push_distinct(&mut self.tasks, task);
        if !lesson.is_empty() {
            push_distinct(&mut self.lessons, lesson);
        }
    }

    /// Takes the evidence of another group in.
    pub fn absorb(&mut self, other: &Group)
        ensures
            final(self)@ == (GroupView {
                rule: old(self)@.rule,
                topics: distinct_from(old(self)@.topics, other@.topics),
                tasks: distinct_from(old(self)@.tasks, other@.tasks),
                lessons: distinct_from(old(self)@.lessons, other@.lessons),
            }),
    {
        push_all_distinct(&mut self.topics, &other.topics);
        push_all_distinct(&mut self.tasks, &other.tasks);
        push_all_distinct(&mut self.lessons, &other.lessons);
    }
}

proof fn lemma_group_of_nothing(rule: Rule)
    ensures
        group_of(rule, Seq::empty()) == (GroupView {
            rule,
            topics: Seq::empty(),
            tasks: Seq::empty(),
            lessons: Seq::empty(),
        }),
{
    let none = Seq::<EvidenceView>::empty();
    let e = Seq::<Seq<char>>::empty();
    reveal(Seq::filter);
    assert(none.map_values(|e: EvidenceView| topic_of(rule, e)) =~= e);
    assert(none.map_values(|e: EvidenceView| e.task) =~= e);
    assert(none.map_values(|e: EvidenceView| e.lesson) =~= e);
    assert(e.filter(nonempty()) =~= e);
}

proof fn lemma_group_of_push(rule: Rule, said: Seq<EvidenceView>, e: EvidenceView)
    ensures
        group_of(rule, said.push(e)) == ({
            let g = group_of(rule, said);
            GroupView {
                rule,
                topics: with_distinct(g.topics, topic_of(rule, e)),
                tasks: with_distinct(g.tasks, e.task),
                lessons: if e.lesson.len() == 0 {
                    g.lessons
                } else {
                    with_distinct(g.lessons, e.lesson)
                },
            }
        }),
{
    let more = said.push(e);
    let topic = |e: EvidenceView| topic_of(rule, e);
    let task = |e: EvidenceView| e.task;
    let lesson = |e: EvidenceView| e.lesson;
    assert(more.map_values(topic).drop_last() =~= said.map_values(topic));
    assert(more.map_values(task).drop_last() =~= said.map_values(task));
    assert(more.map_values(lesson).drop_last() =~= said.map_values(lesson));
    reveal(Seq::filter);
    let f = said.map_values(lesson).filter(nonempty());
    if e.lesson.len() > 0 {
        assert(more.map_values(lesson).filter(nonempty()) =~= f.push(e.lesson));
        assert(f.push(e.lesson).drop_last() =~= f);
    }
}

/// The group of the attempts with a key.
fn gather(all: &Vec<Evidence>, rule: Rule, key: &str) -> (g: Group)
    requires
        keyed(all@),
    ensures
        g@ == group_of(rule, views(all@).filter(has_key(rule, key@))),
{
    let ghost said = views(all@);
    let ghost p = has_key(rule, key@);
    let mut g = Group::new(rule);
    proof {
        lemma_filter_take(said, p, 0);
    }
    for i in 0..all.len()
        invariant
            keyed(all@),
            said == views(all@),
            p == has_key(rule, key@),
            g@ == group_of(rule, said.take(i as int).filter(p)),
    {
        let e = &all[i];
        proof {
            lemma_filter_take(said, p, i as int);
            lemma_group_of_push(rule, said.take(i as int).filter(p), said[i as int]);
            assert(said[i as int] == e@);
        }
        match rule {
            Rule::Lesson => {
                if *e.key.as_str() == *key {
                    g.add(e.lesson.as_str(), e.task.as_str(), e.lesson.as_str());
                }
            },
            Rule::Outcome => {
                if *e.outcome.as_str() == *key {
                    g.add(e.outcome.as_str(), e.task.as_str(), e.lesson.as_str());
                }
            },
        }
    }
    proof {
        lemma_filter_take(said, p, said.len() as int);
    }
    g
}

/// The keys under which attempts are grouped.
fn list_keys(all: &Vec<Evidence>, rule: Rule) -> (r: Vec<String>)
    requires
        keyed(all@),
    ensures
        views(r@) == keys_for(rule, views(all@)),
{
    let ghost said = views(all@);
    let mut keys: Vec<String> = Vec::new();
    match rule {
        Rule::Lesson => {
            let ghost mapped = said.map_values(|e: EvidenceView| normalized(e.lesson));
            let ghost p = nonempty();
            proof {
                lemma_filter_take(mapped, p, 0);
                assert(views(keys@) =~= mapped.take(0).filter(p));
            }
            for i in 0..all.len()
                invariant
                    keyed(all@),
                    said == views(all@),
                    mapped == said.map_values(|e: EvidenceView| normalized(e.lesson)),
                    p == nonempty(),
                    views(keys@) == mapped.take(i as int).filter(p),
            {
                proof {
                    lemma_filter_take(mapped, p, i as int);
                    assert(mapped[i as int] == all@[i as int].key@);
                }
                if !all[i].key.as_str().is_empty() {
                    let key = all[i].key.clone();
                    proof {
                        lemma_views_push(keys@, key);
                    }
                    keys.push(key);
                }
            }
            proof {
                lemma_filter_take(mapped, p, mapped.len() as int);
            }
        },
        Rule::Outcome => {
            for i in 0..all.len()
                invariant
                    keys@.len() == i,
                    forall|j: int| 0 <= j < i ==> (#[trigger] keys@[j])@ == all@[j].outcome@,
            {
                keys.push(all[i].outcome.clone());
            }
            assert(views(keys@) =~= said.map_values(|e: EvidenceView| e.outcome));
        },
    }
    ascending_set(&keys)
}

/// A lesson on this many distinct tasks is institutional, not incidental.
pub const LESSON_TASKS_THRESHOLD: usize = 2;

/// An outcome on this many distinct tasks is a failure mode.
pub const OUTCOME_TASKS_THRESHOLD: usize = 3;

/// A group whose evidence spans enough tasks to earn a file.
pub open spec fn earns_file() -> spec_fn(GroupView) -> bool {
    |g: GroupView|
        g.tasks.len() >= match g.rule {
            Rule::Lesson => LESSON_TASKS_THRESHOLD,
            Rule::Outcome => OUTCOME_TASKS_THRESHOLD,
        }
}

/// The groups that earn a file: lessons first, then outcomes.
pub open spec fn qualifying(said: Seq<EvidenceView>) -> Seq<GroupView> {
    groups_for(Rule::Lesson, said).filter(earns_file()) + groups_for(Rule::Outcome, said).filter(
        earns_file(),
    )
}

/// The first of some texts; nothing where there is none.
pub open spec fn first_of(s: Seq<Seq<char>>) -> Seq<char> {
    if s.len() > 0 {
        s[0]
    } else {
        Seq::empty()
    }
}

/// The file of a group.
pub open spec fn path_of(g: GroupView) -> Seq<char> {
    match g.rule {
        Rule::Lesson => "knowledge"@ + "/"@ + slugged(first_of(g.topics)) + ".md"@,
        Rule::Outcome => "knowledge"@ + "/attempt-"@ + slugged(first_of(g.topics)) + ".md"@,
    }
}

/// The texts of several lists in a row.
pub open spec fn concat(s: Seq<Seq<Seq<char>>>) -> Seq<Seq<char>>
    decreases s.len(),
{
    if s.len() == 0 {
        Seq::empty()
    } else {
        concat(s.drop_last()) + s.last()
    }
}

/// Several groups as one: the rule of the first, and the distinct topics, tasks
/// and lessons of all.
pub open spec fn merged(groups: Seq<GroupView>) -> GroupView {
    GroupView {
        rule: groups[0].rule,
        topics: distinct(concat(groups.map_values(|g: GroupView| g.topics))),
        tasks: distinct(concat(groups.map_values(|g: GroupView| g.tasks))),
        lessons: distinct(concat(groups.map_values(|g: GroupView| g.lessons))),
    }
}

/// The group's file is this one.
pub open spec fn has_path(path: Seq<char>) -> spec_fn(GroupView) -> bool {
    |g: GroupView| path_of(g) == path
}

/// Why a group earns a file.
pub open spec fn reason_of(g: GroupView, exists: bool) -> Seq<char> {
    let n = decimal(g.tasks.len());
    let ids = joined(g.tasks, ", "@);
    let why = match g.rule {
        Rule::Lesson => if g.topics.len() == 1 {
            "the same lesson was recorded on "@ + n + " tasks ("@ + ids
                + "): the fleet keeps re-learning it"@
        } else {
            decimal(g.topics.len()) + " recurring lessons share this topic across "@ + n
                + " tasks ("@ + ids + "): the fleet keeps re-learning it"@
        },
        Rule::Outcome => if g.topics.len() == 1 {
            "'"@ + first_of(g.topics) + "' ended attempts on "@ + n + " tasks ("@ + ids
                + "): a recurring failure mode worth one written cause"@
        } else {
            "outcomes "@ + joined(g.topics, ", "@) + " ended attempts on "@ + n + " tasks ("@ + ids
                + "): a recurring failure mode worth one written cause"@
        },
    };
    if exists {
        why + " — the file exists, so append"@
    } else {
        why
    }
}

/// The first of some texts.
fn first_text(v: &Vec<String>) -> (r: &str)
    ensures
        r@ == first_of(views(v@)),
{
    if v.len() > 0 {
        v[0].as_str()
    } else {
        assert(""@ =~= Seq::<char>::empty()) by {
            reveal_strlit("");
        }
        ""
    }
}

impl Group {
    /// The file of the group.
    pub fn path(&self) -> (r: String)
        ensures
            r@ == path_of(self@),
    {
        let stem = slug(first_text(&self.topics));
        let mut r = KNOWLEDGE_DIR.to_string();
        match self.rule {
            Rule::Lesson => r.append("/"),
            Rule::Outcome => r.append("/attempt-"),
        }
        r.append(stem.as_str());
        r.append(".md");
        r
    }

    /// Why the group earns a file.
    pub fn reason(&self, exists: bool) -> (r: String)
        ensures
            r@ == reason_of(self@, exists),
    {
        let n = decimal_text(self.tasks.len() as u64);
        let ids = join(&self.tasks, ", ");
        let mut r = match self.rule {
            Rule::Lesson => if self.topics.len() == 1 {
                "the same lesson was recorded on ".to_string()
            } else {
                let mut r = decimal_text(self.topics.len() as u64);
                r.append(" recurring lessons share this topic across ");
                r
            },
            Rule::Outcome => if self.topics.len() == 1 {
                let mut r = "'".to_string();
                r.append(first_text(&self.topics));
                r.append("' ended attempts on ");
                r
            } else {
                let mut r = "outcomes ".to_string();
                r.append(join(&self.topics, ", ").as_str());
                r.append(" ended attempts on ");
                r
            },
        };
        r.append(n.as_str());
        r.append(" tasks (");
        r.append(ids.as_str());
        match self.rule {
            Rule::Lesson => r.append("): the fleet keeps re-learning it"),
            Rule::Outcome => r.append("): a recurring failure mode worth one written cause"),
        }
        if exists {
            r.append(" — the file exists, so append");
        }
        r
    }

    /// Whether the evidence spans enough tasks to earn a file.
    fn is_wide(&self) -> (r: bool)
        ensures
            r == earns_file()(self@),
    {
        match self.rule {
            Rule::Lesson => self.tasks.len() >= LESSON_TASKS_THRESHOLD,
            Rule::Outcome => self.tasks.len() >= OUTCOME_TASKS_THRESHOLD,
        }
    }
}

/// Appends the groups of a rule that earn a file.
fn push_qualifying(out: &mut Vec<Group>, all: &Vec<Evidence>, rule: Rule)
    requires
        keyed(all@),
    ensures
        views(final(out)@) == views(old(out)@) + groups_for(rule, views(all@)).filter(
            earns_file(),
        ),
{
    let ghost said = views(all@);
    let ghost groups = groups_for(rule, said);
    let ghost p = earns_file();
    let ghost so_far = views(out@);
    let keys = list_keys(all, rule);
    proof {
        lemma_filter_take(groups, p, 0);
        assert(views(out@) =~= so_far + groups.take(0).filter(p));
    }
    for i in 0..keys.len()
        invariant
            keyed(all@),
            said == views(all@),
            views(keys@) == keys_for(rule, said),
            groups == groups_for(rule, said),
            p == earns_file(),
            views(out@) == so_far + groups.take(i as int).filter(p),
    {
        let g = gather(all, rule, keys[i].as_str());
        proof {
            lemma_filter_take(groups, p, i as int);
            assert(views(keys@)[i as int] == keys@[i as int]@);
            assert(g@ == groups[i as int]);
        }
        if g.is_wide() {
            proof {
                lemma_views_push(out@, g);
            }
            out.push(g);
            assert(views(out@) =~= so_far + groups.take(i + 1).filter(p));
        }
    }
    proof {
        lemma_filter_take(groups, p, groups.len() as int);
    }
}

proof fn lemma_concat_push(s: Seq<Seq<Seq<char>>>, t: Seq<Seq<char>>)
    ensures
        concat(s.push(t)) == concat(s) + t,
{
    assert(s.push(t).drop_last() =~= s);
}

/// The groups of a file as one.
fn merge_at(groups: &Vec<Group>, path: &str, rule: Rule) -> (g: Group)
    requires
        ({
            let at = views(groups@).filter(has_path(path@));
            at.len() > 0 && at[0].rule == rule
        }),
    ensures
        g@ == merged(views(groups@).filter(has_path(path@))),
{
    let ghost all = views(groups@);
    let ghost p = has_path(path@);
    let ghost topics = |g: GroupView| g.topics;
    let ghost tasks = |g: GroupView| g.tasks;
    let ghost lessons = |g: GroupView| g.lessons;
    let mut g = Group::new(rule);
    proof {
        lemma_filter_take(all, p, 0);
        lemma_group_of_nothing(rule);
        let none = all.take(0).filter(p);
        assert(none.map_values(topics) =~= Seq::<Seq<Seq<char>>>::empty());
        assert(none.map_values(tasks) =~= Seq::<Seq<Seq<char>>>::empty());
        assert(none.map_values(lessons) =~= Seq::<Seq<Seq<char>>>::empty());
    }
    for i in 0..groups.len()
        invariant
            all == views(groups@),
            p == has_path(path@),
            topics == (|g: GroupView| g.topics),
            tasks == (|g: GroupView| g.tasks),
            lessons == (|g: GroupView| g.lessons),
            g@.rule == rule,
            g@.topics == distinct(concat(all.take(i as int).filter(p).map_values(topics))),
            g@.tasks == distinct(concat(all.take(i as int).filter(p).map_values(tasks))),
            g@.lessons == distinct(concat(all.take(i as int).filter(p).map_values(lessons))),
    {
        let other = &groups[i];
        let ghost f = all.take(i as int).filter(p);
        proof {
            lemma_filter_take(all, p, i as int);
            assert(all[i as int] == other@);
            let more = f.push(other@);
            assert(more.map_values(topics) =~= f.map_values(topics).push(other@.topics));
            assert(more.map_values(tasks) =~= f.map_values(tasks).push(other@.tasks));
            assert(more.map_values(lessons) =~= f.map_values(lessons).push(other@.lessons));
            lemma_concat_push(f.map_values(topics), other@.topics);
            lemma_concat_push(f.map_values(tasks), other@.tasks);
            lemma_concat_push(f.map_values(lessons), other@.lessons);
            law_distinct_of_both(concat(f.map_values(topics)), other@.topics);
            law_distinct_of_both(concat(f.map_values(tasks)), other@.tasks);
            law_distinct_of_both(concat(f.map_values(lessons)), other@.lessons);
        }
        if *other.path().as_str() == *path {
            g.absorb(other);
        }
    }
    proof {
        lemma_filter_take(all, p, all.len() as int);
        assert(g@ =~= merged(all.filter(p)));
    }
    g
}

// ----------------------------------------------------------------- candidates

/// A file that the fleet's lessons call for.
#[derive(Debug)]
pub struct KnowledgeCandidate {
    /// The path of the file.
    pub path: String,
    /// The first topic.
    pub topic: String,
    /// All topics.
    pub topics: Vec<String>,
    /// Why the file is called for.
    pub reason: String,
    /// The tasks that the lessons are from.
    pub tasks: Vec<String>,
    /// The lessons.
    pub lessons: Vec<String>,
    /// Whether the file is there already.
    pub exists: bool,
}

/// The model of a [`KnowledgeCandidate`].
#[verifier::ext_equal]
pub struct KnowledgeCandidateView {
    pub path: Seq<char>,
    pub topic: Seq<char>,
    pub topics: Seq<Seq<char>>,
    pub reason: Seq<char>,
    pub tasks: Seq<Seq<char>>,
    pub lessons: Seq<Seq<char>>,
    pub exists: bool,
}

impl View for KnowledgeCandidate {
    type V = KnowledgeCandidateView;

    open spec fn view(&self) -> KnowledgeCandidateView {
        KnowledgeCandidateView {
            path: self.path@,
            topic: self.topic@,
            topics: views(self.topics@),
            reason: self.reason@,
            tasks: views(self.tasks@),
            lessons: views(self.lessons@),
            exists: self.exists,
        }
    }
}

impl Clone for KnowledgeCandidate {
    fn clone(&self) -> (r: Self)
        ensures
            r@ == self@,
    {
        KnowledgeCandidate {
            path: self.path.clone(),
            topic: self.topic.clone(),
            topics: copy_texts(&self.topics),
            reason: self.reason.clone(),
            tasks: copy_texts(&self.tasks),
            lessons: copy_texts(&self.lessons),
            exists: self.exists,
        }
    }
}

/// The candidate for a path with its evidence.
pub open spec fn proposal(
    path: Seq<char>,
    g: GroupView,
    existing: Seq<Seq<char>>,
) -> KnowledgeCandidateView {
    KnowledgeCandidateView {
        path,
        topic: first_of(g.topics),
        topics: g.topics,
        reason: reason_of(g, existing.contains(path)),
        tasks: g.tasks,
        lessons: g.lessons,
        exists: existing.contains(path),
    }
}

/// The candidates, one for each path, in the order of the paths.
pub open spec fn proposals(
    groups: Seq<GroupView>,
    existing: Seq<Seq<char>>,
) -> Seq<KnowledgeCandidateView> {
    sorted_set(groups.map_values(|g: GroupView| path_of(g))).map_values(
        |path: Seq<char>| proposal(path, merged(groups.filter(has_path(path))), existing),
    )
}

/// The widest evidence comes first; the path breaks ties.
pub open spec fn evidence_key(c: KnowledgeCandidateView) -> (int, Seq<char>) {
    (-(c.tasks.len() as int), c.path)
}

/// The candidates that the attempts call for, the widest evidence first.
pub open spec fn are_candidates(
    found: Seq<KnowledgeCandidateView>,
    attempts: Attempts,
    existing: Seq<Seq<char>>,
) -> bool {
    let all = proposals(qualifying(evidence(attempts)), existing);
    stably_sorted(all, all.map_values(|c: KnowledgeCandidateView| evidence_key(c)), found)
}

/// The rule of the first group with a path.
fn rule_at(groups: &Vec<Group>, path: &str) -> (r: Rule)
    requires
        views(groups@).map_values(|g: GroupView| path_of(g)).contains(path@),
    ensures
        ({
            let at = views(groups@).filter(has_path(path@));
            at.len() > 0 && at[0].rule == r
        }),
{
    let ghost all = views(groups@);
    let ghost p = has_path(path@);
    proof {
        lemma_filter_take(all, p, 0);
    }
    let mut i: usize = 0;
    while i < groups.len()
        invariant
            i <= groups@.len(),
            all == views(groups@),
            p == has_path(path@),
            all.take(i as int).filter(p).len() == 0,
            all.map_values(|g: GroupView| path_of(g)).contains(path@),
        decreases groups@.len() - i,
    {
        proof {
            lemma_filter_take(all, p, i as int);
            assert(all[i as int] == groups@[i as int]@);
        }
        if *groups[i].path().as_str() == *path {
            proof {
                let f = all.take(i + 1).filter(p);
                assert(f[0] == all[i as int]);
                Seq::filter_distributes_over_add(all.take(i + 1), all.skip(i + 1), p);
                assert(all.take(i + 1) + all.skip(i + 1) =~= all);
                assert(all.filter(p)[0] == f[0]);
            }
            return groups[i].rule;
        }
        i += 1;
    }
    proof {
        lemma_filter_take(all, p, all.len() as int);
        let paths = all.map_values(|g: GroupView| path_of(g));
        let k = choose|k: int| 0 <= k < paths.len() && paths[k] == path@;
        assert(all.contains(all[k]));
        lemma_filter_contains(all, p, all[k]);
        assert(false);
    }
    Rule::Lesson
}

/// The files of institutional memory that the attempts call for: a lesson that
/// recurs on two tasks earns a file of its own, an outcome that recurs on three
/// earns one that holds its lessons. One path is proposed once, with all its
/// evidence.
pub fn knowledge_candidates(attempts: &Table<History>, existing: &Vec<String>) -> (r: Vec<
    KnowledgeCandidate,
>)
    ensures
        are_candidates(views(r@), attempts@, views(existing@)),
{
    let all = collect_evidence(attempts);
    let mut groups: Vec<Group> = Vec::new();
    assert(views(groups@) =~= Seq::<GroupView>::empty());
    push_qualifying(&mut groups, &all, Rule::Lesson);
    push_qualifying(&mut groups, &all, Rule::Outcome);
    let ghost q = views(groups@);
    assert(q =~= qualifying(evidence(attempts@)));
    let mut named: Vec<String> = Vec::new();
    for i in 0..groups.len()
        invariant
            named@.len() == i,
            forall|j: int| 0 <= j < i ==> (#[trigger] named@[j])@ == path_of(groups@[j]@),
    {
        named.push(groups[i].path());
    }
    let ghost names = q.map_values(|g: GroupView| path_of(g));
    assert(views(named@) =~= names);
    let paths = ascending_set(&named);
    let ghost found = proposals(q, views(existing@));
    let mut out: Vec<KnowledgeCandidate> = Vec::new();
    let mut keys: Vec<SortKey> = Vec::new();
    for i in 0..paths.len()
        invariant
            q == views(groups@),
            names == q.map_values(|g: GroupView| path_of(g)),
            views(paths@) == sorted_set(names),
            found == proposals(q, views(existing@)),
            out@.len() == i,
            keys@.len() == i,
            forall|j: int| 0 <= j < i ==> (#[trigger] out@[j])@ == found[j],
            forall|j: int| 0 <= j < i ==> (#[trigger] keys@[j])@ == evidence_key(found[j]),
    {
        proof {
            law_sorted_set(names);
            assert(views(paths@)[i as int] == paths@[i as int]@);
            assert(sorted_set(names).contains(paths@[i as int]@));
        }
        let path = paths[i].as_str();
        let g = merge_at(&groups, path, rule_at(&groups, path));
        let exists = holds(existing, path);
        let reason = g.reason(exists);
        let topic = first_text(&g.topics).to_string();
        let key = SortKey { number: -(g.tasks.len() as i128), text: path.to_string() };
        let c = KnowledgeCandidate {
            path: path.to_string(),
            topic,
            topics: g.topics,
            reason,
            tasks: g.tasks,
            lessons: g.lessons,
            exists,
        };
        assert(c@ =~= found[i as int]);
        assert(key@ == evidence_key(c@));
        out.push(c);
        keys.push(key);
    }
    assert(views(out@) =~= found);
    assert(views(keys@) =~= found.map_values(|c: KnowledgeCandidateView| evidence_key(c)));
    sort_by_keys(&out, &keys)
}

// ----------------------------------------------------------------------- laws

proof fn lemma_concat_contains(s: Seq<Seq<Seq<char>>>, t: Seq<char>)
    ensures
        concat(s).contains(t) <==> exists|i: int|
            0 <= i < s.len() && (#[trigger] s[i]).contains(t),
    decreases s.len(),
{
    if s.len() > 0 {
        let init = s.drop_last();
        lemma_concat_contains(init, t);
        let a = concat(init);
        let b = s.last();
        assert((a + b).contains(t) <==> a.contains(t) || b.contains(t)) by {
            if (a + b).contains(t) {
                let i = choose|i: int| 0 <= i < (a + b).len() && (a + b)[i] == t;
                if i < a.len() {
                    assert(a[i] == t);
                } else {
                    assert(b[i - a.len()] == t);
                }
            }
            if a.contains(t) {
                let i = choose|i: int| 0 <= i < a.len() && a[i] == t;
                assert((a + b)[i] == t);
            }
            if b.contains(t) {
                let i = choose|i: int| 0 <= i < b.len() && b[i] == t;
                assert((a + b)[a.len() + i] == t);
            }
        }
        if exists|i: int| 0 <= i < s.len() && (#[trigger] s[i]).contains(t) {
            let i = choose|i: int| 0 <= i < s.len() && (#[trigger] s[i]).contains(t);
            if i < init.len() {
                assert(init[i] == s[i]);
            }
        }
        if exists|i: int| 0 <= i < init.len() && (#[trigger] init[i]).contains(t) {
            let i = choose|i: int| 0 <= i < init.len() && (#[trigger] init[i]).contains(t);
            assert(s[i].contains(t));
        }
        if b.contains(t) {
            assert(s[s.len() - 1].contains(t));
        }
    }
}

/// Merging groups keeps exactly their evidence, each piece once.
pub proof fn law_merged(groups: Seq<GroupView>, t: Seq<char>)
    ensures
        merged(groups).topics.no_duplicates(),
        merged(groups).tasks.no_duplicates(),
        merged(groups).lessons.no_duplicates(),
        merged(groups).topics.contains(t) <==> exists|i: int|
            0 <= i < groups.len() && (#[trigger] groups[i]).topics.contains(t),
        merged(groups).tasks.contains(t) <==> exists|i: int|
            0 <= i < groups.len() && (#[trigger] groups[i]).tasks.contains(t),
        merged(groups).lessons.contains(t) <==> exists|i: int|
            0 <= i < groups.len() && (#[trigger] groups[i]).lessons.contains(t),
{
    let topics = groups.map_values(|g: GroupView| g.topics);
    let tasks = groups.map_values(|g: GroupView| g.tasks);
    let lessons = groups.map_values(|g: GroupView| g.lessons);
    law_distinct(concat(topics));
    law_distinct(concat(tasks));
    law_distinct(concat(lessons));
    lemma_concat_contains(topics, t);
    lemma_concat_contains(tasks, t);
    lemma_concat_contains(lessons, t);
    assert(forall|i: int| 0 <= i < groups.len() ==> #[trigger] topics[i] == groups[i].topics);
    assert(forall|i: int| 0 <= i < groups.len() ==> #[trigger] tasks[i] == groups[i].tasks);
    assert(forall|i: int| 0 <= i < groups.len() ==> #[trigger] lessons[i] == groups[i].lessons);
    if exists|i: int| 0 <= i < groups.len() && (#[trigger] groups[i]).topics.contains(t) {
        let i = choose|i: int| 0 <= i < groups.len() && (#[trigger] groups[i]).topics.contains(t);
        assert(topics[i].contains(t));
    }
    if exists|i: int| 0 <= i < groups.len() && (#[trigger] groups[i]).tasks.contains(t) {
        let i = choose|i: int| 0 <= i < groups.len() && (#[trigger] groups[i]).tasks.contains(t);
        assert(tasks[i].contains(t));
    }
    if exists|i: int| 0 <= i < groups.len() && (#[trigger] groups[i]).lessons.contains(t) {
        let i = choose|i: int| 0 <= i < groups.len() && (#[trigger] groups[i]).lessons.contains(t);
        assert(lessons[i].contains(t));
    }
}

proof fn lemma_same_candidates(
    found: Seq<KnowledgeCandidateView>,
    attempts: Attempts,
    existing: Seq<Seq<char>>,
)
    requires
        are_candidates(found, attempts, existing),
    ensures
        ({
            let all = proposals(qualifying(evidence(attempts)), existing);
            &&& forall|c: KnowledgeCandidateView| #[trigger]
                found.contains(c) <==> all.contains(c)
            &&& forall|i: int, j: int|
                0 <= i < j < found.len() ==> !key_lt(
                    evidence_key(#[trigger] found[j]),
                    evidence_key(#[trigger] found[i]),
                )
            &&& found.no_duplicates()
        }),
{
    let q = qualifying(evidence(attempts));
    let all = proposals(q, existing);
    let key = |c: KnowledgeCandidateView| evidence_key(c);
    let paths = sorted_set(q.map_values(|g: GroupView| path_of(g)));
    law_sorted_set(q.map_values(|g: GroupView| path_of(g)));
    assert(all.no_duplicates()) by {
        assert forall|i: int, j: int| 0 <= i < all.len() && 0 <= j < all.len() && i != j implies all[i]
            != all[j] by {
            assert(all[i].path == paths[i]);
            assert(all[j].path == paths[j]);
            law_lex_irreflexive(paths[i]);
            if i < j {
                assert(lex_lt(paths[i], paths[j]));
            } else {
                assert(lex_lt(paths[j], paths[i]));
            }
        }
    }
    law_stably_sorted(all, key, found);
    assert forall|i: int, j: int| 0 <= i < j < found.len() implies !key_lt(
        evidence_key(#[trigger] found[j]),
        evidence_key(#[trigger] found[i]),
    ) by {
        assert(!key_lt(key(found[j]), key(found[i])));
    }
}

/// Every candidate names another file, the candidates with evidence from more
/// tasks come first, and among equals the paths ascend.
pub proof fn law_one_candidate_per_path(
    found: Seq<KnowledgeCandidateView>,
    attempts: Attempts,
    existing: Seq<Seq<char>>,
)
    requires
        are_candidates(found, attempts, existing),
    ensures
        forall|i: int, j: int|
            0 <= i < j < found.len() ==> {
                let (a, b) = (#[trigger] found[i], #[trigger] found[j]);
                &&& a.path != b.path
                &&& a.tasks.len() >= b.tasks.len()
                &&& a.tasks.len() == b.tasks.len() ==> lex_lt(a.path, b.path)
            },
{
    lemma_same_candidates(found, attempts, existing);
    let q = qualifying(evidence(attempts));
    let all = proposals(q, existing);
    let paths = sorted_set(q.map_values(|g: GroupView| path_of(g)));
    assert forall|i: int, j: int| 0 <= i < j < found.len() implies {
        let (a, b) = (#[trigger] found[i], #[trigger] found[j]);
        &&& a.path != b.path
        &&& a.tasks.len() >= b.tasks.len()
        &&& a.tasks.len() == b.tasks.len() ==> lex_lt(a.path, b.path)
    } by {
        assert(found.contains(found[i]));
        assert(found.contains(found[j]));
        let x = choose|x: int| 0 <= x < all.len() && all[x] == found[i];
        let y = choose|y: int| 0 <= y < all.len() && all[y] == found[j];
        assert(x != y);
        assert(all[x].path == paths[x]);
        assert(all[y].path == paths[y]);
        law_sorted_set(q.map_values(|g: GroupView| path_of(g)));
        law_lex_irreflexive(paths[x]);
        if x < y {
            assert(lex_lt(paths[x], paths[y]));
        } else {
            assert(lex_lt(paths[y], paths[x]));
        }
        assert(!key_lt(evidence_key(found[j]), evidence_key(found[i])));
        law_lex_total(found[i].path, found[j].path);
    }
}

/// A group that earns a file is part of the candidate for that file.
proof fn lemma_group_is_proposed(
    found: Seq<KnowledgeCandidateView>,
    attempts: Attempts,
    existing: Seq<Seq<char>>,
    g: GroupView,
) -> (c: KnowledgeCandidateView)
    requires
        are_candidates(found, attempts, existing),
        qualifying(evidence(attempts)).contains(g),
    ensures
        found.contains(c),
        c.path == path_of(g),
        forall|t: Seq<char>| g.tasks.contains(t) ==> #[trigger] c.tasks.contains(t),
        forall|t: Seq<char>| g.lessons.contains(t) ==> #[trigger] c.lessons.contains(t),
        forall|t: Seq<char>| g.topics.contains(t) ==> #[trigger] c.topics.contains(t),
{
    lemma_same_candidates(found, attempts, existing);
    let q = qualifying(evidence(attempts));
    let all = proposals(q, existing);
    let names = q.map_values(|g: GroupView| path_of(g));
    let path = path_of(g);
    let k = choose|k: int| 0 <= k < q.len() && q[k] == g;
    assert(names[k] == path);
    law_sorted_set(names);
    assert(names.contains(path));
    let paths = sorted_set(names);
    assert(paths.contains(path));
    let x = choose|x: int| 0 <= x < paths.len() && paths[x] == path;
    let c = all[x];
    assert(all.contains(c));
    let here = q.filter(has_path(path));
    lemma_filter_contains(q, has_path(path), g);
    let h = choose|h: int| 0 <= h < here.len() && here[h] == g;
    assert forall|t: Seq<char>| g.tasks.contains(t) implies #[trigger] c.tasks.contains(t) by {
        law_merged(here, t);
        assert(here[h].tasks.contains(t));
    }
    assert forall|t: Seq<char>| g.lessons.contains(t) implies #[trigger] c.lessons.contains(t) by {
        law_merged(here, t);
        assert(here[h].lessons.contains(t));
    }
    assert forall|t: Seq<char>| g.topics.contains(t) implies #[trigger] c.topics.contains(t) by {
        law_merged(here, t);
        assert(here[h].topics.contains(t));
    }
    c
}

proof fn lemma_group_holds(rule: Rule, said: Seq<EvidenceView>, key: Seq<char>, i: int)
    requires
        0 <= i < said.len(),
        has_key(rule, key)(said[i]),
    ensures
        group_of(rule, said.filter(has_key(rule, key))).tasks.contains(said[i].task),
        said[i].lesson.len() > 0 ==> group_of(
            rule,
            said.filter(has_key(rule, key)),
        ).lessons.contains(said[i].lesson),
{
    let p = has_key(rule, key);
    let mine = said.filter(p);
    assert(said.contains(said[i]));
    lemma_filter_contains(said, p, said[i]);
    let k = choose|k: int| 0 <= k < mine.len() && mine[k] == said[i];
    let tasks = mine.map_values(|e: EvidenceView| e.task);
    let lessons = mine.map_values(|e: EvidenceView| e.lesson);
    assert(tasks[k] == said[i].task);
    law_distinct(tasks);
    assert(tasks.contains(said[i].task));
    assert(lessons[k] == said[i].lesson);
    assert(lessons.contains(said[i].lesson));
    lemma_filter_contains(lessons, nonempty(), said[i].lesson);
    law_distinct(lessons.filter(nonempty()));
}

proof fn lemma_member(said: Seq<EvidenceView>, p: spec_fn(EvidenceView) -> bool, i: int)
    requires
        0 <= i < said.len(),
        p(said[i]),
    ensures
        said.filter(p).len() > 0,
        exists|k: int| 0 <= k < said.filter(p).len() && #[trigger] said.filter(p)[k] == said[i],
{
    assert(said.contains(said[i]));
    lemma_filter_contains(said, p, said[i]);
}

proof fn lemma_two_members<T>(s: Seq<T>, a: T, b: T)
    requires
        s.contains(a),
        s.contains(b),
        a != b,
    ensures
        s.len() >= 2,
{
    let i = choose|i: int| 0 <= i < s.len() && s[i] == a;
    let j = choose|j: int| 0 <= j < s.len() && s[j] == b;
    assert(i != j);
}

proof fn lemma_three_members<T>(s: Seq<T>, a: T, b: T, c: T)
    requires
        s.contains(a),
        s.contains(b),
        s.contains(c),
        a != b,
        a != c,
        b != c,
    ensures
        s.len() >= 3,
{
    let i = choose|i: int| 0 <= i < s.len() && s[i] == a;
    let j = choose|j: int| 0 <= j < s.len() && s[j] == b;
    let k = choose|k: int| 0 <= k < s.len() && s[k] == c;
    assert(i != j && i != k && j != k);
}

proof fn lemma_nothing_has_no_key(s: Seq<char>)
    ensures
        s.len() == 0 ==> normalized(s).len() == 0,
{
    if s.len() == 0 {
        reveal(Seq::filter);
        let w = words_of(s).map_values(|w: Seq<char>| bare_word(w));
        assert(w =~= Seq::<Seq<char>>::empty());
        assert(w.filter(nonempty()) =~= Seq::<Seq<char>>::empty());
    }
}

/// A lesson that recurs on two tasks, up to case, marks and spacing, earns a
/// file whose candidate names both tasks and carries both wordings.
pub proof fn law_recurring_lesson_earns_file(
    found: Seq<KnowledgeCandidateView>,
    attempts: Attempts,
    existing: Seq<Seq<char>>,
    a: int,
    b: int,
) -> (c: KnowledgeCandidateView)
    requires
        are_candidates(found, attempts, existing),
        0 <= a < evidence(attempts).len(),
        0 <= b < evidence(attempts).len(),
        evidence(attempts)[a].task != evidence(attempts)[b].task,
        normalized(evidence(attempts)[a].lesson) == normalized(evidence(attempts)[b].lesson),
        normalized(evidence(attempts)[a].lesson).len() > 0,
    ensures
        found.contains(c),
        c.tasks.contains(evidence(attempts)[a].task),
        c.tasks.contains(evidence(attempts)[b].task),
        c.lessons.contains(evidence(attempts)[a].lesson),
        c.lessons.contains(evidence(attempts)[b].lesson),
        c.topics.contains(evidence(attempts)[a].lesson),
        c.topics.contains(evidence(attempts)[b].lesson),
        (forall|i: int|
            0 <= i < a ==> normalized((#[trigger] evidence(attempts)[i]).lesson) != normalized(
                evidence(attempts)[a].lesson,
            )) ==> c.path == "knowledge/"@ + slugged(evidence(attempts)[a].lesson) + ".md"@,
{
    let said = evidence(attempts);
    let rule = Rule::Lesson;
    let key = normalized(said[a].lesson);
    let g = group_of(rule, said.filter(has_key(rule, key)));
    lemma_nothing_has_no_key(said[a].lesson);
    lemma_nothing_has_no_key(said[b].lesson);
    lemma_group_holds(rule, said, key, a);
    lemma_group_holds(rule, said, key, b);
    lemma_two_members(g.tasks, said[a].task, said[b].task);
    let all = said.map_values(|e: EvidenceView| normalized(e.lesson));
    assert(all[a] == key);
    assert(all.contains(key));
    lemma_filter_contains(all, nonempty(), key);
    law_sorted_set(all.filter(nonempty()));
    let keys = keys_for(rule, said);
    assert(keys.contains(key));
    let k = choose|k: int| 0 <= k < keys.len() && keys[k] == key;
    let groups = groups_for(rule, said);
    assert(groups[k] == g);
    assert(groups.contains(g));
    lemma_filter_contains(groups, earns_file(), g);
    let mine = groups.filter(earns_file());
    let x = choose|x: int| 0 <= x < mine.len() && mine[x] == g;
    assert(qualifying(said)[x] == g);
    let mine = said.filter(has_key(rule, key));
    law_group(rule, mine, said[a].lesson);
    law_group(rule, mine, said[b].lesson);
    law_files(g);
    lemma_member(said, has_key(rule, key), a);
    lemma_member(said, has_key(rule, key), b);
    if forall|i: int| 0 <= i < a ==> normalized((#[trigger] said[i]).lesson) != key {
        let before = said.take(a).filter(has_key(rule, key));
        if before.len() > 0 {
            assert(before.contains(before[0]));
            lemma_filter_contains(said.take(a), has_key(rule, key), before[0]);
            let i = choose|i: int| 0 <= i < a && said.take(a)[i] == before[0];
            assert(said[i] == before[0]);
            assert(has_key(rule, key)(said[i]));
        }
        lemma_filter_first(said, has_key(rule, key), a);
    }
    lemma_group_is_proposed(found, attempts, existing, g)
}

/// An outcome that recurs on three tasks earns a file whose candidate names all
/// three.
pub proof fn law_recurring_outcome_earns_file(
    found: Seq<KnowledgeCandidateView>,
    attempts: Attempts,
    existing: Seq<Seq<char>>,
    a: int,
    b: int,
    c: int,
) -> (r: KnowledgeCandidateView)
    requires
        are_candidates(found, attempts, existing),
        0 <= a < evidence(attempts).len(),
        0 <= b < evidence(attempts).len(),
        0 <= c < evidence(attempts).len(),
        evidence(attempts)[a].outcome == evidence(attempts)[b].outcome,
        evidence(attempts)[a].outcome == evidence(attempts)[c].outcome,
        evidence(attempts)[a].task != evidence(attempts)[b].task,
        evidence(attempts)[a].task != evidence(attempts)[c].task,
        evidence(attempts)[b].task != evidence(attempts)[c].task,
    ensures
        found.contains(r),
        r.tasks.contains(evidence(attempts)[a].task),
        r.tasks.contains(evidence(attempts)[b].task),
        r.tasks.contains(evidence(attempts)[c].task),
        r.topics.contains(evidence(attempts)[a].outcome),
        r.path == "knowledge/attempt-"@ + slugged(evidence(attempts)[a].outcome) + ".md"@,
        forall|i: int|
            0 <= i < evidence(attempts).len() && (#[trigger] evidence(attempts)[i]).outcome
                == evidence(attempts)[a].outcome ==> r.tasks.contains(evidence(attempts)[i].task)
                && (evidence(attempts)[i].lesson.len() > 0 ==> r.lessons.contains(
                evidence(attempts)[i].lesson,
            )),
{
    let said = evidence(attempts);
    let rule = Rule::Outcome;
    let key = said[a].outcome;
    let g = group_of(rule, said.filter(has_key(rule, key)));
    lemma_group_holds(rule, said, key, a);
    lemma_group_holds(rule, said, key, b);
    lemma_group_holds(rule, said, key, c);
    lemma_three_members(g.tasks, said[a].task, said[b].task, said[c].task);
    let all = said.map_values(|e: EvidenceView| e.outcome);
    assert(all[a] == key);
    assert(all.contains(key));
    law_sorted_set(all);
    let keys = keys_for(rule, said);
    assert(keys.contains(key));
    let k = choose|k: int| 0 <= k < keys.len() && keys[k] == key;
    let groups = groups_for(rule, said);
    assert(groups[k] == g);
    assert(groups.contains(g));
    lemma_filter_contains(groups, earns_file(), g);
    let first = groups_for(Rule::Lesson, said).filter(earns_file());
    let mine = groups.filter(earns_file());
    let x = choose|x: int| 0 <= x < mine.len() && mine[x] == g;
    assert(qualifying(said)[first.len() + x] == g);
    let members = said.filter(has_key(rule, key));
    law_group(rule, members, said[a].outcome);
    law_files(g);
    lemma_member(said, has_key(rule, key), a);
    assert(members.contains(members[0]));
    lemma_filter_contains(said, has_key(rule, key), members[0]);
    assert(has_key(rule, key)(members[0]));
    let r = lemma_group_is_proposed(found, attempts, existing, g);
    assert forall|i: int|
        0 <= i < said.len() && (#[trigger] said[i]).outcome == key implies r.tasks.contains(
        said[i].task,
    ) && (said[i].lesson.len() > 0 ==> r.lessons.contains(said[i].lesson)) by {
        lemma_group_holds(rule, said, key, i);
    }
    r
}

/// No candidate comes from nothing: it has distinct tasks, two at least, a group
/// that earned its file, and it says rightly whether the file is there.
pub proof fn law_candidates_are_earned(
    found: Seq<KnowledgeCandidateView>,
    attempts: Attempts,
    existing: Seq<Seq<char>>,
    c: KnowledgeCandidateView,
)
    requires
        are_candidates(found, attempts, existing),
        found.contains(c),
    ensures
        c.tasks.no_duplicates(),
        c.topics.no_duplicates(),
        c.lessons.no_duplicates(),
        c.tasks.len() >= 2,
        c.exists == existing.contains(c.path),
        exists|g: GroupView| #[trigger]
            qualifying(evidence(attempts)).contains(g) && path_of(g) == c.path,
{
    lemma_same_candidates(found, attempts, existing);
    let said = evidence(attempts);
    let q = qualifying(said);
    let all = proposals(q, existing);
    let x = choose|x: int| 0 <= x < all.len() && all[x] == c;
    let names = q.map_values(|g: GroupView| path_of(g));
    law_sorted_set(names);
    assert(sorted_set(names)[x] == c.path);
    assert(sorted_set(names).contains(c.path));
    assert(names.contains(c.path));
    let k = choose|k: int| 0 <= k < names.len() && names[k] == c.path;
    let g = q[k];
    assert(q.contains(g) && path_of(g) == c.path);
    let here = q.filter(has_path(c.path));
    lemma_filter_contains(q, has_path(c.path), g);
    let h = choose|h: int| 0 <= h < here.len() && here[h] == g;
    assert(g.tasks.len() >= 2) by {
        let first = groups_for(Rule::Lesson, said);
        let second = groups_for(Rule::Outcome, said);
        if k < first.filter(earns_file()).len() {
            assert(first.filter(earns_file())[k] == g);
            assert(first.filter(earns_file()).contains(g));
            lemma_filter_contains(first, earns_file(), g);
        } else {
            assert(second.filter(earns_file())[k - first.filter(earns_file()).len()] == g);
            assert(second.filter(earns_file()).contains(g));
            lemma_filter_contains(second, earns_file(), g);
        }
        assert(earns_file()(g));
    }
    lemma_groups_are_distinct(said, g);
    law_merged(here, g.tasks[0]);
    law_merged(here, g.tasks[1]);
    assert(g.tasks.contains(g.tasks[0]));
    assert(g.tasks.contains(g.tasks[1]));
    assert(here[h].tasks.contains(g.tasks[0]));
    assert(here[h].tasks.contains(g.tasks[1]));
    lemma_two_members(merged(here).tasks, g.tasks[0], g.tasks[1]);
}

proof fn lemma_groups_are_distinct(said: Seq<EvidenceView>, g: GroupView)
    requires
        qualifying(said).contains(g),
    ensures
        g.tasks.no_duplicates(),
{
    let q = qualifying(said);
    let k = choose|k: int| 0 <= k < q.len() && q[k] == g;
    let first = groups_for(Rule::Lesson, said);
    let second = groups_for(Rule::Outcome, said);
    let rule = if k < first.filter(earns_file()).len() {
        Rule::Lesson
    } else {
        Rule::Outcome
    };
    let groups = groups_for(rule, said);
    assert(groups.filter(earns_file()).contains(g)) by {
        if rule == Rule::Outcome {
            assert(second.filter(earns_file())[k - first.filter(earns_file()).len()] == g);
        } else {
            assert(first.filter(earns_file())[k] == g);
        }
    }
    lemma_filter_contains(groups, earns_file(), g);
    let i = choose|i: int| 0 <= i < groups.len() && groups[i] == g;
    let key = keys_for(rule, said)[i];
    law_distinct(said.filter(has_key(rule, key)).map_values(|e: EvidenceView| e.task));
}

/// The key of a lesson depends on its words alone, not on the spacing.
pub proof fn law_normalized_ignores_spacing(a: Seq<char>, b: Seq<char>)
    requires
        words_of(a) == words_of(b),
    ensures
        normalized(a) == normalized(b),
{
}

/// What all attempts say is what each record says, task by task and in the order
/// of the records.
pub proof fn law_evidence(
    a: Attempts,
    b: Attempts,
    task: Seq<char>,
    records: Seq<AttemptRecordView>,
    j: int,
)
    ensures
        evidence(a + b) == evidence(a) + evidence(b),
        evidence(seq![(task, records)]).len() == records.len(),
        0 <= j < records.len() ==> evidence(seq![(task, records)])[j].task == task && evidence(
            seq![(task, records)],
        )[j].outcome == records[j].outcome && evidence(seq![(task, records)])[j].lesson
            == records[j].lesson,
    decreases b.len(),
{
    if b.len() == 0 {
        assert(a + b =~= a);
        assert(evidence(a) + evidence(b) =~= evidence(a));
    } else {
        assert((a + b).drop_last() =~= a + b.drop_last());
        law_evidence(a, b.drop_last(), task, records, j);
        assert(evidence(a + b) =~= evidence(a) + evidence(b));
    }
    let one = seq![(task, records)];
    reveal_with_fuel(evidence, 2);
    assert(evidence(one) =~= testimony(task, records));
}

proof fn lemma_marks_front(front: Seq<char>, rest: Seq<char>)
    requires
        forall|i: int| 0 <= i < front.len() ==> !alphanumeric(#[trigger] front[i]),
        rest.len() > 0 ==> alphanumeric(rest[0]),
    ensures
        without_marks_front(front + rest) == rest,
    decreases front.len(),
{
    if front.len() == 0 {
        assert(front + rest =~= rest);
    } else {
        let t = front.drop_first();
        assert((front + rest).drop_first() =~= t + rest);
        assert forall|i: int| 0 <= i < t.len() implies !alphanumeric(#[trigger] t[i]) by {
            assert(t[i] == front[i + 1]);
        }
        lemma_marks_front(t, rest);
    }
}

proof fn lemma_marks_back(rest: Seq<char>, back: Seq<char>)
    requires
        forall|i: int| 0 <= i < back.len() ==> !alphanumeric(#[trigger] back[i]),
        rest.len() > 0 ==> alphanumeric(rest[rest.len() - 1]),
    ensures
        without_marks_back(rest + back) == rest,
    decreases back.len(),
{
    if back.len() == 0 {
        assert(rest + back =~= rest);
    } else {
        assert((rest + back).drop_last() =~= rest + back.drop_last());
        lemma_marks_back(rest, back.drop_last());
    }
}

/// A word loses the marks around it and its case, and nothing within it; a word
/// of marks alone leaves nothing to write in lower case.
pub proof fn law_bare_word(front: Seq<char>, core: Seq<char>, back: Seq<char>)
    requires
        forall|i: int| 0 <= i < front.len() ==> !alphanumeric(#[trigger] front[i]),
        forall|i: int| 0 <= i < back.len() ==> !alphanumeric(#[trigger] back[i]),
        core.len() > 0 ==> alphanumeric(core[0]) && alphanumeric(core[core.len() - 1]),
    ensures
        bare_word(front + core + back) == lowercased(core),
{
    let none = Seq::<char>::empty();
    if core.len() == 0 {
        let all = front + core + back;
        assert forall|i: int| 0 <= i < all.len() implies !alphanumeric(#[trigger] all[i]) by {
            if i < front.len() {
                assert(all[i] == front[i]);
            } else {
                assert(all[i] == back[i - front.len()]);
            }
        }
        lemma_marks_front(all, none);
        assert(all + none =~= all);
        assert(none =~= core);
    } else {
        assert(front + core + back =~= front + (core + back));
        lemma_marks_front(front, core + back);
        lemma_marks_back(core, back);
    }
}

proof fn lemma_parts_joined(parts: Seq<Seq<char>>)
    requires
        forall|i: int| 0 <= i < parts.len() ==> (#[trigger] parts[i]).len() > 0,
    ensures
        parts.len() > 0 ==> joined(parts, " "@).len() > 0,
{
    if parts.len() > 0 {
        assert(parts[parts.len() - 1].len() > 0);
    }
}

spec fn parts_of(text: Seq<char>) -> Seq<Seq<char>> {
    words_of(text).map_values(|w: Seq<char>| bare_word(w)).filter(nonempty())
}

proof fn lemma_parts_nonempty(text: Seq<char>)
    ensures
        parts_of(text).len() > 0 <==> normalized(text).len() > 0,
{
    let parts = parts_of(text);
    let all = words_of(text).map_values(|w: Seq<char>| bare_word(w));
    assert forall|i: int| 0 <= i < parts.len() implies (#[trigger] parts[i]).len() > 0 by {
        assert(parts.contains(parts[i]));
        lemma_filter_contains(all, nonempty(), parts[i]);
        assert(nonempty()(parts[i]));
    }
    lemma_parts_joined(parts);
}

/// The key of a lesson is made word by word: that of one word is the word without
/// its marks and case, white space of any kind and length counts as one blank, and
/// what has no key is passed over.
pub proof fn law_normalized(a: Seq<char>, gap: char, b: Seq<char>)
    requires
        white_space(gap),
    ensures
        solid(a) && a.len() > 0 ==> normalized(a) == bare_word(a),
        normalized(a).len() == 0 ==> normalized(a.push(gap) + b) == normalized(b),
        normalized(b).len() == 0 ==> normalized(a.push(gap) + b) == normalized(a),
        normalized(a).len() > 0 && normalized(b).len() > 0 ==> normalized(a.push(gap) + b)
            == normalized(a) + " "@ + normalized(b),
{
    let f = |w: Seq<char>| bare_word(w);
    law_words(a, gap, b);
    let all = a.push(gap) + b;
    let (wa, wb) = (words_of(a).map_values(f), words_of(b).map_values(f));
    assert(words_of(all).map_values(f) =~= wa + wb);
    Seq::filter_distributes_over_add(wa, wb, nonempty());
    assert(parts_of(all) == parts_of(a) + parts_of(b));
    lemma_parts_nonempty(a);
    lemma_parts_nonempty(b);
    let (pa, pb) = (parts_of(a), parts_of(b));
    law_joined(pa, pb, " "@, Seq::empty());
    if pa.len() == 0 {
        assert(pa + pb =~= pb);
    }
    if pb.len() == 0 {
        assert(pa + pb =~= pa);
    }
    if solid(a) && a.len() > 0 {
        let w = bare_word(a);
        assert(words_of(a).map_values(f) =~= seq![w]);
        reveal_with_fuel(Seq::filter, 2);
        if w.len() > 0 {
            assert(pa =~= seq![w]);
            law_joined(pa, pb, " "@, w);
        } else {
            assert(pa =~= Seq::<Seq<char>>::empty());
            assert(normalized(a) =~= w);
        }
    }
}

/// The letters and digits of a stem are those of ASCII, and its letters are small.
pub proof fn law_ascii(c: char)
    ensures
        ascii_alphanumeric(c) <==> 48 <= c as int <= 57 || 65 <= c as int <= 90 || 97 <= c as int
            <= 122,
        65 <= c as int <= 90 ==> ascii_lower(c) as int == c as int + 32,
        !(65 <= c as int <= 90) ==> ascii_lower(c) == c,
        stem_char(c) <==> 48 <= c as int <= 57 || 97 <= c as int <= 122 || c as int == 45,
{
}

/// A text of letters and digits alone, in lower case.
pub open spec fn lowered(s: Seq<char>) -> Seq<char> {
    s.map_values(|c: char| ascii_lower(c))
}

proof fn lemma_dashed_run(p: Seq<char>, a: Seq<char>)
    requires
        forall|i: int| 0 <= i < a.len() ==> ascii_alphanumeric(#[trigger] a[i]),
        dashed(p).len() + a.len() <= 48,
    ensures
        dashed(p + a) == dashed(p) + lowered(a),
    decreases a.len(),
{
    if a.len() == 0 {
        assert(p + a =~= p);
        assert(dashed(p) + lowered(a) =~= dashed(p));
    } else {
        let init = a.drop_last();
        assert((p + a).drop_last() =~= p + init);
        lemma_dashed_run(p, init);
        assert(ascii_alphanumeric(a[a.len() - 1]));
        assert(dashed(p + a) =~= dashed(p) + lowered(a));
    }
}

proof fn lemma_dashed_gap(p: Seq<char>, gap: Seq<char>)
    requires
        forall|i: int| 0 <= i < gap.len() ==> !ascii_alphanumeric(#[trigger] gap[i]),
        gap.len() > 0,
        0 < dashed(p).len() < 48,
        dashed(p).last() != '-',
    ensures
        dashed(p + gap) == dashed(p).push('-'),
    decreases gap.len(),
{
    let init = gap.drop_last();
    assert((p + gap).drop_last() =~= p + init);
    assert(!ascii_alphanumeric(gap[gap.len() - 1]));
    if init.len() == 0 {
        assert(p + init =~= p);
    } else {
        lemma_dashed_gap(p, init);
    }
}

proof fn lemma_dashed_nothing(s: Seq<char>)
    requires
        forall|i: int| 0 <= i < s.len() ==> !ascii_alphanumeric(#[trigger] s[i]),
    ensures
        dashed(s).len() == 0,
    decreases s.len(),
{
    if s.len() > 0 {
        lemma_dashed_nothing(s.drop_last());
    }
}

proof fn lemma_dashed_skips(front: Seq<char>, s: Seq<char>)
    requires
        forall|i: int| 0 <= i < front.len() ==> !ascii_alphanumeric(#[trigger] front[i]),
    ensures
        dashed(front + s) == dashed(s),
    decreases s.len(),
{
    if s.len() == 0 {
        assert(front + s =~= front);
        lemma_dashed_nothing(front);
        assert(dashed(front) =~= dashed(s));
    } else {
        assert((front + s).drop_last() =~= front + s.drop_last());
        lemma_dashed_skips(front, s.drop_last());
    }
}

/// What the stem of a text is: its words of letters and digits in lower case, one
/// dash between two of them whatever stands there, and nothing of what stands
/// before the first and behind the last. Words that do not fit are cut off, and a
/// text without such a word is untitled.
pub proof fn law_slug_of_words(
    front: Seq<char>,
    a: Seq<char>,
    gap: Seq<char>,
    b: Seq<char>,
    more: Seq<char>,
)
    requires
        forall|i: int| 0 <= i < front.len() ==> !ascii_alphanumeric(#[trigger] front[i]),
        forall|i: int| 0 <= i < gap.len() ==> !ascii_alphanumeric(#[trigger] gap[i]),
        forall|i: int| 0 <= i < a.len() ==> ascii_alphanumeric(#[trigger] a[i]),
        forall|i: int| 0 <= i < b.len() ==> ascii_alphanumeric(#[trigger] b[i]),
        gap.len() > 0,
        a.len() > 0,
        b.len() > 0,
    ensures
        slugged(front) == "untitled"@,
        a.len() <= 48 ==> slugged(front + a) == lowered(a),
        a.len() < 48 ==> slugged(front + (a + gap)) == lowered(a),
        a.len() + b.len() < 48 ==> slugged(front + (a + gap + b)) == lowered(a) + seq!['-']
            + lowered(b),
        a.len() == 48 ==> slugged(front + (a + more)) == lowered(a),
{
    lemma_dashed_nothing(front);
    lemma_dashed_skips(front, a);
    lemma_dashed_skips(front, a + gap);
    lemma_dashed_skips(front, a + gap + b);
    lemma_dashed_skips(front, a + more);
    let none = Seq::<char>::empty();
    assert(none + a =~= a);
    if a.len() <= 48 {
        lemma_dashed_run(none, a);
        assert(dashed(a) =~= lowered(a));
        assert(ascii_alphanumeric(a[a.len() - 1]));
        assert(dashed(a).last() != '-');
    }
    if a.len() < 48 {
        lemma_dashed_gap(a, gap);
        assert(dashed(a + gap).drop_last() =~= dashed(a));
    }
    if a.len() + b.len() < 48 {
        lemma_dashed_run(a + gap, b);
        assert(ascii_alphanumeric(b[b.len() - 1]));
        let d = dashed(a + gap + b);
        assert(d =~= lowered(a) + seq!['-'] + lowered(b));
        assert(d.last() == ascii_lower(b[b.len() - 1]));
    }
    if a.len() == 48 {
        let s = a + more;
        assert(s.take(48) =~= a);
        lemma_dashed_stops(s, 48);
    }
}

/// A group holds exactly the tasks, the lessons and the topics of its attempts,
/// each once; an empty lesson is none, and the first attempt gives the first topic.
pub proof fn law_group(rule: Rule, said: Seq<EvidenceView>, t: Seq<char>)
    ensures
        group_of(rule, said).rule == rule,
        group_of(rule, said).tasks.no_duplicates(),
        group_of(rule, said).lessons.no_duplicates(),
        group_of(rule, said).topics.no_duplicates(),
        group_of(rule, said).tasks.contains(t) <==> exists|i: int|
            0 <= i < said.len() && (#[trigger] said[i]).task == t,
        group_of(rule, said).lessons.contains(t) <==> t.len() > 0 && exists|i: int|
            0 <= i < said.len() && (#[trigger] said[i]).lesson == t,
        rule == Rule::Lesson ==> (group_of(rule, said).topics.contains(t) <==> exists|i: int|
            0 <= i < said.len() && (#[trigger] said[i]).lesson == t),
        rule == Rule::Outcome ==> (group_of(rule, said).topics.contains(t) <==> exists|i: int|
            0 <= i < said.len() && (#[trigger] said[i]).outcome == t),
        said.len() > 0 ==> first_of(group_of(rule, said).topics) == match rule {
            Rule::Lesson => said[0].lesson,
            Rule::Outcome => said[0].outcome,
        },
{
    let tasks = said.map_values(|e: EvidenceView| e.task);
    let lessons = said.map_values(|e: EvidenceView| e.lesson);
    let topics = said.map_values(|e: EvidenceView| topic_of(rule, e));
    law_distinct(tasks);
    law_distinct(lessons.filter(nonempty()));
    law_distinct(topics);
    lemma_filter_contains(lessons, nonempty(), t);
    assert(forall|i: int| 0 <= i < said.len() ==> #[trigger] tasks[i] == said[i].task);
    assert(forall|i: int| 0 <= i < said.len() ==> #[trigger] lessons[i] == said[i].lesson);
    assert(forall|i: int|
        0 <= i < said.len() ==> #[trigger] topics[i] == topic_of(rule, said[i]));
    if tasks.contains(t) {
        let i = choose|i: int| 0 <= i < tasks.len() && tasks[i] == t;
        assert(said[i].task == t);
    }
    if lessons.contains(t) {
        let i = choose|i: int| 0 <= i < lessons.len() && lessons[i] == t;
        assert(said[i].lesson == t);
    }
    if topics.contains(t) {
        let i = choose|i: int| 0 <= i < topics.len() && topics[i] == t;
        assert(topic_of(rule, said[i]) == t);
    }
    if exists|i: int| 0 <= i < said.len() && (#[trigger] said[i]).task == t {
        let i = choose|i: int| 0 <= i < said.len() && (#[trigger] said[i]).task == t;
        assert(tasks[i] == t);
    }
    if exists|i: int| 0 <= i < said.len() && (#[trigger] said[i]).lesson == t {
        let i = choose|i: int| 0 <= i < said.len() && (#[trigger] said[i]).lesson == t;
        assert(lessons[i] == t);
        assert(rule == Rule::Lesson ==> topics[i] == t);
    }
    if exists|i: int| 0 <= i < said.len() && (#[trigger] said[i]).outcome == t {
        let i = choose|i: int| 0 <= i < said.len() && (#[trigger] said[i]).outcome == t;
        assert(rule == Rule::Outcome ==> topics[i] == t);
    }
    if said.len() > 0 {
        lemma_distinct_first(topics);
    }
}

proof fn lemma_distinct_first(s: Seq<Seq<char>>)
    requires
        s.len() > 0,
    ensures
        distinct(s).len() > 0,
        distinct(s)[0] == s[0],
    decreases s.len(),
{
    reveal_with_fuel(distinct, 2);
    if s.len() > 1 {
        lemma_distinct_first(s.drop_last());
    }
}

/// What makes a group earn a file: two tasks for a lesson, three for an outcome.
/// The file stands among the knowledge, named after the first topic; the name of
/// that of an outcome says that attempts ended so.
pub proof fn law_files(g: GroupView)
    ensures
        g.rule == Rule::Lesson ==> (earns_file()(g) <==> g.tasks.len() >= 2),
        g.rule == Rule::Outcome ==> (earns_file()(g) <==> g.tasks.len() >= 3),
        g.rule == Rule::Lesson && g.topics.len() > 0 ==> path_of(g) == "knowledge/"@ + slugged(
            g.topics[0],
        ) + ".md"@,
        g.rule == Rule::Outcome && g.topics.len() > 0 ==> path_of(g) == "knowledge/attempt-"@
            + slugged(g.topics[0]) + ".md"@,
{
    reveal_strlit("knowledge");
    reveal_strlit("/");
    reveal_strlit("/attempt-");
    reveal_strlit("knowledge/");
    reveal_strlit("knowledge/attempt-");
    assert("knowledge"@ + "/"@ =~= "knowledge/"@);
    assert("knowledge"@ + "/attempt-"@ =~= "knowledge/attempt-"@);
}

/// The reason counts the tasks and names them all, and tells one recurring lesson
/// or outcome from several; of a file that is there it says so at the end.
pub proof fn law_reason(g: GroupView)
    ensures
        reason_of(g, true) == reason_of(g, false) + " — the file exists, so append"@,
        g.rule == Rule::Lesson && g.topics.len() == 1 ==> reason_of(g, false)
            == "the same lesson was recorded on "@ + decimal(g.tasks.len()) + " tasks ("@ + joined(
            g.tasks,
            ", "@,
        ) + "): the fleet keeps re-learning it"@,
        g.rule == Rule::Lesson && g.topics.len() != 1 ==> reason_of(g, false) == decimal(
            g.topics.len(),
        ) + " recurring lessons share this topic across "@ + decimal(g.tasks.len()) + " tasks ("@
            + joined(g.tasks, ", "@) + "): the fleet keeps re-learning it"@,
        g.rule == Rule::Outcome && g.topics.len() == 1 ==> reason_of(g, false) == "'"@
            + g.topics[0] + "' ended attempts on "@ + decimal(g.tasks.len()) + " tasks ("@
            + joined(g.tasks, ", "@)
            + "): a recurring failure mode worth one written cause"@,
        g.rule == Rule::Outcome && g.topics.len() != 1 ==> reason_of(g, false) == "outcomes "@
            + joined(g.topics, ", "@) + " ended attempts on "@ + decimal(g.tasks.len())
            + " tasks ("@ + joined(g.tasks, ", "@)
            + "): a recurring failure mode worth one written cause"@,
{
}

/// A group alone stays as it is, and the first group gives the rule.
pub proof fn law_merged_alone(g: GroupView, more: Seq<GroupView>)
    ensures
        merged(seq![g] + more).rule == g.rule,
        g.topics.len() > 0 ==> first_of(merged(seq![g] + more).topics) == g.topics[0],
{
    let groups = seq![g] + more;
    let topics = groups.map_values(|g: GroupView| g.topics);
    if g.topics.len() > 0 {
        lemma_concat_first(topics);
        lemma_distinct_first(concat(topics));
    }
}

proof fn lemma_concat_first(s: Seq<Seq<Seq<char>>>)
    requires
        s.len() > 0,
        s[0].len() > 0,
    ensures
        concat(s).len() > 0,
        concat(s)[0] == s[0][0],
    decreases s.len(),
{
    if s.len() > 1 {
        lemma_concat_first(s.drop_last());
    } else {
        reveal_with_fuel(concat, 2);
        assert(concat(s) =~= s[0]);
    }
}

/// Where a group comes from: every group that earns a file is that of the attempts
/// with one lesson, up to its key, or with one outcome.
proof fn lemma_group_source(said: Seq<EvidenceView>, g: GroupView) -> (key: Seq<char>)
    requires
        qualifying(said).contains(g),
    ensures
        g == group_of(g.rule, said.filter(has_key(g.rule, key))),
        g.rule == Rule::Lesson ==> key.len() > 0,
        earns_file()(g),
{
    let q = qualifying(said);
    let k = choose|k: int| 0 <= k < q.len() && q[k] == g;
    let first = groups_for(Rule::Lesson, said);
    let second = groups_for(Rule::Outcome, said);
    let rule = if k < first.filter(earns_file()).len() {
        Rule::Lesson
    } else {
        Rule::Outcome
    };
    let groups = groups_for(rule, said);
    assert(groups.filter(earns_file()).contains(g)) by {
        if rule == Rule::Outcome {
            assert(second.filter(earns_file())[k - first.filter(earns_file()).len()] == g);
        } else {
            assert(first.filter(earns_file())[k] == g);
        }
    }
    lemma_filter_contains(groups, earns_file(), g);
    let i = choose|i: int| 0 <= i < groups.len() && groups[i] == g;
    let keys = keys_for(rule, said);
    assert(keys.contains(keys[i]));
    if rule == Rule::Lesson {
        let all = said.map_values(|e: EvidenceView| normalized(e.lesson));
        law_sorted_set(all.filter(nonempty()));
        lemma_filter_contains(all, nonempty(), keys[i]);
        assert(nonempty()(keys[i]));
    }
    keys[i]
}

proof fn lemma_task_of_group(said: Seq<EvidenceView>, rule: Rule, key: Seq<char>, n: int) -> (i: int)
    requires
        0 <= n < group_of(rule, said.filter(has_key(rule, key))).tasks.len(),
    ensures
        0 <= i < said.len(),
        said[i].task == group_of(rule, said.filter(has_key(rule, key))).tasks[n],
        has_key(rule, key)(said[i]),
{
    let mine = said.filter(has_key(rule, key));
    let g = group_of(rule, mine);
    let t = g.tasks[n];
    assert(g.tasks.contains(t));
    law_group(rule, mine, t);
    let k = choose|k: int| 0 <= k < mine.len() && (#[trigger] mine[k]).task == t;
    assert(mine.contains(mine[k]));
    lemma_filter_contains(said, has_key(rule, key), mine[k]);
    choose|i: int| 0 <= i < said.len() && said[i] == mine[k]
}

/// No candidate without a recurrence. Behind each stands a lesson that two tasks
/// recorded, up to case, marks and spacing, or an outcome on three tasks; a wording
/// of that lesson, or that outcome, names the file.
pub proof fn law_candidate_recurs(
    found: Seq<KnowledgeCandidateView>,
    attempts: Attempts,
    existing: Seq<Seq<char>>,
    c: KnowledgeCandidateView,
) -> (at: (int, int, int))
    requires
        are_candidates(found, attempts, existing),
        found.contains(c),
    ensures
        ({
            let said = evidence(attempts);
            let (x, y, z) = at;
            &&& 0 <= x < said.len()
            &&& 0 <= y < said.len()
            &&& said[x].task != said[y].task
            &&& {
                ||| {
                    &&& normalized(said[x].lesson).len() > 0
                    &&& normalized(said[x].lesson) == normalized(said[y].lesson)
                    &&& exists|i: int|
                        0 <= i < said.len() && normalized((#[trigger] said[i]).lesson)
                            == normalized(said[x].lesson) && c.path == "knowledge/"@ + slugged(
                            said[i].lesson,
                        ) + ".md"@
                }
                ||| {
                    &&& 0 <= z < said.len()
                    &&& said[z].task != said[x].task
                    &&& said[z].task != said[y].task
                    &&& said[x].outcome == said[y].outcome
                    &&& said[x].outcome == said[z].outcome
                    &&& c.path == "knowledge/attempt-"@ + slugged(said[x].outcome) + ".md"@
                }
            }
        }),
{
    law_candidates_are_earned(found, attempts, existing, c);
    let said = evidence(attempts);
    let g = choose|g: GroupView| #[trigger] qualifying(said).contains(g) && path_of(g) == c.path;
    let key = lemma_group_source(said, g);
    lemma_groups_are_distinct(said, g);
    law_files(g);
    let rule = g.rule;
    let mine = said.filter(has_key(rule, key));
    let x = lemma_task_of_group(said, rule, key, 0);
    let y = lemma_task_of_group(said, rule, key, 1);
    assert(g.tasks[0] != g.tasks[1]);
    assert(mine.len() > 0) by {
        assert(said.contains(said[x]));
        lemma_filter_contains(said, has_key(rule, key), said[x]);
    }
    law_group(rule, mine, said[x].task);
    assert(mine.contains(mine[0]));
    lemma_filter_contains(said, has_key(rule, key), mine[0]);
    let i = choose|i: int| 0 <= i < said.len() && said[i] == mine[0];
    assert(has_key(rule, key)(said[i]));
    assert(g.topics.len() > 0) by {
        assert(topic_of(rule, mine[0]) == mine.map_values(
            |e: EvidenceView| topic_of(rule, e),
        )[0]);
        lemma_distinct_first(mine.map_values(|e: EvidenceView| topic_of(rule, e)));
    }
    match rule {
        Rule::Lesson => {
            assert(normalized(said[i].lesson) == normalized(said[x].lesson));
            (x, y, x)
        },
        Rule::Outcome => {
            let z = lemma_task_of_group(said, rule, key, 2);
            assert(g.tasks[2] != g.tasks[0] && g.tasks[2] != g.tasks[1]);
            (x, y, z)
        },
    }
}

/// A candidate tells of nothing but what attempts say: its tasks made them, its
/// lessons were recorded, and its topics are lessons or outcomes; its first topic
/// is its topic.
pub proof fn law_candidate_is_evidence(
    found: Seq<KnowledgeCandidateView>,
    attempts: Attempts,
    existing: Seq<Seq<char>>,
    c: KnowledgeCandidateView,
    t: Seq<char>,
)
    requires
        are_candidates(found, attempts, existing),
        found.contains(c),
    ensures
        c.tasks.contains(t) ==> exists|i: int|
            0 <= i < evidence(attempts).len() && (#[trigger] evidence(attempts)[i]).task == t,
        c.lessons.contains(t) ==> t.len() > 0 && exists|i: int|
            0 <= i < evidence(attempts).len() && (#[trigger] evidence(attempts)[i]).lesson == t,
        c.topics.contains(t) ==> exists|i: int|
            0 <= i < evidence(attempts).len() && ((#[trigger] evidence(attempts)[i]).lesson == t
                || evidence(attempts)[i].outcome == t),
        c.topics.len() > 0 ==> c.topic == c.topics[0],
        exists|rule: Rule|
            c.reason == #[trigger] reason_of(
                (GroupView { rule, topics: c.topics, tasks: c.tasks, lessons: c.lessons }),
                existing.contains(c.path),
            ),
{
    lemma_same_candidates(found, attempts, existing);
    let said = evidence(attempts);
    let q = qualifying(said);
    let all = proposals(q, existing);
    let x = choose|x: int| 0 <= x < all.len() && all[x] == c;
    let here = q.filter(has_path(c.path));
    let m = merged(here);
    assert(c.reason == reason_of(
        (GroupView { rule: m.rule, topics: c.topics, tasks: c.tasks, lessons: c.lessons }),
        existing.contains(c.path),
    ));
    law_merged(here, t);
    if c.tasks.contains(t) {
        let h = choose|h: int| 0 <= h < here.len() && (#[trigger] here[h]).tasks.contains(t);
        lemma_said(said, c.path, h, t);
    }
    if c.lessons.contains(t) {
        let h = choose|h: int| 0 <= h < here.len() && (#[trigger] here[h]).lessons.contains(t);
        lemma_said(said, c.path, h, t);
    }
    if c.topics.contains(t) {
        let h = choose|h: int| 0 <= h < here.len() && (#[trigger] here[h]).topics.contains(t);
        lemma_said(said, c.path, h, t);
    }
}

proof fn lemma_said(said: Seq<EvidenceView>, path: Seq<char>, h: int, t: Seq<char>)
    requires
        0 <= h < qualifying(said).filter(has_path(path)).len(),
    ensures
        ({
            let g = qualifying(said).filter(has_path(path))[h];
            &&& g.tasks.contains(t) ==> exists|i: int|
                0 <= i < said.len() && (#[trigger] said[i]).task == t
            &&& g.lessons.contains(t) ==> t.len() > 0 && exists|i: int|
                0 <= i < said.len() && (#[trigger] said[i]).lesson == t
            &&& g.topics.contains(t) ==> exists|i: int|
                0 <= i < said.len() && ((#[trigger] said[i]).lesson == t || said[i].outcome == t)
        }),
{
    let q = qualifying(said);
    let here = q.filter(has_path(path));
    let g = here[h];
    assert(here.contains(g));
    lemma_filter_contains(q, has_path(path), g);
    let key = lemma_group_source(said, g);
    let p = has_key(g.rule, key);
    let mine = said.filter(p);
    law_group(g.rule, mine, t);
    assert forall|k: int| 0 <= k < mine.len() implies said.contains(#[trigger] mine[k]) by {
        assert(mine.contains(mine[k]));
        lemma_filter_contains(said, p, mine[k]);
    }
    if g.tasks.contains(t) {
        let k = choose|k: int| 0 <= k < mine.len() && (#[trigger] mine[k]).task == t;
        assert(said.contains(mine[k]));
        let i = choose|i: int| 0 <= i < said.len() && said[i] == mine[k];
        assert(said[i].task == t);
    }
    if g.lessons.contains(t) {
        let k = choose|k: int| 0 <= k < mine.len() && (#[trigger] mine[k]).lesson == t;
        assert(said.contains(mine[k]));
        let i = choose|i: int| 0 <= i < said.len() && said[i] == mine[k];
        assert(said[i].lesson == t);
    }
    if g.topics.contains(t) {
        match g.rule {
            Rule::Lesson => {
                let k = choose|k: int| 0 <= k < mine.len() && (#[trigger] mine[k]).lesson == t;
                assert(said.contains(mine[k]));
                let i = choose|i: int| 0 <= i < said.len() && said[i] == mine[k];
                assert(said[i].lesson == t);
            },
            Rule::Outcome => {
                let k = choose|k: int| 0 <= k < mine.len() && (#[trigger] mine[k]).outcome == t;
                assert(said.contains(mine[k]));
                let i = choose|i: int| 0 <= i < said.len() && said[i] == mine[k];
                assert(said[i].outcome == t);
            },
        }
    }
}

/// A group grows by one attempt at a time: what it holds stays where it is, and
/// what is new comes last.
pub proof fn law_group_grows(rule: Rule, said: Seq<EvidenceView>, e: EvidenceView)
    ensures
        ({
            let a = group_of(rule, said);
            let b = group_of(rule, said.push(e));
            let topic = match rule {
                Rule::Lesson => e.lesson,
                Rule::Outcome => e.outcome,
            };
            &&& a.tasks.contains(e.task) ==> b.tasks == a.tasks
            &&& !a.tasks.contains(e.task) ==> b.tasks == a.tasks.push(e.task)
            &&& a.topics.contains(topic) ==> b.topics == a.topics
            &&& !a.topics.contains(topic) ==> b.topics == a.topics.push(topic)
            &&& e.lesson.len() == 0 || a.lessons.contains(e.lesson) ==> b.lessons == a.lessons
            &&& e.lesson.len() > 0 && !a.lessons.contains(e.lesson) ==> b.lessons
                == a.lessons.push(e.lesson)
        }),
{
    lemma_group_of_push(rule, said, e);
}

/// There is a group for each key that occurs, and no other, in ascending order:
/// lessons are grouped by their key, where they have one, and outcomes as they are.
pub proof fn law_groups(rule: Rule, said: Seq<EvidenceView>, key: Seq<char>, i: int, n: int)
    requires
        0 <= i < said.len(),
        0 <= n < groups_for(rule, said).len(),
    ensures
        ascending(keys_for(rule, said)),
        groups_for(rule, said).len() == keys_for(rule, said).len(),
        keys_for(Rule::Lesson, said).contains(normalized(said[i].lesson)) <==> normalized(
            said[i].lesson,
        ).len() > 0,
        keys_for(Rule::Outcome, said).contains(said[i].outcome),
        keys_for(Rule::Lesson, said).contains(key) ==> key.len() > 0 && exists|j: int|
            0 <= j < said.len() && normalized((#[trigger] said[j]).lesson) == key,
        keys_for(Rule::Outcome, said).contains(key) ==> exists|j: int|
            0 <= j < said.len() && (#[trigger] said[j]).outcome == key,
        rule == Rule::Lesson ==> groups_for(rule, said)[n] == group_of(
            rule,
            said.filter(|e: EvidenceView| normalized(e.lesson) == keys_for(rule, said)[n]),
        ),
        rule == Rule::Outcome ==> groups_for(rule, said)[n] == group_of(
            rule,
            said.filter(|e: EvidenceView| e.outcome == keys_for(rule, said)[n]),
        ),
{
    let all = said.map_values(|e: EvidenceView| normalized(e.lesson));
    let outcomes = said.map_values(|e: EvidenceView| e.outcome);
    law_sorted_set(all.filter(nonempty()));
    law_sorted_set(outcomes);
    assert(all[i] == normalized(said[i].lesson));
    assert(all.contains(all[i]));
    lemma_filter_contains(all, nonempty(), all[i]);
    assert(outcomes[i] == said[i].outcome);
    assert(outcomes.contains(outcomes[i]));
    lemma_filter_contains(all, nonempty(), key);
    if keys_for(Rule::Lesson, said).contains(key) {
        assert(nonempty()(key));
        let j = choose|j: int| 0 <= j < all.len() && all[j] == key;
        assert(normalized(said[j].lesson) == key);
    }
    if keys_for(Rule::Outcome, said).contains(key) {
        assert(outcomes.contains(key));
        let j = choose|j: int| 0 <= j < outcomes.len() && outcomes[j] == key;
        assert(said[j].outcome == key);
    }
    let k = keys_for(rule, said)[n];
    match rule {
        Rule::Lesson => {
            assert((|e: EvidenceView| normalized(e.lesson) == k) =~= has_key(rule, k));
        },
        Rule::Outcome => {
            assert((|e: EvidenceView| e.outcome == k) =~= has_key(rule, k));
        },
    }
}

/// Merging takes one group in after the other: what is there stays where it is,
/// and what is new comes last.
pub proof fn law_merged_in_turn(groups: Seq<GroupView>, g: GroupView)
    requires
        groups.len() > 0,
    ensures
        merged(groups.push(g)).rule == merged(groups).rule,
        merged(groups.push(g)).topics == distinct_from(merged(groups).topics, g.topics),
        merged(groups.push(g)).tasks == distinct_from(merged(groups).tasks, g.tasks),
        merged(groups.push(g)).lessons == distinct_from(merged(groups).lessons, g.lessons),
{
    let more = groups.push(g);
    let topics = |g: GroupView| g.topics;
    let tasks = |g: GroupView| g.tasks;
    let lessons = |g: GroupView| g.lessons;
    assert(more.map_values(topics) =~= groups.map_values(topics).push(g.topics));
    assert(more.map_values(tasks) =~= groups.map_values(tasks).push(g.tasks));
    assert(more.map_values(lessons) =~= groups.map_values(lessons).push(g.lessons));
    lemma_concat_push(groups.map_values(topics), g.topics);
    lemma_concat_push(groups.map_values(tasks), g.tasks);
    lemma_concat_push(groups.map_values(lessons), g.lessons);
    law_distinct_of_both(concat(groups.map_values(topics)), g.topics);
    law_distinct_of_both(concat(groups.map_values(tasks)), g.tasks);
    law_distinct_of_both(concat(groups.map_values(lessons)), g.lessons);
}

/// A file that a lesson earns gives a lesson's reason, also where an outcome earns
/// the same file.
pub proof fn law_lessons_give_the_reason(
    found: Seq<KnowledgeCandidateView>,
    attempts: Attempts,
    existing: Seq<Seq<char>>,
    c: KnowledgeCandidateView,
    g: GroupView,
)
    requires
        are_candidates(found, attempts, existing),
        found.contains(c),
        groups_for(Rule::Lesson, evidence(attempts)).contains(g),
        g.tasks.len() >= 2,
        path_of(g) == c.path,
    ensures
        c.reason == reason_of(
            (GroupView {
                rule: Rule::Lesson,
                topics: c.topics,
                tasks: c.tasks,
                lessons: c.lessons,
            }),
            existing.contains(c.path),
        ),
{
    lemma_same_candidates(found, attempts, existing);
    let said = evidence(attempts);
    let q = qualifying(said);
    let all = proposals(q, existing);
    let x = choose|x: int| 0 <= x < all.len() && all[x] == c;
    let p = has_path(c.path);
    let groups = groups_for(Rule::Lesson, said);
    let first = groups.filter(earns_file());
    let second = groups_for(Rule::Outcome, said).filter(earns_file());
    let k = choose|k: int| 0 <= k < groups.len() && groups[k] == g;
    assert(g.rule == Rule::Lesson);
    lemma_filter_contains(groups, earns_file(), g);
    lemma_filter_contains(first, p, g);
    Seq::filter_distributes_over_add(first, second, p);
    let here = q.filter(p);
    let lead = first.filter(p)[0];
    assert(first.filter(p).contains(lead));
    lemma_filter_contains(first, p, lead);
    lemma_filter_contains(groups, earns_file(), lead);
    let i = choose|i: int| 0 <= i < groups.len() && groups[i] == lead;
    assert(lead.rule == Rule::Lesson);
    assert(here[0] == lead);
    assert(merged(here).rule == Rule::Lesson);
    assert(c =~= proposal(c.path, merged(here), existing));
    assert((GroupView {
        rule: Rule::Lesson,
        topics: c.topics,
        tasks: c.tasks,
        lessons: c.lessons,
    }) =~= merged(here));
}

} // verus!
