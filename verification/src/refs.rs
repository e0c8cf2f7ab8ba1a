//! What the refs say: leases, attempts and verdicts, as the mirror lists them.

use crate::clock::{instant_key, law_instant_key_orders, valid_instant, Timestamp};
use crate::error::{result_view, Error, ErrorView, Result};
use crate::model::{
    AttemptRecord, AttemptRecordView, HeldLease, HeldLeaseView, LeasePayload, LeasePayloadView,
    VerdictView,
};
use crate::order::{
    ascending, key_lt, law_sort_is_stable, law_stably_sorted, lemma_rank, sort_by_keys,
    stable_order, stably_sorted, SortKey,
};
use crate::runner::probed;
use crate::table::{keys_of, law_put, lookup, put, Table};
use crate::text::{
    before, blank, law_without_leading, lemma_find, lemma_find_bounds, lex_lt, lines_of,
    three_fields, trimmed, views, without_leading,
};
use vstd::prelude::*;

verus! {

/// The refs of leases.
pub const LEASE_PREFIX: &'static str = "refs/loom/lease/";

/// The refs of attempts.
pub const ATTEMPT_PREFIX: &'static str = "refs/loom/attempt/";

/// The refs of verdicts.
pub const VERDICT_PREFIX: &'static str = "refs/loom/verdict/";

/// The local mirror of the remote's refs.
pub const MIRROR: &'static str = "refs/loom/mirror/";

/// The ref of the merge lock.
pub const MERGE_LOCK: &'static str = "refs/loom/merge-lock";

/// The ref of an attempt.
pub open spec fn attempt_ref(task: Seq<char>, id: Seq<char>) -> Seq<char> {
    "refs/loom/attempt/"@ + task + "/"@ + id
}

// ----------------------------------------------------------------------- rows

/// A mirrored ref: its name without the prefix, its commit, and the message of
/// that commit.
#[derive(Debug)]
pub struct MirrorRow {
    /// The ref's name behind the prefix.
    pub suffix: String,
    /// The commit.
    pub sha: String,
    /// The message.
    pub msg: String,
}

/// The model of a [`MirrorRow`].
#[verifier::ext_equal]
pub struct MirrorRowView {
    pub suffix: Seq<char>,
    pub sha: Seq<char>,
    pub msg: Seq<char>,
}

impl View for MirrorRow {
    type V = MirrorRowView;

    open spec fn view(&self) -> MirrorRowView {
        MirrorRowView { suffix: self.suffix@, sha: self.sha@, msg: self.msg@ }
    }
}

/// The mirrored name of a prefix.
pub open spec fn mirrored(prefix: Seq<char>) -> Seq<char> {
    "refs/loom/mirror/"@ + without_leading(prefix, "refs/loom/"@)
}

/// The command that lists mirrored refs: name, commit and message of each,
/// separated by NUL.
pub open spec fn list_args(prefix: Seq<char>) -> Seq<Seq<char>> {
    seq![
        "for-each-ref"@,
        "--format=%(refname)%00%(objectname)%00%(contents:subject)%(contents:body)"@,
        mirrored(prefix),
    ]
}

/// The ref that a line of the listing tells of.
pub open spec fn row_of(line: Seq<char>, prefix: Seq<char>) -> Option<MirrorRowView> {
    match three_fields(line) {
        Some(f) if !blank(line) => Some(
            MirrorRowView {
                suffix: without_leading(f.0, mirrored(prefix)),
                sha: f.1,
                msg: trimmed(f.2),
            },
        ),
        _ => None,
    }
}

/// The refs that the lines of a listing tell of, in their order.
pub open spec fn rows_of(lines: Seq<Seq<char>>, prefix: Seq<char>) -> Seq<MirrorRowView>
    decreases lines.len(),
{
    if lines.len() == 0 {
        Seq::empty()
    } else {
        let init = rows_of(lines.drop_last(), prefix);
        match row_of(lines.last(), prefix) {
            Some(row) => init.push(row),
            None => init,
        }
    }
}

/// What a listing comes to: a failing command lists nothing.
pub open spec fn listed(
    reply: std::result::Result<Seq<char>, ErrorView>,
    prefix: Seq<char>,
) -> std::result::Result<Seq<MirrorRowView>, ErrorView> {
    match probed(reply) {
        Ok(Some(out)) => Ok(rows_of(lines_of(out), prefix)),
        Ok(None) => Ok(Seq::empty()),
        Err(e) => Err(e),
    }
}

/// A mirrored ref whose message has been read as JSON: the payload, or what the
/// JSON reader says is wrong with it.
#[derive(Debug)]
pub struct Decoded<T: View> {
    /// The ref's name behind the prefix.
    pub suffix: String,
    /// The commit.
    pub sha: String,
    /// The payload.
    pub value: std::result::Result<T, String>,
}

/// The model of a [`Decoded`] row.
#[verifier::ext_equal]
pub struct DecodedView<V> {
    pub suffix: Seq<char>,
    pub sha: Seq<char>,
    pub value: std::result::Result<V, Seq<char>>,
}

impl<T: View> View for Decoded<T> {
    type V = DecodedView<T::V>;

    open spec fn view(&self) -> DecodedView<T::V> {
        DecodedView {
            suffix: self.suffix@,
            sha: self.sha@,
            value: match self.value {
                Ok(t) => Ok(t@),
                Err(e) => Err(e@),
            },
        }
    }
}

/// The leases by task: a later row for a task replaces an earlier one, and the
/// first payload that cannot be read is an error.
pub open spec fn lease_table(
    rows: Seq<DecodedView<LeasePayloadView>>,
) -> std::result::Result<Seq<(Seq<char>, HeldLeaseView)>, ErrorView>
    decreases rows.len(),
{
    if rows.len() == 0 {
        Ok(Seq::empty())
    } else {
        let row = rows.last();
        match lease_table(rows.drop_last()) {
            Err(e) => Err(e),
            Ok(t) => match row.value {
                Ok(payload) => Ok(put(t, row.suffix, HeldLeaseView { payload, sha: row.sha })),
                Err(e) => Err(
                    ErrorView::Shape {
                        context: "lease payload for "@ + row.suffix + ": "@ + e,
                    },
                ),
            },
        }
    }
}

/// The task of an attempt ref: the part of its name before the first slash.
pub open spec fn task_of(suffix: Seq<char>) -> Seq<char> {
    before(suffix, '/')
}

/// The attempts that a table holds for a task.
pub open spec fn records_of(
    t: Seq<(Seq<char>, Seq<AttemptRecordView>)>,
    task: Seq<char>,
) -> Seq<AttemptRecordView> {
    match lookup(t, task) {
        Some(records) => records,
        None => Seq::empty(),
    }
}

/// The attempts by task, in the order of the rows; the first payload that
/// cannot be read is an error.
pub open spec fn grouped(
    rows: Seq<DecodedView<AttemptRecordView>>,
) -> std::result::Result<Seq<(Seq<char>, Seq<AttemptRecordView>)>, ErrorView>
    decreases rows.len(),
{
    if rows.len() == 0 {
        Ok(Seq::empty())
    } else {
        let row = rows.last();
        match grouped(rows.drop_last()) {
            Err(e) => Err(e),
            Ok(t) => match row.value {
                Ok(record) => Ok(
                    put(t, task_of(row.suffix), records_of(t, task_of(row.suffix)).push(record)),
                ),
                Err(e) => Err(
                    ErrorView::Shape { context: "attempt payload "@ + row.suffix + ": "@ + e },
                ),
            },
        }
    }
}

/// The key that puts attempts in the order of time.
pub open spec fn time_key(record: AttemptRecordView) -> (int, Seq<char>) {
    (instant_key(record.at), Seq::empty())
}

/// `after` holds the attempts of `before` in the order of time; attempts of the
/// same instant keep their order.
pub open spec fn chronological(
    before: Seq<AttemptRecordView>,
    after: Seq<AttemptRecordView>,
) -> bool {
    stably_sorted(before, before.map_values(|a: AttemptRecordView| time_key(a)), after)
}

/// The same tasks in both tables, with the attempts of `before` in the order of
/// time in `after`.
pub open spec fn each_chronological(
    before: Seq<(Seq<char>, Seq<AttemptRecordView>)>,
    after: Seq<(Seq<char>, Seq<AttemptRecordView>)>,
) -> bool {
    &&& after.len() == before.len()
    &&& forall|i: int|
        0 <= i < before.len() ==> (#[trigger] after[i]).0 == before[i].0 && chronological(
            before[i].1,
            after[i].1,
        )
}

/// The verdict on a task: that of the first row that is the task's.
pub open spec fn verdict_in(
    rows: Seq<DecodedView<VerdictView>>,
    task: Seq<char>,
) -> std::result::Result<Option<VerdictView>, ErrorView>
    decreases rows.len(),
{
    if rows.len() == 0 {
        Ok(None)
    } else if rows[0].suffix == task {
        match rows[0].value {
            Ok(v) => Ok(Some(v)),
            Err(e) => Err(ErrorView::Shape { context: "verdict payload "@ + task + ": "@ + e }),
        }
    } else {
        verdict_in(rows.drop_first(), task)
    }
}

/// The lease on a task, if the agent holds it or is forced to act.
pub open spec fn held_by(
    leases: Seq<(Seq<char>, HeldLeaseView)>,
    task: Seq<char>,
    agent: Seq<char>,
    force: bool,
) -> std::result::Result<HeldLeaseView, ErrorView> {
    match lookup(leases, task) {
        None => Err(ErrorView::NoLease(task)),
        Some(held) => if held.payload.agent != agent && !force {
            Err(ErrorView::NotLeaseHolder { task, holder: held.payload.agent })
        } else {
            Ok(held)
        },
    }
}

/// Copies of attempts.
pub fn copy_records(v: &Vec<AttemptRecord>) -> (r: Vec<AttemptRecord>)
    ensures
        views(r@) == views(v@),
{
    let mut r: Vec<AttemptRecord> = Vec::new();
    for i in 0..v.len()
        invariant
            r@.len() == i,
            forall|j: int| 0 <= j < i ==> (#[trigger] r@[j])@ == v@[j]@,
    {
        r.push(v[i].clone());
    }
    assert(views(r@) =~= views(v@));
    r
}

/// Attempts in the order of time.
pub fn in_time_order(v: &Vec<AttemptRecord>) -> (r: Vec<AttemptRecord>)
    ensures
        chronological(views(v@), views(r@)),
{
    let mut keys: Vec<SortKey> = Vec::new();
    for i in 0..v.len()
        invariant
            keys@.len() == i,
            forall|j: int| 0 <= j < i ==> (#[trigger] keys@[j])@ == time_key(v@[j]@),
    {
        let key = SortKey { number: v[i].at.key(), text: String::new() };
        assert(key@ == time_key(v@[i as int]@)) by {
            assert(key.text@ =~= Seq::<char>::empty());
        }
        keys.push(key);
    }
    assert(views(keys@) =~= views(v@).map_values(|a: AttemptRecordView| time_key(a)));
    sort_by_keys(v, &keys)
}

pub proof fn lemma_lease_table_stops(rows: Seq<DecodedView<LeasePayloadView>>, n: int)
    requires
        0 <= n <= rows.len(),
        lease_table(rows.take(n)) is Err,
    ensures
        lease_table(rows) == lease_table(rows.take(n)),
    decreases rows.len(),
{
    if n < rows.len() {
        assert(rows.drop_last().take(n) =~= rows.take(n));
        lemma_lease_table_stops(rows.drop_last(), n);
    } else {
        assert(rows.take(n) =~= rows);
    }
}

pub proof fn lemma_grouped_stops(rows: Seq<DecodedView<AttemptRecordView>>, n: int)
    requires
        0 <= n <= rows.len(),
        grouped(rows.take(n)) is Err,
    ensures
        grouped(rows) == grouped(rows.take(n)),
    decreases rows.len(),
{
    if n < rows.len() {
        assert(rows.drop_last().take(n) =~= rows.take(n));
        lemma_grouped_stops(rows.drop_last(), n);
    } else {
        assert(rows.take(n) =~= rows);
    }
}

pub proof fn lemma_put_last(
    t: Seq<(Seq<char>, Seq<AttemptRecordView>)>,
    out: Seq<(Seq<char>, Seq<AttemptRecordView>)>,
    i: int,
    records: Seq<AttemptRecordView>,
)
    requires
        0 <= i < t.len(),
        ascending(keys_of(t)),
        each_chronological(t.take(i), out),
        chronological(t[i].1, records),
    ensures
        each_chronological(t.take(i + 1), put(out, t[i].0, records)),
{
    let keys = keys_of(out);
    assert forall|j: int| 0 <= j < i implies lex_lt(#[trigger] keys[j], t[i].0) by {
        assert(out[j].0 == t.take(i)[j].0);
        assert(lex_lt(keys_of(t)[j], keys_of(t)[i]));
    }
    lemma_rank(keys, t[i].0, i);
    let n = put(out, t[i].0, records);
    assert(n =~= out.push((t[i].0, records)));
    let u = t.take(i + 1);
    assert forall|j: int| 0 <= j < u.len() implies (#[trigger] n[j]).0 == u[j].0 && chronological(
        u[j].1,
        n[j].1,
    ) by {
        if j < i {
            assert(out[j].0 == t.take(i)[j].0);
        }
    }
}

/// The lease on a task, if the agent holds it or is forced to act.
pub fn check_holder(leases: &Table<HeldLease>, task: &str, agent: &str, force: bool) -> (r: Result<
    HeldLease,
>)
    ensures
        result_view(r) == held_by(leases@, task@, agent@, force),
{
    match leases.get(task) {
        None => Err(Error::NoLease(task.to_string())),
        Some(held) => {
            if !(*held.payload.agent.as_str() == *agent) && !force {
                Err(
                    Error::NotLeaseHolder {
                        task: task.to_string(),
                        holder: held.payload.agent.clone(),
                    },
                )
            } else {
                Ok(held.clone())
            }
        },
    }
}

/// A lease that begins now.
pub open spec fn fresh_lease(
    task: Seq<char>,
    agent: Seq<char>,
    tier: usize,
    now: (i64, u32),
) -> LeasePayloadView {
    LeasePayloadView { agent, task, tier, acquired: Some(now), heartbeat: now }
}

/// A lease that begins now.
pub fn begin_lease(task: &str, agent: &str, tier: usize, now: Timestamp) -> (r: LeasePayload)
    ensures
        r@ == fresh_lease(task@, agent@, tier, now@),
{
    LeasePayload {
        agent: agent.to_string(),
        task: task.to_string(),
        tier,
        acquired: Some(now),
        heartbeat: now,
    }
}

/// The claim to the merge lock that begins now.
pub fn begin_merge_lock(agent: &str, now: Timestamp) -> (r: LeasePayload)
    ensures
        r@ == fresh_lease("merge-lock"@, agent@, 0, now@),
{
    begin_lease("merge-lock", agent, 0, now)
}

/// A lease with a new sign of life, and the commit that it replaces.
pub open spec fn renewed(
    held: HeldLeaseView,
    task: Seq<char>,
    agent: Seq<char>,
    now: (i64, u32),
) -> HeldLeaseView {
    HeldLeaseView {
        payload: LeasePayloadView {
            agent,
            task,
            tier: held.payload.tier,
            acquired: held.payload.acquired,
            heartbeat: now,
        },
        sha: held.sha,
    }
}

/// The lease of the agent with a new sign of life: only the heartbeat changes.
/// It comes with the commit that it replaces.
pub fn renew_lease(leases: &Table<HeldLease>, task: &str, agent: &str, now: Timestamp) -> (r: Result<
    HeldLease,
>)
    ensures
        result_view(r) == match held_by(leases@, task@, agent@, false) {
            Ok(held) => Ok(renewed(held, task@, agent@, now@)),
            Err(e) => Err(e),
        },
{
    match check_holder(leases, task, agent, false) {
        Ok(held) => Ok(
            HeldLease {
                payload: LeasePayload {
                    agent: agent.to_string(),
                    task: task.to_string(),
                    tier: held.payload.tier,
                    acquired: held.payload.acquired,
                    heartbeat: now,
                },
                sha: held.sha,
            },
        ),
        Err(e) => Err(e),
    }
}

// ----------------------------------------------------------------------- laws

/// Reading a mirrored ref gives back the name that it was written under: the
/// suffix behind the prefix. (A name that itself begins with the mirrored
/// prefix would lose that part.)
pub proof fn law_mirrored_name(prefix: Seq<char>, name: Seq<char>)
    requires
        !mirrored(prefix).is_prefix_of(name),
    ensures
        without_leading(mirrored(prefix) + name, mirrored(prefix)) == name,
{
    let p = mirrored(prefix);
    let s = p + name;
    assert(p.len() > 0) by {
        reveal_strlit("refs/loom/mirror/");
    }
    assert(s.take(p.len() as int) =~= p);
    assert(p.is_prefix_of(s));
    assert(s.skip(p.len() as int) =~= name);
    reveal_with_fuel(without_leading, 2);
}

/// An attempt is filed under the task that its ref names.
pub proof fn law_attempt_is_filed_under_its_task(task: Seq<char>, id: Seq<char>)
    requires
        !task.contains('/'),
    ensures
        task_of(task + "/"@ + id) == task,
{
    reveal_strlit("/");
    let s = task + "/"@ + id;
    assert(s[task.len() as int] == '/');
    assert forall|j: int| 0 <= j < task.len() implies s[j] != '/' by {
        assert(task[j] == s[j]);
        assert(task.contains(task[j]));
    }
    lemma_find(s, '/', task.len() as int);
    assert(s.take(task.len() as int) =~= task);
}

/// Attempts of different tasks or with different ids have different refs, so
/// that none ever overwrites another.
pub proof fn law_attempt_refs_differ(
    task: Seq<char>,
    id: Seq<char>,
    other_task: Seq<char>,
    other_id: Seq<char>,
)
    requires
        !task.contains('/'),
        !other_task.contains('/'),
        attempt_ref(task, id) == attempt_ref(other_task, other_id),
    ensures
        task == other_task,
        id == other_id,
{
    let head = "refs/loom/attempt/"@;
    let n = head.len() as int;
    let a = task + "/"@ + id;
    let b = other_task + "/"@ + other_id;
    assert(attempt_ref(task, id).skip(n) =~= a);
    assert(attempt_ref(other_task, other_id).skip(n) =~= b);
    law_attempt_is_filed_under_its_task(task, id);
    law_attempt_is_filed_under_its_task(other_task, other_id);
    reveal_strlit("/");
    assert(a.skip(task.len() as int + 1) =~= id);
    assert(b.skip(task.len() as int + 1) =~= other_id);
}

/// Grouping loses no attempt and invents none: a task has exactly the attempts
/// of the rows that are filed under it, in their order.
pub proof fn law_grouped(rows: Seq<DecodedView<AttemptRecordView>>, task: Seq<char>)
    requires
        grouped(rows) is Ok,
    ensures
        records_of(grouped(rows)->Ok_0, task) == rows.filter(
            |row: DecodedView<AttemptRecordView>| task_of(row.suffix) == task,
        ).map_values(|row: DecodedView<AttemptRecordView>| row.value->Ok_0),
        ascending(keys_of(grouped(rows)->Ok_0)),
        forall|i: int| 0 <= i < rows.len() ==> (#[trigger] rows[i]).value is Ok,
    decreases rows.len(),
{
    let p = |row: DecodedView<AttemptRecordView>| task_of(row.suffix) == task;
    let f = |row: DecodedView<AttemptRecordView>| row.value->Ok_0;
    reveal(Seq::filter);
    if rows.len() > 0 {
        let init = rows.drop_last();
        let row = rows.last();
        law_grouped(init, task);
        law_grouped(init, task_of(row.suffix));
        let t = grouped(init)->Ok_0;
        let there = task_of(row.suffix);
        law_put(t, there, records_of(t, there).push(row.value->Ok_0), task);
        assert(rows.filter(p).map_values(f) =~= if p(row) {
            init.filter(p).map_values(f).push(f(row))
        } else {
            init.filter(p).map_values(f)
        });
        assert forall|i: int| 0 <= i < rows.len() implies (#[trigger] rows[i]).value is Ok by {
            if i < rows.len() - 1 {
                assert(init[i] == rows[i]);
            }
        }
    } else {
        assert(rows.filter(p).map_values(f) =~= Seq::<AttemptRecordView>::empty());
    }
}

/// Putting attempts in the order of time keeps exactly the attempts, and none
/// comes before an earlier one.
pub proof fn law_chronological(before: Seq<AttemptRecordView>, after: Seq<AttemptRecordView>)
    requires
        chronological(before, after),
    ensures
        after.len() == before.len(),
        forall|a: AttemptRecordView| after.contains(a) <==> before.contains(a),
        forall|i: int, j: int|
            0 <= i < j < after.len() ==> instant_key((#[trigger] after[i]).at) <= instant_key(
                (#[trigger] after[j]).at,
            ),
{
    let key = |a: AttemptRecordView| time_key(a);
    law_stably_sorted(before, key, after);
    assert forall|i: int, j: int| 0 <= i < j < after.len() implies instant_key(
        (#[trigger] after[i]).at,
    ) <= instant_key((#[trigger] after[j]).at) by {
        assert(!key_lt(key(after[j]), key(after[i])));
    }
}

/// Whoever acts on a lease without force holds it.
pub proof fn law_only_the_holder_acts(
    leases: Seq<(Seq<char>, HeldLeaseView)>,
    task: Seq<char>,
    agent: Seq<char>,
)
    ensures
        held_by(leases, task, agent, false) is Ok <==> (lookup(leases, task) is Some && lookup(
            leases,
            task,
        )->Some_0.payload.agent == agent),
        held_by(leases, task, agent, true) is Ok <==> lookup(leases, task) is Some,
{
}

/// What git lists of a ref is read back: its name behind the prefix, its commit,
/// and its message without surrounding white space.
pub proof fn law_row_reads_back(
    prefix: Seq<char>,
    name: Seq<char>,
    sha: Seq<char>,
    msg: Seq<char>,
)
    requires
        !mirrored(prefix).is_prefix_of(name),
        !(mirrored(prefix) + name).contains('\0'),
        !sha.contains('\0'),
        !blank(mirrored(prefix) + name + seq!['\0'] + sha + seq!['\0'] + msg),
    ensures
        row_of(mirrored(prefix) + name + seq!['\0'] + sha + seq!['\0'] + msg, prefix) == Some(
            MirrorRowView { suffix: name, sha, msg: trimmed(msg) },
        ),
{
    let refname = mirrored(prefix) + name;
    let line = refname + seq!['\0'] + sha + seq!['\0'] + msg;
    let i = refname.len() as int;
    assert forall|j: int| 0 <= j < i implies line[j] != '\0' by {
        assert(line[j] == refname[j]);
        assert(refname.contains(refname[j]));
    }
    lemma_find(line, '\0', i);
    let rest = line.skip(i + 1);
    assert(rest =~= sha + seq!['\0'] + msg);
    let k = sha.len() as int;
    assert forall|j: int| 0 <= j < k implies rest[j] != '\0' by {
        assert(rest[j] == sha[j]);
        assert(sha.contains(sha[j]));
    }
    lemma_find(rest, '\0', k);
    assert(line.take(i) =~= refname);
    assert(rest.take(k) =~= sha);
    assert(rest.skip(k + 1) =~= msg);
    law_mirrored_name(prefix, name);
}

proof fn lemma_lookup_chronological(
    before: Seq<(Seq<char>, Seq<AttemptRecordView>)>,
    after: Seq<(Seq<char>, Seq<AttemptRecordView>)>,
    task: Seq<char>,
)
    requires
        each_chronological(before, after),
    ensures
        lookup(after, task) is Some <==> lookup(before, task) is Some,
        lookup(before, task) is Some ==> chronological(
            lookup(before, task)->Some_0,
            lookup(after, task)->Some_0,
        ),
    decreases before.len(),
{
    if before.len() > 0 {
        assert(after[0].0 == before[0].0);
        let b = before.drop_first();
        let a = after.drop_first();
        assert(each_chronological(b, a)) by {
            assert forall|i: int| 0 <= i < b.len() implies (#[trigger] a[i]).0 == b[i].0
                && chronological(b[i].1, a[i].1) by {
                assert(after[i + 1].0 == before[i + 1].0);
            }
        }
        lemma_lookup_chronological(b, a, task);
    }
}

/// Every attempt counts: a task has as many failures on record as there are refs
/// filed under it, and its history holds exactly their records, in the order of
/// time.
pub proof fn law_every_attempt_counts(
    rows: Seq<DecodedView<AttemptRecordView>>,
    attempts: Seq<(Seq<char>, Seq<AttemptRecordView>)>,
    task: Seq<char>,
)
    requires
        grouped(rows) is Ok,
        each_chronological(grouped(rows)->Ok_0, attempts),
    ensures
        ({
            let filed = rows.filter(
                |row: DecodedView<AttemptRecordView>| task_of(row.suffix) == task,
            );
            &&& records_of(attempts, task).len() == filed.len()
            &&& forall|a: AttemptRecordView| #[trigger]
                records_of(attempts, task).contains(a) <==> filed.map_values(
                    |row: DecodedView<AttemptRecordView>| row.value->Ok_0,
                ).contains(a)
        }),
{
    let g = grouped(rows)->Ok_0;
    law_grouped(rows, task);
    lemma_lookup_chronological(g, attempts, task);
    if lookup(g, task) is Some {
        law_chronological(records_of(g, task), records_of(attempts, task));
    }
}

/// Where every lease can be read, the lease on a task is what the last row for the
/// task says, with the commit of that row; a task without a row has no lease.
pub proof fn law_lease_is_the_last_row(
    rows: Seq<DecodedView<LeasePayloadView>>,
    task: Seq<char>,
    n: int,
)
    requires
        forall|i: int| 0 <= i < rows.len() ==> (#[trigger] rows[i]).value is Ok,
        -1 <= n < rows.len(),
        n >= 0 ==> rows[n].suffix == task,
        forall|i: int| n < i < rows.len() ==> (#[trigger] rows[i]).suffix != task,
    ensures
        lease_table(rows) is Ok,
        ascending(keys_of(lease_table(rows)->Ok_0)),
        n < 0 ==> lookup(lease_table(rows)->Ok_0, task) is None,
        n >= 0 ==> lookup(lease_table(rows)->Ok_0, task) == Some(
            HeldLeaseView { payload: rows[n].value->Ok_0, sha: rows[n].sha },
        ),
    decreases rows.len(),
{
    if rows.len() > 0 {
        let init = rows.drop_last();
        let last = rows.len() - 1;
        assert forall|i: int| 0 <= i < init.len() implies (#[trigger] init[i]).value is Ok by {
            assert(init[i] == rows[i]);
        }
        assert(rows[last].value is Ok);
        if n < last {
            assert forall|i: int| n < i < init.len() implies (#[trigger] init[i]).suffix
                != task by {
                assert(init[i] == rows[i]);
            }
            law_lease_is_the_last_row(init, task, n);
            assert(rows[last].suffix != task);
        } else {
            lemma_leases_can_be_read(init);
        }
        let t = lease_table(init)->Ok_0;
        let held = HeldLeaseView { payload: rows[last].value->Ok_0, sha: rows[last].sha };
        law_put(t, rows[last].suffix, held, task);
    }
}

proof fn lemma_leases_can_be_read(rows: Seq<DecodedView<LeasePayloadView>>)
    requires
        forall|i: int| 0 <= i < rows.len() ==> (#[trigger] rows[i]).value is Ok,
    ensures
        lease_table(rows) is Ok,
        ascending(keys_of(lease_table(rows)->Ok_0)),
    decreases rows.len(),
{
    if rows.len() > 0 {
        let init = rows.drop_last();
        let last = rows.len() - 1;
        assert forall|i: int| 0 <= i < init.len() implies (#[trigger] init[i]).value is Ok by {
            assert(init[i] == rows[i]);
        }
        lemma_leases_can_be_read(init);
        assert(rows[last].value is Ok);
        let held = HeldLeaseView { payload: rows[last].value->Ok_0, sha: rows[last].sha };
        law_put(lease_table(init)->Ok_0, rows[last].suffix, held, rows[last].suffix);
    }
}

/// A payload that cannot be read is an error that names the first ref with such a
/// payload and passes on what the reader says.
pub proof fn law_unreadable_leases_are_named(
    rows: Seq<DecodedView<LeasePayloadView>>,
    n: int,
)
    requires
        0 <= n < rows.len(),
        forall|i: int| 0 <= i < n ==> (#[trigger] rows[i]).value is Ok,
        rows[n].value is Err,
    ensures
        lease_table(rows) == Err::<Seq<(Seq<char>, HeldLeaseView)>, ErrorView>(
            ErrorView::Shape {
                context: "lease payload for "@ + rows[n].suffix + ": "@ + rows[n].value->Err_0,
            },
        ),
{
    let head = rows.take(n);
    assert forall|i: int| 0 <= i < head.len() implies (#[trigger] head[i]).value is Ok by {
        assert(rows[i].value is Ok);
    }
    lemma_leases_can_be_read(head);
    assert(rows.take(n + 1).drop_last() =~= head);
    assert(rows.take(n + 1).last() == rows[n]);
    lemma_lease_table_stops(rows, n + 1);
}

/// Attempts that can all be read are all grouped, and the first that cannot be
/// read is an error that names its ref and passes on what the reader says.
pub proof fn law_unreadable_attempts_are_named(
    rows: Seq<DecodedView<AttemptRecordView>>,
    n: int,
)
    requires
        0 <= n <= rows.len(),
        forall|i: int| 0 <= i < n ==> (#[trigger] rows[i]).value is Ok,
    ensures
        grouped(rows.take(n)) is Ok,
        n < rows.len() && rows[n].value is Err ==> grouped(rows) == Err::<
            Seq<(Seq<char>, Seq<AttemptRecordView>)>,
            ErrorView,
        >(
            ErrorView::Shape {
                context: "attempt payload "@ + rows[n].suffix + ": "@ + rows[n].value->Err_0,
            },
        ),
    decreases n,
{
    if n > 0 {
        law_unreadable_attempts_are_named(rows, n - 1);
        assert(rows.take(n).drop_last() =~= rows.take(n - 1));
        assert(rows.take(n).last() == rows[n - 1]);
    }
    if n < rows.len() && rows[n].value is Err {
        assert(rows.take(n + 1).drop_last() =~= rows.take(n));
        assert(rows.take(n + 1).last() == rows[n]);
        lemma_grouped_stops(rows, n + 1);
    }
}

/// The attempt is filed under the part of its name before the first slash, which
/// holds no slash and is followed by one unless it is all of the name.
pub proof fn law_task_of(suffix: Seq<char>)
    ensures
        task_of(suffix).is_prefix_of(suffix),
        !task_of(suffix).contains('/'),
        task_of(suffix).len() < suffix.len() ==> suffix[task_of(suffix).len() as int] == '/',
{
    lemma_find_bounds(suffix, '/');
}

/// The verdict on a task is that of the task's own row, and no other task's: the
/// first row of that name decides, and without one there is no verdict.
pub proof fn law_verdict_is_the_tasks_own(
    rows: Seq<DecodedView<VerdictView>>,
    task: Seq<char>,
    n: int,
)
    requires
        0 <= n <= rows.len(),
        forall|i: int| 0 <= i < n ==> (#[trigger] rows[i]).suffix != task,
        n < rows.len() ==> rows[n].suffix == task,
    ensures
        n == rows.len() ==> verdict_in(rows, task) == Ok::<Option<VerdictView>, ErrorView>(None),
        n < rows.len() && rows[n].value is Ok ==> verdict_in(rows, task) == Ok::<
            Option<VerdictView>,
            ErrorView,
        >(Some(rows[n].value->Ok_0)),
        n < rows.len() && rows[n].value is Err ==> verdict_in(rows, task) == Err::<
            Option<VerdictView>,
            ErrorView,
        >(
            ErrorView::Shape {
                context: "verdict payload "@ + task + ": "@ + rows[n].value->Err_0,
            },
        ),
    decreases rows.len(),
{
    if n > 0 {
        let t = rows.drop_first();
        assert(rows[0].suffix != task);
        assert forall|i: int| 0 <= i < n - 1 implies (#[trigger] t[i]).suffix != task by {
            assert(t[i] == rows[i + 1]);
        }
        law_verdict_is_the_tasks_own(t, task, n - 1);
    }
}

/// Who may not act on a lease is told why: that there is none, or who holds it.
/// Who may gets the lease as it stands.
pub proof fn law_holder_is_told(
    leases: Seq<(Seq<char>, HeldLeaseView)>,
    task: Seq<char>,
    agent: Seq<char>,
    force: bool,
)
    ensures
        lookup(leases, task) is None ==> held_by(leases, task, agent, force) == Err::<
            HeldLeaseView,
            ErrorView,
        >(ErrorView::NoLease(task)),
        lookup(leases, task) matches Some(held) ==> {
            &&& held.payload.agent == agent || force ==> held_by(leases, task, agent, force)
                == Ok::<HeldLeaseView, ErrorView>(held)
            &&& held.payload.agent != agent && !force ==> held_by(leases, task, agent, force)
                == Err::<HeldLeaseView, ErrorView>(
                ErrorView::NotLeaseHolder { task, holder: held.payload.agent },
            )
        },
{
}

/// A new lease belongs to the agent that took it, on that task and tier, and both
/// its budget clock and its sign of life begin now.
pub proof fn law_lease_begins_now(
    task: Seq<char>,
    agent: Seq<char>,
    tier: usize,
    now: (i64, u32),
)
    ensures
        ({
            let lease = fresh_lease(task, agent, tier, now);
            &&& lease.agent == agent
            &&& lease.task == task
            &&& lease.tier == tier
            &&& lease.acquired == Some(now)
            &&& lease.heartbeat == now
        }),
{
}

/// The listing of refs is read line by line: what one line tells of does not
/// depend on the others, and lines that tell of nothing leave nothing. A command
/// that fails lists nothing, and any other error is passed on.
pub proof fn law_listing_is_read_by_line(
    lines: Seq<Seq<char>>,
    line: Seq<char>,
    prefix: Seq<char>,
    out: Seq<char>,
    args: Seq<Seq<char>>,
    code: Option<i32>,
    stderr: Seq<char>,
    msg: Seq<char>,
)
    ensures
        rows_of(Seq::empty(), prefix) == Seq::<MirrorRowView>::empty(),
        row_of(line, prefix) matches Some(row) ==> rows_of(lines.push(line), prefix) == rows_of(
            lines,
            prefix,
        ).push(row),
        row_of(line, prefix) is None ==> rows_of(lines.push(line), prefix) == rows_of(lines, prefix),
        blank(line) ==> row_of(line, prefix) is None,
        !line.contains('\0') ==> row_of(line, prefix) is None,
        listed(Ok(out), prefix) == Ok::<Seq<MirrorRowView>, ErrorView>(
            rows_of(lines_of(out), prefix),
        ),
        listed(Err(ErrorView::Git { args, code, stderr }), prefix) == Ok::<
            Seq<MirrorRowView>,
            ErrorView,
        >(Seq::empty()),
        listed(Err(ErrorView::Io(msg)), prefix) == Err::<Seq<MirrorRowView>, ErrorView>(
            ErrorView::Io(msg),
        ),
{
    assert(lines.push(line).drop_last() =~= lines);
    assert(lines.push(line).last() == line);
    if !line.contains('\0') {
        assert forall|j: int| 0 <= j < line.len() implies line[j] != '\0' by {
            assert(line.contains(line[j]));
        }
        lemma_find(line, '\0', line.len() as int);
    }
}

/// Where the refs are: leases, attempts and verdicts each under their own part of
/// the mirror, and an attempt under its task and its id.
pub proof fn law_ref_names(task: Seq<char>, id: Seq<char>)
    ensures
        mirrored("refs/loom/lease/"@) == "refs/loom/mirror/lease/"@,
        mirrored("refs/loom/attempt/"@) == "refs/loom/mirror/attempt/"@,
        mirrored("refs/loom/verdict/"@) == "refs/loom/mirror/verdict/"@,
        attempt_ref(task, id) == "refs/loom/attempt/"@ + task + "/"@ + id,
        list_args("refs/loom/lease/"@).last() == "refs/loom/mirror/lease/"@,
{
    reveal_strlit("refs/loom/");
    reveal_strlit("refs/loom/mirror/");
    reveal_strlit("refs/loom/lease/");
    reveal_strlit("refs/loom/attempt/");
    reveal_strlit("refs/loom/verdict/");
    reveal_strlit("refs/loom/mirror/lease/");
    reveal_strlit("refs/loom/mirror/attempt/");
    reveal_strlit("refs/loom/mirror/verdict/");
    reveal_with_fuel(without_leading, 2);
    let p = "refs/loom/"@;
    let (a, b, c) = ("refs/loom/lease/"@, "refs/loom/attempt/"@, "refs/loom/verdict/"@);
    assert(a.take(10) =~= p && b.take(10) =~= p && c.take(10) =~= p);
    assert(a.skip(10)[0] == 'l' && b.skip(10)[0] == 'a' && c.skip(10)[0] == 'v');
    assert(p[0] == 'r');
    assert(without_leading(a, p) == a.skip(10));
    assert(without_leading(b, p) == b.skip(10));
    assert(without_leading(c, p) == c.skip(10));
    assert(mirrored(a) =~= "refs/loom/mirror/lease/"@);
    assert(mirrored(b) =~= "refs/loom/mirror/attempt/"@);
    assert(mirrored(c) =~= "refs/loom/mirror/verdict/"@);
}

/// Records of the same instant stay in the order in which they were read; all
/// others stand in the order of time, and of nothing else.
pub proof fn law_history_is_by_time_alone(
    before: Seq<AttemptRecordView>,
    after: Seq<AttemptRecordView>,
) -> (p: Seq<int>)
    requires
        chronological(before, after),
        forall|i: int|
            0 <= i < before.len() ==> valid_instant(
                (#[trigger] before[i]).at.0 as int,
                before[i].at.1 as int,
            ),
    ensures
        p.len() == before.len(),
        after.len() == before.len(),
        forall|i: int|
            0 <= i < p.len() ==> 0 <= #[trigger] p[i] < before.len() && after[i] == before[p[i]],
        forall|i: int, j: int|
            0 <= i < j < p.len() ==> {
                let (x, y) = (#[trigger] p[i], #[trigger] p[j]);
                let (a, b) = (before[x].at, before[y].at);
                a.0 < b.0 || (a.0 == b.0 && a.1 < b.1) || (a == b && x < y)
            },
{
    let keys = before.map_values(|a: AttemptRecordView| time_key(a));
    let p = choose|p: Seq<int>| #[trigger]
        stable_order(keys, p) && after == p.map_values(|k: int| before[k]);
    assert forall|i: int, j: int| 0 <= i < j < p.len() implies {
        let (x, y) = (#[trigger] p[i], #[trigger] p[j]);
        let (a, b) = (before[x].at, before[y].at);
        a.0 < b.0 || (a.0 == b.0 && a.1 < b.1) || (a == b && x < y)
    } by {
        let (x, y) = (p[i], p[j]);
        law_sort_is_stable(keys, p, i, j);
        assert(keys[x] == time_key(before[x]));
        assert(keys[y] == time_key(before[y]));
        assert(valid_instant(before[x].at.0 as int, before[x].at.1 as int));
        assert(valid_instant(before[y].at.0 as int, before[y].at.1 as int));
        law_instant_key_orders(before[x].at, before[y].at);
        law_instant_key_orders(before[y].at, before[x].at);
    }
    p
}

/// Every task keeps exactly its own records when they are put in the order of time.
pub proof fn law_each_task_keeps_its_records(
    before: Seq<(Seq<char>, Seq<AttemptRecordView>)>,
    after: Seq<(Seq<char>, Seq<AttemptRecordView>)>,
    i: int,
)
    requires
        each_chronological(before, after),
        0 <= i < before.len(),
    ensures
        after.len() == before.len(),
        after[i].0 == before[i].0,
        after[i].1.len() == before[i].1.len(),
        forall|a: AttemptRecordView| after[i].1.contains(a) <==> before[i].1.contains(a),
{
    assert(after[i].0 == before[i].0);
    law_chronological(before[i].1, after[i].1);
}

/// The mirrored refs are listed by one command: a line for each, with its name, its
/// commit and its message between null characters, under the mirror of the prefix.
pub proof fn law_list_command(prefix: Seq<char>, rest: Seq<char>)
    ensures
        list_args(prefix).len() == 3,
        list_args(prefix)[0] == "for-each-ref"@,
        list_args(prefix)[1]
            == "--format=%(refname)%00%(objectname)%00%(contents:subject)%(contents:body)"@,
        !"refs/loom/"@.is_prefix_of(rest) ==> list_args("refs/loom/"@ + rest)[2]
            == "refs/loom/mirror/"@ + rest,
{
    reveal_strlit("refs/loom/");
    law_without_leading(rest, "refs/loom/"@);
}

} // verus!
