//! Coordination through git.
//!
//! All mutable state of the fleet lives in refs, so that task files never
//! conflict: leases (`refs/loom/lease/<task>`), attempts
//! (`refs/loom/attempt/<task>/<id>`, only ever added), verdicts
//! (`refs/loom/verdict/<task>`, bound to a candidate) and the merge lock.
//! Payloads are JSON in commit messages over the empty tree. A lease is
//! created, updated and deleted with `--force-with-lease`, which makes the
//! server compare and swap. Telemetry is git notes.

use crate::error::{message_of, result_view, unit_view, Error, ErrorView, Result};
use crate::json::{is_json, json_valid};
use crate::model::{
    AttemptRecord, AttemptRecordView, HeldLease, HeldLeaseView, History, LeasePayload,
    LeasePayloadView, Verdict, VerdictView,
};
use crate::order::{ascending, lemma_filter_contains, lemma_filter_take};
use crate::refs::{
    attempt_ref, check_holder, copy_records, each_chronological, grouped, held_by, in_time_order,
    lease_table, lemma_grouped_stops, lemma_lease_table_stops, lemma_put_last, list_args, listed,
    mirrored, records_of, rows_of, verdict_in, ATTEMPT_PREFIX, LEASE_PREFIX, MERGE_LOCK, MIRROR,
    VERDICT_PREFIX, Decoded, DecodedView, MirrorRow, MirrorRowView,
};
use crate::runner::{probe_view, probed, Event, Runner};
use crate::session::{
    asked, ending, grew, in_turn, lemma_one, lemma_then, list_view, opt_list_view, output, printed,
    ran_one, since,
};
use crate::table::{keys_of, Table};
use crate::text::{
    blank, ends_with, first_word, first_word_of, is_blank, law_first_word, law_lines,
    lemma_lines_append, lemma_one_line,
    lemma_views_push, lines, lines_of, occurs, occurs_in, opt_view, split_fields,
    strip_leading, text_before, trim, views,
};
use vstd::prelude::*;

verus! {

/// The notes that hold telemetry.
pub const NOTES_REF: &'static str = "refs/notes/loom-telemetry";

/// The object name of the empty tree.
pub const EMPTY_TREE: &'static str = "4b825dc642cb6eb9a060e54bf8d69288fbee4904";

// ------------------------------------------------------------------- sessions

/// The tree to commit: what `git mktree` printed, or the empty tree.
pub open spec fn tree_of(printed: Seq<char>) -> Seq<char> {
    if printed.len() == 0 {
        "4b825dc642cb6eb9a060e54bf8d69288fbee4904"@
    } else {
        printed
    }
}

/// The command that commits a payload.
pub open spec fn commit_args(printed: Seq<char>, payload: Seq<char>) -> Seq<Seq<char>> {
    seq!["commit-tree"@, tree_of(printed), "-m"@, payload]
}

/// A session that commits a payload and prints the commit.
pub open spec fn commits_payload(ev: Seq<Event>, payload: Seq<char>) -> bool {
    &&& ev.len() >= 1
    &&& asked(ev[0], seq!["mktree"@])
    &&& match ev[0].reply {
        Err(_) => ev.len() == 1,
        Ok(tree) => ev.len() == 2 && asked(ev[1], commit_args(tree, payload)),
    }
}

/// A session that commits a payload and pushes the commit: `push` says with
/// which arguments. It stops at the first failure.
pub open spec fn pushes_payload(
    ev: Seq<Event>,
    payload: Seq<char>,
    push: spec_fn(Seq<char>) -> Seq<Seq<char>>,
) -> bool {
    if ev.len() == 3 {
        &&& commits_payload(ev.take(2), payload)
        &&& ev[0].reply is Ok
        &&& ev[1].reply is Ok
        &&& asked(ev[2], push(ev[1].reply->Ok_0))
    } else {
        commits_payload(ev, payload) && ev.last().reply is Err
    }
}

/// The push that creates a ref: the server refuses it if the ref exists.
pub open spec fn create_args(
    remote: Seq<char>,
    refname: Seq<char>,
    sha: Seq<char>,
) -> Seq<Seq<char>> {
    seq![
        "push"@,
        remote,
        sha + ":"@ + refname,
        "--force-with-lease="@ + refname + ":"@,
    ]
}

/// The push that moves a ref: the server refuses it unless the ref points to
/// the expected commit.
pub open spec fn update_args(
    remote: Seq<char>,
    refname: Seq<char>,
    expected: Seq<char>,
    sha: Seq<char>,
) -> Seq<Seq<char>> {
    seq![
        "push"@,
        remote,
        sha + ":"@ + refname,
        "--force-with-lease="@ + refname + ":"@ + expected,
    ]
}

/// The push that deletes a ref: the server refuses it unless the ref points to
/// the expected commit.
pub open spec fn delete_args(
    remote: Seq<char>,
    refname: Seq<char>,
    expected: Seq<char>,
) -> Seq<Seq<char>> {
    seq!["push"@, remote, ":"@ + refname, "--force-with-lease="@ + refname + ":"@ + expected]
}

/// The command that mirrors all of the remote's refs.
pub open spec fn fetch_args(remote: Seq<char>) -> Seq<Seq<char>> {
    seq!["fetch"@, remote, "--prune"@, "+refs/loom/*:"@ + "refs/loom/mirror/"@ + "*"@]
}

/// A session that checks that there is a repository and that its remote
/// answers.
pub open spec fn checks_remote(ev: Seq<Event>, remote: Seq<char>) -> bool {
    in_turn(
        ev,
        seq![seq!["rev-parse"@, "--show-toplevel"@], seq!["ls-remote"@, "--heads"@, remote]],
    )
}

/// What the check comes to.
pub open spec fn reached(ev: Seq<Event>, remote: Seq<char>) -> std::result::Result<
    (),
    ErrorView,
> {
    match ev.last().reply {
        Ok(_) => Ok(()),
        Err(e) => Err(
            if ev.len() == 1 {
                e
            } else {
                ErrorView::Other("cannot reach remote '"@ + remote + "': "@ + message_of(e))
            },
        ),
    }
}

/// A failing git command while taking a lease means that another agent has it.
pub open spec fn raced(
    r: std::result::Result<(), ErrorView>,
    task: Seq<char>,
) -> std::result::Result<(), ErrorView> {
    match r {
        Err(ErrorView::Git { .. }) => Err(
            ErrorView::LeaseRaceLost { task, holder: "another agent"@ },
        ),
        _ => r,
    }
}

// ------------------------------------------------------------------ telemetry

/// The refspec that copies the notes.
pub open spec fn notes_to_notes() -> Seq<char> {
    "refs/notes/loom-telemetry"@ + ":"@ + "refs/notes/loom-telemetry"@
}

/// A session that notes a record on a commit and then shares the notes.
pub open spec fn notes_record(
    ev: Seq<Event>,
    remote: Seq<char>,
    commit: Seq<char>,
    body: Seq<char>,
) -> bool {
    &&& ev.len() >= 1
    &&& asked(
        ev[0],
        seq![
            "notes"@,
            "--ref"@,
            "refs/notes/loom-telemetry"@,
            "append"@,
            "-m"@,
            body,
            commit,
        ],
    )
    &&& match ev[0].reply {
        Err(_) => ev.len() == 1,
        Ok(_) => ev.len() == 2 && asked(ev[1], seq!["push"@, remote, notes_to_notes()]),
    }
}

/// How a session ends whose last command may fail: only another error counts.
pub open spec fn lenient_ending(ev: Seq<Event>) -> std::result::Result<(), ErrorView> {
    match ev[0].reply {
        Err(e) => Err(e),
        Ok(_) => match probed(ev[1].reply) {
            Err(e) => Err(e),
            Ok(_) => Ok(()),
        },
    }
}

/// The notes that a listing names: the first word of each line that has one.
pub open spec fn notes_in(lines: Seq<Seq<char>>) -> Seq<Seq<char>>
    decreases lines.len(),
{
    if lines.len() == 0 {
        Seq::empty()
    } else {
        let init = notes_in(lines.drop_last());
        match first_word_of(lines.last()) {
            Some(note) => init.push(note),
            None => init,
        }
    }
}

/// A line of a note that is a telemetry record.
pub open spec fn is_record() -> spec_fn(Seq<char>) -> bool {
    |line: Seq<char>| !blank(line) && json_valid(line)
}

/// The records of the notes, in their order.
pub open spec fn records_in(bodies: Seq<Seq<char>>) -> Seq<Seq<char>>
    decreases bodies.len(),
{
    if bodies.len() == 0 {
        Seq::empty()
    } else {
        records_in(bodies.drop_last()) + lines_of(bodies.last()).filter(is_record())
    }
}

/// The commands that read notes.
pub open spec fn note_calls(notes: Seq<Seq<char>>) -> Seq<Seq<Seq<char>>> {
    notes.map_values(|note: Seq<char>| seq!["cat-file"@, "blob"@, note])
}

/// A session that reads all telemetry: it asks the remote for its notes, lists
/// the notes, and reads each until a command fails.
pub open spec fn reads_telemetry(ev: Seq<Event>, remote: Seq<char>) -> bool {
    &&& ev.len() >= 1
    &&& asked(ev[0], seq!["fetch"@, remote, "+"@ + notes_to_notes()])
    &&& if probed(ev[0].reply) is Err {
        ev.len() == 1
    } else {
        &&& ev.len() >= 2
        &&& asked(ev[1], seq!["notes"@, "--ref"@, "refs/notes/loom-telemetry"@, "list"@])
        &&& if probed(ev[1].reply) is Err {
            ev.len() == 2
        } else {
            in_turn(ev.skip(2), note_calls(notes_in(lines_of(output(ev[1].reply)))))
        }
    }
}

/// What reading all telemetry comes to.
pub open spec fn telemetry_of(ev: Seq<Event>) -> std::result::Result<Seq<Seq<char>>, ErrorView> {
    if probed(ev[0].reply) is Err {
        Err(ev[0].reply->Err_0)
    } else if probed(ev[1].reply) is Err {
        Err(ev[1].reply->Err_0)
    } else if ev.len() > 2 && ev.last().reply is Err {
        Err(ev.last().reply->Err_0)
    } else {
        Ok(records_in(printed(ev.skip(2))))
    }
}

/// Appends the records of a note to a list.
fn push_records(out: &mut Vec<String>, body: &str)
    ensures
        views(final(out)@) == views(old(out)@) + lines_of(body@).filter(is_record()),
{
    let all = lines(body);
    let ghost texts = views(all@);
    let ghost so_far = views(out@);
    let ghost p = is_record();
    proof {
        lemma_filter_take(texts, p, 0);
        assert(views(out@) =~= so_far + texts.take(0).filter(p));
    }
    for i in 0..all.len()
        invariant
            texts == views(all@),
            p == is_record(),
            views(out@) == so_far + texts.take(i as int).filter(p),
    {
        proof {
            lemma_filter_take(texts, p, i as int);
            assert(texts[i as int] == all@[i as int]@);
        }
        if !is_blank(all[i].as_str()) && is_json(all[i].as_str()) {
            let line = all[i].clone();
            proof {
                lemma_views_push(out@, line);
            }
            out.push(line);
            assert(views(out@) =~= so_far + texts.take(i + 1).filter(p));
        }
    }
    proof {
        lemma_filter_take(texts, p, texts.len() as int);
    }
}

/// The notes that a listing names.
fn list_notes(listing: &str) -> (r: Vec<String>)
    ensures
        views(r@) == notes_in(lines_of(listing@)),
{
    let all = lines(listing);
    let ghost texts = views(all@);
    let mut r: Vec<String> = Vec::new();
    assert(views(r@) =~= notes_in(texts.take(0)));
    for i in 0..all.len()
        invariant
            texts == views(all@),
            views(r@) == notes_in(texts.take(i as int)),
    {
        proof {
            assert(texts.take(i + 1).drop_last() =~= texts.take(i as int));
            assert(texts.take(i + 1).last() == all@[i as int]@);
        }
        if let Some(note) = first_word(all[i].as_str()) {
            proof {
                lemma_views_push(r@, note);
            }
            r.push(note);
        }
    }
    assert(texts.take(texts.len() as int) =~= texts);
    r
}

// ------------------------------------------------------------ canonical graph

/// A task file of the canonical branch.
#[derive(Debug)]
pub struct Blob {
    /// The path of the file.
    pub path: String,
    /// What it holds.
    pub body: String,
}

/// The model of a [`Blob`].
#[verifier::ext_equal]
pub struct BlobView {
    pub path: Seq<char>,
    pub body: Seq<char>,
}

impl View for Blob {
    type V = BlobView;

    open spec fn view(&self) -> BlobView {
        BlobView { path: self.path@, body: self.body@ }
    }
}

/// A path of a task file.
pub open spec fn is_toml() -> spec_fn(Seq<char>) -> bool {
    |path: Seq<char>| ".toml"@.is_suffix_of(path)
}

/// The task files that a listing names.
pub open spec fn task_files(listing: Seq<char>) -> Seq<Seq<char>> {
    lines_of(listing).filter(is_toml())
}

/// The commands that read files of a branch.
pub open spec fn show_calls(rev: Seq<char>, paths: Seq<Seq<char>>) -> Seq<Seq<Seq<char>>> {
    paths.map_values(|path: Seq<char>| seq!["show"@, rev + ":"@ + path])
}

/// The remote's branch.
pub open spec fn branch(remote: Seq<char>, main: Seq<char>) -> Seq<char> {
    remote + "/"@ + main
}

/// The command that asks the remote whether it has a branch. Git promises exit
/// status 2 where it does not, whatever language it complains in.
pub open spec fn branch_args(remote: Seq<char>, main: Seq<char>) -> Seq<Seq<char>> {
    seq!["ls-remote"@, "--exit-code"@, remote, "refs/heads/"@ + main]
}

/// A session that reads the task files of the remote's main branch: it fetches
/// the branch, lists the files, and reads each until a command fails. Where the
/// fetch fails and git does not plainly say why, it asks the remote whether it has
/// the branch.
pub open spec fn reads_canonical(ev: Seq<Event>, remote: Seq<char>, main: Seq<char>) -> bool {
    &&& ev.len() >= 1
    &&& asked(ev[0], seq!["fetch"@, remote, main])
    &&& if ev[0].reply is Err {
        if is_unclear(ev[0].reply) {
            ev.len() == 2 && asked(ev[1], branch_args(remote, main))
        } else {
            ev.len() == 1
        }
    } else {
        &&& ev.len() >= 2
        &&& asked(
            ev[1],
            seq![
                "ls-tree"@,
                "-r"@,
                "--name-only"@,
                branch(remote, main),
                "--"@,
                ".work/tasks"@,
            ],
        )
        &&& if ev[1].reply is Err {
            ev.len() == 2
        } else {
            in_turn(
                ev.skip(2),
                show_calls(branch(remote, main), task_files(ev[1].reply->Ok_0)),
            )
        }
    }
}

/// Git plainly says that the remote does not have the ref that was asked for. It
/// may also say so in words that are not among these.
pub open spec fn lacks_ref(stderr: Seq<char>) -> bool {
    ||| occurs("couldn't find remote ref"@, stderr)
    ||| occurs("Couldn't find remote ref"@, stderr)
    ||| stderr == "no ref"@
}

/// Whether git complains that the remote does not have the ref.
fn misses_ref(stderr: &str) -> (r: bool)
    ensures
        r == lacks_ref(stderr@),
{
    occurs_in("couldn't find remote ref", stderr) || occurs_in("Couldn't find remote ref", stderr)
        || *stderr == *"no ref"
}

/// Git failed and does not plainly say that the remote lacks the ref.
pub open spec fn is_unclear(reply: std::result::Result<Seq<char>, ErrorView>) -> bool {
    match reply {
        Err(ErrorView::Git { stderr, .. }) => !lacks_ref(stderr),
        _ => false,
    }
}

/// The exit status of a command that ran and failed.
pub open spec fn status_of(reply: std::result::Result<Seq<char>, ErrorView>) -> Option<i32> {
    match reply {
        Err(ErrorView::Git { code, .. }) => code,
        _ => None,
    }
}

/// The fetch of a branch failed because the remote does not have it: git says so,
/// or the remote does when it is asked.
pub open spec fn branch_is_missing(ev: Seq<Event>) -> bool {
    match ev[0].reply {
        Err(ErrorView::Git { stderr, .. }) => lacks_ref(stderr) || status_of(ev[1].reply) == Some(
            2i32,
        ),
        _ => false,
    }
}

/// What reading the canonical task files comes to: nothing where the remote does
/// not have the branch, and the first error where anything else fails.
pub open spec fn canonical_of(ev: Seq<Event>) -> std::result::Result<
    Option<Seq<BlobView>>,
    ErrorView,
> {
    if branch_is_missing(ev) {
        Ok(None)
    } else if ev[0].reply is Err {
        Err(ev[0].reply->Err_0)
    } else if ev.last().reply is Err {
        Err(ev.last().reply->Err_0)
    } else {
        let paths = task_files(ev[1].reply->Ok_0);
        Ok(
            Some(
                Seq::new(
                    paths.len(),
                    |i: int| BlobView { path: paths[i], body: printed(ev.skip(2))[i] },
                ),
            ),
        )
    }
}

/// The task files that a listing names.
fn list_task_files(listing: &str) -> (r: Vec<String>)
    ensures
        views(r@) == task_files(listing@),
{
    let all = lines(listing);
    let ghost texts = views(all@);
    let ghost p = is_toml();
    let mut r: Vec<String> = Vec::new();
    proof {
        lemma_filter_take(texts, p, 0);
        assert(views(r@) =~= texts.take(0).filter(p));
    }
    for i in 0..all.len()
        invariant
            texts == views(all@),
            p == is_toml(),
            views(r@) == texts.take(i as int).filter(p),
    {
        proof {
            lemma_filter_take(texts, p, i as int);
            assert(texts[i as int] == all@[i as int]@);
        }
        if ends_with(all[i].as_str(), ".toml") {
            let path = all[i].clone();
            proof {
                lemma_views_push(r@, path);
            }
            r.push(path);
        }
    }
    proof {
        lemma_filter_take(texts, p, texts.len() as int);
    }
    r
}

/// An attempt that is ready to be recorded: its id, and the record as JSON.
#[derive(Debug)]
pub struct EncodedAttempt {
    /// The id.
    pub id: String,
    /// The record.
    pub payload: String,
}

/// Git, with a remote to coordinate through.
pub struct Git<R: Runner> {
    /// What runs git.
    pub runner: R,
    /// The name of the remote.
    pub remote: String,
}

impl<R: Runner> Git<R> {
    /// Everything run so far.
    pub open spec fn log(&self) -> Seq<Event> {
        self.runner.log()
    }

    /// Git with the configured remote, or `origin`.
    pub fn new(runner: R, named: Option<String>) -> (r: Git<R>)
        ensures
            r.runner == runner,
            r.remote@ == match named {
                Some(name) => name@,
                None => "origin"@,
            },
    {
        let remote = match named {
            Some(name) => name,
            None => "origin".to_string(),
        };
        Git { runner, remote }
    }

    /// Commits a payload over the empty tree and names the commit.
    fn payload_commit(&mut self, payload: &str) -> (r: Result<String>)
        ensures
            final(self).remote == old(self).remote,
            grew(old(self).log(), final(self).log()),
            commits_payload(since(old(self).log(), final(self).log()), payload@),
            result_view(r) == since(
                old(self).log(),
                final(self).log(),
            ).last().reply,
    {
        let ghost l0 = self.log();
        let args: [&str; 1] = ["mktree"];
        assert(views(args@) =~= seq!["mktree"@]);
        let printed = self.runner.run("git", &args);
        let ghost l1 = self.log();
        proof {
            lemma_one(l0, l1.last());
        }
        let tree = match printed {
            Ok(tree) => if tree.as_str().is_empty() {
                EMPTY_TREE.to_string()
            } else {
                tree
            },
            Err(e) => {
                return Err(e);
            },
        };
        let args: [&str; 4] = ["commit-tree", tree.as_str(), "-m", payload];
        assert(views(args@) =~= seq!["commit-tree"@, tree@, "-m"@, payload@]);
        let r = self.runner.run("git", &args);
        proof {
            lemma_one(l1, self.log().last());
            lemma_then(l0, l1, self.log());
        }
        r
    }

    /// Creates a ref with a payload.
    fn cas_create(&mut self, refname: &str, payload: &str) -> (r: Result<()>)
        ensures
            final(self).remote == old(self).remote,
            grew(old(self).log(), final(self).log()),
            pushes_payload(
                since(old(self).log(), final(self).log()),
                payload@,
                |sha: Seq<char>| create_args(old(self).remote@, refname@, sha),
            ),
            unit_view(r) == ending(since(old(self).log(), final(self).log())),
    {
        let ghost l0 = self.log();
        let sha = match self.payload_commit(payload) {
            Ok(sha) => sha,
            Err(e) => {
                return Err(e);
            },
        };
        let ghost l1 = self.log();
        let mut moved = sha;
        moved.append(":");
        moved.append(refname);
        let mut lease = "--force-with-lease=".to_string();
        lease.append(refname);
        lease.append(":");
        let args: [&str; 4] = ["push", self.remote.as_str(), moved.as_str(), lease.as_str()];
        assert(views(args@) =~= create_args(self.remote@, refname@, sha@));
        let r = self.runner.run("git", &args);
        proof {
            lemma_one(l1, self.log().last());
            lemma_then(l0, l1, self.log());
            assert(since(l0, self.log()).take(2) =~= since(l0, l1));
        }
        match r {
            Ok(_) => Ok(()),
            Err(e) => Err(e),
        }
    }

    /// Moves a ref from the expected commit to a payload.
    fn cas_update(&mut self, refname: &str, expected: &str, payload: &str) -> (r: Result<()>)
        ensures
            final(self).remote == old(self).remote,
            grew(old(self).log(), final(self).log()),
            pushes_payload(
                since(old(self).log(), final(self).log()),
                payload@,
                |sha: Seq<char>| update_args(old(self).remote@, refname@, expected@, sha),
            ),
            unit_view(r) == ending(since(old(self).log(), final(self).log())),
    {
        let ghost l0 = self.log();
        let sha = match self.payload_commit(payload) {
            Ok(sha) => sha,
            Err(e) => {
                return Err(e);
            },
        };
        let ghost l1 = self.log();
        let mut moved = sha;
        moved.append(":");
        moved.append(refname);
        let mut lease = "--force-with-lease=".to_string();
        lease.append(refname);
        lease.append(":");
        lease.append(expected);
        let args: [&str; 4] = ["push", self.remote.as_str(), moved.as_str(), lease.as_str()];
        assert(views(args@) =~= update_args(self.remote@, refname@, expected@, sha@));
        let r = self.runner.run("git", &args);
        proof {
            lemma_one(l1, self.log().last());
            lemma_then(l0, l1, self.log());
            assert(since(l0, self.log()).take(2) =~= since(l0, l1));
        }
        match r {
            Ok(_) => Ok(()),
            Err(e) => Err(e),
        }
    }

    /// Deletes a ref that points to the expected commit.
    fn cas_delete(&mut self, refname: &str, expected: &str) -> (r: Result<()>)
        ensures
            final(self).remote == old(self).remote,
            ran_one(
                old(self).log(),
                final(self).log(),
                delete_args(old(self).remote@, refname@, expected@),
            ),
            unit_view(r) == ending(since(old(self).log(), final(self).log())),
    {
        let ghost l0 = self.log();
        let mut gone = ":".to_string();
        gone.append(refname);
        let mut lease = "--force-with-lease=".to_string();
        lease.append(refname);
        lease.append(":");
        lease.append(expected);
        let args: [&str; 4] = ["push", self.remote.as_str(), gone.as_str(), lease.as_str()];
        assert(views(args@) =~= delete_args(self.remote@, refname@, expected@));
        let r = self.runner.run("git", &args);
        proof {
            lemma_one(l0, self.log().last());
        }
        match r {
            Ok(_) => Ok(()),
            Err(e) => Err(e),
        }
    }

    /// The root of the repository.
    fn show_toplevel(&mut self) -> (r: Result<()>)
        ensures
            final(self).remote == old(self).remote,
            ran_one(old(self).log(), final(self).log(), seq!["rev-parse"@, "--show-toplevel"@]),
            unit_view(r) == ending(since(old(self).log(), final(self).log())),
    {
        let ghost l0 = self.log();
        let args: [&str; 2] = ["rev-parse", "--show-toplevel"];
        assert(views(args@) =~= seq!["rev-parse"@, "--show-toplevel"@]);
        let r = self.runner.run("git", &args);
        proof {
            lemma_one(l0, self.log().last());
        }
        match r {
            Ok(_) => Ok(()),
            Err(e) => Err(e),
        }
    }

    /// Refuses to go on outside a git repository.
    pub fn require_repository(&mut self) -> (r: Result<()>)
        ensures
            final(self).remote == old(self).remote,
            ran_one(old(self).log(), final(self).log(), seq!["rev-parse"@, "--show-toplevel"@]),
            unit_view(r) == match ending(since(old(self).log(), final(self).log())) {
                Ok(_) => Ok(()),
                Err(_) => Err(
                    ErrorView::Other("loom init must run inside a git repository"@),
                ),
            },
    {
        match self.show_toplevel() {
            Ok(()) => Ok(()),
            Err(_) => Err(
                Error::Other("loom init must run inside a git repository".to_string()),
            ),
        }
    }

    /// Checks that there is a repository and that its remote answers.
    pub fn check_remote(&mut self) -> (r: Result<()>)
        ensures
            final(self).remote == old(self).remote,
            grew(old(self).log(), final(self).log()),
            checks_remote(since(old(self).log(), final(self).log()), old(self).remote@),
            unit_view(r) == reached(
                since(old(self).log(), final(self).log()),
                old(self).remote@,
            ),
    {
        let ghost l0 = self.log();
        if let Err(e) = self.show_toplevel() {
            return Err(e);
        }
        let ghost l1 = self.log();
        let args: [&str; 3] = ["ls-remote", "--heads", self.remote.as_str()];
        assert(views(args@) =~= seq!["ls-remote"@, "--heads"@, self.remote@]);
        let heads = self.runner.run("git", &args);
        proof {
            lemma_one(l1, self.log().last());
            lemma_then(l0, l1, self.log());
        }
        match heads {
            Ok(_) => Ok(()),
            Err(e) => {
                let mut msg = "cannot reach remote '".to_string();
                msg.append(self.remote.as_str());
                msg.append("': ");
                msg.append(e.message().as_str());
                Err(Error::Other(msg))
            },
        }
    }

    /// The commit that is checked out.
    pub fn head(&mut self) -> (r: Result<String>)
        ensures
            final(self).remote == old(self).remote,
            ran_one(old(self).log(), final(self).log(), seq!["rev-parse"@, "HEAD"@]),
            result_view(r) == since(old(self).log(), final(self).log())[0].reply,
    {
        let ghost l0 = self.log();
        let args: [&str; 2] = ["rev-parse", "HEAD"];
        assert(views(args@) =~= seq!["rev-parse"@, "HEAD"@]);
        let r = self.runner.run("git", &args);
        proof {
            lemma_one(l0, self.log().last());
        }
        r
    }

    /// Commits everything in the worktree.
    pub fn commit_all(&mut self, message: &str) -> (r: Result<()>)
        ensures
            final(self).remote == old(self).remote,
            grew(old(self).log(), final(self).log()),
            in_turn(
                since(old(self).log(), final(self).log()),
                seq![seq!["add"@, "-A"@], seq!["commit"@, "-m"@, message@]],
            ),
            unit_view(r) == ending(since(old(self).log(), final(self).log())),
    {
        let ghost l0 = self.log();
        let args: [&str; 2] = ["add", "-A"];
        assert(views(args@) =~= seq!["add"@, "-A"@]);
        let added = self.runner.run("git", &args);
        let ghost l1 = self.log();
        proof {
            lemma_one(l0, l1.last());
        }
        if let Err(e) = added {
            return Err(e);
        }
        let args: [&str; 3] = ["commit", "-m", message];
        assert(views(args@) =~= seq!["commit"@, "-m"@, message@]);
        let committed = self.runner.run("git", &args);
        proof {
            lemma_one(l1, self.log().last());
            lemma_then(l0, l1, self.log());
        }
        match committed {
            Ok(_) => Ok(()),
            Err(e) => Err(e),
        }
    }

    /// Mirrors all of the remote's refs: leases, attempts, verdicts.
    pub fn fetch_loom_refs(&mut self) -> (r: Result<()>)
        ensures
            final(self).remote == old(self).remote,
            ran_one(old(self).log(), final(self).log(), fetch_args(old(self).remote@)),
            unit_view(r) == ending(since(old(self).log(), final(self).log())),
    {
        let ghost l0 = self.log();
        let mut mapping = "+refs/loom/*:".to_string();
        mapping.append(MIRROR);
        mapping.append("*");
        let args: [&str; 4] = ["fetch", self.remote.as_str(), "--prune", mapping.as_str()];
        assert(views(args@) =~= fetch_args(self.remote@));
        let r = self.runner.run("git", &args);
        proof {
            lemma_one(l0, self.log().last());
        }
        match r {
            Ok(_) => Ok(()),
            Err(e) => Err(e),
        }
    }

    /// The mirrored refs under a prefix.
    fn read_mirror(&mut self, prefix: &str) -> (r: Result<Vec<MirrorRow>>)
        ensures
            final(self).remote == old(self).remote,
            ran_one(old(self).log(), final(self).log(), list_args(prefix@)),
            list_view(r) == listed(
                since(old(self).log(), final(self).log())[0].reply,
                prefix@,
            ),
    {
        let ghost l0 = self.log();
        let mut mirror = MIRROR.to_string();
        mirror.append(strip_leading(prefix, "refs/loom/").as_str());
        let args: [&str; 3] = [
            "for-each-ref",
            "--format=%(refname)%00%(objectname)%00%(contents:subject)%(contents:body)",
            mirror.as_str(),
        ];
        assert(views(args@) =~= list_args(prefix@));
        let printed = self.runner.try_run("git", &args);
        let ghost reply = choose|reply: std::result::Result<Seq<char>, ErrorView>|
            self.log() == l0.push((Event { program: "git"@, args: views(args@), reply }))
                && probe_view(printed) == #[trigger] probed(reply);
        proof {
            lemma_one(l0, (Event { program: "git"@, args: views(args@), reply }));
        }
        let mut rows: Vec<MirrorRow> = Vec::new();
        let out = match printed {
            Ok(Some(out)) => out,
            Ok(None) => {
                assert(views(rows@) =~= Seq::<MirrorRowView>::empty());
                return Ok(rows);
            },
            Err(e) => {
                return Err(e);
            },
        };
        let all = lines(out.as_str());
        let ghost texts = views(all@);
        assert(views(rows@) =~= rows_of(texts.take(0), prefix@));
        for i in 0..all.len()
            invariant
                texts == views(all@),
                mirror@ == mirrored(prefix@),
                views(rows@) == rows_of(texts.take(i as int), prefix@),
        {
            let line = all[i].as_str();
            proof {
                assert(texts.take(i + 1).drop_last() =~= texts.take(i as int));
                assert(texts.take(i + 1).last() == line@);
            }
            if !is_blank(line) {
                if let Some((refname, sha, msg)) = split_fields(line) {
                    let row = MirrorRow {
                        suffix: strip_leading(refname.as_str(), mirror.as_str()),
                        sha,
                        msg: trim(msg.as_str()),
                    };
                    proof {
                        lemma_views_push(rows@, row);
                    }
                    rows.push(row);
                }
            }
        }
        assert(texts.take(texts.len() as int) =~= texts);
        Ok(rows)
    }

    // -------------------------------------------------------------- leases

    /// The mirrored leases.
    pub fn lease_rows(&mut self) -> (r: Result<Vec<MirrorRow>>)
        ensures
            final(self).remote == old(self).remote,
            ran_one(old(self).log(), final(self).log(), list_args("refs/loom/lease/"@)),
            list_view(r) == listed(
                since(old(self).log(), final(self).log())[0].reply,
                "refs/loom/lease/"@,
            ),
    {
        self.read_mirror(LEASE_PREFIX)
    }

    /// The leases by task.
    pub fn leases(&self, rows: &Vec<Decoded<LeasePayload>>) -> (r: Result<Table<HeldLease>>)
        ensures
            result_view(r) == lease_table(views(rows@)),
    {
        let mut t: Table<HeldLease> = Table::new();
        let ghost all = views(rows@);
        assert(all.take(0) =~= Seq::<DecodedView<LeasePayloadView>>::empty());
        for i in 0..rows.len()
            invariant
                all == views(rows@),
                lease_table(all.take(i as int)) == Ok::<
                    Seq<(Seq<char>, HeldLeaseView)>,
                    ErrorView,
                >(t@),
        {
            let row = &rows[i];
            proof {
                assert(all.take(i + 1).drop_last() =~= all.take(i as int));
                assert(all.take(i + 1).last() == row@);
            }
            match &row.value {
                Ok(payload) => {
                    let held = HeldLease { payload: payload.clone(), sha: row.sha.clone() };
                    t.insert(row.suffix.clone(), held);
                },
                Err(e) => {
                    let mut context = "lease payload for ".to_string();
                    context.append(row.suffix.as_str());
                    context.append(": ");
                    context.append(e.as_str());
                    proof {
                        lemma_lease_table_stops(all, i + 1);
                    }
                    return Err(Error::Shape { context });
                },
            }
        }
        assert(all.take(all.len() as int) =~= all);
        Ok(t)
    }

    /// Takes the lease on a task: one push that the server refuses if anyone
    /// holds the lease. `payload` is the lease, as JSON.
    pub fn acquire_lease(&mut self, task: &str, payload: &str) -> (r: Result<()>)
        ensures
            final(self).remote == old(self).remote,
            grew(old(self).log(), final(self).log()),
            pushes_payload(
                since(old(self).log(), final(self).log()),
                payload@,
                |sha: Seq<char>|
                    create_args(old(self).remote@, "refs/loom/lease/"@ + task@, sha),
            ),
            unit_view(r) == raced(ending(since(old(self).log(), final(self).log())), task@),
    {
        let mut refname = LEASE_PREFIX.to_string();
        refname.append(task);
        match self.cas_create(refname.as_str(), payload) {
            Ok(()) => Ok(()),
            Err(e) => Err(race_lost(e, task)),
        }
    }

    /// Renews the lease on a task: one push that the server refuses unless the
    /// lease is still the commit `sha`.
    pub fn heartbeat_lease(&mut self, task: &str, sha: &str, payload: &str) -> (r: Result<()>)
        ensures
            final(self).remote == old(self).remote,
            grew(old(self).log(), final(self).log()),
            pushes_payload(
                since(old(self).log(), final(self).log()),
                payload@,
                |new: Seq<char>|
                    update_args(old(self).remote@, "refs/loom/lease/"@ + task@, sha@, new),
            ),
            unit_view(r) == ending(since(old(self).log(), final(self).log())),
    {
        let mut refname = LEASE_PREFIX.to_string();
        refname.append(task);
        self.cas_update(refname.as_str(), sha, payload)
    }

    /// Gives a lease up: one push that the server refuses unless the lease is
    /// still the commit that was read. Only the holder may, unless forced.
    pub fn release_lease(
        &mut self,
        leases: &Table<HeldLease>,
        task: &str,
        agent: &str,
        force: bool,
    ) -> (r: Result<()>)
        ensures
            final(self).remote == old(self).remote,
            match held_by(leases@, task@, agent@, force) {
                Ok(held) => {
                    &&& ran_one(
                        old(self).log(),
                        final(self).log(),
                        delete_args(old(self).remote@, "refs/loom/lease/"@ + task@, held.sha),
                    )
                    &&& unit_view(r) == ending(since(old(self).log(), final(self).log()))
                },
                Err(e) => final(self).log() == old(self).log() && unit_view(r) == Err::<
                    (),
                    ErrorView,
                >(e),
            },
    {
        match check_holder(leases, task, agent, force) {
            Ok(held) => {
                let mut refname = LEASE_PREFIX.to_string();
                refname.append(task);
                self.cas_delete(refname.as_str(), held.sha.as_str())
            },
            Err(e) => Err(e),
        }
    }

    // ------------------------------------------------------------ attempts

    /// The mirrored attempts.
    pub fn attempt_rows(&mut self) -> (r: Result<Vec<MirrorRow>>)
        ensures
            final(self).remote == old(self).remote,
            ran_one(old(self).log(), final(self).log(), list_args("refs/loom/attempt/"@)),
            list_view(r) == listed(
                since(old(self).log(), final(self).log())[0].reply,
                "refs/loom/attempt/"@,
            ),
    {
        self.read_mirror(ATTEMPT_PREFIX)
    }

    /// The attempts by task, in the order of time.
    pub fn attempts(&self, rows: &Vec<Decoded<AttemptRecord>>) -> (r: Result<Table<History>>)
        ensures
            match r {
                Ok(t) => match grouped(views(rows@)) {
                    Ok(g) => each_chronological(g, t@),
                    Err(_) => false,
                },
                Err(e) => grouped(views(rows@)) == Err::<
                    Seq<(Seq<char>, Seq<AttemptRecordView>)>,
                    ErrorView,
                >(e@),
            },
    {
        let mut t: Table<History> = Table::new();
        let ghost all = views(rows@);
        assert(all.take(0) =~= Seq::<DecodedView<AttemptRecordView>>::empty());
        for i in 0..rows.len()
            invariant
                all == views(rows@),
                grouped(all.take(i as int)) == Ok::<
                    Seq<(Seq<char>, Seq<AttemptRecordView>)>,
                    ErrorView,
                >(t@),
        {
            let row = &rows[i];
            proof {
                assert(all.take(i + 1).drop_last() =~= all.take(i as int));
                assert(all.take(i + 1).last() == row@);
            }
            match &row.value {
                Ok(record) => {
                    let task = text_before(row.suffix.as_str(), '/');
                    let mut records = match t.get(task.as_str()) {
                        Some(h) => copy_records(&h.records),
                        None => Vec::new(),
                    };
                    assert(views(records@) =~= records_of(t@, task@));
                    let copy = record.clone();
                    proof {
                        lemma_views_push(records@, copy);
                    }
                    records.push(copy);
                    t.insert(task, History { records });
                },
                Err(e) => {
                    let mut context = "attempt payload ".to_string();
                    context.append(row.suffix.as_str());
                    context.append(": ");
                    context.append(e.as_str());
                    proof {
                        lemma_grouped_stops(all, i + 1);
                    }
                    return Err(Error::Shape { context });
                },
            }
        }
        assert(all.take(all.len() as int) =~= all);
        let mut out: Table<History> = Table::new();
        let n: usize = t.len();
        for i in 0..n
            invariant
                n == t@.len(),
                ascending(keys_of(t@)),
                each_chronological(t@.take(i as int), out@),
        {
            let records = in_time_order(&t.value(i).records);
            let task = t.key(i).to_string();
            proof {
                lemma_put_last(t@, out@, i as int, views(records@));
            }
            out.insert(task, History { records });
        }
        assert(t@.take(n as int) =~= t@);
        Ok(out)
    }

    /// Records an attempt under an id of its own: nothing is ever overwritten.
    pub fn record_attempt(&mut self, task: &str, id: &str, payload: &str) -> (r: Result<()>)
        ensures
            final(self).remote == old(self).remote,
            grew(old(self).log(), final(self).log()),
            pushes_payload(
                since(old(self).log(), final(self).log()),
                payload@,
                |sha: Seq<char>| create_args(old(self).remote@, attempt_ref(task@, id@), sha),
            ),
            unit_view(r) == ending(since(old(self).log(), final(self).log())),
    {
        let mut refname = ATTEMPT_PREFIX.to_string();
        refname.append(task);
        refname.append("/");
        refname.append(id);
        self.cas_create(refname.as_str(), payload)
    }

    // ------------------------------------------------------------ verdicts

    /// Publishes or replaces the verdict on a task, whatever the ref holds.
    pub fn publish_verdict(&mut self, task: &str, payload: &str) -> (r: Result<()>)
        ensures
            final(self).remote == old(self).remote,
            grew(old(self).log(), final(self).log()),
            pushes_payload(
                since(old(self).log(), final(self).log()),
                payload@,
                |sha: Seq<char>|
                    seq![
                        "push"@,
                        "--force"@,
                        old(self).remote@,
                        sha + ":"@ + "refs/loom/verdict/"@ + task@,
                    ],
            ),
            unit_view(r) == ending(since(old(self).log(), final(self).log())),
    {
        let ghost l0 = self.log();
        let sha = match self.payload_commit(payload) {
            Ok(sha) => sha,
            Err(e) => {
                return Err(e);
            },
        };
        let ghost l1 = self.log();
        let mut moved = sha;
        moved.append(":");
        moved.append(VERDICT_PREFIX);
        moved.append(task);
        let args: [&str; 4] = ["push", "--force", self.remote.as_str(), moved.as_str()];
        assert(views(args@) =~= seq![
            "push"@,
            "--force"@,
            self.remote@,
            sha@ + ":"@ + "refs/loom/verdict/"@ + task@,
        ]);
        let r = self.runner.run("git", &args);
        proof {
            lemma_one(l1, self.log().last());
            lemma_then(l0, l1, self.log());
            assert(since(l0, self.log()).take(2) =~= since(l0, l1));
        }
        match r {
            Ok(_) => Ok(()),
            Err(e) => Err(e),
        }
    }

    /// Publishes a verdict and then, for a rejection, records the attempt that it
    /// counts as. Nothing is recorded for a verdict that could not be published.
    pub fn publish_verification(
        &mut self,
        task: &str,
        verdict: &str,
        attempt: &Option<EncodedAttempt>,
    ) -> (r: Result<()>)
        ensures
            final(self).remote == old(self).remote,
            exists|mid: Seq<Event>|
                {
                    &&& #[trigger] grew(old(self).log(), mid)
                    &&& grew(mid, final(self).log())
                    &&& pushes_payload(
                        since(old(self).log(), mid),
                        verdict@,
                        |sha: Seq<char>|
                            seq![
                                "push"@,
                                "--force"@,
                                old(self).remote@,
                                sha + ":"@ + "refs/loom/verdict/"@ + task@,
                            ],
                    )
                    &&& match (ending(since(old(self).log(), mid)), *attempt) {
                        (Ok(_), Some(a)) => {
                            &&& pushes_payload(
                                since(mid, final(self).log()),
                                a.payload@,
                                |sha: Seq<char>|
                                    create_args(
                                        old(self).remote@,
                                        attempt_ref(task@, a.id@),
                                        sha,
                                    ),
                            )
                            &&& unit_view(r) == ending(since(mid, final(self).log()))
                        },
                        (published, _) => final(self).log() == mid && unit_view(r) == published,
                    }
                },
    {
        let ghost l0 = self.log();
        let published = self.publish_verdict(task, verdict);
        let ghost mid = self.log();
        proof {
            assert(grew(mid, mid)) by {
                assert(since(mid, mid) =~= Seq::<Event>::empty());
                assert(mid =~= mid + since(mid, mid));
            }
            assert(grew(l0, mid));
        }
        match (published, attempt) {
            (Ok(()), Some(a)) => self.record_attempt(task, a.id.as_str(), a.payload.as_str()),
            (Ok(()), None) => Ok(()),
            (Err(e), _) => Err(e),
        }
    }

    /// Takes a silent agent's lease away and then tells the fleet, if that works.
    pub fn reclaim_lease(
        &mut self,
        leases: &Table<HeldLease>,
        task: &str,
        agent: &str,
        attempt: &EncodedAttempt,
    ) -> (r: Result<()>)
        ensures
            final(self).remote == old(self).remote,
            match held_by(leases@, task@, agent@, true) {
                Err(e) => final(self).log() == old(self).log() && unit_view(r) == Err::<
                    (),
                    ErrorView,
                >(e),
                Ok(held) => exists|mid: Seq<Event>|
                    {
                        &&& #[trigger] ran_one(
                            old(self).log(),
                            mid,
                            delete_args(old(self).remote@, "refs/loom/lease/"@ + task@, held.sha),
                        )
                        &&& unit_view(r) == ending(since(old(self).log(), mid))
                        &&& if r is Ok {
                            &&& grew(mid, final(self).log())
                            &&& pushes_payload(
                                since(mid, final(self).log()),
                                attempt.payload@,
                                |sha: Seq<char>|
                                    create_args(
                                        old(self).remote@,
                                        attempt_ref(task@, attempt.id@),
                                        sha,
                                    ),
                            )
                        } else {
                            final(self).log() == mid
                        }
                    },
            },
    {
        let ghost l0 = self.log();
        let released = self.release_lease(leases, task, agent, true);
        let ghost mid = self.log();
        if let Err(e) = released {
            proof {
                let args = delete_args(
                    self.remote@,
                    "refs/loom/lease/"@ + task@,
                    held_by(leases@, task@, agent@, true)->Ok_0.sha,
                );
                if held_by(leases@, task@, agent@, true) is Ok {
                    assert(ran_one(l0, mid, args));
                }
            }
            return Err(e);
        }
        let _ = self.record_attempt(task, attempt.id.as_str(), attempt.payload.as_str());
        proof {
            let args = delete_args(
                self.remote@,
                "refs/loom/lease/"@ + task@,
                held_by(leases@, task@, agent@, true)->Ok_0.sha,
            );
            assert(ran_one(l0, mid, args));
        }
        Ok(())
    }

    /// The mirrored verdicts.
    pub fn verdict_rows(&mut self) -> (r: Result<Vec<MirrorRow>>)
        ensures
            final(self).remote == old(self).remote,
            ran_one(old(self).log(), final(self).log(), list_args("refs/loom/verdict/"@)),
            list_view(r) == listed(
                since(old(self).log(), final(self).log())[0].reply,
                "refs/loom/verdict/"@,
            ),
    {
        self.read_mirror(VERDICT_PREFIX)
    }

    /// The verdict on a task.
    pub fn verdict(&self, rows: &Vec<Decoded<Verdict>>, task: &str) -> (r: Result<Option<Verdict>>)
        ensures
            match r {
                Ok(v) => verdict_in(views(rows@), task@) == Ok::<
                    Option<VerdictView>,
                    ErrorView,
                >(opt_view(v)),
                Err(e) => verdict_in(views(rows@), task@) == Err::<
                    Option<VerdictView>,
                    ErrorView,
                >(e@),
            },
    {
        let ghost all = views(rows@);
        assert(all.skip(0) =~= all);
        for i in 0..rows.len()
            invariant
                all == views(rows@),
                verdict_in(all, task@) == verdict_in(all.skip(i as int), task@),
        {
            let row = &rows[i];
            assert(all.skip(i as int)[0] == row@);
            assert(all.skip(i as int).drop_first() =~= all.skip(i + 1));
            if *row.suffix.as_str() == *task {
                match &row.value {
                    Ok(v) => {
                        return Ok(Some(v.clone()));
                    },
                    Err(e) => {
                        let mut context = "verdict payload ".to_string();
                        context.append(task);
                        context.append(": ");
                        context.append(e.as_str());
                        return Err(Error::Shape { context });
                    },
                }
            }
        }
        Ok(None)
    }

    // ---------------------------------------------------------- merge lock

    /// Takes the merge lock, unless another agent holds it.
    pub fn acquire_merge_lock(&mut self, payload: &str) -> (r: Result<()>)
        ensures
            final(self).remote == old(self).remote,
            grew(old(self).log(), final(self).log()),
            pushes_payload(
                since(old(self).log(), final(self).log()),
                payload@,
                |sha: Seq<char>| create_args(old(self).remote@, "refs/loom/merge-lock"@, sha),
            ),
            unit_view(r) == raced(
                ending(since(old(self).log(), final(self).log())),
                "merge-lock"@,
            ),
    {
        match self.cas_create(MERGE_LOCK, payload) {
            Ok(()) => Ok(()),
            Err(e) => Err(race_lost(e, "merge-lock")),
        }
    }

    /// Gives the merge lock up.
    pub fn release_merge_lock(&mut self) -> (r: Result<()>)
        ensures
            final(self).remote == old(self).remote,
            ran_one(
                old(self).log(),
                final(self).log(),
                seq!["push"@, old(self).remote@, ":"@ + "refs/loom/merge-lock"@],
            ),
            unit_view(r) == ending(since(old(self).log(), final(self).log())),
    {
        let ghost l0 = self.log();
        let mut gone = ":".to_string();
        gone.append(MERGE_LOCK);
        let args: [&str; 3] = ["push", self.remote.as_str(), gone.as_str()];
        assert(views(args@) =~= seq!["push"@, self.remote@, ":"@ + "refs/loom/merge-lock"@]);
        let r = self.runner.run("git", &args);
        proof {
            lemma_one(l0, self.log().last());
        }
        match r {
            Ok(_) => Ok(()),
            Err(e) => Err(e),
        }
    }

    // ----------------------------------------------------------- telemetry

    /// Notes a telemetry record on a commit, and shares the notes if the remote
    /// lets us.
    pub fn record_telemetry(&mut self, commit: &str, body: &str) -> (r: Result<()>)
        ensures
            final(self).remote == old(self).remote,
            grew(old(self).log(), final(self).log()),
            notes_record(
                since(old(self).log(), final(self).log()),
                old(self).remote@,
                commit@,
                body@,
            ),
            unit_view(r) == lenient_ending(since(old(self).log(), final(self).log())),
    {
        let ghost l0 = self.log();
        let args: [&str; 7] = ["notes", "--ref", NOTES_REF, "append", "-m", body, commit];
        assert(views(args@) =~= seq![
            "notes"@,
            "--ref"@,
            "refs/notes/loom-telemetry"@,
            "append"@,
            "-m"@,
            body@,
            commit@,
        ]);
        let noted = self.runner.run("git", &args);
        let ghost l1 = self.log();
        proof {
            lemma_one(l0, l1.last());
        }
        if let Err(e) = noted {
            return Err(e);
        }
        let mut mapping = NOTES_REF.to_string();
        mapping.append(":");
        mapping.append(NOTES_REF);
        let args: [&str; 3] = ["push", self.remote.as_str(), mapping.as_str()];
        assert(views(args@) =~= seq!["push"@, self.remote@, notes_to_notes()]);
        let shared = self.runner.try_run("git", &args);
        proof {
            let reply = choose|reply: std::result::Result<Seq<char>, ErrorView>|
                self.log() == l1.push((Event { program: "git"@, args: views(args@), reply }))
                    && probe_view(shared) == #[trigger] probed(reply);
            lemma_one(l1, (Event { program: "git"@, args: views(args@), reply }));
            lemma_then(l0, l1, self.log());
        }
        match shared {
            Ok(_) => Ok(()),
            Err(e) => Err(e),
        }
    }

    /// All telemetry records of the fleet, as far as the remote shares them.
    pub fn telemetry_records(&mut self) -> (r: Result<Vec<String>>)
        ensures
            final(self).remote == old(self).remote,
            grew(old(self).log(), final(self).log()),
            reads_telemetry(since(old(self).log(), final(self).log()), old(self).remote@),
            list_view(r) == telemetry_of(since(old(self).log(), final(self).log())),
    {
        let ghost l0 = self.log();
        let mut mapping = "+".to_string();
        mapping.append(NOTES_REF);
        mapping.append(":");
        mapping.append(NOTES_REF);
        assert(mapping@ =~= "+"@ + notes_to_notes());
        let args: [&str; 3] = ["fetch", self.remote.as_str(), mapping.as_str()];
        assert(views(args@) =~= seq!["fetch"@, self.remote@, "+"@ + notes_to_notes()]);
        let fetched = self.runner.try_run("git", &args);
        let ghost l1 = self.log();
        proof {
            let reply = choose|reply: std::result::Result<Seq<char>, ErrorView>|
                self.log() == l0.push((Event { program: "git"@, args: views(args@), reply }))
                    && probe_view(fetched) == #[trigger] probed(reply);
            lemma_one(l0, (Event { program: "git"@, args: views(args@), reply }));
        }
        if let Err(e) = fetched {
            return Err(e);
        }
        let args: [&str; 4] = ["notes", "--ref", NOTES_REF, "list"];
        assert(views(args@) =~= seq![
            "notes"@,
            "--ref"@,
            "refs/notes/loom-telemetry"@,
            "list"@,
        ]);
        let listing = self.runner.try_run("git", &args);
        let ghost l2 = self.log();
        proof {
            let reply = choose|reply: std::result::Result<Seq<char>, ErrorView>|
                self.log() == l1.push((Event { program: "git"@, args: views(args@), reply }))
                    && probe_view(listing) == #[trigger] probed(reply);
            lemma_one(l1, (Event { program: "git"@, args: views(args@), reply }));
            lemma_then(l0, l1, l2);
        }
        let listing = match listing {
            Ok(Some(out)) => out,
            Ok(None) => String::new(),
            Err(e) => {
                return Err(e);
            },
        };
        let ghost first = since(l0, l2);
        assert(listing@ =~= output(first[1].reply));
        let notes = list_notes(listing.as_str());
        let ghost calls = note_calls(views(notes@));
        let mut out: Vec<String> = Vec::new();
        proof {
            assert(since(l2, l2) =~= Seq::<Event>::empty());
            assert(grew(l2, l2)) by {
                assert(l2 =~= l2 + since(l2, l2));
            }
            assert(views(out@) =~= records_in(printed(since(l2, l2))));
        }
        for i in 0..notes.len()
            invariant
                self.remote == old(self).remote,
                calls == note_calls(views(notes@)),
                grew(l2, self.log()),
                since(l2, self.log()).len() == i,
                in_turn(since(l2, self.log()), calls.take(i as int)),
                forall|j: int| 0 <= j < i ==> (#[trigger] since(l2, self.log())[j]).reply is Ok,
                views(out@) == records_in(printed(since(l2, self.log()))),
                grew(l0, l2),
                first == since(l0, l2),
                first.len() == 2,
                old(self).log() == l0,
                asked(first[0], seq!["fetch"@, old(self).remote@, "+"@ + notes_to_notes()]),
                asked(
                    first[1],
                    seq!["notes"@, "--ref"@, "refs/notes/loom-telemetry"@, "list"@],
                ),
                probed(first[0].reply) is Ok,
                probed(first[1].reply) is Ok,
                calls == note_calls(notes_in(lines_of(output(first[1].reply)))),
        {
            let ghost l = self.log();
            let ghost ev = since(l2, l);
            let args: [&str; 3] = ["cat-file", "blob", notes[i].as_str()];
            assert(views(args@) =~= calls[i as int]);
            let body = self.runner.run("git", &args);
            let ghost e = self.log().last();
            let ghost now = since(l2, self.log());
            proof {
                lemma_one(l, e);
                lemma_then(l2, l, self.log());
                assert(now =~= ev.push(e));
                assert(now.drop_last() =~= ev);
                assert(printed(now).drop_last() =~= printed(ev));
                assert(forall|j: int| 0 <= j < i ==> now[j] == ev[j]);
                assert(forall|j: int| 0 <= j < i ==> calls.take(i + 1)[j] == calls.take(i as int)[j]);
                assert(now[i as int] == e);
                assert(asked(now[i as int], calls.take(i + 1)[i as int]));
                assert(in_turn(now, calls.take(i + 1)));
            }
            match body {
                Ok(body) => {
                    push_records(&mut out, body.as_str());
                    assert(printed(now).last() == body@);
                },
                Err(e) => {
                    proof {
                        lemma_then(l0, l2, self.log());
                        assert(since(l0, self.log()).skip(2) =~= now);
                        assert(in_turn(now, calls)) by {
                            assert(forall|j: int| 0 <= j <= i ==> calls[j] == calls.take(i + 1)[j]);
                        }
                    }
                    return Err(e);
                },
            }
        }
        proof {
            lemma_then(l0, l2, self.log());
            assert(since(l0, self.log()).skip(2) =~= since(l2, self.log()));
            assert(calls.take(calls.len() as int) =~= calls);
        }
        Ok(out)
    }

    // ----------------------------------------------------- canonical graph

    /// Whether the remote says that it does not have a branch. A remote that gives
    /// no answer does not say so.
    fn denies_branch(&mut self, main_ref: &str) -> (r: bool)
        ensures
            final(self).remote == old(self).remote,
            grew(old(self).log(), final(self).log()),
            since(old(self).log(), final(self).log()).len() == 1,
            asked(
                since(old(self).log(), final(self).log())[0],
                branch_args(old(self).remote@, main_ref@),
            ),
            r == (status_of(since(old(self).log(), final(self).log())[0].reply) == Some(2i32)),
    {
        let ghost l0 = self.log();
        let mut name = "refs/heads/".to_string();
        name.append(main_ref);
        let args: [&str; 4] = ["ls-remote", "--exit-code", self.remote.as_str(), name.as_str()];
        assert(views(args@) =~= branch_args(self.remote@, main_ref@));
        let answer = self.runner.run("git", &args);
        proof {
            lemma_one(l0, self.log().last());
        }
        match answer {
            Err(Error::Git { code: Some(code), .. }) => code == 2,
            _ => false,
        }
    }

    /// The task files of the remote's main branch, never those of the worktree.
    /// Nothing where the remote has no such branch yet, and only there: a remote
    /// that cannot be reached is an error.
    pub fn canonical_task_blobs(&mut self, main_ref: &str) -> (r: Result<Option<Vec<Blob>>>)
        ensures
            final(self).remote == old(self).remote,
            grew(old(self).log(), final(self).log()),
            reads_canonical(
                since(old(self).log(), final(self).log()),
                old(self).remote@,
                main_ref@,
            ),
            opt_list_view(r) == canonical_of(since(old(self).log(), final(self).log())),
    {
        let ghost l0 = self.log();
        let args: [&str; 3] = ["fetch", self.remote.as_str(), main_ref];
        assert(views(args@) =~= seq!["fetch"@, self.remote@, main_ref@]);
        let fetched = self.runner.run("git", &args);
        let ghost l1 = self.log();
        proof {
            lemma_one(l0, l1.last());
        }
        match fetched {
            Ok(_) => {},
            Err(Error::Git { args, code, stderr }) => {
                if misses_ref(stderr.as_str()) || self.denies_branch(main_ref) {
                    proof {
                        if !lacks_ref(stderr@) {
                            lemma_then(l0, l1, self.log());
                        }
                    }
                    return Ok(None);
                }
                proof {
                    lemma_then(l0, l1, self.log());
                }
                return Err(Error::Git { args, code, stderr });
            },
            Err(e) => {
                return Err(e);
            },
        }
        let mut rev = self.remote.clone();
        rev.append("/");
        rev.append(main_ref);
        let args: [&str; 6] = ["ls-tree", "-r", "--name-only", rev.as_str(), "--", ".work/tasks"];
        assert(views(args@) =~= seq![
            "ls-tree"@,
            "-r"@,
            "--name-only"@,
            branch(self.remote@, main_ref@),
            "--"@,
            ".work/tasks"@,
        ]);
        let listing = self.runner.run("git", &args);
        let ghost l2 = self.log();
        proof {
            lemma_one(l1, l2.last());
            lemma_then(l0, l1, l2);
        }
        let listing = match listing {
            Ok(out) => out,
            Err(e) => {
                return Err(e);
            },
        };
        let ghost first = since(l0, l2);
        let paths = list_task_files(listing.as_str());
        let ghost calls = show_calls(rev@, views(paths@));
        let mut out: Vec<Blob> = Vec::new();
        proof {
            assert(since(l2, l2) =~= Seq::<Event>::empty());
            assert(grew(l2, l2)) by {
                assert(l2 =~= l2 + since(l2, l2));
            }
        }
        for i in 0..paths.len()
            invariant
                self.remote == old(self).remote,
                rev@ == branch(old(self).remote@, main_ref@),
                calls == show_calls(rev@, views(paths@)),
                views(paths@) == task_files(first[1].reply->Ok_0),
                grew(l2, self.log()),
                since(l2, self.log()).len() == i,
                in_turn(since(l2, self.log()), calls.take(i as int)),
                forall|j: int| 0 <= j < i ==> (#[trigger] since(l2, self.log())[j]).reply is Ok,
                out@.len() == i,
                forall|j: int|
                    0 <= j < i ==> (#[trigger] out@[j])@ == (BlobView {
                        path: paths@[j]@,
                        body: printed(since(l2, self.log()))[j],
                    }),
                grew(l0, l2),
                first == since(l0, l2),
                first.len() == 2,
                old(self).log() == l0,
                asked(first[0], seq!["fetch"@, old(self).remote@, main_ref@]),
                asked(
                    first[1],
                    seq![
                        "ls-tree"@,
                        "-r"@,
                        "--name-only"@,
                        branch(old(self).remote@, main_ref@),
                        "--"@,
                        ".work/tasks"@,
                    ],
                ),
                first[0].reply is Ok,
                first[1].reply is Ok,
        {
            let ghost l = self.log();
            let ghost ev = since(l2, l);
            let mut object = rev.clone();
            object.append(":");
            object.append(paths[i].as_str());
            let args: [&str; 2] = ["show", object.as_str()];
            assert(views(args@) =~= calls[i as int]);
            let body = self.runner.run("git", &args);
            let ghost e = self.log().last();
            let ghost now = since(l2, self.log());
            proof {
                lemma_one(l, e);
                lemma_then(l2, l, self.log());
                assert(now =~= ev.push(e));
                assert(forall|j: int| 0 <= j < i ==> now[j] == ev[j]);
                assert(forall|j: int| 0 <= j < i ==> printed(now)[j] == printed(ev)[j]);
                assert(forall|j: int| 0 <= j < i ==> calls.take(i + 1)[j] == calls.take(i as int)[j]);
                assert(now[i as int] == e);
                assert(asked(now[i as int], calls.take(i + 1)[i as int]));
                assert(in_turn(now, calls.take(i + 1)));
            }
            match body {
                Ok(body) => {
                    out.push(Blob { path: paths[i].clone(), body });
                },
                Err(e) => {
                    proof {
                        lemma_then(l0, l2, self.log());
                        assert(since(l0, self.log()).skip(2) =~= now);
                        assert(in_turn(now, calls)) by {
                            assert(forall|j: int| 0 <= j <= i ==> calls[j] == calls.take(i + 1)[j]);
                        }
                    }
                    return Err(e);
                },
            }
        }
        proof {
            lemma_then(l0, l2, self.log());
            let ev = since(l0, self.log());
            assert(ev.skip(2) =~= since(l2, self.log()));
            assert(calls.take(calls.len() as int) =~= calls);
            assert(canonical_of(ev) is Ok);
            assert(views(out@) =~= canonical_of(ev)->Ok_0->Some_0);
        }
        Ok(Some(out))
    }
}

/// A refused push is a lost race.
fn race_lost(e: Error, task: &str) -> (r: Error)
    ensures
        Err::<(), ErrorView>(r@) == raced(Err(e@), task@),
{
    match e {
        Error::Git { .. } => Error::LeaseRaceLost {
            task: task.to_string(),
            holder: "another agent".to_string(),
        },
        _ => e,
    }
}

// ----------------------------------------------------------------------- laws

/// The canonical graph is missing exactly where git or the remote says that the
/// remote does not have the branch. Whatever else goes wrong, such as a remote
/// that cannot be reached, is an error.
pub proof fn law_only_a_missing_branch_is_no_graph(
    ev: Seq<Event>,
    remote: Seq<char>,
    main: Seq<char>,
)
    requires
        reads_canonical(ev, remote, main),
    ensures
        canonical_of(ev) == Ok::<Option<Seq<BlobView>>, ErrorView>(None) <==> branch_is_missing(ev),
        ev[0].reply is Err && !branch_is_missing(ev) ==> canonical_of(ev) == Err::<
            Option<Seq<BlobView>>,
            ErrorView,
        >(ev[0].reply->Err_0),
        ev[0].reply is Ok && ev.last().reply is Err ==> canonical_of(ev) == Err::<
            Option<Seq<BlobView>>,
            ErrorView,
        >(ev.last().reply->Err_0),
{
}

/// Telemetry is only ever added: a note to which a record was appended, on a line
/// of its own, holds the records that it held and then the new one.
pub proof fn law_telemetry_is_added(note: Seq<char>, record: Seq<char>)
    requires
        is_record()(record),
        !record.contains('\n'),
    ensures
        lines_of(note.push('\n') + record).filter(is_record()) == lines_of(
            note.push('\n'),
        ).filter(is_record()).push(record),
{
    let p = is_record();
    let before = lines_of(note.push('\n'));
    lemma_one_line(record);
    lemma_lines_append(note, record);
    let all = lines_of(note.push('\n') + record);
    assert(all =~= before.push(record));
    lemma_filter_take(all, p, before.len() as int);
    assert(all.take(before.len() as int) =~= before);
    assert(all.take(all.len() as int) =~= all);
}

/// A change of one ref that a server makes only if the ref is as expected:
/// absent, or at a commit.
#[verifier::ext_equal]
pub struct Swap {
    /// The ref.
    pub refname: Seq<char>,
    /// What it must be.
    pub expected: Option<Seq<char>>,
    /// What it becomes.
    pub new: Option<Seq<char>>,
}

/// What a server that compares and swaps makes of its refs, and whether it
/// accepts.
pub open spec fn swapped(refs: Map<Seq<char>, Seq<char>>, s: Swap) -> (
    Map<Seq<char>, Seq<char>>,
    bool,
) {
    let current = if refs.dom().contains(s.refname) {
        Some(refs[s.refname])
    } else {
        None
    };
    if current == s.expected {
        match s.new {
            Some(sha) => (refs.insert(s.refname, sha), true),
            None => (refs.remove(s.refname), true),
        }
    } else {
        (refs, false)
    }
}

/// What a server makes of its refs with one change after the other.
pub open spec fn swapped_all(
    refs: Map<Seq<char>, Seq<char>>,
    all: Seq<Swap>,
) -> Map<Seq<char>, Seq<char>>
    decreases all.len(),
{
    if all.len() == 0 {
        refs
    } else {
        swapped(swapped_all(refs, all.drop_last()), all.last()).0
    }
}

/// The push that asks a server for a change.
pub open spec fn swap_args(remote: Seq<char>, s: Swap) -> Seq<Seq<char>> {
    let lease = "--force-with-lease="@ + s.refname + ":"@ + match s.expected {
        Some(sha) => sha,
        None => Seq::empty(),
    };
    let moved = match s.new {
        Some(sha) => sha + ":"@ + s.refname,
        None => ":"@ + s.refname,
    };
    seq!["push"@, remote, moved, lease]
}

/// Creating, renewing and deleting a lease are conditional changes: of an absent
/// ref, or of a ref that is still at the commit that was read.
pub proof fn law_lease_pushes_are_swaps(
    remote: Seq<char>,
    refname: Seq<char>,
    expected: Seq<char>,
    sha: Seq<char>,
)
    ensures
        create_args(remote, refname, sha) == swap_args(
            remote,
            Swap { refname, expected: None, new: Some(sha) },
        ),
        update_args(remote, refname, expected, sha) == swap_args(
            remote,
            Swap { refname, expected: Some(expected), new: Some(sha) },
        ),
        delete_args(remote, refname, expected) == swap_args(
            remote,
            Swap { refname, expected: Some(expected), new: None },
        ),
{
    assert("--force-with-lease="@ + refname + ":"@ + Seq::<char>::empty()
        =~= "--force-with-lease="@ + refname + ":"@);
}

/// Two agents that race for a lease cannot both win: on a server that compares
/// and swaps, once one has created the lease, the other's push is refused until
/// the lease is given up, whatever else happens to the refs meanwhile.
pub proof fn law_lease_is_exclusive(
    refs: Map<Seq<char>, Seq<char>>,
    lease: Seq<char>,
    first: Seq<char>,
    second: Seq<char>,
    meanwhile: Seq<Swap>,
)
    requires
        swapped(refs, Swap { refname: lease, expected: None, new: Some(first) }).1,
        forall|i: int|
            0 <= i < meanwhile.len() && (#[trigger] meanwhile[i]).refname == lease
                ==> meanwhile[i].new is Some,
    ensures
        ({
            let won = swapped(refs, Swap { refname: lease, expected: None, new: Some(first) }).0;
            !swapped(
                swapped_all(won, meanwhile),
                Swap { refname: lease, expected: None, new: Some(second) },
            ).1
        }),
{
    let won = swapped(refs, Swap { refname: lease, expected: None, new: Some(first) }).0;
    lemma_ref_stays(won, lease, meanwhile);
}

proof fn lemma_ref_stays(
    refs: Map<Seq<char>, Seq<char>>,
    refname: Seq<char>,
    all: Seq<Swap>,
)
    requires
        refs.dom().contains(refname),
        forall|i: int|
            0 <= i < all.len() && (#[trigger] all[i]).refname == refname ==> all[i].new is Some,
    ensures
        swapped_all(refs, all).dom().contains(refname),
    decreases all.len(),
{
    if all.len() > 0 {
        let init = all.drop_last();
        assert forall|i: int|
            0 <= i < init.len() && (#[trigger] init[i]).refname
                == refname implies init[i].new is Some by {
            assert(init[i] == all[i]);
        }
        lemma_ref_stays(refs, refname, init);
        assert(all.last() == all[all.len() - 1]);
    }
}

/// Acting on a lease that has changed since it was read is refused and changes
/// nothing; no change touches another ref.
pub proof fn law_stale_swap_is_refused(
    refs: Map<Seq<char>, Seq<char>>,
    s: Swap,
    other: Seq<char>,
)
    ensures
        s.expected is Some && !(refs.dom().contains(s.refname) && refs[s.refname]
            == s.expected->Some_0) ==> swapped(refs, s) == (refs, false),
        other != s.refname ==> (swapped(refs, s).0.dom().contains(other) <==> refs.dom().contains(
            other,
        )),
        other != s.refname && refs.dom().contains(other) ==> swapped(refs, s).0[other]
            == refs[other],
{
}

/// What a server that compares and swaps does: it accepts exactly where the ref is
/// as expected, and then the ref is at the new commit, or gone.
pub proof fn law_swap(refs: Map<Seq<char>, Seq<char>>, s: Swap)
    ensures
        swapped(refs, s).1 <==> match s.expected {
            None => !refs.dom().contains(s.refname),
            Some(sha) => refs.dom().contains(s.refname) && refs[s.refname] == sha,
        },
        swapped(refs, s).1 ==> match s.new {
            None => !swapped(refs, s).0.dom().contains(s.refname),
            Some(sha) => swapped(refs, s).0.dom().contains(s.refname) && swapped(
                refs,
                s,
            ).0[s.refname] == sha,
        },
        !swapped(refs, s).1 ==> swapped(refs, s).0 == refs,
{
}

/// Changes are made one after the other, each to what the ones before it left.
pub proof fn law_swaps_in_turn(refs: Map<Seq<char>, Seq<char>>, all: Seq<Swap>, s: Swap)
    ensures
        swapped_all(refs, Seq::empty()) == refs,
        swapped_all(refs, all.push(s)) == swapped(swapped_all(refs, all), s).0,
{
    assert(all.push(s).drop_last() =~= all);
}

/// The pushes of a lease name the remote, the ref and what the server must find
/// there: nothing where the ref is created, and the commit that was read where it
/// is moved or deleted.
pub proof fn law_push_commands(
    remote: Seq<char>,
    refname: Seq<char>,
    expected: Seq<char>,
    sha: Seq<char>,
)
    ensures
        create_args(remote, refname, sha).len() == 4,
        create_args(remote, refname, sha)[0] == "push"@,
        create_args(remote, refname, sha)[1] == remote,
        create_args(remote, refname, sha)[2] == sha + ":"@ + refname,
        create_args(remote, refname, sha)[3] == "--force-with-lease="@ + refname + ":"@,
        update_args(remote, refname, expected, sha).len() == 4,
        update_args(remote, refname, expected, sha)[0] == "push"@,
        update_args(remote, refname, expected, sha)[1] == remote,
        update_args(remote, refname, expected, sha)[2] == sha + ":"@ + refname,
        update_args(remote, refname, expected, sha)[3] == "--force-with-lease="@ + refname + ":"@
            + expected,
        delete_args(remote, refname, expected).len() == 4,
        delete_args(remote, refname, expected)[0] == "push"@,
        delete_args(remote, refname, expected)[1] == remote,
        delete_args(remote, refname, expected)[2] == ":"@ + refname,
        delete_args(remote, refname, expected)[3] == "--force-with-lease="@ + refname + ":"@
            + expected,
        fetch_args(remote) == seq![
            "fetch"@,
            remote,
            "--prune"@,
            "+refs/loom/*:refs/loom/mirror/*"@,
        ],
{
    reveal_strlit("+refs/loom/*:");
    reveal_strlit("refs/loom/mirror/");
    reveal_strlit("*");
    reveal_strlit("+refs/loom/*:refs/loom/mirror/*");
    assert("+refs/loom/*:"@ + "refs/loom/mirror/"@ + "*"@ =~= "+refs/loom/*:refs/loom/mirror/*"@);
}

/// A payload that was pushed is the message of the commit that was pushed, over the
/// tree that git made, or the empty one.
pub proof fn law_payload_is_pushed(
    ev: Seq<Event>,
    payload: Seq<char>,
    push: spec_fn(Seq<char>) -> Seq<Seq<char>>,
)
    requires
        pushes_payload(ev, payload, push),
        ending(ev) is Ok,
    ensures
        ev.len() == 3,
        forall|i: int| 0 <= i < 3 ==> (#[trigger] ev[i]).program == "git"@ && ev[i].reply is Ok,
        ev[0].args == seq!["mktree"@],
        ev[1].args == seq![
            "commit-tree"@,
            if ev[0].reply->Ok_0.len() > 0 {
                ev[0].reply->Ok_0
            } else {
                "4b825dc642cb6eb9a060e54bf8d69288fbee4904"@
            },
            "-m"@,
            payload,
        ],
        ev[2].args == push(ev[1].reply->Ok_0),
{
    if ev.len() == 3 {
        let two = ev.take(2);
        assert(two[0] == ev[0]);
        assert(two[1] == ev[1]);
    }
}

/// A payload that could not be pushed is reported by what failed: nothing ran
/// behind the command that failed, and before the push nothing left the machine.
pub proof fn law_failed_push(
    ev: Seq<Event>,
    payload: Seq<char>,
    push: spec_fn(Seq<char>) -> Seq<Seq<char>>,
)
    requires
        pushes_payload(ev, payload, push),
        ending(ev) is Err,
    ensures
        1 <= ev.len() <= 3,
        ev[ev.len() - 1].reply == Err::<Seq<char>, ErrorView>(ending(ev)->Err_0),
        forall|i: int| 0 <= i < ev.len() - 1 ==> (#[trigger] ev[i]).reply is Ok,
        ev[0].args == seq!["mktree"@],
        ev.len() > 1 ==> ev[1].args[0] == "commit-tree"@ && ev[1].args[3] == payload,
        ev.len() > 2 ==> ev[2].args == push(ev[1].reply->Ok_0),
{
    if ev.len() == 3 {
        let two = ev.take(2);
        assert(two[0] == ev[0]);
        assert(two[1] == ev[1]);
    }
}

/// A refused push of a lease is a race that another agent has won; every other
/// error stays what it is, and so does success.
pub proof fn law_lost_race(task: Seq<char>, e: ErrorView)
    ensures
        e is Git ==> raced(Err(e), task) == Err::<(), ErrorView>(
            ErrorView::LeaseRaceLost { task, holder: "another agent"@ },
        ),
        !(e is Git) ==> raced(Err(e), task) == Err::<(), ErrorView>(e),
        raced(Ok(()), task) is Ok,
{
}

/// The remote answers where both commands work. A repository that is missing is
/// reported as it is, and a remote that does not answer by its name.
pub proof fn law_remote_answers(ev: Seq<Event>, remote: Seq<char>)
    requires
        checks_remote(ev, remote),
        ev.len() > 0,
    ensures
        ev.len() <= 2,
        ev[0].args == seq!["rev-parse"@, "--show-toplevel"@],
        ev.len() == 2 ==> ev[1].args == seq!["ls-remote"@, "--heads"@, remote],
        reached(ev, remote) is Ok <==> ev.len() == 2 && ev[1].reply is Ok,
        ev[0].reply matches Err(e) ==> reached(ev, remote) == Err::<(), ErrorView>(e),
        ev.len() == 2 ==> (ev[1].reply matches Err(e) ==> reached(ev, remote) == Err::<
            (),
            ErrorView,
        >(ErrorView::Other("cannot reach remote '"@ + remote + "': "@ + message_of(e)))),
{
    let calls = seq![seq!["rev-parse"@, "--show-toplevel"@], seq!["ls-remote"@, "--heads"@, remote]];
    assert(asked(ev[0], calls[0]));
    if ev.len() == 2 {
        assert(asked(ev[1], calls[1]));
    }
}

/// A telemetry record is noted on its commit and then offered to the remote; that
/// the remote refuses it is no error.
pub proof fn law_telemetry_is_noted(
    ev: Seq<Event>,
    remote: Seq<char>,
    commit: Seq<char>,
    body: Seq<char>,
)
    requires
        notes_record(ev, remote, commit, body),
    ensures
        ev[0].args == seq![
            "notes"@,
            "--ref"@,
            "refs/notes/loom-telemetry"@,
            "append"@,
            "-m"@,
            body,
            commit,
        ],
        ev[0].reply matches Err(e) ==> ev.len() == 1 && lenient_ending(ev) == Err::<
            (),
            ErrorView,
        >(e),
        ev[0].reply is Ok ==> ev.len() == 2 && ev[1].args == seq![
            "push"@,
            remote,
            "refs/notes/loom-telemetry:refs/notes/loom-telemetry"@,
        ],
        ev[0].reply is Ok && ev[1].reply is Ok ==> lenient_ending(ev) is Ok,
        ev[0].reply is Ok ==> (ev[1].reply matches Err(e) ==> if e is Git {
            lenient_ending(ev) is Ok
        } else {
            lenient_ending(ev) == Err::<(), ErrorView>(e)
        }),
{
    lemma_notes_refspec();
}

proof fn lemma_notes_refspec()
    ensures
        notes_to_notes() == "refs/notes/loom-telemetry:refs/notes/loom-telemetry"@,
        "+"@ + notes_to_notes() == "+refs/notes/loom-telemetry:refs/notes/loom-telemetry"@,
{
    reveal_strlit("refs/notes/loom-telemetry");
    reveal_strlit(":");
    reveal_strlit("+");
    reveal_strlit("refs/notes/loom-telemetry:refs/notes/loom-telemetry");
    reveal_strlit("+refs/notes/loom-telemetry:refs/notes/loom-telemetry");
    assert(notes_to_notes() =~= "refs/notes/loom-telemetry:refs/notes/loom-telemetry"@);
    assert("+"@ + notes_to_notes() =~= "+refs/notes/loom-telemetry:refs/notes/loom-telemetry"@);
}

/// The notes of a listing are the first words of its lines, line by line.
pub proof fn law_notes_in(lines: Seq<Seq<char>>, line: Seq<char>)
    ensures
        notes_in(Seq::empty()) == Seq::<Seq<char>>::empty(),
        blank(line) ==> notes_in(lines.push(line)) == notes_in(lines),
        !blank(line) ==> first_word_of(line) is Some && notes_in(lines.push(line)) == notes_in(
            lines,
        ).push(first_word_of(line)->Some_0),
{
    law_first_word(line);
    assert(lines.push(line).drop_last() =~= lines);
}

/// The records of the notes are their lines that are not blank and are JSON, note
/// by note and in the order of the lines.
pub proof fn law_records_in(bodies: Seq<Seq<char>>, body: Seq<char>, line: Seq<char>)
    ensures
        records_in(Seq::empty()) == Seq::<Seq<char>>::empty(),
        records_in(bodies.push(body)) == records_in(bodies) + records_in(seq![body]),
        records_in(seq![body]).contains(line) <==> lines_of(body).contains(line) && !blank(line)
            && json_valid(line),
        (forall|i: int|
            0 <= i < lines_of(body).len() ==> !blank(#[trigger] lines_of(body)[i]) && json_valid(
                lines_of(body)[i],
            )) ==> records_in(seq![body]) == lines_of(body),
{
    reveal_with_fuel(records_in, 2);
    let p = is_record();
    let all = lines_of(body);
    assert(seq![body].drop_last() =~= Seq::<Seq<char>>::empty());
    assert(records_in(seq![body]) =~= all.filter(p));
    assert(bodies.push(body).drop_last() =~= bodies);
    lemma_filter_contains(all, p, line);
    if forall|i: int| 0 <= i < all.len() ==> !blank(#[trigger] all[i]) && json_valid(all[i]) {
        lemma_all_chosen(all, p);
    }
}

proof fn lemma_all_chosen(s: Seq<Seq<char>>, p: spec_fn(Seq<char>) -> bool)
    requires
        forall|i: int| 0 <= i < s.len() ==> p(#[trigger] s[i]),
    ensures
        s.filter(p) == s,
    decreases s.len(),
{
    reveal(Seq::filter);
    if s.len() > 0 {
        let init = s.drop_last();
        assert forall|i: int| 0 <= i < init.len() implies p(#[trigger] init[i]) by {
            assert(init[i] == s[i]);
        }
        lemma_all_chosen(init, p);
        assert(p(s[s.len() - 1]));
        assert(init.push(s.last()) =~= s);
    } else {
        assert(s.filter(p) =~= s);
    }
}

/// All telemetry is what the notes hold: the remote is asked for its notes, the
/// notes are listed, and each of them is read. A remote without notes and a
/// repository without notes are no error; a note that cannot be read is.
pub proof fn law_telemetry_is_read(ev: Seq<Event>, remote: Seq<char>)
    requires
        reads_telemetry(ev, remote),
    ensures
        ev[0].args == seq![
            "fetch"@,
            remote,
            "+refs/notes/loom-telemetry:refs/notes/loom-telemetry"@,
        ],
        (ev[0].reply matches Err(e) && !(e is Git)) ==> telemetry_of(ev) == Err::<
            Seq<Seq<char>>,
            ErrorView,
        >(ev[0].reply->Err_0),
        ev[0].reply is Ok || ev[0].reply->Err_0 is Git ==> ev.len() >= 2 && ev[1].args == seq![
            "notes"@,
            "--ref"@,
            "refs/notes/loom-telemetry"@,
            "list"@,
        ],
        (ev[0].reply is Ok || ev[0].reply->Err_0 is Git) && (ev[1].reply matches Err(e) && !(
        e is Git)) ==> telemetry_of(ev) == Err::<Seq<Seq<char>>, ErrorView>(ev[1].reply->Err_0),
        telemetry_of(ev) is Ok && ev[1].reply is Err ==> ev.len() == 2
            && telemetry_of(ev)->Ok_0.len() == 0,
        telemetry_of(ev) is Ok && ev[1].reply is Ok ==> {
            let notes = notes_in(lines_of(ev[1].reply->Ok_0));
            &&& ev.len() == 2 + notes.len()
            &&& forall|i: int|
                2 <= i < ev.len() ==> (#[trigger] ev[i]).args == seq![
                    "cat-file"@,
                    "blob"@,
                    notes[i - 2],
                ] && ev[i].reply is Ok
            &&& telemetry_of(ev)->Ok_0 == records_in(
                Seq::new(notes.len(), |i: int| ev[i + 2].reply->Ok_0),
            )
        },
        ev.len() > 2 ==> (ev[ev.len() - 1].reply matches Err(e) ==> telemetry_of(ev) == Err::<
            Seq<Seq<char>>,
            ErrorView,
        >(e)),
{
    lemma_notes_refspec();
    if telemetry_of(ev) is Ok {
        let rest = ev.skip(2);
        let notes = notes_in(lines_of(output(ev[1].reply)));
        let calls = note_calls(notes);
        if ev[1].reply is Err {
            law_lines(Seq::empty(), Seq::empty());
            assert(output(ev[1].reply) =~= Seq::<char>::empty());
            assert(notes.len() == 0);
            assert(rest.len() == 0);
            assert(printed(rest) =~= Seq::<Seq<char>>::empty());
        } else {
            assert(rest.len() == calls.len()) by {
                if rest.len() < calls.len() && rest.len() > 0 {
                    assert(rest[rest.len() - 1] == ev[ev.len() - 1]);
                }
            }
            assert forall|i: int| 2 <= i < ev.len() implies (#[trigger] ev[i]).args == seq![
                "cat-file"@,
                "blob"@,
                notes[i - 2],
            ] && ev[i].reply is Ok by {
                assert(rest[i - 2] == ev[i]);
                assert(asked(rest[i - 2], calls[i - 2]));
                if i == ev.len() - 1 {
                    assert(ev.last() == ev[i]);
                }
            }
            assert(printed(rest) =~= Seq::new(notes.len(), |i: int| ev[i + 2].reply->Ok_0)) by {
                assert forall|i: int| 0 <= i < notes.len() implies #[trigger] printed(rest)[i]
                    == ev[i + 2].reply->Ok_0 by {
                    assert(rest[i] == ev[i + 2]);
                    assert(ev[i + 2].reply is Ok);
                }
            }
        }
    }
}

/// The canonical task files are those of the remote's branch: the branch is
/// fetched, its files under `.work/tasks` are listed, and each with the extension
/// of a task file is shown. All of them are there, each with what git showed.
pub proof fn law_canonical_files(
    ev: Seq<Event>,
    remote: Seq<char>,
    main: Seq<char>,
    blobs: Seq<BlobView>,
)
    requires
        reads_canonical(ev, remote, main),
        canonical_of(ev) == Ok::<Option<Seq<BlobView>>, ErrorView>(Some(blobs)),
    ensures
        ev.len() == 2 + blobs.len(),
        forall|i: int| 0 <= i < ev.len() ==> (#[trigger] ev[i]).reply is Ok,
        ev[0].args == seq!["fetch"@, remote, main],
        ev[1].args == seq![
            "ls-tree"@,
            "-r"@,
            "--name-only"@,
            remote + "/"@ + main,
            "--"@,
            ".work/tasks"@,
        ],
        blobs.map_values(|b: BlobView| b.path) == lines_of(ev[1].reply->Ok_0).filter(
            |path: Seq<char>| ".toml"@.is_suffix_of(path),
        ),
        forall|i: int|
            2 <= i < ev.len() ==> (#[trigger] ev[i]).args == seq![
                "show"@,
                remote + "/"@ + main + ":"@ + blobs[i - 2].path,
            ] && blobs[i - 2].body == ev[i].reply->Ok_0,
{
    let rest = ev.skip(2);
    let paths = task_files(ev[1].reply->Ok_0);
    let calls = show_calls(branch(remote, main), paths);
    assert(ev[0].reply is Ok);
    assert(ev[1].reply is Ok) by {
        if ev[1].reply is Err {
            assert(ev.last() == ev[1]);
        }
    }
    assert(rest.len() == calls.len()) by {
        if rest.len() < calls.len() && rest.len() > 0 {
            assert(rest[rest.len() - 1] == ev[ev.len() - 1]);
        }
    }
    assert(blobs.len() == paths.len());
    assert forall|i: int| 2 <= i < ev.len() implies (#[trigger] ev[i]).args == seq![
        "show"@,
        remote + "/"@ + main + ":"@ + blobs[i - 2].path,
    ] && blobs[i - 2].body == ev[i].reply->Ok_0 && ev[i].reply is Ok by {
        assert(rest[i - 2] == ev[i]);
        assert(asked(rest[i - 2], calls[i - 2]));
        if i == ev.len() - 1 {
            assert(ev.last() == ev[i]);
        }
        assert(printed(rest)[i - 2] == ev[i].reply->Ok_0);
    }
    let p = |path: Seq<char>| ".toml"@.is_suffix_of(path);
    assert(p =~= is_toml());
    assert(blobs.map_values(|b: BlobView| b.path) =~= paths);
}

/// What tells that the remote lacks a branch: git's words, or, where they leave it
/// open, status two when the remote is asked for just that branch. That is the one
/// case in which there is no graph.
pub proof fn law_missing_branch(ev: Seq<Event>, remote: Seq<char>, main: Seq<char>, plain: bool)
    requires
        reads_canonical(ev, remote, main),
        ev[0].reply is Err && ev[0].reply->Err_0 is Git,
        plain == {
            let stderr = ev[0].reply->Err_0->Git_stderr;
            ||| occurs("couldn't find remote ref"@, stderr)
            ||| occurs("Couldn't find remote ref"@, stderr)
            ||| stderr == "no ref"@
        },
    ensures
        plain ==> ev.len() == 1 && canonical_of(ev) == Ok::<Option<Seq<BlobView>>, ErrorView>(None),
        !plain ==> {
            &&& ev.len() == 2
            &&& ev[1].args == seq!["ls-remote"@, "--exit-code"@, remote, "refs/heads/"@ + main]
            &&& canonical_of(ev) == if ev[1].reply is Err && ev[1].reply->Err_0 is Git
                && ev[1].reply->Err_0->Git_code == Some(2i32) {
                Ok::<Option<Seq<BlobView>>, ErrorView>(None)
            } else {
                Err::<Option<Seq<BlobView>>, ErrorView>(ev[0].reply->Err_0)
            }
        },
{
}

} // verus!
