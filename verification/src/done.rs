//! Finishing a task, step by step.
//!
//! A task is done when a commit says so: the verdict gate, the flip of the state
//! and the commit of code, tests and state are one operation. Nothing is written
//! before the verdict gate has passed, and if the commit fails the task file is
//! put back: the tracker never claims done for work that is not committed.
//!
//! [`Done`] decides. It asks for one [`Action`] at a time, and the [`Event`] that
//! answers it leads to the next.

use crate::error::{result_view, unit_view, Error, ErrorView, Result};
use crate::model::{Task, TaskState, TaskView, Verdict, VerdictView};
use crate::protocol::{gate, verify_gate};
use crate::text::{copy_opt, opt_view};
use vstd::prelude::*;

verus! {

// --------------------------------------------------------------------- models

/// What is to be done next.
pub enum ActionView {
    /// Read the task file.
    Load,
    /// Look whether this acceptance test is on disk.
    Test(Seq<char>),
    /// Ask git for the commit that is checked out.
    Head,
    /// Read the verdict on the task, and who we are.
    Judge,
    /// Keep the bytes of the task file.
    Keep,
    /// Write the task file.
    Save(TaskView),
    /// Commit everything with this message.
    Commit(Seq<char>),
    /// Put the kept bytes back.
    Restore,
    /// Give the lease up, if that works.
    Release,
    /// The task is done.
    Finish,
    /// The task is not done.
    Fail(ErrorView),
}

/// How an action went.
pub enum EventView {
    /// The task file was read.
    Loaded(std::result::Result<TaskView, ErrorView>),
    /// The acceptance test is on disk, or not.
    Tested(bool),
    /// The commit that is checked out.
    HeadRead(std::result::Result<Seq<char>, ErrorView>),
    /// The verdict on the task, and who we are.
    Judged {
        verdict: std::result::Result<Option<VerdictView>, ErrorView>,
        agent: Seq<char>,
    },
    /// The bytes of the task file are kept.
    Kept(std::result::Result<(), ErrorView>),
    /// The task file was written.
    Saved(std::result::Result<(), ErrorView>),
    /// Everything was committed.
    Committed(std::result::Result<(), ErrorView>),
    /// The kept bytes are back.
    Restored(std::result::Result<(), ErrorView>),
    /// The lease was given up, or not.
    Released,
}

/// How far finishing a task has come.
#[verifier::ext_equal]
pub enum StageView {
    /// Waiting for the task.
    Loading,
    /// Waiting to hear of an acceptance test.
    Testing { task: TaskView, at: nat },
    /// Waiting for the commit that is checked out.
    Heading { task: TaskView },
    /// Waiting for the verdict.
    Judging { task: TaskView, head: Seq<char> },
    /// Waiting for the bytes of the task file.
    Keeping { task: TaskView },
    /// Waiting for the task file to be written.
    Saving { task: TaskView },
    /// Waiting for the commit.
    Committing,
    /// Waiting for the kept bytes to be back; the commit failed, saying this.
    Restoring { msg: Seq<char> },
    /// Waiting for the lease to be given up.
    Releasing,
    /// Over.
    Ended,
}

/// The finishing of a task.
#[verifier::ext_equal]
pub struct DoneView {
    /// The task.
    pub id: Seq<char>,
    /// The mode of the verdict gate.
    pub mode: Seq<char>,
    /// The message of the commit, where one was given.
    pub message: Option<Seq<char>>,
    /// How far it has come.
    pub stage: StageView,
}

/// A task that is done: only its state changes.
pub open spec fn flipped(task: TaskView) -> TaskView {
    TaskView { state: TaskState::Done, ..task }
}

/// The message of the commit.
pub open spec fn commit_message(d: DoneView, task: TaskView) -> Seq<char> {
    match d.message {
        Some(m) => m,
        None => "task "@ + d.id + ": "@ + task.goal,
    }
}

/// The event answers what the stage waits for.
pub open spec fn answers(stage: StageView, e: EventView) -> bool {
    match stage {
        StageView::Loading => e is Loaded,
        StageView::Testing { .. } => e is Tested,
        StageView::Heading { .. } => e is HeadRead,
        StageView::Judging { .. } => e is Judged,
        StageView::Keeping { .. } => e is Kept,
        StageView::Saving { .. } => e is Saved,
        StageView::Committing => e is Committed,
        StageView::Restoring { .. } => e is Restored,
        StageView::Releasing => e is Released,
        StageView::Ended => false,
    }
}

/// The end, with an error.
pub open spec fn failing(e: ErrorView) -> (StageView, ActionView) {
    (StageView::Ended, ActionView::Fail(e))
}

/// The test at a position comes next, or, after the last, the question for the
/// commit.
pub open spec fn from_test(task: TaskView, at: nat) -> (StageView, ActionView) {
    if at < task.accept.len() {
        (StageView::Testing { task, at }, ActionView::Test(task.accept[at as int]))
    } else {
        (StageView::Heading { task }, ActionView::Head)
    }
}

/// Where an event leads, and what is to be done next. An event that does not
/// answer what the stage waits for ends everything.
pub open spec fn advanced(d: DoneView, e: EventView) -> (StageView, ActionView) {
    match (d.stage, e) {
        (StageView::Loading, EventView::Loaded(Ok(task))) => if task.accept.len() == 0 {
            failing(
                ErrorView::Other(
                    "refusing to mark '"@ + d.id + "' done: it has no acceptance tests"@,
                ),
            )
        } else {
            from_test(task, 0)
        },
        (StageView::Testing { task, at }, EventView::Tested(there)) => if there {
            from_test(task, at + 1)
        } else {
            failing(
                ErrorView::Other(
                    "acceptance test '"@ + task.accept[at as int] + "' does not exist on disk"@,
                ),
            )
        },
        (StageView::Heading { task }, EventView::HeadRead(Ok(head))) => (
            StageView::Judging { task, head },
            ActionView::Judge,
        ),
        (
            StageView::Judging { task, head },
            EventView::Judged { verdict: Ok(verdict), agent },
        ) => match gate(d.id, head, agent, verdict, d.mode) {
            Ok(_) => (StageView::Keeping { task }, ActionView::Keep),
            Err(e) => failing(e),
        },
        (StageView::Keeping { task }, EventView::Kept(Ok(_))) => (
            StageView::Saving { task },
            ActionView::Save(flipped(task)),
        ),
        (StageView::Saving { task }, EventView::Saved(Ok(_))) => (
            StageView::Committing,
            ActionView::Commit(commit_message(d, task)),
        ),
        (StageView::Committing, EventView::Committed(Ok(_))) => (
            StageView::Releasing,
            ActionView::Release,
        ),
        (StageView::Committing, EventView::Committed(Err(e))) => (
            StageView::Restoring { msg: crate::error::message_of(e) },
            ActionView::Restore,
        ),
        (StageView::Restoring { msg }, EventView::Restored(Ok(_))) => failing(
            ErrorView::DoneNotCommitted { task: d.id, msg },
        ),
        (StageView::Releasing, EventView::Released) => (StageView::Ended, ActionView::Finish),
        (_, EventView::Loaded(Err(e))) => failing(e),
        (_, EventView::HeadRead(Err(e))) => failing(e),
        (_, EventView::Judged { verdict: Err(e), .. }) => failing(e),
        (_, EventView::Kept(Err(e))) => failing(e),
        (_, EventView::Saved(Err(e))) => failing(e),
        (_, EventView::Restored(Err(e))) => failing(e),
        _ => failing(ErrorView::Other("event out of turn"@)),
    }
}

// ------------------------------------------------------------------ execution

/// What is to be done next.
#[derive(Debug)]
pub enum Action {
    /// Read the task file.
    Load,
    /// Look whether this acceptance test is on disk.
    Test(String),
    /// Ask git for the commit that is checked out.
    Head,
    /// Read the verdict on the task, and who we are.
    Judge,
    /// Keep the bytes of the task file.
    Keep,
    /// Write the task file.
    Save(Task),
    /// Commit everything with this message.
    Commit(String),
    /// Put the kept bytes back.
    Restore,
    /// Give the lease up, if that works.
    Release,
    /// The task is done.
    Finish,
    /// The task is not done.
    Fail(Error),
}

impl View for Action {
    type V = ActionView;

    open spec fn view(&self) -> ActionView {
        match *self {
            Action::Load => ActionView::Load,
            Action::Test(path) => ActionView::Test(path@),
            Action::Head => ActionView::Head,
            Action::Judge => ActionView::Judge,
            Action::Keep => ActionView::Keep,
            Action::Save(task) => ActionView::Save(task@),
            Action::Commit(message) => ActionView::Commit(message@),
            Action::Restore => ActionView::Restore,
            Action::Release => ActionView::Release,
            Action::Finish => ActionView::Finish,
            Action::Fail(e) => ActionView::Fail(e@),
        }
    }
}

/// How an action went.
#[derive(Debug)]
pub enum Event {
    /// The task file was read.
    Loaded(Result<Task>),
    /// The acceptance test is on disk, or not.
    Tested(bool),
    /// The commit that is checked out.
    HeadRead(Result<String>),
    /// The verdict on the task, and who we are.
    Judged {
        /// The verdict.
        verdict: Result<Option<Verdict>>,
        /// Our identity.
        agent: String,
    },
    /// The bytes of the task file are kept.
    Kept(Result<()>),
    /// The task file was written.
    Saved(Result<()>),
    /// Everything was committed.
    Committed(Result<()>),
    /// The kept bytes are back.
    Restored(Result<()>),
    /// The lease was given up, or not.
    Released,
}

impl View for Event {
    type V = EventView;

    open spec fn view(&self) -> EventView {
        match *self {
            Event::Loaded(r) => EventView::Loaded(result_view(r)),
            Event::Tested(there) => EventView::Tested(there),
            Event::HeadRead(r) => EventView::HeadRead(result_view(r)),
            Event::Judged { verdict, agent } => EventView::Judged {
                verdict: match verdict {
                    Ok(v) => Ok(opt_view(v)),
                    Err(e) => Err(e@),
                },
                agent: agent@,
            },
            Event::Kept(r) => EventView::Kept(unit_view(r)),
            Event::Saved(r) => EventView::Saved(unit_view(r)),
            Event::Committed(r) => EventView::Committed(unit_view(r)),
            Event::Restored(r) => EventView::Restored(unit_view(r)),
            Event::Released => EventView::Released,
        }
    }
}

#[derive(Debug)]
enum Stage {
    Loading,
    Testing { task: Task, at: usize },
    Heading { task: Task },
    Judging { task: Task, head: String },
    Keeping { task: Task },
    Saving { task: Task },
    Committing,
    Restoring { msg: String },
    Releasing,
    Ended,
}

impl View for Stage {
    type V = StageView;

    closed spec fn view(&self) -> StageView {
        match *self {
            Stage::Loading => StageView::Loading,
            Stage::Testing { task, at } => StageView::Testing { task: task@, at: at as nat },
            Stage::Heading { task } => StageView::Heading { task: task@ },
            Stage::Judging { task, head } => StageView::Judging { task: task@, head: head@ },
            Stage::Keeping { task } => StageView::Keeping { task: task@ },
            Stage::Saving { task } => StageView::Saving { task: task@ },
            Stage::Committing => StageView::Committing,
            Stage::Restoring { msg } => StageView::Restoring { msg: msg@ },
            Stage::Releasing => StageView::Releasing,
            Stage::Ended => StageView::Ended,
        }
    }
}

/// The finishing of a task.
#[derive(Debug)]
pub struct Done {
    id: String,
    mode: String,
    message: Option<String>,
    stage: Stage,
}

impl View for Done {
    type V = DoneView;

    closed spec fn view(&self) -> DoneView {
        DoneView {
            id: self.id@,
            mode: self.mode@,
            message: opt_view(self.message),
            stage: self.stage@,
        }
    }
}

impl Done {
    #[verifier::type_invariant]
    spec fn within(&self) -> bool {
        match self.stage {
            Stage::Testing { task, at } => at < task.accept@.len(),
            _ => true,
        }
    }

    /// Starts to finish a task: the first thing is to read its file.
    pub fn start(id: &str, mode: &str, message: &Option<String>) -> (r: (Done, Action))
        ensures
            r.0@ == (DoneView {
                id: id@,
                mode: mode@,
                message: opt_view(*message),
                stage: StageView::Loading,
            }),
            r.1@ == ActionView::Load,
    {
        let d = Done {
            id: id.to_string(),
            mode: mode.to_string(),
            message: copy_opt(message),
            stage: Stage::Loading,
        };
        (d, Action::Load)
    }

    /// Where an event leads, and what is to be done next.
    pub fn step(self, event: Event) -> (r: (Done, Action))
        ensures
            r.0@ == (DoneView { stage: advanced(self@, event@).0, ..self@ }),
            r.1@ == advanced(self@, event@).1,
    {
        proof {
            use_type_invariant(&self);
        }
        let Done { id, mode, message, stage } = self;
        let (stage, action) = match (stage, event) {
            (Stage::Loading, Event::Loaded(Ok(task))) => if task.accept.len() == 0 {
                let mut msg = "refusing to mark '".to_string();
                msg.append(id.as_str());
                msg.append("' done: it has no acceptance tests");
                (Stage::Ended, Action::Fail(Error::Other(msg)))
            } else {
                let path = task.accept[0].clone();
                (Stage::Testing { task, at: 0 }, Action::Test(path))
            },
            (Stage::Testing { task, at }, Event::Tested(there)) => if !there {
                let mut msg = "acceptance test '".to_string();
                msg.append(task.accept[at].as_str());
                msg.append("' does not exist on disk");
                (Stage::Ended, Action::Fail(Error::Other(msg)))
            } else if task.accept.len() - at > 1 {
                let path = task.accept[at + 1].clone();
                (Stage::Testing { task, at: at + 1 }, Action::Test(path))
            } else {
                (Stage::Heading { task }, Action::Head)
            },
            (Stage::Heading { task }, Event::HeadRead(Ok(head))) => (
                Stage::Judging { task, head },
                Action::Judge,
            ),
            (Stage::Judging { task, head }, Event::Judged { verdict: Ok(verdict), agent }) => {
                match verify_gate(
                    id.as_str(),
                    head.as_str(),
                    agent.as_str(),
                    &verdict,
                    mode.as_str(),
                ) {
                    Ok(()) => (Stage::Keeping { task }, Action::Keep),
                    Err(e) => (Stage::Ended, Action::Fail(e)),
                }
            },
            (Stage::Keeping { task }, Event::Kept(Ok(()))) => {
                let mut done = task.clone();
                done.state = TaskState::Done;
                (Stage::Saving { task }, Action::Save(done))
            },
            (Stage::Saving { task }, Event::Saved(Ok(()))) => {
                let text = match &message {
                    Some(m) => m.clone(),
                    None => {
                        let mut s = "task ".to_string();
                        s.append(id.as_str());
                        s.append(": ");
                        s.append(task.goal.as_str());
                        s
                    },
                };
                (Stage::Committing, Action::Commit(text))
            },
            (Stage::Committing, Event::Committed(Ok(()))) => (Stage::Releasing, Action::Release),
            (Stage::Committing, Event::Committed(Err(e))) => (
                Stage::Restoring { msg: e.message() },
                Action::Restore,
            ),
            (Stage::Restoring { msg }, Event::Restored(Ok(()))) => (
                Stage::Ended,
                Action::Fail(Error::DoneNotCommitted { task: id.clone(), msg }),
            ),
            (Stage::Releasing, Event::Released) => (Stage::Ended, Action::Finish),
            (_, Event::Loaded(Err(e))) => (Stage::Ended, Action::Fail(e)),
            (_, Event::HeadRead(Err(e))) => (Stage::Ended, Action::Fail(e)),
            (_, Event::Judged { verdict: Err(e), .. }) => (Stage::Ended, Action::Fail(e)),
            (_, Event::Kept(Err(e))) => (Stage::Ended, Action::Fail(e)),
            (_, Event::Saved(Err(e))) => (Stage::Ended, Action::Fail(e)),
            (_, Event::Restored(Err(e))) => (Stage::Ended, Action::Fail(e)),
            _ => (Stage::Ended, Action::Fail(Error::Other("event out of turn".to_string()))),
        };
        (Done { id, mode, message, stage }, action)
    }
}

// ----------------------------------------------------------------------- laws

/// The finishing of a task after some events.
pub open spec fn after(d: DoneView, events: Seq<EventView>) -> DoneView
    decreases events.len(),
{
    if events.len() == 0 {
        d
    } else {
        let p = after(d, events.drop_last());
        DoneView { stage: advanced(p, events.last()).0, ..p }
    }
}

/// What was asked for, from the first action to the one after the last event.
pub open spec fn actions(d: DoneView, events: Seq<EventView>) -> Seq<ActionView>
    decreases events.len(),
{
    if events.len() == 0 {
        seq![ActionView::Load]
    } else {
        actions(d, events.drop_last()).push(
            advanced(after(d, events.drop_last()), events.last()).1,
        )
    }
}

/// Every event answers what was asked for.
pub open spec fn in_order(d: DoneView, events: Seq<EventView>) -> bool
    decreases events.len(),
{
    events.len() == 0 || (in_order(d, events.drop_last()) && answers(
        after(d, events.drop_last()).stage,
        events.last(),
    ))
}

/// The task that was loaded.
pub open spec fn loaded_task(events: Seq<EventView>) -> TaskView {
    events[0]->Loaded_0->Ok_0
}

/// The events up to the verdict let the task pass: it was loaded, it has
/// acceptance tests and all are on disk, and the verdict gate accepts the verdict
/// on the commit that is checked out.
pub open spec fn cleared(d: DoneView, events: Seq<EventView>) -> bool {
    let task = loaded_task(events);
    let n = task.accept.len() as int;
    &&& events.len() >= n + 3
    &&& events[0] is Loaded && events[0]->Loaded_0 is Ok
    &&& n > 0
    &&& forall|j: int| 1 <= j <= n ==> #[trigger] events[j] == EventView::Tested(true)
    &&& events[n + 1] is HeadRead && events[n + 1]->HeadRead_0 is Ok
    &&& events[n + 2] is Judged && events[n + 2]->Judged_verdict is Ok
    &&& gate(
        d.id,
        events[n + 1]->HeadRead_0->Ok_0,
        events[n + 2]->Judged_agent,
        events[n + 2]->Judged_verdict->Ok_0,
        d.mode,
    ) is Ok
}

/// Nothing writes the task file.
pub open spec fn writes_nothing(acts: Seq<ActionView>) -> bool {
    forall|i: int| 0 <= i < acts.len() ==> !(#[trigger] acts[i] is Save) && !(acts[i] is Restore)
}

/// What the stage tells of the events and the actions so far.
spec fn told(d: DoneView, events: Seq<EventView>) -> bool {
    let stage = after(d, events).stage;
    let acts = actions(d, events);
    let task = loaded_task(events);
    let n = task.accept.len() as int;
    let len = events.len();
    &&& acts.len() == len + 1
    &&& match stage {
        StageView::Loading => len == 0 && writes_nothing(acts),
        StageView::Testing { task: t, at } => {
            &&& len == at + 1
            &&& at < n
            &&& t == task
            &&& events[0] == EventView::Loaded(Ok(task))
            &&& forall|j: int| 1 <= j <= at ==> #[trigger] events[j] == EventView::Tested(true)
            &&& acts.last() == ActionView::Test(task.accept[at as int])
            &&& writes_nothing(acts)
        },
        StageView::Heading { task: t } => {
            &&& len == n + 1
            &&& n > 0
            &&& t == task
            &&& events[0] == EventView::Loaded(Ok(task))
            &&& forall|j: int| 1 <= j <= n ==> #[trigger] events[j] == EventView::Tested(true)
            &&& writes_nothing(acts)
        },
        StageView::Judging { task: t, head } => {
            &&& len == n + 2
            &&& n > 0
            &&& t == task
            &&& events[0] == EventView::Loaded(Ok(task))
            &&& forall|j: int| 1 <= j <= n ==> #[trigger] events[j] == EventView::Tested(true)
            &&& events[n + 1] == EventView::HeadRead(Ok(head))
            &&& writes_nothing(acts)
        },
        StageView::Keeping { task: t } => {
            &&& len == n + 3
            &&& t == task
            &&& cleared(d, events)
            &&& writes_nothing(acts)
        },
        StageView::Saving { task: t } => {
            &&& len == n + 4
            &&& t == task
            &&& cleared(d, events)
            &&& writes_nothing(acts.drop_last())
            &&& acts.last() == ActionView::Save(flipped(task))
        },
        StageView::Committing => {
            &&& len == n + 5
            &&& cleared(d, events)
            &&& writes_nothing(acts.take(n + 4))
            &&& acts[n + 4] == ActionView::Save(flipped(task))
            &&& acts[n + 5] == ActionView::Commit(commit_message(d, task))
        },
        StageView::Restoring { msg } => {
            &&& len == n + 6
            &&& cleared(d, events)
            &&& events[n + 5] is Committed && events[n + 5]->Committed_0 is Err
            &&& msg == crate::error::message_of(events[n + 5]->Committed_0->Err_0)
            &&& writes_nothing(acts.take(n + 4))
            &&& acts[n + 4] == ActionView::Save(flipped(task))
            &&& acts[n + 5] == ActionView::Commit(commit_message(d, task))
            &&& acts[n + 6] is Restore
        },
        StageView::Releasing => {
            &&& len == n + 6
            &&& cleared(d, events)
            &&& events[n + 5] is Committed && events[n + 5]->Committed_0 is Ok
            &&& writes_nothing(acts.take(n + 4))
            &&& acts[n + 4] == ActionView::Save(flipped(task))
            &&& acts[n + 5] == ActionView::Commit(commit_message(d, task))
            &&& acts[n + 6] is Release
        },
        StageView::Ended => {
            ||| acts.last() is Fail && writes_nothing(acts)
            ||| {
                // the write failed
                &&& len == n + 5
                &&& cleared(d, events)
                &&& writes_nothing(acts.take(n + 4))
                &&& acts[n + 4] == ActionView::Save(flipped(task))
                &&& events[n + 4] is Saved && events[n + 4]->Saved_0 is Err
                &&& acts.last() is Fail
            }
            ||| {
                // the commit failed
                &&& len == n + 7
                &&& cleared(d, events)
                &&& writes_nothing(acts.take(n + 4))
                &&& acts[n + 4] == ActionView::Save(flipped(task))
                &&& acts[n + 5] == ActionView::Commit(commit_message(d, task))
                &&& acts[n + 6] is Restore
                &&& acts.last() is Fail
            }
            ||| {
                &&& len == n + 7
                &&& cleared(d, events)
                &&& events[n + 5] is Committed && events[n + 5]->Committed_0 is Ok
                &&& writes_nothing(acts.take(n + 4))
                &&& acts[n + 4] == ActionView::Save(flipped(task))
                &&& acts[n + 5] == ActionView::Commit(commit_message(d, task))
                &&& acts[n + 6] is Release
                &&& acts.last() is Finish
            }
        },
    }
}

proof fn lemma_told(d: DoneView, events: Seq<EventView>)
    requires
        d.stage is Loading,
        in_order(d, events),
    ensures
        told(d, events),
        after(d, events).id == d.id,
        after(d, events).mode == d.mode,
        after(d, events).message == d.message,
    decreases events.len(),
{
    if events.len() > 0 {
        let init = events.drop_last();
        let e = events.last();
        lemma_told(d, init);
        let p = after(d, init);
        let acts = actions(d, init);
        let now = actions(d, events);
        let a = advanced(p, e).1;
        assert(now =~= acts.push(a));
        assert(forall|i: int| 0 <= i < acts.len() ==> now[i] == acts[i]);
        assert(forall|i: int| 0 <= i < init.len() ==> events[i] == init[i]);
        assert(now.drop_last() =~= acts);
        let task = loaded_task(events);
        let n = task.accept.len() as int;
        if n + 4 <= acts.len() {
            assert(now.take(n + 4) =~= acts.take(n + 4));
        }
        if acts.len() == n + 5 {
            assert(acts.take(n + 4) =~= acts.drop_last());
        }
    }
}

/// A task is only ever called done after the verdict gate has passed and the
/// commit has succeeded: the run then wrote the task with nothing but its state
/// changed, committed it, and did not write again.
pub proof fn law_done_is_gated_and_committed(d: DoneView, events: Seq<EventView>)
    requires
        d.stage is Loading,
        in_order(d, events),
        actions(d, events).last() is Finish,
    ensures
        cleared(d, events),
        ({
            let acts = actions(d, events);
            let task = loaded_task(events);
            let n = task.accept.len() as int;
            &&& events.len() == n + 7
            &&& events[n + 5] is Committed && events[n + 5]->Committed_0 is Ok
            &&& acts[n + 4] == ActionView::Save(flipped(task))
            &&& acts[n + 5] == ActionView::Commit(commit_message(d, task))
            &&& forall|i: int|
                0 <= i < acts.len() && i != n + 4 ==> !(#[trigger] acts[i] is Save)
                    && !(acts[i] is Restore)
        }),
{
    lemma_told(d, events);
    lemma_finish_ends(d, events);
    let acts = actions(d, events);
    let n = loaded_task(events).accept.len() as int;
    assert forall|i: int| 0 <= i < acts.len() && i != n + 4 implies !(#[trigger] acts[i] is Save)
        && !(acts[i] is Restore) by {
        if i < n + 4 {
            assert(acts.take(n + 4)[i] == acts[i]);
        }
    }
}

proof fn lemma_finish_ends(d: DoneView, events: Seq<EventView>)
    requires
        d.stage is Loading,
        in_order(d, events),
        actions(d, events).last() is Finish,
    ensures
        after(d, events).stage is Ended,
{
    if events.len() > 0 {
        lemma_told(d, events.drop_last());
    }
}

/// A task that is not called done is left as it was: either nothing was ever
/// written, or the commit failed and the kept bytes were put back last, or the
/// write itself failed.
pub proof fn law_done_rolls_back(d: DoneView, events: Seq<EventView>)
    requires
        d.stage is Loading,
        in_order(d, events),
        actions(d, events).last() is Fail,
    ensures
        ({
            let acts = actions(d, events);
            ||| writes_nothing(acts)
            ||| acts[acts.len() - 2] is Restore
            ||| {
                &&& acts[acts.len() - 2] is Save
                &&& events.last() is Saved && events.last()->Saved_0 is Err
            }
        }),
{
    lemma_told(d, events);
    if events.len() > 0 {
        lemma_told(d, events.drop_last());
    }
}

/// The task file is never written before the verdict gate has passed, and what is
/// written differs from what was read in the state alone.
pub proof fn law_done_writes_after_gate(d: DoneView, events: Seq<EventView>, i: int)
    requires
        d.stage is Loading,
        in_order(d, events),
        0 <= i < actions(d, events).len(),
        actions(d, events)[i] is Save,
    ensures
        cleared(d, events),
        actions(d, events)[i] == ActionView::Save(flipped(loaded_task(events))),
        i == loaded_task(events).accept.len() + 4,
{
    lemma_told(d, events);
    let acts = actions(d, events);
    let n = loaded_task(events).accept.len() as int;
    if i < n + 4 && n + 4 <= acts.len() {
        assert(acts.take(n + 4)[i] == acts[i]);
    }
    if acts.len() == n + 5 {
        assert(i < n + 4 ==> acts.drop_last()[i] == acts[i]);
    }
}

proof fn lemma_tests_asked(d: DoneView, events: Seq<EventView>, j: int)
    requires
        d.stage is Loading,
        in_order(d, events),
        events.len() > 0,
        events[0] is Loaded && events[0]->Loaded_0 is Ok,
        1 <= j < events.len(),
        j <= loaded_task(events).accept.len(),
    ensures
        actions(d, events)[j] == ActionView::Test(loaded_task(events).accept[j - 1]),
        events[j] is Tested,
    decreases events.len(),
{
    let init = events.drop_last();
    lemma_told(d, init);
    lemma_told(d, events);
    assert(init[0] == events[0]);
    if j < init.len() {
        lemma_tests_asked(d, init, j);
        assert(init[j] == events[j]);
    } else {
        assert(actions(d, init).len() == init.len() + 1);
        assert(actions(d, events)[j] == actions(d, init)[j]);
    }
}

/// Every acceptance test of the task is looked for, one after the other: the
/// question that the answer at position `j` belongs to is whether the test at
/// position `j - 1` is on disk, and an answer that it is not ends the run with an
/// error that names that very test.
pub proof fn law_done_asks_for_each_test(d: DoneView, events: Seq<EventView>, j: int)
    requires
        d.stage is Loading,
        in_order(d, events),
        events.len() > 0,
        events[0] is Loaded && events[0]->Loaded_0 is Ok,
        1 <= j < events.len(),
        j <= loaded_task(events).accept.len(),
    ensures
        actions(d, events)[j] == ActionView::Test(
            events[0]->Loaded_0->Ok_0.accept[j - 1],
        ),
        events[j] is Tested,
        events[j] == EventView::Tested(false) ==> events.len() == j + 1 && actions(d, events).last()
            == ActionView::Fail(
            ErrorView::Other(
                "acceptance test '"@ + events[0]->Loaded_0->Ok_0.accept[j - 1]
                    + "' does not exist on disk"@,
            ),
        ),
    decreases events.len(),
{
    lemma_tests_asked(d, events, j);
    if events[j] == EventView::Tested(false) {
        let init = events.drop_last();
        lemma_told(d, init);
        lemma_told(d, events);
        assert(init[0] == events[0]);
        if j < init.len() {
            assert(init[j] == events[j]);
            law_done_asks_for_each_test(d, init, j);
            assert(actions(d, init).last() is Fail);
            lemma_fail_ends(d, init);
        }
    }
}

proof fn lemma_fail_ends(d: DoneView, events: Seq<EventView>)
    requires
        d.stage is Loading,
        in_order(d, events),
        actions(d, events).last() is Fail,
    ensures
        after(d, events).stage is Ended,
{
    if events.len() > 0 {
        lemma_told(d, events.drop_last());
    }
}

/// A run that finishes was told of each acceptance test of the task, whichever it
/// is, that it is on disk.
pub proof fn law_done_has_all_tests(d: DoneView, events: Seq<EventView>, test: Seq<char>)
    requires
        d.stage is Loading,
        in_order(d, events),
        actions(d, events).last() is Finish,
        events[0]->Loaded_0->Ok_0.accept.contains(test),
    ensures
        events[0] is Loaded && events[0]->Loaded_0 is Ok,
        exists|j: int|
            0 <= j < events.len() && #[trigger] events[j] == EventView::Tested(true) && actions(
                d,
                events,
            )[j] == ActionView::Test(test),
{
    law_done_is_gated_and_committed(d, events);
    let accept = events[0]->Loaded_0->Ok_0.accept;
    let k = choose|k: int| 0 <= k < accept.len() && accept[k] == test;
    law_done_asks_for_each_test(d, events, k + 1);
    assert(events[k + 1] == EventView::Tested(true));
}

/// A run that finishes, step by step: the task was asked for and has acceptance
/// tests; then each test, the commit that is checked out, the verdict on it, the
/// bytes of the file, the writing of the task as done, the commit, and the giving
/// up of the lease, each answered without an error.
pub proof fn law_done_takes_all_steps(d: DoneView, events: Seq<EventView>)
    requires
        d.stage is Loading,
        in_order(d, events),
        actions(d, events).last() is Finish,
    ensures
        ({
            let acts = actions(d, events);
            let task = events[0]->Loaded_0->Ok_0;
            let n = task.accept.len() as int;
            &&& n > 0
            &&& acts.len() == n + 8
            &&& acts[0] is Load
            &&& acts[n + 1] is Head && events[n + 1] is HeadRead && events[n + 1]->HeadRead_0 is Ok
            &&& acts[n + 2] is Judge && events[n + 2] is Judged
            &&& acts[n + 3] is Keep && events[n + 3] is Kept && events[n + 3]->Kept_0 is Ok
            &&& acts[n + 4] is Save && events[n + 4] is Saved && events[n + 4]->Saved_0 is Ok
            &&& acts[n + 4]->Save_0.state == TaskState::Done
            &&& acts[n + 4]->Save_0.id == task.id
            &&& acts[n + 5] is Commit && events[n + 5] is Committed && events[n + 5]->Committed_0 is Ok
            &&& acts[n + 6] is Release
        }),
{
    law_done_is_gated_and_committed(d, events);
    let n = events[0]->Loaded_0->Ok_0.accept.len() as int;
    lemma_done_path(d, events, n);
    lemma_first_action(d, events);
}

proof fn lemma_done_path(d: DoneView, events: Seq<EventView>, n: int)
    requires
        d.stage is Loading,
        in_order(d, events),
        cleared(d, events),
        n == loaded_task(events).accept.len(),
        events.len() == n + 7,
        events[n + 5] is Committed && events[n + 5]->Committed_0 is Ok,
    ensures
        actions(d, events)[0] is Load,
        actions(d, events)[n + 1] is Head,
        actions(d, events)[n + 2] is Judge,
        actions(d, events)[n + 3] is Keep,
        events[n + 3] is Kept && events[n + 3]->Kept_0 is Ok,
        events[n + 4] is Saved && events[n + 4]->Saved_0 is Ok,
        events[n + 5] is Committed && events[n + 5]->Committed_0 is Ok,
        actions(d, events)[n + 4] is Save,
        actions(d, events)[n + 5] is Commit,
        actions(d, events)[n + 6] is Release,
{
    reveal_with_fuel(in_order, 8);
    reveal_with_fuel(actions, 8);
    let e6 = events.drop_last();
    let e5 = e6.drop_last();
    let e4 = e5.drop_last();
    let e3 = e4.drop_last();
    let e2 = e3.drop_last();
    let e1 = e2.drop_last();
    lemma_told(d, events);
    lemma_told(d, e6);
    lemma_told(d, e5);
    lemma_told(d, e4);
    lemma_told(d, e3);
    lemma_told(d, e2);
    lemma_told(d, e1);
    assert(e1[0] == events[0] && e2[0] == events[0] && e3[0] == events[0]);
    assert(e4[0] == events[0] && e5[0] == events[0] && e6[0] == events[0]);
    assert(e6[n + 5] == events[n + 5]);
    assert(actions(d, events)[n + 1] == actions(d, e1)[n + 1]);
    assert(actions(d, events)[n + 2] == actions(d, e2)[n + 2]);
    assert(actions(d, events)[n + 3] == actions(d, e3)[n + 3]);
    assert(actions(d, events)[n + 4] == actions(d, e4)[n + 4]);
    assert(actions(d, events)[n + 5] == actions(d, e5)[n + 5]);
    assert(actions(d, events)[n + 6] == actions(d, e6)[n + 6]);
    lemma_first_action(d, events);
}

proof fn lemma_first_action(d: DoneView, events: Seq<EventView>)
    ensures
        actions(d, events).len() == events.len() + 1,
        actions(d, events)[0] is Load,
    decreases events.len(),
{
    if events.len() > 0 {
        lemma_first_action(d, events.drop_last());
    }
}

/// Where nothing stands in the way, a task is done: once the events up to the
/// verdict let it pass and the file is kept, written and committed, the run
/// finishes when the lease has been given up.
pub proof fn law_done_succeeds(d: DoneView, events: Seq<EventView>)
    requires
        d.stage is Loading,
        in_order(d, events),
        cleared(d, events),
        events.len() == loaded_task(events).accept.len() + 7,
        events[events.len() - 2] is Committed && events[events.len() - 2]->Committed_0 is Ok,
    ensures
        actions(d, events).last() is Finish,
{
    let init = events.drop_last();
    lemma_told(d, init);
    assert(init[0] == events[0]);
    let n = loaded_task(events).accept.len() as int;
    assert(init[n + 5] == events[n + 5]);
}

/// A run that fails says why: it passes on the error of whatever failed, the
/// refusal of the verdict gate among them, names the task where that has no
/// acceptance tests, and tells of a failed commit by the task and the commit's
/// own message once the file is back.
pub proof fn law_done_says_why(d: DoneView, events: Seq<EventView>)
    requires
        d.stage is Loading,
        events.len() > 0,
        in_order(d, events),
        actions(d, events).last() is Fail,
    ensures
        ({
            let e = actions(d, events).last()->Fail_0;
            match events.last() {
                EventView::Loaded(Err(x)) => e == x,
                EventView::Loaded(Ok(task)) => task.accept.len() == 0 && e == ErrorView::Other(
                    "refusing to mark '"@ + d.id + "' done: it has no acceptance tests"@,
                ),
                EventView::Tested(there) => !there,
                EventView::HeadRead(Err(x)) => e == x,
                EventView::Judged { verdict: Err(x), .. } => e == x,
                EventView::Judged { verdict: Ok(v), agent } => {
                    let before = events[events.len() - 2];
                    &&& before is HeadRead && before->HeadRead_0 is Ok
                    &&& gate(d.id, before->HeadRead_0->Ok_0, agent, v, d.mode) == Err::<
                        (),
                        ErrorView,
                    >(e)
                },
                EventView::Kept(Err(x)) => e == x,
                EventView::Saved(Err(x)) => e == x,
                EventView::Restored(Err(x)) => e == x,
                EventView::Restored(Ok(_)) => {
                    let before = events[events.len() - 2];
                    &&& before is Committed && before->Committed_0 is Err
                    &&& e == ErrorView::DoneNotCommitted {
                        task: d.id,
                        msg: crate::error::message_of(before->Committed_0->Err_0),
                    }
                },
                _ => false,
            }
        }),
{
    let init = events.drop_last();
    lemma_told(d, init);
    assert(forall|i: int| 0 <= i < init.len() ==> init[i] == events[i]);
    assert(answers(after(d, init).stage, events.last()));
}

/// The commit has the message that was given; where none was, it names the task
/// and its goal.
pub proof fn law_commit_message(d: DoneView, events: Seq<EventView>, i: int)
    requires
        d.stage is Loading,
        in_order(d, events),
        0 <= i < actions(d, events).len(),
        actions(d, events)[i] is Commit,
    ensures
        d.message is Some ==> actions(d, events)[i]->Commit_0 == d.message->Some_0,
        d.message is None ==> actions(d, events)[i]->Commit_0 == "task "@ + d.id + ": "@
            + events[0]->Loaded_0->Ok_0.goal,
    decreases events.len(),
{
    lemma_first_action(d, events);
    if events.len() > 0 {
        let init = events.drop_last();
        lemma_first_action(d, init);
        lemma_told(d, init);
        if i < actions(d, init).len() {
            assert(actions(d, events)[i] == actions(d, init)[i]);
            law_commit_message(d, init, i);
            if init.len() > 0 {
                assert(init[0] == events[0]);
            }
        } else {
            assert(init[0] == events[0]);
        }
    }
}

/// An event that was not asked for ends the work at once, in failure: with the
/// error that it brings, or else by saying that it came out of turn. Once the work
/// has ended, every event does.
pub proof fn law_done_refuses_out_of_turn(d: DoneView, e: EventView)
    requires
        match d.stage {
            StageView::Loading => !(e is Loaded),
            StageView::Testing { .. } => !(e is Tested),
            StageView::Heading { .. } => !(e is HeadRead),
            StageView::Judging { .. } => !(e is Judged),
            StageView::Keeping { .. } => !(e is Kept),
            StageView::Saving { .. } => !(e is Saved),
            StageView::Committing => !(e is Committed),
            StageView::Restoring { .. } => !(e is Restored),
            StageView::Releasing => !(e is Released),
            StageView::Ended => true,
        },
    ensures
        advanced(d, e).0 is Ended,
        advanced(d, e).1 is Fail,
        match e {
            EventView::Loaded(Err(why)) => advanced(d, e).1 == ActionView::Fail(why),
            EventView::HeadRead(Err(why)) => advanced(d, e).1 == ActionView::Fail(why),
            EventView::Judged { verdict: Err(why), .. } => advanced(d, e).1 == ActionView::Fail(
                why,
            ),
            EventView::Kept(Err(why)) => advanced(d, e).1 == ActionView::Fail(why),
            EventView::Saved(Err(why)) => advanced(d, e).1 == ActionView::Fail(why),
            EventView::Restored(Err(why)) => advanced(d, e).1 == ActionView::Fail(why),
            _ => advanced(d, e).1 == ActionView::Fail(ErrorView::Other("event out of turn"@)),
        },
{
}

/// A step that fails ends the work with its own error, except the commit, whose
/// failure is undone first.
pub proof fn law_done_passes_errors_on(d: DoneView, e: EventView, why: ErrorView)
    requires
        match d.stage {
            StageView::Loading => e == EventView::Loaded(Err(why)),
            StageView::Heading { .. } => e == EventView::HeadRead(Err(why)),
            StageView::Judging { .. } => e is Judged && e->Judged_verdict == Err::<
                Option<VerdictView>,
                ErrorView,
            >(why),
            StageView::Keeping { .. } => e == EventView::Kept(Err(why)),
            StageView::Saving { .. } => e == EventView::Saved(Err(why)),
            StageView::Committing => e == EventView::Committed(Err(why)),
            StageView::Restoring { .. } => e == EventView::Restored(Err(why)),
            _ => false,
        },
    ensures
        d.stage is Committing ==> advanced(d, e).1 is Restore && advanced(d, e).0
            == (StageView::Restoring { msg: crate::error::message_of(why) }),
        !(d.stage is Committing) ==> advanced(d, e).0 is Ended && advanced(d, e).1
            == ActionView::Fail(why),
{
}

} // verus!
