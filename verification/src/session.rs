//! What a session with git is: the commands that were run, and what came back.

use crate::error::{Error, ErrorView, Result};
use crate::runner::{probed, Event};
use crate::text::views;
use vstd::prelude::*;

verus! {

/// The event is a git command with these arguments.
pub open spec fn asked(e: Event, args: Seq<Seq<char>>) -> bool {
    e.program == "git"@ && e.args == args
}

/// What was run between two states of a log.
pub open spec fn since(before: Seq<Event>, after: Seq<Event>) -> Seq<Event> {
    after.skip(before.len() as int)
}

/// A log that has only grown.
pub open spec fn grew(before: Seq<Event>, after: Seq<Event>) -> bool {
    after == before + since(before, after)
}

/// How a session ends that stops at the first failure: as its last command.
pub open spec fn ending(ev: Seq<Event>) -> std::result::Result<(), ErrorView> {
    match ev.last().reply {
        Ok(_) => Ok(()),
        Err(e) => Err(e),
    }
}

/// Exactly one git command was run, with these arguments.
pub open spec fn ran_one(
    before: Seq<Event>,
    after: Seq<Event>,
    args: Seq<Seq<char>>,
) -> bool {
    &&& grew(before, after)
    &&& since(before, after).len() == 1
    &&& asked(since(before, after)[0], args)
}

pub proof fn lemma_one(a: Seq<Event>, e: Event)
    ensures
        grew(a, a.push(e)),
        since(a, a.push(e)) == seq![e],
{
    assert(since(a, a.push(e)) =~= seq![e]);
    assert(a.push(e) =~= a + seq![e]);
}

pub proof fn lemma_then(a: Seq<Event>, b: Seq<Event>, c: Seq<Event>)
    requires
        grew(a, b),
        grew(b, c),
    ensures
        grew(a, c),
        since(a, c) == since(a, b) + since(b, c),
{
    assert(since(a, c) =~= since(a, b) + since(b, c));
    assert(c =~= a + since(a, c));
}

/// Commands that are run in turn until one fails.
pub open spec fn in_turn(ev: Seq<Event>, calls: Seq<Seq<Seq<char>>>) -> bool {
    &&& ev.len() <= calls.len()
    &&& forall|i: int| 0 <= i < ev.len() ==> asked(#[trigger] ev[i], calls[i])
    &&& forall|i: int| 0 <= i < ev.len() - 1 ==> (#[trigger] ev[i]).reply is Ok
    &&& ev.len() < calls.len() ==> ev.len() > 0 && ev.last().reply is Err
}

/// What the commands printed.
pub open spec fn printed(ev: Seq<Event>) -> Seq<Seq<char>> {
    ev.map_values(|e: Event| e.reply->Ok_0)
}

/// What a probe printed; nothing if it failed.
pub open spec fn output(reply: std::result::Result<Seq<char>, ErrorView>) -> Seq<char> {
    match probed(reply) {
        Ok(Some(out)) => out,
        _ => Seq::empty(),
    }
}

/// The view of a result that is a list.
pub open spec fn list_view<T: View>(r: Result<Vec<T>>) -> std::result::Result<
    Seq<T::V>,
    ErrorView,
> {
    match r {
        Ok(v) => Ok(views(v@)),
        Err(e) => Err(e@),
    }
}

/// The view of a result that is a list or nothing.
pub open spec fn opt_list_view<T: View>(r: Result<Option<Vec<T>>>) -> std::result::Result<
    Option<Seq<T::V>>,
    ErrorView,
> {
    match r {
        Ok(Some(v)) => Ok(Some(views(v@))),
        Ok(None) => Ok(None),
        Err(e) => Err(e@),
    }
}

/// What a session is: a log grows by what was run and keeps what it held, an event
/// is a git command with exactly its arguments, commands run in turn stop at the
/// first that fails, and the session ends as its last command does.
pub proof fn law_session(
    before: Seq<Event>,
    ev: Seq<Event>,
    calls: Seq<Seq<Seq<char>>>,
    args: Seq<Seq<char>>,
    i: int,
)
    requires
        0 <= i < ev.len(),
    ensures
        since(before, before + ev) == ev,
        grew(before, before + ev),
        asked(ev[i], args) <==> ev[i].program == "git"@ && ev[i].args == args,
        in_turn(ev, calls) ==> ev[i].args == calls[i] && ev[i].program == "git"@,
        in_turn(ev, calls) && ev[i].reply is Err ==> i == ev.len() - 1,
        in_turn(ev, calls) && ev[ev.len() - 1].reply is Ok ==> ev.len() == calls.len(),
        ending(ev) is Ok <==> ev[ev.len() - 1].reply is Ok,
        ev[ev.len() - 1].reply matches Err(e) ==> ending(ev) == Err::<(), ErrorView>(e),
        ev[i].reply matches Ok(out) ==> printed(ev)[i] == out,
        printed(ev).len() == ev.len(),
{
    assert(since(before, before + ev) =~= ev);
    if in_turn(ev, calls) {
        assert(asked(ev[i], calls[i]));
    }
}

/// One command was run exactly where the log has one event more: git with these
/// arguments, whatever came back.
pub proof fn law_ran_one(before: Seq<Event>, after: Seq<Event>, args: Seq<Seq<char>>)
    ensures
        ran_one(before, after, args) <==> after.len() == before.len() + 1 && after
            == before.push(after[after.len() - 1]) && after[after.len() - 1].program == "git"@
            && after[after.len() - 1].args == args,
        ran_one(before, after, args) ==> since(before, after)[0] == after[after.len() - 1],
{
    let ev = since(before, after);
    if ran_one(before, after, args) {
        assert(after =~= before.push(ev[0]));
    }
    if after.len() == before.len() + 1 && after == before.push(after[after.len() - 1]) {
        lemma_one(before, after[after.len() - 1]);
    }
}

/// What a probe printed is what the command printed, and nothing where it failed.
pub proof fn law_output(out: Seq<char>, e: ErrorView)
    ensures
        output(Ok(out)) == out,
        output(Err(e)) == Seq::<char>::empty(),
{
}

/// The view of a result that is a list succeeds where the result does, with the
/// views of what it holds.
pub proof fn law_list_views<T: View>(v: Vec<T>, e: Error)
    ensures
        list_view(Ok::<Vec<T>, Error>(v)) == Ok::<Seq<T::V>, ErrorView>(views(v@)),
        list_view(Err::<Vec<T>, Error>(e)) == Err::<Seq<T::V>, ErrorView>(e@),
        opt_list_view(Ok::<Option<Vec<T>>, Error>(Some(v))) == Ok::<
            Option<Seq<T::V>>,
            ErrorView,
        >(Some(views(v@))),
        opt_list_view(Ok::<Option<Vec<T>>, Error>(None)) == Ok::<
            Option<Seq<T::V>>,
            ErrorView,
        >(None),
        opt_list_view(Err::<Option<Vec<T>>, Error>(e)) == Err::<
            Option<Seq<T::V>>,
            ErrorView,
        >(e@),
{
}

} // verus!
