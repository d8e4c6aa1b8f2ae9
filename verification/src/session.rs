//! What holds of every live session, whatever happens outside.
//!
//! The rounds that a coordinator dispatches are numbered upwards, their
//! periods follow each other without overlap, and no round is dispatched
//! while the one before it is still with the recognizer.

use vstd::prelude::*;

use crate::live::coordinate;
use crate::live::idle_coordinator;
use crate::live::Action;
use crate::live::CoordinatorView;
use crate::live::Event;
use crate::live::Phase;

verus! {

/// The coordinator's state after a session's events so far, and what it has
/// asked for at each of them.
pub open spec fn session_run(events: Seq<Event>) -> (CoordinatorView, Seq<Action>)
    decreases events.len(),
{
    if events.len() == 0 {
        (idle_coordinator(), Seq::empty())
    } else {
        let (before, actions) = session_run(events.drop_last());
        let (after, action) = coordinate(before, events.last());
        (after, actions.push(action))
    }
}

/// Whether the action belongs to a tick that was numbered.
pub open spec fn numbered(action: Action) -> bool {
    action is Dispatch || action is Skip
}

/// The number of the action's tick, for an action that has one.
pub open spec fn tick_of(action: Action) -> nat {
    match action {
        Action::Dispatch { tick, .. } => tick as nat,
        Action::Skip { tick, .. } => tick as nat,
        _ => 0,
    }
}

/// When the action's round begins, for an action that has a round.
pub open spec fn begin_of(action: Action) -> nat {
    match action {
        Action::Dispatch { begin_ms, .. } => begin_ms as nat,
        Action::Skip { begin_ms, .. } => begin_ms as nat,
        _ => 0,
    }
}

/// When the action's round ends, for an action that has a round.
pub open spec fn end_of(action: Action) -> nat {
    match action {
        Action::Dispatch { end_ms, .. } => end_ms as nat,
        Action::Skip { end_ms, .. } => end_ms as nat,
        _ => 0,
    }
}

/// What holds after every event of a session.
spec fn session_inv(events: Seq<Event>) -> bool {
    let (c, actions) = session_run(events);
    &&& actions.len() == events.len()
    &&& c.ticks <= events.len()
    &&& c.prev_ts <= u128::MAX
    &&& forall|i: int|
        0 <= i < actions.len() && numbered(#[trigger] actions[i]) ==> 1 <= tick_of(actions[i])
            <= c.ticks
    &&& forall|i: int, j: int|
        0 <= i < j < actions.len() && numbered(#[trigger] actions[i]) && numbered(
            #[trigger] actions[j],
        ) ==> tick_of(actions[i]) < tick_of(actions[j])
    &&& forall|i: int|
        0 <= i < actions.len() && numbered(#[trigger] actions[i]) ==> begin_of(actions[i]) < end_of(
            actions[i],
        ) <= c.prev_ts
    &&& c.phase == Phase::Idle ==> forall|i: int|
        0 <= i < actions.len() ==> !((#[trigger] actions[i]) is Dispatch)
    &&& c.phase == Phase::Capturing ==> forall|i: int|
        0 <= i < actions.len() && (#[trigger] actions[i]) is Dispatch ==> finished_between(
            events,
            i,
            events.len() as int,
        )
}

/// Whether a round has ended after event `i` and before event `j`.
pub open spec fn finished_between(events: Seq<Event>, i: int, j: int) -> bool {
    exists|m: int| i < m < j && 0 <= m < events.len() && #[trigger] events[m] == Event::DecodeFinished
}

proof fn lemma_session_inv(events: Seq<Event>)
    requires
        events.len() < usize::MAX,
    ensures
        session_inv(events),
        forall|i: int, j: int|
            0 <= i < j < events.len() && (#[trigger] session_run(events).1[i]) is Dispatch && (
            #[trigger] session_run(events).1[j]) is Dispatch ==> finished_between(events, i, j),
        forall|i: int, j: int|
            0 <= i < j < events.len() && numbered(#[trigger] session_run(events).1[i]) && numbered(
                #[trigger] session_run(events).1[j],
            ) ==> end_of(session_run(events).1[i]) <= begin_of(session_run(events).1[j]),
    decreases events.len(),
{
    if events.len() > 0 {
        let head = events.drop_last();
        let n = head.len() as int;
        lemma_session_inv(head);
        let (before, earlier) = session_run(head);
        let (after, action) = coordinate(before, events.last());
        let actions = session_run(events).1;
        assert(actions == earlier.push(action));
        assert forall|i: int|
            0 <= i < n && finished_between(head, i, n) implies finished_between(
            events,
            i,
            n + 1,
        ) by {
            let m = choose|m: int|
                i < m < n && 0 <= m < head.len() && #[trigger] head[m] == Event::DecodeFinished;
            assert(events[m] == Event::DecodeFinished);
        }
        assert forall|i: int, j: int| 0 <= i < j < n && finished_between(
            head,
            i,
            j,
        ) implies finished_between(events, i, j) by {
            let m = choose|m: int|
                i < m < j && 0 <= m < head.len() && #[trigger] head[m] == Event::DecodeFinished;
            assert(events[m] == Event::DecodeFinished);
        }
        assert forall|i: int| 0 <= i < n implies actions[i] == earlier[i] by {}
        if after.phase == Phase::Capturing {
            assert forall|i: int|
                0 <= i < actions.len() && (#[trigger] actions[i]) is Dispatch implies finished_between(
                events,
                i,
                events.len() as int,
            ) by {
                assert(i < n);
                assert(earlier[i] is Dispatch);
                if before.phase == Phase::Capturing {
                    assert(finished_between(head, i, n));
                } else {
                    assert(before.phase == Phase::Decoding);
                    assert(events[n] == Event::DecodeFinished);
                }
            }
        }
        assert forall|i: int, j: int|
            0 <= i < j < events.len() && (#[trigger] actions[i]) is Dispatch && (
            #[trigger] actions[j]) is Dispatch implies finished_between(events, i, j) by {
            assert(earlier[i] is Dispatch);
            if j < n {
                assert(earlier[j] is Dispatch);
                assert(finished_between(head, i, j));
            } else {
                assert(before.phase == Phase::Capturing);
                assert(finished_between(head, i, n));
                let m = choose|m: int|
                    i < m < n && 0 <= m < head.len() && #[trigger] head[m]
                        == Event::DecodeFinished;
                assert(events[m] == Event::DecodeFinished);
            }
        }
        assert(session_inv(events));
    }
}

/// The ticks of a session are numbered upwards from 1: of two ticks that were
/// numbered, the later one has the larger number.
pub proof fn lemma_ticks_count_up(events: Seq<Event>, i: int, j: int)
    requires
        events.len() < usize::MAX,
        0 <= i < j < events.len(),
        numbered(session_run(events).1[i]),
        numbered(session_run(events).1[j]),
    ensures
        1 <= tick_of(session_run(events).1[i]) < tick_of(session_run(events).1[j])
            <= session_run(events).0.ticks,
{
    lemma_session_inv(events);
}

/// A round covers some time: it ends after it has begun.
pub proof fn lemma_round_covers_time(events: Seq<Event>, i: int)
    requires
        events.len() < usize::MAX,
        0 <= i < events.len(),
        numbered(session_run(events).1[i]),
    ensures
        begin_of(session_run(events).1[i]) < end_of(session_run(events).1[i]),
{
    lemma_session_inv(events);
}

/// Of two rounds the later one begins no earlier than the first one ended,
/// whether they were dispatched or skipped.
pub proof fn lemma_rounds_do_not_overlap(events: Seq<Event>, i: int, j: int)
    requires
        events.len() < usize::MAX,
        0 <= i < j < events.len(),
        numbered(session_run(events).1[i]),
        numbered(session_run(events).1[j]),
    ensures
        end_of(session_run(events).1[i]) <= begin_of(session_run(events).1[j]),
{
    lemma_session_inv(events);
}

/// The recognizer works on one round at a time: between two rounds that are
/// dispatched, the first of them has ended.
pub proof fn lemma_one_round_at_a_time(events: Seq<Event>, i: int, j: int)
    requires
        events.len() < usize::MAX,
        0 <= i < j < events.len(),
        session_run(events).1[i] is Dispatch,
        session_run(events).1[j] is Dispatch,
    ensures
        finished_between(events, i, j),
{
    lemma_session_inv(events);
}

/// A session that has stopped stays stopped and asks for nothing more.
pub proof fn lemma_stopped_stays_stopped(c: CoordinatorView, event: Event)
    requires
        c.phase == Phase::Stopped,
    ensures
        coordinate(c, event) == (c, Action::Nothing),
{
}

} // verus!
