//! What the ordered sink guarantees, whatever the order in which rounds end.
//!
//! If every tick from 1 to `n` ends exactly once, the entries that the sink
//! releases, taken together, are those that the rounds yield when they are
//! captioned in the order of their ticks. Their numbers count up from 1, and
//! their times follow each other as the ticks' times do.

use vstd::prelude::*;

use crate::caption::caption_step;
use crate::caption::fresh_captioner;
use crate::caption::CaptionerView;
use crate::caption::RecognizerMode;
use crate::live::complete_step;
use crate::live::fresh_sink;
use crate::live::lemma_position_of;
use crate::live::position_of;
use crate::live::release;
use crate::live::ArrivalView;
use crate::live::Event;
use crate::live::SinkView;
use crate::session::begin_of;
use crate::session::end_of;
use crate::session::lemma_round_covers_time;
use crate::session::lemma_rounds_do_not_overlap;
use crate::session::lemma_ticks_count_up;
use crate::session::numbered;
use crate::session::session_run;
use crate::session::tick_of;
use crate::subtitle::SubtitleView;

verus! {

/// The sink's state after the rounds have arrived in the order of the list,
/// and all the entries that it has released on the way.
pub open spec fn sink_run(sink: SinkView, rounds: Seq<ArrivalView>) -> (
    SinkView,
    Seq<SubtitleView>,
)
    decreases rounds.len(),
{
    if rounds.len() == 0 {
        (sink, Seq::empty())
    } else {
        let (before, entries) = sink_run(sink, rounds.drop_last());
        let (after, released) = complete_step(before, rounds.last());
        (after, entries + released)
    }
}

/// The round of a tick.
pub open spec fn round_of(rounds: Seq<ArrivalView>, tick: nat) -> ArrivalView {
    rounds[position_of(rounds, tick)]
}

/// The captioner and the entries after the rounds of the ticks 1 to `k` have
/// been captioned in the order of their ticks.
pub open spec fn in_tick_order(mode: RecognizerMode, rounds: Seq<ArrivalView>, k: nat) -> (
    CaptionerView,
    Seq<SubtitleView>,
)
    decreases k,
{
    if k == 0 {
        (fresh_captioner(mode), Seq::empty())
    } else {
        let (captioner, entries) = in_tick_order(mode, rounds, (k - 1) as nat);
        let round = round_of(rounds, k);
        let (after, entry) = caption_step(captioner, round.begin, round.end, round.text);
        (
            after,
            match entry {
                Some(e) => entries.push(e),
                None => entries,
            },
        )
    }
}

/// Every tick from 1 to the number of rounds ends exactly once.
pub open spec fn each_tick_once(rounds: Seq<ArrivalView>) -> bool {
    &&& forall|i: int| 0 <= i < rounds.len() ==> 1 <= (#[trigger] rounds[i]).tick <= rounds.len()
    &&& forall|i: int, j: int|
        0 <= i < j < rounds.len() ==> rounds[i].tick != rounds[j].tick
    &&& forall|t: nat| 1 <= t <= rounds.len() ==> position_of(rounds, t) >= 0
}

/// Whether the round of `tick` is among the first `j` rounds.
spec fn arrived(rounds: Seq<ArrivalView>, j: int, tick: nat) -> bool {
    exists|i: int| 0 <= i < j && (#[trigger] rounds[i]).tick == tick
}

/// What holds while the sink releases, after the first `j` rounds have
/// arrived: every turn that has passed was of a round that has arrived; the
/// rounds that wait are those that have arrived and whose turn has not passed;
/// and what has been released is what the passed turns yield in tick order.
spec fn releasing_inv(
    mode: RecognizerMode,
    rounds: Seq<ArrivalView>,
    j: int,
    sink: SinkView,
    entries: Seq<SubtitleView>,
) -> bool {
    &&& sink.next_tick >= 1
    &&& forall|t: nat| 1 <= t < sink.next_tick ==> arrived(rounds, j, t)
    &&& forall|k: int|
        0 <= k < sink.waiting.len() ==> (#[trigger] sink.waiting[k]).tick >= sink.next_tick
            && rounds.take(j).contains(sink.waiting[k])
    &&& forall|i: int|
        0 <= i < j && (#[trigger] rounds[i]).tick >= sink.next_tick ==> sink.waiting.contains(
            rounds[i],
        )
    &&& forall|a: int, b: int|
        0 <= a < b < sink.waiting.len() ==> sink.waiting[a].tick != sink.waiting[b].tick
    &&& (sink.captioner, entries) == in_tick_order(mode, rounds, (sink.next_tick - 1) as nat)
}

/// What holds between two arrivals: as while releasing, and the round whose
/// turn it is has not arrived.
spec fn settled_inv(
    mode: RecognizerMode,
    rounds: Seq<ArrivalView>,
    j: int,
    sink: SinkView,
    entries: Seq<SubtitleView>,
) -> bool {
    &&& releasing_inv(mode, rounds, j, sink, entries)
    &&& !arrived(rounds, j, sink.next_tick)
}

/// Among rounds of which no two share a tick, a tick is found where it is.
proof fn lemma_position_unique(rounds: Seq<ArrivalView>, i: int)
    requires
        0 <= i < rounds.len(),
        forall|a: int, b: int| 0 <= a < b < rounds.len() ==> rounds[a].tick != rounds[b].tick,
    ensures
        position_of(rounds, rounds[i].tick) == i,
{
    lemma_position_of(rounds, rounds[i].tick);
    let at = position_of(rounds, rounds[i].tick);
    if at < i {
        assert(rounds[at].tick != rounds[i].tick);
    } else if at > i {
        assert(rounds[i].tick != rounds[at].tick);
    }
}

/// Releasing keeps what has been released in tick order, and ends with the
/// turn at a round that has not arrived.
proof fn lemma_release(
    mode: RecognizerMode,
    rounds: Seq<ArrivalView>,
    j: int,
    sink: SinkView,
    entries: Seq<SubtitleView>,
)
    requires
        0 <= j <= rounds.len(),
        forall|a: int, b: int| 0 <= a < b < rounds.len() ==> rounds[a].tick != rounds[b].tick,
        releasing_inv(mode, rounds, j, sink, entries),
    ensures
        settled_inv(mode, rounds, j, release(sink).0, entries + release(sink).1),
    decreases sink.waiting.len(),
{
    let turn = sink.next_tick;
    let at = position_of(sink.waiting, turn);
    lemma_position_of(sink.waiting, turn);
    if 0 <= at < sink.waiting.len() {
        let round = sink.waiting[at];
        let (captioner, entry) = caption_step(sink.captioner, round.begin, round.end, round.text);
        let next = SinkView {
            captioner,
            next_tick: turn + 1,
            waiting: sink.waiting.remove(at),
        };
        let so_far = match entry {
            Some(e) => entries.push(e),
            None => entries,
        };
        assert(rounds.take(j).contains(round));
        let i = choose|i: int| 0 <= i < rounds.take(j).len() && rounds.take(j)[i] == round;
        assert(rounds[i] == round);
        lemma_position_unique(rounds, i);
        assert(round_of(rounds, turn) == round);
        assert(releasing_inv(mode, rounds, j, next, so_far)) by {
            assert forall|t: nat| 1 <= t < next.next_tick implies arrived(rounds, j, t) by {
                if t == turn {
                    assert(rounds[i].tick == t);
                }
            }
            assert forall|k: int| 0 <= k < next.waiting.len() implies (#[trigger] next.waiting[k]).tick
                >= next.next_tick && rounds.take(j).contains(next.waiting[k]) by {
                let from = if k < at {
                    k
                } else {
                    k + 1
                };
                assert(next.waiting[k] == sink.waiting[from]);
                if from < at {
                    assert(sink.waiting[from].tick != sink.waiting[at].tick);
                } else {
                    assert(sink.waiting[at].tick != sink.waiting[from].tick);
                }
            }
            assert forall|i2: int|
                0 <= i2 < j && (#[trigger] rounds[i2]).tick >= next.next_tick implies next.waiting.contains(
                rounds[i2],
            ) by {
                assert(sink.waiting.contains(rounds[i2]));
                let k = choose|k: int| 0 <= k < sink.waiting.len() && sink.waiting[k] == rounds[i2];
                if k < at {
                    assert(next.waiting[k] == rounds[i2]);
                } else {
                    assert(k != at);
                    assert(next.waiting[k - 1] == rounds[i2]);
                }
            }
            assert forall|a: int, b: int| 0 <= a < b < next.waiting.len() implies next.waiting[a].tick
                != next.waiting[b].tick by {
                let from_a = if a < at {
                    a
                } else {
                    a + 1
                };
                let from_b = if b < at {
                    b
                } else {
                    b + 1
                };
                assert(sink.waiting[from_a].tick != sink.waiting[from_b].tick);
            }
        }
        lemma_release(mode, rounds, j, next, so_far);
        assert(entries + release(sink).1 =~= so_far + release(next).1);
    } else {
        assert(entries + release(sink).1 =~= entries);
        if arrived(rounds, j, turn) {
            let i = choose|i: int| 0 <= i < j && (#[trigger] rounds[i]).tick == turn;
            assert(sink.waiting.contains(rounds[i]));
            let k = choose|k: int| 0 <= k < sink.waiting.len() && sink.waiting[k] == rounds[i];
            assert(sink.waiting[k].tick == turn);
        }
    }
}

/// An arrival keeps what has been released in tick order.
proof fn lemma_arrival(
    mode: RecognizerMode,
    rounds: Seq<ArrivalView>,
    j: int,
    sink: SinkView,
    entries: Seq<SubtitleView>,
)
    requires
        0 <= j < rounds.len(),
        forall|i: int| 0 <= i < rounds.len() ==> 1 <= (#[trigger] rounds[i]).tick,
        forall|a: int, b: int| 0 <= a < b < rounds.len() ==> rounds[a].tick != rounds[b].tick,
        settled_inv(mode, rounds, j, sink, entries),
    ensures
        settled_inv(
            mode,
            rounds,
            j + 1,
            complete_step(sink, rounds[j]).0,
            entries + complete_step(sink, rounds[j]).1,
        ),
{
    let round = rounds[j];
    assert(!arrived(rounds, j, round.tick)) by {
        if arrived(rounds, j, round.tick) {
            let i = choose|i: int| 0 <= i < j && (#[trigger] rounds[i]).tick == round.tick;
            assert(rounds[i].tick != rounds[j].tick);
        }
    }
    assert(round.tick >= sink.next_tick);
    lemma_position_of(sink.waiting, round.tick);
    let at = position_of(sink.waiting, round.tick);
    assert(at < 0) by {
        if at >= 0 {
            assert(rounds.take(j).contains(sink.waiting[at]));
            let i = choose|i: int|
                0 <= i < rounds.take(j).len() && rounds.take(j)[i] == sink.waiting[at];
            assert(rounds[i].tick == round.tick);
        }
    }
    let taken = SinkView { waiting: sink.waiting.push(round), ..sink };
    let seen = j + 1;
    assert(releasing_inv(mode, rounds, seen, taken, entries)) by {
        assert forall|t: nat| 1 <= t < taken.next_tick implies arrived(rounds, seen, t) by {
            assert(arrived(rounds, j, t));
            let i = choose|i: int| 0 <= i < j && (#[trigger] rounds[i]).tick == t;
            assert(rounds[i].tick == t);
        }
        assert forall|k: int| 0 <= k < taken.waiting.len() implies (#[trigger] taken.waiting[k]).tick
            >= taken.next_tick && rounds.take(seen).contains(taken.waiting[k]) by {
            if k < sink.waiting.len() {
                assert(taken.waiting[k] == sink.waiting[k]);
                assert(rounds.take(j).contains(sink.waiting[k]));
                let i = choose|i: int|
                    0 <= i < rounds.take(j).len() && rounds.take(j)[i] == sink.waiting[k];
                assert(rounds.take(j + 1)[i] == sink.waiting[k]);
            } else {
                assert(rounds.take(j + 1)[j] == round);
            }
        }
        assert forall|i: int|
            0 <= i < seen && (#[trigger] rounds[i]).tick >= taken.next_tick implies taken.waiting.contains(
            rounds[i],
        ) by {
            if i < j {
                assert(sink.waiting.contains(rounds[i]));
                let k = choose|k: int| 0 <= k < sink.waiting.len() && sink.waiting[k] == rounds[i];
                assert(taken.waiting[k] == rounds[i]);
            } else {
                assert(taken.waiting[sink.waiting.len() as int] == rounds[i]);
            }
        }
        assert forall|a: int, b: int| 0 <= a < b < taken.waiting.len() implies taken.waiting[a].tick
            != taken.waiting[b].tick by {
            if b < sink.waiting.len() {
                assert(sink.waiting[a].tick != sink.waiting[b].tick);
            } else {
                assert(sink.waiting[a].tick != round.tick);
            }
        }
    }
    lemma_release(mode, rounds, j + 1, taken, entries);
}

/// After any number of arrivals, what has been released is what the turns
/// that have passed yield in tick order.
proof fn lemma_sink_run(mode: RecognizerMode, rounds: Seq<ArrivalView>, j: int)
    requires
        0 <= j <= rounds.len(),
        forall|i: int| 0 <= i < rounds.len() ==> 1 <= (#[trigger] rounds[i]).tick,
        forall|a: int, b: int| 0 <= a < b < rounds.len() ==> rounds[a].tick != rounds[b].tick,
    ensures
        settled_inv(
            mode,
            rounds,
            j,
            sink_run(fresh_sink(mode), rounds.take(j)).0,
            sink_run(fresh_sink(mode), rounds.take(j)).1,
        ),
    decreases j,
{
    if j > 0 {
        lemma_sink_run(mode, rounds, j - 1);
        assert(rounds.take(j).drop_last() =~= rounds.take(j - 1));
        assert(rounds.take(j).last() == rounds[j - 1]);
        let (before, entries) = sink_run(fresh_sink(mode), rounds.take(j - 1));
        lemma_arrival(mode, rounds, j - 1, before, entries);
    }
}

/// Whatever the order in which the rounds of the ticks 1 to `n` end: once all
/// have ended, the sink has released exactly the entries that the rounds
/// yield when they are captioned in the order of their ticks, in that order;
/// no round is left waiting, and the turn is at tick `n + 1`.
pub proof fn lemma_released_in_tick_order(mode: RecognizerMode, rounds: Seq<ArrivalView>)
    requires
        each_tick_once(rounds),
    ensures
        sink_run(fresh_sink(mode), rounds).1 == in_tick_order(mode, rounds, rounds.len()).1,
        sink_run(fresh_sink(mode), rounds).0 == (SinkView {
            captioner: in_tick_order(mode, rounds, rounds.len()).0,
            next_tick: rounds.len() + 1,
            waiting: Seq::empty(),
        }),
{
    let n = rounds.len();
    lemma_sink_run(mode, rounds, n as int);
    assert(rounds.take(n as int) =~= rounds);
    let (sink, entries) = sink_run(fresh_sink(mode), rounds);
    let turn = sink.next_tick;
    assert(turn > n) by {
        if turn <= n {
            lemma_position_of(rounds, turn);
            assert(rounds[position_of(rounds, turn)].tick == turn);
        }
    }
    assert(turn <= n + 1) by {
        if turn > n + 1 {
            assert(arrived(rounds, n as int, (n + 1) as nat));
        }
    }
    assert(sink.waiting.len() == 0) by {
        if sink.waiting.len() > 0 {
            assert(rounds.take(n as int).contains(sink.waiting[0]));
        }
    }
    assert(sink.waiting =~= Seq::<ArrivalView>::empty());
}

/// Entries that are made in tick order are numbered 1, 2, 3 and so on, and
/// each has the period of the round that it comes from.
pub proof fn lemma_tick_order_numbered(mode: RecognizerMode, rounds: Seq<ArrivalView>, k: nat)
    ensures
        in_tick_order(mode, rounds, k).0.written == in_tick_order(mode, rounds, k).1.len(),
        in_tick_order(mode, rounds, k).1.len() <= k,
        forall|i: int|
            0 <= i < in_tick_order(mode, rounds, k).1.len() ==> (#[trigger] in_tick_order(
                mode,
                rounds,
                k,
            ).1[i]).index == i + 1,
        forall|i: int|
            0 <= i < in_tick_order(mode, rounds, k).1.len() ==> exists|t: nat|
                1 <= t <= k && (#[trigger] in_tick_order(mode, rounds, k).1[i]).begin == round_of(
                    rounds,
                    t,
                ).begin && in_tick_order(mode, rounds, k).1[i].end == round_of(rounds, t).end,
    decreases k,
{
    if k > 0 {
        lemma_tick_order_numbered(mode, rounds, (k - 1) as nat);
        let before = in_tick_order(mode, rounds, (k - 1) as nat).1;
        let all = in_tick_order(mode, rounds, k).1;
        assert forall|i: int| 0 <= i < all.len() implies exists|t: nat|
            1 <= t <= k && (#[trigger] all[i]).begin == round_of(rounds, t).begin && all[i].end
                == round_of(rounds, t).end by {
            if i < before.len() {
                let t = choose|t: nat|
                    1 <= t <= k - 1 && before[i].begin == round_of(rounds, t).begin
                        && before[i].end == round_of(rounds, t).end;
                assert(1 <= t <= k && all[i].begin == round_of(rounds, t).begin && all[i].end
                    == round_of(rounds, t).end);
            } else {
                assert(1 <= k <= k && all[i].begin == round_of(rounds, k).begin && all[i].end
                    == round_of(rounds, k).end);
            }
        }
    }
}

/// Where the rounds' periods follow each other as their ticks do, and none
/// ends before it begins, entries that are made in tick order never go back
/// in time: each begins no earlier than the one before it ended.
pub proof fn lemma_tick_order_timed(mode: RecognizerMode, rounds: Seq<ArrivalView>, k: nat)
    requires
        forall|t: nat|
            1 <= t <= k ==> (#[trigger] round_of(rounds, t)).begin <= round_of(rounds, t).end,
        forall|s: nat, t: nat|
            1 <= s < t <= k ==> (#[trigger] round_of(rounds, s)).end <= (#[trigger] round_of(
                rounds,
                t,
            )).begin,
    ensures
        forall|i: int|
            0 <= i < in_tick_order(mode, rounds, k).1.len() ==> (#[trigger] in_tick_order(
                mode,
                rounds,
                k,
            ).1[i]).begin <= in_tick_order(mode, rounds, k).1[i].end,
        forall|i: int|
            0 <= i < in_tick_order(mode, rounds, k).1.len() ==> k >= 1 && (#[trigger] in_tick_order(
                mode,
                rounds,
                k,
            ).1[i]).end <= round_of(rounds, k).end,
        forall|i: int, j: int|
            0 <= i < j < in_tick_order(mode, rounds, k).1.len() ==> in_tick_order(
                mode,
                rounds,
                k,
            ).1[i].end <= in_tick_order(mode, rounds, k).1[j].begin,
    decreases k,
{
    if k > 0 {
        let before = in_tick_order(mode, rounds, (k - 1) as nat).1;
        let all = in_tick_order(mode, rounds, k).1;
        let last = round_of(rounds, k);
        lemma_tick_order_timed(mode, rounds, (k - 1) as nat);
        assert(last.begin <= last.end);
        assert forall|i: int| 0 <= i < before.len() implies (#[trigger] before[i]).end
            <= last.begin by {
            assert(k - 1 >= 1);
            assert(round_of(rounds, (k - 1) as nat).end <= round_of(rounds, k).begin);
        }
        assert forall|i: int| 0 <= i < all.len() implies k >= 1 && (#[trigger] all[i]).end
            <= last.end by {
            if i < before.len() {
                assert(all[i] == before[i]);
            }
        }
        assert forall|i: int, j: int| 0 <= i < j < all.len() implies all[i].end
            <= all[j].begin by {
            assert(all[i] == before[i]);
            if j < before.len() {
                assert(all[j] == before[j]);
            }
        }
        assert forall|i: int| 0 <= i < all.len() implies (#[trigger] all[i]).begin
            <= all[i].end by {
            if i < before.len() {
                assert(all[i] == before[i]);
            }
        }
    }
}

/// Whether the round has the tick and the period of a round that the
/// coordinator of the session dispatched or skipped.
pub open spec fn round_of_session(events: Seq<Event>, round: ArrivalView) -> bool {
    exists|i: int|
        0 <= i < events.len() && numbered(#[trigger] session_run(events).1[i]) && tick_of(
            session_run(events).1[i],
        ) == round.tick && begin_of(session_run(events).1[i]) == round.begin && end_of(
            session_run(events).1[i],
        ) == round.end
}

/// Whether the rounds are those of a session. How each of them ended, and in
/// which order they ended, is left open.
pub open spec fn rounds_of_session(events: Seq<Event>, rounds: Seq<ArrivalView>) -> bool {
    forall|k: int| 0 <= k < rounds.len() ==> round_of_session(events, #[trigger] rounds[k])
}

/// Where the round of a session was numbered.
spec fn numbered_at(events: Seq<Event>, round: ArrivalView) -> int {
    choose|i: int|
        0 <= i < events.len() && numbered(#[trigger] session_run(events).1[i]) && tick_of(
            session_run(events).1[i],
        ) == round.tick && begin_of(session_run(events).1[i]) == round.begin && end_of(
            session_run(events).1[i],
        ) == round.end
}

/// A live session from its first tick to tick `n`, whatever happened outside
/// and in whatever order its rounds ended: the entries that were written are
/// numbered 1, 2, 3 and so on, each ends after it has begun, and each begins
/// no earlier than the one before it ended.
pub proof fn lemma_live_entries_in_order(
    mode: RecognizerMode,
    events: Seq<Event>,
    rounds: Seq<ArrivalView>,
)
    requires
        events.len() < usize::MAX,
        each_tick_once(rounds),
        rounds_of_session(events, rounds),
    ensures
        forall|i: int|
            0 <= i < sink_run(fresh_sink(mode), rounds).1.len() ==> {
                &&& (#[trigger] sink_run(fresh_sink(mode), rounds).1[i]).index == i + 1
                &&& sink_run(fresh_sink(mode), rounds).1[i].begin < sink_run(
                    fresh_sink(mode),
                    rounds,
                ).1[i].end
            },
        forall|i: int, j: int|
            0 <= i < j < sink_run(fresh_sink(mode), rounds).1.len() ==> sink_run(
                fresh_sink(mode),
                rounds,
            ).1[i].end <= sink_run(fresh_sink(mode), rounds).1[j].begin,
{
    let n = rounds.len();
    lemma_released_in_tick_order(mode, rounds);
    lemma_tick_order_numbered(mode, rounds, n);
    assert forall|t: nat| 1 <= t <= n implies (#[trigger] round_of(rounds, t)).begin < round_of(
        rounds,
        t,
    ).end by {
        lemma_position_of(rounds, t);
        let round = rounds[position_of(rounds, t)];
        assert(round_of_session(events, round));
        lemma_round_covers_time(events, numbered_at(events, round));
    }
    assert forall|s: nat, t: nat| 1 <= s < t <= n implies (#[trigger] round_of(rounds, s)).end <= (
    #[trigger] round_of(rounds, t)).begin by {
        lemma_position_of(rounds, s);
        lemma_position_of(rounds, t);
        let first = rounds[position_of(rounds, s)];
        let second = rounds[position_of(rounds, t)];
        assert(round_of_session(events, first));
        assert(round_of_session(events, second));
        let i = numbered_at(events, first);
        let j = numbered_at(events, second);
        if j < i {
            lemma_ticks_count_up(events, j, i);
        }
        lemma_rounds_do_not_overlap(events, i, j);
    }
    lemma_tick_order_timed(mode, rounds, n);
    let entries = in_tick_order(mode, rounds, n).1;
    assert forall|i: int| 0 <= i < entries.len() implies (#[trigger] entries[i]).begin
        < entries[i].end by {
        let t = choose|t: nat|
            1 <= t <= n && entries[i].begin == round_of(rounds, t).begin && entries[i].end
                == round_of(rounds, t).end;
        assert(round_of(rounds, t).begin < round_of(rounds, t).end);
    }
}

} // verus!
