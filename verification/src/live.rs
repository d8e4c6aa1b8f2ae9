//! Captioning while the audio is still being captured.
//!
//! A [`Coordinator`] decides, tick by tick, whether the newest audio is handed
//! to the recognizer or the round is skipped because the recognizer is still
//! busy. It numbers the ticks and fixes each round's period when the round is
//! dispatched. Rounds may end in any order; an [`OrderedSink`] holds back what
//! arrives early and releases entries strictly in the order of their ticks.

use vstd::prelude::*;

use crate::caption::caption_step;
use crate::caption::fresh_captioner;
use crate::caption::Captioner;
use crate::caption::CaptionerView;
use crate::caption::RecognizerMode;
use crate::enums::TlapError;
use crate::subtitle::entries_view;
use crate::subtitle::Subtitle;
use crate::subtitle::SubtitleView;

verus! {

/// Where a live session stands.
#[derive(Debug, Clone, Copy, PartialEq, Eq, Structural)]
pub enum Phase {
    /// Nothing has been started.
    Idle,
    /// Audio is being captured and the recognizer is free.
    Capturing,
    /// Audio is being captured and the recognizer is at work on a round.
    Decoding,
    /// The session is over.
    Stopped,
}

/// What happened outside.
#[derive(Debug, Clone, Copy, PartialEq, Eq, Structural)]
pub enum Event {
    /// The capture stream is about to be started.
    Start,
    /// The timer fired, `now_ms` milliseconds into the session.
    Tick { now_ms: u128 },
    /// The round that was dispatched last has ended, well or badly.
    DecodeFinished,
    /// The capture stream failed or was stopped.
    StreamFailed,
}

/// What is to be done outside.
#[derive(Debug, Clone, Copy, PartialEq, Eq, Structural)]
pub enum Action {
    /// Nothing.
    Nothing,
    /// Start the capture stream.
    BeginCapture,
    /// Hand the newest audio to the recognizer. What it returns is the text
    /// of round `tick`, shown from `begin_ms` to `end_ms`.
    Dispatch { tick: usize, begin_ms: u128, end_ms: u128 },
    /// The recognizer is still busy: round `tick`, which would have been
    /// shown from `begin_ms` to `end_ms`, is given up.
    Skip { tick: usize, begin_ms: u128, end_ms: u128 },
    /// Stop capturing.
    Halt,
}

/// What a coordinator holds, as plain values.
pub struct CoordinatorView {
    pub phase: Phase,
    /// How many ticks have been numbered.
    pub ticks: nat,
    /// The time of the last tick that was numbered, in milliseconds.
    pub prev_ts: nat,
}

/// The coordinator of a session that has not been started.
pub open spec fn idle_coordinator() -> CoordinatorView {
    CoordinatorView { phase: Phase::Idle, ticks: 0, prev_ts: 0 }
}

/// Whether a tick at `now_ms` is taken up: the session is running and time has
/// moved on since the last tick.
pub open spec fn tick_counts(c: CoordinatorView, now_ms: nat) -> bool {
    (c.phase == Phase::Capturing || c.phase == Phase::Decoding) && now_ms > c.prev_ts
}

/// The coordinator's next state and what is to be done, for each state and
/// event.
///
/// A tick that is taken up gets the next number, and its round covers the time
/// since the tick before it. The round is dispatched if the recognizer is
/// free and skipped if it is not: rounds never queue. A session that has
/// stopped stays stopped.
pub open spec fn coordinate(c: CoordinatorView, event: Event) -> (CoordinatorView, Action) {
    match event {
        Event::Start => if c.phase == Phase::Idle {
            (CoordinatorView { phase: Phase::Capturing, ..c }, Action::BeginCapture)
        } else {
            (c, Action::Nothing)
        },
        Event::Tick { now_ms } => if tick_counts(c, now_ms as nat) {
            let after = CoordinatorView {
                phase: Phase::Decoding,
                ticks: c.ticks + 1,
                prev_ts: now_ms as nat,
            };
            if c.phase == Phase::Capturing {
                (
                    after,
                    Action::Dispatch {
                        tick: (c.ticks + 1) as usize,
                        begin_ms: c.prev_ts as u128,
                        end_ms: now_ms,
                    },
                )
            } else {
                (
                    after,
                    Action::Skip {
                        tick: (c.ticks + 1) as usize,
                        begin_ms: c.prev_ts as u128,
                        end_ms: now_ms,
                    },
                )
            }
        } else {
            (c, Action::Nothing)
        },
        Event::DecodeFinished => if c.phase == Phase::Decoding {
            (CoordinatorView { phase: Phase::Capturing, ..c }, Action::Nothing)
        } else {
            (c, Action::Nothing)
        },
        Event::StreamFailed => if c.phase == Phase::Stopped {
            (c, Action::Nothing)
        } else {
            (CoordinatorView { phase: Phase::Stopped, ..c }, Action::Halt)
        },
    }
}

/// Decides what a live session does next.
pub struct Coordinator {
    phase: Phase,
    ticks: usize,
    prev_ts: u128,
}

impl View for Coordinator {
    type V = CoordinatorView;

    closed spec fn view(&self) -> CoordinatorView {
        CoordinatorView {
            phase: self.phase,
            ticks: self.ticks as nat,
            prev_ts: self.prev_ts as nat,
        }
    }
}

impl Coordinator {
    /// The coordinator of a session that has not been started.
    pub fn new() -> (coordinator: Coordinator)
        ensures
            coordinator@ == idle_coordinator(),
    {
        Coordinator { phase: Phase::Idle, ticks: 0, prev_ts: 0 }
    }

    /// Where the session stands.
    pub fn phase(&self) -> (phase: Phase)
        ensures
            phase == self@.phase,
    {
        self.phase
    }

    /// How many ticks have been numbered.
    pub fn ticks(&self) -> (ticks: usize)
        ensures
            ticks == self@.ticks,
    {
        self.ticks
    }

    /// Takes an event and returns what is to be done. For a tick, the tick
    /// count must not have reached the largest number but one, so that the
    /// tick can be numbered and the sink can count past it.
    pub fn step(&mut self, event: Event) -> (action: Action)
        requires
            event is Tick ==> old(self)@.ticks + 1 < usize::MAX,
        ensures
            (final(self)@, action) == coordinate(old(self)@, event),
    {
        match event {
            Event::Start => {
                if self.phase == Phase::Idle {
                    self.phase = Phase::Capturing;
                    Action::BeginCapture
                } else {
                    Action::Nothing
                }
            },
            Event::Tick { now_ms } => {
                let running = self.phase == Phase::Capturing || self.phase == Phase::Decoding;
                if running && now_ms > self.prev_ts {
                    let free = self.phase == Phase::Capturing;
                    let begin_ms = self.prev_ts;
                    self.phase = Phase::Decoding;
                    self.ticks = self.ticks + 1;
                    self.prev_ts = now_ms;
                    if free {
                        Action::Dispatch { tick: self.ticks, begin_ms, end_ms: now_ms }
                    } else {
                        Action::Skip { tick: self.ticks, begin_ms, end_ms: now_ms }
                    }
                } else {
                    Action::Nothing
                }
            },
            Event::DecodeFinished => {
                if self.phase == Phase::Decoding {
                    self.phase = Phase::Capturing;
                }
                Action::Nothing
            },
            Event::StreamFailed => {
                if self.phase == Phase::Stopped {
                    Action::Nothing
                } else {
                    self.phase = Phase::Stopped;
                    Action::Halt
                }
            },
        }
    }
}

/// How a round ended.
#[derive(Debug)]
pub struct Arrival {
    /// The number of the round's tick.
    pub tick: usize,
    /// When the round's caption begins, in milliseconds.
    pub begin: u128,
    /// When the round's caption ends, in milliseconds.
    pub end: u128,
    /// The recognizer's answer, or why there is none.
    pub outcome: Result<String, TlapError>,
}

/// How a round ended, as plain values. A round that failed has no text; why
/// it failed plays no part in what is written.
pub struct ArrivalView {
    pub tick: nat,
    pub begin: nat,
    pub end: nat,
    pub text: Option<Seq<char>>,
}

impl View for Arrival {
    type V = ArrivalView;

    open spec fn view(&self) -> ArrivalView {
        ArrivalView {
            tick: self.tick as nat,
            begin: self.begin as nat,
            end: self.end as nat,
            text: match self.outcome {
                Ok(text) => Some(text@),
                Err(_) => None,
            },
        }
    }
}

impl Arrival {
    /// The arrival of a round that was skipped because the recognizer was
    /// busy.
    pub fn skipped(tick: usize, begin: u128, end: u128) -> (round: Arrival)
        ensures
            round.tick == tick,
            round.begin == begin,
            round.end == end,
            round.outcome == Err::<String, TlapError>(TlapError::ModelLockFailed),
    {
        Arrival { tick, begin, end, outcome: Err(TlapError::ModelLockFailed) }
    }
}

/// The arrivals of a list, as plain values.
pub open spec fn arrivals_view(arrivals: Seq<Arrival>) -> Seq<ArrivalView> {
    Seq::new(arrivals.len(), |k: int| arrivals[k]@)
}

/// What an ordered sink holds, as plain values.
pub struct SinkView {
    pub captioner: CaptionerView,
    /// The tick whose round is released next.
    pub next_tick: nat,
    /// The rounds that have arrived before their turn.
    pub waiting: Seq<ArrivalView>,
}

/// The sink of a session of which no round has ended. Ticks count from 1.
pub open spec fn fresh_sink(mode: RecognizerMode) -> SinkView {
    SinkView { captioner: fresh_captioner(mode), next_tick: 1, waiting: Seq::empty() }
}

/// Where the round of `tick` stands in the list, or -1 where it is not in it.
pub open spec fn position_of(waiting: Seq<ArrivalView>, tick: nat) -> int
    decreases waiting.len(),
{
    if waiting.len() == 0 {
        -1
    } else if position_of(waiting.drop_last(), tick) >= 0 {
        position_of(waiting.drop_last(), tick)
    } else if waiting.last().tick == tick {
        waiting.len() - 1
    } else {
        -1
    }
}

/// Releases what can be released: as long as the round whose turn it is has
/// arrived, it is captioned and the turn passes to the next tick.
pub open spec fn release(sink: SinkView) -> (SinkView, Seq<SubtitleView>)
    decreases sink.waiting.len(),
{
    let at = position_of(sink.waiting, sink.next_tick);
    if 0 <= at < sink.waiting.len() {
        let round = sink.waiting[at];
        let (captioner, entry) = caption_step(sink.captioner, round.begin, round.end, round.text);
        let (after, later) = release(
            SinkView {
                captioner,
                next_tick: sink.next_tick + 1,
                waiting: sink.waiting.remove(at),
            },
        );
        (
            after,
            match entry {
                Some(e) => seq![e] + later,
                None => later,
            },
        )
    } else {
        (sink, Seq::empty())
    }
}

/// Whether a round is taken in: its turn has not passed, and no round of the
/// same tick is waiting already.
pub open spec fn accepts(sink: SinkView, round: ArrivalView) -> bool {
    round.tick >= sink.next_tick && position_of(sink.waiting, round.tick) < 0
}

/// The sink's next state and the entries to write, when a round arrives. A
/// round that is not taken in changes nothing and releases nothing.
pub open spec fn complete_step(sink: SinkView, round: ArrivalView) -> (
    SinkView,
    Seq<SubtitleView>,
) {
    if accepts(sink, round) {
        release(SinkView { waiting: sink.waiting.push(round), ..sink })
    } else {
        (sink, Seq::empty())
    }
}

/// `position_of` finds the first round of the tick.
pub proof fn lemma_position_of(waiting: Seq<ArrivalView>, tick: nat)
    ensures
        -1 <= position_of(waiting, tick) < waiting.len(),
        position_of(waiting, tick) >= 0 ==> waiting[position_of(waiting, tick)].tick == tick,
        forall|i: int|
            0 <= i < waiting.len() && (position_of(waiting, tick) < 0 || i < position_of(
                waiting,
                tick,
            )) ==> (#[trigger] waiting[i]).tick != tick,
    decreases waiting.len(),
{
    if waiting.len() > 0 {
        let head = waiting.drop_last();
        lemma_position_of(head, tick);
        assert forall|i: int|
            0 <= i < waiting.len() && (position_of(waiting, tick) < 0 || i < position_of(
                waiting,
                tick,
            )) implies (#[trigger] waiting[i]).tick != tick by {
            if i < head.len() {
                assert(head[i] == waiting[i]);
            }
        }
    }
}

/// Takes the rounds of a live session as they end and releases their entries
/// in the order of their ticks.
pub struct OrderedSink {
    captioner: Captioner,
    next_tick: usize,
    waiting: Vec<Arrival>,
}

impl View for OrderedSink {
    type V = SinkView;

    closed spec fn view(&self) -> SinkView {
        SinkView {
            captioner: self.captioner@,
            next_tick: self.next_tick as nat,
            waiting: arrivals_view(self.waiting@),
        }
    }
}

impl SinkView {
    /// What holds of a sink between two arrivals: fewer entries have been made
    /// than turns have passed, the rounds that wait are of later ticks, each
    /// of a tick of its own, and none of them is the largest tick there is.
    pub open spec fn well_formed(self) -> bool {
        &&& self.next_tick >= 1
        &&& self.captioner.written < self.next_tick
        &&& forall|i: int|
            0 <= i < self.waiting.len() ==> self.next_tick < (#[trigger] self.waiting[i]).tick
                < usize::MAX
        &&& forall|i: int, j: int|
            0 <= i < j < self.waiting.len() ==> self.waiting[i].tick != self.waiting[j].tick
    }

    /// What holds of a sink while it releases: as `well_formed`, but the round
    /// whose turn it is may be among those that wait.
    pub open spec fn releasing(self) -> bool {
        &&& self.next_tick >= 1
        &&& self.captioner.written < self.next_tick
        &&& forall|i: int|
            0 <= i < self.waiting.len() ==> self.next_tick <= (#[trigger] self.waiting[i]).tick
                < usize::MAX
        &&& forall|i: int, j: int|
            0 <= i < j < self.waiting.len() ==> self.waiting[i].tick != self.waiting[j].tick
    }
}

impl OrderedSink {
    /// The sink of a session of which no round has ended.
    pub fn new(mode: RecognizerMode) -> (sink: OrderedSink)
        ensures
            sink@ == fresh_sink(mode),
            sink@.well_formed(),
    {
        let sink = OrderedSink { captioner: Captioner::new(mode), next_tick: 1, waiting: Vec::new() };
        proof {
            assert(sink@.waiting =~= Seq::<ArrivalView>::empty());
        }
        sink
    }

    /// The tick whose round is released next.
    pub fn next_tick(&self) -> (tick: usize)
        ensures
            tick == self@.next_tick,
    {
        self.next_tick
    }

    /// How many rounds wait for their turn.
    pub fn waiting(&self) -> (count: usize)
        ensures
            count == self@.waiting.len(),
    {
        self.waiting.len()
    }

    /// Where the round of `tick` waits, if it does.
    fn find(&self, tick: usize) -> (at: Option<usize>)
        ensures
            match at {
                Some(i) => i as int == position_of(self@.waiting, tick as nat),
                None => position_of(self@.waiting, tick as nat) < 0,
            },
    {
        let mut k: usize = 0;
        while k < self.waiting.len()
            invariant
                0 <= k <= self.waiting@.len(),
                position_of(self@.waiting.take(k as int), tick as nat) < 0,
            decreases self.waiting@.len() - k,
        {
            proof {
                assert(self@.waiting.take(k + 1).drop_last() =~= self@.waiting.take(k as int));
            }
            if self.waiting[k].tick == tick {
                proof {
                    lemma_position_prefix(self@.waiting, k + 1, tick as nat);
                }
                return Some(k);
            }
            k = k + 1;
        }
        proof {
            assert(self@.waiting.take(k as int) =~= self@.waiting);
        }
        None
    }

    /// Takes a round that has ended and returns the entries that can be
    /// written now, in the order in which they are to be written: none while
    /// an earlier round is still out; else what this round yields and what
    /// the rounds that waited for it yield. A round whose turn has passed, or
    /// whose tick is waiting already, is dropped.
    pub fn complete(&mut self, round: Arrival) -> (entries: Vec<Subtitle>)
        requires
            old(self)@.well_formed(),
            round.tick < usize::MAX,
        ensures
            final(self)@.well_formed(),
            (final(self)@, entries_view(entries@)) == complete_step(old(self)@, round@),
    {
        let mut entries: Vec<Subtitle> = Vec::new();
        if round.tick < self.next_tick {
            proof {
                assert(entries_view(entries@) =~= Seq::<SubtitleView>::empty());
            }
            return entries;
        }
        if self.find(round.tick).is_some() {
            proof {
                assert(entries_view(entries@) =~= Seq::<SubtitleView>::empty());
            }
            return entries;
        }
        let ghost before = self@;
        proof {
            lemma_position_of(before.waiting, round@.tick);
        }
        self.waiting.push(round);
        proof {
            assert(self@.waiting =~= before.waiting.push(round@));
            assert(self@.releasing());
        }
        let ghost start = self@;
        loop
            invariant
                self@.releasing(),
                start.releasing(),
                release(start).0 == release(self@).0,
                release(start).1 == entries_view(entries@) + release(self@).1,
            ensures
                self@.well_formed(),
                self@ == release(start).0,
                entries_view(entries@) == release(start).1,
            decreases self@.waiting.len(),
        {
            let ghost sink = self@;
            let ghost written = entries_view(entries@);
            proof {
                lemma_position_of(sink.waiting, sink.next_tick);
            }
            match self.find(self.next_tick) {
                None => {
                    proof {
                        assert(written + Seq::<SubtitleView>::empty() =~= written);
                    }
                    break ;
                },
                Some(at) => {
                    let round = self.waiting.remove(at);
                    proof {
                        assert(self@.waiting =~= sink.waiting.remove(at as int));
                    }
                    let text = match round.outcome {
                        Ok(text) => Some(text),
                        Err(_) => None,
                    };
                    let entry = self.captioner.caption(round.begin, round.end, text);
                    self.next_tick = self.next_tick + 1;
                    match entry {
                        Some(e) => {
                            proof {
                                assert(entries_view(entries@.push(e)) =~= written.push(e@));
                                assert(written + (seq![e@] + release(self@).1) =~= written.push(
                                    e@,
                                ) + release(self@).1);
                            }
                            entries.push(e);
                        },
                        None => {},
                    }
                },
            }
        }
        entries
    }
}

/// A tick found in the first `k` rounds is found in the whole list, at the
/// same place.
proof fn lemma_position_prefix(waiting: Seq<ArrivalView>, k: int, tick: nat)
    requires
        0 <= k <= waiting.len(),
        position_of(waiting.take(k), tick) >= 0,
    ensures
        position_of(waiting, tick) == position_of(waiting.take(k), tick),
    decreases waiting.len() - k,
{
    if k < waiting.len() {
        assert(waiting.take(k + 1).drop_last() =~= waiting.take(k));
        lemma_position_prefix(waiting, k + 1, tick);
    } else {
        assert(waiting.take(k) =~= waiting);
    }
}

} // verus!
