//! From what the recognizer heard to numbered, timed caption entries.
//!
//! A [`Captioner`] takes the recognizer's answers in the order of the audio
//! and decides which of them become captions. Entries are numbered from 1
//! without gaps, in the order in which they are made. A [`Batch`] does so for
//! a recording, window by window, and times each caption by the length of its
//! window; [`transcribe`] does it for a whole recording at once.

use vstd::prelude::*;

use crate::reconcile::confirmed_suffix;
use crate::reconcile::initial_text;
use crate::reconcile::lemma_first_round;
use crate::reconcile::lemma_round_confirms_only_new;
use crate::reconcile::reconcile;
use crate::reconcile::stable_part;
use crate::reconcile::TranscriptState;
use crate::speech::FOUR_SECONDS;
use crate::speech::ROUND_SECONDS;
use crate::speech::SAMPLE_RATE;
use crate::subtitle::Subtitle;
use crate::subtitle::SubtitleView;
use crate::subtitle::entries_view;

verus! {

/// Samples in a millisecond of audio, at the rate the recognizer was trained
/// on.
pub const SAMPLES_PER_MS: usize = 16;

/// What the recognizer's answer stands for.
#[derive(Debug, Clone, Copy, PartialEq, Eq, Structural)]
pub enum RecognizerMode {
    /// Each answer is the transcript of all audio so far. Its last word may
    /// still change and is held back.
    Cumulative,
    /// Each answer is the transcript of one window alone and is shown as it is.
    PerWindow,
}

/// What a captioner remembers, as plain values.
pub struct CaptionerView {
    pub mode: RecognizerMode,
    /// The full text of the answer before this one.
    pub prev: Seq<char>,
    /// How many entries have been made.
    pub written: nat,
}

/// The captioner of a session in which nothing has been heard yet.
pub open spec fn fresh_captioner(mode: RecognizerMode) -> CaptionerView {
    CaptionerView { mode, prev: initial_text(), written: 0 }
}

/// The part of an answer that is shown.
pub open spec fn shown_text(mode: RecognizerMode, prev: Seq<char>, text: Seq<char>) -> Seq<char> {
    match mode {
        RecognizerMode::Cumulative => confirmed_suffix(prev, text),
        RecognizerMode::PerWindow => text,
    }
}

/// What the captioner remembers after an answer.
pub open spec fn heard_text(mode: RecognizerMode, prev: Seq<char>, text: Seq<char>) -> Seq<char> {
    match mode {
        RecognizerMode::Cumulative => text,
        RecognizerMode::PerWindow => prev,
    }
}

/// One round of captioning. Where the recognizer failed (`None`), the round
/// yields no entry and changes nothing. Where nothing of its answer is to be
/// shown, the round yields no entry either. Otherwise the entry gets the next
/// number and the period given.
pub open spec fn caption_step(
    captioner: CaptionerView,
    begin: nat,
    end: nat,
    heard: Option<Seq<char>>,
) -> (CaptionerView, Option<SubtitleView>) {
    match heard {
        None => (captioner, None),
        Some(text) => {
            let shown = shown_text(captioner.mode, captioner.prev, text);
            let prev = heard_text(captioner.mode, captioner.prev, text);
            if shown.len() == 0 {
                (CaptionerView { prev, ..captioner }, None)
            } else {
                (
                    CaptionerView { prev, written: captioner.written + 1, ..captioner },
                    Some(
                        SubtitleView {
                            index: captioner.written + 1,
                            begin,
                            end,
                            caption: shown,
                        },
                    ),
                )
            }
        },
    }
}

/// An answer that may be missing, as plain values.
pub open spec fn text_view(text: Option<String>) -> Option<Seq<char>> {
    match text {
        Some(t) => Some(t@),
        None => None,
    }
}

/// An entry that may be missing, as plain values.
pub open spec fn entry_view(entry: Option<Subtitle>) -> Option<SubtitleView> {
    match entry {
        Some(e) => Some(e@),
        None => None,
    }
}

/// Decides, answer by answer, what becomes a caption, and numbers the entries.
pub struct Captioner {
    mode: RecognizerMode,
    state: TranscriptState,
    written: usize,
}

impl View for Captioner {
    type V = CaptionerView;

    closed spec fn view(&self) -> CaptionerView {
        CaptionerView { mode: self.mode, prev: self.state@, written: self.written as nat }
    }
}

impl Captioner {
    /// A captioner for a new session.
    pub fn new(mode: RecognizerMode) -> (captioner: Captioner)
        ensures
            captioner@ == fresh_captioner(mode),
    {
        Captioner { mode, state: TranscriptState::new(), written: 0 }
    }

    /// How many entries have been made.
    pub fn written(&self) -> (written: usize)
        ensures
            written == self@.written,
    {
        self.written
    }

    /// The mode that the captioner was made for.
    pub fn mode(&self) -> (mode: RecognizerMode)
        ensures
            mode == self@.mode,
    {
        self.mode
    }

    /// One round: takes the recognizer's answer for the audio between `begin`
    /// and `end`, or `None` where it failed, and returns the entry to write, if
    /// the round yields one.
    pub fn caption(&mut self, begin: u128, end: u128, heard: Option<String>) -> (entry: Option<
        Subtitle,
    >)
        requires
            old(self)@.written < usize::MAX,
        ensures
            (final(self)@, entry_view(entry)) == caption_step(
                old(self)@,
                begin as nat,
                end as nat,
                text_view(heard),
            ),
    {
        match heard {
            None => None,
            Some(text) => {
                let shown = match self.mode {
                    RecognizerMode::Cumulative => reconcile(&mut self.state, text),
                    RecognizerMode::PerWindow => text,
                };
                if shown.as_str().is_empty() {
                    None
                } else {
                    self.written = self.written + 1;
                    Some(Subtitle::new(self.written, begin, end, shown))
                }
            },
        }
    }
}

/// What the recognizer made of one window.
#[derive(Debug, Clone)]
pub struct Heard {
    /// How many samples the window held.
    pub samples: usize,
    /// The recognizer's answer, or `None` where it failed.
    pub text: Option<String>,
}

/// Where a recording stands while it is captioned window by window.
pub struct BatchView {
    pub captioner: CaptionerView,
    /// The end of the last entry made, in milliseconds.
    pub clock: nat,
}

/// How long the caption of a window of `samples` samples is shown, in
/// milliseconds: as long as the window lasts, whole milliseconds only, and at
/// least one, since an entry ends after it has begun.
pub open spec fn window_ms(samples: nat) -> nat {
    if samples / (SAMPLES_PER_MS as nat) == 0 {
        1
    } else {
        samples / (SAMPLES_PER_MS as nat)
    }
}

/// A caption is shown for as long as its window lasts at the sample rate: a
/// window of a millisecond or more is timed by `samples * 1000 / SAMPLE_RATE`.
pub proof fn lemma_window_ms_is_true_time(samples: nat)
    ensures
        SAMPLES_PER_MS * 1000 == SAMPLE_RATE,
        samples >= SAMPLES_PER_MS ==> window_ms(samples) == (samples as int) * 1000 / (
        SAMPLE_RATE as int),
        samples < SAMPLES_PER_MS ==> window_ms(samples) == 1,
        window_ms(FOUR_SECONDS as nat) == ROUND_SECONDS * 1000,
{
    let whole = samples as int / 16;
    let rest = samples as int % 16;
    let scaled = (samples as int) * 1000;
    assert(scaled == 16000 * whole + 1000 * rest) by (nonlinear_arith)
        requires
            scaled == samples * 1000,
            samples == 16 * whole + rest,
    ;
    vstd::arithmetic::div_mod::lemma_fundamental_div_mod_converse(
        scaled,
        16000,
        whole,
        1000 * rest,
    );
}

/// The batch of a recording of which no window has been captioned.
pub open spec fn fresh_batch(mode: RecognizerMode) -> BatchView {
    BatchView { captioner: fresh_captioner(mode), clock: 0 }
}

/// One window of a recording. Its entry, if it yields one, begins where the
/// last entry ended and lasts as long as the window. A window without an
/// entry takes no time.
pub open spec fn batch_step(batch: BatchView, samples: nat, heard: Option<Seq<char>>) -> (
    BatchView,
    Option<SubtitleView>,
) {
    let end = batch.clock + window_ms(samples);
    let (captioner, entry) = caption_step(batch.captioner, batch.clock, end, heard);
    (
        BatchView {
            captioner,
            clock: if entry is Some {
                end
            } else {
                batch.clock
            },
        },
        entry,
    )
}

/// The state and the entries after the first `k` windows of a recording.
pub open spec fn batch_after(mode: RecognizerMode, heard: Seq<Heard>, k: nat) -> (
    BatchView,
    Seq<SubtitleView>,
)
    decreases k,
{
    if k == 0 {
        (fresh_batch(mode), Seq::empty())
    } else {
        let (batch, entries) = batch_after(mode, heard, (k - 1) as nat);
        let (next, entry) = batch_step(
            batch,
            heard[k - 1].samples as nat,
            text_view(heard[k - 1].text),
        );
        (
            next,
            match entry {
                Some(e) => entries.push(e),
                None => entries,
            },
        )
    }
}

/// The entries of a whole recording.
pub open spec fn batch_entries(mode: RecognizerMode, heard: Seq<Heard>) -> Seq<SubtitleView> {
    batch_after(mode, heard, heard.len()).1
}

/// What holds of the state after any number of windows: as many entries have
/// been numbered as were made, and the clock has moved by no more than the
/// windows' lengths.
proof fn lemma_batch_bounds(mode: RecognizerMode, heard: Seq<Heard>, k: nat)
    requires
        k <= heard.len(),
    ensures
        batch_after(mode, heard, k).0.captioner.written == batch_after(mode, heard, k).1.len(),
        batch_after(mode, heard, k).0.captioner.mode == mode,
        batch_after(mode, heard, k).1.len() <= k,
        batch_after(mode, heard, k).0.clock <= k * usize::MAX,
        batch_after(mode, heard, k).0.clock == if batch_after(mode, heard, k).1.len() == 0 {
            0
        } else {
            batch_after(mode, heard, k).1.last().end
        },
    decreases k,
{
    if k > 0 {
        lemma_batch_bounds(mode, heard, (k - 1) as nat);
        assert((k - 1) * usize::MAX + usize::MAX == k * usize::MAX) by (nonlinear_arith);
    } else {
        assert(0 * usize::MAX == 0) by (nonlinear_arith);
    }
}

/// The entries after any number of windows are numbered and timed in order.
proof fn lemma_batch_prefix_in_order(mode: RecognizerMode, heard: Seq<Heard>, k: nat)
    requires
        k <= heard.len(),
    ensures
        forall|i: int|
            0 <= i < batch_after(mode, heard, k).1.len() ==> {
                &&& (#[trigger] batch_after(mode, heard, k).1[i]).index == i + 1
                &&& batch_after(mode, heard, k).1[i].begin < batch_after(mode, heard, k).1[i].end
                &&& batch_after(mode, heard, k).1[i].begin == if i == 0 {
                    0
                } else {
                    batch_after(mode, heard, k).1[i - 1].end
                }
            },
    decreases k,
{
    if k > 0 {
        lemma_batch_prefix_in_order(mode, heard, (k - 1) as nat);
        lemma_batch_bounds(mode, heard, (k - 1) as nat);
    }
}

/// The entries of a recording are numbered 1, 2, 3 and so on, the first
/// begins at 0, each begins where the one before it ended, and each ends
/// after it has begun.
pub proof fn lemma_batch_entries_in_order(mode: RecognizerMode, heard: Seq<Heard>)
    ensures
        batch_entries(mode, heard).len() <= heard.len(),
        forall|i: int|
            0 <= i < batch_entries(mode, heard).len() ==> {
                &&& (#[trigger] batch_entries(mode, heard)[i]).index == i + 1
                &&& batch_entries(mode, heard)[i].valid()
                &&& batch_entries(mode, heard)[i].begin == if i == 0 {
                    0
                } else {
                    batch_entries(mode, heard)[i - 1].end
                }
            },
{
    lemma_batch_prefix_in_order(mode, heard, heard.len());
    lemma_batch_bounds(mode, heard, heard.len());
}

/// The captions of a list of entries, put one after the other.
pub open spec fn captions_joined(entries: Seq<SubtitleView>) -> Seq<char>
    decreases entries.len(),
{
    if entries.len() == 0 {
        Seq::empty()
    } else {
        captions_joined(entries.drop_last()) + entries.last().caption
    }
}

/// Whether the recognizer answered for every window, each answer continuing
/// the one before it.
pub open spec fn answers_continue(heard: Seq<Heard>) -> bool {
    &&& forall|i: int| 0 <= i < heard.len() ==> (#[trigger] heard[i]).text is Some
    &&& forall|i: int, j: int|
        0 <= i < j < heard.len() ==> heard[i].text->0@.is_prefix_of(heard[j].text->0@)
}

/// Answers that each continue the one before: after any number of windows the
/// captions, put one after the other, are what has settled of the last answer.
proof fn lemma_cumulative_prefix(heard: Seq<Heard>, k: nat)
    requires
        answers_continue(heard),
        1 <= k <= heard.len(),
    ensures
        batch_after(RecognizerMode::Cumulative, heard, k).0.captioner.prev == heard[k - 1].text->0@,
        captions_joined(batch_after(RecognizerMode::Cumulative, heard, k).1) == stable_part(
            heard[k - 1].text->0@,
        ),
    decreases k,
{
    let mode = RecognizerMode::Cumulative;
    let text = heard[k - 1].text->0@;
    let before = batch_after(mode, heard, (k - 1) as nat);
    let after = batch_after(mode, heard, k);
    lemma_batch_bounds(mode, heard, (k - 1) as nat);
    if k == 1 {
        lemma_first_round(text);
        assert(captions_joined(before.1) =~= Seq::<char>::empty());
    } else {
        lemma_cumulative_prefix(heard, (k - 1) as nat);
        assert(heard[k - 2].text->0@.is_prefix_of(text));
        lemma_round_confirms_only_new(heard[k - 2].text->0@, text);
    }
    let shown = confirmed_suffix(before.0.captioner.prev, text);
    if shown.len() == 0 {
        assert(captions_joined(before.1) + shown =~= captions_joined(before.1));
    } else {
        assert(after.1.drop_last() =~= before.1);
    }
}

/// A recording whose answers each continue the one before: the captions, put
/// one after the other, are what has settled of the last answer. No word is
/// shown twice, none is left out, and none comes out of order.
pub proof fn lemma_cumulative_captions(heard: Seq<Heard>)
    requires
        answers_continue(heard),
        heard.len() >= 1,
    ensures
        captions_joined(batch_entries(RecognizerMode::Cumulative, heard)) == stable_part(
            heard.last().text->0@,
        ),
{
    lemma_cumulative_prefix(heard, heard.len());
}

/// How long the caption of a window of `samples` samples is shown, in
/// milliseconds.
pub fn window_length(samples: usize) -> (ms: u128)
    ensures
        ms == window_ms(samples as nat),
        1 <= ms <= usize::MAX,
{
    if samples / SAMPLES_PER_MS == 0 {
        1
    } else {
        (samples / SAMPLES_PER_MS) as u128
    }
}

/// Captions a recording window by window: numbers the entries and times each
/// by the length of its window, beginning where the last entry ended.
pub struct Batch {
    captioner: Captioner,
    clock: u128,
}

impl View for Batch {
    type V = BatchView;

    closed spec fn view(&self) -> BatchView {
        BatchView { captioner: self.captioner@, clock: self.clock as nat }
    }
}

impl Batch {
    /// The batch of a recording of which no window has been captioned.
    pub fn new(mode: RecognizerMode) -> (batch: Batch)
        ensures
            batch@ == fresh_batch(mode),
    {
        Batch { captioner: Captioner::new(mode), clock: 0 }
    }

    /// How many entries have been made.
    pub fn written(&self) -> (written: usize)
        ensures
            written == self@.captioner.written,
    {
        self.captioner.written()
    }

    /// The end of the last entry made, in milliseconds.
    pub fn clock(&self) -> (clock: u128)
        ensures
            clock == self@.clock,
    {
        self.clock
    }

    /// Whether the batch can take a window of `samples` samples: the entry's
    /// number and its end must be numbers that the machine can hold.
    pub fn has_room(&self, samples: usize) -> (room: bool)
        ensures
            room == (self@.captioner.written < usize::MAX && self@.clock + window_ms(
                samples as nat,
            ) <= u128::MAX),
    {
        self.captioner.written() < usize::MAX && self.clock <= u128::MAX - window_length(samples)
    }

    /// The next window: takes the number of its samples and the recognizer's
    /// answer for it, or `None` where the recognizer failed, and returns the
    /// entry to write, if the window yields one.
    pub fn accept(&mut self, samples: usize, heard: Option<String>) -> (entry: Option<Subtitle>)
        requires
            old(self)@.captioner.written < usize::MAX,
            old(self)@.clock + window_ms(samples as nat) <= u128::MAX,
        ensures
            (final(self)@, entry_view(entry)) == batch_step(
                old(self)@,
                samples as nat,
                text_view(heard),
            ),
    {
        let end = self.clock + window_length(samples);
        let entry = self.captioner.caption(self.clock, end, heard);
        if entry.is_some() {
            self.clock = end;
        }
        entry
    }
}

/// Captions a whole recording: takes what the recognizer made of each window,
/// in order, and returns the entries to write. A window on which the
/// recognizer failed, or of whose answer nothing is to be shown, yields no
/// entry; the windows after it are captioned all the same.
pub fn transcribe(mode: RecognizerMode, heard: &Vec<Heard>) -> (entries: Vec<Subtitle>)
    ensures
        entries_view(entries@) == batch_entries(mode, heard@),
{
    let mut entries: Vec<Subtitle> = Vec::new();
    let mut batch = Batch::new(mode);
    let mut k: usize = 0;
    proof {
        assert(entries_view(entries@) =~= batch_after(mode, heard@, 0).1);
    }
    while k < heard.len()
        invariant
            0 <= k <= heard@.len(),
            batch@ == batch_after(mode, heard@, k as nat).0,
            entries_view(entries@) == batch_after(mode, heard@, k as nat).1,
        decreases heard@.len() - k,
    {
        proof {
            lemma_batch_bounds(mode, heard@, k as nat);
            assert(batch@.clock + usize::MAX <= u128::MAX) by (nonlinear_arith)
                requires
                    batch@.clock <= k * usize::MAX,
                    k < usize::MAX,
                    usize::MAX <= 0xffff_ffff_ffff_ffff,
                    u128::MAX == 0xffff_ffff_ffff_ffff_ffff_ffff_ffff_ffff,
            ;
            assert(window_ms(heard@[k as int].samples as nat) <= usize::MAX);
        }
        let ghost before = entries_view(entries@);
        let text = match &heard[k].text {
            Some(t) => Some(t.clone()),
            None => None,
        };
        match batch.accept(heard[k].samples, text) {
            Some(entry) => {
                proof {
                    assert(entries_view(entries@.push(entry)) =~= before.push(entry@));
                }
                entries.push(entry);
            },
            None => {},
        }
        k = k + 1;
    }
    entries
}

} // verus!
