//! Samples on their way to the recognizer, and cutting a recording at pauses.
//!
//! A recording can be cut in two ways, and the two do not give the same
//! windows. [`split_audio_lines`] cuts where a long enough stretch of silence
//! begins, so that words are less often cut in two; its lines differ in
//! length. It is the default for finished recordings. Windows of one fixed
//! length, the last one padded with silence, are cut by
//! [`segment`](crate::window::segment), for recognizers that take nothing else.

use vstd::prelude::*;
use vstd::slice::slice_subrange;
use vstd::slice::slice_to_vec;

use crate::enums::TlapError;

verus! {

/// Samples per second that the recognizer was trained on.
pub const SAMPLE_RATE: u32 = 16000;

/// Channels of the audio that the recognizer takes: it is mono.
pub const CHANNELS: u16 = 1;

/// Bits of a sample: samples are signed 16-bit numbers.
pub const BITS_PER_SAMPLE: u16 = 16;

/// Samples in four seconds of audio at the rate the recognizer was trained on.
pub const FOUR_SECONDS: usize = 64000;

/// Seconds between two rounds of a live session: as long as the audio that a
/// round hands to the recognizer.
pub const ROUND_SECONDS: u64 = 4;

/// Zero samples in a row that count as a pause: a tenth of a second.
pub const SILENCE_THRESHOLD: usize = 1600;

/// The samples of each line, as sequences.
pub open spec fn lines_view(lines: Seq<Vec<i16>>) -> Seq<Seq<i16>> {
    Seq::new(lines.len(), |k: int| lines[k]@)
}

/// Whether a pause begins at position `p`: the sample before `p` is audible,
/// and from `p` on at least `threshold` samples (and at least one) are zero.
/// A buffer that opens with silence has no pause at position 0, since nothing
/// would stand before the cut.
pub open spec fn silence_starts_at(buf: Seq<i16>, threshold: nat, p: int) -> bool {
    &&& 0 < p < buf.len()
    &&& buf[p - 1] != 0
    &&& buf[p] == 0
    &&& p + threshold <= buf.len()
    &&& forall|j: int| p <= j < p + threshold ==> buf[j] == 0
}

/// The positions below `n` at which a pause begins, in increasing order.
pub open spec fn cuts_below(buf: Seq<i16>, threshold: nat, n: int) -> Seq<int>
    decreases n,
{
    if n <= 0 {
        Seq::empty()
    } else if silence_starts_at(buf, threshold, n - 1) {
        cuts_below(buf, threshold, n - 1).push(n - 1)
    } else {
        cuts_below(buf, threshold, n - 1)
    }
}

/// Every position of the buffer at which a pause begins, in increasing order.
pub open spec fn cut_points(buf: Seq<i16>, threshold: nat) -> Seq<int> {
    cuts_below(buf, threshold, buf.len() as int)
}

/// Where line `k` begins when the buffer is cut at `cuts`.
pub open spec fn line_start(cuts: Seq<int>, k: int) -> int {
    if k == 0 {
        0
    } else {
        cuts[k - 1]
    }
}

/// Where line `k` ends when a buffer of `len` samples is cut at `cuts`.
pub open spec fn line_end(cuts: Seq<int>, len: int, k: int) -> int {
    if k == cuts.len() {
        len
    } else {
        cuts[k]
    }
}

/// The buffer cut at each of `cuts`: the first line begins at position 0, the
/// last one ends with the buffer. An empty buffer has no lines.
pub open spec fn lines_between(buf: Seq<i16>, cuts: Seq<int>) -> Seq<Seq<i16>> {
    if buf.len() == 0 {
        Seq::empty()
    } else {
        Seq::new(
            cuts.len() + 1,
            |k: int| buf.subrange(line_start(cuts, k), line_end(cuts, buf.len() as int, k)),
        )
    }
}

/// The buffer cut wherever a pause of at least `threshold` samples begins.
pub open spec fn silence_lines(buf: Seq<i16>, threshold: nat) -> Seq<Seq<i16>> {
    lines_between(buf, cut_points(buf, threshold))
}

/// How many zero samples stand in a row right before position `i`.
spec fn zeros_before(buf: Seq<i16>, i: int) -> int
    decreases i,
{
    if i <= 0 || i > buf.len() || buf[i - 1] != 0 {
        0
    } else {
        1 + zeros_before(buf, i - 1)
    }
}

/// `zeros_before` counts exactly the zero run that ends at `i`.
proof fn lemma_zeros_before(buf: Seq<i16>, i: int)
    requires
        0 <= i <= buf.len(),
    ensures
        0 <= zeros_before(buf, i) <= i,
        forall|j: int| i - zeros_before(buf, i) <= j < i ==> buf[j] == 0,
        i - zeros_before(buf, i) > 0 ==> buf[i - zeros_before(buf, i) - 1] != 0,
    decreases i,
{
    if i > 0 && buf[i - 1] == 0 {
        lemma_zeros_before(buf, i - 1);
    }
}

/// Positions from which fewer than `threshold` samples remain hold no pause.
proof fn lemma_no_cut_near_end(buf: Seq<i16>, threshold: nat, a: int, b: int)
    requires
        0 <= a <= b <= buf.len(),
        forall|p: int| a <= p < b ==> !silence_starts_at(buf, threshold, p),
    ensures
        cuts_below(buf, threshold, b) == cuts_below(buf, threshold, a),
    decreases b - a,
{
    if a < b {
        lemma_no_cut_near_end(buf, threshold, a, b - 1);
    }
}

/// The cut points are exactly the positions at which a pause begins, each
/// listed once, in increasing order.
pub proof fn lemma_cuts_below(buf: Seq<i16>, threshold: nat, n: int)
    ensures
        forall|k: int|
            0 <= k < cuts_below(buf, threshold, n).len() ==> {
                &&& 0 < #[trigger] cuts_below(buf, threshold, n)[k] < n
                &&& silence_starts_at(buf, threshold, cuts_below(buf, threshold, n)[k])
            },
        forall|j: int, k: int|
            0 <= j < k < cuts_below(buf, threshold, n).len() ==> cuts_below(buf, threshold, n)[j]
                < cuts_below(buf, threshold, n)[k],
        forall|p: int|
            0 <= p < n && silence_starts_at(buf, threshold, p) ==> cuts_below(
                buf,
                threshold,
                n,
            ).contains(p),
    decreases n,
{
    if n > 0 {
        lemma_cuts_below(buf, threshold, n - 1);
        let before = cuts_below(buf, threshold, n - 1);
        let all = cuts_below(buf, threshold, n);
        assert forall|p: int| 0 <= p < n && silence_starts_at(buf, threshold, p) implies all.contains(
            p,
        ) by {
            if p < n - 1 {
                let k = choose|k: int| 0 <= k < before.len() && before[k] == p;
                assert(all[k] == p);
            } else {
                assert(all[all.len() - 1] == p);
            }
        }
    }
}

/// The positions at which a pause of at least `threshold` samples begins.
pub fn silence_cuts(buf: &Vec<i16>, threshold: usize) -> (cuts: Vec<usize>)
    ensures
        cuts@.map_values(|c: usize| c as int) == cut_points(buf@, threshold as nat),
{
    let n = buf.len();
    let run_needed: usize = if threshold == 0 {
        1
    } else {
        threshold
    };
    let mut cuts: Vec<usize> = Vec::new();
    let mut run: usize = 0;
    let mut i: usize = 0;
    while i < n
        invariant
            n == buf@.len(),
            0 <= i <= n,
            run_needed >= 1,
            run_needed == threshold || (threshold == 0 && run_needed == 1),
            run as int == zeros_before(buf@, i as int),
            cuts@.map_values(|c: usize| c as int) == cuts_below(
                buf@,
                threshold as nat,
                if i >= run_needed {
                    i - run_needed + 1
                } else {
                    0
                },
            ),
        decreases n - i,
    {
        let ghost decided = cuts@.map_values(|c: usize| c as int);
        let ghost p = i as int + 1 - run_needed as int;
        proof {
            lemma_zeros_before(buf@, i as int);
            lemma_zeros_before(buf@, i as int + 1);
        }
        if buf[i] == 0 {
            run = run + 1;
            if run == run_needed && i >= run_needed {
                proof {
                    assert(silence_starts_at(buf@, threshold as nat, p));
                }
                cuts.push(i + 1 - run_needed);
                proof {
                    assert(cuts@.map_values(|c: usize| c as int) =~= decided.push(p));
                }
            } else {
                proof {
                    if p >= 0 {
                        assert(!silence_starts_at(buf@, threshold as nat, p)) by {
                            if silence_starts_at(buf@, threshold as nat, p) {
                                assert(buf@[p] == 0);
                                assert(forall|j: int| p <= j < p + run_needed ==> buf@[j] == 0);
                            }
                        }
                    }
                }
            }
        } else {
            run = 0;
            proof {
                if p >= 0 {
                    assert(!silence_starts_at(buf@, threshold as nat, p)) by {
                        if silence_starts_at(buf@, threshold as nat, p) {
                            assert(buf@[i as int] == 0);
                        }
                    }
                }
            }
        }
        i = i + 1;
    }
    proof {
        let decided: int = if n >= run_needed {
            n - run_needed + 1
        } else {
            0
        };
        lemma_no_cut_near_end(buf@, threshold as nat, decided, n as int);
    }
    cuts
}

/// A copy of the samples from `from` up to, not including, `to`.
fn copy_range(buf: &Vec<i16>, from: usize, to: usize) -> (line: Vec<i16>)
    requires
        from <= to <= buf@.len(),
    ensures
        line@ == buf@.subrange(from as int, to as int),
{
    slice_to_vec(slice_subrange(buf.as_slice(), from, to))
}

/// Cuts the buffer wherever a pause of at least `threshold` samples begins.
/// No sample is lost or repeated: the lines, one after the other, are the
/// buffer. See `lemma_silence_lines_cover_buffer`.
pub fn split_at_silence(audio_buffer: &Vec<i16>, threshold: usize) -> (lines: Vec<Vec<i16>>)
    ensures
        lines_view(lines@) == silence_lines(audio_buffer@, threshold as nat),
{
    let n = audio_buffer.len();
    let mut lines: Vec<Vec<i16>> = Vec::new();
    if n == 0 {
        assert(lines_view(lines@) =~= silence_lines(audio_buffer@, threshold as nat));
        return lines;
    }
    let cuts = silence_cuts(audio_buffer, threshold);
    let ghost points = cut_points(audio_buffer@, threshold as nat);
    proof {
        lemma_cuts_below(audio_buffer@, threshold as nat, n as int);
        assert(cuts@.len() == points.len());
        assert forall|k: int| 0 <= k < cuts@.len() implies cuts@[k] as int == points[k] by {
            assert(cuts@.map_values(|c: usize| c as int)[k] == cuts@[k] as int);
        }
    }
    let mut start: usize = 0;
    let mut k: usize = 0;
    while k < cuts.len()
        invariant
            n == audio_buffer@.len(),
            n > 0,
            points == cut_points(audio_buffer@, threshold as nat),
            cuts@.len() == points.len(),
            forall|j: int| 0 <= j < cuts@.len() ==> cuts@[j] as int == points[j],
            forall|j: int| 0 <= j < points.len() ==> 0 < #[trigger] points[j] < n,
            forall|i: int, j: int| 0 <= i < j < points.len() ==> points[i] < points[j],
            0 <= k <= cuts@.len(),
            start as int == line_start(points, k as int),
            start <= n,
            lines@.len() == k,
            forall|j: int|
                0 <= j < k ==> (#[trigger] lines@[j])@ == audio_buffer@.subrange(
                    line_start(points, j),
                    line_end(points, n as int, j),
                ),
        decreases cuts@.len() - k,
    {
        let end = cuts[k];
        proof {
            assert(end as int == points[k as int]);
            assert(0 < points[k as int] < n);
            if k > 0 {
                assert(points[k as int - 1] < points[k as int]);
            }
        }
        lines.push(copy_range(audio_buffer, start, end));
        start = end;
        k = k + 1;
    }
    lines.push(copy_range(audio_buffer, start, n));
    proof {
        assert(lines_view(lines@) =~= silence_lines(audio_buffer@, threshold as nat));
    }
    lines
}

/// Cuts the buffer wherever a pause of a tenth of a second begins. The cut
/// never fails: the result is always `Ok`.
pub fn split_audio_lines(audio_buffer: Vec<i16>) -> (r: Result<Vec<Vec<i16>>, TlapError>)
    ensures
        r matches Ok(lines) && lines_view(lines@) == silence_lines(
            audio_buffer@,
            SILENCE_THRESHOLD as nat,
        ),
{
    Ok(split_at_silence(&audio_buffer, SILENCE_THRESHOLD))
}

/// Cutting loses nothing: for cut points that increase and lie inside the
/// buffer, the lines put one after the other are the buffer again, and no line
/// is empty.
pub proof fn lemma_lines_between_cover_buffer(buf: Seq<i16>, cuts: Seq<int>)
    requires
        forall|k: int| 0 <= k < cuts.len() ==> 0 < #[trigger] cuts[k] < buf.len(),
        forall|j: int, k: int| 0 <= j < k < cuts.len() ==> cuts[j] < cuts[k],
    ensures
        lines_between(buf, cuts).flatten() == buf,
        forall|k: int|
            0 <= k < lines_between(buf, cuts).len() ==> (#[trigger] lines_between(
                buf,
                cuts,
            )[k]).len() > 0,
    decreases cuts.len(),
{
    let lines = lines_between(buf, cuts);
    let n = buf.len() as int;
    if n == 0 {
        assert(lines.flatten() =~= buf);
    } else if cuts.len() == 0 {
        assert(lines[0] =~= buf);
        lines.lemma_flatten_one_element();
    } else {
        let last_cut = cuts.last();
        let head = buf.take(last_cut);
        let fewer = cuts.drop_last();
        lemma_lines_between_cover_buffer(head, fewer);
        let before = lines_between(head, fewer);
        assert(before =~= lines.drop_last()) by {
            assert forall|k: int| 0 <= k < before.len() implies before[k] == lines[k] by {
                let from = line_start(cuts, k);
                let to = line_end(cuts, n, k);
                assert(line_start(fewer, k) == from);
                assert(line_end(fewer, head.len() as int, k) == to);
                if k > 0 {
                    assert(cuts[k - 1] < cuts[k]);
                }
                assert(head.subrange(from, to) =~= buf.subrange(from, to));
            }
        }
        assert(lines =~= lines.drop_last().push(lines.last()));
        lines.drop_last().lemma_flatten_push(lines.last());
        assert(lines.last() == buf.subrange(last_cut, n));
        assert(head + buf.subrange(last_cut, n) =~= buf);
        assert forall|k: int| 0 <= k < lines.len() implies (#[trigger] lines[k]).len() > 0 by {
            if k < lines.len() - 1 {
                assert(lines[k] == before[k]);
            }
        }
    }
}

/// Cutting at pauses loses nothing: the lines put one after the other are the
/// buffer again, and no line is empty.
pub proof fn lemma_silence_lines_cover_buffer(buf: Seq<i16>, threshold: nat)
    ensures
        silence_lines(buf, threshold).flatten() == buf,
        forall|k: int|
            0 <= k < silence_lines(buf, threshold).len() ==> (#[trigger] silence_lines(
                buf,
                threshold,
            )[k]).len() > 0,
{
    lemma_cuts_below(buf, threshold, buf.len() as int);
    lemma_lines_between_cover_buffer(buf, cut_points(buf, threshold));
}

/// A buffer without a single zero sample is not cut at all.
pub proof fn lemma_no_silence_one_line(buf: Seq<i16>, threshold: nat)
    requires
        buf.len() > 0,
        forall|i: int| 0 <= i < buf.len() ==> buf[i] != 0,
    ensures
        silence_lines(buf, threshold) == seq![buf],
{
    lemma_no_cut_near_end(buf, threshold, 0, buf.len() as int);
    assert(silence_lines(buf, threshold)[0] =~= buf);
    assert(silence_lines(buf, threshold) =~= seq![buf]);
}

/// Samples as the recognizer takes them: a sample that could not be decoded
/// counts as silence.
pub open spec fn silenced(decoded: Seq<Option<i16>>) -> Seq<i16> {
    Seq::new(
        decoded.len(),
        |i: int|
            match decoded[i] {
                Some(sample) => sample,
                None => 0i16,
            },
    )
}

/// Where the newest `window_len` samples of a recording of `duration` samples
/// begin. A recording that is shorter is taken from its start.
pub open spec fn tail_start(duration: nat, window_len: nat) -> nat {
    if duration >= window_len {
        (duration - window_len) as nat
    } else {
        0
    }
}

/// Where to begin reading so as to get the newest `window_len` samples of a
/// recording that holds `duration` samples.
pub fn tail_cursor(duration: usize, window_len: usize) -> (cursor: usize)
    ensures
        cursor == tail_start(duration as nat, window_len as nat),
{
    if duration >= window_len {
        duration - window_len
    } else {
        0
    }
}

/// The decoded samples from `from` on, with silence for each sample that could
/// not be decoded.
fn silenced_from(decoded: &Vec<Option<i16>>, from: usize) -> (samples: Vec<i16>)
    requires
        from <= decoded@.len(),
    ensures
        samples@ == silenced(decoded@).skip(from as int),
{
    let mut samples: Vec<i16> = Vec::new();
    let mut i: usize = from;
    while i < decoded.len()
        invariant
            from <= i <= decoded@.len(),
            samples@ == silenced(decoded@).subrange(from as int, i as int),
        decreases decoded@.len() - i,
    {
        let sample = match decoded[i] {
            Some(sample) => sample,
            None => 0i16,
        };
        samples.push(sample);
        i = i + 1;
        proof {
            assert(samples@ =~= silenced(decoded@).subrange(from as int, i as int));
        }
    }
    proof {
        assert(samples@ =~= silenced(decoded@).skip(from as int));
    }
    samples
}

/// All samples of a recording, as the decoder yields them. A sample that could
/// not be decoded is replaced by silence.
pub fn get_all_samples(decoded: &Vec<Option<i16>>) -> (samples: Vec<i16>)
    ensures
        samples@ == silenced(decoded@),
{
    let samples = silenced_from(decoded, 0);
    proof {
        assert(silenced(decoded@).skip(0) =~= silenced(decoded@));
    }
    samples
}

/// The newest four seconds of a recording that is still growing: what a live
/// round hands to the recognizer. A sample that could not be decoded is
/// replaced by silence.
pub fn get_new_samples(decoded: &Vec<Option<i16>>) -> (samples: Vec<i16>)
    ensures
        samples@ == silenced(decoded@).skip(
            tail_start(decoded@.len(), FOUR_SECONDS as nat) as int,
        ),
{
    silenced_from(decoded, tail_cursor(decoded.len(), FOUR_SECONDS))
}

} // verus!
