//! Caption entries, their timestamps and their layout as SubRip blocks.
//!
//! A block is the entry's number, a line with its begin and end time as
//! `HH:MM:SS,mmm --> HH:MM:SS,mmm`, the caption, and a blank line.

use vstd::prelude::*;
use vstd::string::StringExecFns;

verus! {

/// Milliseconds in an hour.
pub const MS_PER_HOUR: u128 = 3600000;

/// Milliseconds in a minute.
pub const MS_PER_MINUTE: u128 = 60000;

/// Milliseconds in a second.
pub const MS_PER_SECOND: u128 = 1000;

/// The character of a decimal digit.
pub open spec fn digit_char(d: int) -> char {
    if d == 0 {
        '0'
    } else if d == 1 {
        '1'
    } else if d == 2 {
        '2'
    } else if d == 3 {
        '3'
    } else if d == 4 {
        '4'
    } else if d == 5 {
        '5'
    } else if d == 6 {
        '6'
    } else if d == 7 {
        '7'
    } else if d == 8 {
        '8'
    } else {
        '9'
    }
}

/// A number written in decimal digits, without leading zeros.
pub open spec fn decimal(n: nat) -> Seq<char>
    decreases n,
{
    if n < 10 {
        seq![digit_char(n as int)]
    } else {
        decimal(n / 10).push(digit_char((n % 10) as int))
    }
}

/// A run of `count` zero digits.
pub open spec fn zeros(count: nat) -> Seq<char> {
    Seq::new(count, |i: int| '0')
}

/// A number written in decimal digits, with zeros in front where it has fewer
/// than `width` digits. A number with more digits is written out in full.
pub open spec fn zero_padded(n: nat, width: nat) -> Seq<char> {
    if decimal(n).len() >= width {
        decimal(n)
    } else {
        zeros((width - decimal(n).len()) as nat) + decimal(n)
    }
}

/// A time in milliseconds as hours, minutes, seconds and milliseconds. Each
/// field is cut off, never rounded.
pub open spec fn time_text(ms: nat) -> Seq<char> {
    zero_padded(ms / 3600000, 2) + seq![':'] + zero_padded(ms % 3600000 / 60000, 2) + seq![':']
        + zero_padded(ms % 60000 / 1000, 2) + seq![','] + zero_padded(ms % 1000, 3)
}

/// A decimal number below `10^k` has at most `k` digits, and at least one.
pub proof fn lemma_decimal_len(n: nat)
    ensures
        decimal(n).len() >= 1,
        n < 10 ==> decimal(n).len() == 1,
        10 <= n < 100 ==> decimal(n).len() == 2,
        100 <= n < 1000 ==> decimal(n).len() == 3,
        n >= 1000 ==> decimal(n).len() >= 4,
    decreases n,
{
    if n >= 10 {
        lemma_decimal_len(n / 10);
    }
}

/// Below a hundred hours a time is twelve characters long: two digits each
/// for hours, minutes and seconds, three for milliseconds, and the three
/// separators between them.
pub proof fn lemma_time_text_len(ms: nat)
    ensures
        ms < 360000000 ==> time_text(ms).len() == 12,
        time_text(ms).len() >= 12,
{
    lemma_decimal_len(ms / 3600000);
    lemma_decimal_len(ms % 3600000 / 60000);
    lemma_decimal_len(ms % 60000 / 1000);
    lemma_decimal_len(ms % 1000);
}

/// The text of one decimal digit.
fn digit_str(d: u128) -> (text: &'static str)
    requires
        d < 10,
    ensures
        text@ == seq![digit_char(d as int)],
{
    proof {
        reveal_strlit("0");
        reveal_strlit("1");
        reveal_strlit("2");
        reveal_strlit("3");
        reveal_strlit("4");
        reveal_strlit("5");
        reveal_strlit("6");
        reveal_strlit("7");
        reveal_strlit("8");
        reveal_strlit("9");
        assert("0"@ =~= seq!['0']);
        assert("1"@ =~= seq!['1']);
        assert("2"@ =~= seq!['2']);
        assert("3"@ =~= seq!['3']);
        assert("4"@ =~= seq!['4']);
        assert("5"@ =~= seq!['5']);
        assert("6"@ =~= seq!['6']);
        assert("7"@ =~= seq!['7']);
        assert("8"@ =~= seq!['8']);
        assert("9"@ =~= seq!['9']);
    }
    if d == 0 {
        "0"
    } else if d == 1 {
        "1"
    } else if d == 2 {
        "2"
    } else if d == 3 {
        "3"
    } else if d == 4 {
        "4"
    } else if d == 5 {
        "5"
    } else if d == 6 {
        "6"
    } else if d == 7 {
        "7"
    } else if d == 8 {
        "8"
    } else {
        "9"
    }
}

/// Writes `n` in decimal digits at the end of `out`.
fn push_decimal(out: &mut String, n: u128)
    ensures
        final(out)@ == old(out)@ + decimal(n as nat),
    decreases n,
{
    if n >= 10 {
        push_decimal(out, n / 10);
    }
    out.append(digit_str(n % 10));
    proof {
        if n >= 10 {
            assert(old(out)@ + decimal((n / 10) as nat) + seq![digit_char((n % 10) as int)] =~= old(
                out,
            )@ + decimal(n as nat));
        }
    }
}

/// How many decimal digits `n` has.
fn count_digits(n: u128) -> (count: usize)
    ensures
        count == decimal(n as nat).len(),
        count <= 39,
{
    let mut count: usize = 1;
    let mut rest = n;
    proof {
        lemma_digits_bound(n as nat);
    }
    while rest >= 10
        invariant
            1 <= count,
            decimal(n as nat).len() == decimal(rest as nat).len() + count - 1,
            decimal(n as nat).len() <= 39,
        decreases rest,
    {
        rest = rest / 10;
        count = count + 1;
    }
    count
}

/// Ten to the power `k`.
spec fn pow10(k: nat) -> nat
    decreases k,
{
    if k == 0 {
        1
    } else {
        10 * pow10((k - 1) as nat)
    }
}

/// A number below `10^k` has at most `k` decimal digits.
proof fn lemma_digits_below_pow10(n: nat, k: nat)
    requires
        k >= 1,
        n < pow10(k),
    ensures
        decimal(n).len() <= k,
    decreases k,
{
    if n >= 10 {
        assert(k >= 2) by {
            reveal_with_fuel(pow10, 2);
        }
        lemma_digits_below_pow10(n / 10, (k - 1) as nat);
    }
}

/// No 128-bit number has more than 39 decimal digits.
proof fn lemma_digits_bound(n: nat)
    requires
        n <= u128::MAX,
    ensures
        decimal(n).len() <= 39,
{
    assert(pow10(39) == 1000000000000000000000000000000000000000nat) by {
        reveal_with_fuel(pow10, 40);
    }
    lemma_digits_below_pow10(n, 39);
}

/// Writes `n` at the end of `out`, with zeros in front up to `width` digits.
fn push_padded(out: &mut String, n: u128, width: usize)
    ensures
        final(out)@ == old(out)@ + zero_padded(n as nat, width as nat),
{
    let digits = count_digits(n);
    let mut written: usize = 0;
    if digits < width {
        let missing = width - digits;
        while written < missing
            invariant
                written <= missing,
                out@ == old(out)@ + zeros(written as nat),
            decreases missing - written,
        {
            proof {
                reveal_strlit("0");
                assert(zeros(written as nat) + "0"@ =~= zeros((written + 1) as nat));
                assert(old(out)@ + zeros(written as nat) + "0"@ =~= old(out)@ + (zeros(
                    written as nat,
                ) + "0"@));
            }
            out.append("0");
            written = written + 1;
        }
    } else {
        assert(out@ =~= old(out)@ + zeros(0nat));
    }
    let ghost padded = out@;
    push_decimal(out, n);
    proof {
        if digits < width {
            assert(padded + decimal(n as nat) =~= old(out)@ + (zeros((width - digits) as nat)
                + decimal(n as nat)));
        } else {
            assert(padded + decimal(n as nat) =~= old(out)@ + decimal(n as nat));
        }
    }
}

/// A time in milliseconds as `HH:MM:SS,mmm`. The same time always gives the
/// same text. The hours take as many digits as they need.
pub fn format_time(time: u128) -> (text: String)
    ensures
        text@ == time_text(time as nat),
{
    let (h, rem) = (time / MS_PER_HOUR, time % MS_PER_HOUR);
    let (m, rem) = (rem / MS_PER_MINUTE, rem % MS_PER_MINUTE);
    let (s, ms) = (rem / MS_PER_SECOND, rem % MS_PER_SECOND);
    proof {
        reveal_strlit(":");
        reveal_strlit(",");
        assert(":"@ =~= seq![':']);
        assert(","@ =~= seq![',']);
        let t = time as int;
        assert(t % 3600000 % 60000 == t % 60000) by {
            vstd::arithmetic::div_mod::lemma_mod_mod(t, 60000, 60);
        }
        assert(t % 60000 % 1000 == t % 1000) by {
            vstd::arithmetic::div_mod::lemma_mod_mod(t, 1000, 60);
        }
    }
    let mut text = String::new();
    push_padded(&mut text, h, 2);
    text.append(":");
    push_padded(&mut text, m, 2);
    text.append(":");
    push_padded(&mut text, s, 2);
    text.append(",");
    push_padded(&mut text, ms, 3);
    proof {
        assert(text@ =~= time_text(time as nat));
    }
    text
}

/// The stretch of time during which a caption is shown, in milliseconds.
#[derive(Debug, Clone, Copy, PartialEq, Eq, Structural)]
pub struct Period {
    pub begin: u128,
    pub end: u128,
}

impl Period {
    /// The period from `begin` to `end`.
    pub fn new(begin: u128, end: u128) -> (period: Period)
        ensures
            period.begin == begin,
            period.end == end,
    {
        Period { begin, end }
    }
}

/// The period of the caption that ends at `end_ms` and looks back over one
/// window of `fixed_window_ms`. Near the start of a stream, where a whole
/// window has not passed yet, it begins at 0. The caption's number plays no
/// part in its timing.
#[allow(unused_variables)]
pub fn timestamp_for(index: usize, end_ms: u128, fixed_window_ms: u128) -> (period: Period)
    ensures
        period.end == end_ms,
        period.begin == if end_ms >= fixed_window_ms {
            end_ms - fixed_window_ms
        } else {
            0
        },
{
    if end_ms >= fixed_window_ms {
        Period::new(end_ms - fixed_window_ms, end_ms)
    } else {
        Period::new(0, end_ms)
    }
}

/// What a caption entry holds, as plain values.
pub struct SubtitleView {
    pub index: nat,
    pub begin: nat,
    pub end: nat,
    pub caption: Seq<char>,
}

impl SubtitleView {
    /// Whether the entry can stand in a subtitle file: entries are numbered
    /// from 1, and an entry ends after it has begun.
    pub open spec fn valid(self) -> bool {
        self.index >= 1 && self.begin < self.end
    }
}

/// An entry as it is shown: its number, its period, its caption, each on a
/// line of its own.
pub open spec fn entry_text(entry: SubtitleView) -> Seq<char> {
    decimal(entry.index) + seq!['\n'] + time_text(entry.begin) + seq![' ', '-', '-', '>', ' ']
        + time_text(entry.end) + seq!['\n'] + entry.caption + seq!['\n']
}

/// An entry as it stands in a subtitle file: followed by a blank line.
pub open spec fn block_text(entry: SubtitleView) -> Seq<char> {
    entry_text(entry) + seq!['\n']
}

/// The blocks of a list of entries, one after the other.
pub open spec fn blocks_text(entries: Seq<SubtitleView>) -> Seq<char>
    decreases entries.len(),
{
    if entries.len() == 0 {
        Seq::empty()
    } else {
        blocks_text(entries.drop_last()) + block_text(entries.last())
    }
}

/// Writing two lists one after the other gives what writing them as one list
/// gives: a file grows the same whether entries come one by one or in batches.
pub proof fn lemma_blocks_text_concat(first: Seq<SubtitleView>, second: Seq<SubtitleView>)
    ensures
        blocks_text(first + second) == blocks_text(first) + blocks_text(second),
    decreases second.len(),
{
    if second.len() == 0 {
        assert(first + second =~= first);
        assert(blocks_text(first) + blocks_text(second) =~= blocks_text(first));
    } else {
        lemma_blocks_text_concat(first, second.drop_last());
        assert((first + second).drop_last() =~= first + second.drop_last());
        assert((first + second).last() == second.last());
        assert(blocks_text(first) + blocks_text(second.drop_last()) + block_text(second.last())
            =~= blocks_text(first) + (blocks_text(second.drop_last()) + block_text(second.last())));
    }
}

/// One caption: its number in the file, the period during which it is shown,
/// and its text.
#[derive(Debug, Clone)]
pub struct Subtitle {
    index: usize,
    period: Period,
    caption: String,
}

impl View for Subtitle {
    type V = SubtitleView;

    closed spec fn view(&self) -> SubtitleView {
        SubtitleView {
            index: self.index as nat,
            begin: self.period.begin as nat,
            end: self.period.end as nat,
            caption: self.caption@,
        }
    }
}

/// The entries of a list, as plain values.
pub open spec fn entries_view(entries: Seq<Subtitle>) -> Seq<SubtitleView> {
    Seq::new(entries.len(), |k: int| entries[k]@)
}

impl Subtitle {
    /// The entry with the given number, period and text.
    pub fn new(index: usize, begin: u128, end: u128, caption: String) -> (subtitle: Subtitle)
        ensures
            subtitle@ == (SubtitleView {
                index: index as nat,
                begin: begin as nat,
                end: end as nat,
                caption: caption@,
            }),
    {
        let period = Period::new(begin, end);
        Subtitle { index, period, caption }
    }

    /// The entry's number in the file.
    pub fn index(&self) -> (index: usize)
        ensures
            index == self@.index,
    {
        self.index
    }

    /// The time during which the entry is shown.
    pub fn period(&self) -> (period: Period)
        ensures
            period.begin == self@.begin,
            period.end == self@.end,
    {
        self.period
    }

    /// The entry's text.
    pub fn caption(&self) -> (caption: &str)
        ensures
            caption@ == self@.caption,
    {
        self.caption.as_str()
    }

    /// Whether the entry is numbered from 1 and ends after it has begun.
    pub fn is_valid(&self) -> (valid: bool)
        ensures
            valid == self@.valid(),
    {
        self.index >= 1 && self.period.begin < self.period.end
    }

    /// The entry as it is shown, without the blank line that ends a block.
    pub fn to_string(&self) -> (text: String)
        ensures
            text@ == entry_text(self@),
    {
        let mut text = String::new();
        self.push_entry(&mut text);
        proof {
            assert(Seq::<char>::empty() + entry_text(self@) =~= entry_text(self@));
        }
        text
    }

    /// Writes the entry at the end of `out`, as it is shown.
    fn push_entry(&self, out: &mut String)
        ensures
            final(out)@ == old(out)@ + entry_text(self@),
    {
        proof {
            reveal_strlit("\n");
            reveal_strlit(" --> ");
            assert("\n"@ =~= seq!['\n']);
            assert(" --> "@ =~= seq![' ', '-', '-', '>', ' ']);
        }
        push_decimal(out, self.index as u128);
        out.append("\n");
        out.append(format_time(self.period.begin).as_str());
        out.append(" --> ");
        out.append(format_time(self.period.end).as_str());
        out.append("\n");
        out.append(self.caption.as_str());
        out.append("\n");
        proof {
            assert(out@ =~= old(out)@ + entry_text(self@));
        }
    }

    /// Appends the entry's block to `out`, which holds what the subtitle file
    /// holds so far or what is to be appended to it. What `out` held stays as
    /// it was.
    pub fn write_to(&self, out: &mut String)
        ensures
            final(out)@ == old(out)@ + block_text(self@),
    {
        proof {
            reveal_strlit("\n");
            assert("\n"@ =~= seq!['\n']);
        }
        self.push_entry(out);
        out.append("\n");
        proof {
            assert(out@ =~= old(out)@ + block_text(self@));
        }
    }
}

/// Appends the blocks of all entries to `out`, in order: the same as writing
/// them one by one.
pub fn write_all(entries: &Vec<Subtitle>, out: &mut String)
    ensures
        final(out)@ == old(out)@ + blocks_text(entries_view(entries@)),
{
    let mut k: usize = 0;
    proof {
        assert(entries_view(entries@).take(0) =~= Seq::<SubtitleView>::empty());
        assert(out@ =~= old(out)@ + blocks_text(entries_view(entries@).take(0)));
    }
    while k < entries.len()
        invariant
            0 <= k <= entries@.len(),
            out@ == old(out)@ + blocks_text(entries_view(entries@).take(k as int)),
        decreases entries@.len() - k,
    {
        let ghost written = entries_view(entries@).take(k as int);
        let ghost next = entries_view(entries@).take(k + 1);
        proof {
            assert(next.drop_last() =~= written);
            assert(next.last() == entries@[k as int]@);
            assert(old(out)@ + blocks_text(written) + block_text(entries@[k as int]@) =~= old(out)@
                + blocks_text(next));
        }
        entries[k].write_to(out);
        k = k + 1;
    }
    proof {
        assert(entries_view(entries@).take(k as int) =~= entries_view(entries@));
    }
}

} // verus!
