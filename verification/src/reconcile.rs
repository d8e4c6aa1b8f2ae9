//! Keeping only the words of a transcript that have settled.
//!
//! A recognizer that is asked again after more audio has arrived returns the
//! whole transcript so far, and often revises the word it was in the middle
//! of. So the last word of a transcript is never shown: a text is confirmed
//! up to its last space, and each round confirms what lies between the last
//! space of the previous text and the last space of the new one.

use vstd::prelude::*;
use vstd::string::StrSliceExecFns;

verus! {

/// The position of the last space of `text`, or -1 where it has none.
pub open spec fn last_space(text: Seq<char>) -> int
    decreases text.len(),
{
    if text.len() == 0 {
        -1
    } else if text.last() == ' ' {
        text.len() - 1
    } else {
        last_space(text.drop_last())
    }
}

/// Where the unsettled last word of `text` begins: at its last space. A text
/// without a space is one unsettled word, which begins at position 0.
pub open spec fn boundary(text: Seq<char>) -> int {
    if last_space(text) < 0 {
        0
    } else {
        last_space(text)
    }
}

/// The part of `text` that has settled: all before its last space. Of a text
/// without a space nothing has settled.
pub open spec fn stable_part(text: Seq<char>) -> Seq<char> {
    text.take(boundary(text))
}

/// What the new text holds from the boundary of the previous text on. A new
/// text that ends before that boundary holds nothing there.
pub open spec fn candidate(prev: Seq<char>, new: Seq<char>) -> Seq<char> {
    if boundary(prev) <= new.len() {
        new.skip(boundary(prev))
    } else {
        Seq::empty()
    }
}

/// What a round confirms: the candidate without its own unsettled last word.
pub open spec fn confirmed_suffix(prev: Seq<char>, new: Seq<char>) -> Seq<char> {
    stable_part(candidate(prev, new))
}

/// What a run of rounds confirms in all, beginning with `prev` as the text
/// seen before the first of them.
pub open spec fn confirmed_run(prev: Seq<char>, texts: Seq<Seq<char>>) -> Seq<char>
    decreases texts.len(),
{
    if texts.len() == 0 {
        Seq::empty()
    } else {
        confirmed_suffix(prev, texts.first()) + confirmed_run(texts.first(), texts.drop_first())
    }
}

/// The text that a state holds before the first round: a single space, so that
/// the first candidate is the whole first text.
pub open spec fn initial_text() -> Seq<char> {
    seq![' ']
}

/// `last_space` is the position of a space after which no space follows.
pub proof fn lemma_last_space(text: Seq<char>)
    ensures
        -1 <= last_space(text) < text.len(),
        last_space(text) >= 0 ==> text[last_space(text)] == ' ',
        forall|j: int| last_space(text) < j < text.len() ==> text[j] != ' ',
    decreases text.len(),
{
    if text.len() > 0 && text.last() != ' ' {
        let head = text.drop_last();
        lemma_last_space(head);
        assert forall|j: int| last_space(text) < j < text.len() implies text[j] != ' ' by {
            if j < head.len() {
                assert(head[j] == text[j]);
            }
        }
    }
}

/// A position that holds a space, with none after it, is the last space.
pub proof fn lemma_last_space_is(text: Seq<char>, k: int)
    requires
        -1 <= k < text.len(),
        k >= 0 ==> text[k] == ' ',
        forall|j: int| k < j < text.len() ==> text[j] != ' ',
    ensures
        last_space(text) == k,
{
    lemma_last_space(text);
}

/// The last space of what follows position `from`, in terms of the last space
/// of the whole text.
proof fn lemma_last_space_skip(text: Seq<char>, from: int)
    requires
        0 <= from <= text.len(),
    ensures
        last_space(text.skip(from)) == if last_space(text) >= from {
            last_space(text) - from
        } else {
            -1
        },
{
    lemma_last_space(text);
    let k = if last_space(text) >= from {
        last_space(text) - from
    } else {
        -1
    };
    lemma_last_space_is(text.skip(from), k);
}

/// A state that has seen no text yet confirms all that has settled of the
/// first text.
pub proof fn lemma_first_round(new: Seq<char>)
    ensures
        confirmed_suffix(initial_text(), new) == stable_part(new),
{
    lemma_last_space_is(initial_text(), 0);
    lemma_last_space_skip(new, 0);
    assert(new.skip(0) =~= new);
}

/// Where the new text continues the previous one, the round confirms exactly
/// what has settled since: nothing that was confirmed before comes again, and
/// nothing that has settled is left out.
pub proof fn lemma_round_confirms_only_new(prev: Seq<char>, new: Seq<char>)
    requires
        prev.is_prefix_of(new),
    ensures
        stable_part(prev) + confirmed_suffix(prev, new) == stable_part(new),
{
    lemma_last_space(prev);
    lemma_last_space(new);
    let from = boundary(prev);
    assert(last_space(new) >= last_space(prev)) by {
        if last_space(prev) >= 0 {
            assert(new[last_space(prev)] == prev[last_space(prev)]);
        }
    }
    lemma_last_space_skip(new, from);
    assert(stable_part(prev) =~= new.take(from));
    if last_space(new) >= 0 {
        assert(new.take(from) + new.skip(from).take(last_space(new) - from) =~= new.take(
            last_space(new),
        ));
    } else {
        assert(stable_part(prev) + confirmed_suffix(prev, new) =~= stable_part(new));
    }
}

/// A text that comes a second time confirms nothing: what it had to confirm
/// was confirmed the first time.
pub proof fn lemma_same_text_confirms_nothing(text: Seq<char>)
    ensures
        confirmed_suffix(text, text) == Seq::<char>::empty(),
{
    lemma_round_confirms_only_new(text, text);
    assert(confirmed_suffix(text, text).len() == 0) by {
        assert((stable_part(text) + confirmed_suffix(text, text)).len() == stable_part(text).len());
    }
    assert(confirmed_suffix(text, text) =~= Seq::<char>::empty());
}

/// Texts of which each continues the one before: all that the rounds confirm,
/// put together in order, is what has settled of the last text. No word is
/// shown twice, and none out of order.
pub proof fn lemma_cumulative_texts_never_repeat(prev: Seq<char>, texts: Seq<Seq<char>>)
    requires
        texts.len() > 0,
        prev == initial_text() || prev.is_prefix_of(texts.first()),
        forall|i: int| 0 <= i < texts.len() - 1 ==> (#[trigger] texts[i]).is_prefix_of(texts[i + 1]),
    ensures
        prev == initial_text() ==> confirmed_run(prev, texts) == stable_part(texts.last()),
        prev.is_prefix_of(texts.first()) ==> stable_part(prev) + confirmed_run(prev, texts)
            == stable_part(texts.last()),
    decreases texts.len(),
{
    let first = texts.first();
    let rest = texts.drop_first();
    if prev == initial_text() {
        lemma_first_round(first);
    }
    if prev.is_prefix_of(first) {
        lemma_round_confirms_only_new(prev, first);
    }
    if rest.len() == 0 {
        assert(confirmed_run(first, rest) =~= Seq::<char>::empty());
        assert(confirmed_run(prev, texts) =~= confirmed_suffix(prev, first));
    } else {
        assert(texts[0].is_prefix_of(texts[1]));
        assert(rest.first() == texts[1]);
        assert(rest.last() == texts.last());
        assert forall|i: int| 0 <= i < rest.len() - 1 implies (#[trigger] rest[i]).is_prefix_of(
            rest[i + 1],
        ) by {
            assert(texts[i + 1].is_prefix_of(texts[i + 2]));
        }
        lemma_cumulative_texts_never_repeat(first, rest);
        assert(stable_part(prev) + (confirmed_suffix(prev, first) + confirmed_run(first, rest))
            =~= (stable_part(prev) + confirmed_suffix(prev, first)) + confirmed_run(first, rest));
    }
}

/// The position of the last space of `text`, if it has one.
pub fn find_last_space(text: &str) -> (r: Option<usize>)
    ensures
        match r {
            Some(i) => i as int == last_space(text@),
            None => last_space(text@) == -1,
        },
{
    let mut found: Option<usize> = None;
    let mut n: usize = 0;
    let total = text.unicode_len();
    for c in it: text.chars()
        invariant
            it.seq() == text@,
            total == text@.len(),
            n == it.index(),
            match found {
                Some(i) => i as int == last_space(text@.take(n as int)),
                None => last_space(text@.take(n as int)) == -1,
            },
    {
        proof {
            assert(text@.take(n + 1).drop_last() =~= text@.take(n as int));
        }
        if c == ' ' {
            found = Some(n);
        }
        n = n + 1;
    }
    proof {
        assert(text@.take(n as int) =~= text@);
    }
    found
}

/// What the reconciler remembers between rounds: the full text that the
/// recognizer returned last. One state serves one recognition session.
pub struct TranscriptState {
    prev: String,
}

impl View for TranscriptState {
    type V = Seq<char>;

    closed spec fn view(&self) -> Seq<char> {
        self.prev@
    }
}

impl TranscriptState {
    /// The state before the first round.
    pub fn new() -> (state: TranscriptState)
        ensures
            state@ == initial_text(),
    {
        proof {
            reveal_strlit(" ");
            assert(" "@ =~= initial_text());
        }
        TranscriptState { prev: " ".to_owned() }
    }

    /// The full text seen last.
    pub fn previous_text(&self) -> (text: &str)
        ensures
            text@ == self@,
    {
        self.prev.as_str()
    }
}

/// Takes the recognizer's new full text and returns what it confirms: the text
/// from the last space of the previous text up to the last space of the new
/// one. The result is empty where nothing has settled since; that is no error.
/// The new text replaces the previous one in `state`.
pub fn reconcile(state: &mut TranscriptState, new_full_text: String) -> (confirmed: String)
    ensures
        final(state)@ == new_full_text@,
        confirmed@ == confirmed_suffix(old(state)@, new_full_text@),
{
    let from = match find_last_space(state.prev.as_str()) {
        Some(i) => i,
        None => 0,
    };
    let confirmed = match find_last_space(new_full_text.as_str()) {
        Some(to) => {
            if from <= to {
                proof {
                    lemma_last_space(new_full_text@);
                    lemma_last_space_skip(new_full_text@, from as int);
                    assert(new_full_text@.skip(from as int).take(to - from)
                        =~= new_full_text@.subrange(from as int, to as int));
                }
                new_full_text.as_str().substring_char(from, to).to_owned()
            } else {
                proof {
                    lemma_last_space(new_full_text@);
                    if from <= new_full_text@.len() {
                        lemma_last_space_skip(new_full_text@, from as int);
                    }
                    assert(confirmed_suffix(state@, new_full_text@) =~= Seq::<char>::empty());
                }
                String::new()
            }
        },
        None => {
            proof {
                if from <= new_full_text@.len() {
                    lemma_last_space_skip(new_full_text@, from as int);
                }
                assert(confirmed_suffix(state@, new_full_text@) =~= Seq::<char>::empty());
            }
            String::new()
        },
    };
    state.prev = new_full_text;
    confirmed
}

} // verus!
