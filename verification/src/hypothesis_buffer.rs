//! LocalAgreement-2 hypothesis buffer.
//!
//! The recogniser is run again and again on overlapping audio. The buffer commits a word the
//! moment two consecutive hypotheses agree on it and on everything before it.
use vstd::prelude::*;

use crate::text::{contents, join, join_spec};
use crate::time::{representable, Seconds};

verus! {

/// A word that starts this much before the last committed time is still taken, in ticks (0.1 s).
pub const START_TOLERANCE: i128 = 1_600;

/// A hypothesis that starts closer than this to the last committed time is searched for words
/// that were committed before, in ticks (1 s).
pub const OVERLAP_WINDOW: i128 = 16_000;

/// The longest run of repeated words that is looked for.
pub const MAX_NGRAM: usize = 5;

/// One recognised word with its place on the time line.
#[derive(Debug, PartialEq)]
pub struct Word {
    pub start: Seconds,
    pub end: Seconds,
    pub text: String,
}

/// What a [`Word`] says: its times in ticks and its characters.
pub struct WordView {
    pub start: int,
    pub end: int,
    pub text: Seq<char>,
}

impl View for Word {
    type V = WordView;

    open spec fn view(&self) -> WordView {
        WordView { start: self.start@, end: self.end@, text: self.text@ }
    }
}

impl Clone for Word {
    fn clone(&self) -> (r: Self)
        ensures
            r == *self,
    {
        Word { start: self.start, end: self.end, text: self.text.clone() }
    }
}

/// What a sequence of words says.
pub open spec fn words_view(words: Seq<Word>) -> Seq<WordView> {
    Seq::new(words.len(), |i: int| words[i]@)
}

/// The texts of a sequence of words.
pub open spec fn texts(words: Seq<WordView>) -> Seq<Seq<char>> {
    Seq::new(words.len(), |i: int| words[i].text)
}

/// Copies a list of words.
pub fn clone_words(words: &Vec<Word>) -> (r: Vec<Word>)
    ensures
        r@ == words@,
{
    let mut r: Vec<Word> = Vec::new();
    let mut i: usize = 0;
    while i < words.len()
        invariant
            i <= words@.len(),
            r@ == words@.subrange(0, i as int),
        decreases words@.len() - i,
    {
        r.push(words[i].clone());
        assert(r@ == words@.subrange(0, i + 1));
        i = i + 1;
    }
    assert(words@.subrange(0, words@.len() as int) == words@);
    r
}

/// `words` moved later by `offset` ticks.
pub open spec fn shifted(words: Seq<WordView>, offset: int) -> Seq<WordView> {
    Seq::new(
        words.len(),
        |i: int|
            WordView {
                start: words[i].start + offset,
                end: words[i].end + offset,
                text: words[i].text,
            },
    )
}

/// Whether every time of `words`, moved by `offset`, can still be held.
pub open spec fn shiftable(words: Seq<WordView>, offset: int) -> bool {
    forall|i: int|
        0 <= i < words.len() ==> representable((#[trigger] words[i]).start + offset)
            && representable(words[i].end + offset)
}

/// Selects the words that start later than 0.1 s before `last_committed_time`.
pub open spec fn starts_after(last_committed_time: int) -> spec_fn(WordView) -> bool {
    |w: WordView| w.start > last_committed_time - START_TOLERANCE
}

/// Whether the last `n` committed words and the first `n` words of `fresh` read the same when
/// each run is written with single spaces.
pub open spec fn repeats(committed: Seq<WordView>, fresh: Seq<WordView>, n: int) -> bool {
    join_spec(texts(committed.subrange(committed.len() - n, committed.len() as int)), seq![' '])
        == join_spec(texts(fresh.subrange(0, n)), seq![' '])
}

/// The greatest number in `1..=n` of words that [`repeats`], or 0.
pub open spec fn longest_repeat(committed: Seq<WordView>, fresh: Seq<WordView>, n: int) -> int
    decreases n,
{
    if n <= 0 {
        0
    } else if repeats(committed, fresh, n) {
        n
    } else {
        longest_repeat(committed, fresh, n - 1)
    }
}

/// The longest run that is looked for at the seam between `committed` and `fresh`.
pub open spec fn ngram_limit(committed: Seq<WordView>, fresh: Seq<WordView>) -> int {
    let shorter = if committed.len() <= fresh.len() {
        committed.len() as int
    } else {
        fresh.len() as int
    };
    if shorter <= MAX_NGRAM {
        shorter
    } else {
        MAX_NGRAM as int
    }
}

/// How many words at the head of `fresh` were committed before.
pub open spec fn overlap(
    committed: Seq<WordView>,
    fresh: Seq<WordView>,
    last_committed_time: int,
) -> int {
    if fresh.len() > 0 && -OVERLAP_WINDOW < fresh[0].start - last_committed_time < OVERLAP_WINDOW
        && committed.len() > 0 {
        longest_repeat(committed, fresh, ngram_limit(committed, fresh))
    } else {
        0
    }
}

/// How many words at the start of `a` and `b` agree in their texts, given that the first `i` do.
pub open spec fn agreed_from(a: Seq<WordView>, b: Seq<WordView>, i: int) -> int
    decreases a.len() - i,
{
    if 0 <= i < a.len() && i < b.len() && a[i].text == b[i].text {
        agreed_from(a, b, i + 1)
    } else {
        i
    }
}

/// The length of the longest common prefix of `a` and `b`, compared by text.
pub open spec fn agreed(a: Seq<WordView>, b: Seq<WordView>) -> int {
    agreed_from(a, b, 0)
}

/// How many words at the start of `words`, from the `i`-th on, end at or before `time`.
pub open spec fn ended_from(words: Seq<WordView>, time: int, i: int) -> int
    decreases words.len() - i,
{
    if 0 <= i < words.len() && words[i].end <= time {
        ended_from(words, time, i + 1)
    } else {
        i
    }
}

/// [`ended_from`] counts a prefix: every word in it ends by `time`, and the next one does not.
pub proof fn lemma_ended_from(words: Seq<WordView>, time: int, i: int)
    requires
        0 <= i <= words.len(),
    ensures
        i <= ended_from(words, time, i) <= words.len(),
        forall|j: int| i <= j < ended_from(words, time, i) ==> (#[trigger] words[j]).end <= time,
        ended_from(words, time, i) < words.len() ==> words[ended_from(words, time, i)].end > time,
    decreases words.len() - i,
{
    if i < words.len() && words[i].end <= time {
        lemma_ended_from(words, time, i + 1);
    }
}

/// What a [`HypothesisBuffer`] holds.
#[verifier::ext_equal]
pub struct BufferView {
    pub committed_in_buffer: Seq<WordView>,
    pub buffer: Seq<WordView>,
    pub new: Seq<WordView>,
    pub last_committed_time: int,
    pub last_committed_word: Option<Seq<char>>,
}

impl BufferView {
    /// A buffer that holds nothing and whose time line begins at `time`.
    pub open spec fn starting_at(time: int) -> BufferView {
        BufferView {
            committed_in_buffer: Seq::empty(),
            buffer: Seq::empty(),
            new: Seq::empty(),
            last_committed_time: time,
            last_committed_word: None,
        }
    }

    /// The words of a hypothesis that lie after the committed text.
    pub open spec fn fresh(self, words: Seq<WordView>, offset: int) -> Seq<WordView> {
        shifted(words, offset).filter(starts_after(self.last_committed_time))
    }

    /// The hypothesis as it is staged: moved by `offset`, without words of the past and without
    /// the words at its head that repeat committed ones.
    pub open spec fn staged(self, words: Seq<WordView>, offset: int) -> Seq<WordView> {
        let fresh = self.fresh(words, offset);
        fresh.subrange(
            overlap(self.committed_in_buffer, fresh, self.last_committed_time),
            fresh.len() as int,
        )
    }

    /// The buffer after a hypothesis is staged.
    pub open spec fn inserted(self, words: Seq<WordView>, offset: int) -> BufferView {
        BufferView { new: self.staged(words, offset), ..self }
    }

    /// The words that the staged hypothesis and the one before it agree on.
    pub open spec fn agreement(self) -> Seq<WordView> {
        self.new.subrange(0, agreed(self.new, self.buffer))
    }

    /// The buffer after the agreed words are committed.
    pub open spec fn flushed(self) -> BufferView {
        let commit = self.agreement();
        BufferView {
            committed_in_buffer: self.committed_in_buffer + commit,
            buffer: self.new.subrange(commit.len() as int, self.new.len() as int),
            new: Seq::empty(),
            last_committed_time: if commit.len() > 0 {
                commit.last().end
            } else {
                self.last_committed_time
            },
            last_committed_word: if commit.len() > 0 {
                Some(commit.last().text)
            } else {
                self.last_committed_word
            },
        }
    }

    /// The buffer without the leading committed words that ended at or before `time`.
    pub open spec fn popped(self, time: int) -> BufferView {
        BufferView {
            committed_in_buffer: self.committed_in_buffer.subrange(
                ended_from(self.committed_in_buffer, time, 0),
                self.committed_in_buffer.len() as int,
            ),
            ..self
        }
    }

    /// The buffer with its last committed time at `time` or later.
    pub open spec fn advanced(self, time: int) -> BufferView {
        BufferView {
            last_committed_time: if self.last_committed_time < time {
                time
            } else {
                self.last_committed_time
            },
            ..self
        }
    }
}

/// Rolling buffer that turns a sequence of overlapping hypotheses into a growing stream of
/// committed words.
pub struct HypothesisBuffer {
    /// Committed words that are still inside the current audio window.
    pub committed_in_buffer: Vec<Word>,
    /// The hypothesis that the next one is compared with.
    pub buffer: Vec<Word>,
    /// The hypothesis that was staged last.
    pub new: Vec<Word>,
    /// End time of the last committed word.
    pub last_committed_time: Seconds,
    /// Text of the last committed word.
    pub last_committed_word: Option<String>,
}

impl View for HypothesisBuffer {
    type V = BufferView;

    open spec fn view(&self) -> BufferView {
        BufferView {
            committed_in_buffer: words_view(self.committed_in_buffer@),
            buffer: words_view(self.buffer@),
            new: words_view(self.new@),
            last_committed_time: self.last_committed_time@,
            last_committed_word: match self.last_committed_word {
                Some(text) => Some(text@),
                None => None,
            },
        }
    }
}

impl Default for HypothesisBuffer {
    fn default() -> (r: Self)
        ensures
            r@ == BufferView::starting_at(0),
    {
        HypothesisBuffer::new()
    }
}

/// Moves every word later by `offset` and keeps those that start later than 0.1 s before
/// `last_committed_time`.
fn shift_and_filter(words: Vec<Word>, offset: Seconds, last_committed_time: Seconds) -> (r: Vec<Word>)
    requires
        shiftable(words_view(words@), offset@),
    ensures
        words_view(r@) == shifted(words_view(words@), offset@).filter(
            starts_after(last_committed_time@),
        ),
{
    let ghost all = shifted(words_view(words@), offset@);
    let ghost keep = starts_after(last_committed_time@);
    let mut r: Vec<Word> = Vec::new();
    let mut i: usize = 0;
    proof {
        reveal(Seq::filter);
    }
    assert(words_view(r@) == all.subrange(0, 0).filter(keep));
    while i < words.len()
        invariant
            i <= words@.len(),
            shiftable(words_view(words@), offset@),
            all == shifted(words_view(words@), offset@),
            keep == starts_after(last_committed_time@),
            words_view(r@) == all.subrange(0, i as int).filter(keep),
        decreases words@.len() - i,
    {
        assert(words_view(words@)[i as int] == words@[i as int]@);
        let start: i128 = words[i].start.ticks + offset.ticks;
        let end: i128 = words[i].end.ticks + offset.ticks;
        let ghost before = r@;
        proof {
            reveal(Seq::filter);
            assert(all.subrange(0, i + 1).drop_last() == all.subrange(0, i as int));
        }
        if last_committed_time.ticks < i128::MIN + START_TOLERANCE || start
            > last_committed_time.ticks - START_TOLERANCE {
            let w: Word = Word {
                start: Seconds { ticks: start },
                end: Seconds { ticks: end },
                text: words[i].text.clone(),
            };
            r.push(w);
            assert(words_view(r@) == words_view(before).push(all[i as int]));
        }
        i = i + 1;
    }
    assert(all.subrange(0, all.len() as int) == all);
    r
}

/// Joins the texts of `words[from..to]` with single spaces.
fn joined_texts(words: &Vec<Word>, from: usize, to: usize) -> (r: String)
    requires
        from <= to <= words@.len(),
    ensures
        r@ == join_spec(texts(words_view(words@).subrange(from as int, to as int)), seq![' ']),
{
    let mut parts: Vec<String> = Vec::new();
    let mut i: usize = from;
    while i < to
        invariant
            from <= i <= to <= words@.len(),
            parts@.len() == i - from,
            forall|j: int| 0 <= j < i - from ==> (#[trigger] parts@[j])@ == words@[from + j].text@,
        decreases to - i,
    {
        parts.push(words[i].text.clone());
        i = i + 1;
    }
    proof {
        reveal_strlit(" ");
        assert(" "@ == seq![' ']);
        assert(contents(parts@) == texts(words_view(words@).subrange(from as int, to as int)));
    }
    join(&parts, " ")
}

/// How many words at the head of `fresh` repeat the last committed ones: the longest run counts.
fn find_overlap(committed: &Vec<Word>, fresh: &Vec<Word>, last_committed_time: Seconds) -> (r: usize)
    ensures
        r == overlap(words_view(committed@), words_view(fresh@), last_committed_time@),
        r <= fresh@.len(),
{
    if fresh.len() == 0 || committed.len() == 0 {
        return 0;
    }
    let near: bool = within_window(fresh[0].start, last_committed_time);
    assert(words_view(fresh@)[0] == fresh@[0]@);
    if !near {
        return 0;
    }
    let mut n: usize = if committed.len() <= fresh.len() {
        committed.len()
    } else {
        fresh.len()
    };
    if n > MAX_NGRAM {
        n = MAX_NGRAM;
    }
    let ghost limit = n as int;
    while n > 0
        invariant_except_break
            longest_repeat(words_view(committed@), words_view(fresh@), limit) == longest_repeat(
                words_view(committed@),
                words_view(fresh@),
                n as int,
            ),
        invariant
            n <= limit,
            limit <= committed@.len(),
            limit <= fresh@.len(),
        ensures
            n == longest_repeat(words_view(committed@), words_view(fresh@), limit),
        decreases n,
    {
        let tail: String = joined_texts(committed, committed.len() - n, committed.len());
        let head: String = joined_texts(fresh, 0, n);
        if tail == head {
            break;
        }
        n = n - 1;
    }
    n
}

/// Whether `a` and `b` are less than one second apart.
fn within_window(a: Seconds, b: Seconds) -> (r: bool)
    ensures
        r == (-OVERLAP_WINDOW < a@ - b@ < OVERLAP_WINDOW),
{
    if a.ticks >= b.ticks {
        b.ticks > i128::MAX - OVERLAP_WINDOW || a.ticks < b.ticks + OVERLAP_WINDOW
    } else {
        a.ticks > i128::MAX - OVERLAP_WINDOW || b.ticks < a.ticks + OVERLAP_WINDOW
    }
}

impl HypothesisBuffer {
    /// An empty buffer whose time line begins at zero.
    pub fn new() -> (r: Self)
        ensures
            r@ == BufferView::starting_at(0),
    {
        let r = HypothesisBuffer {
            committed_in_buffer: Vec::new(),
            buffer: Vec::new(),
            new: Vec::new(),
            last_committed_time: Seconds { ticks: 0 },
            last_committed_word: None,
        };
        assert(r@ =~= BufferView::starting_at(0));
        r
    }

    /// Stages a new hypothesis. `offset` is added to every word's times.
    ///
    /// Words that start at or before `last_committed_time` - 0.1 s are dropped: they would emit
    /// committed audio again. Where the first word that is left starts within one second of
    /// `last_committed_time`, the longest run of at most five words at its head that reads like
    /// the tail of `committed_in_buffer` is dropped too: the recogniser's prompt drags committed
    /// words back into its output.
    pub fn insert(&mut self, new: Vec<Word>, offset: Seconds)
        requires
            shiftable(words_view(new@), offset@),
        ensures
            final(self)@ == old(self)@.inserted(words_view(new@), offset@),
    {
        let mut fresh: Vec<Word> = shift_and_filter(new, offset, self.last_committed_time);
        let n: usize = find_overlap(&self.committed_in_buffer, &fresh, self.last_committed_time);
        let ghost all = fresh@;
        let staged: Vec<Word> = fresh.split_off(n);
        assert(words_view(staged@) == words_view(all).subrange(n as int, all.len() as int));
        self.new = staged;
        assert(self@ =~= old(self)@.inserted(words_view(new@), offset@));
    }

    /// Commits the longest common prefix of the staged hypothesis and the one before it.
    ///
    /// A word is emitted only after it has appeared in the same place in two consecutive
    /// hypotheses. What is left of the staged hypothesis is kept for the next comparison.
    pub fn flush(&mut self) -> (commit: Vec<Word>)
        ensures
            final(self)@ == old(self)@.flushed(),
            words_view(commit@) == old(self)@.agreement(),
    {
        let ghost a = words_view(self.new@);
        let ghost b = words_view(self.buffer@);
        let mut n: usize = 0;
        while n < self.new.len() && n < self.buffer.len() && self.new[n].text == self.buffer[n].text
            invariant
                n <= self.new@.len(),
                n <= self.buffer@.len(),
                a == words_view(self.new@),
                b == words_view(self.buffer@),
                *self == *old(self),
                agreed(a, b) == agreed_from(a, b, n as int),
            decreases self.new@.len() - n,
        {
            assert(a[n as int].text == b[n as int].text);
            n = n + 1;
        }
        assert(agreed(a, b) == n);
        let mut commit: Vec<Word> = self.new.split_off(0);
        let rest: Vec<Word> = commit.split_off(n);
        assert(words_view(commit@) == a.subrange(0, n as int));
        assert(words_view(rest@) == a.subrange(n as int, a.len() as int));
        let mut added: Vec<Word> = clone_words(&commit);
        let ghost kept = self.committed_in_buffer@;
        self.committed_in_buffer.append(&mut added);
        assert(words_view(self.committed_in_buffer@) == words_view(kept) + words_view(commit@));
        if n > 0 {
            assert(words_view(commit@).last() == commit@[n - 1]@);
            self.last_committed_time = commit[n - 1].end;
            self.last_committed_word = Some(commit[n - 1].text.clone());
        }
        self.buffer = rest;
        assert(words_view(self.new@) == Seq::<WordView>::empty());
        assert(self@ =~= old(self)@.flushed());
        commit
    }

    /// Drops the leading committed words that ended at or before `time`.
    pub fn pop_committed(&mut self, time: Seconds)
        ensures
            final(self)@ == old(self)@.popped(time@),
    {
        let ghost all = words_view(self.committed_in_buffer@);
        let mut n: usize = 0;
        while n < self.committed_in_buffer.len() && self.committed_in_buffer[n].end.ticks
            <= time.ticks
            invariant
                n <= self.committed_in_buffer@.len(),
                all == words_view(self.committed_in_buffer@),
                *self == *old(self),
                ended_from(all, time@, 0) == ended_from(all, time@, n as int),
            decreases self.committed_in_buffer@.len() - n,
        {
            assert(all[n as int].end <= time@);
            n = n + 1;
        }
        let rest: Vec<Word> = self.committed_in_buffer.split_off(n);
        assert(words_view(rest@) == all.subrange(n as int, all.len() as int));
        self.committed_in_buffer = rest;
        assert(self@ =~= old(self)@.popped(time@));
    }

    /// The hypothesis that is kept for the next comparison.
    pub fn complete(&self) -> (r: Vec<Word>)
        ensures
            words_view(r@) == self@.buffer,
    {
        clone_words(&self.buffer)
    }

    /// Takes the hypothesis that is kept for the next comparison out of the buffer.
    pub fn drain_complete(&mut self) -> (r: Vec<Word>)
        ensures
            words_view(r@) == old(self)@.buffer,
            final(self)@ == (BufferView { buffer: Seq::empty(), ..old(self)@ }),
    {
        let r: Vec<Word> = self.buffer.split_off(0);
        assert(r@ == old(self).buffer@);
        assert(words_view(self.buffer@) == Seq::<WordView>::empty());
        assert(self@ =~= (BufferView { buffer: Seq::empty(), ..old(self)@ }));
        r
    }

    /// Empties the buffer and lets its time line begin at `time`.
    pub fn reset_to_time(&mut self, time: Seconds)
        ensures
            final(self)@ == BufferView::starting_at(time@),
    {
        self.committed_in_buffer = Vec::new();
        self.buffer = Vec::new();
        self.new = Vec::new();
        self.last_committed_time = time;
        self.last_committed_word = None;
        assert(self@ =~= BufferView::starting_at(time@));
    }

    /// Moves the last committed time forward to `time`, never back.
    pub fn advance_last_committed_time(&mut self, time: Seconds)
        ensures
            final(self)@ == old(self)@.advanced(time@),
    {
        if self.last_committed_time.ticks < time.ticks {
            self.last_committed_time = time;
        }
        assert(self@ =~= old(self)@.advanced(time@));
    }
}

} // verus!
