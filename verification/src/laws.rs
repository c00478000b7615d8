//! What holds of the library as a whole.
use vstd::prelude::*;

use crate::audio::{frame, frame_count, lemma_sum_in_range, scaled_sum, AudioSample};
use crate::hypothesis_buffer::{
    agreed, agreed_from, ended_from, lemma_ended_from, longest_repeat, ngram_limit, overlap,
    repeats, shifted, starts_after, texts, BufferView, WordView, MAX_NGRAM, OVERLAP_WINDOW,
    START_TOLERANCE,
};
use crate::online_asr::{ends_by, fitting, separator, ProcessorView};
use crate::segments::{
    committed_segment_cut, last_end_within, word_of, words_of, words_of_first, SegmentView,
    MIN_WORD_TICKS,
};
use crate::settings::{ConfigView, VadModel};
use crate::text::{join_spec, joined, trim_end, trim_start, trimmed, white_space};

pub mod audio;
pub mod buffer;
pub mod pipeline;
pub mod processor;
pub mod resampler;
pub mod segments;
pub mod settings;
pub mod text;

verus! {

/// Filtering keeps nothing but what satisfies the condition.
proof fn lemma_filter_satisfies(words: Seq<WordView>, keep: spec_fn(WordView) -> bool)
    ensures
        forall|i: int| 0 <= i < words.filter(keep).len() ==> keep(#[trigger] words.filter(keep)[i]),
    decreases words.len(),
{
    reveal(Seq::filter);
    if words.len() > 0 {
        lemma_filter_satisfies(words.drop_last(), keep);
    }
}

proof fn lemma_agreed_from(a: Seq<WordView>, b: Seq<WordView>, i: int)
    requires
        0 <= i <= a.len(),
        i <= b.len(),
    ensures
        i <= agreed_from(a, b, i) <= a.len(),
        agreed_from(a, b, i) <= b.len(),
        forall|j: int| i <= j < agreed_from(a, b, i) ==> (#[trigger] a[j]).text == b[j].text,
        agreed_from(a, b, i) < a.len() && agreed_from(a, b, i) < b.len() ==> a[agreed_from(
            a,
            b,
            i,
        )].text != b[agreed_from(a, b, i)].text,
    decreases a.len() - i,
{
    if i < a.len() && i < b.len() && a[i].text == b[i].text {
        lemma_agreed_from(a, b, i + 1);
    }
}

proof fn lemma_agreed_with_itself(a: Seq<WordView>, i: int)
    requires
        0 <= i <= a.len(),
    ensures
        agreed_from(a, a, i) == a.len(),
    decreases a.len() - i,
{
    if i < a.len() {
        lemma_agreed_with_itself(a, i + 1);
    }
}

proof fn lemma_longest_repeat(committed: Seq<WordView>, fresh: Seq<WordView>, n: int)
    requires
        n >= 0,
    ensures
        0 <= longest_repeat(committed, fresh, n) <= n,
        longest_repeat(committed, fresh, n) > 0 ==> repeats(
            committed,
            fresh,
            longest_repeat(committed, fresh, n),
        ),
        forall|k: int|
            longest_repeat(committed, fresh, n) < k <= n ==> !repeats(committed, fresh, k),
    decreases n,
{
    if n > 0 && !repeats(committed, fresh, n) {
        lemma_longest_repeat(committed, fresh, n - 1);
    }
}

/// The words dropped at the head of a hypothesis are among its words.
proof fn lemma_overlap_bounds(committed: Seq<WordView>, fresh: Seq<WordView>, time: int)
    ensures
        0 <= overlap(committed, fresh, time) <= fresh.len(),
{
    lemma_longest_repeat(committed, fresh, ngram_limit(committed, fresh));
}

/// The agreed words are the longest common prefix of two hypotheses: they agree in every text,
/// and the words that follow, if both hypotheses have one, differ.
pub proof fn law_longest_agreement(a: Seq<WordView>, b: Seq<WordView>)
    ensures
        0 <= agreed(a, b) <= a.len(),
        agreed(a, b) <= b.len(),
        forall|j: int| 0 <= j < agreed(a, b) ==> (#[trigger] a[j]).text == b[j].text,
        agreed(a, b) < a.len() && agreed(a, b) < b.len() ==> a[agreed(a, b)].text != b[agreed(
            a,
            b,
        )].text,
{
    lemma_agreed_from(a, b, 0);
}

/// Words that ended by `time` are passed over: to count from behind them gives the same place.
proof fn lemma_ended_skips(words: Seq<WordView>, time: int, i: int, k: int)
    requires
        0 <= i <= k <= words.len(),
        forall|j: int| i <= j < k ==> (#[trigger] words[j]).end <= time,
    ensures
        ended_from(words, time, i) == ended_from(words, time, k),
    decreases k - i,
{
    if i < k {
        assert(words[i].end <= time);
        lemma_ended_skips(words, time, i + 1, k);
    }
}

/// Counting in the words from `k` on is counting in all of them, shifted by `k`.
proof fn lemma_ended_in_rest(words: Seq<WordView>, time: int, k: int, i: int)
    requires
        0 <= k,
        0 <= i,
        k + i <= words.len(),
    ensures
        ended_from(words.subrange(k, words.len() as int), time, i) == ended_from(words, time, k + i)
            - k,
    decreases words.len() - k - i,
{
    let rest = words.subrange(k, words.len() as int);
    if i < rest.len() {
        assert(rest[i] == words[k + i]);
        if rest[i].end <= time {
            lemma_ended_in_rest(words, time, k, i + 1);
        }
    }
}

/// A call that changes a buffer.
pub enum BufferCall {
    Insert { words: Seq<WordView>, offset: int },
    Flush,
    PopCommitted { time: int },
}

impl BufferView {
    /// A flush loses no word and makes none up: the committed words followed by those kept for
    /// the next comparison are the staged hypothesis.
    pub proof fn law_flush_splits_hypothesis(self)
        ensures
            self.agreement() + self.flushed().buffer == self.new,
    {
        law_longest_agreement(self.new, self.buffer);
        assert(self.agreement() + self.flushed().buffer =~= self.new);
    }

    /// Committed words are only ever added behind the earlier ones, and the last one committed is
    /// the one remembered.
    pub proof fn law_flush_appends(self)
        ensures
            self.flushed().committed_in_buffer == self.committed_in_buffer + self.agreement(),
            self.agreement().len() > 0 ==> self.flushed().last_committed_time
                == self.flushed().committed_in_buffer.last().end
                && self.flushed().last_committed_word == Some(
                self.flushed().committed_in_buffer.last().text,
            ),
    {
    }

    /// Without a hypothesis to compare with nothing is committed.
    pub proof fn law_one_hypothesis_commits_nothing(self)
        requires
            self.buffer.len() == 0,
        ensures
            self.agreement() == Seq::<WordView>::empty(),
    {
        law_longest_agreement(self.new, self.buffer);
        assert(self.agreement() =~= Seq::<WordView>::empty());
    }

    /// LocalAgreement-2: a committed word has stood, with the same text, in the same place of two
    /// consecutive hypotheses. The place is counted from the end of what the first of the two
    /// committed itself.
    pub proof fn law_committed_words_were_seen_twice(
        self,
        first: Seq<WordView>,
        first_offset: int,
        second: Seq<WordView>,
        second_offset: int,
        i: int,
    )
        requires
            ({
                let between = self.inserted(first, first_offset).flushed();
                0 <= i < between.inserted(second, second_offset).agreement().len()
            }),
        ensures
            ({
                let begun = self.inserted(first, first_offset);
                let between = begun.flushed();
                let commit = between.inserted(second, second_offset).agreement();
                let place = begun.agreement().len() + i;
                &&& place < self.staged(first, first_offset).len()
                &&& i < between.staged(second, second_offset).len()
                &&& commit[i] == between.staged(second, second_offset)[i]
                &&& commit[i].text == self.staged(first, first_offset)[place].text
            }),
    {
        let begun = self.inserted(first, first_offset);
        let between = begun.flushed();
        law_longest_agreement(begun.new, begun.buffer);
        law_longest_agreement(between.staged(second, second_offset), between.buffer);
    }

    /// Nothing of the past is staged, and so nothing of it can be committed: every staged word
    /// starts later than 0.1 s before the last committed time.
    pub proof fn law_staged_words_are_new(self, words: Seq<WordView>, offset: int)
        ensures
            forall|i: int|
                0 <= i < self.staged(words, offset).len() ==> (#[trigger] self.staged(
                    words,
                    offset,
                )[i]).start > self.last_committed_time - START_TOLERANCE,
            forall|i: int|
                0 <= i < self.inserted(words, offset).agreement().len() ==> (
                #[trigger] self.inserted(words, offset).agreement()[i]).start
                    > self.last_committed_time - START_TOLERANCE,
    {
        let keep = starts_after(self.last_committed_time);
        let fresh = self.fresh(words, offset);
        lemma_filter_satisfies(shifted(words, offset), keep);
        lemma_overlap_bounds(self.committed_in_buffer, fresh, self.last_committed_time);
        let n = overlap(self.committed_in_buffer, fresh, self.last_committed_time);
        let staged = self.staged(words, offset);
        assert forall|i: int| 0 <= i < staged.len() implies (#[trigger] staged[i]).start
            > self.last_committed_time - START_TOLERANCE by {
            assert(staged[i] == fresh[n + i]);
            assert(keep(fresh[n + i]));
        }
        let begun = self.inserted(words, offset);
        law_longest_agreement(begun.new, begun.buffer);
        assert forall|i: int| 0 <= i < begun.agreement().len() implies (
        #[trigger] begun.agreement()[i]).start > self.last_committed_time - START_TOLERANCE by {
            assert(begun.agreement()[i] == staged[i]);
        }
    }

    /// A hypothesis that begins by repeating the last `n` committed words, for up to five of
    /// them, close to the last committed time, loses at least those words.
    pub proof fn law_repeated_words_are_dropped(self, words: Seq<WordView>, offset: int, n: int)
        requires
            1 <= n <= MAX_NGRAM,
            n <= self.committed_in_buffer.len(),
            n <= self.fresh(words, offset).len(),
            -OVERLAP_WINDOW < self.fresh(words, offset)[0].start - self.last_committed_time
                < OVERLAP_WINDOW,
            forall|i: int|
                0 <= i < n ==> (#[trigger] self.fresh(words, offset)[i]).text
                    == self.committed_in_buffer[self.committed_in_buffer.len() - n + i].text,
        ensures
            ({
                let fresh = self.fresh(words, offset);
                let dropped = overlap(self.committed_in_buffer, fresh, self.last_committed_time);
                &&& n <= dropped <= MAX_NGRAM
                &&& self.staged(words, offset) == fresh.subrange(dropped, fresh.len() as int)
            }),
    {
        let committed = self.committed_in_buffer;
        let fresh = self.fresh(words, offset);
        lemma_longest_repeat(committed, fresh, ngram_limit(committed, fresh));
        assert(texts(committed.subrange(committed.len() - n, committed.len() as int)) =~= texts(
            fresh.subrange(0, n),
        ));
        assert(repeats(committed, fresh, n));
    }

    /// Words are dropped at the head of a hypothesis only where they read like the last committed
    /// ones.
    pub proof fn law_dropped_words_are_repetitions(self, words: Seq<WordView>, offset: int)
        ensures
            ({
                let fresh = self.fresh(words, offset);
                let dropped = overlap(self.committed_in_buffer, fresh, self.last_committed_time);
                &&& 0 <= dropped <= fresh.len()
                &&& dropped <= self.committed_in_buffer.len()
                &&& dropped > 0 ==> repeats(self.committed_in_buffer, fresh, dropped)
            }),
    {
        let fresh = self.fresh(words, offset);
        lemma_longest_repeat(
            self.committed_in_buffer,
            fresh,
            ngram_limit(self.committed_in_buffer, fresh),
        );
    }

    /// Popping drops exactly a prefix of words that ended by `time`: the word then in front, if
    /// there is one, ended later. To pop a second time changes nothing.
    pub proof fn law_pop_committed(self, time: int)
        ensures
            ({
                let dropped = self.committed_in_buffer.len()
                    - self.popped(time).committed_in_buffer.len();
                &&& 0 <= dropped <= self.committed_in_buffer.len()
                &&& forall|i: int|
                    0 <= i < dropped ==> (#[trigger] self.committed_in_buffer[i]).end <= time
                &&& self.popped(time).committed_in_buffer == self.committed_in_buffer.subrange(
                    dropped,
                    self.committed_in_buffer.len() as int,
                )
            }),
            self.popped(time).committed_in_buffer.len() > 0 ==> self.popped(
                time,
            ).committed_in_buffer[0].end > time,
            self.popped(time).popped(time) == self.popped(time),
    {
        lemma_ended_from(self.committed_in_buffer, time, 0);
        let once = self.popped(time);
        lemma_ended_from(once.committed_in_buffer, time, 0);
        assert(ended_from(once.committed_in_buffer, time, 0) == 0);
        assert(once.popped(time) =~= once);
    }

    /// To pop at one time and then at a later one drops what popping at the later one drops.
    pub proof fn law_pops_join(self, first: int, second: int)
        requires
            first <= second,
        ensures
            self.popped(first).popped(second) == self.popped(second),
    {
        let words = self.committed_in_buffer;
        let begun = ended_from(words, first, 0);
        lemma_ended_from(words, first, 0);
        lemma_ended_skips(words, second, 0, begun);
        lemma_ended_in_rest(words, second, begun, 0);
        lemma_ended_from(words, second, begun);
        assert(self.popped(first).popped(second) =~= self.popped(second));
    }

    /// A second flush without a hypothesis in between commits nothing, and changes neither the
    /// committed words nor what is remembered of the last one.
    pub proof fn law_second_flush_commits_nothing(self)
        ensures
            self.flushed().agreement() == Seq::<WordView>::empty(),
            self.flushed().flushed().committed_in_buffer == self.flushed().committed_in_buffer,
            self.flushed().flushed().last_committed_time == self.flushed().last_committed_time,
            self.flushed().flushed().last_committed_word == self.flushed().last_committed_word,
    {
        let once = self.flushed();
        law_longest_agreement(once.new, once.buffer);
        assert(once.agreement() =~= Seq::<WordView>::empty());
        assert(once.flushed().committed_in_buffer =~= once.committed_in_buffer);
    }

    /// Whether the last of the committed words kept, if there is one, is the word remembered: by
    /// its end and by its text.
    pub open spec fn remembers_last(self) -> bool {
        self.committed_in_buffer.len() > 0 ==> {
            &&& self.last_committed_time == self.committed_in_buffer.last().end
            &&& self.last_committed_word == Some(self.committed_in_buffer.last().text)
        }
    }

    /// The buffer after one call.
    pub open spec fn after(self, call: BufferCall) -> Self {
        match call {
            BufferCall::Insert { words, offset } => self.inserted(words, offset),
            BufferCall::Flush => self.flushed(),
            BufferCall::PopCommitted { time } => self.popped(time),
        }
    }

    /// The buffer after a run of calls.
    pub open spec fn after_all(self, calls: Seq<BufferCall>) -> Self
        decreases calls.len(),
    {
        if calls.len() == 0 {
            self
        } else {
            self.after_all(calls.drop_last()).after(calls.last())
        }
    }

    /// After any run of inserts, flushes and pops on a new buffer the committed words that are
    /// kept, if there are any, end with the word whose end and text are remembered. The same
    /// holds of a run on any buffer of which it held before.
    pub proof fn law_last_committed_is_remembered(self, time: int, calls: Seq<BufferCall>)
        ensures
            BufferView::starting_at(time).after_all(calls).remembers_last(),
            self.remembers_last() ==> self.after_all(calls).remembers_last(),
    {
        BufferView::starting_at(time).lemma_run_remembers_last(calls);
        if self.remembers_last() {
            self.lemma_run_remembers_last(calls);
        }
    }

    proof fn lemma_run_remembers_last(self, calls: Seq<BufferCall>)
        requires
            self.remembers_last(),
        ensures
            self.after_all(calls).remembers_last(),
        decreases calls.len(),
    {
        if calls.len() > 0 {
            self.lemma_run_remembers_last(calls.drop_last());
            let before = self.after_all(calls.drop_last());
            match calls.last() {
                BufferCall::Insert { .. } => {},
                BufferCall::Flush => {
                    law_longest_agreement(before.new, before.buffer);
                },
                BufferCall::PopCommitted { time } => {
                    lemma_ended_from(before.committed_in_buffer, time, 0);
                },
            }
        }
    }
}

/// Every frame lies within the samples, and there are `channels` samples in it.
proof fn lemma_frame_within<T>(samples: Seq<T>, channels: nat, i: int)
    requires
        0 <= i < frame_count(samples.len(), channels),
    ensures
        0 <= i * channels <= (i + 1) * channels <= samples.len(),
        frame(samples, channels, i).len() == channels,
{
    let len = samples.len() as int;
    let c = channels as int;
    vstd::arithmetic::div_mod::lemma_fundamental_div_mod(len, c);
    assert(0 <= len % c) by (nonlinear_arith)
        requires
            c > 0,
    ;
    assert(0 <= i * c && (i + 1) * c <= c * (len / c) && (i + 1) * c == i * c + c)
        by (nonlinear_arith)
        requires
            0 <= i < len / c,
            c > 0,
    ;
}

/// Downmixed samples keep to the audio range: the mean of a frame is never beyond full scale.
pub proof fn law_downmix_in_range<T: AudioSample>(samples: Seq<T>, channels: nat, i: int)
    requires
        0 <= i < frame_count(samples.len(), channels),
    ensures
        -(channels * T::full_scale()) <= scaled_sum(frame(samples, channels, i)) <= channels
            * T::full_scale(),
{
    lemma_frame_within(samples, channels, i);
    lemma_sum_in_range(frame(samples, channels, i));
    assert(-channels * T::full_scale() == -(channels * T::full_scale())) by (nonlinear_arith);
}

/// Mono audio is not changed by downmixing: every sample is a frame of its own.
pub proof fn law_mono_is_kept<T: AudioSample>(samples: Seq<T>, i: int)
    requires
        0 <= i < samples.len(),
    ensures
        frame_count(samples.len(), 1) == samples.len(),
        scaled_sum(frame(samples, 1, i)) == samples[i].scaled(),
{
    let one = frame(samples, 1, i);
    assert(one =~= seq![samples[i]]);
    assert(one.drop_last() =~= Seq::<T>::empty());
    assert(scaled_sum(one.drop_last()) == 0);
}

/// Downmixing splits at a frame boundary: where the first part is made of whole frames, the frames
/// of both parts together are those of the first followed by those of the second, and with them
/// the means.
pub proof fn law_downmix_splits_at_frame<T: AudioSample>(
    first: Seq<T>,
    second: Seq<T>,
    channels: nat,
    i: int,
)
    requires
        channels > 0,
        first.len() % channels == 0,
    ensures
        ({
            let both = first + second;
            let k = frame_count(first.len(), channels);
            &&& frame_count(both.len(), channels) == k + frame_count(second.len(), channels)
            &&& 0 <= i < k ==> {
                &&& frame(both, channels, i) == frame(first, channels, i)
                &&& scaled_sum(frame(both, channels, i)) == scaled_sum(frame(first, channels, i))
            }
            &&& 0 <= i < frame_count(second.len(), channels) ==> {
                &&& frame(both, channels, k + i) == frame(second, channels, i)
                &&& scaled_sum(frame(both, channels, k + i)) == scaled_sum(
                    frame(second, channels, i),
                )
            }
        }),
{
    let both = first + second;
    let c = channels as int;
    let a = first.len() as int;
    let b = second.len() as int;
    let k = a / c;
    let n = b / c;
    vstd::arithmetic::div_mod::lemma_fundamental_div_mod(a, c);
    vstd::arithmetic::div_mod::lemma_fundamental_div_mod(b, c);
    assert(a == k * c) by (nonlinear_arith)
        requires
            a == c * k,
    ;
    assert(0 <= b % c < c && a + b == (k + n) * c + b % c) by (nonlinear_arith)
        requires
            a == k * c,
            b == c * n + b % c,
            c > 0,
    ;
    vstd::arithmetic::div_mod::lemma_fundamental_div_mod_converse(a + b, c, k + n, b % c);
    if 0 <= i < k {
        lemma_frame_within(first, channels, i);
        assert(frame(both, channels, i) =~= frame(first, channels, i));
    }
    if 0 <= i < n {
        lemma_frame_within(second, channels, i);
        assert((k + i) * c == a + i * c && (k + i + 1) * c == a + (i + 1) * c) by (nonlinear_arith)
            requires
                a == k * c,
        ;
        assert(frame(both, channels, k + i) =~= frame(second, channels, i));
    }
}

/// A trimmed text neither begins nor ends with white space.
pub proof fn law_trimmed_has_no_outer_white_space(s: Seq<char>)
    ensures
        trimmed(s).len() > 0 ==> !white_space(trimmed(s)[0]) && !white_space(trimmed(s).last()),
        trimmed(s).len() <= s.len(),
{
    lemma_trim_start(s);
    lemma_trim_end(trim_start(s));
}

proof fn lemma_trim_start(s: Seq<char>)
    ensures
        trim_start(s).len() <= s.len(),
        trim_start(s).len() > 0 ==> !white_space(trim_start(s)[0]),
    decreases s.len(),
{
    if s.len() > 0 && white_space(s[0]) {
        lemma_trim_start(s.subrange(1, s.len() as int));
    }
}

proof fn lemma_trim_end(s: Seq<char>)
    ensures
        trim_end(s).len() <= s.len(),
        trim_end(s).len() > 0 ==> !white_space(trim_end(s).last()) && trim_end(s)[0] == s[0],
    decreases s.len(),
{
    if s.len() > 0 && white_space(s[s.len() - 1]) {
        lemma_trim_end(s.subrange(0, s.len() - 1));
    }
}

proof fn lemma_words_of_first(segments: Seq<Option<SegmentView>>, n: int)
    requires
        0 <= n <= segments.len(),
    ensures
        words_of_first(segments, n).len() <= n,
        forall|i: int|
            0 <= i < words_of_first(segments, n).len() ==> (#[trigger] words_of_first(
                segments,
                n,
            )[i]).end >= words_of_first(segments, n)[i].start + MIN_WORD_TICKS && words_of_first(
                segments,
                n,
            )[i].text.len() > 0,
    decreases n,
{
    if n > 0 {
        lemma_words_of_first(segments, n - 1);
    }
}

/// Every word that is read from a pass has a text and lasts at least 0.02 s, whatever times the
/// recogniser gave.
pub proof fn law_words_last(segments: Seq<Option<SegmentView>>)
    ensures
        words_of(segments).len() <= segments.len(),
        forall|i: int|
            0 <= i < words_of(segments).len() ==> (#[trigger] words_of(segments)[i]).end
                >= words_of(segments)[i].start + MIN_WORD_TICKS && words_of(segments)[i].text.len()
                > 0,
{
    lemma_words_of_first(segments, segments.len() as int);
}

proof fn lemma_last_end_within(ends: Seq<int>, offset: int, limit: int, i: int)
    requires
        0 <= i < ends.len(),
    ensures
        0 <= last_end_within(ends, offset, limit, i) <= i,
        forall|j: int|
            last_end_within(ends, offset, limit, i) < j <= i ==> (#[trigger] ends[j]) + offset
                > limit,
        last_end_within(ends, offset, limit, i) > 0 ==> ends[last_end_within(
            ends,
            offset,
            limit,
            i,
        )] + offset <= limit,
    decreases i,
{
    if i > 0 && ends[i] + offset > limit {
        lemma_last_end_within(ends, offset, limit, i - 1);
    }
}

/// A cut at the end of a segment lies after the start of the audio and never exceeds the last
/// committed word. It is the last end, other than the final segment's, that does not.
pub proof fn law_segment_cut_within_committed(ends: Seq<int>, offset: int, last_committed_end: int)
    ensures
        committed_segment_cut(ends, offset, last_committed_end) matches Some(cut) ==> {
            &&& offset < cut <= last_committed_end
            &&& exists|k: int|
                0 <= k < ends.len() - 1 && cut == #[trigger] ends[k] + offset && forall|j: int|
                    k < j < ends.len() - 1 ==> #[trigger] ends[j] + offset > last_committed_end
        },
        committed_segment_cut(ends, offset, last_committed_end) is None ==> {
            ||| ends.len() < 2
            ||| forall|j: int| 0 <= j < ends.len() - 1 ==> #[trigger] ends[j] + offset
                > last_committed_end
            ||| exists|k: int|
                0 <= k < ends.len() - 1 && #[trigger] ends[k] <= 0 && forall|j: int|
                    k < j < ends.len() - 1 ==> #[trigger] ends[j] + offset > last_committed_end
        },
{
    if ends.len() >= 2 {
        lemma_last_end_within(ends, offset, last_committed_end, ends.len() - 2);
        let k = last_end_within(ends, offset, last_committed_end, ends.len() - 2);
        let end = ends[k];
        if committed_segment_cut(ends, offset, last_committed_end) is None {
            if end > 0 {
                assert(k == 0);
                assert forall|j: int| 0 <= j < ends.len() - 1 implies #[trigger] ends[j] + offset
                    > last_committed_end by {}
            }
        }
    }
}

/// What the words of a prompt cost: every text, and one character more for each.
pub open spec fn cost(parts: Seq<Seq<char>>) -> int
    decreases parts.len(),
{
    if parts.len() == 0 {
        0
    } else {
        cost(parts.drop_last()) + parts.last().len() + 1
    }
}

pub proof fn lemma_fitting(parts: Seq<Seq<char>>, budget: int)
    ensures
        0 <= fitting(parts, budget) <= parts.len(),
        budget >= 0 ==> cost(
            parts.subrange(parts.len() - fitting(parts, budget), parts.len() as int),
        ) <= budget,
        fitting(parts, budget) < parts.len() ==> cost(
            parts.subrange(parts.len() - fitting(parts, budget) - 1, parts.len() as int),
        ) > budget,
    decreases parts.len(),
{
    let n = fitting(parts, budget);
    if parts.len() == 0 {
        assert(parts.subrange(0, 0) =~= Seq::<Seq<char>>::empty());
    } else if parts.last().len() + 1 > budget {
        assert(parts.subrange(parts.len() as int, parts.len() as int) =~= Seq::<
            Seq<char>,
        >::empty());
        let one = parts.subrange(parts.len() - 1, parts.len() as int);
        assert(one.last() == parts.last());
        assert(one.drop_last() =~= Seq::<Seq<char>>::empty());
        assert(cost(one.drop_last()) == 0);
    } else {
        let shorter = parts.drop_last();
        let left = budget - parts.last().len() - 1;
        lemma_fitting(shorter, left);
        let taken = parts.subrange(parts.len() - n, parts.len() as int);
        assert(taken.drop_last() =~= shorter.subrange(
            shorter.len() - fitting(shorter, left),
            shorter.len() as int,
        ));
        if n < parts.len() {
            let more = parts.subrange(parts.len() - n - 1, parts.len() as int);
            assert(more.drop_last() =~= shorter.subrange(
                shorter.len() - fitting(shorter, left) - 1,
                shorter.len() as int,
            ));
        }
    }
}

proof fn lemma_joined_len(parts: Seq<Seq<char>>, sep: Seq<char>, n: int)
    requires
        0 <= n <= parts.len(),
        sep.len() <= 1,
    ensures
        joined(parts, sep, n).len() <= cost(parts.subrange(0, n)),
    decreases n,
{
    let head = parts.subrange(0, n);
    if n > 0 {
        lemma_joined_len(parts, sep, n - 1);
        assert(head.drop_last() =~= parts.subrange(0, n - 1));
        assert(head.last() == parts[n - 1]);
        if n == 1 {
            assert(parts.subrange(0, 0) =~= Seq::<Seq<char>>::empty());
            assert(cost(parts.subrange(0, 0)) == 0);
        }
    }
}

impl<S> ProcessorView<S> {
    /// The prompt respects its budget: it is never longer than `prompt_char_budget` characters,
    /// it takes the most recent words, and one word more would not have fitted.
    pub proof fn law_prompt_within_budget(self)
        requires
            self.config.prompt_char_budget >= 0,
        ensures
            self.prompt().len() <= self.config.prompt_char_budget,
            ({
                let older = self.older_texts();
                let n = fitting(older, self.config.prompt_char_budget);
                &&& 0 <= n <= older.len()
                &&& cost(older.subrange(older.len() - n, older.len() as int))
                    <= self.config.prompt_char_budget
                &&& n < older.len() ==> cost(
                    older.subrange(older.len() - n - 1, older.len() as int),
                ) > self.config.prompt_char_budget
            }),
    {
        let older = self.older_texts();
        let budget = self.config.prompt_char_budget;
        lemma_fitting(older, budget);
        let n = fitting(older, budget);
        let taken = older.subrange(older.len() - n, older.len() as int);
        lemma_joined_len(taken, separator(self.config.language), taken.len() as int);
        assert(taken.subrange(0, taken.len() as int) =~= taken);
    }

    /// Only words that have left the audio buffer are prompted with.
    pub proof fn law_prompt_of_older_words(self, i: int)
        requires
            0 <= i < self.older_texts().len(),
        ensures
            exists|w: WordView|
                #[trigger] self.committed.contains(w) && w.end <= self.offset && w.text
                    == self.older_texts()[i],
    {
        let keep = ends_by(self.offset);
        let kept = self.committed.filter(keep);
        lemma_filter_satisfies(self.committed, keep);
        self.committed.lemma_filter_contains_rev(keep, kept[i]);
        assert(keep(kept[i]));
        assert(self.older_texts()[i] == kept[i].text);
    }

    /// A pass adds its committed words behind the earlier ones, and they, followed by what is
    /// still tentative, are the hypothesis that it staged.
    pub proof fn law_pass_splits_hypothesis(self, segments: Seq<Option<SegmentView>>)
        ensures
            self.passed(segments).committed == self.committed + self.pass_commit(segments),
            self.pass_commit(segments) + self.passed(segments).transcript.buffer == self.staged(
                segments,
            ).new,
    {
        self.staged(segments).law_flush_splits_hypothesis();
    }

    /// LocalAgreement-2 over the passes of a processor: a word that a pass commits has stood, with
    /// the same text, in the same place of the hypothesis of the pass before, whatever was trimmed
    /// after that pass and heard since. The place is counted from the end of what the pass before
    /// committed itself.
    pub proof fn law_pass_commits_words_seen_twice(
        self,
        first: Seq<Option<SegmentView>>,
        pcm: Seq<S>,
        has_speech: bool,
        second: Seq<Option<SegmentView>>,
        i: int,
    )
        requires
            0 <= i < self.passed(first).heard(pcm, has_speech).pass_commit(second).len(),
        ensures
            ({
                let between = self.passed(first).heard(pcm, has_speech);
                let commit = between.pass_commit(second);
                let place = self.pass_commit(first).len() + i;
                &&& place < self.staged(first).new.len()
                &&& i < between.staged(second).new.len()
                &&& commit[i] == between.staged(second).new[i]
                &&& commit[i].text == self.staged(first).new[place].text
            }),
    {
        let between = self.passed(first).heard(pcm, has_speech);
        self.law_pass_splits_hypothesis(first);
        law_longest_agreement(between.staged(second).new, between.transcript.buffer);
        let joined = self.pass_commit(first) + between.transcript.buffer;
        assert(joined[self.pass_commit(first).len() + i] == between.transcript.buffer[i]);
    }

    /// To hear audio changes nothing that is known of the words: what a pass then stages and
    /// commits, and what it prompts with, are as before.
    pub proof fn law_audio_changes_no_words(
        self,
        pcm: Seq<S>,
        has_speech: bool,
        segments: Seq<Option<SegmentView>>,
    )
        ensures
            self.heard(pcm, has_speech).committed == self.committed,
            self.heard(pcm, has_speech).transcript == self.transcript,
            self.heard(pcm, has_speech).staged(segments) == self.staged(segments),
            self.heard(pcm, has_speech).pass_commit(segments) == self.pass_commit(segments),
            self.heard(pcm, has_speech).request() == self.request(),
    {
    }

    /// One pass alone never commits anything: neither the first one, nor the first after a reset
    /// or after the end of a stream, whatever audio it is made on.
    pub proof fn law_first_pass_commits_nothing(
        self,
        config: ConfigView,
        vad: Option<VadModel>,
        pcm: Seq<S>,
        has_speech: bool,
        segments: Seq<Option<SegmentView>>,
    )
        ensures
            ProcessorView::<S>::initial(config, vad).heard(pcm, has_speech).pass_commit(segments)
                == Seq::<WordView>::empty(),
            self.reset().heard(pcm, has_speech).pass_commit(segments) == Seq::<WordView>::empty(),
            self.finished().pass_commit(segments) == Seq::<WordView>::empty(),
            self.finished().heard(pcm, has_speech).pass_commit(segments) == Seq::<
                WordView,
            >::empty(),
    {
        ProcessorView::<S>::initial(config, vad).heard(pcm, has_speech).staged(
            segments,
        ).law_one_hypothesis_commits_nothing();
        self.reset().heard(pcm, has_speech).staged(segments).law_one_hypothesis_commits_nothing();
        self.finished().staged(segments).law_one_hypothesis_commits_nothing();
        self.finished().heard(pcm, has_speech).staged(
            segments,
        ).law_one_hypothesis_commits_nothing();
    }

    /// Where nothing is committed yet, two passes in a row that give the same segments commit
    /// every word that they stage.
    pub proof fn law_two_equal_passes_commit_all(self, segments: Seq<Option<SegmentView>>)
        requires
            self.committed.len() == 0,
            self.transcript.committed_in_buffer.len() == 0,
            self.transcript.buffer.len() == 0,
        ensures
            self.passed(segments).pass_commit(segments) == self.staged(segments).new,
    {
        let staged = self.staged(segments);
        staged.law_one_hypothesis_commits_nothing();
        staged.law_flush_splits_hypothesis();
        let between = self.passed(segments);
        assert(self.agreed(segments).committed =~= Seq::<WordView>::empty());
        assert(between == self.agreed(segments));
        assert(between.transcript.buffer =~= staged.new);
        assert(between.transcript.committed_in_buffer =~= Seq::<WordView>::empty());
        assert(between.staged(segments).new =~= staged.new);
        lemma_agreed_with_itself(staged.new, 0);
        assert(between.pass_commit(segments) =~= staged.new);
    }

    /// The end of a stream consumes the tentative words once: after it there are none, and to end
    /// the stream again changes nothing.
    pub proof fn law_finish_consumes(self)
        ensures
            self.finished().transcript.buffer.len() == 0,
            self.finished().finished() == self.finished(),
    {
        assert(self.finished().finished() =~= self.finished());
    }

    /// Audio is cut only within the committed text: after the start of the audio, and never past
    /// the end of the last committed word.
    pub proof fn law_cut_within_committed(self, segments: Seq<Option<SegmentView>>)
        ensures
            self.cut(segments) matches Some(cut) ==> self.committed.len() > 0 && self.offset < cut
                <= self.committed.last().end,
            ({
                let after = self.passed(segments);
                after.offset == self.offset || (after.committed.len() > 0 && self.offset
                    < after.offset <= after.committed.last().end)
            }),
    {
        self.lemma_cut_within_committed(segments);
        self.agreed(segments).lemma_cut_within_committed(segments);
    }

    proof fn lemma_cut_within_committed(self, segments: Seq<Option<SegmentView>>)
        ensures
            self.cut(segments) matches Some(cut) ==> self.committed.len() > 0 && self.offset < cut
                <= self.committed.last().end,
    {
        if self.segment_end_cut(segments) is Some {
            law_segment_cut_within_committed(
                Seq::new(segments.len(), |i: int| segments[i]->0.end),
                self.offset,
                self.committed.last().end,
            );
        }
    }

    /// What holds of a processor at the start is kept by everything that happens to it.
    pub proof fn law_invariant_is_kept(
        self,
        config: ConfigView,
        vad: Option<VadModel>,
        pcm: Seq<S>,
        has_speech: bool,
        segments: Seq<Option<SegmentView>>,
    )
        ensures
            ProcessorView::<S>::initial(config, vad).wf(),
            self.wf() ==> self.heard(pcm, has_speech).wf(),
            self.wf() ==> self.passed(segments).wf(),
            self.wf() ==> self.reset().wf(),
            self.wf() ==> self.finished().wf(),
    {
        let between = self.agreed(segments);
        if between.cut(segments) is Some {
            lemma_ended_from(
                between.transcript.committed_in_buffer,
                between.cut(segments)->0,
                0,
            );
        }
    }

    /// After a cut the committed words that are kept stay aligned with the audio: the first of
    /// them ends after the new start of the audio, and no word before that start, but for the
    /// tolerance of 0.1 s, can be staged.
    pub proof fn law_cut_aligns_committed_words(self, cut: int)
        ensures
            ({
                let after = self.cut_at(cut);
                &&& after.offset == cut
                &&& after.transcript.committed_in_buffer.len() > 0
                    ==> after.transcript.committed_in_buffer[0].end > cut
                &&& after.transcript.last_committed_time >= cut
                &&& after.transcript.last_committed_time >= self.transcript.last_committed_time
                &&& after.transcript.buffer == self.transcript.buffer
            }),
    {
        self.transcript.law_pop_committed(cut);
    }

    /// Whether the audio buffer ends where all audio heard so far ends.
    pub open spec fn anchored(self) -> bool {
        self.offset + self.audio.len() == self.total_audio
    }

    /// Times stay continuous. A new processor is anchored, and so is one after a reset. New audio
    /// keeps it so: every chunk without a VAD, and every chunk with speech under one. The end of
    /// the stream does too; and a cut within the audio heard so far drops just as much audio as it
    /// moves the origin.
    pub proof fn law_time_line_is_continuous(
        self,
        config: ConfigView,
        vad: Option<VadModel>,
        pcm: Seq<S>,
        has_speech: bool,
        cut: int,
    )
        ensures
            ProcessorView::<S>::initial(config, vad).anchored(),
            self.reset().anchored(),
            self.anchored() && self.vad is None ==> self.heard(pcm, has_speech).anchored(),
            self.anchored() && self.vad is Some ==> self.heard(pcm, true).anchored(),
            self.anchored() ==> self.finished().anchored(),
            self.anchored() && self.offset < cut <= self.total_audio ==> self.cut_at(cut).anchored(),
    {
    }

    /// Every chunk advances the time line, speech or silence.
    pub proof fn law_every_chunk_counts(self, pcm: Seq<S>, has_speech: bool)
        ensures
            self.heard(pcm, has_speech).total_audio == self.total_audio + pcm.len(),
    {
    }

    /// After a reset the time line goes on: neither of the first two passes commits a word that
    /// starts 0.1 s or more before the end of all audio that was heard before the reset. The first
    /// of them commits nothing at all.
    pub proof fn law_reset_continues_time_line(
        self,
        pcm: Seq<S>,
        has_speech: bool,
        first: Seq<Option<SegmentView>>,
        next_pcm: Seq<S>,
        next_has_speech: bool,
        second: Seq<Option<SegmentView>>,
    )
        ensures
            self.reset().offset == self.total_audio,
            ({
                let ready = self.reset().heard(pcm, has_speech);
                let commit = ready.passed(first).heard(next_pcm, next_has_speech).pass_commit(
                    second,
                );
                &&& ready.offset == self.total_audio
                &&& ready.pass_commit(first).len() == 0
                &&& forall|i: int|
                    0 <= i < commit.len() ==> (#[trigger] commit[i]).start > self.total_audio
                        - START_TOLERANCE
            }),
    {
        let ready = self.reset().heard(pcm, has_speech);
        ready.staged(first).law_one_hypothesis_commits_nothing();
        assert(ready.agreed(first).committed =~= Seq::<WordView>::empty());
        assert(ready.passed(first) == ready.agreed(first));
        let between = ready.passed(first).heard(next_pcm, next_has_speech);
        between.transcript.law_staged_words_are_new(words_of(second), between.offset);
    }

    /// There is no reset before there is speech: silence alone never makes one due.
    pub proof fn law_no_reset_before_speech(self, pcm: Seq<S>)
        requires
            self.wf(),
            !self.speaking,
        ensures
            !self.reset_pending(),
            !self.heard(pcm, false).reset_pending(),
            !self.heard(pcm, false).speaking,
    {
    }

    /// With a VAD, silence is dropped and speech is kept.
    pub proof fn law_silence_is_dropped(self, pcm: Seq<S>)
        requires
            self.vad is Some,
        ensures
            self.heard(pcm, false).audio == self.audio,
            self.heard(pcm, true).audio == self.audio + pcm,
            self.heard(pcm, true).speaking,
    {
    }

    /// The processor after silent chunks of the given lengths.
    pub open spec fn silent(self, chunks: Seq<Seq<S>>) -> Self
        decreases chunks.len(),
    {
        if chunks.len() == 0 {
            self
        } else {
            self.silent(chunks.drop_last()).heard(chunks.last(), false)
        }
    }

    /// A reset becomes due exactly when the silence since the last speech has reached the
    /// threshold, however it is cut into chunks.
    pub proof fn law_reset_after_trailing_silence(self, speech: Seq<S>, chunks: Seq<Seq<S>>)
        requires
            self.vad is Some,
            !self.reset_pending(),
            chunks.len() > 0,
        ensures
            self.heard(speech, true).silent(chunks).reset_pending() == (total_len(chunks)
                >= self.vad->0.model.spec_silence_reset_samples()),
    {
        self.lemma_silent(speech, chunks);
    }

    proof fn lemma_silent(self, speech: Seq<S>, chunks: Seq<Seq<S>>)
        requires
            self.vad is Some,
            !self.reset_pending(),
        ensures
            ({
                let after = self.heard(speech, true).silent(chunks);
                &&& after.speaking
                &&& after.vad is Some
                &&& after.vad->0.model == self.vad->0.model
                &&& after.vad->0.silence_samples == total_len(chunks)
                &&& after.vad->0.reset_pending == (chunks.len() > 0 && total_len(chunks)
                    >= self.vad->0.model.spec_silence_reset_samples())
            }),
        decreases chunks.len(),
    {
        if chunks.len() > 0 {
            self.lemma_silent(speech, chunks.drop_last());
        }
    }
}

/// The number of samples in all chunks.
pub open spec fn total_len<S>(chunks: Seq<Seq<S>>) -> int
    decreases chunks.len(),
{
    if chunks.len() == 0 {
        0
    } else {
        total_len(chunks.drop_last()) + chunks.last().len()
    }
}

} // verus!
