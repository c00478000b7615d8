//! What the calls of a streaming processor do, stated of what goes in and what comes out.
use vstd::prelude::*;

use crate::error::Error;
use crate::hypothesis_buffer::{words_view, BufferView, Word, WordView};
use crate::laws::buffer::{agree_up_to, lemma_same_words, same_words, stages};
use crate::laws::{cost, lemma_fitting};
use crate::laws::segments::{cuts_at, law_pass_is_read, lemma_cut_is_where_it_can_be, reads};
use crate::laws::settings::{lemma_unspaced, unspaced};
use crate::laws::text::{
    interleaved, lemma_filter_places, lemma_joined_is_interleaved, selects,
};
use crate::online_asr::{
    after_step, append_samples, ends_by, fitting, separator, step_of, InferenceRequest, OnlineAsrProcessor,
    ProcessOutput, ProcessStep, ProcessorView, VadOutcome,
};
use crate::segments::{committed_segment_cut, segments_view, words_of, Segment, SegmentView};
use crate::settings::{OnlineAsrConfig, VadConfig, VadModel};

verus! {

/// What stands between the words of a language: a space, or nothing where the language is written
/// without spaces.
pub open spec fn between_words(language: Seq<char>) -> Seq<char> {
    if unspaced(language) {
        Seq::empty()
    } else {
        seq![' ']
    }
}

/// Whether `text` is what a recogniser is to be prompted with.
///
/// `at` lists the places of the committed words that ended by the start of the audio. The last `n`
/// of these make up the prompt. With one character more for each they fit into the budget, and one
/// word more would not.
pub open spec fn prompts<S>(p: ProcessorView<S>, at: Seq<int>, n: int, text: Seq<char>) -> bool {
    let older = Seq::new(at.len(), |i: int| p.committed[at[i]].text);
    let len = older.len() as int;
    &&& selects(at, p.committed.len() as int, |k: int| p.committed[k].end <= p.offset)
    &&& 0 <= n <= len
    &&& text == interleaved(older.subrange(len - n, len), between_words(p.config.language))
    &&& n > 0 ==> cost(older.subrange(len - n, len)) <= p.config.prompt_char_budget
    &&& n < len ==> cost(older.subrange(len - n - 1, len)) > p.config.prompt_char_budget
}

/// Whether a recogniser is to be run as the settings say: in the language that is set, if one is,
/// or else in the one that it detects; with at least one thread; with the prompt, if there is one;
/// one word per segment, nothing carried over, and nothing printed.
pub open spec fn asks<S>(p: ProcessorView<S>, request: InferenceRequest, prompt: Seq<char>) -> bool {
    let language = p.config.language;
    let detect = language.len() == 0 || language == seq!['a', 'u', 't', 'o'];
    &&& detect ==> request.language is None
    &&& !detect ==> (request.language matches Some(l) && l@ == language)
    &&& request.decoding_strategy == p.config.decoding_strategy
    &&& request.n_threads >= 1
    &&& request.n_threads >= p.config.n_threads
    &&& request.n_threads == 1 || request.n_threads == p.config.n_threads
    &&& prompt.len() == 0 ==> request.initial_prompt is None
    &&& prompt.len() > 0 ==> (request.initial_prompt matches Some(text) && text@ == prompt)
    &&& request.token_timestamps
    &&& request.max_len == 1
    &&& request.split_on_word
    &&& request.no_context
    &&& !request.single_segment
    &&& !request.print_progress
    &&& !request.print_realtime
    &&& !request.print_timestamps
    &&& !request.print_special
}

/// Whether `after` is `before` made ready for the next utterance: nothing of the last one is left,
/// and the time line goes on where all audio heard so far ends.
pub open spec fn starts_over<S>(before: ProcessorView<S>, after: ProcessorView<S>) -> bool {
    &&& after.audio.len() == 0
    &&& after.committed.len() == 0
    &&& after.offset == before.total_audio
    &&& holds_nothing_from(after.transcript, before.total_audio)
    &&& !after.speaking
    &&& after.vad is Some <==> before.vad is Some
    &&& after.vad matches Some(vad) ==> {
        &&& vad.model == before.vad->0.model
        &&& vad.silence_samples == 0
        &&& !vad.reset_pending
    }
    &&& after.total_audio == before.total_audio
    &&& after.config == before.config
}

/// Whether a buffer holds no word and its time line begins at `time`.
pub open spec fn holds_nothing_from(b: BufferView, time: int) -> bool {
    &&& b.committed_in_buffer.len() == 0
    &&& b.buffer.len() == 0
    &&& b.new.len() == 0
    &&& b.last_committed_time == time
    &&& b.last_committed_word is None
}

/// Whether a reset is due.
pub open spec fn due<S>(p: ProcessorView<S>) -> bool {
    p.vad matches Some(vad) && vad.reset_pending
}

impl<S> ProcessorView<S> {
    /// The prompt takes the most recent committed words that have left the audio, as many as fit.
    pub proof fn law_prompt_takes_the_most_recent(self) -> (r: (Seq<int>, int))
        ensures
            prompts(self, r.0, r.1, self.prompt()),
            ({
                let (at, n) = r;
                let older = Seq::new(at.len(), |i: int| self.committed[at[i]].text);
                let len = older.len() as int;
                &&& selects(
                    at,
                    self.committed.len() as int,
                    |k: int| self.committed[k].end <= self.offset,
                )
                &&& 0 <= n <= len
                &&& self.prompt() == interleaved(
                    older.subrange(len - n, len),
                    separator(self.config.language),
                )
                &&& n > 0 ==> cost(older.subrange(len - n, len)) <= self.config.prompt_char_budget
                &&& n < len ==> cost(older.subrange(len - n - 1, len))
                    > self.config.prompt_char_budget
            }),
    {
        let keep = ends_by(self.offset);
        let kept = self.committed.filter(keep);
        let at = lemma_filter_places(self.committed, keep);
        let early = |k: int| self.committed[k].end <= self.offset;
        assert forall|i: int| 0 <= i < at.len() implies early(#[trigger] at[i]) by {
            assert(keep(self.committed[at[i]]));
        }
        assert forall|k: int| 0 <= k < self.committed.len() && #[trigger] early(k) implies at.contains(
            k,
        ) by {
            assert(keep(self.committed[k]));
        }
        let older = Seq::new(at.len(), |i: int| self.committed[at[i]].text);
        assert(older =~= self.older_texts()) by {
            assert forall|i: int| 0 <= i < older.len() implies #[trigger] older[i]
                == self.older_texts()[i] by {
                assert(kept[i] == self.committed[at[i]]);
            }
        }
        let budget = self.config.prompt_char_budget;
        lemma_fitting(older, budget);
        let n = fitting(older, budget);
        let taken = older.subrange(older.len() - n, older.len() as int);
        lemma_unspaced(self.config.language);
        lemma_joined_is_interleaved(taken, separator(self.config.language), taken.len() as int);
        assert(taken.subrange(0, taken.len() as int) =~= taken);
        (at, n)
    }
}

/// A pass begins in one of three ways. Where a reset is due, the words that were still tentative,
/// and no others, are given out as committed, and the processor starts over. Otherwise nothing
/// changes: without audio the tentative words are told again, and with audio the recogniser is to
/// be run as the settings say.
pub proof fn law_process<S: Copy>(p: &mut OnlineAsrProcessor<S>, step: ProcessStep) -> (r: (
    Seq<int>,
    int,
    Seq<char>,
))
    requires
        call_ensures(OnlineAsrProcessor::<S>::process, (p,), step),
    ensures
        ({
            let before = old(p)@;
            let after = final(p)@;
            let due = before.vad matches Some(vad) && vad.reset_pending;
            &&& due ==> {
                &&& step matches ProcessStep::Done { output, rebuild_decoder }
                &&& words_view(output.committed@) == before.transcript.buffer
                &&& output.tentative@.len() == 0
                &&& output.finalized_by_vad
                &&& rebuild_decoder
                &&& starts_over(before, after)
            }
            &&& !due ==> after == before
            &&& !due && before.audio.len() == 0 ==> {
                &&& step matches ProcessStep::Done { output, rebuild_decoder }
                &&& output.committed@.len() == 0
                &&& words_view(output.tentative@) == before.transcript.buffer
                &&& !output.finalized_by_vad
                &&& !rebuild_decoder
            }
            &&& !due && before.audio.len() > 0 ==> {
                &&& step matches ProcessStep::Infer(request)
                &&& asks(before, request, r.2)
                &&& prompts(before, r.0, r.1, r.2)
            }
        }),
{
    let before = old(p)@;
    reveal_strlit("auto");
    assert("auto"@ =~= seq!['a', 'u', 't', 'o']);
    let (at, n) = before.law_prompt_takes_the_most_recent();
    assert(due(before) == before.reset_pending());
    match step {
        ProcessStep::Done { output, .. } => {
            assert(words_view(output.committed@).len() == output.committed@.len());
            assert(words_view(output.tentative@).len() == output.tentative@.len());
        },
        ProcessStep::Infer(request) => {
            assert(request@.language == before.request().language);
            assert(request@.initial_prompt == before.request().initial_prompt);
            assert(request@.n_threads == before.request().n_threads);
            assert(request@.decoding_strategy == before.request().decoding_strategy);
        },
    }
    (at, n, before.prompt())
}

/// The recogniser is run in the language that is set. Only where none is set, or `auto` is, it is
/// left to detect the language.
pub proof fn law_language_is_passed_on<S: Copy>(
    p: &mut OnlineAsrProcessor<S>,
    request: InferenceRequest,
)
    requires
        call_ensures(OnlineAsrProcessor::<S>::process, (p,), ProcessStep::Infer(request)),
    ensures
        request.language is None <==> old(p)@.config.language.len() == 0
            || old(p)@.config.language == seq!['a', 'u', 't', 'o'],
        request.language matches Some(language) ==> language@ == old(p)@.config.language,
{
    law_process(p, ProcessStep::Infer(request));
}

/// The words that a reset gives out are those that were tentative before it.
pub proof fn law_reset_gives_out_the_tentative_words<S: Copy>(
    shown: OnlineAsrProcessor<S>,
    tentative: Vec<Word>,
    p: &mut OnlineAsrProcessor<S>,
    output: ProcessOutput,
    rebuild_decoder: bool,
)
    requires
        call_ensures(OnlineAsrProcessor::<S>::tentative, (&shown,), tentative),
        *old(p) == shown,
        call_ensures(
            OnlineAsrProcessor::<S>::process,
            (p,),
            ProcessStep::Done { output, rebuild_decoder },
        ),
    ensures
        output.finalized_by_vad ==> same_words(output.committed@, tentative@)
            && output.tentative@.len() == 0,
        !output.finalized_by_vad ==> same_words(output.tentative@, tentative@)
            && output.committed@.len() == 0,
        output.finalized_by_vad <==> shown@.vad is Some && shown@.vad->0.reset_pending,
        rebuild_decoder == output.finalized_by_vad,
{
    law_process(p, ProcessStep::Done { output, rebuild_decoder });
    if output.finalized_by_vad {
        lemma_same_words(output.committed@, tentative@);
    } else {
        lemma_same_words(output.tentative@, tentative@);
    }
}

/// The prompt of a processor.
pub proof fn law_build_init_prompt<S: Copy>(p: OnlineAsrProcessor<S>, text: String) -> (r: (
    Seq<int>,
    int,
))
    requires
        call_ensures(OnlineAsrProcessor::<S>::build_init_prompt, (&p,), text),
    ensures
        prompts(p@, r.0, r.1, text@),
{
    p@.law_prompt_takes_the_most_recent()
}

/// Words are separated as the language is written.
pub proof fn law_sep<S: Copy>(p: OnlineAsrProcessor<S>, r: &'static str)
    requires
        call_ensures(OnlineAsrProcessor::<S>::sep, (&p,), r),
    ensures
        r@ == between_words(p@.config.language),
        r@ == Seq::<char>::empty() || r@ == seq![' '],
        r@.len() == 0 <==> p@.config.language == seq!['j', 'a'] || p@.config.language == seq![
            'z',
            'h',
        ] || p@.config.language == seq!['y', 'u', 'e'] || p@.config.language == seq!['t', 'h']
            || p@.config.language == seq!['l', 'o'] || p@.config.language == seq!['m', 'y'],
{
    lemma_unspaced(p@.config.language);
}

/// Whether `after` is `before` with its audio cut where `after` begins: the audio and the committed
/// words before that are gone, and no word before it is to be staged again. Nothing else changes.
pub open spec fn cuts<S>(before: ProcessorView<S>, after: ProcessorView<S>) -> bool {
    let gone = after.offset - before.offset;
    let len = before.audio.len() as int;
    let words = before.transcript.committed_in_buffer;
    let left = after.transcript.committed_in_buffer;
    let dropped = words.len() - left.len();
    &&& gone >= len ==> after.audio.len() == 0
    &&& gone < len ==> after.audio == before.audio.subrange(gone, len)
    &&& 0 <= dropped
    &&& left == words.subrange(dropped, words.len() as int)
    &&& forall|i: int| 0 <= i < dropped ==> (#[trigger] words[i]).end <= after.offset
    &&& left.len() > 0 ==> left[0].end > after.offset
    &&& after.transcript.last_committed_time >= before.transcript.last_committed_time
    &&& after.transcript.last_committed_time >= after.offset
    &&& after.transcript.last_committed_time == before.transcript.last_committed_time
        || after.transcript.last_committed_time == after.offset
    &&& after.transcript.last_committed_word == before.transcript.last_committed_word
    &&& after.transcript.buffer == before.transcript.buffer
    &&& after.transcript.new == before.transcript.new
    &&& after.committed == before.committed
    &&& after.config == before.config
    &&& after.vad == before.vad
    &&& after.total_audio == before.total_audio
    &&& after.speaking == before.speaking
}

/// Whether `after` is `before` with its audio trimmed after a pass that gave `segments`.
///
/// Audio is trimmed just where it is longer than the threshold and a committed word ends within
/// it. It is cut at the end of the last segment that it can be cut at, or, without one, at the end
/// of the last committed word.
pub open spec fn trims<S>(
    before: ProcessorView<S>,
    after: ProcessorView<S>,
    segments: Seq<Option<SegmentView>>,
) -> bool {
    let end = before.committed.last().end;
    let ends = Seq::new(segments.len(), |i: int| segments[i]->0.end);
    let whole = forall|i: int| 0 <= i < segments.len() ==> (#[trigger] segments[i]) is Some;
    let long = before.audio.len() > before.config.buffer_trimming_sec;
    if long && before.committed.len() > 0 && end > before.offset {
        &&& forall|k: int|
            whole && #[trigger] cuts_at(ends, before.offset, end, k) ==> after.offset
                == before.offset + ends[k]
        &&& (!whole || forall|k: int| !(#[trigger] cuts_at(ends, before.offset, end, k)))
            ==> after.offset == end
        &&& cuts(before, after)
    } else {
        after == before
    }
}

impl<S> ProcessorView<S> {
    /// Audio is trimmed where it is too long, at the latest place that is safe to cut at.
    pub proof fn law_trims(self, segments: Seq<Option<SegmentView>>)
        ensures
            trims(self, self.trimmed(segments), segments),
    {
        let after = self.trimmed(segments);
        let end = self.committed.last().end;
        let ends = Seq::new(segments.len(), |i: int| segments[i]->0.end);
        let whole = forall|i: int| 0 <= i < segments.len() ==> (#[trigger] segments[i]) is Some;
        let found = committed_segment_cut(ends, self.offset, end);
        if self.committed.len() > 0 {
            assert(whole ==> self.segment_end_cut(segments) == found);
            assert(!whole ==> self.segment_end_cut(segments) is None) by {
                if !whole {
                    let i = choose|i: int|
                        0 <= i < segments.len() && !((#[trigger] segments[i]) is Some);
                    assert(segments[i] is None);
                }
            }
            lemma_cut_is_where_it_can_be(ends, self.offset, end, 0);
            assert forall|k: int| #[trigger] cuts_at(ends, self.offset, end, k) implies found == Some(
                self.offset + ends[k],
            ) by {
                lemma_cut_is_where_it_can_be(ends, self.offset, end, k);
            }
            if found is Some {
                let i = choose|i: int| #[trigger] cuts_at(ends, self.offset, end, i);
                assert(cuts_at(ends, self.offset, end, i));
            }
        }
        if let Some(cut) = self.cut(segments) {
            self.transcript.law_pop_committed(cut);
        }
    }

    /// A pass reads the words of its segments, stages what of them is new on the time line of the
    /// audio, commits what of it agrees with the hypothesis before and keeps the rest, and then
    /// trims the audio. What was read, the places of the segments that say anything, those of the
    /// words that are not of the past, and the number of repeated ones are given back.
    pub proof fn law_pass(self, segments: Seq<Option<SegmentView>>) -> (r: (
        Seq<int>,
        Seq<WordView>,
        Seq<int>,
        int,
    ))
        ensures
            ({
                let commit = self.pass_commit(segments);
                let rest = self.passed(segments).transcript.buffer;
                &&& reads(segments, r.0, r.1)
                &&& stages(self.transcript, r.1, self.offset, r.2, r.3, commit + rest)
                &&& agree_up_to(commit + rest, self.transcript.buffer, commit.len() as int)
                &&& trims(committed_and_kept(self, commit, rest), self.passed(segments), segments)
            }),
    {
        let read = law_pass_is_read(segments);
        let words = words_of(segments);
        let (at, dropped) = self.transcript.law_insert_stages_what_is_new(words, self.offset);
        let staged = self.staged(segments);
        staged.law_flush_moves_the_agreement();
        staged.law_agreement_is_longest(0);
        let commit = self.pass_commit(segments);
        let mid = self.agreed(segments);
        mid.law_trims(segments);
        let rest = self.passed(segments).transcript.buffer;
        assert(commit + rest =~= staged.new);
        assert(mid =~= committed_and_kept(self, commit, rest));
        (read, words, at, dropped)
    }
}

impl<S> ProcessorView<S> {
    /// Audio is cut after a pass just where it is longer than the threshold and the last committed
    /// word ends within it. What is cut off is the front of the audio, as much as the origin moves.
    /// It is cut at the end of the last segment but the final one that ends within the committed
    /// text, if all segments can be had and that end lies within the audio; else at the end of the
    /// last committed word. Where it is not the latter, the place of the segment is given back.
    pub proof fn law_pass_cuts_the_audio(self, segments: Seq<Option<SegmentView>>, k: int) -> (r: int)
        ensures
            ({
                let after = self.passed(segments);
                let committed = self.committed + self.pass_commit(segments);
                let end = committed.last().end;
                let gone = after.offset - self.offset;
                let len = self.audio.len() as int;
                let n = segments.len() as int;
                let whole = forall|i: int|
                    0 <= i < segments.len() ==> (#[trigger] segments[i]) is Some;
                let cut = len > self.config.buffer_trimming_sec && committed.len() > 0 && end
                    > self.offset;
                &&& after.committed == committed
                &&& !cut ==> after.offset == self.offset && after.audio == self.audio
                &&& cut ==> {
                    &&& self.offset < after.offset <= end
                    &&& gone >= len ==> after.audio.len() == 0
                    &&& gone < len ==> after.audio == self.audio.subrange(gone, len)
                    &&& whole && 0 <= k < n - 1 && 0 < segments[k]->0.end && self.offset
                        + segments[k]->0.end <= end && (forall|j: int|
                        k < j < n - 1 ==> self.offset + (#[trigger] segments[j])->0.end > end)
                        ==> after.offset == self.offset + segments[k]->0.end
                    &&& after.offset != end ==> {
                        &&& whole
                        &&& 0 <= r < n - 1
                        &&& after.offset == self.offset + segments[r]->0.end
                        &&& forall|j: int|
                            r < j < n - 1 ==> self.offset + (#[trigger] segments[j])->0.end > end
                    }
                }
            }),
    {
        let mid = self.agreed(segments);
        let after = self.passed(segments);
        mid.law_trims(segments);
        self.law_cut_within_committed(segments);
        let end = mid.committed.last().end;
        let ends = Seq::new(segments.len(), |i: int| segments[i]->0.end);
        let whole = forall|i: int| 0 <= i < segments.len() ==> (#[trigger] segments[i]) is Some;
        if 0 <= k < segments.len() - 1 && 0 < segments[k]->0.end && self.offset
            + segments[k]->0.end <= end && (forall|j: int|
            k < j < segments.len() - 1 ==> self.offset + (#[trigger] segments[j])->0.end > end) {
            assert forall|j: int| k < j < ends.len() - 1 implies self.offset + #[trigger] ends[j]
                > end by {
                assert(ends[j] == segments[j]->0.end);
            }
            assert(cuts_at(ends, self.offset, end, k));
        }
        if whole && exists|i: int| #[trigger] cuts_at(ends, self.offset, end, i) {
            let i = choose|i: int| #[trigger] cuts_at(ends, self.offset, end, i);
            assert(ends[i] == segments[i]->0.end);
            assert forall|j: int| i < j < segments.len() - 1 implies self.offset + (
            #[trigger] segments[j])->0.end > end by {
                assert(self.offset + ends[j] > end);
            }
            i
        } else {
            0
        }
    }

    /// Without a VAD all audio is kept, and no reset is ever due.
    pub proof fn law_all_audio_is_kept_without_a_vad(self, pcm: Seq<S>, has_speech: bool)
        requires
            self.vad is None,
        ensures
            self.heard(pcm, has_speech).audio == self.audio + pcm,
            self.heard(pcm, has_speech).vad is None,
            !self.heard(pcm, has_speech).reset_pending(),
    {
    }
}

/// A processor with `commit` behind its committed words and `rest` kept for the next comparison.
pub open spec fn committed_and_kept<S>(
    p: ProcessorView<S>,
    commit: Seq<WordView>,
    rest: Seq<WordView>,
) -> ProcessorView<S> {
    ProcessorView {
        committed: p.committed + commit,
        transcript: BufferView {
            committed_in_buffer: p.transcript.committed_in_buffer + commit,
            buffer: rest,
            new: Seq::empty(),
            last_committed_time: if commit.len() > 0 {
                commit[commit.len() - 1].end
            } else {
                p.transcript.last_committed_time
            },
            last_committed_word: if commit.len() > 0 {
                Some(commit[commit.len() - 1].text)
            } else {
                p.transcript.last_committed_word
            },
        },
        ..p
    }
}

/// A pass gives out the agreed head of its hypothesis as committed and the rest of it as tentative.
/// Where the recogniser failed nothing changes, and what it said is passed on.
pub proof fn law_complete_pass<S: Copy>(
    p: &mut OnlineAsrProcessor<S>,
    outcome: Result<Vec<Option<Segment>>, String>,
    r: Result<ProcessOutput, Error>,
) -> (w: (Seq<int>, Seq<WordView>, Seq<int>, int))
    requires
        call_ensures(OnlineAsrProcessor::<S>::complete_pass, (p, outcome), r),
    ensures
        ({
            let before = old(p)@;
            let after = final(p)@;
            match outcome {
                Ok(segments) => {
                    let given = segments_view(segments@);
                    &&& r matches Ok(output)
                    &&& ({
                        let commit = words_view(output.committed@);
                        let rest = words_view(output.tentative@);
                        &&& reads(given, w.0, w.1)
                        &&& stages(before.transcript, w.1, before.offset, w.2, w.3, commit + rest)
                        &&& agree_up_to(commit + rest, before.transcript.buffer, commit.len() as int)
                        &&& trims(committed_and_kept(before, commit, rest), after, given)
                        &&& !output.finalized_by_vad
                    })
                },
                Err(m) => {
                    &&& after == before
                    &&& r matches Err(e)
                    &&& e matches Error::Inference(said)
                    &&& said@ == m@
                },
            }
        }),
{
    match outcome {
        Ok(segments) => old(p)@.law_pass(segments_view(segments@)),
        Err(m) => {
            if let Err(e) = r {
                assert(e@ is Inference);
            }
            (Seq::empty(), Seq::empty(), Seq::empty(), 0)
        },
    }
}

/// The tentative words are those kept for the next comparison.
pub proof fn law_tentative<S: Copy>(p: OnlineAsrProcessor<S>, r: Vec<Word>)
    requires
        call_ensures(OnlineAsrProcessor::<S>::tentative, (&p,), r),
    ensures
        words_view(r@) == p@.transcript.buffer,
{
}

/// The end of the stream gives out the tentative words, all of them and no others, and counts them
/// as committed. The audio is finished with: the time line goes on where it ends. The VAD, what was
/// heard and the settings stay.
pub proof fn law_finish<S: Copy>(p: &mut OnlineAsrProcessor<S>, r: Vec<Word>)
    requires
        call_ensures(OnlineAsrProcessor::<S>::finish, (p,), r),
    ensures
        ({
            let before = old(p)@;
            let after = final(p)@;
            &&& words_view(r@) == before.transcript.buffer
            &&& after.committed == before.committed + words_view(r@)
            &&& after.audio.len() == 0
            &&& after.offset == before.offset + before.audio.len()
            &&& holds_nothing_from(after.transcript, after.offset)
            &&& after.config == before.config
            &&& after.vad == before.vad
            &&& after.total_audio == before.total_audio
            &&& after.speaking == before.speaking
        }),
{
}

/// A new processor has heard nothing, holds nothing, and begins at zero, with the settings and the
/// VAD that it is given; what was said of a decoder that could not be made is passed on.
pub proof fn law_from_context<S: Copy>(
    config: OnlineAsrConfig,
    vad: Option<VadModel>,
    decoder: Result<(), String>,
    r: Result<OnlineAsrProcessor<S>, Error>,
)
    requires
        call_ensures(OnlineAsrProcessor::<S>::from_context, (config, vad, decoder), r),
    ensures
        r is Ok <==> decoder is Ok,
        r matches Ok(p) ==> {
            &&& p@.audio.len() == 0
            &&& p@.committed.len() == 0
            &&& p@.offset == 0
            &&& p@.total_audio == 0
            &&& !p@.speaking
            &&& holds_nothing_from(p@.transcript, 0)
            &&& p@.config == config@
            &&& p@.vad is Some <==> vad is Some
            &&& p@.vad matches Some(v) ==> v.model == vad->0 && v.silence_samples == 0
                && !v.reset_pending
        },
        r matches Err(e) ==> (e matches Error::StateInit(m) && m@ == decoder->Err_0@),
{
    if let Err(e) = r {
        assert(e@ is StateInit);
    }
}

/// Whether `after` is `before` after a chunk of audio.
///
/// All audio moves the time line on. It is kept where there is no VAD, or where the VAD found
/// speech in it. Under a VAD speech begins or goes on with an utterance, and ends the silence.
/// Silence within an utterance adds up, and makes a reset due once it has lasted as long as the
/// settings say; a reset that is due stays due. Silence before an utterance does nothing. The words
/// and the settings stay.
pub open spec fn hears<S>(
    before: ProcessorView<S>,
    after: ProcessorView<S>,
    pcm: Seq<S>,
    speech: bool,
) -> bool {
    &&& after.total_audio == before.total_audio + pcm.len()
    &&& after.audio == (if before.vad is None || speech {
        before.audio + pcm
    } else {
        before.audio
    })
    &&& after.offset == before.offset
    &&& after.transcript == before.transcript
    &&& after.committed == before.committed
    &&& after.config == before.config
    &&& after.vad is Some <==> before.vad is Some
    &&& before.vad is None ==> after.speaking == before.speaking
    &&& before.vad matches Some(vad) ==> {
        let now = after.vad->0;
        let silent = before.speaking && !speech;
        let limit = vad.model.spec_config().silence_reset_sec.ticks;
        &&& now.model == vad.model
        &&& after.speaking == (before.speaking || speech)
        &&& speech ==> now.silence_samples == 0
        &&& silent ==> now.silence_samples == vad.silence_samples + pcm.len()
        &&& !speech && !silent ==> now.silence_samples == vad.silence_samples
        &&& limit <= usize::MAX && vad.silence_samples >= 0 ==> now.reset_pending == (
        vad.reset_pending || (silent && now.silence_samples >= limit))
        &&& limit > usize::MAX ==> now.reset_pending == (vad.reset_pending || (silent
            && now.silence_samples >= usize::MAX))
    }
}

/// A chunk of audio is heard as [`hears`] says; where the VAD failed nothing changes, and what it
/// said is passed on. There is speech in a chunk where the VAD found any segment in it.
pub proof fn law_insert_audio_chunk<S: Copy>(
    p: &mut OnlineAsrProcessor<S>,
    pcm: &[S],
    vad: VadOutcome,
    r: Result<(), Error>,
)
    requires
        call_ensures(OnlineAsrProcessor::<S>::insert_audio_chunk, (p, pcm, vad), r),
    ensures
        ({
            let failed = old(p)@.vad is Some && vad is Failed;
            &&& r is Ok <==> !failed
            &&& failed ==> final(p)@ == old(p)@ && (r matches Err(e) && (e matches Error::Vad(m)
                && m@ == vad->Failed_0@))
            &&& !failed ==> hears(
                old(p)@,
                final(p)@,
                pcm@,
                vad matches VadOutcome::Segments(n) && n >= 1,
            )
        }),
{
    if let Err(e) = r {
        assert(e@ is Vad);
    }
}

impl<S> ProcessorView<S> {
    /// Audio is heard as [`hears`] says.
    pub proof fn law_hears(self, pcm: Seq<S>, has_speech: bool)
        ensures
            hears(self, self.heard(pcm, has_speech), pcm, has_speech),
    {
    }

    /// A reset that is due stays due until it is carried out, whatever is heard and recognised.
    pub proof fn law_reset_stays_due(
        self,
        pcm: Seq<S>,
        has_speech: bool,
        segments: Seq<Option<SegmentView>>,
    )
        ensures
            due(self) ==> due(self.heard(pcm, has_speech)),
            due(self.passed(segments)) == due(self),
            due(self.finished()) == due(self),
            !due(self.reset()),
    {
    }

    /// Under a VAD it does not matter how silence is cut into chunks.
    pub proof fn law_silence_adds_up(self, a: Seq<S>, b: Seq<S>)
        requires
            self.vad is Some,
        ensures
            self.heard(a, false).heard(b, false) == self.heard(a + b, false),
    {
        assert(self.heard(a, false).heard(b, false) =~= self.heard(a + b, false));
    }
}

/// The settings of the VAD are those of its model.
pub proof fn law_vad_config<S: Copy>(p: OnlineAsrProcessor<S>, r: Option<VadConfig>)
    requires
        call_ensures(OnlineAsrProcessor::<S>::vad_config, (&p,), r),
    ensures
        r is Some <==> p@.vad is Some,
        r matches Some(config) ==> config == p@.vad->0.model.spec_config(),
{
}

/// The recogniser is run on all audio that is kept.
pub proof fn law_audio<S: Copy>(p: OnlineAsrProcessor<S>, r: &Vec<S>)
    requires
        call_ensures(OnlineAsrProcessor::<S>::audio, (&p,), r),
    ensures
        r@ == p@.audio,
{
}

/// The time line may reach this far either way, in ticks: for more than a million million million
/// years.
pub proof fn law_in_range<S: Copy>(p: OnlineAsrProcessor<S>, r: bool)
    requires
        call_ensures(OnlineAsrProcessor::<S>::in_range, (&p,), r),
    ensures
        r == p@.in_range(),
        r <==> -0x10_0000_0000_0000_0000_0000_0000 <= p@.offset
            <= 0x10_0000_0000_0000_0000_0000_0000 && p@.total_audio
            <= 0x10_0000_0000_0000_0000_0000_0000,
{
}

/// An output without any word is empty.
pub proof fn law_is_empty(output: ProcessOutput, r: bool)
    requires
        call_ensures(ProcessOutput::is_empty, (&output,), r),
    ensures
        r <==> output.committed@.len() == 0 && output.tentative@.len() == 0,
{
    assert(words_view(output.committed@).len() == output.committed@.len());
    assert(words_view(output.tentative@).len() == output.tentative@.len());
}

/// Samples are added behind those that are there.
pub proof fn law_append_samples<S: Copy>(audio: &mut Vec<S>, pcm: &[S], i: int)
    requires
        call_ensures(append_samples::<S>, (audio, pcm), ()),
    ensures
        final(audio)@.len() == old(audio)@.len() + pcm@.len(),
        0 <= i < old(audio)@.len() ==> final(audio)@[i] == old(audio)@[i],
        0 <= i < pcm@.len() ==> final(audio)@[old(audio)@.len() + i] == pcm@[i],
{
}

/// The default output holds nothing, and a copy holds what it is copied from.
pub proof fn law_output_values(output: ProcessOutput, copy: ProcessOutput, none: ProcessOutput)
    requires
        call_ensures(<ProcessOutput as Clone>::clone, (&output,), copy),
        call_ensures(<ProcessOutput as Default>::default, (), none),
    ensures
        same_words(copy.committed@, output.committed@),
        same_words(copy.tentative@, output.tentative@),
        copy.finalized_by_vad == output.finalized_by_vad,
        none.committed@.len() == 0,
        none.tentative@.len() == 0,
        !none.finalized_by_vad,
{
    assert(copy@.committed == output@.committed);
    lemma_same_words(copy.committed@, output.committed@);
    assert(copy@.tentative == output@.tentative);
    lemma_same_words(copy.tentative@, output.tentative@);
    assert(words_view(none.committed@).len() == 0);
    assert(words_view(none.tentative@).len() == 0);
}

/// A call that an utterance is made of: audio that is heard, or a pass over it.
pub enum ProcessorCall<S> {
    Hear { pcm: Seq<S>, has_speech: bool },
    Pass { segments: Seq<Option<SegmentView>> },
}

impl<S> ProcessorView<S> {
    /// The processor after a run of calls.
    pub open spec fn after_all(self, calls: Seq<ProcessorCall<S>>) -> Self
        decreases calls.len(),
    {
        if calls.len() == 0 {
            self
        } else {
            let before = self.after_all(calls.drop_last());
            match calls.last() {
                ProcessorCall::Hear { pcm, has_speech } => before.heard(pcm, has_speech),
                ProcessorCall::Pass { segments } => before.passed(segments),
            }
        }
    }

    /// All words that a run of calls gives out as committed.
    pub open spec fn given_out(self, calls: Seq<ProcessorCall<S>>) -> Seq<WordView>
        decreases calls.len(),
    {
        if calls.len() == 0 {
            Seq::empty()
        } else {
            let before = self.given_out(calls.drop_last());
            match calls.last() {
                ProcessorCall::Hear { .. } => before,
                ProcessorCall::Pass { segments } => before + self.after_all(
                    calls.drop_last(),
                ).pass_commit(segments),
            }
        }
    }

    /// No committed word is lost and none is given out twice. What the passes of an utterance give
    /// out are the committed words in order; and what the end of the utterance adds, be it by a
    /// reset that is due or by the end of the stream, are the words that were tentative then.
    pub proof fn law_utterance_is_given_out_once(
        self,
        calls: Seq<ProcessorCall<S>>,
        step: ProcessStep,
    )
        ensures
            ({
                let last = self.after_all(calls);
                let given = self.committed + self.given_out(calls);
                &&& given == last.committed
                &&& due(last) && step_of(last, step) ==> {
                    &&& step matches ProcessStep::Done { output, .. }
                    &&& given + words_view(output.committed@) == last.committed
                        + last.transcript.buffer
                    &&& starts_over(last, after_step(last))
                }
                &&& last.finished().committed == given + last.transcript.buffer
            }),
        decreases calls.len(),
    {
        let last = self.after_all(calls);
        if calls.len() == 0 {
            assert(self.committed + self.given_out(calls) =~= self.committed);
        } else {
            self.law_utterance_is_given_out_once(calls.drop_last(), step);
            let before = self.after_all(calls.drop_last());
            if let ProcessorCall::Pass { segments } = calls.last() {
                before.law_pass_splits_hypothesis(segments);
                assert(self.committed + self.given_out(calls) =~= self.committed + self.given_out(
                    calls.drop_last(),
                ) + before.pass_commit(segments));
            }
        }
        assert(due(last) == last.reset_pending());
    }
}

} // verus!
