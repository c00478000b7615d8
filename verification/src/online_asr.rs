//! Streaming processor that drives a hypothesis buffer.
//!
//! The processor holds a rolling buffer of 16 kHz audio. Every pass runs the recogniser on the
//! whole buffer, feeds the words it finds into the LocalAgreement-2 buffer, and trims old audio
//! once it grows long. The recogniser and the voice activity detector are run by the caller: the
//! processor says what to run, and takes in what came back.
//!
//! With a VAD, silent chunks are skipped, and after enough trailing silence the processor starts
//! over for the next utterance. Times stay continuous across such a reset, because every chunk
//! advances `total_audio_sec`, which becomes the new time offset.
use vstd::prelude::*;

use crate::error::{Error, ErrorView};
use crate::hypothesis_buffer::{
    clone_words, lemma_ended_from, shiftable, texts, words_view, BufferView, HypothesisBuffer, Word, WordView,
};
use crate::segments::{
    committed_segment_cut, extract_words, segment_cut_within_committed, segments_view, ticks_of,
    within_pass, words_of, Segment, SegmentView,
};
use crate::settings::{
    at_least_one, cjk, is_cjk, ConfigView, DecodingStrategy, OnlineAsrConfig, VadConfig, VadModel,
};
use crate::text::{contents, join, join_spec, same_text};
use crate::time::{representable, Seconds};

verus! {

/// The time line may reach this far from zero, in ticks.
pub const TIME_LIMIT: i128 = 0x10_0000_0000_0000_0000_0000_0000;

/// Result of one streaming pass.
#[derive(Debug, PartialEq)]
pub struct ProcessOutput {
    /// Words committed by this pass.
    pub committed: Vec<Word>,
    /// Current uncommitted hypothesis after this pass.
    pub tentative: Vec<Word>,
    /// Whether `committed` came from the end of an utterance instead of an agreement.
    pub finalized_by_vad: bool,
}

/// What a [`ProcessOutput`] says.
#[verifier::ext_equal]
pub struct OutputView {
    pub committed: Seq<WordView>,
    pub tentative: Seq<WordView>,
    pub finalized_by_vad: bool,
}

impl View for ProcessOutput {
    type V = OutputView;

    open spec fn view(&self) -> OutputView {
        OutputView {
            committed: words_view(self.committed@),
            tentative: words_view(self.tentative@),
            finalized_by_vad: self.finalized_by_vad,
        }
    }
}

impl Clone for ProcessOutput {
    fn clone(&self) -> (r: Self)
        ensures
            r@ == self@,
    {
        ProcessOutput {
            committed: clone_words(&self.committed),
            tentative: clone_words(&self.tentative),
            finalized_by_vad: self.finalized_by_vad,
        }
    }
}

impl Default for ProcessOutput {
    fn default() -> (r: Self)
        ensures
            r@ == (OutputView {
                committed: Seq::empty(),
                tentative: Seq::empty(),
                finalized_by_vad: false,
            }),
    {
        let r = ProcessOutput {
            committed: Vec::new(),
            tentative: Vec::new(),
            finalized_by_vad: false,
        };
        assert(r@ =~= (OutputView {
            committed: Seq::empty(),
            tentative: Seq::empty(),
            finalized_by_vad: false,
        }));
        r
    }
}

impl ProcessOutput {
    /// Whether this pass produced no committed or tentative words.
    pub fn is_empty(&self) -> (r: bool)
        ensures
            r == (self@.committed.len() == 0 && self@.tentative.len() == 0),
    {
        self.committed.len() == 0 && self.tentative.len() == 0
    }
}

/// What the VAD found in a chunk.
pub enum VadOutcome {
    /// The processor has no VAD.
    NotRun,
    /// The VAD found this many speech segments.
    Segments(i32),
    /// The VAD failed with this message.
    Failed(String),
}

/// What the recogniser is to be run with, on the audio of the processor.
pub struct InferenceRequest {
    pub decoding_strategy: DecodingStrategy,
    /// The language to set, or none to have it detected.
    pub language: Option<String>,
    pub n_threads: i32,
    /// The text to prompt the recogniser with, if any.
    pub initial_prompt: Option<String>,
    /// Timestamps for every token.
    pub token_timestamps: bool,
    /// Character budget of a segment. One character and `split_on_word` together make every
    /// segment exactly one word.
    pub max_len: i32,
    /// Segments are cut at word boundaries only.
    pub split_on_word: bool,
    /// Nothing is carried over from the pass before.
    pub no_context: bool,
    pub single_segment: bool,
    pub print_progress: bool,
    pub print_realtime: bool,
    pub print_timestamps: bool,
    pub print_special: bool,
}

/// What an [`InferenceRequest`] says of the settings that vary.
pub struct RequestView {
    pub decoding_strategy: DecodingStrategy,
    pub language: Option<Seq<char>>,
    pub n_threads: int,
    pub initial_prompt: Option<Seq<char>>,
}

impl View for InferenceRequest {
    type V = RequestView;

    open spec fn view(&self) -> RequestView {
        RequestView {
            decoding_strategy: self.decoding_strategy,
            language: match self.language {
                Some(language) => Some(language@),
                None => None,
            },
            n_threads: self.n_threads as int,
            initial_prompt: match self.initial_prompt {
                Some(prompt) => Some(prompt@),
                None => None,
            },
        }
    }
}

impl InferenceRequest {
    /// Whether the request asks for one word per segment, a pass that depends on nothing before
    /// it, and no printing.
    pub open spec fn one_word_per_segment(self) -> bool {
        &&& self.token_timestamps
        &&& self.max_len == 1
        &&& self.split_on_word
        &&& self.no_context
        &&& !self.single_segment
        &&& !self.print_progress
        &&& !self.print_realtime
        &&& !self.print_timestamps
        &&& !self.print_special
    }
}

/// What to do to carry out one pass.
pub enum ProcessStep {
    /// The pass is over. Where `rebuild_decoder` holds, the recogniser's state is to be replaced
    /// by a new one.
    Done { output: ProcessOutput, rebuild_decoder: bool },
    /// The recogniser is to be run, and what it gives handed to
    /// [`OnlineAsrProcessor::complete_pass`].
    Infer(InferenceRequest),
}

/// VAD state of one processor: the shared model, the silence so far, and whether a reset is due.
struct VadState {
    model: VadModel,
    silence_samples: u128,
    reset_pending: bool,
}

impl VadState {
    fn new(model: VadModel) -> (r: Self)
        ensures
            r@ == (VadView { model, silence_samples: 0, reset_pending: false }),
    {
        VadState { model, silence_samples: 0, reset_pending: false }
    }
}

/// What the VAD state of a processor says.
pub struct VadView {
    pub model: VadModel,
    pub silence_samples: int,
    pub reset_pending: bool,
}

impl View for VadState {
    type V = VadView;

    closed spec fn view(&self) -> VadView {
        VadView {
            model: self.model,
            silence_samples: self.silence_samples as int,
            reset_pending: self.reset_pending,
        }
    }
}

/// The separator between the words of a language.
pub open spec fn separator(language: Seq<char>) -> Seq<char> {
    if cjk(language) {
        Seq::empty()
    } else {
        seq![' ']
    }
}

/// Selects the words that end at or before `time`.
pub open spec fn ends_by(time: int) -> spec_fn(WordView) -> bool {
    |w: WordView| w.end <= time
}

/// How many of the last parts fit into `budget` characters, where every part costs one character
/// more than it has. The count starts at the end and stops at the first part that does not fit.
pub open spec fn fitting(parts: Seq<Seq<char>>, budget: int) -> int
    decreases parts.len(),
{
    if parts.len() == 0 || parts.last().len() + 1 > budget {
        0
    } else {
        1 + fitting(parts.drop_last(), budget - parts.last().len() - 1)
    }
}

/// What an [`OnlineAsrProcessor`] holds.
#[verifier::ext_equal]
pub struct ProcessorView<S> {
    pub audio: Seq<S>,
    pub offset: int,
    pub transcript: BufferView,
    pub committed: Seq<WordView>,
    pub config: ConfigView,
    pub vad: Option<VadView>,
    pub total_audio: int,
    pub speaking: bool,
}

impl<S> ProcessorView<S> {
    /// A processor that has heard nothing.
    pub open spec fn initial(config: ConfigView, vad: Option<VadModel>) -> Self {
        ProcessorView {
            audio: Seq::empty(),
            offset: 0,
            transcript: BufferView::starting_at(0),
            committed: Seq::empty(),
            config,
            vad: match vad {
                Some(model) => Some(VadView { model, silence_samples: 0, reset_pending: false }),
                None => None,
            },
            total_audio: 0,
            speaking: false,
        }
    }

    /// What holds of a processor at all times: a reset is due, and silence is counted, only after
    /// speech; no more silence is counted than audio was heard; the words kept for the search for
    /// repetitions are the last committed ones; and no hypothesis is left staged.
    pub open spec fn wf(self) -> bool {
        &&& self.total_audio >= 0
        &&& match self.vad {
            Some(vad) => {
                &&& 0 <= vad.silence_samples <= self.total_audio
                &&& vad.reset_pending ==> self.speaking
                &&& vad.silence_samples > 0 ==> self.speaking
            },
            None => !self.speaking,
        }
        &&& self.transcript.committed_in_buffer.len() <= self.committed.len()
        &&& self.transcript.committed_in_buffer =~= self.committed.subrange(
            self.committed.len() - self.transcript.committed_in_buffer.len(),
            self.committed.len() as int,
        )
        &&& self.transcript.new.len() == 0
    }

    /// Whether the time line is still within [`TIME_LIMIT`].
    pub open spec fn in_range(self) -> bool {
        &&& -TIME_LIMIT <= self.offset <= TIME_LIMIT
        &&& self.total_audio <= TIME_LIMIT
    }

    /// Whether a reset is due.
    pub open spec fn reset_pending(self) -> bool {
        self.vad matches Some(vad) && vad.reset_pending
    }

    /// The processor after a chunk of audio in which the VAD, if there is one, found speech or
    /// did not.
    pub open spec fn heard(self, pcm: Seq<S>, has_speech: bool) -> Self {
        let total_audio = self.total_audio + pcm.len();
        match self.vad {
            Some(vad) => if has_speech {
                ProcessorView {
                    audio: self.audio + pcm,
                    vad: Some(VadView { silence_samples: 0, ..vad }),
                    speaking: true,
                    total_audio,
                    ..self
                }
            } else if self.speaking {
                let silence_samples = vad.silence_samples + pcm.len();
                ProcessorView {
                    vad: Some(
                        VadView {
                            silence_samples,
                            reset_pending: vad.reset_pending || silence_samples
                                >= vad.model.spec_silence_reset_samples(),
                            ..vad
                        },
                    ),
                    total_audio,
                    ..self
                }
            } else {
                ProcessorView { total_audio, ..self }
            },
            None => ProcessorView { audio: self.audio + pcm, total_audio, ..self },
        }
    }

    /// The processor made ready for the next utterance, whose time line goes on where all audio
    /// heard so far ends.
    pub open spec fn reset(self) -> Self {
        ProcessorView {
            audio: Seq::empty(),
            offset: self.total_audio,
            transcript: BufferView::starting_at(self.total_audio),
            committed: Seq::empty(),
            vad: match self.vad {
                Some(vad) => Some(VadView { silence_samples: 0, reset_pending: false, ..vad }),
                None => None,
            },
            speaking: false,
            ..self
        }
    }

    /// The texts of the committed words that have left the audio buffer.
    pub open spec fn older_texts(self) -> Seq<Seq<char>> {
        texts(self.committed.filter(ends_by(self.offset)))
    }

    /// The prompt: the most recent committed words that have left the audio buffer, as many as
    /// fit into the character budget.
    pub open spec fn prompt(self) -> Seq<char> {
        let older = self.older_texts();
        let n = fitting(older, self.config.prompt_char_budget);
        join_spec(
            older.subrange(older.len() - n, older.len() as int),
            separator(self.config.language),
        )
    }

    /// What the recogniser is to be run with.
    pub open spec fn request(self) -> RequestView {
        RequestView {
            decoding_strategy: self.config.decoding_strategy,
            language: if self.config.language.len() == 0 || self.config.language == "auto"@ {
                None
            } else {
                Some(self.config.language)
            },
            n_threads: if self.config.n_threads < 1 {
                1
            } else {
                self.config.n_threads as int
            },
            initial_prompt: if self.prompt().len() == 0 {
                None
            } else {
                Some(self.prompt())
            },
        }
    }

    /// The buffer after the words of a pass are staged.
    pub open spec fn staged(self, segments: Seq<Option<SegmentView>>) -> BufferView {
        self.transcript.inserted(words_of(segments), self.offset)
    }

    /// The words that a pass commits.
    pub open spec fn pass_commit(self, segments: Seq<Option<SegmentView>>) -> Seq<WordView> {
        self.staged(segments).agreement()
    }

    /// The processor after the words that a pass agrees on are committed.
    pub open spec fn agreed(self, segments: Seq<Option<SegmentView>>) -> Self {
        ProcessorView {
            transcript: self.staged(segments).flushed(),
            committed: self.committed + self.pass_commit(segments),
            ..self
        }
    }

    /// Where the last committed word ends, if that is after the start of the audio.
    pub open spec fn commit_based_cut(self) -> Option<int> {
        if self.committed.len() > 0 && self.committed.last().end > self.offset {
            Some(self.committed.last().end)
        } else {
            None
        }
    }

    /// Where a completed segment within the committed text ends.
    pub open spec fn segment_end_cut(self, segments: Seq<Option<SegmentView>>) -> Option<int> {
        if self.committed.len() == 0 || (exists|i: int|
            0 <= i < segments.len() && (#[trigger] segments[i]) is None) {
            None
        } else {
            committed_segment_cut(
                Seq::new(segments.len(), |i: int| segments[i]->0.end),
                self.offset,
                self.committed.last().end,
            )
        }
    }

    /// Where the audio is to be cut, if it is too long and there is a cut point.
    pub open spec fn cut(self, segments: Seq<Option<SegmentView>>) -> Option<int> {
        if self.audio.len() <= self.config.buffer_trimming_sec {
            None
        } else {
            match self.segment_end_cut(segments) {
                Some(cut) => Some(cut),
                None => self.commit_based_cut(),
            }
        }
    }

    /// The processor with its audio cut at `cut`, which is after the start of the audio.
    pub open spec fn cut_at(self, cut: int) -> Self {
        let dropped = if cut - self.offset < self.audio.len() {
            cut - self.offset
        } else {
            self.audio.len() as int
        };
        ProcessorView {
            audio: self.audio.subrange(dropped, self.audio.len() as int),
            offset: cut,
            transcript: self.transcript.popped(cut).advanced(cut),
            ..self
        }
    }

    /// The processor after its audio is trimmed, where that is due.
    pub open spec fn trimmed(self, segments: Seq<Option<SegmentView>>) -> Self {
        match self.cut(segments) {
            Some(cut) => self.cut_at(cut),
            None => self,
        }
    }

    /// The processor after a pass that gave `segments`.
    pub open spec fn passed(self, segments: Seq<Option<SegmentView>>) -> Self {
        self.agreed(segments).trimmed(segments)
    }

    /// The processor after the end of the stream.
    pub open spec fn finished(self) -> Self {
        let end = self.offset + self.audio.len();
        ProcessorView {
            audio: Seq::empty(),
            offset: end,
            transcript: BufferView::starting_at(end),
            committed: self.committed + self.transcript.buffer,
            ..self
        }
    }
}

impl<S> ProcessorView<S> {
    proof fn lemma_agreed_wf(self, segments: Seq<Option<SegmentView>>)
        requires
            self.wf(),
        ensures
            self.agreed(segments).wf(),
    {
    }

    proof fn lemma_cut_wf(self, cut: int)
        requires
            self.wf(),
        ensures
            self.cut_at(cut).wf(),
    {
        lemma_ended_from(self.transcript.committed_in_buffer, cut, 0);
    }
}

/// The processor after a pass has begun: a reset that is due is carried out.
pub open spec fn after_step<S>(before: ProcessorView<S>) -> ProcessorView<S> {
    if before.reset_pending() {
        before.reset()
    } else {
        before
    }
}

/// Whether `step` is what a pass begins with.
pub open spec fn step_of<S>(before: ProcessorView<S>, step: ProcessStep) -> bool {
    if before.reset_pending() {
        &&& step matches ProcessStep::Done { output, rebuild_decoder }
        &&& rebuild_decoder
        &&& output@ == (OutputView {
            committed: before.transcript.buffer,
            tentative: Seq::empty(),
            finalized_by_vad: true,
        })
    } else if before.audio.len() == 0 {
        &&& step matches ProcessStep::Done { output, rebuild_decoder }
        &&& !rebuild_decoder
        &&& output@ == (OutputView {
            committed: Seq::empty(),
            tentative: before.transcript.buffer,
            finalized_by_vad: false,
        })
    } else {
        &&& step matches ProcessStep::Infer(request)
        &&& request@ == before.request()
        &&& request.one_word_per_segment()
    }
}

/// Streaming processor implementing LocalAgreement-2 over audio samples of type `S`.
pub struct OnlineAsrProcessor<S> {
    audio_buffer: Vec<S>,
    buffer_time_offset: Seconds,
    transcript_buffer: HypothesisBuffer,
    committed: Vec<Word>,
    config: OnlineAsrConfig,
    vad: Option<VadState>,
    /// All audio heard since construction, speech or silence. It anchors the time line when a
    /// reset starts the next utterance.
    total_audio_sec: Seconds,
    /// Whether the current utterance has had any speech yet.
    speaking: bool,
}

impl<S> View for OnlineAsrProcessor<S> {
    type V = ProcessorView<S>;

    closed spec fn view(&self) -> ProcessorView<S> {
        ProcessorView {
            audio: self.audio_buffer@,
            offset: self.buffer_time_offset@,
            transcript: self.transcript_buffer@,
            committed: words_view(self.committed@),
            config: self.config@,
            vad: match self.vad {
                Some(vad) => Some(vad@),
                None => None,
            },
            total_audio: self.total_audio_sec@,
            speaking: self.speaking,
        }
    }
}

impl<S: Copy> OnlineAsrProcessor<S> {
    /// A processor that has heard nothing. `decoder` tells whether the recogniser could make a
    /// state for it, or with what message it failed.
    pub fn from_context(
        config: OnlineAsrConfig,
        vad: Option<VadModel>,
        decoder: Result<(), String>,
    ) -> (r: Result<Self, Error>)
        ensures
            match decoder {
                Ok(_) => r matches Ok(p) && p@ == ProcessorView::<S>::initial(config@, vad)
                    && p@.wf() && p@.in_range(),
                Err(m) => r matches Err(e) && e@ == ErrorView::StateInit(m@),
            },
    {
        match decoder {
            Ok(_) => {
                let state: Option<VadState> = match vad {
                    Some(model) => Some(VadState::new(model)),
                    None => None,
                };
                let p = OnlineAsrProcessor {
                    audio_buffer: Vec::new(),
                    buffer_time_offset: Seconds { ticks: 0 },
                    transcript_buffer: HypothesisBuffer::new(),
                    committed: Vec::new(),
                    config,
                    vad: state,
                    total_audio_sec: Seconds { ticks: 0 },
                    speaking: false,
                };
                assert(p@ =~= ProcessorView::<S>::initial(config@, vad));
                Ok(p)
            },
            Err(m) => Err(Error::StateInit(m)),
        }
    }

    /// Whether the time line is still within [`TIME_LIMIT`].
    pub fn in_range(&self) -> (r: bool)
        ensures
            r == self@.in_range(),
    {
        -TIME_LIMIT <= self.buffer_time_offset.ticks && self.buffer_time_offset.ticks <= TIME_LIMIT
            && self.total_audio_sec.ticks <= TIME_LIMIT
    }

    /// The settings of the VAD that every chunk is to be run through, if there is one.
    pub fn vad_config(&self) -> (r: Option<VadConfig>)
        ensures
            match self@.vad {
                Some(vad) => r == Some(vad.model.spec_config()),
                None => r is None,
            },
    {
        match &self.vad {
            Some(vad) => Some(vad.model.config()),
            None => None,
        }
    }

    /// The audio that the recogniser is to be run on.
    pub fn audio(&self) -> (r: &Vec<S>)
        ensures
            r@ == self@.audio,
    {
        &self.audio_buffer
    }

    /// Takes in a chunk of 16 kHz mono audio.
    ///
    /// With a VAD, a chunk in which it found no speech is dropped, and once enough trailing
    /// silence has gathered a reset is due at the next [`Self::process`]. Where the VAD failed,
    /// nothing changes.
    pub fn insert_audio_chunk(&mut self, pcm: &[S], vad: VadOutcome) -> (r: Result<(), Error>)
        requires
            old(self)@.wf(),
            old(self)@.in_range(),
            old(self)@.vad is Some ==> vad !is NotRun,
        ensures
            final(self)@.wf(),
            match (old(self)@.vad, vad) {
                (Some(_), VadOutcome::Failed(m)) => final(self)@ == old(self)@ && (r matches Err(e)
                    && e@ == ErrorView::Vad(m@)),
                (_, VadOutcome::Segments(n)) => r is Ok && final(self)@ == old(self)@.heard(
                    pcm@,
                    n > 0,
                ),
                _ => r is Ok && final(self)@ == old(self)@.heard(pcm@, false),
            },
    {
        let has_speech: bool = match (&self.vad, vad) {
            (Some(_), VadOutcome::Failed(m)) => {
                return Err(Error::Vad(m));
            },
            (_, VadOutcome::Segments(n)) => n > 0,
            _ => false,
        };
        let chunk_len: usize = pcm.len();
        let mut keep: bool = false;
        if let Some(state) = &mut self.vad {
            if has_speech {
                keep = true;
                state.silence_samples = 0;
                self.speaking = true;
            } else if self.speaking {
                state.silence_samples = state.silence_samples + chunk_len as u128;
                if state.silence_samples >= state.model.silence_reset_samples() as u128 {
                    state.reset_pending = true;
                }
            }
        } else {
            keep = true;
        }
        if keep {
            append_samples(&mut self.audio_buffer, pcm);
        }
        self.total_audio_sec = Seconds { ticks: self.total_audio_sec.ticks + chunk_len as i128 };
        assert(self@ =~= old(self)@.heard(pcm@, has_speech));
        Ok(())
    }

    /// Makes the processor ready for the next utterance, whose time line goes on where all audio
    /// heard so far ends.
    fn reset_for_next_utterance(&mut self)
        requires
            old(self)@.wf(),
        ensures
            final(self)@ == old(self)@.reset(),
            final(self)@.wf(),
    {
        self.audio_buffer = Vec::new();
        self.transcript_buffer.reset_to_time(self.total_audio_sec);
        self.buffer_time_offset = self.total_audio_sec;
        self.committed = Vec::new();
        self.speaking = false;
        if let Some(state) = &mut self.vad {
            state.silence_samples = 0;
            state.reset_pending = false;
        }
        assert(self@ =~= old(self)@.reset());
    }

    /// Begins one pass over the rolling buffer.
    ///
    /// A reset that is due ends the utterance: the tentative words are given out as committed,
    /// and nothing is recognised. Without audio the pass is over too. Otherwise the recogniser is
    /// to be run.
    pub fn process(&mut self) -> (step: ProcessStep)
        requires
            old(self)@.wf(),
        ensures
            final(self)@.wf(),
            final(self)@ == after_step(old(self)@),
            step_of(old(self)@, step),
    {
        let reset_pending: bool = match &self.vad {
            Some(state) => state.reset_pending,
            None => false,
        };
        if reset_pending {
            let flushed: Vec<Word> = self.transcript_buffer.complete();
            self.reset_for_next_utterance();
            let output = ProcessOutput {
                committed: flushed,
                tentative: Vec::new(),
                finalized_by_vad: true,
            };
            assert(output@.tentative =~= Seq::<WordView>::empty());
            return ProcessStep::Done { output, rebuild_decoder: true };
        }
        if self.audio_buffer.len() == 0 {
            let output = ProcessOutput {
                committed: Vec::new(),
                tentative: self.tentative(),
                finalized_by_vad: false,
            };
            assert(output@.committed =~= Seq::<WordView>::empty());
            return ProcessStep::Done { output, rebuild_decoder: false };
        }
        ProcessStep::Infer(self.inference_request())
    }

    /// What the recogniser is to be run with.
    fn inference_request(&self) -> (request: InferenceRequest)
        ensures
            request@ == self@.request(),
            request.one_word_per_segment(),
    {
        let prompt: String = self.build_init_prompt();
        let unset: bool = self.config.language.as_str().unicode_len() == 0 || same_text(
            self.config.language.as_str(),
            "auto",
        );
        let language: Option<String> = if unset {
            None
        } else {
            Some(self.config.language.clone())
        };
        let initial_prompt: Option<String> = if prompt.as_str().unicode_len() == 0 {
            None
        } else {
            Some(prompt)
        };
        InferenceRequest {
            decoding_strategy: self.config.decoding_strategy,
            language,
            n_threads: at_least_one(self.config.n_threads),
            initial_prompt,
            token_timestamps: true,
            max_len: 1,
            split_on_word: true,
            no_context: true,
            single_segment: false,
            print_progress: false,
            print_realtime: false,
            print_timestamps: false,
            print_special: false,
        }
    }

    /// Ends a pass for which [`Self::process`] asked: takes in the segments that the recogniser
    /// gave, or the message with which it failed.
    pub fn complete_pass(
        &mut self,
        outcome: Result<Vec<Option<Segment>>, String>,
    ) -> (r: Result<ProcessOutput, Error>)
        requires
            old(self)@.wf(),
            old(self)@.in_range(),
        ensures
            final(self)@.wf(),
            match outcome {
                Ok(segments) => {
                    &&& final(self)@ == old(self)@.passed(segments_view(segments@))
                    &&& r matches Ok(output)
                    &&& output@ == (OutputView {
                        committed: old(self)@.pass_commit(segments_view(segments@)),
                        tentative: final(self)@.transcript.buffer,
                        finalized_by_vad: false,
                    })
                },
                Err(m) => final(self)@ == old(self)@ && (r matches Err(e) && e@
                    == ErrorView::Inference(m@)),
            },
    {
        let segments: Vec<Option<Segment>> = match outcome {
            Ok(segments) => segments,
            Err(m) => {
                return Err(Error::Inference(m));
            },
        };
        let ghost segs = segments_view(segments@);
        let words: Vec<Word> = extract_words(&segments);
        assert(shiftable(words_view(words@), self.buffer_time_offset@)) by {
            assert forall|i: int| 0 <= i < words_view(words@).len() implies representable(
                (#[trigger] words_view(words@)[i]).start + self.buffer_time_offset@,
            ) && representable(words_view(words@)[i].end + self.buffer_time_offset@) by {
                assert(within_pass(words@[i].start@));
            }
        }
        self.transcript_buffer.insert(words, self.buffer_time_offset);
        let committed: Vec<Word> = self.transcript_buffer.flush();
        let mut added: Vec<Word> = clone_words(&committed);
        let ghost before = self.committed@;
        self.committed.append(&mut added);
        assert(words_view(self.committed@) == words_view(before) + words_view(committed@));
        assert(self@ =~= old(self)@.agreed(segs));
        proof {
            old(self)@.lemma_agreed_wf(segs);
        }
        self.maybe_trim(&segments);
        let tentative: Vec<Word> = self.tentative();
        Ok(ProcessOutput { committed, tentative, finalized_by_vad: false })
    }

    /// Consumes the tentative words at the end of the stream.
    ///
    /// The current audio counts as finished. A second call returns no words unless another pass
    /// has been made in between.
    pub fn finish(&mut self) -> (remaining: Vec<Word>)
        requires
            old(self)@.wf(),
            old(self)@.in_range(),
        ensures
            final(self)@.wf(),
            final(self)@ == old(self)@.finished(),
            words_view(remaining@) == old(self)@.transcript.buffer,
    {
        let remaining: Vec<Word> = self.transcript_buffer.drain_complete();
        self.buffer_time_offset =
        Seconds { ticks: self.buffer_time_offset.ticks + self.audio_buffer.len() as i128 };
        self.audio_buffer = Vec::new();
        let mut added: Vec<Word> = clone_words(&remaining);
        let ghost before = self.committed@;
        self.committed.append(&mut added);
        assert(words_view(self.committed@) == words_view(before) + words_view(remaining@));
        self.transcript_buffer.reset_to_time(self.buffer_time_offset);
        assert(self@ =~= old(self)@.finished());
        remaining
    }

    /// The words that are predicted but not yet committed.
    pub fn tentative(&self) -> (r: Vec<Word>)
        ensures
            words_view(r@) == self@.transcript.buffer,
    {
        self.transcript_buffer.complete()
    }

    /// Word separator of the configured language.
    pub fn sep(&self) -> (r: &'static str)
        ensures
            r@ == separator(self@.config.language),
    {
        proof {
            reveal_strlit("");
            reveal_strlit(" ");
        }
        if is_cjk(self.config.language.as_str()) {
            assert(""@ =~= Seq::<char>::empty());
            ""
        } else {
            assert(" "@ =~= seq![' ']);
            " "
        }
    }

    /// Joins the most recent committed words that have left the audio buffer, as many as fit into
    /// the character budget.
    pub fn build_init_prompt(&self) -> (r: String)
        ensures
            r@ == self@.prompt(),
    {
        let ghost all = words_view(self.committed@);
        let ghost keep = ends_by(self.buffer_time_offset@);
        let mut older: Vec<String> = Vec::new();
        let mut i: usize = 0;
        proof {
            reveal(Seq::filter);
        }
        assert(contents(older@) == texts(all.subrange(0, 0).filter(keep)));
        while i < self.committed.len()
            invariant
                i <= self.committed@.len(),
                all == words_view(self.committed@),
                keep == ends_by(self.buffer_time_offset@),
                contents(older@) == texts(all.subrange(0, i as int).filter(keep)),
            decreases self.committed@.len() - i,
        {
            let ghost before = older@;
            proof {
                reveal(Seq::filter);
                assert(all.subrange(0, i + 1).drop_last() == all.subrange(0, i as int));
            }
            if self.committed[i].end.ticks <= self.buffer_time_offset.ticks {
                older.push(self.committed[i].text.clone());
                assert(contents(older@) == contents(before).push(all[i as int].text));
                assert(contents(older@) == texts(
                    all.subrange(0, i as int).filter(keep).push(all[i as int]),
                ));
            }
            i = i + 1;
        }
        assert(all.subrange(0, all.len() as int) == all);
        let ghost parts = contents(older@);
        assert(parts == self@.older_texts());
        let n: usize = count_fitting(&older, self.config.prompt_char_budget);
        let from: usize = older.len() - n;
        let taken: Vec<String> = older.split_off(from);
        assert(contents(taken@) == parts.subrange(parts.len() - n, parts.len() as int));
        join(&taken, self.sep())
    }

    /// Where the last committed word ends, if that is after the start of the audio.
    fn commit_based_cut(&self) -> (r: Option<Seconds>)
        ensures
            match self@.commit_based_cut() {
                Some(cut) => r matches Some(t) && t@ == cut,
                None => r is None,
            },
    {
        let n: usize = self.committed.len();
        if n > 0 && self.committed[n - 1].end.ticks > self.buffer_time_offset.ticks {
            Some(self.committed[n - 1].end)
        } else {
            None
        }
    }

    /// Where a completed segment within the committed text ends.
    fn segment_end_cut(&self, segments: &Vec<Option<Segment>>) -> (r: Option<Seconds>)
        requires
            self@.in_range(),
        ensures
            match self@.segment_end_cut(segments_view(segments@)) {
                Some(cut) => r matches Some(t) && t@ == cut,
                None => r is None,
            },
    {
        let n: usize = self.committed.len();
        if n == 0 {
            return None;
        }
        let ghost segs = segments_view(segments@);
        let last_committed_end: Seconds = self.committed[n - 1].end;
        let mut ends: Vec<Seconds> = Vec::new();
        let mut i: usize = 0;
        while i < segments.len()
            invariant
                i <= segments@.len(),
                segs == segments_view(segments@),
                ends@.len() == i,
                forall|j: int|
                    0 <= j < i ==> (#[trigger] segs[j]) is Some && ends@[j]@ == segs[j]->0.end,
                forall|j: int| 0 <= j < i ==> within_pass((#[trigger] ends@[j])@),
                self@.committed.len() > 0,
            decreases segments@.len() - i,
        {
            match &segments[i] {
                Some(segment) => {
                    ends.push(Seconds::from_centis(segment.end));
                    assert(segs[i as int] is Some);
                },
                None => {
                    assert(segs[i as int] is None);
                    return None;
                },
            }
            i = i + 1;
        }
        assert(ticks_of(ends@) =~= Seq::new(segs.len(), |i: int| segs[i]->0.end));
        segment_cut_within_committed(
            ends.as_slice(),
            self.buffer_time_offset,
            last_committed_end,
        )
    }

    /// Trims the audio once it is longer than `buffer_trimming_sec`.
    ///
    /// It is cut at the end of a completed segment within the committed text, or else at the end
    /// of the last committed word. A cut past the last committed word would discard audio that no
    /// agreement has confirmed yet.
    fn maybe_trim(&mut self, segments: &Vec<Option<Segment>>)
        requires
            old(self)@.wf(),
            old(self)@.in_range(),
        ensures
            final(self)@ == old(self)@.trimmed(segments_view(segments@)),
            final(self)@.wf(),
    {
        let ghost segs = segments_view(segments@);
        let len: i128 = self.audio_buffer.len() as i128;
        if len <= self.config.buffer_trimming_sec.ticks {
            return;
        }
        let cut: Seconds = match self.segment_end_cut(segments) {
            Some(cut) => cut,
            None => match self.commit_based_cut() {
                Some(cut) => cut,
                None => {
                    return;
                },
            },
        };
        assert(self@.cut(segs) == Some(cut@));
        self.transcript_buffer.pop_committed(cut);
        let dropped: usize = if cut.ticks < self.buffer_time_offset.ticks + len {
            (cut.ticks - self.buffer_time_offset.ticks) as usize
        } else {
            self.audio_buffer.len()
        };
        let rest: Vec<S> = self.audio_buffer.split_off(dropped);
        self.audio_buffer = rest;
        self.buffer_time_offset = cut;
        // What starts well before the new origin is past, and is not to be staged again.
        self.transcript_buffer.advance_last_committed_time(cut);
        assert(self@ =~= old(self)@.cut_at(cut@));
        proof {
            old(self)@.lemma_cut_wf(cut@);
        }
    }
}

/// How many of the last parts fit into `budget` characters.
fn count_fitting(parts: &Vec<String>, budget: usize) -> (n: usize)
    ensures
        n == fitting(contents(parts@), budget as int),
        n <= parts@.len(),
{
    let ghost all = contents(parts@);
    let mut n: usize = 0;
    let mut left: usize = budget;
    assert(all.subrange(0, all.len() as int) == all);
    while n < parts.len()
        invariant_except_break
            fitting(all, budget as int) == n + fitting(
                all.subrange(0, all.len() - n),
                left as int,
            ),
        invariant
            all == contents(parts@),
            n <= parts@.len(),
        ensures
            n == fitting(all, budget as int),
        decreases parts@.len() - n,
    {
        let ghost rest = all.subrange(0, all.len() - n);
        let i: usize = parts.len() - 1 - n;
        let count: usize = parts[i].as_str().unicode_len();
        assert(rest.last() == all[i as int]);
        if count >= left {
            break;
        }
        assert(rest.drop_last() == all.subrange(0, all.len() - (n + 1)));
        left = left - count - 1;
        n = n + 1;
    }
    n
}

/// Appends `pcm` to `audio`.
pub fn append_samples<S: Copy>(audio: &mut Vec<S>, pcm: &[S])
    ensures
        final(audio)@ == old(audio)@ + pcm@,
{
    let mut i: usize = 0;
    assert(audio@ == old(audio)@ + pcm@.subrange(0, 0));
    while i < pcm.len()
        invariant
            i <= pcm@.len(),
            audio@ == old(audio)@ + pcm@.subrange(0, i as int),
        decreases pcm@.len() - i,
    {
        audio.push(pcm[i]);
        i = i + 1;
        assert(pcm@.subrange(0, i as int) == pcm@.subrange(0, i - 1).push(pcm@[i - 1]));
        assert(audio@ == old(audio)@ + pcm@.subrange(0, i as int));
    }
    assert(pcm@.subrange(0, pcm@.len() as int) == pcm@);
}

} // verus!
