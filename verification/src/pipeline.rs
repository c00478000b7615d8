//! From source audio to recogniser passes.
use vstd::prelude::*;

use crate::audio::{AudioInputConfig, ProcessInterval};
use crate::error::{Error, ErrorView};
use crate::hypothesis_buffer::{words_view, Word};
use crate::online_asr::{
    after_step, append_samples, separator, step_of, OnlineAsrProcessor, OutputView, ProcessOutput, ProcessStep,
    ProcessorView, VadOutcome,
};
use crate::resampler::{LinearResampler, ResamplerView, Tap};
use crate::segments::{segments_view, Segment};

verus! {

/// What an [`AsrPipeline`] holds.
#[verifier::ext_equal]
pub struct PipelineView<S> {
    pub processor: ProcessorView<S>,
    pub resampler: ResamplerView<S>,
    pub pending: Seq<S>,
    pub channels: int,
    pub min_samples: int,
}

/// How much audio is gathered before a pass: the interval, and at least one sample.
pub open spec fn min_samples(interval: ProcessInterval) -> int {
    match interval {
        ProcessInterval::Positive { samples } => if samples < 1 {
            1
        } else if samples > usize::MAX {
            usize::MAX as int
        } else {
            samples as int
        },
        _ => 1,
    }
}

impl<S> PipelineView<S> {
    /// A pipeline that has been given no audio.
    pub open spec fn initial(processor: ProcessorView<S>, config: AudioInputConfig) -> Self {
        PipelineView {
            processor,
            resampler: ResamplerView {
                input_rate: config.sample_rate as int,
                output_rate: 16_000,
                pos: 0,
                last: None,
            },
            pending: Seq::empty(),
            channels: config.channels as int,
            min_samples: min_samples(config.process_interval_sec),
        }
    }

    /// What holds of a pipeline at all times.
    pub open spec fn wf(self) -> bool {
        &&& self.processor.wf()
        &&& self.resampler.wf()
        &&& self.resampler.output_rate == 16_000
        &&& self.channels > 0
        &&& self.min_samples > 0
    }
}

/// Audio pipeline: resampling, and gathering of audio until a pass is worth it, around an
/// [`OnlineAsrProcessor`].
pub struct AsrPipeline<S> {
    processor: OnlineAsrProcessor<S>,
    resampler: LinearResampler<S>,
    pending: Vec<S>,
    channels: usize,
    min_samples: usize,
}

impl<S> View for AsrPipeline<S> {
    type V = PipelineView<S>;

    closed spec fn view(&self) -> PipelineView<S> {
        PipelineView {
            processor: self.processor@,
            resampler: self.resampler@,
            pending: self.pending@,
            channels: self.channels as int,
            min_samples: self.min_samples as int,
        }
    }
}

impl<S: Copy> AsrPipeline<S> {
    /// A pipeline for an existing processor and source audio format.
    pub fn new(processor: OnlineAsrProcessor<S>, config: AudioInputConfig) -> (r: Result<Self, Error>)
        requires
            processor@.wf(),
        ensures
            match config.problem() {
                Some(m) => r matches Err(e) && e@ == ErrorView::InvalidAudio(m),
                None => r matches Ok(p) && p@ == PipelineView::initial(processor@, config)
                    && p@.wf(),
            },
    {
        let config: AudioInputConfig = match config.validate() {
            Ok(config) => config,
            Err(e) => {
                return Err(e);
            },
        };
        let min_samples: usize = match config.process_interval_sec {
            ProcessInterval::Positive { samples } => if samples < 1 {
                1
            } else if samples > usize::MAX as u64 {
                usize::MAX
            } else {
                samples as usize
            },
            _ => 1,
        };
        let resampler: LinearResampler<S> = match LinearResampler::new(config.sample_rate, 16_000) {
            Ok(resampler) => resampler,
            Err(e) => {
                return Err(e);
            },
        };
        let p = AsrPipeline {
            processor,
            resampler,
            pending: Vec::new(),
            channels: config.channels,
            min_samples,
        };
        assert(p@ =~= PipelineView::initial(processor@, config));
        Ok(p)
    }

    /// Number of interleaved source channels.
    pub fn channels(&self) -> (r: usize)
        ensures
            r == self@.channels,
    {
        self.channels
    }

    /// Takes in mono samples at the source sample rate. What is given back is to be interpolated
    /// and handed to [`Self::push_resampled`].
    pub fn push_mono(&mut self, samples: &[S]) -> (r: Vec<Tap<S>>)
        requires
            old(self)@.wf(),
        ensures
            final(self)@.wf(),
            final(self)@ == (PipelineView {
                resampler: old(self)@.resampler.after(samples@),
                ..old(self)@
            }),
            r@ == old(self)@.resampler.taps(samples@),
    {
        let r: Vec<Tap<S>> = self.resampler.process(samples);
        assert(self@ =~= (PipelineView {
            resampler: old(self)@.resampler.after(samples@),
            ..old(self)@
        }));
        r
    }

    /// Gathers 16 kHz samples, and tells whether there is enough new audio for a pass.
    pub fn push_resampled(&mut self, samples: &[S]) -> (ready: bool)
        requires
            old(self)@.wf(),
        ensures
            final(self)@.wf(),
            final(self)@ == (PipelineView { pending: old(self)@.pending + samples@, ..old(self)@ }),
            ready == (final(self)@.pending.len() >= old(self)@.min_samples),
    {
        append_samples(&mut self.pending, samples);
        assert(self@ =~= (PipelineView { pending: old(self)@.pending + samples@, ..old(self)@ }));
        self.pending.len() >= self.min_samples
    }

    /// Whether there is gathered audio that a pass can be made on before the interval is over.
    pub fn flush_pending(&self) -> (r: bool)
        ensures
            r == (self@.pending.len() > 0),
    {
        self.pending.len() > 0
    }

    /// The gathered audio, which the VAD is to be run on before [`Self::process_pending`].
    pub fn pending(&self) -> (r: &Vec<S>)
        ensures
            r@ == self@.pending,
    {
        &self.pending
    }

    /// Hands the gathered audio to the processor and begins a pass. Where the VAD failed the
    /// audio stays gathered.
    pub fn process_pending(&mut self, vad: VadOutcome) -> (r: Result<ProcessStep, Error>)
        requires
            old(self)@.wf(),
            old(self)@.processor.in_range(),
            old(self)@.processor.vad is Some ==> vad !is NotRun,
        ensures
            final(self)@.wf(),
            match (old(self)@.processor.vad, vad) {
                (Some(_), VadOutcome::Failed(m)) => final(self)@ == old(self)@ && (r matches Err(e)
                    && e@ == ErrorView::Vad(m@)),
                _ => {
                    let heard = old(self)@.processor.heard(
                        old(self)@.pending,
                        vad matches VadOutcome::Segments(n) && n > 0,
                    );
                    &&& r matches Ok(step)
                    &&& step_of(heard, step)
                    &&& final(self)@ == (PipelineView {
                        processor: after_step(heard),
                        pending: Seq::empty(),
                        ..old(self)@
                    })
                },
            },
    {
        match self.processor.insert_audio_chunk(self.pending.as_slice(), vad) {
            Ok(_) => {},
            Err(e) => {
                return Err(e);
            },
        }
        self.pending = Vec::new();
        let step: ProcessStep = self.processor.process();
        assert(self@ =~= (PipelineView {
            processor: self@.processor,
            pending: Seq::empty(),
            ..old(self)@
        }));
        Ok(step)
    }

    /// Ends a pass for which [`Self::process_pending`] asked.
    pub fn complete_pass(
        &mut self,
        outcome: Result<Vec<Option<Segment>>, String>,
    ) -> (r: Result<ProcessOutput, Error>)
        requires
            old(self)@.wf(),
            old(self)@.processor.in_range(),
        ensures
            final(self)@.wf(),
            match outcome {
                Ok(segments) => {
                    let processor = old(self)@.processor.passed(segments_view(segments@));
                    &&& final(self)@ == (PipelineView { processor, ..old(self)@ })
                    &&& r matches Ok(output)
                    &&& output@ == (OutputView {
                        committed: old(self)@.processor.pass_commit(segments_view(segments@)),
                        tentative: processor.transcript.buffer,
                        finalized_by_vad: false,
                    })
                },
                Err(m) => final(self)@ == old(self)@ && (r matches Err(e) && e@
                    == ErrorView::Inference(m@)),
            },
    {
        let r: Result<ProcessOutput, Error> = self.processor.complete_pass(outcome);
        assert(self@ =~= (PipelineView { processor: self@.processor, ..old(self)@ }));
        r
    }

    /// Ends the stream, given the output of the pass on the last gathered audio if there was one:
    /// the tentative words that are left are added to its committed ones.
    pub fn finish(&mut self, flushed: Option<ProcessOutput>) -> (output: ProcessOutput)
        requires
            old(self)@.wf(),
            old(self)@.processor.in_range(),
        ensures
            final(self)@.wf(),
            final(self)@ == (PipelineView {
                processor: old(self)@.processor.finished(),
                ..old(self)@
            }),
            output@.tentative.len() == 0,
            match flushed {
                Some(o) => output@.committed == o@.committed + old(self)@.processor.transcript.buffer
                    && output@.finalized_by_vad == o@.finalized_by_vad,
                None => output@.committed == old(self)@.processor.transcript.buffer
                    && !output@.finalized_by_vad,
            },
    {
        let mut output: ProcessOutput = match flushed {
            Some(output) => output,
            None => ProcessOutput::default(),
        };
        let ghost before = output@.committed;
        let mut remaining: Vec<Word> = self.processor.finish();
        let ghost rest = words_view(remaining@);
        output.committed.append(&mut remaining);
        assert(output@.committed =~= before + rest);
        output.tentative = Vec::new();
        assert(self@ =~= (PipelineView {
            processor: old(self)@.processor.finished(),
            ..old(self)@
        }));
        output
    }

    /// The wrapped processor.
    pub fn processor(&self) -> (r: &OnlineAsrProcessor<S>)
        ensures
            r@ == self@.processor,
    {
        &self.processor
    }

    /// The wrapped processor, for changes.
    pub fn processor_mut(&mut self) -> (r: &mut OnlineAsrProcessor<S>)
        ensures
            r@ == old(self)@.processor,
            final(self)@ == (PipelineView { processor: final(r)@, ..old(self)@ }),
    {
        &mut self.processor
    }

    /// Word separator of the wrapped processor.
    pub fn sep(&self) -> (r: &'static str)
        ensures
            r@ == separator(self@.processor.config.language),
    {
        self.processor.sep()
    }
}

} // verus!
