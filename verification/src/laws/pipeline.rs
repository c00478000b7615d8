//! What the calls of an audio pipeline do, stated of what goes in and what comes out.
use vstd::prelude::*;

use crate::audio::AudioInputConfig;
use crate::error::Error;
use crate::hypothesis_buffer::{words_view, WordView};
use crate::laws::buffer::{agree_up_to, stages};
use crate::laws::processor::{
    between_words, committed_and_kept, due, hears, holds_nothing_from, starts_over, trims,
};
use crate::laws::resampler::lies_at;
use crate::laws::segments::reads;
use crate::laws::settings::lemma_unspaced;
use crate::online_asr::{
    OnlineAsrProcessor, ProcessOutput, ProcessStep, ProcessorView, VadOutcome,
};
use crate::pipeline::{AsrPipeline, PipelineView};
use crate::resampler::Tap;
use crate::segments::{segments_view, Segment};

verus! {

/// A pipeline resamples from the source rate to 16 kHz, begins at the first sample, has gathered
/// nothing, and wraps the processor as it is. It waits for as many samples as the interval holds,
/// and for one at least. A format that is not usable is an error.
pub proof fn law_new_pipeline<S: Copy>(
    processor: OnlineAsrProcessor<S>,
    config: AudioInputConfig,
    r: Result<AsrPipeline<S>, Error>,
)
    requires
        call_ensures(AsrPipeline::<S>::new, (processor, config), r),
    ensures
        r is Ok <==> config.sample_rate > 0 && config.channels > 0
            && config.process_interval_sec is Positive,
        r matches Err(e) ==> e is InvalidAudio,
        r matches Ok(p) ==> {
            let samples = config.process_interval_sec->samples;
            &&& p@.processor == processor@
            &&& p@.resampler.input_rate == config.sample_rate
            &&& p@.resampler.output_rate == 16_000
            &&& p@.resampler.pos == 0
            &&& p@.resampler.last is None
            &&& p@.pending.len() == 0
            &&& p@.channels == config.channels
            &&& p@.min_samples >= 1
            &&& 1 <= samples <= usize::MAX ==> p@.min_samples == samples
            &&& samples < 1 ==> p@.min_samples == 1
            &&& samples > usize::MAX ==> p@.min_samples == usize::MAX
        },
{
    if let Err(e) = r {
        assert(e@ is InvalidAudio);
    }
}

/// Source samples go to the resampler and nowhere else. The output lies at every input position
/// `pos + j * input_rate`, in units of a 16000th of a sample, before the last sample of the chunk.
pub proof fn law_push_mono<S: Copy>(
    p: &mut AsrPipeline<S>,
    samples: &[S],
    r: Vec<Tap<S>>,
    j: int,
) -> (i: int)
    requires
        old(p)@.wf(),
        call_ensures(AsrPipeline::<S>::push_mono, (p, samples), r),
        0 <= j,
    ensures
        ({
            let before = old(p)@;
            let after = final(p)@;
            let from = before.resampler;
            let position = from.pos + j * from.input_rate;
            &&& after == (PipelineView { resampler: after.resampler, ..before })
            &&& from.input_rate == 16_000 ==> r@.len() == samples@.len() && (j < r@.len() ==> r@[j]
                == Tap::Sample(samples@[j]))
            &&& from.input_rate != 16_000 ==> {
                &&& j < r@.len() <==> samples@.len() > 0 && position < (samples@.len() - 1) * 16_000
                &&& j < r@.len() ==> lies_at(from, samples@, r@[j], i, position)
            }
        }),
{
    let from = old(p)@.resampler;
    if from.input_rate == 16_000 {
        from.law_equal_rates_keep_every_sample(samples@);
        0
    } else {
        from.law_outputs_lie_a_step_apart(samples@, j)
    }
}

/// Resampled samples are gathered behind the earlier ones. There is enough for a pass once as many
/// are gathered as the pipeline waits for.
pub proof fn law_push_resampled<S: Copy>(p: &mut AsrPipeline<S>, samples: &[S], ready: bool)
    requires
        call_ensures(AsrPipeline::<S>::push_resampled, (p, samples), ready),
    ensures
        final(p)@ == (PipelineView { pending: old(p)@.pending + samples@, ..old(p)@ }),
        ready <==> old(p)@.pending.len() + samples@.len() >= old(p)@.min_samples,
{
}

/// Audio can be processed early where any is gathered.
pub proof fn law_flush_pending<S: Copy>(p: AsrPipeline<S>, r: bool, pending: &Vec<S>)
    requires
        call_ensures(AsrPipeline::<S>::flush_pending, (&p,), r),
        call_ensures(AsrPipeline::<S>::pending, (&p,), pending),
    ensures
        pending@ == p@.pending,
        r <==> pending@.len() > 0,
{
}

/// All gathered audio is handed to the processor, once, and a pass begins. Where the VAD failed the
/// audio stays gathered, and what the VAD said is passed on.
pub proof fn law_process_pending<S: Copy>(
    p: &mut AsrPipeline<S>,
    vad: VadOutcome,
    r: Result<ProcessStep, Error>,
) -> (heard: ProcessorView<S>)
    requires
        call_ensures(AsrPipeline::<S>::process_pending, (p, vad), r),
    ensures
        ({
            let before = old(p)@;
            let after = final(p)@;
            let failed = before.processor.vad is Some && vad is Failed;
            &&& r is Ok <==> !failed
            &&& failed ==> after == before && (r matches Err(e) && (e matches Error::Vad(m) && m@
                == vad->Failed_0@))
            &&& !failed ==> {
                &&& hears(
                    before.processor,
                    heard,
                    before.pending,
                    vad matches VadOutcome::Segments(n) && n >= 1,
                )
                &&& after.pending.len() == 0
                &&& after == (PipelineView {
                    processor: after.processor,
                    pending: after.pending,
                    ..before
                })
                &&& due(heard) ==> starts_over(heard, after.processor) && (r->Ok_0
                    matches ProcessStep::Done { output, rebuild_decoder } && rebuild_decoder
                    && output.finalized_by_vad && output.tentative@.len() == 0 && words_view(
                    output.committed@,
                ) == heard.transcript.buffer)
                &&& !due(heard) ==> after.processor == heard && (r->Ok_0 is Infer
                    <==> heard.audio.len() > 0)
                &&& !due(heard) && heard.audio.len() == 0 ==> (r->Ok_0 matches ProcessStep::Done {
                    output,
                    rebuild_decoder,
                } && !rebuild_decoder && !output.finalized_by_vad && output.committed@.len() == 0
                    && words_view(output.tentative@) == heard.transcript.buffer)
            }
        }),
{
    let before = old(p)@;
    let speech = vad matches VadOutcome::Segments(n) && n >= 1;
    let heard = before.processor.heard(before.pending, speech);
    before.processor.law_hears(before.pending, speech);
    assert(due(heard) == heard.reset_pending());
    if let Err(e) = r {
        assert(e@ is Vad);
    }
    if let Ok(ProcessStep::Done { output, .. }) = r {
        assert(words_view(output.committed@).len() == output.committed@.len());
        assert(words_view(output.tentative@).len() == output.tentative@.len());
    }
    heard
}

/// A pass of the pipeline is a pass of its processor, and nothing else changes.
pub proof fn law_complete_pipeline_pass<S: Copy>(
    p: &mut AsrPipeline<S>,
    outcome: Result<Vec<Option<Segment>>, String>,
    r: Result<ProcessOutput, Error>,
) -> (w: (Seq<int>, Seq<WordView>, Seq<int>, int))
    requires
        call_ensures(AsrPipeline::<S>::complete_pass, (p, outcome), r),
    ensures
        ({
            let before = old(p)@.processor;
            let after = final(p)@.processor;
            &&& final(p)@ == (PipelineView { processor: after, ..old(p)@ })
            &&& match outcome {
                Ok(segments) => {
                    let given = segments_view(segments@);
                    &&& r matches Ok(output)
                    &&& ({
                        let commit = words_view(output.committed@);
                        let rest = words_view(output.tentative@);
                        &&& reads(given, w.0, w.1)
                        &&& stages(before.transcript, w.1, before.offset, w.2, w.3, commit + rest)
                        &&& agree_up_to(commit + rest, before.transcript.buffer, commit.len() as int)
                        &&& trims(committed_and_kept(before, commit, rest), after, given)
                        &&& !output.finalized_by_vad
                    })
                },
                Err(m) => {
                    &&& after == before
                    &&& r matches Err(e)
                    &&& e matches Error::Inference(said)
                    &&& said@ == m@
                },
            }
        }),
{
    match outcome {
        Ok(segments) => old(p)@.processor.law_pass(segments_view(segments@)),
        Err(m) => {
            if let Err(e) = r {
                assert(e@ is Inference);
            }
            (Seq::empty(), Seq::empty(), Seq::empty(), 0)
        },
    }
}

/// The end of the stream adds the words that are still tentative behind those that the last pass
/// committed, if there was one. None is left tentative. Whether the last pass was ended by the VAD
/// is passed on.
pub proof fn law_finish_pipeline<S: Copy>(
    p: &mut AsrPipeline<S>,
    flushed: Option<ProcessOutput>,
    output: ProcessOutput,
)
    requires
        call_ensures(AsrPipeline::<S>::finish, (p, flushed), output),
    ensures
        ({
            let before = old(p)@.processor;
            let after = final(p)@.processor;
            &&& output.tentative@.len() == 0
            &&& flushed matches Some(last) ==> words_view(output.committed@) == words_view(
                last.committed@,
            ) + before.transcript.buffer && output.finalized_by_vad == last.finalized_by_vad
            &&& flushed is None ==> words_view(output.committed@) == before.transcript.buffer
                && !output.finalized_by_vad
            &&& final(p)@ == (PipelineView { processor: after, ..old(p)@ })
            &&& after.committed == before.committed + before.transcript.buffer
            &&& after.audio.len() == 0
            &&& after.offset == before.offset + before.audio.len()
            &&& holds_nothing_from(after.transcript, after.offset)
            &&& after.config == before.config
            &&& after.vad == before.vad
            &&& after.total_audio == before.total_audio
            &&& after.speaking == before.speaking
        }),
{
    assert(words_view(output.tentative@).len() == output.tentative@.len());
}

/// Words are separated as the language is written.
pub proof fn law_pipeline_sep<S: Copy>(p: AsrPipeline<S>, r: &'static str)
    requires
        call_ensures(AsrPipeline::<S>::sep, (&p,), r),
    ensures
        r@ == between_words(p@.processor.config.language),
{
    lemma_unspaced(p@.processor.config.language);
}

/// The channel count and the processor are those that the pipeline was made with.
pub proof fn law_pipeline_parts<S: Copy>(
    p: AsrPipeline<S>,
    channels: usize,
    processor: &OnlineAsrProcessor<S>,
)
    requires
        call_ensures(AsrPipeline::<S>::channels, (&p,), channels),
        call_ensures(AsrPipeline::<S>::processor, (&p,), processor),
    ensures
        channels == p@.channels,
        processor@ == p@.processor,
{
}

/// To change the wrapped processor changes nothing else of the pipeline.
pub proof fn law_processor_mut<S: Copy>(p: &mut AsrPipeline<S>, r: &mut OnlineAsrProcessor<S>)
    requires
        call_ensures(AsrPipeline::<S>::processor_mut, (p,), r),
    ensures
        old(r)@ == old(p)@.processor,
        final(p)@ == (PipelineView { processor: final(r)@, ..old(p)@ }),
{
}

} // verus!
