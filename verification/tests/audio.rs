use yamabiko_whisper::audio::{frames, SampleRatio};
use yamabiko_whisper::online_asr::{ProcessStep, VadOutcome};
use yamabiko_whisper::resampler::Tap;
use yamabiko_whisper::segments::Segment;
use yamabiko_whisper::{
    downmix_interleaved, AsrPipeline, AudioInputConfig, AudioSample, Error, LinearResampler,
    OnlineAsrConfig, OnlineAsrProcessor, ProcessInterval, ProcessOutput, Seconds, VadConfig,
    VadModel, Word,
};

fn value(r: &SampleRatio) -> f32 {
    (r.num as f64 / r.den as f64) as f32
}

fn interval(seconds: f64) -> ProcessInterval {
    if !seconds.is_finite() {
        ProcessInterval::NotFinite
    } else if seconds <= 0.0 {
        ProcessInterval::NotPositive
    } else {
        ProcessInterval::Positive {
            samples: (seconds * 16_000.0).round() as u64,
        }
    }
}

fn interpolate(taps: &[Tap<f32>]) -> Vec<f32> {
    taps.iter()
        .map(|tap| match tap {
            Tap::Sample(s) => *s,
            Tap::Between {
                before,
                after,
                num,
                den,
            } => {
                let frac = (*num as f64 / *den as f64) as f32;
                before * (1.0 - frac) + after * frac
            }
        })
        .collect()
}

#[test]
fn downmixes_stereo_i16_to_mono_f32() {
    let samples = [i16::MAX, 0, 0, i16::MIN];

    let mono: Vec<f32> = downmix_interleaved(&samples, 2).iter().map(value).collect();

    assert!((mono[0] - 0.5).abs() < 0.0001);
    assert!((mono[1] + 0.5).abs() < 0.0001);
}

#[test]
fn downmix_ignores_partial_frame() {
    let samples = [1.0_f32, 3.0, 100.0];

    let mono: Vec<f32> = frames(&samples, 2)
        .iter()
        .map(|frame| frame.iter().sum::<f32>() / 2.0)
        .collect();
    assert_eq!(mono, vec![2.0]);
}

#[test]
fn resampler_fast_path_keeps_same_rate_chunks() {
    let mut resampler = LinearResampler::new(16_000, 16_000).unwrap();
    let input = vec![0.0, 0.25, -0.25];

    assert_eq!(interpolate(&resampler.process(&input)), input);
}

#[test]
fn validates_pipeline_input_config() {
    assert!(AudioInputConfig::new(0, 1).validate().is_err());
    assert!(AudioInputConfig::new(16_000, 0).validate().is_err());
    assert!(
        AudioInputConfig::new(16_000, 1)
            .with_process_interval_sec(interval(f64::NAN))
            .validate()
            .is_err()
    );
}

#[test]
fn signed_minimum_is_clamped_to_minus_one() {
    assert_eq!(value(&i16::MIN.to_sample_ratio()), -1.0);
}

#[test]
fn integer_samples_fill_the_audio_range() {
    assert_eq!(value(&i8::MIN.to_sample_ratio()), -1.0);
    assert_eq!(value(&i8::MAX.to_sample_ratio()), 1.0);
    assert_eq!(value(&i16::MAX.to_sample_ratio()), 1.0);
    assert_eq!(value(&0_i16.to_sample_ratio()), 0.0);
    assert_eq!(value(&i32::MIN.to_sample_ratio()), -1.0);
    assert_eq!(value(&i32::MAX.to_sample_ratio()), 1.0);
    assert_eq!(value(&i64::MIN.to_sample_ratio()), -1.0);
    assert_eq!(value(&i64::MAX.to_sample_ratio()), 1.0);
    assert_eq!(value(&u8::MIN.to_sample_ratio()), -1.0);
    assert_eq!(value(&128_u8.to_sample_ratio()), 0.0);
    assert_eq!(u8::MAX.to_sample_ratio(), SampleRatio { num: 127, den: 128 });
    assert_eq!(value(&0_u16.to_sample_ratio()), -1.0);
    assert_eq!(value(&0x8000_u16.to_sample_ratio()), 0.0);
    assert_eq!(value(&0_u32.to_sample_ratio()), -1.0);
    assert_eq!(value(&0_u64.to_sample_ratio()), -1.0);
    assert_eq!(value(&(1_u64 << 63).to_sample_ratio()), 0.0);
}

#[test]
fn downmix_edge_cases() {
    assert!(downmix_interleaved(&[1_i16, 2], 0).is_empty());
    assert!(downmix_interleaved(&[1_i16, 2], 3).is_empty());
    assert_eq!(
        downmix_interleaved(&[1_i16, -2, i16::MIN], 1),
        vec![
            SampleRatio { num: 1, den: 32_767 },
            SampleRatio { num: -2, den: 32_767 },
            SampleRatio { num: -32_767, den: 32_767 },
        ]
    );
    assert_eq!(
        downmix_interleaved(&[10_i8, 20, 30, 40, 50, 60, 70], 3),
        vec![
            SampleRatio { num: 60, den: 381 },
            SampleRatio { num: 150, den: 381 },
        ]
    );
    assert_eq!(frames(&[1, 2, 3], 1), vec![vec![1], vec![2], vec![3]]);
    assert!(frames(&[1, 2, 3], 0).is_empty());
}

#[test]
fn config_problems_come_in_order() {
    let invalid = |m: &str| Some(Error::InvalidAudio(m.to_string()));
    let rate = "input sample rate must be greater than zero";
    let channels = "input channel count must be greater than zero";
    let positive = "process interval must be a positive finite number";
    let bad = interval(-1.0);
    assert_eq!(
        AudioInputConfig::new(0, 0).with_process_interval_sec(bad).validate().err(),
        invalid(rate)
    );
    assert_eq!(
        AudioInputConfig::new(1, 0).with_process_interval_sec(bad).validate().err(),
        invalid(channels)
    );
    for t in [0.0, -1.0, f64::NAN, f64::INFINITY] {
        assert_eq!(
            AudioInputConfig::new(1, 1).with_process_interval_sec(interval(t)).validate().err(),
            invalid(positive)
        );
    }
    let good = AudioInputConfig::new(48_000, 2);
    assert_eq!(good.validate(), Ok(good));
    assert_eq!(good.process_interval_sec, interval(1.0));
}

#[test]
fn resampler_needs_rates() {
    let message = "sample rates must be greater than zero".to_string();
    for (from, to) in [(0, 1), (1, 0)] {
        let r: Result<LinearResampler<f32>, Error> = LinearResampler::new(from, to);
        assert_eq!(r.err(), Some(Error::InvalidAudio(message.clone())));
    }
}

#[test]
fn resampler_halves_the_rate() {
    let mut resampler = LinearResampler::new(32_000, 16_000).unwrap();
    assert_eq!(interpolate(&resampler.process(&[1.0, 2.0, 3.0])), vec![1.0]);
    // The sample kept from the chunk before is the next output.
    assert_eq!(interpolate(&resampler.process(&[4.0, 5.0, 6.0])), vec![3.0, 5.0]);
    assert!(resampler.process(&[]).is_empty());
}

#[test]
fn resampler_doubles_the_rate() {
    let mut resampler = LinearResampler::new(8_000, 16_000).unwrap();
    assert_eq!(
        interpolate(&resampler.process(&[0.0, 1.0, 3.0])),
        vec![0.0, 0.5, 1.0, 2.0]
    );
    assert_eq!(interpolate(&resampler.process(&[5.0])), vec![3.0, 4.0]);
}

#[test]
fn resampling_does_not_depend_on_chunks() {
    let input: Vec<u32> = (0..5_000).collect();
    for rate in [8_000, 11_025, 16_000, 44_100, 48_000, 96_001] {
        let mut whole = LinearResampler::new(rate, 16_000).unwrap();
        let expected = whole.process(&input);
        for size in [1, 2, 7, 441, 4_999] {
            let mut resampler = LinearResampler::new(rate, 16_000).unwrap();
            let mut taps = Vec::new();
            for chunk in input.chunks(size) {
                taps.extend(resampler.process(chunk));
            }
            assert_eq!(taps, expected);
        }
    }
}

#[test]
fn cloned_resampler_goes_on_alike() {
    let mut a = LinearResampler::new(44_100, 16_000).unwrap();
    a.process(&[1_u32, 2, 3, 4, 5]);
    let mut b = a.clone();
    assert_eq!(a.process(&[6, 7, 8, 9]), b.process(&[6, 7, 8, 9]));
}

fn processor(vad: bool) -> OnlineAsrProcessor<f32> {
    let model = VadModel::load_with_config(VadConfig::new(1), Ok(())).unwrap();
    OnlineAsrProcessor::from_context(
        OnlineAsrConfig::new("en", 1),
        if vad { Some(model) } else { None },
        Ok(()),
    )
    .unwrap()
}

fn push(p: &mut AsrPipeline<f32>, samples: &[f32]) -> bool {
    let taps = p.push_mono(samples);
    p.push_resampled(&interpolate(&taps))
}

fn w(start: i128, end: i128, text: &str) -> Word {
    Word {
        start: Seconds::from_ticks(start),
        end: Seconds::from_ticks(end),
        text: text.to_string(),
    }
}

fn seg(start: i64, end: i64, text: &str) -> Option<Segment> {
    Some(Segment {
        start,
        end,
        text: Some(text.to_string()),
    })
}

#[test]
fn pipeline_gathers_an_interval_of_audio() {
    let config = AudioInputConfig::new(16_000, 2).with_process_interval_sec(interval(0.5));
    let mut p = AsrPipeline::new(processor(false), config).ok().unwrap();
    assert_eq!(p.channels(), 2);
    assert_eq!(p.sep(), " ");
    assert!(!p.flush_pending());
    assert!(!push(&mut p, &[0.0; 7_999]));
    assert!(p.flush_pending());
    assert!(push(&mut p, &[0.0; 1]));
    assert_eq!(p.pending().len(), 8_000);
    match p.process_pending(VadOutcome::NotRun).ok().unwrap() {
        ProcessStep::Infer(_) => {}
        ProcessStep::Done { .. } => panic!("expected a pass"),
    }
    assert!(p.pending().is_empty());
    assert_eq!(p.processor().audio().len(), 8_000);

    let output = p.complete_pass(Ok(vec![seg(0, 10, "a"), seg(10, 20, "b")])).unwrap();
    assert_eq!(output.tentative, vec![w(0, 1_600, "a"), w(1_600, 3_200, "b")]);
    let output = p.finish(None);
    assert_eq!(output.committed, vec![w(0, 1_600, "a"), w(1_600, 3_200, "b")]);
    assert!(output.tentative.is_empty());
    assert!(!output.finalized_by_vad);
    assert_eq!(p.finish(None), ProcessOutput::default());
}

#[test]
fn pipeline_finish_adds_to_the_flushed_pass() {
    let mut p = AsrPipeline::new(processor(false), AudioInputConfig::new(16_000, 1)).ok().unwrap();
    for _ in 0..2 {
        push(&mut p, &[0.0; 16_000]);
        p.process_pending(VadOutcome::NotRun).ok().unwrap();
        p.complete_pass(Ok(vec![seg(0, 10, "a"), seg(10, 20, "b")])).unwrap();
    }
    push(&mut p, &[0.0; 8_000]);
    assert!(p.flush_pending());
    p.process_pending(VadOutcome::NotRun).ok().unwrap();
    p.complete_pass(Ok(vec![seg(100, 110, "c"), seg(110, 120, "d")])).unwrap();
    let flushed = p.complete_pass(Ok(vec![seg(100, 110, "c"), seg(110, 120, "x")])).unwrap();
    assert_eq!(flushed.committed, vec![w(16_000, 17_600, "c")]);
    let output = p.finish(Some(flushed));
    assert_eq!(
        output.committed,
        vec![w(16_000, 17_600, "c"), w(17_600, 19_200, "x")]
    );
    assert!(output.tentative.is_empty());
}

#[test]
fn pipeline_keeps_audio_when_the_vad_fails() {
    let mut p = AsrPipeline::new(processor(true), AudioInputConfig::new(16_000, 1)).ok().unwrap();
    assert!(push(&mut p, &[0.5; 16_000]));
    let failed = p.process_pending(VadOutcome::Failed("broken".to_string()));
    assert_eq!(failed.err(), Some(Error::Vad("broken".to_string())));
    assert_eq!(p.pending().len(), 16_000);
    match p.process_pending(VadOutcome::Segments(0)).ok().unwrap() {
        ProcessStep::Done {
            output,
            rebuild_decoder,
        } => {
            assert!(output.is_empty());
            assert!(!rebuild_decoder);
        }
        ProcessStep::Infer(_) => panic!("silence is not recognised"),
    }
    assert!(p.pending().is_empty());
}

#[test]
fn pipeline_resamples_to_16_khz() {
    let mut p = AsrPipeline::new(processor(false), AudioInputConfig::new(48_000, 1)).ok().unwrap();
    assert!(!push(&mut p, &[0.0; 47_000]));
    assert!(push(&mut p, &[0.0; 1_000]));
    assert_eq!(p.pending().len(), 16_000);
}

#[test]
fn pipeline_rejects_bad_formats() {
    let r = AsrPipeline::new(processor(false), AudioInputConfig::new(16_000, 0));
    assert_eq!(
        r.err(),
        Some(Error::InvalidAudio(
            "input channel count must be greater than zero".to_string()
        ))
    );
}

#[test]
fn tiny_interval_is_one_sample() {
    let config = AudioInputConfig::new(16_000, 1).with_process_interval_sec(interval(1e-9));
    let mut p = AsrPipeline::new(processor(false), config).ok().unwrap();
    assert!(!push(&mut p, &[]));
    assert!(push(&mut p, &[0.0]));
}

#[test]
fn wrapped_processor_can_be_changed() {
    let mut p = AsrPipeline::new(processor(false), AudioInputConfig::new(16_000, 1)).ok().unwrap();
    p.processor_mut().insert_audio_chunk(&[0.0; 5], VadOutcome::NotRun).unwrap();
    assert_eq!(p.processor().audio().len(), 5);
}

#[test]
fn downmix_splits_at_a_frame_boundary() {
    let samples = [10_i16, 20, 30, 40, 50, 60, 70];
    let mut parts = downmix_interleaved(&samples[..4], 2);
    parts.extend(downmix_interleaved(&samples[4..], 2));
    assert_eq!(parts, downmix_interleaved(&samples, 2));
    assert_eq!(
        parts,
        vec![
            SampleRatio { num: 30, den: 65_534 },
            SampleRatio { num: 70, den: 65_534 },
            SampleRatio { num: 110, den: 65_534 },
        ]
    );
}
