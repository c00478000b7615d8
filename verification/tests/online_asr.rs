use yamabiko_whisper::online_asr::{InferenceRequest, ProcessStep, VadOutcome};
use yamabiko_whisper::segments::{extract_words, segment_cut_within_committed, Segment};
use yamabiko_whisper::{
    DecodingStrategy, Error, OnlineAsrConfig, OnlineAsrProcessor, ProcessOutput, Seconds,
    VadConfig, VadModel, Word,
};

fn sec(t: f64) -> Seconds {
    Seconds::from_ticks((t * 16_000.0).round() as i128)
}

fn secs(ts: &[f64]) -> Vec<Seconds> {
    ts.iter().map(|&t| sec(t)).collect()
}

fn w(start: f64, end: f64, text: &str) -> Word {
    Word {
        start: sec(start),
        end: sec(end),
        text: text.to_string(),
    }
}

/// A segment with its times in centiseconds.
fn seg(start: i64, end: i64, text: &str) -> Option<Segment> {
    Some(Segment {
        start,
        end,
        text: Some(text.to_string()),
    })
}

fn plain(config: OnlineAsrConfig) -> OnlineAsrProcessor<f32> {
    OnlineAsrProcessor::from_context(config, None, Ok(())).unwrap()
}

fn with_vad() -> OnlineAsrProcessor<f32> {
    let model = VadModel::load_with_config(VadConfig::new(2), Ok(())).unwrap();
    OnlineAsrProcessor::from_context(OnlineAsrConfig::new("en", 2), Some(model), Ok(())).unwrap()
}

fn silence(seconds: f64) -> Vec<f32> {
    vec![0.0; (seconds * 16_000.0) as usize]
}

fn infer(step: ProcessStep) -> InferenceRequest {
    match step {
        ProcessStep::Infer(request) => request,
        ProcessStep::Done { .. } => panic!("expected a pass"),
    }
}

fn done(step: ProcessStep) -> (ProcessOutput, bool) {
    match step {
        ProcessStep::Done {
            output,
            rebuild_decoder,
        } => (output, rebuild_decoder),
        ProcessStep::Infer(_) => panic!("expected no pass"),
    }
}

/// One pass that gives `segments`.
fn pass(p: &mut OnlineAsrProcessor<f32>, segments: Vec<Option<Segment>>) -> ProcessOutput {
    infer(p.process());
    p.complete_pass(Ok(segments)).unwrap()
}

#[test]
fn segment_cut_never_exceeds_last_committed_word() {
    let cut = segment_cut_within_committed(&secs(&[4.0, 8.0, 12.0]), sec(0.0), sec(6.0));

    assert_eq!(cut, Some(sec(4.0)));
}

#[test]
fn segment_cut_uses_second_to_last_when_committed() {
    let cut = segment_cut_within_committed(&secs(&[4.0, 8.0, 12.0]), sec(0.0), sec(9.0));

    assert_eq!(cut, Some(sec(8.0)));
}

#[test]
fn segment_cut_returns_none_without_committed_audio_after_offset() {
    let cut = segment_cut_within_committed(&secs(&[4.0, 8.0, 12.0]), sec(5.0), sec(8.0));

    assert_eq!(cut, None);
}

#[test]
fn segment_cut_needs_two_segments() {
    assert_eq!(segment_cut_within_committed(&[], sec(0.0), sec(9.0)), None);
    assert_eq!(
        segment_cut_within_committed(&secs(&[4.0]), sec(0.0), sec(9.0)),
        None
    );
    // The only end within the committed text is the start of the audio itself.
    assert_eq!(
        segment_cut_within_committed(&secs(&[0.0, 8.0, 12.0]), sec(0.0), sec(6.0)),
        None
    );
}

#[test]
fn words_are_trimmed_and_last_at_least_20_ms() {
    let words = extract_words(&vec![
        seg(100, 150, "  hello "),
        seg(150, 160, " \t\u{3000}"),
        None,
        Some(Segment {
            start: 160,
            end: 170,
            text: None,
        }),
        seg(200, 200, "zero"),
        seg(300, 290, "inverted"),
        seg(400, 402, "short"),
    ]);
    assert_eq!(
        words,
        vec![
            w(1.0, 1.5, "hello"),
            w(2.0, 2.02, "zero"),
            w(3.0, 3.02, "inverted"),
            w(4.0, 4.02, "short"),
        ]
    );
}

#[test]
fn state_init_failure_is_reported() {
    let r: Result<OnlineAsrProcessor<f32>, Error> = OnlineAsrProcessor::from_context(
        OnlineAsrConfig::new("en", 1),
        None,
        Err("no memory".to_string()),
    );
    assert_eq!(r.err(), Some(Error::StateInit("no memory".to_string())));
}

#[test]
fn no_audio_means_no_pass() {
    let mut p = plain(OnlineAsrConfig::new("en", 1));
    let (output, rebuild) = done(p.process());
    assert!(output.is_empty());
    assert!(!output.finalized_by_vad);
    assert!(!rebuild);
    assert_eq!(output, ProcessOutput::default());
}

#[test]
fn request_follows_the_config() {
    let mut p = plain(
        OnlineAsrConfig::new("ja", 0).with_decoding_strategy(DecodingStrategy::Greedy { best_of: 3 }),
    );
    p.insert_audio_chunk(&silence(0.1), VadOutcome::NotRun).unwrap();
    let request = infer(p.process());
    assert_eq!(request.language.as_deref(), Some("ja"));
    assert_eq!(request.n_threads, 1);
    assert_eq!(request.initial_prompt, None);
    assert_eq!(
        request.decoding_strategy,
        DecodingStrategy::Greedy { best_of: 3 }
    );
    assert!(request.token_timestamps && request.split_on_word && request.no_context);
    assert_eq!(request.max_len, 1);
    assert!(!request.single_segment && !request.print_progress && !request.print_realtime);
    assert!(!request.print_timestamps && !request.print_special);

    for language in ["auto", ""] {
        let mut p = plain(OnlineAsrConfig::new(language, 6));
        p.insert_audio_chunk(&silence(0.1), VadOutcome::NotRun).unwrap();
        let request = infer(p.process());
        assert_eq!(request.language, None);
        assert_eq!(request.n_threads, 6);
    }
}

#[test]
fn two_equal_passes_commit_every_word() {
    let mut p = plain(OnlineAsrConfig::new("en", 1));
    p.insert_audio_chunk(&silence(2.0), VadOutcome::NotRun).unwrap();
    let first = pass(&mut p, vec![seg(0, 50, " a"), seg(50, 100, " b")]);
    assert!(first.committed.is_empty());
    assert_eq!(first.tentative, vec![w(0.0, 0.5, "a"), w(0.5, 1.0, "b")]);
    let second = pass(&mut p, vec![seg(0, 50, " a"), seg(50, 100, " b")]);
    assert_eq!(second.committed, vec![w(0.0, 0.5, "a"), w(0.5, 1.0, "b")]);
    assert!(second.tentative.is_empty());
    assert!(!second.finalized_by_vad);
}

#[test]
fn committed_and_tentative_words_make_up_the_hypothesis() {
    let mut p = plain(OnlineAsrConfig::new("en", 1));
    p.insert_audio_chunk(&silence(3.0), VadOutcome::NotRun).unwrap();
    pass(&mut p, vec![seg(0, 50, "a"), seg(50, 100, "b"), seg(100, 150, "c")]);
    let out = pass(&mut p, vec![seg(0, 50, "a"), seg(50, 100, "b"), seg(100, 150, "x")]);
    assert_eq!(out.committed, vec![w(0.0, 0.5, "a"), w(0.5, 1.0, "b")]);
    assert_eq!(out.tentative, vec![w(1.0, 1.5, "x")]);
    assert_eq!(p.tentative(), vec![w(1.0, 1.5, "x")]);
}

#[test]
fn failed_inference_changes_nothing() {
    let mut p = plain(OnlineAsrConfig::new("en", 1));
    p.insert_audio_chunk(&silence(1.0), VadOutcome::NotRun).unwrap();
    pass(&mut p, vec![seg(0, 50, "a")]);
    let r = p.complete_pass(Err("encoder".to_string()));
    assert_eq!(r, Err(Error::Inference("encoder".to_string())));
    assert_eq!(p.tentative(), vec![w(0.0, 0.5, "a")]);
    assert_eq!(p.audio().len(), 16_000);
}

#[test]
fn finish_consumes_tentative_words_once() {
    let mut p = plain(OnlineAsrConfig::new("en", 1));
    p.insert_audio_chunk(&silence(2.0), VadOutcome::NotRun).unwrap();
    pass(&mut p, vec![seg(0, 50, "a"), seg(50, 100, "b")]);
    assert_eq!(p.finish(), vec![w(0.0, 0.5, "a"), w(0.5, 1.0, "b")]);
    assert!(p.audio().is_empty());
    assert!(p.tentative().is_empty());
    assert!(p.finish().is_empty());
    // The words have left the audio, so they are prompted with.
    p.insert_audio_chunk(&silence(1.0), VadOutcome::NotRun).unwrap();
    let request = infer(p.process());
    assert_eq!(request.initial_prompt.as_deref(), Some("a b"));
    // Later words go on where the audio ended.
    let out = p.complete_pass(Ok(vec![seg(10, 40, "c")])).unwrap();
    assert_eq!(out.tentative, vec![w(2.1, 2.4, "c")]);
}

#[test]
fn prompt_takes_the_most_recent_words_within_budget() {
    let config = OnlineAsrConfig::new("en", 1).with_prompt_char_budget(9);
    let mut p = plain(config);
    p.insert_audio_chunk(&silence(2.0), VadOutcome::NotRun).unwrap();
    pass(&mut p, vec![seg(0, 50, "aa"), seg(50, 100, "bbb"), seg(100, 150, "cccc")]);
    p.finish();
    // cccc costs 5 and bbb 4; aa would cost 3 more.
    assert_eq!(p.build_init_prompt(), "bbb cccc");
}

#[test]
fn prompt_of_a_language_without_spaces() {
    let mut p = plain(OnlineAsrConfig::new("ja", 1));
    assert_eq!(p.sep(), "");
    p.insert_audio_chunk(&silence(2.0), VadOutcome::NotRun).unwrap();
    pass(&mut p, vec![seg(0, 50, "今日"), seg(50, 100, "は")]);
    p.finish();
    assert_eq!(p.build_init_prompt(), "今日は");
    assert_eq!(plain(OnlineAsrConfig::new("en", 1)).sep(), " ");
}

#[test]
fn prompt_counts_characters_not_bytes() {
    let mut p = plain(OnlineAsrConfig::new("ja", 1).with_prompt_char_budget(3));
    p.insert_audio_chunk(&silence(2.0), VadOutcome::NotRun).unwrap();
    pass(&mut p, vec![seg(0, 50, "今日")]);
    p.finish();
    assert_eq!(p.build_init_prompt(), "今日");
}

fn long_session(config: OnlineAsrConfig) -> OnlineAsrProcessor<f32> {
    let mut p = plain(config);
    p.insert_audio_chunk(&silence(10.0), VadOutcome::NotRun).unwrap();
    let hypothesis = || {
        vec![
            seg(0, 100, "a"),
            seg(100, 200, "b"),
            seg(200, 300, "c"),
            seg(300, 400, "d"),
        ]
    };
    pass(&mut p, hypothesis());
    pass(&mut p, hypothesis());
    p
}

#[test]
fn audio_is_cut_at_a_committed_segment() {
    let p = long_session(OnlineAsrConfig::new("en", 1).with_buffer_trimming_sec(sec(5.0)));
    // All four words are committed; the last segment but one ends at 3 s.
    assert_eq!(p.audio().len(), 7 * 16_000);
    assert_eq!(p.build_init_prompt(), "a b c");
}

#[test]
fn short_audio_is_not_cut() {
    let p = long_session(OnlineAsrConfig::new("en", 1));
    assert_eq!(p.audio().len(), 10 * 16_000);
    assert_eq!(p.build_init_prompt(), "");
}

#[test]
fn audio_is_cut_at_the_last_committed_word_without_segments() {
    let mut p = plain(OnlineAsrConfig::new("en", 1).with_buffer_trimming_sec(sec(5.0)));
    p.insert_audio_chunk(&silence(10.0), VadOutcome::NotRun).unwrap();
    pass(&mut p, vec![seg(0, 100, "a")]);
    pass(&mut p, vec![seg(0, 100, "a")]);
    // A single segment offers no completed one: the cut is at the end of "a".
    assert_eq!(p.audio().len(), 9 * 16_000);
    assert_eq!(p.build_init_prompt(), "a");
}

#[test]
fn audio_is_cut_at_the_last_committed_word_where_a_segment_is_missing() {
    let mut p = plain(OnlineAsrConfig::new("en", 1).with_buffer_trimming_sec(sec(5.0)));
    p.insert_audio_chunk(&silence(10.0), VadOutcome::NotRun).unwrap();
    let hypothesis = || vec![seg(0, 100, "a"), seg(100, 200, "b"), None];
    pass(&mut p, hypothesis());
    pass(&mut p, hypothesis());
    assert_eq!(p.audio().len(), 8 * 16_000);
}

#[test]
fn nothing_is_cut_before_anything_is_committed() {
    let mut p = plain(OnlineAsrConfig::new("en", 1).with_buffer_trimming_sec(sec(5.0)));
    p.insert_audio_chunk(&silence(10.0), VadOutcome::NotRun).unwrap();
    pass(&mut p, vec![seg(0, 100, "a"), seg(100, 200, "b")]);
    assert_eq!(p.audio().len(), 10 * 16_000);
}

#[test]
fn silence_before_speech_is_ignored() {
    let mut p = with_vad();
    p.insert_audio_chunk(&silence(10.0), VadOutcome::Segments(0)).unwrap();
    assert!(p.audio().is_empty());
    let (output, rebuild) = done(p.process());
    assert_eq!(output, ProcessOutput::default());
    assert!(!rebuild);
}

#[test]
fn trailing_silence_ends_the_utterance() {
    let mut p = with_vad();
    p.insert_audio_chunk(&silence(3.0), VadOutcome::Segments(1)).unwrap();
    pass(&mut p, vec![seg(0, 50, "a"), seg(50, 100, "b")]);
    // 1.5 s of silence are not enough, 2 s are.
    p.insert_audio_chunk(&silence(1.5), VadOutcome::Segments(0)).unwrap();
    assert_eq!(p.audio().len(), 3 * 16_000);
    infer(p.process());
    p.insert_audio_chunk(&silence(0.5), VadOutcome::Segments(0)).unwrap();
    let (output, rebuild) = done(p.process());
    assert!(rebuild);
    assert!(output.finalized_by_vad);
    assert_eq!(output.committed, vec![w(0.0, 0.5, "a"), w(0.5, 1.0, "b")]);
    assert!(output.tentative.is_empty());
    assert!(p.audio().is_empty());

    // The next utterance goes on at 5 s.
    p.insert_audio_chunk(&silence(1.0), VadOutcome::Segments(2)).unwrap();
    let out = pass(&mut p, vec![seg(20, 60, "c")]);
    assert_eq!(out.tentative, vec![w(5.2, 5.6, "c")]);
    assert_eq!(p.build_init_prompt(), "");
}

#[test]
fn speech_starts_the_silence_over() {
    let mut p = with_vad();
    p.insert_audio_chunk(&silence(1.0), VadOutcome::Segments(1)).unwrap();
    p.insert_audio_chunk(&silence(1.5), VadOutcome::Segments(0)).unwrap();
    p.insert_audio_chunk(&silence(1.0), VadOutcome::Segments(1)).unwrap();
    p.insert_audio_chunk(&silence(1.5), VadOutcome::Segments(0)).unwrap();
    assert_eq!(p.audio().len(), 2 * 16_000);
    infer(p.process());
}

#[test]
fn failed_vad_changes_nothing() {
    let mut p = with_vad();
    assert_eq!(p.vad_config(), Some(VadConfig::new(2)));
    let r = p.insert_audio_chunk(&silence(1.0), VadOutcome::Failed("broken".to_string()));
    assert_eq!(r, Err(Error::Vad("broken".to_string())));
    assert!(p.audio().is_empty());
    assert!(p.in_range());
}

#[test]
fn agreement_goes_on_across_a_cut_and_new_audio() {
    let mut p = plain(OnlineAsrConfig::new("en", 1).with_buffer_trimming_sec(sec(5.0)));
    p.insert_audio_chunk(&silence(10.0), VadOutcome::NotRun).unwrap();
    pass(&mut p, vec![seg(0, 100, "a"), seg(100, 200, "b"), seg(200, 300, "c")]);
    let out = pass(
        &mut p,
        vec![
            seg(0, 100, "a"),
            seg(100, 200, "b"),
            seg(200, 300, "x"),
            seg(300, 400, "d"),
        ],
    );
    assert_eq!(out.committed, vec![w(0.0, 1.0, "a"), w(1.0, 2.0, "b")]);
    assert_eq!(out.tentative, vec![w(2.0, 3.0, "x"), w(3.0, 4.0, "d")]);
    // The audio now begins at 2 s.
    assert_eq!(p.audio().len(), 8 * 16_000);
    p.insert_audio_chunk(&silence(1.0), VadOutcome::NotRun).unwrap();
    // Only "x" stood in its place before.
    let out = pass(&mut p, vec![seg(0, 100, "x"), seg(100, 200, "y")]);
    assert_eq!(out.committed, vec![w(2.0, 3.0, "x")]);
    assert_eq!(out.tentative, vec![w(3.0, 4.0, "y")]);
}

#[test]
fn audio_leaves_the_words_alone() {
    let mut p = plain(OnlineAsrConfig::new("en", 1));
    p.insert_audio_chunk(&silence(2.0), VadOutcome::NotRun).unwrap();
    pass(&mut p, vec![seg(0, 50, "a"), seg(50, 100, "b")]);
    let request = infer(p.process());
    p.insert_audio_chunk(&silence(1.0), VadOutcome::NotRun).unwrap();
    p.insert_audio_chunk(&silence(1.0), VadOutcome::NotRun).unwrap();
    assert_eq!(p.tentative(), vec![w(0.0, 0.5, "a"), w(0.5, 1.0, "b")]);
    assert_eq!(infer(p.process()).initial_prompt, request.initial_prompt);
    let out = pass(&mut p, vec![seg(0, 50, "a"), seg(50, 100, "c")]);
    assert_eq!(out.committed, vec![w(0.0, 0.5, "a")]);
}

#[test]
fn first_pass_after_a_finish_commits_nothing() {
    let mut p = plain(OnlineAsrConfig::new("en", 1));
    p.insert_audio_chunk(&silence(1.0), VadOutcome::NotRun).unwrap();
    pass(&mut p, vec![seg(0, 50, "a")]);
    assert_eq!(p.finish(), vec![w(0.0, 0.5, "a")]);
    p.insert_audio_chunk(&silence(1.0), VadOutcome::NotRun).unwrap();
    let out = pass(&mut p, vec![seg(0, 50, "a"), seg(100, 150, "b")]);
    assert!(out.committed.is_empty());
}

#[test]
fn two_passes_after_a_reset_commit_nothing_of_the_past() {
    let mut p = with_vad();
    p.insert_audio_chunk(&silence(3.0), VadOutcome::Segments(1)).unwrap();
    p.insert_audio_chunk(&silence(2.0), VadOutcome::Segments(0)).unwrap();
    done(p.process());
    let hypothesis = || vec![seg(-20, 20, "early"), seg(20, 60, "c")];
    p.insert_audio_chunk(&silence(1.0), VadOutcome::Segments(1)).unwrap();
    let out = pass(&mut p, hypothesis());
    assert!(out.committed.is_empty());
    p.insert_audio_chunk(&silence(1.0), VadOutcome::Segments(1)).unwrap();
    let out = pass(&mut p, hypothesis());
    assert_eq!(out.committed, vec![w(5.2, 5.6, "c")]);
}

#[test]
fn chunks_with_speech_follow_each_other_on_the_time_line() {
    let mut p = with_vad();
    p.insert_audio_chunk(&silence(3.0), VadOutcome::Segments(1)).unwrap();
    p.insert_audio_chunk(&silence(2.0), VadOutcome::Segments(0)).unwrap();
    done(p.process());
    p.insert_audio_chunk(&silence(1.0), VadOutcome::Segments(1)).unwrap();
    p.insert_audio_chunk(&silence(2.0), VadOutcome::Segments(3)).unwrap();
    // 8 s were heard: the audio runs from 5 s to there.
    assert_eq!(p.audio().len(), 3 * 16_000);
    let out = pass(&mut p, vec![seg(150, 300, "last")]);
    assert_eq!(out.tentative, vec![w(6.5, 8.0, "last")]);
}
