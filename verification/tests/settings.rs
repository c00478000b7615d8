use yamabiko_whisper::online_asr::ProcessOutput;
use yamabiko_whisper::settings::{default_n_threads, is_cjk, SinglePrecision};
use yamabiko_whisper::text::{is_white_space, join, trim};
use yamabiko_whisper::{
    DecodingStrategy, Error, OnlineAsrConfig, Seconds, VadConfig, VadModel, Word, SAMPLE_RATE,
};

#[test]
fn default_config() {
    let config = OnlineAsrConfig::new("auto", 7);
    assert_eq!(config.language, "auto");
    assert_eq!(config.n_threads, 7);
    assert_eq!(config.buffer_trimming_sec, Seconds::from_ticks(15 * SAMPLE_RATE as i128));
    assert_eq!(config.prompt_char_budget, 200);
    assert_eq!(
        config.decoding_strategy,
        DecodingStrategy::BeamSearch {
            beam_size: 5,
            patience: SinglePrecision { bits: (-1.0_f32).to_bits() },
        }
    );
}

#[test]
fn config_builders_set_one_field_each() {
    let base = OnlineAsrConfig::new("en", 1);
    let greedy = DecodingStrategy::Greedy { best_of: 2 };
    let config = base
        .clone()
        .with_decoding_strategy(greedy)
        .with_n_threads(3)
        .with_buffer_trimming_sec(Seconds::from_ticks(5))
        .with_prompt_char_budget(9);
    assert_eq!(config.language, "en");
    assert_eq!(config.decoding_strategy, greedy);
    assert_eq!(config.n_threads, 3);
    assert_eq!(config.buffer_trimming_sec, Seconds::from_ticks(5));
    assert_eq!(config.prompt_char_budget, 9);
    assert_eq!(base, OnlineAsrConfig::new("en", 1));
}

#[test]
fn thread_count_falls_back_to_four() {
    assert_eq!(default_n_threads(None), 4);
    assert_eq!(default_n_threads(Some(12)), 12);
}

#[test]
fn languages_without_spaces() {
    for language in ["ja", "zh", "yue", "th", "lo", "my"] {
        assert!(is_cjk(language));
    }
    for language in ["en", "auto", "", "JA", "jaa", "ko"] {
        assert!(!is_cjk(language));
    }
}

#[test]
fn default_vad_config() {
    let config = VadConfig::new(3);
    assert_eq!(config.threshold.bits, 0.5_f32.to_bits());
    assert_eq!(config.min_speech_ms, 250);
    assert_eq!(config.min_silence_ms, 100);
    assert_eq!(config.silence_reset_sec, Seconds::from_ticks(2 * SAMPLE_RATE as i128));
    assert_eq!(config.n_threads, 3);
}

#[test]
fn vad_model_loading() {
    let config = VadConfig::new(0);
    let request = VadModel::load_request(Some("vad.bin".to_string()), config).ok().unwrap();
    assert_eq!(request.path, "vad.bin");
    assert_eq!(request.n_threads, 1);
    assert_eq!(
        VadModel::load_request(None, config).err(),
        Some(Error::VadModelLoad("VAD model path is not valid UTF-8".to_string()))
    );

    let model = VadModel::load_with_config(config, Ok(())).unwrap();
    assert_eq!(model.config(), config);
    assert_eq!(model.silence_reset_samples(), 32_000);
    assert_eq!(
        VadModel::load_with_config(config, Err("bad file".to_string())),
        Err(Error::VadModelLoad("bad file".to_string()))
    );
}

#[test]
fn silence_threshold_is_clamped() {
    let mut config = VadConfig::new(1);
    config.silence_reset_sec = Seconds::from_ticks(-5);
    let model = VadModel::load_with_config(config, Ok(())).unwrap();
    assert_eq!(model.silence_reset_samples(), 0);
    config.silence_reset_sec = Seconds::from_ticks(i128::MAX);
    let model = VadModel::load_with_config(config, Ok(())).unwrap();
    assert_eq!(model.silence_reset_samples(), usize::MAX);
}

#[test]
fn error_messages() {
    let m = || "m".to_string();
    assert_eq!(Error::ModelLoad(m()).message(), "failed to load whisper model: m");
    assert_eq!(Error::VadModelLoad(m()).message(), "failed to load VAD model: m");
    assert_eq!(Error::StateInit(m()).message(), "failed to create whisper state: m");
    assert_eq!(Error::Inference(m()).message(), "whisper inference failed: m");
    assert_eq!(Error::Vad(m()).message(), "VAD failed: m");
    assert_eq!(Error::InvalidAudio(m()).message(), "invalid audio input: m");
}

#[test]
fn output_is_empty_without_words() {
    let word = Word {
        start: Seconds::from_ticks(0),
        end: Seconds::from_ticks(1),
        text: "a".to_string(),
    };
    let mut output = ProcessOutput::default();
    assert!(output.is_empty());
    output.tentative.push(word.clone());
    assert!(!output.is_empty());
    assert_eq!(output.clone(), output);
    output.tentative.clear();
    output.committed.push(word);
    assert!(!output.is_empty());
}

#[test]
fn timestamps_are_centiseconds() {
    assert_eq!(Seconds::from_centis(100), Seconds::from_ticks(16_000));
    assert_eq!(Seconds::from_centis(-1), Seconds::from_ticks(-160));
    assert_eq!(
        Seconds::from_centis(i64::MIN).ticks,
        i64::MIN as i128 * 160
    );
}

#[test]
fn white_space_is_the_unicode_property() {
    for u in 0..=0x10_ffff_u32 {
        if let Some(c) = char::from_u32(u) {
            assert_eq!(is_white_space(c), c.is_whitespace(), "{:?}", c);
        }
    }
}

#[test]
fn trim_agrees_with_the_standard_library() {
    for s in ["", " ", "a", " a", "a ", "\u{3000} a b\t\n", "\u{a0}\u{85}", "今日は "] {
        assert_eq!(trim(s), s.trim());
    }
}

#[test]
fn join_agrees_with_the_standard_library() {
    let parts = |ps: &[&str]| ps.iter().map(|p| p.to_string()).collect::<Vec<String>>();
    for ps in [parts(&[]), parts(&["a"]), parts(&["a", "", "b c"])] {
        assert_eq!(join(&ps, " "), ps.join(" "));
        assert_eq!(join(&ps, ""), ps.join(""));
    }
}
