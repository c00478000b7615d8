//! What the settings come to, stated of what goes in and what comes out.
use vstd::prelude::*;

use crate::error::Error;
use crate::settings::{
    at_least_one, cjk, default_n_threads, is_cjk, ConfigView, DecodingStrategy, OnlineAsrConfig,
    SinglePrecision, VadConfig, VadLoadRequest, VadModel,
};
use crate::time::Seconds;

verus! {

/// A thread count is used as it is, and at least one thread is used.
pub proof fn law_at_least_one(n: i32, r: i32)
    requires
        call_ensures(at_least_one, (n,), r),
    ensures
        r >= 1,
        r >= n,
        r == 1 || r == n,
{
}

/// As many threads as the machine offers, and four where it does not say.
pub proof fn law_default_n_threads(available: Option<usize>, r: i32)
    requires
        call_ensures(default_n_threads, (available,), r),
    ensures
        available matches Some(n) ==> (n <= i32::MAX ==> r == n),
        available is None ==> r == 4,
{
}

/// Whether a language is one of the six that are written without spaces: Japanese, Chinese,
/// Cantonese, Thai, Lao and Burmese.
pub open spec fn unspaced(language: Seq<char>) -> bool {
    ||| language == seq!['j', 'a']
    ||| language == seq!['z', 'h']
    ||| language == seq!['y', 'u', 'e']
    ||| language == seq!['t', 'h']
    ||| language == seq!['l', 'o']
    ||| language == seq!['m', 'y']
}

/// The languages without spaces are told by their codes.
pub proof fn lemma_unspaced(language: Seq<char>)
    ensures
        cjk(language) == unspaced(language),
{
    reveal_strlit("ja");
    reveal_strlit("zh");
    reveal_strlit("yue");
    reveal_strlit("th");
    reveal_strlit("lo");
    reveal_strlit("my");
    assert("ja"@ =~= seq!['j', 'a']);
    assert("zh"@ =~= seq!['z', 'h']);
    assert("yue"@ =~= seq!['y', 'u', 'e']);
    assert("th"@ =~= seq!['t', 'h']);
    assert("lo"@ =~= seq!['l', 'o']);
    assert("my"@ =~= seq!['m', 'y']);
}

/// Six languages, and no others, are written without spaces.
pub proof fn law_is_cjk(language: &str, r: bool)
    requires
        call_ensures(is_cjk, (language,), r),
    ensures
        r <==> language@ == seq!['j', 'a'] || language@ == seq!['z', 'h'] || language@ == seq![
            'y',
            'u',
            'e',
        ] || language@ == seq!['t', 'h'] || language@ == seq!['l', 'o'] || language@ == seq![
            'm',
            'y',
        ],
{
    lemma_unspaced(language@);
}

/// Default settings: beam search with five beams and whisper's own patience, trimming past 15 s,
/// and a prompt of up to 200 characters. The language and the thread count are those given.
pub proof fn law_default_config(language: &str, n_threads: i32, r: OnlineAsrConfig)
    requires
        call_ensures(OnlineAsrConfig::new, (language, n_threads), r),
    ensures
        r.language@ == language@,
        r.n_threads == n_threads,
        r.decoding_strategy == (DecodingStrategy::BeamSearch {
            beam_size: 5,
            patience: SinglePrecision { bits: 0xbf80_0000 },
        }),
        r.buffer_trimming_sec.ticks == 15 * 16_000,
        r.prompt_char_budget == 200,
{
    assert(r@.language == language@);
    assert(r@.buffer_trimming_sec == 15 * 16_000);
    assert(r@.prompt_char_budget == 200);
}

/// The default strategy is the one of the default settings, and a copy has the same settings.
pub proof fn law_config_values(
    strategy: DecodingStrategy,
    config: OnlineAsrConfig,
    copy: OnlineAsrConfig,
)
    requires
        call_ensures(<DecodingStrategy as Default>::default, (), strategy),
        call_ensures(<OnlineAsrConfig as Clone>::clone, (&config,), copy),
    ensures
        strategy == (DecodingStrategy::BeamSearch {
            beam_size: 5,
            patience: SinglePrecision { bits: 0xbf80_0000 },
        }),
        same_config(copy, config),
{
}

/// Whether two settings are the same.
pub open spec fn same_config(a: OnlineAsrConfig, b: OnlineAsrConfig) -> bool {
    &&& a.language@ == b.language@
    &&& a.decoding_strategy == b.decoding_strategy
    &&& a.n_threads == b.n_threads
    &&& a.buffer_trimming_sec.ticks == b.buffer_trimming_sec.ticks
    &&& a.prompt_char_budget == b.prompt_char_budget
}

proof fn lemma_config_view(a: OnlineAsrConfig, v: ConfigView)
    requires
        a@ == v,
    ensures
        a.language@ == v.language,
        a.decoding_strategy == v.decoding_strategy,
        a.n_threads == v.n_threads,
        a.buffer_trimming_sec.ticks == v.buffer_trimming_sec,
        a.prompt_char_budget == v.prompt_char_budget,
{
}

/// What the settings say is what they hold.
pub proof fn law_config_view(config: OnlineAsrConfig)
    ensures
        config@.language == config.language@,
        config@.decoding_strategy == config.decoding_strategy,
        config@.n_threads == config.n_threads,
        config@.buffer_trimming_sec == config.buffer_trimming_sec.ticks,
        config@.prompt_char_budget == config.prompt_char_budget,
{
}

/// Every setting can be set by itself: it takes the value given, and the others stay.
pub proof fn law_settings_are_set_one_by_one(
    config: OnlineAsrConfig,
    strategy: DecodingStrategy,
    n_threads: i32,
    trimming: Seconds,
    budget: usize,
    a: OnlineAsrConfig,
    b: OnlineAsrConfig,
    c: OnlineAsrConfig,
    d: OnlineAsrConfig,
)
    requires
        call_ensures(OnlineAsrConfig::with_decoding_strategy, (config, strategy), a),
        call_ensures(OnlineAsrConfig::with_n_threads, (config, n_threads), b),
        call_ensures(OnlineAsrConfig::with_buffer_trimming_sec, (config, trimming), c),
        call_ensures(OnlineAsrConfig::with_prompt_char_budget, (config, budget), d),
    ensures
        same_config(a, (OnlineAsrConfig { decoding_strategy: strategy, ..config })),
        same_config(b, (OnlineAsrConfig { n_threads, ..config })),
        same_config(c, (OnlineAsrConfig { buffer_trimming_sec: trimming, ..config })),
        same_config(d, (OnlineAsrConfig { prompt_char_budget: budget, ..config })),
{
    lemma_config_view(a, a@);
    lemma_config_view(b, b@);
    lemma_config_view(c, c@);
    lemma_config_view(d, d@);
}

/// Default VAD settings: a threshold of one half, 250 ms of speech, 100 ms of silence, and a reset
/// after 2 s.
pub proof fn law_default_vad_config(n_threads: i32, r: VadConfig)
    requires
        call_ensures(VadConfig::new, (n_threads,), r),
    ensures
        r.threshold.bits == 0x3f00_0000,
        r.min_speech_ms == 250,
        r.min_silence_ms == 100,
        r.silence_reset_sec.ticks == 2 * 16_000,
        r.n_threads == n_threads,
{
}

/// A model is loaded from its path with at least one thread; a path that is not valid UTF-8 is an
/// error.
pub proof fn law_load_request(
    path: Option<String>,
    config: VadConfig,
    r: Result<VadLoadRequest, Error>,
)
    requires
        call_ensures(VadModel::load_request, (path, config), r),
    ensures
        r is Ok <==> path is Some,
        r matches Ok(request) ==> request.path@ == path->0@ && request.n_threads >= 1
            && request.n_threads >= config.n_threads && (request.n_threads == 1 || request.n_threads
            == config.n_threads),
        r matches Err(e) ==> (e matches Error::VadModelLoad(m) && m@
            == "VAD model path is not valid UTF-8"@),
{
    if let Err(e) = r {
        assert(e@ is VadModelLoad);
    }
}

/// A loaded model has the settings that it was loaded with; what the detector says of a failure is
/// passed on.
pub proof fn law_load_with_config(
    config: VadConfig,
    loaded: Result<(), String>,
    r: Result<VadModel, Error>,
    read: VadConfig,
)
    requires
        call_ensures(VadModel::load_with_config, (config, loaded), r),
        r matches Ok(model) ==> call_ensures(VadModel::config, (&model,), read),
    ensures
        r is Ok <==> loaded is Ok,
        r is Ok ==> read == config,
        r matches Err(e) ==> (e matches Error::VadModelLoad(m) && m@ == loaded->Err_0@),
{
    if let Err(e) = r {
        assert(e@ is VadModelLoad);
    }
}

/// A reset is due after as many samples as its time has ticks. A time before zero counts as none,
/// and a time that is too long to count as the greatest count.
pub proof fn law_silence_reset_samples(model: VadModel, config: VadConfig, r: usize)
    requires
        call_ensures(VadModel::config, (&model,), config),
        call_ensures(VadModel::silence_reset_samples, (&model,), r),
    ensures
        r == model.spec_silence_reset_samples(),
        0 <= config.silence_reset_sec.ticks <= usize::MAX ==> r == config.silence_reset_sec.ticks,
        config.silence_reset_sec.ticks < 0 ==> r == 0,
        config.silence_reset_sec.ticks > usize::MAX ==> r == usize::MAX,
{
}

/// The text that a user is shown tells what failed, and ends with what was said of it.
pub proof fn law_message(e: Error, r: String)
    requires
        call_ensures(Error::message, (&e,), r),
    ensures
        e matches Error::ModelLoad(m) ==> r@ == "failed to load whisper model: "@ + m@,
        e matches Error::VadModelLoad(m) ==> r@ == "failed to load VAD model: "@ + m@,
        e matches Error::StateInit(m) ==> r@ == "failed to create whisper state: "@ + m@,
        e matches Error::Inference(m) ==> r@ == "whisper inference failed: "@ + m@,
        e matches Error::Vad(m) ==> r@ == "VAD failed: "@ + m@,
        e matches Error::InvalidAudio(m) ==> r@ == "invalid audio input: "@ + m@,
{
}

} // verus!
