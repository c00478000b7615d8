//! Settings of the recogniser and of the voice activity detector (VAD).
use vstd::prelude::*;

use crate::error::{Error, ErrorView};
use crate::text::same_text;
use crate::time::Seconds;

verus! {

/// A single-precision number, held by its IEEE 754 bit pattern. It is carried from the caller to
/// the recogniser and never computed with.
#[derive(Clone, Copy, Debug, PartialEq, Eq, Structural)]
pub struct SinglePrecision {
    pub bits: u32,
}

/// Decoding strategy used for each streaming pass.
#[derive(Clone, Copy, Debug, PartialEq, Eq, Structural)]
pub enum DecodingStrategy {
    /// Greedy decoding: cheaper, and less stable across overlapping windows.
    Greedy {
        /// Number of candidates considered.
        best_of: i32,
    },
    /// Beam search: the default, because LocalAgreement-2 relies on repeated passes producing a
    /// stable prefix.
    BeamSearch {
        /// Beam width.
        beam_size: i32,
        /// Beam-search patience.
        patience: SinglePrecision,
    },
}

impl Default for DecodingStrategy {
    fn default() -> (r: Self)
        ensures
            r == default_strategy(),
    {
        DecodingStrategy::BeamSearch {
            beam_size: 5,
            patience: SinglePrecision { bits: 0xbf80_0000 },
        }
    }
}

/// Beam search with five beams and a patience of minus one.
pub open spec fn default_strategy() -> DecodingStrategy {
    DecodingStrategy::BeamSearch { beam_size: 5, patience: SinglePrecision { bits: 0xbf80_0000 } }
}

/// Rolling audio is trimmed past this many ticks unless told otherwise (15 s).
pub const BUFFER_TRIMMING_TICKS: i128 = 240_000;

/// Characters of committed text that are passed as a prompt unless told otherwise.
pub const PROMPT_CHAR_BUDGET: usize = 200;

/// Settings of a streaming recogniser.
#[derive(Debug, PartialEq)]
pub struct OnlineAsrConfig {
    /// Language code (`"en"`, `"ja"`, ...) or `"auto"`.
    pub language: String,
    /// Decoder strategy used for every pass.
    pub decoding_strategy: DecodingStrategy,
    /// CPU threads used by inference.
    pub n_threads: i32,
    /// Rolling audio is trimmed past this length where a stable cut point is available.
    pub buffer_trimming_sec: Seconds,
    /// Greatest number of prior committed characters passed as the initial prompt.
    pub prompt_char_budget: usize,
}

impl Clone for OnlineAsrConfig {
    fn clone(&self) -> (r: Self)
        ensures
            r == *self,
    {
        OnlineAsrConfig {
            language: self.language.clone(),
            decoding_strategy: self.decoding_strategy,
            n_threads: self.n_threads,
            buffer_trimming_sec: self.buffer_trimming_sec,
            prompt_char_budget: self.prompt_char_budget,
        }
    }
}

/// What an [`OnlineAsrConfig`] says.
pub struct ConfigView {
    pub language: Seq<char>,
    pub decoding_strategy: DecodingStrategy,
    pub n_threads: i32,
    pub buffer_trimming_sec: int,
    pub prompt_char_budget: int,
}

impl View for OnlineAsrConfig {
    type V = ConfigView;

    open spec fn view(&self) -> ConfigView {
        ConfigView {
            language: self.language@,
            decoding_strategy: self.decoding_strategy,
            n_threads: self.n_threads,
            buffer_trimming_sec: self.buffer_trimming_sec@,
            prompt_char_budget: self.prompt_char_budget as int,
        }
    }
}

impl OnlineAsrConfig {
    /// Default settings for a language on a machine that offers `n_threads` threads.
    pub fn new(language: &str, n_threads: i32) -> (r: Self)
        ensures
            r@ == (ConfigView {
                language: language@,
                decoding_strategy: default_strategy(),
                n_threads,
                buffer_trimming_sec: BUFFER_TRIMMING_TICKS as int,
                prompt_char_budget: PROMPT_CHAR_BUDGET as int,
            }),
    {
        OnlineAsrConfig {
            language: language.to_owned(),
            decoding_strategy: DecodingStrategy::default(),
            n_threads,
            buffer_trimming_sec: Seconds { ticks: BUFFER_TRIMMING_TICKS },
            prompt_char_budget: PROMPT_CHAR_BUDGET,
        }
    }

    /// Sets the decoder strategy.
    pub fn with_decoding_strategy(self, decoding_strategy: DecodingStrategy) -> (r: Self)
        ensures
            r@ == (ConfigView { decoding_strategy, ..self@ }),
    {
        let mut r = self;
        r.decoding_strategy = decoding_strategy;
        r
    }

    /// Sets the inference thread count.
    pub fn with_n_threads(self, n_threads: i32) -> (r: Self)
        ensures
            r@ == (ConfigView { n_threads, ..self@ }),
    {
        let mut r = self;
        r.n_threads = n_threads;
        r
    }

    /// Sets the rolling buffer trimming threshold.
    pub fn with_buffer_trimming_sec(self, buffer_trimming_sec: Seconds) -> (r: Self)
        ensures
            r@ == (ConfigView { buffer_trimming_sec: buffer_trimming_sec@, ..self@ }),
    {
        let mut r = self;
        r.buffer_trimming_sec = buffer_trimming_sec;
        r
    }

    /// Sets the initial-prompt character budget.
    pub fn with_prompt_char_budget(self, prompt_char_budget: usize) -> (r: Self)
        ensures
            r@ == (ConfigView { prompt_char_budget: prompt_char_budget as int, ..self@ }),
    {
        let mut r = self;
        r.prompt_char_budget = prompt_char_budget;
        r
    }
}

/// The thread count to use by default where the machine offers `available` threads, or does not
/// say.
pub fn default_n_threads(available: Option<usize>) -> (r: i32)
    ensures
        available matches Some(n) ==> r == n as i32,
        available is None ==> r == 4,
{
    match available {
        Some(n) => n as i32,
        None => 4,
    }
}

/// `n`, or one where that is less than one.
pub fn at_least_one(n: i32) -> (r: i32)
    ensures
        r == (if n < 1 {
            1
        } else {
            n
        }),
{
    if n < 1 {
        1
    } else {
        n
    }
}

/// The languages that are written without spaces between words.
pub open spec fn cjk(language: Seq<char>) -> bool {
    ||| language == "ja"@
    ||| language == "zh"@
    ||| language == "yue"@
    ||| language == "th"@
    ||| language == "lo"@
    ||| language == "my"@
}

/// Whether `language` is written without spaces between words.
pub fn is_cjk(language: &str) -> (r: bool)
    ensures
        r == cjk(language@),
{
    same_text(language, "ja") || same_text(language, "zh") || same_text(language, "yue")
        || same_text(language, "th") || same_text(language, "lo") || same_text(language, "my")
}

/// Settings of the voice activity detector.
#[derive(Clone, Copy, Debug, PartialEq, Eq, Structural)]
pub struct VadConfig {
    /// Probability from which a frame counts as speech.
    pub threshold: SinglePrecision,
    /// Shortest speech segment, in milliseconds.
    pub min_speech_ms: i32,
    /// Shortest silence that ends a segment, in milliseconds.
    pub min_silence_ms: i32,
    /// Trailing silence after which the next utterance starts with a clean slate.
    pub silence_reset_sec: Seconds,
    /// CPU threads of the detector.
    pub n_threads: i32,
}

impl VadConfig {
    /// Default settings on a machine that offers `n_threads` threads: threshold 0.5, 250 ms of
    /// speech, 100 ms of silence, a reset after 2 s.
    pub fn new(n_threads: i32) -> (r: Self)
        ensures
            r == (VadConfig {
                threshold: SinglePrecision { bits: 0x3f00_0000 },
                min_speech_ms: 250,
                min_silence_ms: 100,
                silence_reset_sec: Seconds { ticks: 32_000 },
                n_threads,
            }),
    {
        VadConfig {
            threshold: SinglePrecision { bits: 0x3f00_0000 },
            min_speech_ms: 250,
            min_silence_ms: 100,
            silence_reset_sec: Seconds { ticks: 32_000 },
            n_threads,
        }
    }
}

/// What loading a VAD model takes.
pub struct VadLoadRequest {
    pub path: String,
    pub n_threads: i32,
}

/// A loaded VAD model, as far as processors that share it need to know.
#[derive(Clone, Copy, Debug, PartialEq, Eq, Structural)]
pub struct VadModel {
    config: VadConfig,
}

/// The number of samples in `t`: none where it is negative, the greatest count where it is longer
/// than can be counted.
pub open spec fn samples_in(t: int) -> int {
    if t < 0 {
        0
    } else if t > usize::MAX {
        usize::MAX as int
    } else {
        t
    }
}

impl VadModel {
    /// Settings used by processors that share this model.
    pub closed spec fn spec_config(&self) -> VadConfig {
        self.config
    }

    /// Trailing silence after which a reset is due, in samples.
    pub open spec fn spec_silence_reset_samples(&self) -> int {
        samples_in(self.spec_config().silence_reset_sec@)
    }

    /// Decides how to load a model from `path`, which is `None` where the path is not valid UTF-8.
    pub fn load_request(path: Option<String>, config: VadConfig) -> (r: Result<VadLoadRequest, Error>)
        ensures
            match path {
                Some(p) => r matches Ok(request) && request.path == p && request.n_threads == (
                if config.n_threads < 1 {
                    1
                } else {
                    config.n_threads
                }),
                None => r matches Err(e) && e@ == ErrorView::VadModelLoad(
                    "VAD model path is not valid UTF-8"@,
                ),
            },
    {
        match path {
            Some(path) => Ok(VadLoadRequest { path, n_threads: at_least_one(config.n_threads) }),
            None => Err(Error::VadModelLoad("VAD model path is not valid UTF-8".to_owned())),
        }
    }

    /// The model once loading has come back, with the detector's message where it failed.
    pub fn load_with_config(config: VadConfig, loaded: Result<(), String>) -> (r: Result<Self, Error>)
        ensures
            match loaded {
                Ok(_) => r matches Ok(model) && model.spec_config() == config,
                Err(m) => r matches Err(e) && e@ == ErrorView::VadModelLoad(m@),
            },
    {
        match loaded {
            Ok(_) => Ok(VadModel { config }),
            Err(m) => Err(Error::VadModelLoad(m)),
        }
    }

    /// Settings used by processors that share this model.
    pub fn config(&self) -> (r: VadConfig)
        ensures
            r == self.spec_config(),
    {
        self.config
    }

    /// Trailing silence after which a reset is due, in samples.
    pub fn silence_reset_samples(&self) -> (r: usize)
        ensures
            r == self.spec_silence_reset_samples(),
    {
        let t: i128 = self.config.silence_reset_sec.ticks;
        if t < 0 {
            0
        } else if t > usize::MAX as i128 {
            usize::MAX
        } else {
            t as usize
        }
    }
}

} // verus!
