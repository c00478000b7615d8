//! Source audio: its format, its samples, and its frames.
use vstd::prelude::*;

use crate::error::{Error, ErrorView};

verus! {

/// How much new 16 kHz audio is gathered before each pass.
#[derive(Clone, Copy, Debug, PartialEq, Eq, Structural)]
pub enum ProcessInterval {
    /// Not a number, or infinite.
    NotFinite,
    /// Zero or less.
    NotPositive,
    /// More than zero: the nearest number of 16 kHz samples.
    Positive { samples: u64 },
}

/// Source audio format.
#[derive(Clone, Copy, Debug, PartialEq, Eq, Structural)]
pub struct AudioInputConfig {
    /// Source sample rate in Hz.
    pub sample_rate: u32,
    /// Number of interleaved source channels.
    pub channels: usize,
    /// Amount of new 16 kHz audio to gather before running the recogniser.
    pub process_interval_sec: ProcessInterval,
}

impl AudioInputConfig {
    /// A format with the default processing interval of one second.
    pub fn new(sample_rate: u32, channels: usize) -> (r: Self)
        ensures
            r == (AudioInputConfig {
                sample_rate,
                channels,
                process_interval_sec: ProcessInterval::Positive { samples: 16_000 },
            }),
    {
        AudioInputConfig {
            sample_rate,
            channels,
            process_interval_sec: ProcessInterval::Positive { samples: 16_000 },
        }
    }

    /// Sets how much new audio is gathered before each pass.
    pub fn with_process_interval_sec(self, process_interval_sec: ProcessInterval) -> (r: Self)
        ensures
            r == (AudioInputConfig { process_interval_sec, ..self }),
    {
        let mut r = self;
        r.process_interval_sec = process_interval_sec;
        r
    }

    /// What is wrong with the format, if anything: the first of these that applies.
    pub open spec fn problem(self) -> Option<Seq<char>> {
        if self.sample_rate == 0 {
            Some("input sample rate must be greater than zero"@)
        } else if self.channels == 0 {
            Some("input channel count must be greater than zero"@)
        } else if self.process_interval_sec !is Positive {
            Some("process interval must be a positive finite number"@)
        } else {
            None
        }
    }

    /// Gives the format back if it is usable.
    pub fn validate(self) -> (r: Result<Self, Error>)
        ensures
            match self.problem() {
                Some(m) => r matches Err(e) && e@ == ErrorView::InvalidAudio(m),
                None => r matches Ok(config) && config == self,
            },
    {
        if self.sample_rate == 0 {
            return Err(
                Error::InvalidAudio("input sample rate must be greater than zero".to_owned()),
            );
        }
        if self.channels == 0 {
            return Err(
                Error::InvalidAudio("input channel count must be greater than zero".to_owned()),
            );
        }
        match self.process_interval_sec {
            ProcessInterval::Positive { .. } => Ok(self),
            _ => Err(
                Error::InvalidAudio("process interval must be a positive finite number".to_owned()),
            ),
        }
    }
}

/// The sample value `num / den`.
#[derive(Clone, Copy, Debug, PartialEq, Eq, Structural)]
pub struct SampleRatio {
    pub num: i128,
    pub den: i128,
}

/// Integer sample types that can be normalized to the audio range from -1 to 1.
pub trait AudioSample: Copy {
    /// The distance from silence to full scale.
    spec fn full_scale() -> int;

    /// The distance of this sample from silence, not beyond full scale.
    spec fn scaled(self) -> int;

    /// A sample is never beyond full scale.
    proof fn lemma_scaled_in_range(self)
        ensures
            0 < Self::full_scale() <= 0x8000_0000_0000_0000,
            -Self::full_scale() <= self.scaled() <= Self::full_scale(),
    ;

    /// The normalized value of this sample.
    fn to_sample_ratio(self) -> (r: SampleRatio)
        ensures
            r.num == self.scaled(),
            r.den == Self::full_scale(),
    ;
}

impl AudioSample for i8 {
    open spec fn full_scale() -> int {
        0x7f
    }

    open spec fn scaled(self) -> int {
        if self < -0x7f {
            -0x7f
        } else {
            self as int
        }
    }

    proof fn lemma_scaled_in_range(self) {
    }

    fn to_sample_ratio(self) -> (r: SampleRatio) {
        SampleRatio { num: if self < -0x7f { -0x7f } else { self as i128 }, den: 0x7f }
    }
}

impl AudioSample for i16 {
    open spec fn full_scale() -> int {
        0x7fff
    }

    open spec fn scaled(self) -> int {
        if self < -0x7fff {
            -0x7fff
        } else {
            self as int
        }
    }

    proof fn lemma_scaled_in_range(self) {
    }

    fn to_sample_ratio(self) -> (r: SampleRatio) {
        SampleRatio { num: if self < -0x7fff { -0x7fff } else { self as i128 }, den: 0x7fff }
    }
}

impl AudioSample for i32 {
    open spec fn full_scale() -> int {
        0x7fff_ffff
    }

    open spec fn scaled(self) -> int {
        if self < -0x7fff_ffff {
            -0x7fff_ffff
        } else {
            self as int
        }
    }

    proof fn lemma_scaled_in_range(self) {
    }

    fn to_sample_ratio(self) -> (r: SampleRatio) {
        SampleRatio { num: if self < -0x7fff_ffff { -0x7fff_ffff } else { self as i128 }, den: 0x7fff_ffff }
    }
}

impl AudioSample for i64 {
    open spec fn full_scale() -> int {
        0x7fff_ffff_ffff_ffff
    }

    open spec fn scaled(self) -> int {
        if self < -0x7fff_ffff_ffff_ffff {
            -0x7fff_ffff_ffff_ffff
        } else {
            self as int
        }
    }

    proof fn lemma_scaled_in_range(self) {
    }

    fn to_sample_ratio(self) -> (r: SampleRatio) {
        SampleRatio { num: if self < -0x7fff_ffff_ffff_ffff { -0x7fff_ffff_ffff_ffff } else { self as i128 }, den: 0x7fff_ffff_ffff_ffff }
    }
}

impl AudioSample for u8 {
    open spec fn full_scale() -> int {
        0x80
    }

    open spec fn scaled(self) -> int {
        self - 0x80
    }

    proof fn lemma_scaled_in_range(self) {
    }

    fn to_sample_ratio(self) -> (r: SampleRatio) {
        SampleRatio { num: self as i128 - 0x80, den: 0x80 }
    }
}

impl AudioSample for u16 {
    open spec fn full_scale() -> int {
        0x8000
    }

    open spec fn scaled(self) -> int {
        self - 0x8000
    }

    proof fn lemma_scaled_in_range(self) {
    }

    fn to_sample_ratio(self) -> (r: SampleRatio) {
        SampleRatio { num: self as i128 - 0x8000, den: 0x8000 }
    }
}

impl AudioSample for u32 {
    open spec fn full_scale() -> int {
        0x8000_0000
    }

    open spec fn scaled(self) -> int {
        self - 0x8000_0000
    }

    proof fn lemma_scaled_in_range(self) {
    }

    fn to_sample_ratio(self) -> (r: SampleRatio) {
        SampleRatio { num: self as i128 - 0x8000_0000, den: 0x8000_0000 }
    }
}

impl AudioSample for u64 {
    open spec fn full_scale() -> int {
        0x8000_0000_0000_0000
    }

    open spec fn scaled(self) -> int {
        self - 0x8000_0000_0000_0000
    }

    proof fn lemma_scaled_in_range(self) {
    }

    fn to_sample_ratio(self) -> (r: SampleRatio) {
        SampleRatio { num: self as i128 - 0x8000_0000_0000_0000, den: 0x8000_0000_0000_0000 }
    }
}

/// The sum of the distances from silence in `frame`.
pub open spec fn scaled_sum<T: AudioSample>(frame: Seq<T>) -> int
    decreases frame.len(),
{
    if frame.len() == 0 {
        0
    } else {
        scaled_sum(frame.drop_last()) + frame.last().scaled()
    }
}

/// The number of whole frames in `len` interleaved samples.
pub open spec fn frame_count(len: nat, channels: nat) -> nat {
    if channels == 0 {
        0
    } else {
        len / channels
    }
}

/// The `i`-th frame of interleaved samples.
pub open spec fn frame<T>(samples: Seq<T>, channels: nat, i: int) -> Seq<T> {
    samples.subrange(i * channels, (i + 1) * channels)
}

/// The sum of a frame lies within full scale times its length.
pub proof fn lemma_sum_in_range<T: AudioSample>(frame: Seq<T>)
    ensures
        -frame.len() * T::full_scale() <= scaled_sum(frame) <= frame.len() * T::full_scale(),
    decreases frame.len(),
{
    if frame.len() > 0 {
        lemma_sum_in_range(frame.drop_last());
        frame.last().lemma_scaled_in_range();
        assert(frame.len() * T::full_scale() == (frame.len() - 1) * T::full_scale()
            + T::full_scale()) by (nonlinear_arith);
        assert(-frame.len() * T::full_scale() == -(frame.len() - 1) * T::full_scale()
            - T::full_scale()) by (nonlinear_arith);
    }
}

/// Splits interleaved samples into frames of one sample per channel.
///
/// A trailing partial frame is ignored. Without channels there are no frames.
pub fn frames<T: Copy>(samples: &[T], channels: usize) -> (r: Vec<Vec<T>>)
    ensures
        r@.len() == frame_count(samples@.len(), channels as nat),
        forall|i: int|
            0 <= i < r@.len() ==> (#[trigger] r@[i])@ == frame(samples@, channels as nat, i)
                && r@[i]@.len() == channels,
{
    let mut r: Vec<Vec<T>> = Vec::new();
    if channels == 0 {
        return r;
    }
    let len: usize = samples.len();
    let mut at: usize = 0;
    assert(0 * channels == 0);
    while len - at >= channels
        invariant
            channels > 0,
            len == samples@.len(),
            at <= len,
            at == r@.len() * channels,
            forall|i: int|
                0 <= i < r@.len() ==> (#[trigger] r@[i])@ == frame(samples@, channels as nat, i)
                    && r@[i]@.len() == channels,
        decreases len - at,
    {
        let mut one: Vec<T> = Vec::new();
        let mut j: usize = 0;
        while j < channels
            invariant
                j <= channels,
                at + channels <= len,
                len == samples@.len(),
                one@ == samples@.subrange(at as int, at + j),
            decreases channels - j,
        {
            one.push(samples[at + j]);
            j = j + 1;
            assert(one@ == samples@.subrange(at as int, at + j));
        }
        let ghost n = r@.len() as int;
        assert((n + 1) * channels == n * channels + channels) by (nonlinear_arith);
        assert(one@ == frame(samples@, channels as nat, n));
        r.push(one);
        at = at + channels;
    }
    proof {
        let ghost n = r@.len() as int;
        vstd::arithmetic::div_mod::lemma_fundamental_div_mod_converse(
            samples@.len() as int,
            channels as int,
            n,
            samples@.len() - at,
        );
    }
    r
}

/// The mean of a frame of `channels` samples.
fn mean<T: AudioSample>(frame: &Vec<T>, channels: usize) -> (r: SampleRatio)
    requires
        frame@.len() == channels,
        channels > 0,
    ensures
        r.num == scaled_sum(frame@),
        r.den == channels * T::full_scale(),
{
    let full_scale: i128 = frame[0].to_sample_ratio().den;
    let mut num: i128 = 0;
    let mut j: usize = 0;
    assert(frame@.subrange(0, 0) =~= Seq::<T>::empty());
    proof {
        frame@[0].lemma_scaled_in_range();
    }
    while j < channels
        invariant
            j <= channels,
            frame@.len() == channels,
            num == scaled_sum(frame@.subrange(0, j as int)),
        decreases channels - j,
    {
        let ghost head = frame@.subrange(0, j + 1);
        proof {
            frame@[j as int].lemma_scaled_in_range();
            lemma_sum_in_range(head);
            lemma_product_fits((j + 1) as int, T::full_scale());
            assert(head.drop_last() == frame@.subrange(0, j as int));
            assert(head.last() == frame@[j as int]);
        }
        num = num + frame[j].to_sample_ratio().num;
        j = j + 1;
    }
    assert(frame@.subrange(0, channels as int) == frame@);
    proof {
        lemma_product_fits(channels as int, full_scale as int);
    }
    SampleRatio { num, den: channels as i128 * full_scale }
}

/// A frame's greatest sum can be held.
proof fn lemma_product_fits(channels: int, full_scale: int)
    requires
        0 <= channels <= usize::MAX,
        0 < full_scale <= 0x8000_0000_0000_0000,
    ensures
        0 <= channels * full_scale < i128::MAX,
        -channels * full_scale == -(channels * full_scale),
{
    assert(0 <= channels * full_scale <= 0xffff_ffff_ffff_ffff * 0x8000_0000_0000_0000)
        by (nonlinear_arith)
        requires
            0 <= channels <= 0xffff_ffff_ffff_ffff,
            0 < full_scale <= 0x8000_0000_0000_0000,
    ;
    assert(-channels * full_scale == -(channels * full_scale)) by (nonlinear_arith);
}

/// Downmixes interleaved source audio to mono: every sample is the mean of a frame.
///
/// A trailing partial frame is ignored. Without channels the result is empty.
pub fn downmix_interleaved<T: AudioSample>(samples: &[T], channels: usize) -> (r: Vec<SampleRatio>)
    ensures
        r@.len() == frame_count(samples@.len(), channels as nat),
        forall|i: int|
            0 <= i < r@.len() ==> (#[trigger] r@[i]).num == scaled_sum(
                frame(samples@, channels as nat, i),
            ) && r@[i].den == channels * T::full_scale(),
{
    let all: Vec<Vec<T>> = frames(samples, channels);
    let mut r: Vec<SampleRatio> = Vec::new();
    let mut i: usize = 0;
    while i < all.len()
        invariant
            i <= all@.len(),
            all@.len() == frame_count(samples@.len(), channels as nat),
            forall|k: int|
                0 <= k < all@.len() ==> (#[trigger] all@[k])@ == frame(
                    samples@,
                    channels as nat,
                    k,
                ) && all@[k]@.len() == channels,
            r@.len() == i,
            forall|k: int|
                0 <= k < i ==> (#[trigger] r@[k]).num == scaled_sum(
                    frame(samples@, channels as nat, k),
                ) && r@[k].den == channels * T::full_scale(),
        decreases all@.len() - i,
    {
        r.push(mean(&all[i], channels));
        i = i + 1;
    }
    r
}

} // verus!
