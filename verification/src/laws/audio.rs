//! What becomes of source audio, stated of what goes in and what comes out.
use vstd::prelude::*;

use crate::audio::{
    downmix_interleaved, frame, frame_count, frames, scaled_sum, AudioInputConfig, AudioSample,
    ProcessInterval, SampleRatio,
};
use crate::error::Error;

verus! {

/// The sum of `values`.
pub open spec fn total(values: Seq<int>) -> int
    decreases values.len(),
{
    if values.len() == 0 {
        0
    } else {
        values[0] + total(values.subrange(1, values.len() as int))
    }
}

proof fn lemma_total_grows(values: Seq<int>, more: int)
    ensures
        total(values.push(more)) == total(values) + more,
    decreases values.len(),
{
    let all = values.push(more);
    let rest = all.subrange(1, all.len() as int);
    if values.len() == 0 {
        assert(rest =~= Seq::<int>::empty());
        assert(total(rest) == 0);
    } else {
        assert(rest =~= values.subrange(1, values.len() as int).push(more));
        lemma_total_grows(values.subrange(1, values.len() as int), more);
    }
}

proof fn lemma_scaled_sum_is_total<T: AudioSample>(frame: Seq<T>)
    ensures
        scaled_sum(frame) == total(Seq::new(frame.len(), |k: int| frame[k].scaled())),
    decreases frame.len(),
{
    let all = Seq::new(frame.len(), |k: int| frame[k].scaled());
    if frame.len() > 0 {
        let shorter = frame.drop_last();
        lemma_scaled_sum_is_total(shorter);
        let before = Seq::new(shorter.len(), |k: int| shorter[k].scaled());
        lemma_total_grows(before, frame.last().scaled());
        assert(all =~= before.push(frame.last().scaled()));
    }
}

/// How many whole frames there are, and where they lie.
proof fn lemma_frames_lie<T>(samples: Seq<T>, channels: nat)
    requires
        channels > 0,
    ensures
        frame_count(samples.len(), channels) * channels <= samples.len(),
        samples.len() < (frame_count(samples.len(), channels) + 1) * channels,
        forall|i: int|
            0 <= i < frame_count(samples.len(), channels) ==> 0 <= #[trigger] (i * channels) && i
                * channels + channels <= samples.len() && frame(samples, channels, i)
                == samples.subrange(i * channels, i * channels + channels),
{
    let len = samples.len() as int;
    let c = channels as int;
    let n = len / c;
    vstd::arithmetic::div_mod::lemma_fundamental_div_mod(len, c);
    assert(0 <= len % c < c && n * c == c * n && (n + 1) * c == n * c + c) by (nonlinear_arith)
        requires
            c > 0,
    ;
    assert forall|i: int| 0 <= i < n implies 0 <= #[trigger] (i * channels) && i * channels + channels
        <= samples.len() && frame(samples, channels, i) == samples.subrange(
        i * channels,
        i * channels + channels,
    ) by {
        assert(0 <= i * c && i * c + c <= n * c && (i + 1) * c == i * c + c) by (nonlinear_arith)
            requires
                0 <= i < n,
                c > 0,
        ;
    }
}

/// Interleaved samples are cut into as many whole frames as they hold, one sample per channel, in
/// order. What is left over is less than a frame. Without channels there are no frames.
pub proof fn law_frames<T: Copy>(samples: &[T], channels: usize, r: Vec<Vec<T>>, i: int, k: int)
    requires
        call_ensures(frames::<T>, (samples, channels), r),
    ensures
        channels == 0 ==> r@.len() == 0,
        channels > 0 ==> r@.len() * channels <= samples@.len() < (r@.len() + 1) * channels,
        0 <= i < r@.len() ==> r@[i]@.len() == channels,
        0 <= i < r@.len() && 0 <= k < channels ==> i * channels + k < samples@.len() && r@[i]@[k]
            == samples@[i * channels + k],
{
    if channels > 0 {
        lemma_frames_lie(samples@, channels as nat);
        if 0 <= i < r@.len() {
            assert(0 <= i * (channels as nat));
            assert(r@[i]@ == frame(samples@, channels as nat, i));
        }
    }
}

/// Downmixing gives for every whole frame the sum of its samples over what full scale in every
/// channel would sum to, which is their mean. Without channels there is nothing.
pub proof fn law_downmix<T: AudioSample>(
    samples: &[T],
    channels: usize,
    r: Vec<SampleRatio>,
    i: int,
)
    requires
        call_ensures(downmix_interleaved::<T>, (samples, channels), r),
    ensures
        channels == 0 ==> r@.len() == 0,
        channels > 0 ==> r@.len() * channels <= samples@.len() < (r@.len() + 1) * channels,
        0 <= i < r@.len() ==> r@[i].num == total(
            Seq::new(channels as nat, |k: int| samples@[i * channels + k].scaled()),
        ) && r@[i].den == channels * T::full_scale(),
{
    if channels > 0 {
        lemma_frames_lie(samples@, channels as nat);
        if 0 <= i < r@.len() {
            assert(0 <= i * (channels as nat));
            let one = frame(samples@, channels as nat, i);
            assert(r@[i].num == scaled_sum(one));
            lemma_scaled_sum_is_total(one);
            assert(Seq::new(one.len(), |k: int| one[k].scaled()) =~= Seq::new(
                channels as nat,
                |k: int| samples@[i * channels + k].scaled(),
            ));
        }
    }
}

/// Signed samples are measured against their greatest value; only the least one lies beyond full
/// scale and counts as full scale.
pub proof fn law_signed_samples(a: i8, b: i16, c: i32, d: i64)
    ensures
        i8::full_scale() == i8::MAX,
        a.scaled() == (if a == i8::MIN {
            -i8::MAX
        } else {
            a as int
        }),
        i16::full_scale() == i16::MAX,
        b.scaled() == (if b == i16::MIN {
            -i16::MAX
        } else {
            b as int
        }),
        i32::full_scale() == i32::MAX,
        c.scaled() == (if c == i32::MIN {
            -i32::MAX
        } else {
            c as int
        }),
        i64::full_scale() == i64::MAX,
        d.scaled() == (if d == i64::MIN {
            -i64::MAX
        } else {
            d as int
        }),
{
}

/// Unsigned samples are measured from the middle of their range, and half the range is full scale.
pub proof fn law_unsigned_samples(a: u8, b: u16, c: u32, d: u64)
    ensures
        2 * u8::full_scale() == u8::MAX + 1,
        a.scaled() + u8::full_scale() == a,
        2 * u16::full_scale() == u16::MAX + 1,
        b.scaled() + u16::full_scale() == b,
        2 * u32::full_scale() == u32::MAX + 1,
        c.scaled() + u32::full_scale() == c,
        2 * u64::full_scale() == u64::MAX + 1,
        d.scaled() + u64::full_scale() == d,
{
}

/// The normalized value of a sample is its distance from silence over full scale.
pub proof fn law_sample_ratio<T: AudioSample>(sample: T, r: SampleRatio)
    requires
        call_ensures(T::to_sample_ratio, (sample,), r),
    ensures
        r.num == sample.scaled(),
        r.den == T::full_scale(),
{
}

/// A format is usable just where it has a rate, channels, and a positive finite interval. It is
/// given back as it is; otherwise the first thing that is wrong is told.
pub proof fn law_validate(config: AudioInputConfig, r: Result<AudioInputConfig, Error>)
    requires
        call_ensures(AudioInputConfig::validate, (config,), r),
    ensures
        r is Ok <==> config.sample_rate > 0 && config.channels > 0
            && config.process_interval_sec is Positive,
        r matches Ok(c) ==> c == config,
        r matches Err(e) ==> (e matches Error::InvalidAudio(m) && m@ == (if config.sample_rate == 0 {
            "input sample rate must be greater than zero"@
        } else if config.channels == 0 {
            "input channel count must be greater than zero"@
        } else {
            "process interval must be a positive finite number"@
        })),
{
}

/// A format has the rate and the channels that it is made with, and an interval of one second until
/// another one is set.
pub proof fn law_input_config(
    sample_rate: u32,
    channels: usize,
    interval: ProcessInterval,
    made: AudioInputConfig,
    set: AudioInputConfig,
)
    requires
        call_ensures(AudioInputConfig::new, (sample_rate, channels), made),
        call_ensures(AudioInputConfig::with_process_interval_sec, (made, interval), set),
    ensures
        made.sample_rate == sample_rate,
        made.channels == channels,
        made.process_interval_sec == (ProcessInterval::Positive { samples: 16_000 }),
        set.sample_rate == sample_rate,
        set.channels == channels,
        set.process_interval_sec == interval,
{
}

} // verus!
