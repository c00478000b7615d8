//! The time line that words and audio share.
use vstd::prelude::*;

verus! {

/// Audio sample rate of the recogniser, in samples per second.
pub const SAMPLE_RATE: usize = 16_000;

/// A point or a span of time in seconds, held exactly as a count of ticks.
///
/// One tick is the duration of one sample at [`SAMPLE_RATE`], that is 1/16000 s. Sample counts
/// and the recogniser's centisecond timestamps are both whole numbers of ticks.
#[derive(Clone, Copy, Debug, PartialEq, Eq, Structural)]
pub struct Seconds {
    pub ticks: i128,
}

impl View for Seconds {
    type V = int;

    open spec fn view(&self) -> int {
        self.ticks as int
    }
}

/// Whether `t` can be held as a [`Seconds`].
pub open spec fn representable(t: int) -> bool {
    i128::MIN <= t <= i128::MAX
}

impl Seconds {
    /// `ticks` ticks of 1/16000 s.
    pub fn from_ticks(ticks: i128) -> (t: Seconds)
        ensures
            t@ == ticks,
    {
        Seconds { ticks }
    }

    /// A timestamp that the recogniser gives in centiseconds.
    pub fn from_centis(centis: i64) -> (t: Seconds)
        ensures
            t@ == centis * 160,
    {
        Seconds { ticks: (centis as i128) * 160 }
    }
}

} // verus!
