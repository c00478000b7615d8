//! Streaming resampling by linear interpolation.
use vstd::prelude::*;

use crate::error::{Error, ErrorView};

verus! {

/// One output sample of a [`LinearResampler`].
#[derive(Debug, PartialEq, Eq)]
pub enum Tap<S> {
    /// An input sample as it is.
    Sample(S),
    /// The point at the fraction `num / den` of the way from `before` to `after`.
    Between { before: S, after: S, num: u32, den: u32 },
}

/// How many of the positions `p`, `p + step`, `p + 2 * step`, ... lie before `limit`.
pub open spec fn steps(p: int, step: int, limit: int) -> nat
    decreases
            (if limit > p {
                limit - p
            } else {
                0
            }),
{
    if step <= 0 || p >= limit {
        0
    } else {
        1 + steps(p + step, step, limit)
    }
}

/// What a [`LinearResampler`] holds. Positions count input samples from the start of the next
/// chunk and are multiplied by `output_rate`.
pub struct ResamplerView<S> {
    pub input_rate: int,
    pub output_rate: int,
    pub pos: int,
    pub last: Option<S>,
}

impl<S> ResamplerView<S> {
    /// What holds of a resampler at all times: the next position is at most one sample before the
    /// next chunk and at most one step into it, and a position before the chunk has the sample
    /// that it starts from.
    pub open spec fn wf(self) -> bool {
        &&& 0 < self.input_rate <= u32::MAX
        &&& 0 < self.output_rate <= u32::MAX
        &&& -self.output_rate <= self.pos <= self.input_rate
        &&& self.pos < 0 ==> self.last is Some
        &&& self.input_rate == self.output_rate ==> self.pos == 0
    }

    /// Positions from here on need a sample after `input`.
    pub open spec fn limit(self, input: Seq<S>) -> int {
        (input.len() - 1) * self.output_rate
    }

    /// How many positions can be interpolated within `input`.
    pub open spec fn count(self, input: Seq<S>) -> nat {
        steps(self.pos, self.input_rate, self.limit(input))
    }

    /// The output at position `p`.
    pub open spec fn tap_at(self, input: Seq<S>, p: int) -> Tap<S> {
        if p < 0 {
            Tap::Between {
                before: self.last->0,
                after: input[0],
                num: (p + self.output_rate) as u32,
                den: self.output_rate as u32,
            }
        } else {
            Tap::Between {
                before: input[p / self.output_rate],
                after: input[p / self.output_rate + 1],
                num: (p % self.output_rate) as u32,
                den: self.output_rate as u32,
            }
        }
    }

    /// The output for a chunk of input.
    pub open spec fn taps(self, input: Seq<S>) -> Seq<Tap<S>> {
        if input.len() == 0 {
            Seq::empty()
        } else if self.input_rate == self.output_rate {
            Seq::new(input.len(), |i: int| Tap::Sample(input[i]))
        } else {
            Seq::new(
                self.count(input),
                |j: int| self.tap_at(input, self.pos + j * self.input_rate),
            )
        }
    }

    /// The resampler after a chunk of input.
    pub open spec fn after(self, input: Seq<S>) -> Self {
        if input.len() == 0 {
            self
        } else if self.input_rate == self.output_rate {
            ResamplerView { last: Some(input.last()), ..self }
        } else {
            ResamplerView {
                pos: self.pos + self.count(input) * self.input_rate - input.len()
                    * self.output_rate,
                last: Some(input.last()),
                ..self
            }
        }
    }
}

/// Streaming linear-interpolation resampler.
///
/// It keeps one sample across calls, so that interpolation is continuous at chunk boundaries. It
/// decides which two input samples each output sample lies between, and where between them.
#[derive(Debug)]
pub struct LinearResampler<S> {
    input_rate: u32,
    output_rate: u32,
    pos: i128,
    last: Option<S>,
}

impl<S> View for LinearResampler<S> {
    type V = ResamplerView<S>;

    closed spec fn view(&self) -> ResamplerView<S> {
        ResamplerView {
            input_rate: self.input_rate as int,
            output_rate: self.output_rate as int,
            pos: self.pos as int,
            last: self.last,
        }
    }
}

impl<S: Copy> Clone for LinearResampler<S> {
    fn clone(&self) -> (r: Self)
        ensures
            r@ == self@,
    {
        LinearResampler {
            input_rate: self.input_rate,
            output_rate: self.output_rate,
            pos: self.pos,
            last: self.last,
        }
    }
}

impl<S: Copy> LinearResampler<S> {
    /// A resampler from `input_sample_rate` to `output_sample_rate`.
    pub fn new(input_sample_rate: u32, output_sample_rate: u32) -> (r: Result<Self, Error>)
        ensures
            if input_sample_rate == 0 || output_sample_rate == 0 {
                r matches Err(e) && e@ == ErrorView::InvalidAudio(
                    "sample rates must be greater than zero"@,
                )
            } else {
                r matches Ok(resampler) && resampler@.wf() && resampler@ == (ResamplerView::<S> {
                    input_rate: input_sample_rate as int,
                    output_rate: output_sample_rate as int,
                    pos: 0,
                    last: None,
                })
            },
    {
        if input_sample_rate == 0 || output_sample_rate == 0 {
            return Err(Error::InvalidAudio("sample rates must be greater than zero".to_owned()));
        }
        Ok(
            LinearResampler {
                input_rate: input_sample_rate,
                output_rate: output_sample_rate,
                pos: 0,
                last: None,
            },
        )
    }

    /// Converts a mono chunk to the output sample rate.
    pub fn process(&mut self, input: &[S]) -> (r: Vec<Tap<S>>)
        requires
            old(self)@.wf(),
        ensures
            final(self)@.wf(),
            r@ == old(self)@.taps(input@),
            final(self)@ == old(self)@.after(input@),
    {
        let mut output: Vec<Tap<S>> = Vec::new();
        let len: usize = input.len();
        if len == 0 {
            return output;
        }
        let last: S = input[len - 1];
        if self.input_rate == self.output_rate {
            let mut i: usize = 0;
            while i < len
                invariant
                    i <= len,
                    len == input@.len(),
                    output@.len() == i,
                    forall|k: int| 0 <= k < i ==> output@[k] == Tap::Sample(input@[k]),
                decreases len - i,
            {
                output.push(Tap::Sample(input[i]));
                i = i + 1;
            }
            self.last = Some(last);
            return output;
        }
        let ghost start = self@;
        let step: i128 = self.input_rate as i128;
        let den: i128 = self.output_rate as i128;
        proof {
            lemma_chunk_fits(len as int, den as int);
        }
        let limit: i128 = (len as i128 - 1) * den;
        let mut p: i128 = self.pos;
        let ghost mut j: nat = 0;
        assert(start.pos + 0 * start.input_rate == start.pos);
        while p < limit
            invariant
                start == old(self)@,
                *self == *old(self),
                start.wf(),
                len == input@.len(),
                len > 0,
                step == start.input_rate,
                den == start.output_rate,
                limit == start.limit(input@),
                0 <= limit < 0x1_0000_0000_0000_0000_0000_0000,
                -den <= p < limit + step || p == start.pos,
                j == output@.len(),
                p == start.pos + j * start.input_rate,
                start.count(input@) == j + steps(p as int, step as int, limit as int),
                forall|k: int|
                    0 <= k < j ==> #[trigger] output@[k] == start.tap_at(
                        input@,
                        start.pos + k * start.input_rate,
                    ),
            decreases limit + step - p,
        {
            if p < 0 {
                let before: S = self.last.unwrap();
                output.push(
                    Tap::Between {
                        before,
                        after: input[0],
                        num: (p + den) as u32,
                        den: self.output_rate,
                    },
                );
            } else {
                proof {
                    lemma_index_within(p as int, len as int, den as int);
                }
                let i: usize = (p / den) as usize;
                output.push(
                    Tap::Between {
                        before: input[i],
                        after: input[i + 1],
                        num: (p % den) as u32,
                        den: self.output_rate,
                    },
                );
            }
            p = p + step;
            proof {
                assert((j + 1) * start.input_rate == j * start.input_rate + start.input_rate)
                    by (nonlinear_arith);
                j = j + 1;
            }
        }
        assert(output@ =~= start.taps(input@));
        assert(len * den == limit + den) by (nonlinear_arith)
            requires
                limit == (len - 1) * den,
        ;
        self.pos = p - len as i128 * den;
        self.last = Some(last);
        output
    }
}

/// The positions of a chunk can be held.
proof fn lemma_chunk_fits(len: int, rate: int)
    requires
        0 < len <= usize::MAX,
        0 < rate <= u32::MAX,
    ensures
        0 <= (len - 1) * rate < 0x1_0000_0000_0000_0000_0000_0000,
        0 <= len * rate < 0x1_0000_0000_0000_0000_0000_0000,
{
    assert(0 <= len * rate <= 0xffff_ffff_ffff_ffff * 0xffff_ffff) by (nonlinear_arith)
        requires
            0 < len <= 0xffff_ffff_ffff_ffff,
            0 < rate <= 0xffff_ffff,
    ;
    assert(0 <= (len - 1) * rate <= len * rate) by (nonlinear_arith)
        requires
            0 < len,
            0 < rate,
    ;
}

/// A position before the last sample lies between two samples.
proof fn lemma_index_within(p: int, len: int, rate: int)
    requires
        0 <= p < (len - 1) * rate,
        0 < rate,
    ensures
        0 <= p / rate < len - 1,
        0 <= p % rate < rate,
{
    assert(0 <= p / rate < len - 1) by (nonlinear_arith)
        requires
            0 <= p < (len - 1) * rate,
            0 < rate,
    ;
    assert(0 <= p % rate < rate) by (nonlinear_arith)
        requires
            0 < rate,
    ;
}

/// Every position that [`steps`] counts lies before `limit`, and the next one does not.
pub proof fn lemma_steps(p: int, step: int, limit: int)
    requires
        step > 0,
    ensures
        forall|j: int|
            0 <= j < steps(p, step, limit) ==> #[trigger] (p + j * step) < limit,
        p + steps(p, step, limit) * step >= limit,
        p >= limit ==> steps(p, step, limit) == 0,
    decreases
            (if limit > p {
                limit - p
            } else {
                0
            }),
{
    let n = steps(p, step, limit);
    if p < limit {
        lemma_steps(p + step, step, limit);
        let m = steps(p + step, step, limit);
        assert(n * step == m * step + step) by (nonlinear_arith)
            requires
                n == m + 1,
        ;
        assert forall|j: int| 0 <= j < n implies #[trigger] (p + j * step) < limit by {
            if j > 0 {
                assert(p + step + (j - 1) * step < limit);
                assert(j * step == (j - 1) * step + step) by (nonlinear_arith);
            } else {
                assert(0 * step == 0);
            }
        }
    } else {
        assert(0 * step == 0);
    }
}

/// The positions before `far` are those before `near` and those that follow.
proof fn lemma_steps_split(p: int, step: int, near: int, far: int)
    requires
        step > 0,
        near <= far,
    ensures
        steps(p, step, far) == steps(p, step, near) + steps(
            p + steps(p, step, near) * step,
            step,
            far,
        ),
    decreases
            (if near > p {
                near - p
            } else {
                0
            }),
{
    let n = steps(p, step, near);
    if p < near {
        lemma_steps_split(p + step, step, near, far);
        let m = steps(p + step, step, near);
        assert(n * step == m * step + step) by (nonlinear_arith)
            requires
                n == m + 1,
        ;
    } else {
        assert(0 * step == 0);
    }
}

/// Moving the origin does not change how many positions there are.
proof fn lemma_steps_shift(p: int, step: int, limit: int, d: int)
    requires
        step > 0,
    ensures
        steps(p - d, step, limit - d) == steps(p, step, limit),
    decreases
            (if limit > p {
                limit - p
            } else {
                0
            }),
{
    if p < limit {
        lemma_steps_shift(p + step, step, limit, d);
        assert(p - d + step == p + step - d);
    }
}

impl<S> ResamplerView<S> {
    /// Interpolation is continuous at chunk boundaries: however audio is cut into two chunks, the
    /// output and the state that follows are those for the whole.
    pub proof fn law_chunks_join(self, a: Seq<S>, b: Seq<S>)
        requires
            self.wf(),
        ensures
            self.after(a).wf(),
            self.taps(a + b) == self.taps(a) + self.after(a).taps(b),
            self.after(a + b) == self.after(a).after(b),
    {
        let ab = a + b;
        let w = self.after(a);
        if a.len() == 0 {
            assert(ab =~= b);
            assert(self.taps(ab) =~= self.taps(a) + w.taps(b));
        } else if self.input_rate == self.output_rate {
            assert(self.taps(ab) =~= self.taps(a) + w.taps(b));
            if b.len() > 0 {
                assert(ab.last() == b.last());
            } else {
                assert(ab =~= a);
            }
        } else {
            let den = self.output_rate;
            let step = self.input_rate;
            let near = self.limit(a);
            let n = self.count(a);
            let shift = a.len() * den;
            assert(shift == near + den) by (nonlinear_arith)
                requires
                    shift == a.len() * den,
                    near == (a.len() - 1) * den,
            ;
            assert(near >= 0) by (nonlinear_arith)
                requires
                    near == (a.len() - 1) * den,
                    a.len() > 0,
                    den > 0,
            ;
            lemma_steps(self.pos, step, near);
            assert(w.wf()) by {
                if n > 0 {
                    let k = n - 1;
                    assert(self.pos + k * step < near);
                    assert(n * step == k * step + step) by (nonlinear_arith)
                        requires
                            n == k + 1,
                    ;
                } else {
                    assert(0 * step == 0);
                }
            }
            if b.len() == 0 {
                assert(ab =~= a);
                assert(self.taps(ab) =~= self.taps(a) + w.taps(b));
            } else {
                let far = self.limit(ab);
                assert(far == w.limit(b) + shift) by (nonlinear_arith)
                    requires
                        far == (a.len() + b.len() - 1) * den,
                        w.limit(b) == (b.len() - 1) * den,
                        shift == a.len() * den,
                ;
                assert(near <= far) by (nonlinear_arith)
                    requires
                        far == w.limit(b) + shift,
                        w.limit(b) == (b.len() - 1) * den,
                        b.len() > 0,
                        den > 0,
                        shift == near + den,
                ;
                lemma_steps_split(self.pos, step, near, far);
                lemma_steps_shift(self.pos + n * step, step, far, shift);
                let m = w.count(b);
                assert(self.count(ab) == n + m);
                lemma_steps(self.pos, step, far);
                assert(self.taps(ab) =~= self.taps(a) + w.taps(b)) by {
                    assert forall|j: int| 0 <= j < n + m implies self.taps(ab)[j] == (self.taps(a)
                        + w.taps(b))[j] by {
                        let p = self.pos + j * step;
                        assert(p < far);
                        if j < n {
                            assert(p < near);
                            self.lemma_same_in_first(a, b, p);
                        } else {
                            let k = j - n;
                            assert(n * step + k * step == j * step) by (nonlinear_arith)
                                requires
                                    j == n + k,
                            ;
                            assert(k * step >= 0) by (nonlinear_arith)
                                requires
                                    k >= 0,
                                    step > 0,
                            ;
                            assert(p >= near);
                            self.lemma_same_in_second(a, b, p);
                            assert(w.pos + k * step == p - shift);
                            assert(w.taps(b)[k] == w.tap_at(b, p - shift));
                        }
                    }
                }
                assert(ab.last() == b.last());
                assert((n + m) * step == n * step + m * step) by (nonlinear_arith);
                assert((a.len() + b.len()) * den == a.len() * den + b.len() * den)
                    by (nonlinear_arith);
                assert(self.after(ab) == w.after(b));
            }
        }
    }

    /// A position within the first chunk reads the same samples in the whole.
    proof fn lemma_same_in_first(self, a: Seq<S>, b: Seq<S>, p: int)
        requires
            self.wf(),
            a.len() > 0,
            p < self.limit(a),
        ensures
            self.tap_at(a + b, p) == self.tap_at(a, p),
    {
        if p >= 0 {
            lemma_index_within(p, a.len() as int, self.output_rate);
        }
    }

    /// A position past the first chunk reads the same samples from the second.
    proof fn lemma_same_in_second(self, a: Seq<S>, b: Seq<S>, p: int)
        requires
            self.wf(),
            a.len() > 0,
            b.len() > 0,
            self.limit(a) <= p < self.limit(a + b),
            self.input_rate != self.output_rate,
        ensures
            self.tap_at(a + b, p) == self.after(a).tap_at(b, p - a.len() * self.output_rate),
    {
        let den = self.output_rate;
        let near = self.limit(a);
        let shift = a.len() * den;
        let q = p - shift;
        assert(shift == near + den) by (nonlinear_arith)
            requires
                shift == a.len() * den,
                near == (a.len() - 1) * den,
        ;
        assert(near >= 0) by (nonlinear_arith)
            requires
                near == (a.len() - 1) * den,
                a.len() > 0,
                den > 0,
        ;
        if q < 0 {
            vstd::arithmetic::div_mod::lemma_fundamental_div_mod_converse(
                p,
                den,
                a.len() - 1,
                p - near,
            );
            assert((a + b)[a.len() - 1] == a.last());
            assert((a + b)[a.len() as int] == b[0]);
        } else {
            vstd::arithmetic::div_mod::lemma_fundamental_div_mod(q, den);
            assert(0 <= q % den < den) by (nonlinear_arith)
                requires
                    den > 0,
            ;
            assert(p == (a.len() + q / den) * den + q % den) by (nonlinear_arith)
                requires
                    p == q + shift,
                    shift == a.len() * den,
                    q == den * (q / den) + q % den,
            ;
            vstd::arithmetic::div_mod::lemma_fundamental_div_mod_converse(
                p,
                den,
                a.len() + q / den,
                q % den,
            );
            assert(q < (b.len() - 1) * den) by (nonlinear_arith)
                requires
                    p == q + shift,
                    shift == a.len() * den,
                    p < ((a.len() + b.len()) - 1) * den,
            ;
            lemma_index_within(q, b.len() as int, den);
        }
    }

    /// Every interpolated sample lies at a proper fraction of one input interval.
    pub proof fn law_taps_within_interval(self, input: Seq<S>, j: int)
        requires
            self.wf(),
            0 <= j < self.taps(input).len(),
        ensures
            self.taps(input)[j] matches Tap::Between { num, den, .. } ==> num < den && den
                == self.output_rate,
    {
        if self.input_rate != self.output_rate {
            lemma_steps(self.pos, self.input_rate, self.limit(input));
            let p = self.pos + j * self.input_rate;
            assert(j * self.input_rate >= 0) by (nonlinear_arith)
                requires
                    j >= 0,
                    self.input_rate > 0,
            ;
            if p >= 0 {
                assert(0 <= p % self.output_rate < self.output_rate) by (nonlinear_arith)
                    requires
                        self.output_rate > 0,
                ;
            }
        }
    }
}

} // verus!
