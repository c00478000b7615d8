//! Where the output of a resampler lies, stated of what goes in and what comes out.
use vstd::prelude::*;

use crate::error::Error;
use crate::resampler::{lemma_steps, steps, LinearResampler, ResamplerView, Tap};

verus! {

/// Whether `tap` lies at the position `p`, counted in input samples times the output rate: between
/// the `i`-th input sample and the next, as far from the first of the two as `p` is. The sample
/// before the first one is the last of the input before.
pub open spec fn lies_at<S>(v: ResamplerView<S>, input: Seq<S>, tap: Tap<S>, i: int, p: int) -> bool {
    &&& -1 <= i < input.len() - 1
    &&& tap matches Tap::Between { before, after, num, den }
    &&& den == v.output_rate
    &&& num < den
    &&& i * den + num == p
    &&& before == (if i < 0 {
        v.last->0
    } else {
        input[i]
    })
    &&& after == input[i + 1]
}

impl<S> ResamplerView<S> {
    /// Every output lies one step after the one before, where a step is the input rate. The `j`-th
    /// one is there just where its position comes before the last input sample, and it lies at its
    /// position. The place of the input sample that it follows is given back.
    pub proof fn law_outputs_lie_a_step_apart(self, input: Seq<S>, j: int) -> (i: int)
        requires
            self.wf(),
            self.input_rate != self.output_rate,
            0 <= j,
        ensures
            j < self.taps(input).len() <==> input.len() > 0 && self.pos + j * self.input_rate < (
            input.len() - 1) * self.output_rate,
            j < self.taps(input).len() ==> lies_at(
                self,
                input,
                self.taps(input)[j],
                i,
                self.pos + j * self.input_rate,
            ),
    {
        let den = self.output_rate;
        let step = self.input_rate;
        let p = self.pos + j * step;
        if input.len() == 0 {
            0
        } else {
            let limit = self.limit(input);
            lemma_steps(self.pos, step, limit);
            let n = steps(self.pos, step, limit);
            assert(limit == (input.len() - 1) * den);
            if j < n {
                assert(p < limit);
                assert(j * step >= 0) by (nonlinear_arith)
                    requires
                        j >= 0,
                        step > 0,
                ;
                assert(limit >= 0) by (nonlinear_arith)
                    requires
                        limit == (input.len() - 1) * den,
                        input.len() > 0,
                        den > 0,
                ;
                if p < 0 {
                    assert(-1 * den + (p + den) == p);
                    -1
                } else {
                    vstd::arithmetic::div_mod::lemma_fundamental_div_mod(p, den);
                    assert(0 <= p % den < den && 0 <= p / den < input.len() - 1 && (p / den) * den
                        == den * (p / den)) by (nonlinear_arith)
                        requires
                            0 <= p < (input.len() - 1) * den,
                            den > 0,
                    ;
                    p / den
                }
            } else {
                assert(j * step >= n * step) by (nonlinear_arith)
                    requires
                        j >= n,
                        step > 0,
                ;
                0
            }
        }
    }

    /// Equal rates leave every sample as it is.
    pub proof fn law_equal_rates_keep_every_sample(self, input: Seq<S>)
        requires
            self.input_rate == self.output_rate,
        ensures
            self.taps(input).len() == input.len(),
            forall|i: int|
                0 <= i < input.len() ==> #[trigger] self.taps(input)[i] == Tap::Sample(input[i]),
    {
    }

    /// The resampler after all `chunks`.
    pub open spec fn fed(self, chunks: Seq<Seq<S>>) -> Self
        decreases chunks.len(),
    {
        if chunks.len() == 0 {
            self
        } else {
            self.fed(chunks.drop_last()).after(chunks.last())
        }
    }

    /// All output for `chunks`, handed in one after the other.
    pub open spec fn outputs(self, chunks: Seq<Seq<S>>) -> Seq<Tap<S>>
        decreases chunks.len(),
    {
        if chunks.len() == 0 {
            Seq::empty()
        } else {
            self.outputs(chunks.drop_last()) + self.fed(chunks.drop_last()).taps(chunks.last())
        }
    }

    proof fn lemma_outputs(self, chunks: Seq<Seq<S>>)
        requires
            self.wf(),
        ensures
            self.fed(chunks) == self.after(stream(chunks)),
            self.fed(chunks).wf(),
            self.outputs(chunks) == self.taps(stream(chunks)),
        decreases chunks.len(),
    {
        if chunks.len() > 0 {
            let before = chunks.drop_last();
            self.lemma_outputs(before);
            self.law_chunks_join(stream(before), chunks.last());
            self.after(stream(before)).law_chunks_join(chunks.last(), Seq::empty());
        }
    }

    /// A stream is resampled to the output rate, however it is cut into chunks: the `j`-th output
    /// of a new resampler lies at the input position `j * input_rate / output_rate`, at the
    /// fraction `num / output_rate` between the two input samples around it. There is an output
    /// for every such position before the last input sample.
    pub proof fn law_stream_is_resampled(self, chunks: Seq<Seq<S>>, j: int) -> (i: int)
        requires
            self.wf(),
            self.pos == 0,
            self.input_rate != self.output_rate,
            0 <= j,
        ensures
            j < self.outputs(chunks).len() <==> stream(chunks).len() > 0 && j * self.input_rate < (
            stream(chunks).len() - 1) * self.output_rate,
            j < self.outputs(chunks).len() ==> {
                &&& 0 <= i < stream(chunks).len() - 1
                &&& self.outputs(chunks)[j] matches Tap::Between { before, after, num, den }
                &&& before == stream(chunks)[i]
                &&& after == stream(chunks)[i + 1]
                &&& den == self.output_rate
                &&& num < den
                &&& i * self.output_rate + num == j * self.input_rate
            },
    {
        self.lemma_outputs(chunks);
        let i = self.law_outputs_lie_a_step_apart(stream(chunks), j);
        if j < self.outputs(chunks).len() {
            assert(j * self.input_rate >= 0) by (nonlinear_arith)
                requires
                    j >= 0,
                    self.input_rate > 0,
            ;
            if i < 0 {
                assert(i * self.output_rate == -self.output_rate) by (nonlinear_arith)
                    requires
                        i == -1,
                ;
            }
        }
        i
    }
}

/// All samples of `chunks`, in order.
pub open spec fn stream<S>(chunks: Seq<Seq<S>>) -> Seq<S>
    decreases chunks.len(),
{
    if chunks.len() == 0 {
        Seq::empty()
    } else {
        stream(chunks.drop_last()) + chunks.last()
    }
}

/// A straight line stays a straight line: where the `i`-th input sample of a new resampler is `i`,
/// the value at the `j`-th output, times the output rate, is `j` times the input rate.
pub proof fn law_ramp_stays_a_ramp(v: ResamplerView<int>, n: nat, j: int)
    requires
        v.wf(),
        v.pos == 0,
        v.input_rate != v.output_rate,
        0 <= j < v.taps(Seq::new(n, |i: int| i)).len(),
    ensures
        v.taps(Seq::new(n, |i: int| i))[j] matches Tap::Between { before, after, num, den }
            && before * (den - num) + after * num == j * v.input_rate,
{
    let input = Seq::new(n, |i: int| i);
    let i = v.law_outputs_lie_a_step_apart(input, j);
    assert(j * v.input_rate >= 0) by (nonlinear_arith)
        requires
            j >= 0,
            v.input_rate > 0,
    ;
    if i < 0 {
        assert(i * v.output_rate == -v.output_rate) by (nonlinear_arith)
            requires
                i == -1,
        ;
    }
    let tap = v.taps(input)[j];
    let num = tap->num as int;
    let den = tap->den as int;
    assert(i * (den - num) + (i + 1) * num == i * den + num) by (nonlinear_arith);
}

/// A new resampler starts at the first sample of its input; without a rate there is none.
pub proof fn law_new_resampler<S: Copy>(
    input_rate: u32,
    output_rate: u32,
    r: Result<LinearResampler<S>, Error>,
)
    requires
        call_ensures(LinearResampler::<S>::new, (input_rate, output_rate), r),
    ensures
        r is Ok <==> input_rate > 0 && output_rate > 0,
        r matches Ok(v) ==> v@.wf() && v@.pos == 0 && v@.last is None && v@.input_rate == input_rate
            && v@.output_rate == output_rate,
        r matches Err(e) ==> e@ is InvalidAudio,
{
}

/// A chunk is resampled to outputs that lie a step apart, the first at the position that the
/// chunks before left off at; the next chunk goes on a step after the last output, counted from its
/// own first sample. Equal rates leave every sample as it is.
pub proof fn law_process_chunk<S: Copy>(
    resampler: &mut LinearResampler<S>,
    input: &[S],
    r: Vec<Tap<S>>,
    j: int,
) -> (i: int)
    requires
        old(resampler)@.wf(),
        call_ensures(LinearResampler::<S>::process, (resampler, input), r),
        0 <= j,
    ensures
        ({
            let before = old(resampler)@;
            let after = final(resampler)@;
            let p = before.pos + j * before.input_rate;
            &&& after.input_rate == before.input_rate
            &&& after.output_rate == before.output_rate
            &&& input@.len() == 0 ==> r@.len() == 0 && after == before
            &&& input@.len() > 0 ==> after.last == Some(input@[input@.len() - 1])
            &&& before.input_rate == before.output_rate ==> r@.len() == input@.len() && after.pos
                == before.pos && (j < r@.len() ==> r@[j] == Tap::Sample(input@[j]))
            &&& before.input_rate != before.output_rate && input@.len() > 0 ==> {
                &&& j < r@.len() <==> p < (input@.len() - 1) * before.output_rate
                &&& j < r@.len() ==> lies_at(before, input@, r@[j], i, p)
                &&& after.pos == before.pos + r@.len() * before.input_rate - input@.len()
                    * before.output_rate
            }
        }),
{
    let before = old(resampler)@;
    if before.input_rate == before.output_rate {
        before.law_equal_rates_keep_every_sample(input@);
        0
    } else {
        before.law_outputs_lie_a_step_apart(input@, j)
    }
}

/// A copy of a resampler goes on as the resampler itself would.
pub proof fn law_clone_resampler<S: Copy>(resampler: LinearResampler<S>, r: LinearResampler<S>)
    requires
        call_ensures(<LinearResampler<S> as Clone>::clone, (&resampler,), r),
    ensures
        r@ == resampler@,
{
}

} // verus!
