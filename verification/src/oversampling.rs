//! The oversampling engine.
//!
//! One instance composes the pieces: zero-stuff the input block by the
//! factor, band-limit with the fixed-length convolution engine, hand the
//! oversampled samples to a caller-supplied stage, band-limit again, and
//! decimate back to the original rate.  The overlap carry buffer threads the
//! convolution tails between calls so the stream is filtered linearly.

use vstd::prelude::*;

use vstd::arithmetic::div_mod::{
    lemma_div_multiples_vanish, lemma_mod_multiples_vanish, lemma_small_mod,
};

use crate::conv::{
    abs_sum, bounded, const_seq, eff_len, engine_model, fits_i64, ints, lemma_abs_sum_prefix_eq,
    lemma_abs_sum_zero_tail, lemma_bounded_fits, lemma_engine_linear, lemma_engine_model_len,
    lemma_lin_dot_beyond, lin_at, lin_conv_full, pad_to, support,
};
use crate::fft_convolve::{FftConvolve, KERNEL_SUM_LIMIT, SAMPLE_LIMIT};
use crate::overlap_add::{carry_ext, lemma_overlap_first_block, OverlapAdd};
use crate::processor::{BlockProcessor, Bypass};
use crate::utils::zeros;

verus! {

/// Zero-stuffing upsample: between every two samples of `x`, `fac - 1`
/// zeros; each kept sample scaled by `fac` to make up for the energy the
/// following low-pass filter spreads over the stuffed zeros.
pub open spec fn zero_stuff_spec(x: Seq<int>, fac: int) -> Seq<int> {
    Seq::new((x.len() * fac) as nat, |i: int| if i % fac == 0 { fac * x[i / fac] } else { 0 })
}

/// Decimation: every `fac`-th sample of `y`, `n` of them.
pub open spec fn decimate_spec(y: Seq<int>, fac: int, n: int) -> Seq<int> {
    Seq::new(n as nat, |i: int| y[i * fac])
}

/// Zero-stuffing and then decimating, with no filtering in between, hands
/// every sample back scaled by the factor — the stuffing's deliberate gain.
/// With a factor of one the round trip is exactly the identity.
pub proof fn lemma_zero_stuff_decimate(x: Seq<int>, fac: int)
    requires
        fac >= 1,
    ensures
        decimate_spec(zero_stuff_spec(x, fac), fac, x.len() as int) == Seq::new(
            x.len(),
            |i: int| fac * x[i],
        ),
        fac == 1 ==> decimate_spec(zero_stuff_spec(x, fac), fac, x.len() as int) == x,
{
    let zss = zero_stuff_spec(x, fac);
    let d = decimate_spec(zss, fac, x.len() as int);
    let scaled = Seq::new(x.len(), |i: int| fac * x[i]);
    assert forall|i: int| 0 <= i < x.len() implies d[i] == fac * x[i] by {
        assert(0 <= i * fac < x.len() * fac) by (nonlinear_arith)
            requires
                0 <= i < x.len(),
                fac >= 1,
        ;
        lemma_mod_multiples_vanish(i, 0, fac);
        lemma_small_mod(0nat, fac as nat);
        assert((i * fac) % fac == 0) by {
            assert(i * fac == fac * i + 0) by (nonlinear_arith);
        }
        lemma_div_multiples_vanish(i, fac);
        assert((i * fac) / fac == i) by {
            assert(i * fac == fac * i) by (nonlinear_arith);
        }
    }
    assert(d =~= scaled);
    if fac == 1 {
        assert forall|i: int| 0 <= i < x.len() implies scaled[i] == x[i] by {
            assert(1 * x[i] == x[i]) by (nonlinear_arith);
        }
        assert(scaled =~= x);
    }
}

/// The oversampling engine: a factor, the working buffers, the band-limiting
/// convolution engine and the overlap carry buffer, all sized once at
/// construction.
pub struct Oversample {
    /// The integer oversampling factor (at least one).
    pub fac: usize,
    /// The largest input block the engine was built for.
    pub max_block_size: usize,
    /// The oversampled working buffer.
    pub os_buffer: Vec<i64>,
    /// The view of oversampled samples handed to the caller's stage.
    pub user_buffer: Vec<i64>,
    /// The band-limiting convolution engine.
    pub filter: FftConvolve,
    /// The overlap carry buffer at the oversampled rate.
    pub oadd: OverlapAdd,
}

impl Oversample {
    /// The construction-time invariant: the transform length equals the
    /// oversampled block length plus the carried padding, which is what
    /// makes each cyclic convolution act as a linear one on the carried
    /// stream.
    pub open spec fn wf(&self) -> bool {
        &&& self.fac >= 1
        &&& self.fac <= i64::MAX
        &&& self.max_block_size >= 1
        &&& self.filter.wf()
        &&& self.oadd.wf()
        &&& self.oadd.max_block_size == self.max_block_size * self.fac
        &&& self.filter.kernel@.len() == self.max_block_size * self.fac
            + self.oadd.padding@.len()
        &&& self.os_buffer@.len() <= self.max_block_size * self.fac
    }

    /// Build an engine for `fac`-times oversampling of blocks of at most
    /// `max_block_size` samples, band-limited by `kernel` (the time-domain
    /// low-pass taps; the engine pads them to its transform length).
    #[verifier::loop_isolation(false)]
    pub fn new(fac: usize, max_block_size: usize, kernel: &Vec<i64>) -> (r: Self)
        requires
            fac >= 1,
            fac <= i64::MAX,
            max_block_size >= 1,
            kernel@.len() >= 1,
            max_block_size * fac + kernel@.len() <= usize::MAX,
            abs_sum(ints(kernel@), kernel@.len()) <= KERNEL_SUM_LIMIT as int,
        ensures
            r.wf(),
            r.fac == fac,
            r.max_block_size == max_block_size,
            r.oadd.padding@.len() == kernel@.len() - 1,
            forall|i: int| 0 <= i < r.oadd.padding@.len() ==> r.oadd.padding@[i] == 0i64,
            ints(r.filter.kernel@) == pad_to(
                ints(kernel@),
                max_block_size * fac + kernel@.len() - 1,
            ),
    {
        let os_size = max_block_size * fac;
        proof {
            assert(os_size >= 1) by (nonlinear_arith)
                requires
                    max_block_size >= 1,
                    fac >= 1,
                    os_size == max_block_size * fac,
            ;
        }
        let filter_len = kernel.len();
        let max_len = os_size + filter_len - 1;
        let mut padded = zeros(max_len);
        let mut i: usize = 0;
        while i < filter_len
            invariant
                i <= filter_len,
                padded@.len() == max_len,
                forall|t: int| 0 <= t < i ==> padded@[t] == kernel@[t],
                forall|t: int| i <= t < max_len ==> padded@[t] == 0i64,
            decreases filter_len - i,
        {
            padded[i] = kernel[i];
            i = i + 1;
        }
        proof {
            let kp = ints(padded@);
            let kk = ints(kernel@);
            assert forall|t: int| 0 <= t < filter_len implies kp[t] == #[trigger] kk[t] by {
                assert(padded@[t] == kernel@[t]);
            }
            assert forall|t: int| filter_len <= t < max_len implies #[trigger] kp[t] == 0 by {
                assert(padded@[t] == 0i64);
            }
            lemma_abs_sum_zero_tail(kp, filter_len as nat, max_len as nat);
            lemma_abs_sum_prefix_eq(kp, kk, filter_len as nat);
            assert forall|t: int|
                0 <= t < max_len implies kp[t] == pad_to(kk, max_len as int)[t] by {
                if t < filter_len {
                    assert(kp[t] == kk[t]);
                } else {
                    assert(kp[t] == 0);
                }
            }
            assert(kp =~= pad_to(kk, max_len as int));
        }
        let filter = FftConvolve::new(&padded);
        Oversample {
            fac,
            max_block_size,
            os_buffer: zeros(os_size),
            user_buffer: zeros(os_size),
            filter,
            oadd: OverlapAdd::new(os_size, filter_len - 1),
        }
    }

    /// The fixed pipeline delay, in input-rate samples, for host latency
    /// compensation.  Each of the two linear-phase passes delays the signal
    /// by half the kernel length at the oversampled rate; together that is
    /// the carried padding length, which divided by the factor is the delay
    /// at the input rate.
    pub fn latency_samples(&self) -> (r: u32)
        requires
            self.wf(),
            self.oadd.padding@.len() as int / self.fac as int <= u32::MAX,
        ensures
            r == self.oadd.padding@.len() as int / self.fac as int,
    {
        (self.oadd.padding.len() / self.fac) as u32
    }

    /// The largest input block the engine accepts.
    pub fn max_buffer_size(&self) -> (r: usize)
        requires
            self.wf(),
        ensures
            r == self.max_block_size,
    {
        self.max_block_size
    }

    /// Forward to the overlap buffer's reset: zero all carried state on a
    /// stream discontinuity.
    pub fn reset(&mut self)
        requires
            old(self).wf(),
        ensures
            final(self).wf(),
            final(self).fac == old(self).fac,
            final(self).max_block_size == old(self).max_block_size,
            final(self).filter == old(self).filter,
            final(self).oadd.padding@.len() == old(self).oadd.padding@.len(),
            forall|i: int|
                0 <= i < final(self).oadd.padding@.len() ==> final(self).oadd.padding@[i]
                    == 0i64,
    {
        self.oadd.reset();
    }

    /// Expand the input by the factor into the oversampled buffer:
    /// each sample scaled by the factor, then `fac - 1` zeros.
    #[verifier::loop_isolation(false)]
    fn zero_stuff(&mut self, input: &Vec<i64>)
        requires
            old(self).wf(),
            input@.len() <= old(self).max_block_size,
            fits_i64(zero_stuff_spec(ints(input@), old(self).fac as int)),
        ensures
            final(self).wf(),
            final(self).fac == old(self).fac,
            final(self).max_block_size == old(self).max_block_size,
            final(self).filter == old(self).filter,
            final(self).oadd == old(self).oadd,
            final(self).user_buffer == old(self).user_buffer,
            final(self).os_buffer@.len() == input@.len() * old(self).fac,
            ints(final(self).os_buffer@) == zero_stuff_spec(ints(input@), old(self).fac as int),
    {
        let ghost zss: Seq<int> = zero_stuff_spec(ints(input@), self.fac as int);
        let n = input.len();
        let fac = self.fac;
        proof {
            assert(n * fac <= self.max_block_size * fac) by (nonlinear_arith)
                requires
                    n <= self.max_block_size,
                    fac >= 1,
            ;
        }
        let os_len = n * fac;
        self.os_buffer.truncate(0);
        let mut i: usize = 0;
        while i < n
            invariant
                i <= n,
                self.fac == old(self).fac,
                self.max_block_size == old(self).max_block_size,
                self.filter == old(self).filter,
                self.oadd == old(self).oadd,
                self.user_buffer == old(self).user_buffer,
                self.os_buffer@.len() == i * fac,
                forall|t: int|
                    0 <= t < i * fac ==> (#[trigger] self.os_buffer@[t]) as int == zss[t],
            decreases n - i,
        {
            proof {
                assert(i * fac + fac == (i + 1) * fac) by (nonlinear_arith);
                assert((i + 1) * fac <= n * fac) by (nonlinear_arith)
                    requires
                        i + 1 <= n,
                        fac >= 0,
                ;
                lemma_mod_multiples_vanish(i as int, 0, fac as int);
                lemma_small_mod(0nat, fac as nat);
                assert((i * fac) % (fac as int) == 0) by {
                    assert(i * fac == fac * i + 0) by (nonlinear_arith);
                }
                lemma_div_multiples_vanish(i as int, fac as int);
                assert((i * fac) / (fac as int) == i) by {
                    assert(i * fac == fac * i) by (nonlinear_arith);
                }
                assert(zss[i * fac] == fac * ints(input@)[i as int]);
                assert(fits_i64(zss));
                assert(i64::MIN <= fac * ints(input@)[i as int] <= i64::MAX);
            }
            let scaled = (fac as i64) * input[i];
            self.os_buffer.push(scaled);
            let mut j: usize = 1;
            while j < fac
                invariant
                    1 <= j <= fac,
                    i < n,
                    self.fac == old(self).fac,
                    self.max_block_size == old(self).max_block_size,
                    self.filter == old(self).filter,
                    self.oadd == old(self).oadd,
                    self.user_buffer == old(self).user_buffer,
                    self.os_buffer@.len() == i * fac + j,
                    forall|t: int|
                        0 <= t < i * fac + j ==> (#[trigger] self.os_buffer@[t]) as int
                            == zss[t],
                decreases fac - j,
            {
                proof {
                    lemma_mod_multiples_vanish(i as int, j as int, fac as int);
                    lemma_small_mod(j as nat, fac as nat);
                    assert((i * fac + j) % (fac as int) == j) by {
                        assert(i * fac + j == fac * i + j) by (nonlinear_arith);
                    }
                    assert(zss[i * fac + j] == 0);
                }
                self.os_buffer.push(0);
                j = j + 1;
            }
            proof {
                assert(i * fac + fac == (i + 1) * fac) by (nonlinear_arith);
            }
            i = i + 1;
        }
        proof {
            assert forall|t: int| 0 <= t < os_len implies ints(self.os_buffer@)[t] == zss[t] by {
                assert(self.os_buffer@[t] as int == zss[t]);
            }
            assert(ints(self.os_buffer@) =~= zss);
        }
    }

    /// The zero-stuffed image of an input block.
    pub open spec fn stuffed(&self, x: Seq<int>) -> Seq<int> {
        zero_stuff_spec(x, self.fac as int)
    }

    /// The extended block the first filter pass sees: the zero-stuffed
    /// input with the carried padding added into its head.
    pub open spec fn stage1_in(&self, x: Seq<int>) -> Seq<int> {
        carry_ext(self.stuffed(x), ints(self.oadd.padding@), x.len() * self.fac)
    }

    /// After the first (anti-imaging) filter pass.
    pub open spec fn stage1_out(&self, x: Seq<int>) -> Seq<int> {
        engine_model(self.stage1_in(x), ints(self.filter.kernel@))
    }

    /// The oversampled view handed to the caller's stage: the first
    /// `len * fac` samples of the filtered extended block.
    pub open spec fn user_view(&self, x: Seq<int>) -> Seq<int> {
        self.stage1_out(x).take(x.len() * self.fac)
    }

    /// The extended block the second (anti-aliasing) pass sees: the
    /// caller's stage applied to the oversampled view, with the filtered
    /// tail untouched.
    pub open spec fn stage2_in<P: BlockProcessor>(&self, x: Seq<int>, f: &P) -> Seq<int> {
        f.model(self.user_view(x)) + self.stage1_out(x).skip(x.len() * self.fac)
    }

    /// After the second filter pass.
    pub open spec fn stage2_out<P: BlockProcessor>(&self, x: Seq<int>, f: &P) -> Seq<int> {
        engine_model(self.stage2_in(x, f), ints(self.filter.kernel@))
    }

    /// The decimated output block of a call.
    pub open spec fn output_model<P: BlockProcessor>(&self, x: Seq<int>, f: &P) -> Seq<int> {
        decimate_spec(self.stage2_out(x, f), self.fac as int, x.len() as int)
    }

    /// The tail carried into the next call.
    pub open spec fn carry_model<P: BlockProcessor>(&self, x: Seq<int>, f: &P) -> Seq<int> {
        self.stage2_out(x, f).skip(x.len() * self.fac)
    }

    /// The machine limits a call must respect: the samples of every stage
    /// stay within the bound that keeps convolution sums inside `i64`, and
    /// the caller's stage accepts its view.
    pub open spec fn call_ok<P: BlockProcessor>(&self, x: Seq<int>, f: &P) -> bool {
        &&& bounded(self.stuffed(x), SAMPLE_LIMIT as int)
        &&& bounded(self.stage1_in(x), SAMPLE_LIMIT as int)
        &&& f.pre(self.user_view(x))
        &&& bounded(self.stage2_in(x, f), SAMPLE_LIMIT as int)
    }

    /// One call from a reset engine, seen end to end: with no creative
    /// stage plugged in, the output block is the decimation of the
    /// zero-stuffed input filtered twice *linearly* by the kernel — no
    /// cyclic wrap-around reaches any output sample.  The hypotheses are
    /// the sizing this needs: the kernel's support fits the carried
    /// padding, and the oversampled block leaves the transform room for
    /// both passes' tails.
    pub proof fn lemma_call_from_reset_is_double_linear_filter(
        &self,
        f: &Bypass,
        x: Seq<int>,
        s: int,
    )
        requires
            self.wf(),
            forall|i: int|
                0 <= i < self.oadd.padding@.len() ==> #[trigger] self.oadd.padding@[i] == 0i64,
            support(ints(self.filter.kernel@), s),
            1 <= s,
            s - 1 <= self.oadd.padding@.len(),
            self.oadd.padding@.len() + s <= self.filter.kernel@.len() + 1,
            x.len() <= self.max_block_size,
            x.len() * self.fac + 2 * s <= self.filter.kernel@.len() + 2,
        ensures
            ({
                let kpv = ints(self.filter.kernel@);
                let l = x.len() * self.fac + self.oadd.padding@.len();
                let once = lin_conv_full(self.stuffed(x), kpv, l);
                forall|i: int|
                    0 <= i < x.len() ==> #[trigger] self.output_model(x, f)[i] == lin_at(
                        once,
                        kpv,
                        i * self.fac,
                    )
            }),
    {
        let kpv = ints(self.filter.kernel@);
        let nn = kpv.len() as int;
        let p = self.oadd.padding@.len() as int;
        let fac = self.fac as int;
        let os_len = x.len() * fac;
        let zss = self.stuffed(x);
        let l = os_len + p;
        assert(zss.len() == os_len);
        assert(os_len <= self.max_block_size * fac) by (nonlinear_arith)
            requires
                x.len() <= self.max_block_size,
                fac >= 0,
                os_len == x.len() * fac,
        ;

        // With everything reset the carried padding is the zero sequence,
        // so the first pass sees the zero-stuffed block alone.
        assert forall|i: int| 0 <= i < p implies ints(self.oadd.padding@)[i] == #[trigger] const_seq(
            p,
            0,
        )[i] by {
            assert(self.oadd.padding@[i] == 0i64);
        }
        assert(ints(self.oadd.padding@) =~= const_seq(p, 0));
        let e1 = self.stage1_in(x);
        assert(e1 == carry_ext(zss, const_seq(p, 0), os_len));
        lemma_overlap_first_block(zss, kpv, p, s);
        let y1 = engine_model(e1, kpv);
        lemma_engine_model_len(e1, kpv);
        let once = lin_conv_full(zss, kpv, l);
        assert forall|i: int| 0 <= i < l implies y1[i] == #[trigger] once[i] by {
            assert(engine_model(carry_ext(zss, const_seq(p, 0), zss.len() as int), kpv)[i]
                == lin_at(zss, kpv, i));
        }
        assert(y1 =~= once);

        // The bypass stage leaves the block alone, so the second pass sees
        // the first pass's full result.
        let e2 = self.stage2_in(x, f);
        assert(f.model(self.user_view(x)) == self.user_view(x));
        assert forall|i: int| 0 <= i < l implies #[trigger] e2[i] == y1[i] by {
            if i < os_len {
                assert(e2[i] == y1.take(os_len)[i]);
            } else {
                assert(e2[i] == y1.skip(os_len)[i - os_len]);
            }
        }
        assert(e2 =~= y1);

        // The first pass's tail dies out by `os_len + s - 1`, which leaves
        // the ring's wrap-around region untouched on the second pass too.
        assert forall|t: int| os_len + s - 1 <= t < l implies #[trigger] y1[t] == 0 by {
            lemma_lin_dot_beyond(zss, kpv, s, t, kpv.len());
        }
        lemma_engine_linear(e2, kpv, s, os_len + s - 1);
        let y2 = engine_model(e2, kpv);

        assert forall|i: int|
            0 <= i < x.len() implies #[trigger] self.output_model(x, f)[i] == lin_at(
            once,
            kpv,
            i * fac,
        ) by {
            assert(0 <= i * fac < os_len) by (nonlinear_arith)
                requires
                    0 <= i < x.len(),
                    fac >= 1,
                    os_len == x.len() * fac,
            ;
            assert(self.output_model(x, f)[i] == self.stage2_out(x, f)[i * fac]);
            assert(y2[i * fac] == lin_at(e2, kpv, i * fac));
        }
    }

    /// Oversample one block around the caller's stage: zero-stuff, filter,
    /// run the stage on the oversampled samples, filter again, decimate.
    /// The overlap buffer carries the filter tails into the next call, and
    /// the stage's result is handed back.
    ///
    /// The input block must not exceed the configured maximum: the buffers
    /// were never sized for more.
    #[verifier::loop_isolation(false)]
    pub fn with_oversample<P: BlockProcessor>(
        &mut self,
        input: &mut Vec<i64>,
        f: &mut P,
    ) -> (r: P::Output)
        requires
            old(self).wf(),
            old(input)@.len() <= old(self).max_block_size,
            old(self).call_ok(ints(old(input)@), old(f)),
        ensures
            final(input)@.len() == old(input)@.len(),
            ints(final(input)@) == old(self).output_model(ints(old(input)@), old(f)),
            ints(final(self).oadd.padding@) == old(self).carry_model(
                ints(old(input)@),
                old(f),
            ),
            old(f).post(old(self).user_view(ints(old(input)@)), r),
            old(self).user_view(ints(old(input)@)).len() == old(input)@.len() * old(self).fac,
            final(self).wf(),
            final(self).fac == old(self).fac,
            final(self).max_block_size == old(self).max_block_size,
            final(self).filter.kernel@ == old(self).filter.kernel@,
            final(self).oadd.padding@.len() == old(self).oadd.padding@.len(),
            forall|s: Seq<int>| #[trigger] final(f).pre(s) == old(f).pre(s),
            forall|s: Seq<int>| #[trigger] final(f).model(s) == old(f).model(s),
            forall|s: Seq<int>, o: P::Output| #[trigger] final(f).post(s, o) == old(f).post(
                s,
                o,
            ),
    {
        let ghost x: Seq<int> = ints(input@);
        let ghost kpv: Seq<int> = ints(self.filter.kernel@);
        let ghost p: int = self.oadd.padding@.len() as int;
        let n = input.len();
        let fac = self.fac;
        proof {
            assert(n * fac <= self.max_block_size * fac) by (nonlinear_arith)
                requires
                    n <= self.max_block_size,
                    fac >= 0,
            ;
            lemma_bounded_fits(self.stuffed(x), SAMPLE_LIMIT as int);
        }
        let os_len = n * fac;

        self.zero_stuff(input);
        proof {
            assert(self.oadd.ext_of(self.os_buffer@) == old(self).stage1_in(x));
            lemma_bounded_fits(old(self).stage1_in(x), SAMPLE_LIMIT as int);
        }
        let ghost e1: Seq<int> = old(self).stage1_in(x);
        self.oadd.stage(&self.os_buffer);
        proof {
            assert(ints(self.oadd.inner_block@) == e1);
            assert(self.oadd.inner_block@.len() == os_len + p);
            assert(ints(self.oadd.inner_block@).take(
                eff_len((os_len + p) as int, kpv.len() as int),
            ) =~= e1);
        }
        self.filter.process(&mut self.oadd.inner_block);
        let ghost y1: Seq<int> = engine_model(e1, kpv);
        proof {
            lemma_engine_model_len(e1, kpv);
            assert(ints(self.oadd.inner_block@) == y1);
            assert(y1.len() == os_len + p);
        }

        // Hand the first `os_len` filtered samples to the caller's stage.
        self.user_buffer.truncate(0);
        let ghost snap1: Oversample = *self;
        let mut i: usize = 0;
        while i < os_len
            invariant
                i <= os_len,
                self.user_buffer@.len() == i,
                self.fac == snap1.fac,
                self.max_block_size == snap1.max_block_size,
                self.filter == snap1.filter,
                self.oadd == snap1.oadd,
                self.os_buffer == snap1.os_buffer,
                forall|t: int|
                    0 <= t < i ==> #[trigger] self.user_buffer@[t]
                        == self.oadd.inner_block@[t],
            decreases os_len - i,
        {
            let v = self.oadd.inner_block[i];
            self.user_buffer.push(v);
            i = i + 1;
        }
        let ghost u_in: Seq<int> = old(self).user_view(x);
        proof {
            assert forall|t: int|
                0 <= t < os_len implies ints(self.user_buffer@)[t] == u_in[t] by {
                assert(self.user_buffer@[t] == self.oadd.inner_block@[t]);
                assert(ints(self.oadd.inner_block@)[t] == y1[t]);
            }
            assert(ints(self.user_buffer@) =~= u_in);
        }

        let r = f.process_block(&mut self.user_buffer);
        let ghost u: Seq<int> = old(f).model(u_in);
        proof {
            assert(ints(self.user_buffer@) == u);
            assert(self.user_buffer@.len() == os_len);
        }

        // Write the stage's samples back under the filtered tail.
        let ghost snap2: Oversample = *self;
        let ghost ib1: Seq<i64> = self.oadd.inner_block@;
        let mut i: usize = 0;
        while i < os_len
            invariant
                i <= os_len,
                self.fac == snap2.fac,
                self.max_block_size == snap2.max_block_size,
                self.filter == snap2.filter,
                self.os_buffer == snap2.os_buffer,
                self.user_buffer == snap2.user_buffer,
                self.oadd.padding == snap2.oadd.padding,
                self.oadd.max_block_size == snap2.oadd.max_block_size,
                self.oadd.inner_block@.len() == os_len + p,
                forall|t: int|
                    0 <= t < i ==> #[trigger] self.oadd.inner_block@[t]
                        == self.user_buffer@[t],
                forall|t: int|
                    i <= t < os_len + p ==> #[trigger] self.oadd.inner_block@[t] == ib1[t],
            decreases os_len - i,
        {
            let v = self.user_buffer[i];
            self.oadd.inner_block[i] = v;
            i = i + 1;
        }
        let ghost e2: Seq<int> = old(self).stage2_in(x, old(f));
        proof {
            assert(u + y1.skip(os_len as int) == e2);
            assert forall|t: int| 0 <= t < os_len + p implies ints(self.oadd.inner_block@)[t]
                == e2[t] by {
                if t < os_len {
                    assert(self.oadd.inner_block@[t] == self.user_buffer@[t]);
                    assert(ints(self.user_buffer@)[t] == u[t]);
                } else {
                    assert(self.oadd.inner_block@[t] == ib1[t]);
                    assert(ints(ib1)[t] == y1[t]);
                    assert(e2[t] == y1.skip(os_len as int)[t - os_len]);
                }
            }
            assert(ints(self.oadd.inner_block@) =~= e2);
            assert(ints(self.oadd.inner_block@).take(
                eff_len((os_len + p) as int, kpv.len() as int),
            ) =~= e2);
        }
        self.filter.process(&mut self.oadd.inner_block);
        let ghost y2: Seq<int> = engine_model(e2, kpv);
        proof {
            lemma_engine_model_len(e2, kpv);
            assert(ints(self.oadd.inner_block@) == y2);
            assert(self.os_buffer@.len() == os_len);
            assert(self.oadd.eff(self.os_buffer@.len() as int) == os_len as int);
        }
        self.oadd.commit(&mut self.os_buffer);
        proof {
            assert forall|t: int| 0 <= t < p implies ints(self.oadd.padding@)[t] == y2.skip(
                os_len as int,
            )[t] by {
                assert(self.oadd.padding@[t] == self.oadd.inner_block@[os_len + t]);
                assert(ints(self.oadd.inner_block@)[os_len + t] == y2[os_len + t]);
            }
            assert(ints(self.oadd.padding@) =~= y2.skip(os_len as int));
            assert forall|t: int| 0 <= t < os_len implies ints(self.os_buffer@)[t] == y2[t] by {
                assert(self.os_buffer@[t] == self.oadd.inner_block@[t]);
                assert(ints(self.oadd.inner_block@)[t] == y2[t]);
            }
        }
        self.decimate(input);
        proof {
            let d_exec = decimate_spec(ints(self.os_buffer@), fac as int, n as int);
            let d_model = decimate_spec(y2, fac as int, n as int);
            assert forall|t: int| 0 <= t < n implies d_exec[t] == d_model[t] by {
                assert(0 <= t * fac < os_len) by (nonlinear_arith)
                    requires
                        0 <= t < n,
                        fac >= 1,
                        os_len == n * fac,
                ;
                assert(ints(self.os_buffer@)[t * fac] == y2[t * fac]);
            }
            assert(d_exec =~= d_model);
        }
        r
    }

    /// Keep every `fac`-th sample of the oversampled buffer, back at the
    /// input rate.
    #[verifier::loop_isolation(false)]
    fn decimate(&self, dest: &mut Vec<i64>)
        requires
            self.wf(),
            old(dest)@.len() * self.fac <= self.os_buffer@.len(),
        ensures
            final(dest)@.len() == old(dest)@.len(),
            ints(final(dest)@) == decimate_spec(
                ints(self.os_buffer@),
                self.fac as int,
                old(dest)@.len() as int,
            ),
    {
        let ghost d: Seq<int> = decimate_spec(
            ints(self.os_buffer@),
            self.fac as int,
            old(dest)@.len() as int,
        );
        let n = dest.len();
        let fac = self.fac;
        let mut i: usize = 0;
        while i < n
            invariant
                i <= n,
                dest@.len() == n,
                forall|t: int| 0 <= t < i ==> (#[trigger] dest@[t]) as int == d[t],
            decreases n - i,
        {
            proof {
                assert(i * fac < n * fac) by (nonlinear_arith)
                    requires
                        0 <= i < n,
                        fac >= 1,
                ;
                assert(i * fac <= i * fac);
            }
            let idx = i * fac;
            dest[i] = self.os_buffer[idx];
            i = i + 1;
        }
        proof {
            assert forall|t: int| 0 <= t < n implies ints(dest@)[t] == d[t] by {
                assert(dest@[t] as int == d[t]);
            }
            assert(ints(dest@) =~= d);
        }
    }
}

} // verus!
