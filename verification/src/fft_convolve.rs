//! The fixed-length convolution engine.
//!
//! One instance owns a kernel padded to its transform length N and a reused
//! scratch buffer, and performs exactly one N-length cyclic convolution per
//! call, in place — the transform an FFT, pointwise multiply and inverse FFT
//! compute, here evaluated directly so that every output sample is exact.
//! It behaves as part of a correct *linear* convolution only when the caller
//! supplies buffers that already carry the previous block's tail — that
//! discipline belongs to the overlap carry buffer, not here.

use vstd::prelude::*;

use crate::conv::{
    abs_sum, abs_val, bounded, cyc_at, cyc_dot, cyc_index, eff_len, engine_model, ints,
    lemma_abs_sum_mono, lemma_cyc_dot_bound, lemma_cyc_index, pad_to,
};
use crate::processor::BlockProcessor;
use crate::utils::zeros;

verus! {

/// Magnitude cap on the samples of a convolution input; together with
/// [`KERNEL_SUM_LIMIT`] it keeps every accumulated sum inside `i64`.
pub const SAMPLE_LIMIT: i64 = 0x8000_0000;

/// Cap on the summed magnitudes of a kernel's taps.
pub const KERNEL_SUM_LIMIT: i64 = 0x8000_0000;

/// A convolution operator of fixed transform length, built once from a
/// zero-padded kernel and reused for every block.
pub struct FftConvolve {
    /// The kernel taps, zero-padded to the transform length N.
    pub kernel: Vec<i64>,
    /// Working memory of length N, reused every call; never reallocated.
    pub work: Vec<i64>,
}

impl FftConvolve {
    /// The operator is intact: scratch sized to the kernel, and the kernel
    /// small enough that no convolution sum of bounded samples can overflow.
    pub open spec fn wf(&self) -> bool {
        &&& self.work@.len() == self.kernel@.len()
        &&& self.kernel@.len() > 0
        &&& abs_sum(ints(self.kernel@), self.kernel@.len()) <= KERNEL_SUM_LIMIT as int
    }

    /// The padded kernel, as unbounded integers.
    pub open spec fn kernel_view(&self) -> Seq<int> {
        ints(self.kernel@)
    }

    /// The transform length N.
    pub fn buffer_size(&self) -> (r: usize)
        ensures
            r == self.kernel@.len(),
    {
        self.kernel.len()
    }

    /// Create a convolution operator from a provided kernel.
    ///
    /// The kernel needs to already have been padded with zeros to match the
    /// output length, that is (N + K - 1) where the input is size N and the
    /// filter size K.
    pub fn new(kernel: &Vec<i64>) -> (r: Self)
        requires
            kernel@.len() > 0,
            abs_sum(ints(kernel@), kernel@.len()) <= KERNEL_SUM_LIMIT as int,
        ensures
            r.wf(),
            r.kernel@ == kernel@,
    {
        let n = kernel.len();
        let mut taps: Vec<i64> = Vec::new();
        let mut i: usize = 0;
        while i < n
            invariant
                i == taps@.len(),
                i <= n,
                n == kernel@.len(),
                forall|t: int| 0 <= t < i ==> taps@[t] == kernel@[t],
            decreases n - i,
        {
            taps.push(kernel[i]);
            i = i + 1;
        }
        assert(taps@ =~= kernel@);
        FftConvolve { kernel: taps, work: zeros(n) }
    }

    /// Convolve `input` in place against the stored kernel.
    ///
    /// A buffer shorter than N is treated as zero-extended to N; only its own
    /// length is written back.  Of a longer buffer only the first N samples
    /// take part, and the rest stay untouched.
    #[verifier::loop_isolation(false)]
    pub fn process(&mut self, input: &mut Vec<i64>)
        requires
            old(self).wf(),
            bounded(
                ints(old(input)@).take(
                    eff_len(old(input)@.len() as int, old(self).kernel@.len() as int),
                ),
                SAMPLE_LIMIT as int,
            ),
        ensures
            final(self).kernel@ == old(self).kernel@,
            final(self).wf(),
            final(input)@.len() == old(input)@.len(),
            ints(final(input)@) == engine_model(ints(old(input)@), old(self).kernel_view()),
    {
        let ghost orig: Seq<int> = ints(input@);
        let ghost orig64: Seq<i64> = input@;
        let ghost k0: Seq<i64> = self.kernel@;
        let ghost kp: Seq<int> = ints(self.kernel@);
        let n_total = self.kernel.len();
        let n_eff = if input.len() < n_total {
            input.len()
        } else {
            n_total
        };
        let ghost x: Seq<int> = pad_to(orig.take(n_eff as int), n_total as int);
        assert(bounded(x, SAMPLE_LIMIT as int));

        // Load the effective samples into the scratch buffer, zero-extended
        // to the transform length.
        let mut i: usize = 0;
        while i < n_eff
            invariant
                i <= n_eff,
                n_eff <= n_total,
                n_eff <= input@.len(),
                input@ == orig64,
                orig == ints(orig64),
                self.kernel@ == k0,
                k0.len() == n_total,
                self.work@.len() == n_total,
                x.len() == n_total,
                forall|t: int| 0 <= t < i ==> (#[trigger] self.work@[t]) as int == x[t],
            decreases n_eff - i,
        {
            self.work[i] = input[i];
            proof {
                assert(x[i as int] == orig.take(n_eff as int)[i as int]);
                assert(self.work@[i as int] as int == x[i as int]);
            }
            i = i + 1;
        }
        let mut i: usize = n_eff;
        while i < n_total
            invariant
                n_eff <= i <= n_total,
                n_eff <= input@.len(),
                input@ == orig64,
                orig == ints(orig64),
                self.kernel@ == k0,
                k0.len() == n_total,
                self.work@.len() == n_total,
                x.len() == n_total,
                forall|t: int| 0 <= t < i ==> (#[trigger] self.work@[t]) as int == x[t],
            decreases n_total - i,
        {
            self.work[i] = 0;
            proof {
                assert(x[i as int] == 0);
            }
            i = i + 1;
        }
        let ghost w0: Seq<i64> = self.work@;
        proof {
            assert forall|t: int| 0 <= t < n_total implies ints(w0)[t] == x[t] by {
                assert(w0[t] as int == x[t]);
            }
            assert(ints(w0) =~= x);
        }

        // One cyclic convolution: output sample i is the dot product of the
        // kernel with the signal read backwards around the ring.
        let mut i: usize = 0;
        while i < n_eff
            invariant
                i <= n_eff,
                n_eff <= n_total,
                n_eff <= input@.len(),
                input@.len() == orig.len(),
                self.kernel@ == k0,
                kp == ints(k0),
                self.work@ == w0,
                ints(w0) == x,
                k0.len() == n_total,
                x.len() == n_total,
                kp.len() == n_total,
                n_total > 0,
                bounded(x, SAMPLE_LIMIT as int),
                abs_sum(kp, n_total as nat) <= KERNEL_SUM_LIMIT as int,
                forall|t: int| 0 <= t < i ==> #[trigger] input@[t] as int == cyc_at(x, kp, t),
                forall|t: int| i <= t < input@.len() ==> #[trigger] input@[t] == orig64[t],
                orig == ints(orig64),
                orig64.len() == orig.len(),
            decreases n_eff - i,
        {
            let mut acc: i64 = 0;
            let mut j: usize = 0;
            while j < n_total
                invariant
                    j <= n_total,
                    i < n_eff,
                    n_eff <= n_total,
                    self.kernel@ == k0,
                    kp == ints(k0),
                    self.work@ == w0,
                    ints(w0) == x,
                    k0.len() == n_total,
                    x.len() == n_total,
                    kp.len() == n_total,
                    n_total > 0,
                    bounded(x, SAMPLE_LIMIT as int),
                    abs_sum(kp, n_total as nat) <= KERNEL_SUM_LIMIT as int,
                    acc as int == cyc_dot(x, kp, i as int, j as nat),
                decreases n_total - j,
            {
                let idx = if j <= i {
                    i - j
                } else {
                    i + (n_total - j)
                };
                proof {
                    lemma_cyc_index(n_total as int, i as int, j as int);
                    assert(idx as int == cyc_index(n_total as int, i as int, j as int));
                }
                let ghost tap: int = kp[j as int];
                let ghost sig: int = x[idx as int];
                proof {
                    lemma_abs_sum_mono(kp, (j + 1) as nat, n_total as nat);
                    lemma_abs_sum_mono(kp, j as nat, (j + 1) as nat);
                    assert(abs_val(tap) <= abs_sum(kp, (j + 1) as nat)) by {
                        assert(abs_sum(kp, (j + 1) as nat) == abs_sum(kp, j as nat) + abs_val(
                            tap,
                        ));
                    }
                    assert(-(SAMPLE_LIMIT as int) * (KERNEL_SUM_LIMIT as int) <= tap * sig <= (
                    SAMPLE_LIMIT as int) * (KERNEL_SUM_LIMIT as int)) by (nonlinear_arith)
                        requires
                            abs_val(tap) <= KERNEL_SUM_LIMIT as int,
                            abs_val(sig) <= SAMPLE_LIMIT as int,
                    ;
                    lemma_cyc_dot_bound(x, kp, SAMPLE_LIMIT as int, i as int, (j + 1) as nat);
                    assert(abs_sum(kp, (j + 1) as nat) * (SAMPLE_LIMIT as int) <= (
                    KERNEL_SUM_LIMIT as int) * (SAMPLE_LIMIT as int)) by (nonlinear_arith)
                        requires
                            0 <= abs_sum(kp, (j + 1) as nat) <= KERNEL_SUM_LIMIT as int,
                    ;
                }
                let term = self.kernel[j] * self.work[idx];
                acc = acc + term;
                j = j + 1;
            }
            input[i] = acc;
            i = i + 1;
        }

        proof {
            let m = engine_model(orig, kp);
            if orig.len() <= kp.len() {
                assert(pad_to(orig, n_total as int) =~= x);
                assert(ints(input@) =~= m);
            } else {
                assert(pad_to(orig.take(n_total as int), n_total as int) =~= orig.take(
                    n_total as int,
                ));
                assert(x =~= orig.take(n_total as int));
                assert(ints(input@) =~= m);
            }
        }
    }
}

/// The convolution engine as a per-block stage: what the oversampling
/// engine wraps around the caller's own stage, and a verified
/// implementation of the callback contract.
pub struct FilterStage {
    /// The engine that filters each block.
    pub conv: FftConvolve,
}

impl BlockProcessor for FilterStage {
    type Output = ();

    open spec fn pre(&self, input: Seq<int>) -> bool {
        &&& self.conv.wf()
        &&& bounded(
            input.take(eff_len(input.len() as int, self.conv.kernel@.len() as int)),
            SAMPLE_LIMIT as int,
        )
    }

    open spec fn model(&self, input: Seq<int>) -> Seq<int> {
        engine_model(input, self.conv.kernel_view())
    }

    fn process_block(&mut self, buf: &mut Vec<i64>) -> (r: ()) {
        self.conv.process(buf);
    }
}

/// Multiply `dest` element-wise by `factors`, in place.
pub fn mul_inplace(dest: &mut Vec<i64>, factors: &Vec<i64>)
    requires
        old(dest)@.len() == factors@.len(),
        forall|i: int|
            0 <= i < factors@.len() ==> i64::MIN <= #[trigger] (old(dest)@[i] * factors@[i])
                <= i64::MAX,
    ensures
        final(dest)@.len() == old(dest)@.len(),
        forall|i: int|
            0 <= i < final(dest)@.len() ==> final(dest)@[i] as int == old(dest)@[i] * factors@[i],
{
    let n = dest.len();
    let mut i: usize = 0;
    while i < n
        invariant
            i <= n,
            n == dest@.len(),
            n == factors@.len(),
            forall|t: int|
                0 <= t < n ==> i64::MIN <= #[trigger] (old(dest)@[t] * factors@[t]) <= i64::MAX,
            forall|t: int| i <= t < n ==> dest@[t] == old(dest)@[t],
            forall|t: int| 0 <= t < i ==> dest@[t] as int == old(dest)@[t] * factors@[t],
        decreases n - i,
    {
        dest[i] = dest[i] * factors[i];
        i = i + 1;
    }
}

} // verus!
