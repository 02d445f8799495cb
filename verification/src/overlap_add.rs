//! The overlap carry buffer.
//!
//! A stream of fixed-size blocks filtered with a fixed-length cyclic
//! convolution becomes an artifact-free filtered stream by carrying the
//! convolution tail of each call into the head of the next.  The buffer owns
//! the carried padding and an inner scratch block; both are zeroed on a
//! stream reset.

use vstd::prelude::*;

use crate::conv::{
    at0, const_seq, cyc_conv, eff_len, engine_model, fits_i64, ints, lemma_cyc_dot_is_lin_dot,
    lemma_engine_model_len, lemma_lin_dot_at0_eq, lemma_lin_dot_beyond, lemma_lin_dot_concat,
    lemma_lin_dot_zero_left, lin_at, pad_to, support,
};
use crate::processor::BlockProcessor;
use crate::utils::{zero_out, zeros};

verus! {

/// The extended block an inner stage sees: the (possibly truncated) input
/// block of length `n`, zero-extended by the padding length, with the
/// carried padding added element-wise into the head.
pub open spec fn carry_ext(b: Seq<int>, p: Seq<int>, n: int) -> Seq<int> {
    Seq::new((n + p.len()) as nat, |i: int| (if 0 <= i < n { b[i] } else { 0 }) + (if i < p.len() { p[i] } else { 0 }))
}

/// Overlap correctness for one block from a reset (all-zero) carry: the
/// extended block — the block zero-extended by the padding length, with
/// nothing carried in — put through one fixed-length cyclic convolution
/// equals the *linear* convolution of the block, at every sample of the
/// extended length.  The first `b.len()` samples are the filtered output,
/// the rest the tail carried into the next call.  The hypotheses are the
/// engine's own sizing: the kernel's support `s` fits inside the padding,
/// and block plus padding fit inside the transform length.
pub proof fn lemma_overlap_first_block(b: Seq<int>, kp: Seq<int>, p: int, s: int)
    requires
        1 <= s,
        support(kp, s),
        s - 1 <= p,
        b.len() + p <= kp.len(),
        p + s <= kp.len() + 1,
    ensures
        forall|i: int|
            0 <= i < b.len() + p ==> #[trigger] engine_model(
                carry_ext(b, const_seq(p, 0), b.len() as int),
                kp,
            )[i] == lin_at(b, kp, i),
{
    let n = b.len() as int;
    let nn = kp.len() as int;
    let e = carry_ext(b, const_seq(p, 0), n);
    let x = pad_to(e, nn);
    assert(e.len() == n + p);
    assert forall|t: int| n <= t < nn implies #[trigger] x[t] == 0 by {
        if t < n + p {
            assert(e[t] == 0);
        }
    }
    assert forall|t: int| #[trigger] at0(x, t) == at0(b, t) by {
        if 0 <= t < n {
            assert(x[t] == e[t]);
            assert(e[t] == b[t]);
        } else if 0 <= t < nn {
            assert(x[t] == 0);
        }
    }
    assert forall|i: int|
        0 <= i < b.len() + p implies #[trigger] engine_model(e, kp)[i] == lin_at(b, kp, i) by {
        assert(engine_model(e, kp)[i] == cyc_conv(x, kp).take(e.len() as int)[i]);
        lemma_cyc_dot_is_lin_dot(x, kp, s, n, i, kp.len());
        lemma_lin_dot_at0_eq(x, b, kp, i, kp.len());
    }
}

/// Overlap correctness over two consecutive blocks: starting from a reset
/// carry, processing `b1` and then `b2` through the carry discipline with a
/// cyclic-convolution inner stage yields exactly the linear convolution of
/// the concatenated stream, sliced at the block boundary — under the
/// hypothesis that the first block's filter tail has died out over the
/// carried padding.  (The carry is added into the *input* of the next
/// call's convolution, so a surviving tail would be filtered a second
/// time; the hypothesis rules that out.)
pub proof fn lemma_overlap_two_blocks(b1: Seq<int>, b2: Seq<int>, kp: Seq<int>, p: int, s: int)
    requires
        1 <= s,
        support(kp, s),
        s - 1 <= p,
        b1.len() + p <= kp.len(),
        b2.len() + p <= kp.len(),
        p + s <= kp.len() + 1,
        forall|t: int| b1.len() <= t < b1.len() + p ==> #[trigger] lin_at(b1, kp, t) == 0,
    ensures
        ({
            let n1 = b1.len() as int;
            let y1 = engine_model(carry_ext(b1, const_seq(p, 0), n1), kp);
            let y2 = engine_model(carry_ext(b2, y1.skip(n1), b2.len() as int), kp);
            &&& forall|i: int| 0 <= i < b1.len() ==> #[trigger] y1[i] == lin_at(b1 + b2, kp, i)
            &&& forall|i: int|
                0 <= i < b2.len() ==> #[trigger] y2[i] == lin_at(b1 + b2, kp, n1 + i)
        }),
{
    let n1 = b1.len() as int;
    let n2 = b2.len() as int;
    lemma_overlap_first_block(b1, kp, p, s);
    let e1 = carry_ext(b1, const_seq(p, 0), n1);
    let y1 = engine_model(e1, kp);
    lemma_engine_model_len(e1, kp);
    assert(y1.len() == n1 + p);
    let c1 = y1.skip(n1);
    assert forall|t: int| 0 <= t < p implies #[trigger] c1[t] == 0 by {
        assert(y1[n1 + t] == lin_at(b1, kp, n1 + t));
    }
    let e2 = carry_ext(b2, c1, n2);
    let e2z = carry_ext(b2, const_seq(p, 0), n2);
    assert(e2 =~= e2z);
    lemma_overlap_first_block(b2, kp, p, s);
    let y2 = engine_model(e2, kp);
    assert forall|i: int| 0 <= i < b1.len() implies #[trigger] y1[i] == lin_at(
        b1 + b2,
        kp,
        i,
    ) by {
        lemma_lin_dot_concat(b1, b2, kp, i, kp.len());
        lemma_lin_dot_zero_left(b2, kp, i - n1, kp.len());
    }
    assert forall|i: int| 0 <= i < b2.len() implies #[trigger] y2[i] == lin_at(
        b1 + b2,
        kp,
        n1 + i,
    ) by {
        assert(y2[i] == lin_at(b2, kp, i));
        lemma_lin_dot_concat(b1, b2, kp, n1 + i, kp.len());
        if i < p {
            assert(lin_at(b1, kp, n1 + i) == 0);
        } else {
            lemma_lin_dot_beyond(b1, kp, s, n1 + i, kp.len());
        }
    }
}

/// The overlap carry buffer: padding carried between calls, an inner
/// scratch block, and the block size the scratch was allocated for.
pub struct OverlapAdd {
    /// The convolution tail carried from the previous call.
    pub padding: Vec<i64>,
    /// Scratch the inner stage runs over; sized once, reused every call.
    pub inner_block: Vec<i64>,
    /// The largest block the scratch was allocated for.
    pub max_block_size: usize,
}

impl OverlapAdd {
    /// The buffer's sizes are consistent: an extended block always fits.
    pub open spec fn wf(&self) -> bool {
        &&& self.max_block_size + self.padding@.len() <= usize::MAX
        &&& self.inner_block@.len() <= self.max_block_size + self.padding@.len()
    }

    /// The effective length of an incoming block: anything beyond the
    /// configured maximum is truncated away rather than overrunning the
    /// scratch.
    pub open spec fn eff(&self, l: int) -> int {
        eff_len(l, self.max_block_size as int)
    }

    /// The extended block that a call with `b` would hand to its inner
    /// stage, given the current carried padding.
    pub open spec fn ext_of(&self, b: Seq<i64>) -> Seq<int> {
        carry_ext(ints(b), ints(self.padding@), self.eff(b.len() as int))
    }

    pub fn new(max_block_size: usize, padding: usize) -> (r: Self)
        requires
            max_block_size + padding <= usize::MAX,
        ensures
            r.wf(),
            r.max_block_size == max_block_size,
            r.padding@.len() == padding,
            forall|i: int| 0 <= i < padding ==> r.padding@[i] == 0i64,
            r.inner_block@.len() == max_block_size + padding,
    {
        OverlapAdd {
            max_block_size,
            padding: zeros(padding),
            inner_block: zeros(max_block_size + padding),
        }
    }

    /// The length of the carried padding.
    pub fn padding(&self) -> (r: usize)
        ensures
            r == self.padding@.len(),
    {
        self.padding.len()
    }

    /// Zero both buffers.  Callers must invoke this on any stream
    /// discontinuity, so that no stale tail bleeds into an unrelated
    /// stream segment.
    pub fn reset(&mut self)
        ensures
            final(self).max_block_size == old(self).max_block_size,
            final(self).padding@.len() == old(self).padding@.len(),
            final(self).inner_block@.len() == old(self).inner_block@.len(),
            forall|i: int|
                0 <= i < final(self).padding@.len() ==> final(self).padding@[i] == 0i64,
            forall|i: int|
                0 <= i < final(self).inner_block@.len() ==> final(self).inner_block@[i] == 0i64,
            old(self).wf() ==> final(self).wf(),
    {
        zero_out(&mut self.padding);
        zero_out(&mut self.inner_block);
    }

    /// Build the extended block in the inner scratch: copy the (possibly
    /// truncated) input, zero-extend by the padding length, and add the
    /// carried padding into the head.
    #[verifier::loop_isolation(false)]
    pub(crate) fn stage(&mut self, buffer: &Vec<i64>)
        requires
            old(self).wf(),
            fits_i64(old(self).ext_of(buffer@)),
        ensures
            final(self).max_block_size == old(self).max_block_size,
            final(self).padding@ == old(self).padding@,
            final(self).wf(),
            final(self).inner_block@.len() == old(self).ext_of(buffer@).len(),
            ints(final(self).inner_block@) == old(self).ext_of(buffer@),
    {
        let ghost ext: Seq<int> = self.ext_of(buffer@);
        let n = if buffer.len() > self.max_block_size {
            self.max_block_size
        } else {
            buffer.len()
        };
        let p = self.padding.len();
        let ghost p0: Seq<i64> = self.padding@;
        self.inner_block.truncate(0);
        let mut i: usize = 0;
        while i < n
            invariant
                i <= n,
                self.inner_block@.len() == i,
                self.padding@ == p0,
                self.max_block_size == old(self).max_block_size,
                forall|t: int| 0 <= t < i ==> self.inner_block@[t] == buffer@[t],
            decreases n - i,
        {
            self.inner_block.push(buffer[i]);
            i = i + 1;
        }
        let mut i: usize = 0;
        while i < p
            invariant
                i <= p,
                self.inner_block@.len() == n + i,
                self.padding@ == p0,
                self.max_block_size == old(self).max_block_size,
                forall|t: int| 0 <= t < n ==> self.inner_block@[t] == buffer@[t],
                forall|t: int| n <= t < n + i ==> self.inner_block@[t] == 0i64,
            decreases p - i,
        {
            self.inner_block.push(0);
            i = i + 1;
        }
        let mut i: usize = 0;
        while i < p
            invariant
                i <= p,
                self.inner_block@.len() == n + p,
                self.padding@ == p0,
                self.max_block_size == old(self).max_block_size,
                forall|t: int| i <= t < n ==> self.inner_block@[t] == buffer@[t],
                forall|t: int|
                    n <= t < n + p && i <= t ==> self.inner_block@[t] == 0i64,
                forall|t: int| 0 <= t < i ==> (#[trigger] self.inner_block@[t]) as int == ext[t],
            decreases p - i,
        {
            proof {
                assert(ext[i as int] == (if 0 <= i < n {
                    buffer@[i as int] as int
                } else {
                    0
                }) + p0[i as int] as int);
            }
            let head = self.inner_block[i];
            self.inner_block[i] = head + self.padding[i];
            i = i + 1;
        }
        proof {
            assert forall|t: int| 0 <= t < n + p implies ints(self.inner_block@)[t] == ext[t] by {
                if t >= p {
                    assert(ext[t] == (if t < n {
                        buffer@[t] as int
                    } else {
                        0
                    }));
                }
            }
            assert(ints(self.inner_block@) =~= ext);
        }
    }

    /// Split the processed extended block: the first `n` samples go back to
    /// the caller's buffer, the last `padding` samples become the new
    /// carried padding.
    #[verifier::loop_isolation(false)]
    pub(crate) fn commit(&mut self, buffer: &mut Vec<i64>)
        requires
            old(self).wf(),
            old(self).inner_block@.len() == old(self).eff(old(buffer)@.len() as int)
                + old(self).padding@.len(),
        ensures
            final(self).max_block_size == old(self).max_block_size,
            final(self).inner_block@ == old(self).inner_block@,
            final(self).wf(),
            final(buffer)@.len() == old(buffer)@.len(),
            forall|i: int|
                0 <= i < old(self).eff(old(buffer)@.len() as int) ==> final(buffer)@[i] == old(
                    self,
                ).inner_block@[i],
            forall|i: int|
                old(self).eff(old(buffer)@.len() as int) <= i < old(buffer)@.len()
                    ==> final(buffer)@[i] == old(buffer)@[i],
            final(self).padding@.len() == old(self).padding@.len(),
            forall|i: int|
                0 <= i < old(self).padding@.len() ==> final(self).padding@[i] == old(
                    self,
                ).inner_block@[old(self).eff(old(buffer)@.len() as int) + i],
    {
        let n = if buffer.len() > self.max_block_size {
            self.max_block_size
        } else {
            buffer.len()
        };
        let p = self.padding.len();
        let mut i: usize = 0;
        while i < n
            invariant
                i <= n,
                buffer@.len() == old(buffer)@.len(),
                self.inner_block@ == old(self).inner_block@,
                self.padding@ == old(self).padding@,
                self.max_block_size == old(self).max_block_size,
                forall|t: int| 0 <= t < i ==> buffer@[t] == self.inner_block@[t],
                forall|t: int| i <= t < buffer@.len() ==> buffer@[t] == old(buffer)@[t],
            decreases n - i,
        {
            buffer[i] = self.inner_block[i];
            i = i + 1;
        }
        let mut i: usize = 0;
        while i < p
            invariant
                i <= p,
                buffer@.len() == old(buffer)@.len(),
                self.inner_block@ == old(self).inner_block@,
                self.padding@.len() == old(self).padding@.len(),
                self.max_block_size == old(self).max_block_size,
                forall|t: int| 0 <= t < n ==> buffer@[t] == self.inner_block@[t],
                forall|t: int| n <= t < buffer@.len() ==> buffer@[t] == old(buffer)@[t],
                forall|t: int| 0 <= t < i ==> self.padding@[t] == self.inner_block@[n + t],
                forall|t: int| i <= t < p ==> self.padding@[t] == old(self).padding@[t],
            decreases p - i,
        {
            self.padding[i] = self.inner_block[n + i];
            i = i + 1;
        }
    }

    /// Process one block: extend it with the carried padding, run the inner
    /// stage over the extended view, return the first `n` samples of the
    /// result to the caller and carry the rest as the new padding.
    ///
    /// A block longer than the configured maximum is truncated to it (its
    /// excess samples stay untouched) rather than overrunning the scratch.
    /// Returns whatever the inner stage returns.
    pub fn process<P: BlockProcessor>(&mut self, buffer: &mut Vec<i64>, inner: &mut P) -> (r: P::Output)
        requires
            old(self).wf(),
            fits_i64(old(self).ext_of(old(buffer)@)),
            old(inner).pre(old(self).ext_of(old(buffer)@)),
        ensures
            ({
                let n = old(self).eff(old(buffer)@.len() as int);
                let m = old(inner).model(old(self).ext_of(old(buffer)@));
                &&& final(buffer)@.len() == old(buffer)@.len()
                &&& forall|i: int| 0 <= i < n ==> (#[trigger] final(buffer)@[i]) as int == m[i]
                &&& forall|i: int|
                    n <= i < old(buffer)@.len() ==> final(buffer)@[i] == old(buffer)@[i]
                &&& ints(final(self).padding@) == m.skip(n)
                &&& old(inner).post(old(self).ext_of(old(buffer)@), r)
            }),
            final(self).max_block_size == old(self).max_block_size,
            final(self).padding@.len() == old(self).padding@.len(),
            final(self).wf(),
            forall|s: Seq<int>| #[trigger] final(inner).pre(s) == old(inner).pre(s),
            forall|s: Seq<int>| #[trigger] final(inner).model(s) == old(inner).model(s),
            forall|s: Seq<int>, o: P::Output| #[trigger] final(inner).post(s, o) == old(
                inner,
            ).post(s, o),
    {
        let ghost ext: Seq<int> = self.ext_of(buffer@);
        let ghost n: int = self.eff(buffer@.len() as int);
        let ghost p: int = self.padding@.len() as int;
        self.stage(buffer);
        let r = inner.process_block(&mut self.inner_block);
        proof {
            let m = old(inner).model(ext);
            assert(ints(self.inner_block@) == m);
            assert(m.len() == n + p);
        }
        self.commit(buffer);
        proof {
            let m = old(inner).model(ext);
            assert forall|i: int| 0 <= i < p implies ints(self.padding@)[i] == m.skip(n)[i] by {
                assert(self.padding@[i] as int == ints(self.inner_block@)[n + i]);
            }
            assert(ints(self.padding@) =~= m.skip(n));
            assert forall|i: int| 0 <= i < n implies (buffer@[i]) as int == m[i] by {
                assert(buffer@[i] == self.inner_block@[i]);
                assert(self.inner_block@[i] as int == ints(self.inner_block@)[i]);
            }
        }
        r
    }
}

} // verus!
