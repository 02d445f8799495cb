//! The mathematical model of the engine: cyclic and linear convolution over
//! integer samples, together with the lemmas that relate them.
//!
//! Exec code works on `Vec<i64>`; every contract in the crate is stated over
//! the unbounded-integer image of those buffers, built here by [`ints`].

use vstd::prelude::*;
use vstd::arithmetic::div_mod::{lemma_mod_multiples_vanish, lemma_small_mod};

verus! {

/// The unbounded-integer image of a sample buffer.
pub open spec fn ints(s: Seq<i64>) -> Seq<int> {
    s.map(|i: int, v: i64| v as int)
}

/// Absolute value.
pub open spec fn abs_val(v: int) -> int {
    if v < 0 {
        -v
    } else {
        v
    }
}

/// Every sample of `s` has magnitude at most `b`.
pub open spec fn bounded(s: Seq<int>, b: int) -> bool {
    forall|i: int| 0 <= i < s.len() ==> abs_val(#[trigger] s[i]) <= b
}

/// Every value of `s` fits in an `i64`.
pub open spec fn fits_i64(s: Seq<int>) -> bool {
    forall|i: int| 0 <= i < s.len() ==> i64::MIN <= #[trigger] s[i] <= i64::MAX
}

/// Sum of the first `m` entries of `k`.
pub open spec fn seq_sum(k: Seq<int>, m: nat) -> int
    decreases m,
{
    if m == 0 {
        0
    } else {
        seq_sum(k, (m - 1) as nat) + k[m - 1]
    }
}

/// Sum of the magnitudes of the first `m` entries of `k`.
pub open spec fn abs_sum(k: Seq<int>, m: nat) -> int
    decreases m,
{
    if m == 0 {
        0
    } else {
        abs_sum(k, (m - 1) as nat) + abs_val(k[m - 1])
    }
}

/// The index `i - j` wrapped into `[0, n)`, written so that the argument of
/// `%` is never negative.
pub open spec fn cyc_index(n: int, i: int, j: int) -> int {
    (i - j + n) % n
}

/// Partial cyclic convolution sum: the first `m` kernel taps of output `i`.
pub open spec fn cyc_dot(x: Seq<int>, k: Seq<int>, i: int, m: nat) -> int
    decreases m,
{
    if m == 0 {
        0
    } else {
        cyc_dot(x, k, i, (m - 1) as nat) + k[m - 1] * x[cyc_index(x.len() as int, i, m - 1)]
    }
}

/// Output `i` of the cyclic convolution of `x` (length N) with kernel `k`
/// (also length N; a shorter filter is zero-padded by the caller).
pub open spec fn cyc_at(x: Seq<int>, k: Seq<int>, i: int) -> int {
    cyc_dot(x, k, i, k.len())
}

/// The full cyclic convolution of `x` with `k`, both of length N.
pub open spec fn cyc_conv(x: Seq<int>, k: Seq<int>) -> Seq<int> {
    Seq::new(x.len(), |i: int| cyc_at(x, k, i))
}

/// `x[i]`, with zero outside the bounds of `x`.
pub open spec fn at0(x: Seq<int>, i: int) -> int {
    if 0 <= i < x.len() {
        x[i]
    } else {
        0
    }
}

/// Partial linear convolution sum: the first `m` kernel taps of output `i`.
pub open spec fn lin_dot(x: Seq<int>, k: Seq<int>, i: int, m: nat) -> int
    decreases m,
{
    if m == 0 {
        0
    } else {
        lin_dot(x, k, i, (m - 1) as nat) + k[m - 1] * at0(x, i - (m - 1))
    }
}

/// Output `i` of the linear (non-wrapping) convolution of `x` with `k`.
pub open spec fn lin_at(x: Seq<int>, k: Seq<int>, i: int) -> int {
    lin_dot(x, k, i, k.len())
}

/// `x` zero-extended to length `n`.
pub open spec fn pad_to(x: Seq<int>, n: int) -> Seq<int> {
    Seq::new(n as nat, |i: int| at0(x, i))
}

/// Every tap of `k` at index `s` or beyond is zero: the filter's support
/// lies within the first `s` taps.
pub open spec fn support(k: Seq<int>, s: int) -> bool {
    forall|j: int| s <= j < k.len() ==> #[trigger] k[j] == 0
}

/// The constant sequence of length `n` with value `c`.
pub open spec fn const_seq(n: int, c: int) -> Seq<int> {
    Seq::new(n as nat, |i: int| c)
}

/// The smaller of a buffer length `l` and a transform length `n`: how many
/// samples a fixed-length pass reads and writes.
pub open spec fn eff_len(l: int, n: int) -> int {
    if l <= n {
        l
    } else {
        n
    }
}

/// What one fixed-length convolution pass writes back into a buffer of
/// arbitrary length, against a padded kernel `kp` of length N:
/// a buffer no longer than N is zero-extended to N, convolved cyclically,
/// and receives the matching prefix of the result; of a longer buffer only
/// the first N samples take part, and the rest stay untouched.
pub open spec fn engine_model(x: Seq<int>, kp: Seq<int>) -> Seq<int> {
    let n = kp.len() as int;
    if x.len() <= kp.len() {
        cyc_conv(pad_to(x, n), kp).take(x.len() as int)
    } else {
        cyc_conv(x.take(n), kp) + x.skip(n)
    }
}

/// A convolution pass hands back a buffer of the length it was given.
pub proof fn lemma_engine_model_len(x: Seq<int>, kp: Seq<int>)
    ensures
        engine_model(x, kp).len() == x.len(),
{
}

/// A magnitude bound within the `i64` range keeps every sample representable.
pub proof fn lemma_bounded_fits(s: Seq<int>, b: int)
    requires
        bounded(s, b),
        0 <= b <= i64::MAX,
    ensures
        fits_i64(s),
{
    assert forall|i: int| 0 <= i < s.len() implies i64::MIN <= #[trigger] s[i] <= i64::MAX by {
        assert(abs_val(s[i]) <= b);
    }
}

/// Zero-padding a kernel adds nothing to the sum of its magnitudes.
pub proof fn lemma_abs_sum_zero_tail(k: Seq<int>, s: nat, m: nat)
    requires
        forall|j: int| s <= j < k.len() ==> #[trigger] k[j] == 0,
        s <= m <= k.len(),
    ensures
        abs_sum(k, m) == abs_sum(k, s),
    decreases m,
{
    if m > s {
        lemma_abs_sum_zero_tail(k, s, (m - 1) as nat);
    }
}

/// Two kernels that agree on their first `m` taps have the same magnitude
/// sum over them.
pub proof fn lemma_abs_sum_prefix_eq(k1: Seq<int>, k2: Seq<int>, m: nat)
    requires
        forall|j: int| 0 <= j < m ==> k1[j] == #[trigger] k2[j],
    ensures
        abs_sum(k1, m) == abs_sum(k2, m),
    decreases m,
{
    if m > 0 {
        lemma_abs_sum_prefix_eq(k1, k2, (m - 1) as nat);
    }
}

pub proof fn lemma_cyc_index(n: int, i: int, j: int)
    requires
        0 < n,
        0 <= i < n,
        0 <= j < n,
    ensures
        cyc_index(n, i, j) == if j <= i {
            i - j
        } else {
            i - j + n
        },
{
    if j <= i {
        lemma_mod_multiples_vanish(1, i - j, n);
        lemma_small_mod((i - j) as nat, n as nat);
    } else {
        lemma_small_mod((i - j + n) as nat, n as nat);
    }
}

/// `abs_sum` grows with the number of taps and is never negative.
pub proof fn lemma_abs_sum_mono(k: Seq<int>, m1: nat, m2: nat)
    requires
        m1 <= m2,
    ensures
        0 <= abs_sum(k, m1) <= abs_sum(k, m2),
    decreases m2,
{
    if m2 > 0 {
        if m1 == m2 {
            lemma_abs_sum_mono(k, (m2 - 1) as nat, (m2 - 1) as nat);
        } else {
            lemma_abs_sum_mono(k, m1, (m2 - 1) as nat);
        }
    }
}

proof fn lemma_mul_abs_bound(k: int, x: int, b: int)
    requires
        0 <= b,
        -b <= x <= b,
    ensures
        -(abs_val(k) * b) <= k * x <= abs_val(k) * b,
{
    assert(-(abs_val(k) * b) <= k * x <= abs_val(k) * b) by (nonlinear_arith)
        requires
            0 <= b,
            -b <= x <= b,
    ;
}

/// A partial cyclic convolution sum of a `b`-bounded signal is bounded by
/// `abs_sum(k, m) * b`.
pub proof fn lemma_cyc_dot_bound(x: Seq<int>, k: Seq<int>, b: int, i: int, m: nat)
    requires
        x.len() > 0,
        bounded(x, b),
        0 <= b,
    ensures
        -(abs_sum(k, m) * b) <= cyc_dot(x, k, i, m) <= abs_sum(k, m) * b,
    decreases m,
{
    if m > 0 {
        let mm = (m - 1) as nat;
        lemma_cyc_dot_bound(x, k, b, i, mm);
        let n = x.len() as int;
        let idx = cyc_index(n, i, m - 1);
        assert(0 <= idx < n) by {
            assert(0 <= (i - (m - 1) + n) % n < n) by (nonlinear_arith)
                requires
                    n > 0,
            ;
        }
        lemma_mul_abs_bound(k[m - 1], x[idx], b);
        assert(abs_sum(k, m) * b == abs_sum(k, mm) * b + abs_val(k[m - 1]) * b) by (nonlinear_arith)
            requires
                abs_sum(k, m) == abs_sum(k, mm) + abs_val(k[m - 1]),
        ;
    }
}

/// Cyclic convolution of a constant signal: every partial sum collapses to
/// the constant times the sum of the taps used.
pub proof fn lemma_cyc_dot_const(n: int, c: int, k: Seq<int>, i: int, m: nat)
    requires
        0 < n,
        0 <= i < n,
    ensures
        cyc_dot(const_seq(n, c), k, i, m) == c * seq_sum(k, m),
    decreases m,
{
    if m > 0 {
        let mm = (m - 1) as nat;
        lemma_cyc_dot_const(n, c, k, i, mm);
        let x = const_seq(n, c);
        let idx = cyc_index(n, i, m - 1);
        assert(0 <= idx < n) by (nonlinear_arith)
            requires
                n > 0,
                idx == (i - (m - 1) + n) % n,
        ;
        assert(x[idx] == c);
        assert(c * seq_sum(k, m) == c * seq_sum(k, mm) + k[m - 1] * c) by (nonlinear_arith)
            requires
                seq_sum(k, m) == seq_sum(k, mm) + k[m - 1],
        ;
    }
}

/// When the signal is zero on `[z, N)` and the kernel's support ends by
/// `s`, with `z + s <= N + 1`, no wrapped term of the cyclic sum survives:
/// cyclic and linear convolution agree tap for tap.
pub proof fn lemma_cyc_dot_is_lin_dot(x: Seq<int>, k: Seq<int>, s: int, z: int, i: int, m: nat)
    requires
        x.len() == k.len(),
        x.len() > 0,
        support(k, s),
        0 <= z,
        z + s <= x.len() + 1,
        forall|t: int| z <= t < x.len() ==> #[trigger] x[t] == 0,
        0 <= i < x.len(),
        m <= k.len(),
    ensures
        cyc_dot(x, k, i, m) == lin_dot(x, k, i, m),
    decreases m,
{
    if m > 0 {
        let mm = (m - 1) as nat;
        lemma_cyc_dot_is_lin_dot(x, k, s, z, i, mm);
        let n = x.len() as int;
        let j = m - 1;
        lemma_cyc_index(n, i, j);
        if j <= i {
            assert(x[cyc_index(n, i, j)] == at0(x, i - j));
        } else {
            // The cyclic tap reads x[i - j + n]; either the kernel tap is
            // beyond its support, or that index lies in the zero region.
            if j < s {
                assert(i - j + n >= z);
                assert(x[cyc_index(n, i, j)] == 0);
            } else {
                assert(k[j] == 0);
            }
            assert(at0(x, i - j) == 0);
            assert(k[j] * x[cyc_index(n, i, j)] == k[j] * at0(x, i - j)) by (nonlinear_arith)
                requires
                    k[j] == 0 || x[cyc_index(n, i, j)] == 0 && at0(x, i - j) == 0,
            ;
        }
    }
}

/// The first `len` outputs of the linear convolution of `x` with `k`, as a
/// sequence.
pub open spec fn lin_conv_full(x: Seq<int>, k: Seq<int>, len: int) -> Seq<int> {
    Seq::new(len as nat, |i: int| lin_at(x, k, i))
}

/// A convolution pass acts *linearly* on a buffer whose samples are zero
/// from `z` on, when the kernel's support `s` leaves the wrap-around region
/// `[z + s - 1, N)` of the ring untouched: every sample written back is a
/// linear, non-wrapping convolution output.
pub proof fn lemma_engine_linear(x: Seq<int>, kp: Seq<int>, s: int, z: int)
    requires
        support(kp, s),
        1 <= s,
        0 <= z,
        x.len() <= kp.len(),
        z + s <= kp.len() + 1,
        forall|t: int| z <= t < x.len() ==> #[trigger] x[t] == 0,
    ensures
        forall|i: int|
            0 <= i < x.len() ==> #[trigger] engine_model(x, kp)[i] == lin_at(x, kp, i),
{
    let nn = kp.len() as int;
    let padded = pad_to(x, nn);
    assert forall|t: int| z <= t < nn implies #[trigger] padded[t] == 0 by {
        if t < x.len() {
            assert(x[t] == 0);
        }
    }
    assert forall|t: int| #[trigger] at0(padded, t) == at0(x, t) by {
        if 0 <= t < nn {
            assert(padded[t] == at0(x, t));
        }
    }
    assert forall|i: int|
        0 <= i < x.len() implies #[trigger] engine_model(x, kp)[i] == lin_at(x, kp, i) by {
        assert(engine_model(x, kp)[i] == cyc_conv(padded, kp).take(x.len() as int)[i]);
        lemma_cyc_dot_is_lin_dot(padded, kp, s, z, i, kp.len());
        lemma_lin_dot_at0_eq(padded, x, kp, i, kp.len());
    }
}

/// Gain at DC: one convolution pass over a constant-valued block of the
/// full transform length turns every sample into the constant times the sum
/// of the kernel's taps.  With a unit-sum kernel the constant is reproduced
/// exactly.
pub proof fn lemma_dc_gain(c: int, kp: Seq<int>)
    requires
        kp.len() > 0,
    ensures
        forall|i: int|
            0 <= i < kp.len() ==> #[trigger] engine_model(const_seq(kp.len() as int, c), kp)[i]
                == c * seq_sum(kp, kp.len()),
        seq_sum(kp, kp.len()) == 1 ==> engine_model(const_seq(kp.len() as int, c), kp)
            == const_seq(kp.len() as int, c),
{
    let n = kp.len() as int;
    let x = const_seq(n, c);
    assert(pad_to(x, n) =~= x);
    assert forall|i: int|
        0 <= i < kp.len() implies #[trigger] engine_model(x, kp)[i] == c * seq_sum(
        kp,
        kp.len(),
    ) by {
        lemma_cyc_dot_const(n, c, kp, i, kp.len());
        assert(engine_model(x, kp)[i] == cyc_at(pad_to(x, n), kp, i));
        assert(cyc_at(x, kp, i) == c * seq_sum(kp, kp.len()));
    }
    if seq_sum(kp, kp.len()) == 1 {
        assert forall|i: int| 0 <= i < n implies engine_model(x, kp)[i] == x[i] by {
            assert(engine_model(x, kp)[i] == c * 1);
            assert(c * 1 == c) by (nonlinear_arith);
        }
        lemma_engine_model_len(x, kp);
        assert(engine_model(x, kp) =~= x);
    }
}

/// Two signals that agree everywhere under `at0` have the same linear
/// convolution sums.
pub proof fn lemma_lin_dot_at0_eq(x: Seq<int>, y: Seq<int>, k: Seq<int>, i: int, m: nat)
    requires
        forall|t: int| at0(x, t) == at0(y, t),
    ensures
        lin_dot(x, k, i, m) == lin_dot(y, k, i, m),
    decreases m,
{
    if m > 0 {
        lemma_lin_dot_at0_eq(x, y, k, i, (m - 1) as nat);
    }
}

/// Left of the signal every linear convolution output is zero.
pub proof fn lemma_lin_dot_zero_left(x: Seq<int>, k: Seq<int>, i: int, m: nat)
    requires
        i < 0,
    ensures
        lin_dot(x, k, i, m) == 0,
    decreases m,
{
    if m > 0 {
        lemma_lin_dot_zero_left(x, k, i, (m - 1) as nat);
        assert(at0(x, i - (m - 1)) == 0);
    }
}

/// Beyond the end of the signal plus the kernel support, every linear
/// convolution output is zero.
pub proof fn lemma_lin_dot_beyond(x: Seq<int>, k: Seq<int>, s: int, i: int, m: nat)
    requires
        support(k, s),
        i >= x.len() + s - 1,
        m <= k.len(),
    ensures
        lin_dot(x, k, i, m) == 0,
    decreases m,
{
    if m > 0 {
        lemma_lin_dot_beyond(x, k, s, i, (m - 1) as nat);
        let j = m - 1;
        if j < s {
            assert(at0(x, i - j) == 0);
        } else {
            assert(k[j] == 0);
        }
    }
}

/// Linear convolution distributes over concatenation: each output of the
/// concatenated signal splits into the matching outputs of the two parts.
pub proof fn lemma_lin_dot_concat(a: Seq<int>, b: Seq<int>, k: Seq<int>, i: int, m: nat)
    ensures
        lin_dot(a + b, k, i, m) == lin_dot(a, k, i, m) + lin_dot(b, k, i - a.len(), m),
    decreases m,
{
    if m > 0 {
        lemma_lin_dot_concat(a, b, k, i, (m - 1) as nat);
        let j = m - 1;
        assert(at0(a + b, i - j) == at0(a, i - j) + at0(b, i - a.len() - j));
        assert(k[j] * (at0(a, i - j) + at0(b, i - a.len() - j)) == k[j] * at0(a, i - j) + k[j]
            * at0(b, i - a.len() - j)) by (nonlinear_arith);
    }
}

} // verus!
