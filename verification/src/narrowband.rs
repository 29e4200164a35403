//! Single-bin narrowband amplitude extraction.
//!
//! The filter correlates a fixed-size chunk of I/Q samples against a
//! caller-supplied table of complex coefficients — one unit-magnitude
//! phasor sample per index, rotating at `target_freq / sample_rate` cycles
//! per input sample, scaled by the window weight for that index — and
//! reports the magnitude of the accumulated complex sum once per chunk.
//! Tracking one frequency this way costs O(N) per chunk and needs no full
//! spectral transform.
//!
//! Coefficients are fixed point with unit `1 / SCALE`, like the samples.
//! A zero target frequency with a rectangular window is the table whose
//! every entry is `(SCALE, 0)`, built by [`dc_coeffs`]; the filter then
//! degenerates to a windowed DC extractor.

use crate::config::ConfigError;
use crate::decode::{IqSample, SCALE};
use vstd::prelude::*;

verus! {

/// The largest accepted window size; keeps the complex accumulator well
/// inside `i64` for any in-range samples and coefficients.
pub const MAX_WINDOW: usize = 0x4000_0000;

/// The largest magnitude of one sample-times-coefficient contribution.
pub const CONTRIB_MAX: i64 = 2 * 32768 * 32768;

/// Real part of a sample multiplied by a complex coefficient.
pub open spec fn contrib_re(s: (int, int), c: (int, int)) -> int {
    s.0 * c.0 - s.1 * c.1
}

/// Imaginary part of a sample multiplied by a complex coefficient.
pub open spec fn contrib_im(s: (int, int), c: (int, int)) -> int {
    s.0 * c.1 + s.1 * c.0
}

/// Real part of the correlation of the first `k` samples with the first
/// `k` coefficients.
pub open spec fn corr_re(samples: Seq<(int, int)>, coeffs: Seq<(int, int)>, k: int) -> int
    decreases k,
{
    if k <= 0 {
        0
    } else {
        corr_re(samples, coeffs, k - 1) + contrib_re(samples[k - 1], coeffs[k - 1])
    }
}

/// Imaginary part of the correlation of the first `k` samples with the
/// first `k` coefficients.
pub open spec fn corr_im(samples: Seq<(int, int)>, coeffs: Seq<(int, int)>, k: int) -> int
    decreases k,
{
    if k <= 0 {
        0
    } else {
        corr_im(samples, coeffs, k - 1) + contrib_im(samples[k - 1], coeffs[k - 1])
    }
}

/// The integer square root: the unique `r >= 0` with `r^2 <= x < (r+1)^2`.
pub open spec fn isqrt(x: int) -> int {
    choose|r: int| 0 <= r && #[trigger] (r * r) <= x && x < (r + 1) * (r + 1)
}

/// The amplitude the filter reports for an accumulated complex sum over a
/// chunk of `n` samples: the integer square root of `re^2 + im^2`, scaled
/// back down by `n * SCALE` so that `n` unit inputs under unit
/// coefficients report exactly `SCALE` (that is, `1.0`).
pub open spec fn magnitude(re: int, im: int, n: int) -> int
    recommends
        n >= 1,
{
    isqrt(re * re + im * im) / (n * (SCALE as int))
}

/// Any value meeting the defining property of the integer square root is
/// `isqrt(x)`.
pub proof fn lemma_isqrt_is(r: int, x: int)
    requires
        0 <= r,
        r * r <= x,
        x < (r + 1) * (r + 1),
    ensures
        isqrt(x) == r,
{
    assert(0 <= r && r * r <= x && x < (r + 1) * (r + 1));
    let q = isqrt(x);
    assert(0 <= q && q * q <= x && x < (q + 1) * (q + 1)) by {
        assert(exists|z: int| 0 <= z && #[trigger] (z * z) <= x && x < (z + 1) * (z + 1));
    }
    assert(q == r) by (nonlinear_arith)
        requires
            0 <= r,
            r * r <= x,
            x < (r + 1) * (r + 1),
            0 <= q,
            q * q <= x,
            x < (q + 1) * (q + 1),
    ;
}

/// The product of two non-negative values bounded by `bx` and `by` stays
/// below `bx * by`.
proof fn lemma_mul_bounds(x: int, y: int, bx: int, by: int)
    requires
        0 <= x < bx,
        0 <= y < by,
    ensures
        0 <= x * y < bx * by,
{
    assert(0 <= x * y < bx * by) by (nonlinear_arith)
        requires
            0 <= x < bx,
            0 <= y < by,
    ;
}

/// One sample-times-coefficient contribution is bounded by `CONTRIB_MAX`
/// in each component when sample and coefficient are in range.
pub proof fn lemma_contrib_bound(s: (int, int), c: (int, int))
    requires
        -(SCALE as int) <= s.0 <= SCALE as int,
        -(SCALE as int) <= s.1 <= SCALE as int,
        -(SCALE as int) <= c.0 <= SCALE as int,
        -(SCALE as int) <= c.1 <= SCALE as int,
    ensures
        -CONTRIB_MAX <= contrib_re(s, c) <= CONTRIB_MAX,
        -CONTRIB_MAX <= contrib_im(s, c) <= CONTRIB_MAX,
{
    assert(-CONTRIB_MAX <= s.0 * c.0 - s.1 * c.1 <= CONTRIB_MAX && -CONTRIB_MAX <= s.0 * c.1 + s.1
        * c.0 <= CONTRIB_MAX) by (nonlinear_arith)
        requires
            -(SCALE as int) <= s.0 <= SCALE as int,
            -(SCALE as int) <= s.1 <= SCALE as int,
            -(SCALE as int) <= c.0 <= SCALE as int,
            -(SCALE as int) <= c.1 <= SCALE as int,
    ;
}

/// The integer square root of `x`, for `x` below `2^124`.
fn isqrt_u128(x: u128) -> (r: u128)
    requires
        (x as int) < 0x10000000000000000000000000000000,
    ensures
        (r as int) * (r as int) <= x as int,
        (x as int) < (r as int + 1) * (r as int + 1),
        r as int <= 0x4000000000000000,
        r as int == isqrt(x as int),
{
    let mut lo: u128 = 0;
    let mut hi: u128 = 0x4000000000000000;
    proof {
        lemma_mul_bounds(hi as int, hi as int, 0x4000000000000001, 0x4000000000000001);
        assert((hi as int) * (hi as int) == 0x10000000000000000000000000000000) by (nonlinear_arith)
            requires
                hi as int == 0x4000000000000000,
        ;
    }
    while lo + 1 < hi
        invariant
            lo < hi,
            hi as int <= 0x4000000000000000,
            (lo as int) * (lo as int) <= x as int,
            (x as int) < (hi as int) * (hi as int),
        decreases hi - lo,
    {
        let mid: u128 = lo + (hi - lo) / 2;
        proof {
            lemma_mul_bounds(mid as int, mid as int, 0x4000000000000001, 0x4000000000000001);
        }
        if mid * mid <= x {
            lo = mid;
        } else {
            hi = mid;
        }
    }
    proof {
        lemma_isqrt_is(lo as int, x as int);
    }
    lo
}

/// One complex correlation coefficient in fixed point (unit `1 / SCALE`).
#[derive(Clone, Copy, PartialEq, Eq, Structural, Debug)]
pub struct IqCoeff {
    pub re: i32,
    pub im: i32,
}

impl View for IqCoeff {
    type V = (int, int);

    open spec fn view(&self) -> (int, int) {
        (self.re as int, self.im as int)
    }
}

impl IqCoeff {
    /// Both components lie within one fixed-point unit of magnitude.
    pub open spec fn in_range(self) -> bool {
        -SCALE <= self.re <= SCALE && -SCALE <= self.im <= SCALE
    }
}

/// The coefficient table of a zero-frequency, rectangular-window filter:
/// every entry is the unit coefficient `(SCALE, 0)`.
pub open spec fn dc_coeff_seq(n: int) -> Seq<(int, int)> {
    Seq::new(n as nat, |k: int| ((SCALE as int), 0))
}

/// Builds the zero-frequency rectangular coefficient table of size `n`.
pub fn dc_coeffs(n: usize) -> (r: Vec<IqCoeff>)
    ensures
        r@.len() == n,
        forall|k: int| 0 <= k < n ==> (#[trigger] r@[k])@ == dc_coeff_seq(n as int)[k],
        forall|k: int| 0 <= k < n ==> (#[trigger] r@[k]).in_range(),
{
    let mut out: Vec<IqCoeff> = Vec::new();
    let mut k: usize = 0;
    while k < n
        invariant
            k <= n,
            out@.len() == k,
            forall|j: int| 0 <= j < k ==> (#[trigger] out@[j])@ == ((SCALE as int), 0int),
            forall|j: int| 0 <= j < k ==> (#[trigger] out@[j]).in_range(),
        decreases n - k,
    {
        out.push(IqCoeff { re: SCALE, im: 0 });
        k = k + 1;
    }
    out
}

/// The chunk-gated single-bin correlator. Samples are pushed one at a
/// time; every `window_size` pushes complete a chunk, whose amplitude is
/// returned, and the accumulator resets for the next chunk. Emitting only
/// on complete chunks makes the exactly-N-inputs discipline structural:
/// no caller can read an amplitude of a partial chunk.
pub struct NarrowbandPowerFilter {
    coeffs: Vec<IqCoeff>,
    count: usize,
    re_acc: i64,
    im_acc: i64,
}

impl NarrowbandPowerFilter {
    /// The chunk size N.
    pub closed spec fn window_size(&self) -> int {
        self.coeffs@.len() as int
    }

    /// The coefficient table.
    pub closed spec fn coeffs_view(&self) -> Seq<(int, int)> {
        self.coeffs@.map_values(|c: IqCoeff| (c.re as int, c.im as int))
    }

    /// How many samples of the current chunk have been pushed.
    pub closed spec fn count(&self) -> int {
        self.count as int
    }

    /// The real accumulator.
    pub closed spec fn re(&self) -> int {
        self.re_acc as int
    }

    /// The imaginary accumulator.
    pub closed spec fn im(&self) -> int {
        self.im_acc as int
    }

    /// Internal invariant: a non-empty, bounded, in-range coefficient
    /// table, a cursor strictly inside the chunk, and accumulators bounded
    /// by the number of accumulated contributions.
    pub closed spec fn wf(&self) -> bool {
        &&& 1 <= self.coeffs@.len() <= MAX_WINDOW
        &&& self.count < self.coeffs@.len()
        &&& forall|k: int| 0 <= k < self.coeffs@.len() ==> (#[trigger] self.coeffs@[k]).in_range()
        &&& -(self.count as int) * CONTRIB_MAX <= self.re_acc <= (self.count as int) * CONTRIB_MAX
        &&& -(self.count as int) * CONTRIB_MAX <= self.im_acc <= (self.count as int) * CONTRIB_MAX
    }

    /// What well-formedness guarantees about the visible state: callers
    /// cannot unfold `wf` itself.
    pub proof fn lemma_wf_facts(&self)
        requires
            self.wf(),
        ensures
            1 <= self.window_size() <= MAX_WINDOW as int,
            0 <= self.count() < self.window_size(),
            self.coeffs_view().len() == self.window_size(),
    {
    }

    /// All coefficients of the table are in range.
    pub open spec fn coeffs_in_range(coeffs: Seq<IqCoeff>) -> bool {
        forall|k: int| 0 <= k < coeffs.len() ==> (#[trigger] coeffs[k]).in_range()
    }

    /// Creates a filter over the given coefficient table, rejecting an
    /// empty table, one beyond `MAX_WINDOW`, and out-of-range
    /// coefficients, before any sample flows.
    pub fn new(coeffs: Vec<IqCoeff>) -> (r: Result<NarrowbandPowerFilter, ConfigError>)
        ensures
            ({
                let ok = 1 <= coeffs@.len() <= MAX_WINDOW && Self::coeffs_in_range(coeffs@);
                match r {
                    Ok(f) => {
                        &&& ok
                        &&& f.wf()
                        &&& f.window_size() == coeffs@.len()
                        &&& f.coeffs_view() == coeffs@.map_values(
                            |c: IqCoeff| (c.re as int, c.im as int),
                        )
                        &&& f.count() == 0
                        &&& f.re() == 0
                        &&& f.im() == 0
                    },
                    Err(e) => {
                        &&& !ok
                        &&& e == (if coeffs@.len() == 0 {
                            ConfigError::ZeroWindow
                        } else if coeffs@.len() > MAX_WINDOW {
                            ConfigError::WindowTooLarge
                        } else {
                            ConfigError::CoeffOutOfRange
                        })
                    },
                }
            }),
    {
        if coeffs.len() == 0 {
            return Err(ConfigError::ZeroWindow);
        }
        if coeffs.len() > MAX_WINDOW {
            return Err(ConfigError::WindowTooLarge);
        }
        let mut k: usize = 0;
        while k < coeffs.len()
            invariant
                k <= coeffs@.len(),
                1 <= coeffs@.len() <= MAX_WINDOW,
                forall|j: int| 0 <= j < k ==> (#[trigger] coeffs@[j]).in_range(),
            decreases coeffs@.len() - k,
        {
            let c = coeffs[k];
            if c.re < -SCALE || c.re > SCALE || c.im < -SCALE || c.im > SCALE {
                assert(!(coeffs@[k as int]).in_range());
                assert(!Self::coeffs_in_range(coeffs@));
                return Err(ConfigError::CoeffOutOfRange);
            }
            k = k + 1;
        }
        Ok(NarrowbandPowerFilter { coeffs, count: 0, re_acc: 0, im_acc: 0 })
    }

    /// Accumulates one sample. Returns `None` while the chunk is
    /// incomplete; on the N-th push it returns the chunk's amplitude and
    /// resets the accumulator for the next chunk.
    pub fn push(&mut self, s: IqSample) -> (r: Option<i64>)
        requires
            old(self).wf(),
            s.in_range(),
        ensures
            final(self).wf(),
            final(self).coeffs_view() == old(self).coeffs_view(),
            final(self).window_size() == old(self).window_size(),
            ({
                let n = old(self).window_size();
                let c = old(self).coeffs_view()[old(self).count()];
                let re2 = old(self).re() + contrib_re(s@, c);
                let im2 = old(self).im() + contrib_im(s@, c);
                if old(self).count() + 1 == n {
                    &&& r matches Some(m)
                    &&& m == magnitude(re2, im2, n)
                    &&& 0 <= m <= 3 * (SCALE as int)
                    &&& final(self).count() == 0
                    &&& final(self).re() == 0
                    &&& final(self).im() == 0
                } else {
                    &&& r is None
                    &&& final(self).count() == old(self).count() + 1
                    &&& final(self).re() == re2
                    &&& final(self).im() == im2
                }
            }),
    {
        let c = self.coeffs[self.count];
        proof {
            lemma_contrib_bound(s@, c@);
            lemma_mul_bounds(self.count as int + 1, CONTRIB_MAX as int, 0x40000001, 0x80000001);
            lemma_prod_in_i64(s.i as int, c.re as int);
            lemma_prod_in_i64(s.i as int, c.im as int);
            lemma_prod_in_i64(s.q as int, c.re as int);
            lemma_prod_in_i64(s.q as int, c.im as int);
        }
        let pr: i64 = (s.i as i64) * (c.re as i64) - (s.q as i64) * (c.im as i64);
        let pi: i64 = (s.i as i64) * (c.im as i64) + (s.q as i64) * (c.re as i64);
        assert(pr == contrib_re(s@, c@) && pi == contrib_im(s@, c@));
        let re2: i64 = self.re_acc + pr;
        let im2: i64 = self.im_acc + pi;
        assert(-(self.count as int + 1) * CONTRIB_MAX <= re2 <= (self.count as int + 1)
            * CONTRIB_MAX) by {
            lemma_acc_step(self.re_acc as int, pr as int, self.count as int);
        }
        assert(-(self.count as int + 1) * CONTRIB_MAX <= im2 <= (self.count as int + 1)
            * CONTRIB_MAX) by {
            lemma_acc_step(self.im_acc as int, pi as int, self.count as int);
        }
        if self.count + 1 == self.coeffs.len() {
            let m = chunk_magnitude(re2, im2, self.coeffs.len());
            self.count = 0;
            self.re_acc = 0;
            self.im_acc = 0;
            Some(m)
        } else {
            self.count = self.count + 1;
            self.re_acc = re2;
            self.im_acc = im2;
            None
        }
    }
}

/// The product of two values within one fixed-point unit fits easily in
/// a 64-bit accumulator.
proof fn lemma_prod_in_i64(a: int, b: int)
    requires
        -(SCALE as int) <= a <= SCALE as int,
        -(SCALE as int) <= b <= SCALE as int,
    ensures
        -0x40000000 <= a * b <= 0x40000000,
{
    assert(-0x40000000 <= a * b <= 0x40000000) by (nonlinear_arith)
        requires
            -32768 <= a <= 32768,
            -32768 <= b <= 32768,
    ;
}

/// Adding one bounded contribution extends the accumulator bound by one
/// step.
proof fn lemma_acc_step(acc: int, p: int, count: int)
    requires
        count >= 0,
        -count * CONTRIB_MAX <= acc <= count * CONTRIB_MAX,
        -CONTRIB_MAX <= p <= CONTRIB_MAX,
    ensures
        -(count + 1) * CONTRIB_MAX <= acc + p <= (count + 1) * CONTRIB_MAX,
{
    assert((count + 1) * CONTRIB_MAX == count * CONTRIB_MAX + CONTRIB_MAX) by (nonlinear_arith);
    assert(-(count + 1) * CONTRIB_MAX == -count * CONTRIB_MAX - CONTRIB_MAX) by (nonlinear_arith);
}

/// Computes the reported amplitude of a completed chunk of `n` samples
/// from the accumulated complex sum.
fn chunk_magnitude(re: i64, im: i64, n: usize) -> (m: i64)
    requires
        1 <= n <= MAX_WINDOW,
        -(n as int) * CONTRIB_MAX <= re <= (n as int) * CONTRIB_MAX,
        -(n as int) * CONTRIB_MAX <= im <= (n as int) * CONTRIB_MAX,
    ensures
        m == magnitude(re as int, im as int, n as int),
        0 <= m <= 3 * (SCALE as int),
{
    proof {
        lemma_square_sum_bound(re as int, im as int, n as int);
    }
    let xr: i128 = (re as i128) * (re as i128);
    let xi: i128 = (im as i128) * (im as i128);
    let x: u128 = (xr + xi) as u128;
    let root: u128 = isqrt_u128(x);
    let denom: u128 = (n as u128) * (SCALE as u128);
    let m128: u128 = root / denom;
    proof {
        vstd::arithmetic::div_mod::lemma_div_nonincreasing(root as int, denom as int);
        lemma_magnitude_bound(re as int, im as int, n as int, root as int);
    }
    m128 as i64
}

/// The squared accumulator sum of a chunk of `n` samples stays below
/// `2^124`, and each square below `2^123`.
proof fn lemma_square_sum_bound(re: int, im: int, n: int)
    requires
        1 <= n <= MAX_WINDOW,
        -n * CONTRIB_MAX <= re <= n * CONTRIB_MAX,
        -n * CONTRIB_MAX <= im <= n * CONTRIB_MAX,
    ensures
        0 <= re * re <= 0x4000000000000000000000000000000,
        0 <= im * im <= 0x4000000000000000000000000000000,
        re * re + im * im < 0x10000000000000000000000000000000,
{
    assert(n * CONTRIB_MAX <= 0x2000000000000000) by (nonlinear_arith)
        requires
            1 <= n <= 0x40000000,
            CONTRIB_MAX == 0x80000000,
    ;
    assert(0 <= re * re <= 0x4000000000000000000000000000000) by (nonlinear_arith)
        requires
            -0x2000000000000000 <= re <= 0x2000000000000000,
    ;
    assert(0 <= im * im <= 0x4000000000000000000000000000000) by (nonlinear_arith)
        requires
            -0x2000000000000000 <= im <= 0x2000000000000000,
    ;
}

/// The reported amplitude never exceeds `3 * SCALE`: the accumulated sum
/// of `n` in-range contributions has magnitude under `3 * n * SCALE^2`.
proof fn lemma_magnitude_bound(re: int, im: int, n: int, root: int)
    requires
        1 <= n,
        -n * CONTRIB_MAX <= re <= n * CONTRIB_MAX,
        -n * CONTRIB_MAX <= im <= n * CONTRIB_MAX,
        0 <= root,
        root * root <= re * re + im * im,
    ensures
        root / (n * (SCALE as int)) <= 3 * (SCALE as int),
{
    let s = SCALE as int;
    let b = 3 * n * s * s;
    assert(root < b) by (nonlinear_arith)
        requires
            1 <= n,
            -n * (2 * s * s) <= re <= n * (2 * s * s),
            -n * (2 * s * s) <= im <= n * (2 * s * s),
            0 <= root,
            root * root <= re * re + im * im,
            b == 3 * n * s * s,
            s == 32768,
            CONTRIB_MAX == 2 * s * s,
    ;
    assert(b == (3 * s) * (n * s)) by (nonlinear_arith)
        requires
            b == 3 * n * s * s,
    ;
    assert(n * s > 0) by (nonlinear_arith)
        requires
            n >= 1,
            s > 0,
    ;
    vstd::arithmetic::div_mod::lemma_div_is_ordered(root, b, n * s);
    vstd::arithmetic::div_mod::lemma_div_by_multiple(3 * s, n * s);
}

/// Zero-frequency response to a constant unit tone: a rectangular-window
/// filter of any size `n >= 1`, fed `n` identical unit samples `(1.0,
/// 0.0)`, accumulates the correlation `(n * SCALE^2, 0)` and reports the
/// amplitude `SCALE`, i.e. exactly `1.0`.
pub proof fn lemma_dc_unit_response(samples: Seq<(int, int)>, n: int)
    requires
        1 <= n,
        n <= samples.len(),
        forall|k: int| 0 <= k < n ==> samples[k] == ((SCALE as int), 0int),
    ensures
        corr_re(samples, dc_coeff_seq(n), n) == n * (SCALE as int) * (SCALE as int),
        corr_im(samples, dc_coeff_seq(n), n) == 0,
        magnitude(
            corr_re(samples, dc_coeff_seq(n), n),
            corr_im(samples, dc_coeff_seq(n), n),
            n,
        ) == SCALE as int,
{
    let s = SCALE as int;
    lemma_dc_corr(samples, n, n);
    let re = n * s * s;
    assert(re == (n * s) * s) by (nonlinear_arith)
        requires
            re == n * s * s,
    ;
    assert(re * re + 0 * 0 == re * re);
    assert(re > 0) by (nonlinear_arith)
        requires
            n >= 1,
            s > 0,
            re == n * s * s,
    ;
    assert(re * re < (re + 1) * (re + 1)) by (nonlinear_arith)
        requires
            re > 0,
    ;
    lemma_isqrt_is(re, re * re);
    assert(re == s * (n * s)) by (nonlinear_arith)
        requires
            re == n * s * s,
    ;
    assert(n * s > 0) by (nonlinear_arith)
        requires
            n >= 1,
            s > 0,
    ;
    vstd::arithmetic::div_mod::lemma_div_by_multiple(s, n * s);
}

/// The partial correlations of a constant unit input with unit
/// coefficients: after `k` samples the real sum is `k * SCALE^2` and the
/// imaginary sum is zero.
proof fn lemma_dc_corr(samples: Seq<(int, int)>, n: int, k: int)
    requires
        0 <= k <= n,
        n <= samples.len(),
        forall|j: int| 0 <= j < n ==> samples[j] == ((SCALE as int), 0int),
    ensures
        corr_re(samples, dc_coeff_seq(n), k) == k * (SCALE as int) * (SCALE as int),
        corr_im(samples, dc_coeff_seq(n), k) == 0,
    decreases k,
{
    let s = SCALE as int;
    if k > 0 {
        lemma_dc_corr(samples, n, k - 1);
        assert(contrib_re(samples[k - 1], dc_coeff_seq(n)[k - 1]) == s * s);
        assert(contrib_im(samples[k - 1], dc_coeff_seq(n)[k - 1]) == 0);
        assert(k * s * s == (k - 1) * s * s + s * s) by (nonlinear_arith);
    }
}

} // verus!
