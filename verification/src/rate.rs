//! Sample-rate conversion by linear interpolation.
//!
//! Output index `t` maps to the virtual input position `t * in_rate /
//! out_rate`; the converter interpolates linearly between the two input
//! samples on either side of that position. The stream ends as soon as the
//! mapped position would need an input sample past the end of the buffer:
//! nothing wraps and nothing is extrapolated.

use crate::config::ConfigError;
use vstd::prelude::*;

verus! {

/// Division truncating toward zero (the behaviour of machine division),
/// for a positive divisor.
pub open spec fn div_trunc(a: int, b: int) -> int
    recommends
        b > 0,
{
    if a >= 0 {
        a / b
    } else {
        -((-a) / b)
    }
}

/// The mathematical values of a machine-integer sample stream.
pub open spec fn vals(s: Seq<i64>) -> Seq<int> {
    s.map_values(|x: i64| x as int)
}

/// How many output samples a conversion of `n` input samples produces:
/// all output indices `t` whose mapped position `t * in_rate / out_rate`
/// stays within the input, i.e. `t * in_rate <= (n - 1) * out_rate`.
pub open spec fn out_len(n: int, in_rate: int, out_rate: int) -> int
    recommends
        in_rate > 0,
        out_rate > 0,
{
    if n == 0 {
        0
    } else {
        ((n - 1) * out_rate) / in_rate + 1
    }
}

/// The value interpolated at output index `t`: with `p = t * in_rate`,
/// the input position is `p / out_rate` samples plus a fractional part
/// `(p % out_rate) / out_rate`, and the output lies that fraction of the
/// way from the sample at the position to the next one.
pub open spec fn interp_at(s: Seq<int>, in_rate: int, out_rate: int, t: int) -> int
    recommends
        in_rate > 0,
        out_rate > 0,
        0 <= t < out_len(s.len() as int, in_rate, out_rate),
{
    let p = t * in_rate;
    let idx = p / out_rate;
    let frac = p % out_rate;
    if frac == 0 {
        s[idx]
    } else {
        s[idx] + div_trunc((s[idx + 1] - s[idx]) * frac, out_rate)
    }
}

/// The product of two non-negative values bounded by `bx` and `by` stays
/// below `bx * by`.
pub(crate) proof fn lemma_mul_bounds(x: int, y: int, bx: int, by: int)
    requires
        0 <= x < bx,
        0 <= y < by,
    ensures
        0 <= x * y < bx * by,
{
    assert(0 <= x * y < bx * by) by (nonlinear_arith)
        requires
            0 <= x < bx,
            0 <= y < by,
    ;
}

/// A valid output index never needs an input sample past the end: if the
/// mapped position has a fractional part, the next sample exists too.
pub proof fn lemma_index_in_bounds(n: int, in_rate: int, out_rate: int, t: int)
    requires
        in_rate > 0,
        out_rate > 0,
        n > 0,
        0 <= t,
        t * in_rate <= (n - 1) * out_rate,
    ensures
        0 <= (t * in_rate) / out_rate < n,
        (t * in_rate) % out_rate != 0 ==> (t * in_rate) / out_rate + 1 < n,
{
    assert(0 <= t * in_rate) by (nonlinear_arith)
        requires
            t >= 0,
            in_rate > 0,
    ;
    let p = t * in_rate;
    vstd::arithmetic::div_mod::lemma_fundamental_div_mod(p, out_rate);
    vstd::arithmetic::div_mod::lemma_mod_bound(p, out_rate);
    let idx = p / out_rate;
    let frac = p % out_rate;
    assert(idx >= 0) by (nonlinear_arith)
        requires
            out_rate * idx + frac == p,
            p >= 0,
            0 <= frac < out_rate,
    ;
    if idx + 1 >= n {
        // idx >= n - 1, so p = idx * out_rate + frac >= (n - 1) * out_rate >= p,
        // forcing idx == n - 1 and frac == 0.
        assert(idx * out_rate >= (n - 1) * out_rate) by (nonlinear_arith)
            requires
                idx >= n - 1,
                out_rate > 0,
        ;
        assert(out_rate * idx == idx * out_rate) by (nonlinear_arith);
        assert(frac == 0);
        assert(idx <= n - 1) by (nonlinear_arith)
            requires
                idx * out_rate <= (n - 1) * out_rate,
                out_rate > 0,
        ;
    }
}

/// Every output index below `out_len` maps within bounds, and no later
/// index does: `out_len` is exactly the number of valid output indices.
pub proof fn lemma_out_len_bound(n: int, in_rate: int, out_rate: int, t: int)
    requires
        in_rate > 0,
        out_rate > 0,
        n > 0,
        0 <= t,
    ensures
        t < out_len(n, in_rate, out_rate) <==> t * in_rate <= (n - 1) * out_rate,
{
    assert(0 <= (n - 1) * out_rate) by (nonlinear_arith)
        requires
            n > 0,
            out_rate > 0,
    ;
    let m = (n - 1) * out_rate;
    vstd::arithmetic::div_mod::lemma_fundamental_div_mod(m, in_rate);
    vstd::arithmetic::div_mod::lemma_mod_bound(m, in_rate);
    let q = m / in_rate;
    assert(in_rate * q == q * in_rate) by (nonlinear_arith);
    if t <= q {
        assert(t * in_rate <= q * in_rate) by (nonlinear_arith)
            requires
                t <= q,
                in_rate > 0,
        ;
    } else {
        assert(t * in_rate >= (q + 1) * in_rate) by (nonlinear_arith)
            requires
                t >= q + 1,
                in_rate > 0,
        ;
        assert((q + 1) * in_rate == q * in_rate + in_rate) by (nonlinear_arith);
    }
}

/// For `0 <= f < r` and `d >= 0`, the scaled fraction `d * f / r` lies in
/// `[0, d]`.
pub proof fn lemma_scaled_frac_bound(d: int, f: int, r: int)
    requires
        d >= 0,
        0 <= f < r,
    ensures
        0 <= (d * f) / r <= d,
{
    assert(0 <= d * f) by (nonlinear_arith)
        requires
            d >= 0,
            f >= 0,
    ;
    assert(d * f <= d * r) by (nonlinear_arith)
        requires
            d >= 0,
            f < r,
    ;
    vstd::arithmetic::div_mod::lemma_div_is_ordered(0, d * f, r);
    vstd::arithmetic::div_mod::lemma_div_is_ordered(d * f, d * r, r);
    vstd::arithmetic::div_mod::lemma_div_by_multiple(d, r);
}

/// The interpolation step written over magnitudes agrees with the
/// truncating quotient in the interpolation formula.
pub proof fn lemma_step_form(a: int, b: int, frac: int, out_rate: int)
    requires
        out_rate > 0,
        0 <= frac < out_rate,
    ensures
        b >= a ==> div_trunc((b - a) * frac, out_rate) == ((b - a) * frac) / out_rate,
        b < a ==> div_trunc((b - a) * frac, out_rate) == -(((a - b) * frac) / out_rate),
{
    if b >= a {
        assert((b - a) * frac >= 0) by (nonlinear_arith)
            requires
                b - a >= 0,
                frac >= 0,
        ;
    } else {
        assert((b - a) * frac == -((a - b) * frac)) by (nonlinear_arith);
        assert((a - b) * frac >= 0) by (nonlinear_arith)
            requires
                a - b >= 0,
                frac >= 0,
        ;
        if (a - b) * frac == 0 {
            vstd::arithmetic::div_mod::lemma_div_of0(out_rate);
        }
    }
}

/// Converts a sample stream from `in_rate` to `out_rate` by linear
/// interpolation. The output holds exactly `out_len` samples, and sample
/// `t` is the value interpolated at position `t * in_rate / out_rate`.
pub fn convert(s: &Vec<i64>, in_rate: u32, out_rate: u32) -> (r: Vec<i64>)
    requires
        in_rate >= 1,
        out_rate >= 1,
        out_len(s@.len() as int, in_rate as int, out_rate as int) <= usize::MAX,
    ensures
        r@.len() == out_len(s@.len() as int, in_rate as int, out_rate as int),
        forall|t: int|
            0 <= t < r@.len() ==> r@[t] == interp_at(vals(s@), in_rate as int, out_rate as int, t),
{
    let n = s.len();
    let mut out: Vec<i64> = Vec::new();
    if n == 0 {
        return out;
    }
    proof {
        lemma_mul_bounds((n - 1) as int, out_rate as int, 0x1_0000_0000_0000_0000,
            0x1_0000_0000);
    }
    let num: u128 = ((n - 1) as u128) * (out_rate as u128);
    let len128: u128 = num / (in_rate as u128) + 1;
    assert(len128 == out_len(n as int, in_rate as int, out_rate as int));
    let len: usize = len128 as usize;
    let mut t: usize = 0;
    while t < len
        invariant
            n == s@.len(),
            n > 0,
            in_rate >= 1,
            out_rate >= 1,
            len == out_len(n as int, in_rate as int, out_rate as int),
            t <= len,
            out@.len() == t,
            forall|j: int|
                0 <= j < t ==> out@[j] == interp_at(vals(s@), in_rate as int, out_rate as int, j),
        decreases len - t,
    {
        proof {
            lemma_out_len_bound(n as int, in_rate as int, out_rate as int, t as int);
        }
        let v = interp_index(s, in_rate, out_rate, t);
        out.push(v);
        t = t + 1;
    }
    out
}

/// Computes the interpolated value at one output index.
fn interp_index(s: &Vec<i64>, in_rate: u32, out_rate: u32, t: usize) -> (v: i64)
    requires
        in_rate >= 1,
        out_rate >= 1,
        s@.len() > 0,
        (t as int) * (in_rate as int) <= (s@.len() as int - 1) * (out_rate as int),
    ensures
        v == interp_at(vals(s@), in_rate as int, out_rate as int, t as int),
{
    let n = s.len();
    proof {
        lemma_mul_bounds(t as int, in_rate as int, 0x1_0000_0000_0000_0000, 0x1_0000_0000);
        lemma_index_in_bounds(n as int, in_rate as int, out_rate as int, t as int);
    }
    let p: u128 = (t as u128) * (in_rate as u128);
    let idx128: u128 = p / (out_rate as u128);
    let frac: u128 = p % (out_rate as u128);
    let idx: usize = idx128 as usize;
    if frac == 0 {
        s[idx]
    } else {
        let a: i128 = s[idx] as i128;
        let b: i128 = s[idx + 1] as i128;
        proof {
            lemma_step_form(a as int, b as int, frac as int, out_rate as int);
        }
        let w: i128 = if b >= a {
            let d: u128 = (b - a) as u128;
            proof {
                lemma_mul_bounds(d as int, frac as int, 0x2_0000_0000_0000_0000,
                    0x1_0000_0000);
                lemma_scaled_frac_bound(d as int, frac as int, out_rate as int);
            }
            let step: u128 = (d * frac) / (out_rate as u128);
            a + step as i128
        } else {
            let d: u128 = (a - b) as u128;
            proof {
                lemma_mul_bounds(d as int, frac as int, 0x2_0000_0000_0000_0000,
                    0x1_0000_0000);
                lemma_scaled_frac_bound(d as int, frac as int, out_rate as int);
            }
            let step: u128 = (d * frac) / (out_rate as u128);
            a - step as i128
        };
        assert(a <= w <= b || b <= w <= a);
        assert(w == interp_at(vals(s@), in_rate as int, out_rate as int, t as int));
        w as i64
    }
}

/// Pull-based rate conversion over an owned sample buffer: `next`
/// produces the interpolated output samples one at a time, in order, and
/// ends once the mapped input position passes the end of the buffer.
pub struct RateConverter {
    input: Vec<i64>,
    in_rate: u32,
    out_rate: u32,
    t: usize,
}

impl RateConverter {
    /// The input stream the converter was created over.
    pub closed spec fn source(&self) -> Seq<i64> {
        self.input@
    }

    /// The input sample rate.
    pub closed spec fn rate_in(&self) -> int {
        self.in_rate as int
    }

    /// The output sample rate.
    pub closed spec fn rate_out(&self) -> int {
        self.out_rate as int
    }

    /// How many output samples have already been produced.
    pub closed spec fn produced(&self) -> int {
        self.t as int
    }

    /// Positive rates, a stream length that fits in memory, and a cursor
    /// within it.
    pub closed spec fn wf(&self) -> bool {
        &&& self.in_rate >= 1
        &&& self.out_rate >= 1
        &&& out_len(self.input@.len() as int, self.in_rate as int, self.out_rate as int)
            <= usize::MAX
        &&& self.t <= out_len(self.input@.len() as int, self.in_rate as int, self.out_rate as int)
    }

    /// Creates a converter, rejecting zero rates and a conversion whose
    /// output could not fit in memory, before any sample flows.
    pub fn new(input: Vec<i64>, in_rate: u32, out_rate: u32) -> (r: Result<
        RateConverter,
        ConfigError,
    >)
        ensures
            ({
                let fits = out_len(input@.len() as int, in_rate as int, out_rate as int)
                    <= usize::MAX;
                match r {
                    Ok(c) => {
                        &&& in_rate >= 1
                        &&& out_rate >= 1
                        &&& fits
                        &&& c.wf()
                        &&& c.source() == input@
                        &&& c.rate_in() == in_rate
                        &&& c.rate_out() == out_rate
                        &&& c.produced() == 0
                    },
                    Err(e) => {
                        &&& (in_rate == 0 || out_rate == 0 || !fits)
                        &&& e == (if in_rate == 0 || out_rate == 0 {
                            ConfigError::ZeroRate
                        } else {
                            ConfigError::OutputTooLong
                        })
                    },
                }
            }),
    {
        if in_rate == 0 || out_rate == 0 {
            return Err(ConfigError::ZeroRate);
        }
        let n = input.len();
        if n > 0 {
            proof {
                lemma_mul_bounds((n - 1) as int, out_rate as int, 0x1_0000_0000_0000_0000,
                    0x1_0000_0000);
            }
            let num: u128 = ((n - 1) as u128) * (out_rate as u128);
            let len128: u128 = num / (in_rate as u128) + 1;
            if len128 > usize::MAX as u128 {
                return Err(ConfigError::OutputTooLong);
            }
        }
        Ok(RateConverter { input, in_rate, out_rate, t: 0 })
    }

    /// Produces the next interpolated output sample, or `None` once the
    /// mapped input position passes the available input. In total exactly
    /// `out_len` samples are produced.
    pub fn next(&mut self) -> (r: Option<i64>)
        requires
            old(self).wf(),
        ensures
            final(self).wf(),
            final(self).source() == old(self).source(),
            final(self).rate_in() == old(self).rate_in(),
            final(self).rate_out() == old(self).rate_out(),
            ({
                let full = out_len(
                    old(self).source().len() as int,
                    old(self).rate_in(),
                    old(self).rate_out(),
                );
                if old(self).produced() < full {
                    &&& r matches Some(v)
                    &&& v == interp_at(
                        vals(old(self).source()),
                        old(self).rate_in(),
                        old(self).rate_out(),
                        old(self).produced(),
                    )
                    &&& final(self).produced() == old(self).produced() + 1
                } else {
                    r is None && final(self).produced() == old(self).produced()
                }
            }),
    {
        let n = self.input.len();
        if n == 0 {
            return None;
        }
        proof {
            lemma_mul_bounds(self.t as int, self.in_rate as int, 0x1_0000_0000_0000_0000,
                0x1_0000_0000);
            lemma_mul_bounds((n - 1) as int, self.out_rate as int, 0x1_0000_0000_0000_0000,
                0x1_0000_0000);
            lemma_out_len_bound(n as int, self.in_rate as int, self.out_rate as int,
                self.t as int);
        }
        let p: u128 = (self.t as u128) * (self.in_rate as u128);
        let m: u128 = ((n - 1) as u128) * (self.out_rate as u128);
        if p > m {
            return None;
        }
        let v = interp_index(&self.input, self.in_rate, self.out_rate, self.t);
        self.t = self.t + 1;
        Some(v)
    }
}

/// Converting between equal rates is the identity: the output is the
/// input, element for element.
pub proof fn lemma_convert_identity(s: Seq<int>, rate: int)
    requires
        rate > 0,
    ensures
        out_len(s.len() as int, rate, rate) == s.len(),
        forall|t: int| 0 <= t < s.len() ==> interp_at(s, rate, rate, t) == s[t],
{
    if s.len() > 0 {
        let n = s.len() as int;
        vstd::arithmetic::div_mod::lemma_div_by_multiple(n - 1, rate);
        assert(out_len(n, rate, rate) == n);
    }
    assert forall|t: int| 0 <= t < s.len() implies interp_at(s, rate, rate, t) == s[t] by {
        vstd::arithmetic::div_mod::lemma_div_by_multiple(t, rate);
        vstd::arithmetic::div_mod::lemma_mod_multiples_basic(t, rate);
        assert((t * rate) / rate == t);
        assert((t * rate) % rate == 0);
    }
}

/// Converting a constant stream yields that same constant at every output
/// index, whatever the (positive) rate ratio.
pub proof fn lemma_convert_constant(s: Seq<int>, in_rate: int, out_rate: int, c: int)
    requires
        in_rate > 0,
        out_rate > 0,
        forall|k: int| 0 <= k < s.len() ==> s[k] == c,
    ensures
        forall|t: int|
            0 <= t < out_len(s.len() as int, in_rate, out_rate) ==> interp_at(
                s,
                in_rate,
                out_rate,
                t,
            ) == c,
{
    assert forall|t: int|
        0 <= t < out_len(s.len() as int, in_rate, out_rate) implies interp_at(
        s,
        in_rate,
        out_rate,
        t,
    ) == c by {
        let n = s.len() as int;
        lemma_out_len_bound(n, in_rate, out_rate, t);
        lemma_index_in_bounds(n, in_rate, out_rate, t);
        let p = t * in_rate;
        let idx = p / out_rate;
        let frac = p % out_rate;
        if frac != 0 {
            assert(s[idx] == c && s[idx + 1] == c);
            assert((c - c) * frac == 0) by (nonlinear_arith);
            vstd::arithmetic::div_mod::lemma_div_of0(out_rate);
        }
    }
}

} // verus!
