//! Pipeline composition: the two supported modes.
//!
//! Raw mode: decode, select the in-phase channel, rate-convert to the
//! target rate. Tone-filtered mode: decode, correlate fixed-size chunks
//! against a coefficient table, optionally smooth the amplitude stream,
//! normalize by the maximum amplitude of the whole capture, rate-convert
//! the chunk-rate stream to the target rate.
//!
//! Normalization needs the maximum over the full filtered sequence, so the
//! tone mode deliberately materializes its buffers: a capture is one
//! bounded unit of work, not an unbounded stream.

use crate::config::ConfigError;
use crate::decode::{decode_all, decoded, IqSample, SCALE};
use crate::edge::{lemma_avg_bounds, sum_prefix, EdgeFilter, MAX_HISTORY, VAL_LIMIT};
use crate::narrowband::{
    contrib_im, contrib_re, corr_im, corr_re, magnitude, IqCoeff, NarrowbandPowerFilter,
    MAX_WINDOW,
};
use crate::rate::{convert, div_trunc, interp_at, lemma_mul_bounds, out_len, vals};
use vstd::prelude::*;

verus! {

/// Which pipeline mode a run uses: the raw decoded signal, or the
/// amplitude of one target frequency (in Hz, possibly a negative offset).
#[derive(Clone, Copy, PartialEq, Eq, Structural, Debug)]
pub enum SignalType {
    Raw,
    Filtered(i64),
}

impl SignalType {
    /// Whether this selection names a target frequency, which selects the
    /// tone-filtered mode; its absence selects the raw mode.
    pub fn is_filtered(&self) -> (b: bool)
        ensures
            b == (self is Filtered),
    {
        matches!(self, SignalType::Filtered(_))
    }
}

/// The in-phase components of a decoded sample stream.
pub open spec fn i_channel(d: Seq<(int, int)>) -> Seq<int> {
    d.map_values(|p: (int, int)| p.0)
}

/// The largest of the first `k` stream values, at least zero.
pub open spec fn max_prefix(s: Seq<int>, k: int) -> int
    decreases k,
{
    if k <= 0 {
        0
    } else if s[k - 1] > max_prefix(s, k - 1) {
        s[k - 1]
    } else {
        max_prefix(s, k - 1)
    }
}

/// The stream scaled so that its maximum value becomes `SCALE` (`1.0`);
/// an all-zero stream stays zero.
pub open spec fn normalized(s: Seq<int>) -> Seq<int> {
    let mx = max_prefix(s, s.len() as int);
    Seq::new(s.len(), |k: int| if mx == 0 { 0int } else { s[k] * (SCALE as int) / mx })
}

/// The prefix maximum dominates every element of the prefix.
pub proof fn lemma_max_prefix_ge(s: Seq<int>, k: int)
    requires
        0 <= k <= s.len(),
    ensures
        max_prefix(s, k) >= 0,
        forall|j: int| 0 <= j < k ==> #[trigger] s[j] <= max_prefix(s, k),
    decreases k,
{
    if k > 0 {
        lemma_max_prefix_ge(s, k - 1);
    }
}

/// Selects the in-phase channel of a decoded sample stream.
pub fn select_i(samples: &Vec<IqSample>) -> (r: Vec<i64>)
    ensures
        r@.len() == samples@.len(),
        forall|k: int| 0 <= k < r@.len() ==> r@[k] == samples@[k]@.0,
{
    let mut out: Vec<i64> = Vec::new();
    let mut k: usize = 0;
    while k < samples.len()
        invariant
            k <= samples@.len(),
            out@.len() == k,
            forall|j: int| 0 <= j < k ==> out@[j] == samples@[j]@.0,
        decreases samples@.len() - k,
    {
        out.push(samples[k].i as i64);
        k = k + 1;
    }
    out
}

/// Normalizes a non-negative amplitude stream by its maximum: the largest
/// value maps to `SCALE` (`1.0`), everything scales proportionally, and an
/// all-zero stream stays zero.
pub fn normalize(v: &Vec<i64>) -> (r: Vec<i64>)
    requires
        forall|k: int| 0 <= k < v@.len() ==> 0 <= #[trigger] v@[k] <= VAL_LIMIT,
    ensures
        r@.len() == v@.len(),
        forall|k: int| 0 <= k < r@.len() ==> r@[k] == normalized(vals(v@))[k],
        forall|k: int| 0 <= k < r@.len() ==> 0 <= #[trigger] r@[k] <= SCALE,
{
    let n = v.len();
    let mut mx: i64 = 0;
    let mut k: usize = 0;
    while k < n
        invariant
            n == v@.len(),
            k <= n,
            forall|j: int| 0 <= j < v@.len() ==> 0 <= #[trigger] v@[j] <= VAL_LIMIT,
            mx == max_prefix(vals(v@), k as int),
            0 <= mx <= VAL_LIMIT,
        decreases n - k,
    {
        if v[k] > mx {
            mx = v[k];
        }
        k = k + 1;
    }
    let mut out: Vec<i64> = Vec::new();
    let mut i: usize = 0;
    proof {
        lemma_max_prefix_ge(vals(v@), n as int);
    }
    while i < n
        invariant
            n == v@.len(),
            i <= n,
            forall|j: int| 0 <= j < v@.len() ==> 0 <= #[trigger] v@[j] <= VAL_LIMIT,
            mx == max_prefix(vals(v@), n as int),
            mx >= 0,
            forall|j: int| 0 <= j < v@.len() ==> #[trigger] vals(v@)[j] <= mx,
            out@.len() == i,
            forall|j: int| 0 <= j < i ==> out@[j] == normalized(vals(v@))[j],
            forall|j: int| 0 <= j < i ==> 0 <= #[trigger] out@[j] <= SCALE,
        decreases n - i,
    {
        let w: i64 = if mx == 0 {
            0
        } else {
            proof {
                assert(vals(v@)[i as int] == v@[i as int] as int);
                lemma_norm_bound(v@[i as int] as int, mx as int);
            }
            (((v[i] as u64) * (SCALE as u64)) / (mx as u64)) as i64
        };
        out.push(w);
        i = i + 1;
    }
    out
}

/// Scaling a value by `SCALE / mx` keeps it within `[0, SCALE]` when the
/// value is at most `mx`.
proof fn lemma_norm_bound(x: int, mx: int)
    requires
        0 <= x <= mx,
        x <= VAL_LIMIT as int,
        1 <= mx,
    ensures
        0 <= x * (SCALE as int) / mx <= SCALE as int,
        x * (SCALE as int) <= 0x800000000000,
{
    let s = SCALE as int;
    assert(0 <= x * s <= mx * s && mx * s == s * mx) by (nonlinear_arith)
        requires
            0 <= x <= mx,
            s == 32768,
    ;
    vstd::arithmetic::div_mod::lemma_div_is_ordered(0, x * s, mx);
    vstd::arithmetic::div_mod::lemma_div_is_ordered(x * s, mx * s, mx);
    vstd::arithmetic::div_mod::lemma_div_by_multiple(s, mx);
    assert(x * s <= 0x800000000000) by (nonlinear_arith)
        requires
            0 <= x <= 0x100000000,
            s == 32768,
    ;
}

/// Clamps a fixed-point value to the signed 16-bit range. With the
/// fixed-point unit equal to `2^15`, a value in `[-1.0, 1.0)` is its own
/// 16-bit encoding; exactly `1.0` saturates to the largest positive code.
pub fn encode_i16(v: i64) -> (r: i16)
    ensures
        r == (if v < -0x8000 {
            -0x8000int
        } else if v > 0x7fff {
            0x7fffint
        } else {
            v as int
        }),
{
    if v < -0x8000 {
        -0x8000
    } else if v > 0x7fff {
        0x7fff
    } else {
        v as i16
    }
}

/// Encodes a whole fixed-point stream as signed 16-bit samples for an
/// audio sink.
pub fn encode_i16_all(v: &Vec<i64>) -> (r: Vec<i16>)
    ensures
        r@.len() == v@.len(),
        forall|k: int|
            0 <= k < r@.len() ==> r@[k] == (if v@[k] < -0x8000 {
                -0x8000
            } else if v@[k] > 0x7fff {
                0x7fff
            } else {
                v@[k] as int
            }),
{
    let mut out: Vec<i16> = Vec::new();
    let mut k: usize = 0;
    while k < v.len()
        invariant
            k <= v@.len(),
            out@.len() == k,
            forall|j: int|
                0 <= j < k ==> out@[j] == (if v@[j] < -0x8000 {
                    -0x8000
                } else if v@[j] > 0x7fff {
                    0x7fff
                } else {
                    v@[j] as int
                }),
        decreases v@.len() - k,
    {
        let e = encode_i16(v[k]);
        out.push(e);
        k = k + 1;
    }
    out
}

/// The complex values of a decoded sample stream.
pub open spec fn sample_vals(s: Seq<IqSample>) -> Seq<(int, int)> {
    s.map_values(|x: IqSample| (x.i as int, x.q as int))
}

/// The amplitude the narrowband filter reports for chunk `j`: the scaled
/// magnitude of the correlation of the `N` samples starting at `j * N`
/// with the coefficient table.
pub open spec fn amp_at(d: Seq<(int, int)>, cv: Seq<(int, int)>, j: int) -> int {
    let n = cv.len() as int;
    magnitude(corr_re(d.skip(j * n), cv, n), corr_im(d.skip(j * n), cv, n), n)
}

/// The per-chunk amplitude stream of a decoded capture: one value per
/// complete chunk; a trailing partial chunk produces none.
pub open spec fn amplitudes(d: Seq<(int, int)>, cv: Seq<(int, int)>) -> Seq<int>
    recommends
        cv.len() >= 1,
{
    Seq::new(d.len() / cv.len(), |j: int| amp_at(d, cv, j))
}

/// The smoothed value at index `j`: the truncating average of the window
/// of up to `m` values ending there.
pub open spec fn smooth_at(s: Seq<int>, m: int, j: int) -> int
    recommends
        m >= 1,
        0 <= j < s.len(),
{
    let lo = if j + 1 - m > 0 { j + 1 - m } else { 0 };
    let w = s.subrange(lo, j + 1);
    div_trunc(sum_prefix(w, w.len() as int), w.len() as int)
}

/// The amplitude stream passed through the edge filter, one smoothed
/// value per input.
pub open spec fn smoothed(s: Seq<int>, m: int) -> Seq<int>
    recommends
        m >= 1,
{
    Seq::new(s.len(), |j: int| smooth_at(s, m, j))
}

/// Runs the narrowband filter over a decoded capture, grouping the
/// samples into chunks of the filter's window size itself, so that the
/// exactly-N-inputs discipline holds structurally. Returns one amplitude
/// per complete chunk; a trailing partial chunk is dropped.
pub fn tone_amplitudes(samples: &Vec<IqSample>, filter: &mut NarrowbandPowerFilter) -> (r: Vec<
    i64,
>)
    requires
        old(filter).wf(),
        old(filter).count() == 0,
        old(filter).re() == 0,
        old(filter).im() == 0,
        forall|k: int| 0 <= k < samples@.len() ==> (#[trigger] samples@[k]).in_range(),
    ensures
        final(filter).wf(),
        final(filter).coeffs_view() == old(filter).coeffs_view(),
        r@.len() == samples@.len() as int / old(filter).window_size(),
        forall|j: int|
            0 <= j < r@.len() ==> r@[j] == amplitudes(
                sample_vals(samples@),
                old(filter).coeffs_view(),
            )[j],
        forall|j: int| 0 <= j < r@.len() ==> 0 <= #[trigger] r@[j] <= 3 * (SCALE as int),
{
    let ghost d = sample_vals(samples@);
    let ghost cv = filter.coeffs_view();
    let ghost n = filter.window_size();
    proof {
        filter.lemma_wf_facts();
        assert(0int % n == 0 && 0int / n == 0) by (nonlinear_arith)
            requires
                n >= 1,
        ;
        assert((0int / n) * n == 0);
    }
    let mut out: Vec<i64> = Vec::new();
    let mut i: usize = 0;
    while i < samples.len()
        invariant
            filter.wf(),
            filter.coeffs_view() == cv,
            filter.window_size() == n,
            cv.len() == n,
            1 <= n,
            forall|k: int| 0 <= k < samples@.len() ==> (#[trigger] samples@[k]).in_range(),
            d == sample_vals(samples@),
            d.len() == samples@.len(),
            i <= samples@.len(),
            filter.count() == (i as int) % n,
            filter.re() == corr_re(d.skip(((i as int) / n) * n), cv, (i as int) % n),
            filter.im() == corr_im(d.skip(((i as int) / n) * n), cv, (i as int) % n),
            out@.len() == (i as int) / n,
            forall|j: int| 0 <= j < out@.len() ==> out@[j] == amp_at(d, cv, j),
            forall|j: int| 0 <= j < out@.len() ==> 0 <= #[trigger] out@[j] <= 3 * (SCALE as int),
        decreases samples@.len() - i,
    {
        let s = samples[i];
        let ghost ii = i as int;
        let ghost j = ii / n;
        let ghost c = ii % n;
        proof {
            vstd::arithmetic::div_mod::lemma_fundamental_div_mod(ii, n);
            vstd::arithmetic::div_mod::lemma_mod_bound(ii, n);
            assert(n * j == j * n) by (nonlinear_arith);
            assert(ii == j * n + c);
            assert(j >= 0) by (nonlinear_arith)
                requires
                    ii == j * n + c,
                    ii >= 0,
                    0 <= c < n,
            ;
            assert(d.skip(j * n)[c] == d[ii]);
            assert(d[ii] == s@);
            if c + 1 == n {
                // The push completes chunk j.
                assert(ii + 1 == (j + 1) * n + 0) by (nonlinear_arith)
                    requires
                        ii == j * n + c,
                        c + 1 == n,
                ;
                vstd::arithmetic::div_mod::lemma_fundamental_div_mod_converse_div(
                    ii + 1, n, j + 1, 0);
                vstd::arithmetic::div_mod::lemma_fundamental_div_mod_converse_mod(
                    ii + 1, n, j + 1, 0);
                // The next chunk, j + 1, still fits in front of index i + 1.
                vstd::arithmetic::div_mod::lemma_div_is_ordered((j + 1) * n, d.len() as int, n);
                vstd::arithmetic::div_mod::lemma_div_by_multiple(j + 1, n);
            } else {
                assert(ii + 1 == j * n + (c + 1));
                vstd::arithmetic::div_mod::lemma_fundamental_div_mod_converse_div(
                    ii + 1, n, j, c + 1);
                vstd::arithmetic::div_mod::lemma_fundamental_div_mod_converse_mod(
                    ii + 1, n, j, c + 1);
            }
        }
        let ghost re0 = filter.re();
        let ghost im0 = filter.im();
        match filter.push(s) {
            Some(m) => {
                proof {
                    assert(cv.len() == n);
                    assert(corr_re(d.skip(j * n), cv, n) == corr_re(d.skip(j * n), cv, c)
                        + contrib_re(d.skip(j * n)[c], cv[c]));
                    assert(corr_im(d.skip(j * n), cv, n) == corr_im(d.skip(j * n), cv, c)
                        + contrib_im(d.skip(j * n)[c], cv[c]));
                    assert(m == magnitude(corr_re(d.skip(j * n), cv, n), corr_im(
                        d.skip(j * n), cv, n), n));
                    assert(j * (cv.len() as int) == j * n);
                    assert(m == amp_at(d, cv, j));
                }
                out.push(m);
            },
            None => {
                proof {
                    assert(corr_re(d.skip(j * n), cv, c + 1) == corr_re(d.skip(j * n), cv, c)
                        + contrib_re(d.skip(j * n)[c], cv[c]));
                    assert(corr_im(d.skip(j * n), cv, c + 1) == corr_im(d.skip(j * n), cv, c)
                        + contrib_im(d.skip(j * n)[c], cv[c]));
                }
            },
        }
        i = i + 1;
    }
    out
}

/// Passes an amplitude stream through the edge filter, one smoothed value
/// per input, in order.
pub fn smooth_all(v: &Vec<i64>, edge: &mut EdgeFilter) -> (r: Vec<i64>)
    requires
        old(edge).wf(),
        old(edge).window() == Seq::<int>::empty(),
        forall|k: int| 0 <= k < v@.len() ==> -VAL_LIMIT <= #[trigger] v@[k] <= VAL_LIMIT,
    ensures
        final(edge).wf(),
        r@.len() == v@.len(),
        forall|j: int| 0 <= j < r@.len() ==> r@[j] == smoothed(vals(v@), old(edge).m())[j],
{
    let ghost sv = vals(v@);
    let ghost m0 = old(edge).m();
    proof {
        edge.lemma_wf_facts();
        assert(edge.window() =~= sv.subrange(0, 0));
    }
    let mut out: Vec<i64> = Vec::new();
    let mut i: usize = 0;
    while i < v.len()
        invariant
            edge.wf(),
            edge.m() == m0,
            1 <= m0,
            sv == vals(v@),
            sv.len() == v@.len(),
            forall|k: int| 0 <= k < v@.len() ==> -VAL_LIMIT <= #[trigger] v@[k] <= VAL_LIMIT,
            i <= v@.len(),
            edge.window() == sv.subrange(if i as int - m0 > 0 { i as int - m0 } else { 0 },
                i as int),
            out@.len() == i,
            forall|j: int| 0 <= j < out@.len() ==> out@[j] == smooth_at(sv, m0, j),
        decreases v@.len() - i,
    {
        let ghost lo = if i as int - m0 > 0 { i as int - m0 } else { 0 };
        let ghost lo2 = if i as int + 1 - m0 > 0 { i as int + 1 - m0 } else { 0 };
        edge.input(v[i]);
        proof {
            if i as int - lo < m0 {
                assert(lo2 == lo);
                assert(sv.subrange(lo, i as int).push(sv[i as int]) =~= sv.subrange(
                    lo2, i as int + 1));
            } else {
                assert(lo2 == lo + 1);
                assert(sv.subrange(lo, i as int).remove(0).push(sv[i as int]) =~= sv.subrange(
                    lo2, i as int + 1));
            }
            assert(sv[i as int] == v@[i as int] as int);
        }
        let w = edge.output();
        assert(w == smooth_at(sv, m0, i as int));
        out.push(w);
        i = i + 1;
    }
    out
}

/// Whether a conversion of `len` input samples fits in memory.
pub open spec fn conversion_fits(len: int, in_rate: int, out_rate: int) -> bool {
    out_len(len, in_rate, out_rate) <= usize::MAX
}

/// The complex values of a coefficient table.
pub open spec fn coeff_vals(coeffs: Seq<IqCoeff>) -> Seq<(int, int)> {
    coeffs.map_values(|c: IqCoeff| (c.re as int, c.im as int))
}

/// Runs the raw mode: decode, select the in-phase channel, rate-convert
/// from the capture rate to the target rate. Zero rates are rejected as
/// configuration errors before the pipeline starts; a conversion whose
/// output cannot fit in memory is rejected as well.
pub fn run_raw(bytes: &Vec<u8>, in_rate: u32, out_rate: u32) -> (r: Result<Vec<i64>, ConfigError>)
    ensures
        ({
            let stream = i_channel(decoded(bytes@));
            match r {
                Ok(o) => {
                    &&& in_rate >= 1
                    &&& out_rate >= 1
                    &&& conversion_fits(stream.len() as int, in_rate as int, out_rate as int)
                    &&& o@.len() == out_len(stream.len() as int, in_rate as int, out_rate as int)
                    &&& forall|t: int|
                        0 <= t < o@.len() ==> o@[t] == interp_at(
                            stream,
                            in_rate as int,
                            out_rate as int,
                            t,
                        )
                },
                Err(e) => {
                    &&& (in_rate == 0 || out_rate == 0 || !conversion_fits(
                        stream.len() as int,
                        in_rate as int,
                        out_rate as int,
                    ))
                    &&& e == (if in_rate == 0 || out_rate == 0 {
                        ConfigError::ZeroRate
                    } else {
                        ConfigError::OutputTooLong
                    })
                },
            }
        }),
{
    if in_rate == 0 || out_rate == 0 {
        return Err(ConfigError::ZeroRate);
    }
    let samples = decode_all(bytes);
    let ich = select_i(&samples);
    proof {
        assert forall|k: int| 0 <= k < ich@.len() implies vals(ich@)[k] == i_channel(
            decoded(bytes@),
        )[k] by {
            assert(ich@[k] == samples@[k]@.0);
            assert(samples@[k]@ == decoded(bytes@)[k]);
        }
        assert(vals(ich@) =~= i_channel(decoded(bytes@)));
    }
    let n = ich.len();
    if n > 0 {
        proof {
            lemma_mul_bounds((n - 1) as int, out_rate as int, 0x10000000000000000, 0x100000000);
        }
        let num: u128 = ((n - 1) as u128) * (out_rate as u128);
        let len128: u128 = num / (in_rate as u128) + 1;
        if len128 > usize::MAX as u128 {
            return Err(ConfigError::OutputTooLong);
        }
    }
    let o = convert(&ich, in_rate, out_rate);
    Ok(o)
}

/// The configuration error a coefficient table draws.
pub open spec fn filter_cfg_error(coeffs: Seq<IqCoeff>) -> ConfigError {
    if coeffs.len() == 0 {
        ConfigError::ZeroWindow
    } else if coeffs.len() > MAX_WINDOW {
        ConfigError::WindowTooLarge
    } else {
        ConfigError::CoeffOutOfRange
    }
}

/// The configuration error an edge-filter history length draws.
pub open spec fn edge_cfg_error(m: int) -> ConfigError {
    if m == 0 {
        ConfigError::ZeroHistory
    } else {
        ConfigError::HistoryTooLarge
    }
}

/// The history length selected by an optional smoothing configuration.
pub open spec fn edge_m_view(edge_len: Option<usize>) -> Option<int> {
    match edge_len {
        Option::Some(m) => Option::Some(m as int),
        Option::None => Option::None,
    }
}

/// The stream the tone-filtered mode hands to rate conversion: per-chunk
/// amplitudes, optionally smoothed, normalized by the maximum over the
/// whole capture.
pub open spec fn tone_stream(bytes: Seq<u8>, cv: Seq<(int, int)>, edge_m: Option<int>) -> Seq<
    int,
>
    recommends
        cv.len() >= 1,
{
    let a = amplitudes(decoded(bytes), cv);
    let sm = match edge_m {
        Option::Some(m) => smoothed(a, m),
        Option::None => a,
    };
    normalized(sm)
}

/// Runs the tone-filtered mode: decode, extract one amplitude per
/// complete chunk of the window size, optionally smooth, normalize by the
/// capture-wide maximum, rate-convert from the chunk rate
/// (`in_rate / window_size`, truncated) to the target rate. All invalid
/// configuration is rejected before any sample flows.
pub fn run_tone(
    bytes: &Vec<u8>,
    coeffs: Vec<IqCoeff>,
    edge_len: Option<usize>,
    in_rate: u32,
    out_rate: u32,
) -> (r: Result<Vec<i64>, ConfigError>)
    ensures
        ({
            let cv = coeff_vals(coeffs@);
            let filter_ok = 1 <= coeffs@.len() <= MAX_WINDOW
                && NarrowbandPowerFilter::coeffs_in_range(coeffs@);
            let edge_ok = match edge_len {
                Option::Some(m) => 1 <= m <= MAX_HISTORY,
                Option::None => true,
            };
            let chunk_rate = in_rate as int / coeffs@.len() as int;
            let rates_ok = chunk_rate >= 1 && out_rate >= 1;
            let stream = tone_stream(bytes@, cv, edge_m_view(edge_len));
            match r {
                Ok(o) => {
                    &&& filter_ok
                    &&& edge_ok
                    &&& rates_ok
                    &&& conversion_fits(stream.len() as int, chunk_rate, out_rate as int)
                    &&& o@.len() == out_len(stream.len() as int, chunk_rate, out_rate as int)
                    &&& forall|t: int|
                        0 <= t < o@.len() ==> o@[t] == interp_at(
                            stream,
                            chunk_rate,
                            out_rate as int,
                            t,
                        )
                },
                Err(e) => {
                    &&& !(filter_ok && edge_ok && rates_ok && conversion_fits(
                        stream.len() as int,
                        chunk_rate,
                        out_rate as int,
                    ))
                    &&& e == (if !filter_ok {
                        filter_cfg_error(coeffs@)
                    } else if !edge_ok {
                        edge_cfg_error(match edge_len {
                            Option::Some(m) => m as int,
                            Option::None => 0int,
                        })
                    } else if !rates_ok {
                        ConfigError::ZeroRate
                    } else {
                        ConfigError::OutputTooLong
                    })
                },
            }
        }),
{
    let ghost cvg = coeff_vals(coeffs@);
    let n_win = coeffs.len();
    let mut filter = match NarrowbandPowerFilter::new(coeffs) {
        Ok(f) => f,
        Err(e) => {
            return Err(e);
        },
    };
    proof {
        assert(cvg =~= filter.coeffs_view());
    }
    let edge = match edge_len {
        Some(m) => match EdgeFilter::new(m) {
            Ok(f) => Some(f),
            Err(e) => {
                return Err(e);
            },
        },
        None => None,
    };
    if out_rate == 0 {
        return Err(ConfigError::ZeroRate);
    }
    let chunk_rate: u32 = in_rate / (n_win as u32);
    if chunk_rate == 0 {
        return Err(ConfigError::ZeroRate);
    }
    let samples = decode_all(bytes);
    proof {
        assert forall|k: int| 0 <= k < samples@.len() implies sample_vals(samples@)[k] == decoded(
            bytes@,
        )[k] by {
            assert(samples@[k]@ == decoded(bytes@)[k]);
        }
        assert(sample_vals(samples@) =~= decoded(bytes@));
    }
    let amps = tone_amplitudes(&samples, &mut filter);
    proof {
        assert forall|j: int|
            0 <= j < amps@.len() implies vals(amps@)[j] == amplitudes(decoded(bytes@), cvg)[j] by {
            assert(amps@[j] == amplitudes(sample_vals(samples@), cvg)[j]);
        }
        assert(vals(amps@) =~= amplitudes(decoded(bytes@), cvg));
    }
    let ghost a = amplitudes(decoded(bytes@), cvg);
    let sm = match edge {
        Some(mut e) => {
            let ghost m0 = e.m();
            let out = smooth_all(&amps, &mut e);
            proof {
                assert forall|j: int|
                    0 <= j < out@.len() implies 0 <= #[trigger] out@[j] <= 3 * (SCALE as int) by {
                    assert(out@[j] == smooth_at(vals(amps@), m0, j));
                    let lo = if j + 1 - m0 > 0 { j + 1 - m0 } else { 0 };
                    let w = vals(amps@).subrange(lo, j + 1);
                    assert forall|q: int| 0 <= q < w.len() implies 0 <= #[trigger] w[q] <= 3 * (
                    SCALE as int) by {
                        assert(w[q] == vals(amps@)[lo + q]);
                        assert(amps@[lo + q] <= 3 * (SCALE as int));
                    }
                    lemma_avg_bounds(w, 3 * (SCALE as int), w.len() as int);
                }
                assert forall|j: int|
                    0 <= j < out@.len() implies vals(out@)[j] == smoothed(a, m0)[j] by {
                    assert(out@[j] == smooth_at(vals(amps@), m0, j));
                }
                assert(vals(out@) =~= smoothed(a, m0));
            }
            out
        },
        None => amps,
    };
    assert(vals(sm@) == (match edge_m_view(edge_len) {
        Option::Some(m) => smoothed(a, m),
        Option::None => a,
    }));
    let no = normalize(&sm);
    proof {
        assert forall|k: int|
            0 <= k < no@.len() implies vals(no@)[k] == tone_stream(
            bytes@,
            cvg,
            edge_m_view(edge_len),
        )[k] by {
            assert(no@[k] == normalized(vals(sm@))[k]);
        }
        assert(vals(no@) =~= tone_stream(bytes@, cvg, edge_m_view(edge_len)));
    }
    let n_out = no.len();
    if n_out > 0 {
        proof {
            lemma_mul_bounds((n_out - 1) as int, out_rate as int, 0x10000000000000000,
                0x100000000);
        }
        let num: u128 = ((n_out - 1) as u128) * (out_rate as u128);
        let len128: u128 = num / (chunk_rate as u128) + 1;
        if len128 > usize::MAX as u128 {
            return Err(ConfigError::OutputTooLong);
        }
    }
    let o = convert(&no, chunk_rate, out_rate);
    Ok(o)
}

} // verus!
