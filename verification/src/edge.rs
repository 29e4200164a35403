//! Amplitude smoothing ahead of digital-level recovery.
//!
//! The edge filter keeps a bounded history of the most recent amplitude
//! values and reports their moving average, suppressing chunk-to-chunk
//! jitter in the tone-amplitude stream so that level transitions stand out.
//! Unlike the narrowband filter it is not chunk-gated: a smoothed value may
//! be read after any number of inputs.

use crate::config::ConfigError;
use crate::rate::{div_trunc, vals};
use vstd::prelude::*;

verus! {

/// The largest accepted history length.
pub const MAX_HISTORY: usize = 0x100000;

/// The largest accepted input magnitude; keeps any history sum in `i64`.
pub const VAL_LIMIT: i64 = 0x100000000;

/// The sum of the first `k` elements of a stream.
pub open spec fn sum_prefix(s: Seq<int>, k: int) -> int
    decreases k,
{
    if k <= 0 {
        0
    } else {
        sum_prefix(s, k - 1) + s[k - 1]
    }
}

/// A sum of `k` values, each within `[lo, hi]`, lies within
/// `[k * lo, k * hi]`.
pub proof fn lemma_sum_bounds(s: Seq<int>, lo: int, hi: int, k: int)
    requires
        0 <= k <= s.len(),
        forall|j: int| 0 <= j < k ==> lo <= #[trigger] s[j] <= hi,
    ensures
        k * lo <= sum_prefix(s, k) <= k * hi,
    decreases k,
{
    if k > 0 {
        lemma_sum_bounds(s, lo, hi, k - 1);
        assert(k * lo == (k - 1) * lo + lo) by (nonlinear_arith);
        assert(k * hi == (k - 1) * hi + hi) by (nonlinear_arith);
    } else {
        assert(k * lo == 0 && k * hi == 0) by (nonlinear_arith)
            requires
                k == 0,
        ;
    }
}

/// The truncating average of `k >= 1` values within `[0, hi]`, `hi >= 0`,
/// lies within `[0, hi]` itself.
pub proof fn lemma_avg_bounds(s: Seq<int>, hi: int, k: int)
    requires
        1 <= k <= s.len(),
        hi >= 0,
        forall|j: int| 0 <= j < k ==> 0 <= #[trigger] s[j] <= hi,
    ensures
        0 <= div_trunc(sum_prefix(s, k), k) <= hi,
{
    lemma_sum_bounds(s, 0, hi, k);
    assert(k * 0 == 0) by (nonlinear_arith);
    let sum = sum_prefix(s, k);
    vstd::arithmetic::div_mod::lemma_div_is_ordered(0, sum, k);
    vstd::arithmetic::div_mod::lemma_div_is_ordered(sum, k * hi, k);
    assert(k * hi == hi * k) by (nonlinear_arith);
    vstd::arithmetic::div_mod::lemma_div_by_multiple(hi, k);
}

/// Moving-average smoother over a bounded history of length `M`.
pub struct EdgeFilter {
    m: usize,
    buf: Vec<i64>,
}

impl EdgeFilter {
    /// The configured history length M.
    pub closed spec fn m(&self) -> int {
        self.m as int
    }

    /// The values currently held, oldest first: the last `min(inputs, M)`
    /// inputs.
    pub closed spec fn window(&self) -> Seq<int> {
        vals(self.buf@)
    }

    /// Internal invariant: a positive, bounded history length, never more
    /// values than it allows, each within `VAL_LIMIT`.
    pub closed spec fn wf(&self) -> bool {
        &&& 1 <= self.m <= MAX_HISTORY
        &&& self.buf@.len() <= self.m
        &&& forall|j: int|
            0 <= j < self.buf@.len() ==> -VAL_LIMIT <= #[trigger] self.buf@[j] <= VAL_LIMIT
    }

    /// What well-formedness guarantees about the visible state: callers
    /// cannot unfold `wf` itself.
    pub proof fn lemma_wf_facts(&self)
        requires
            self.wf(),
        ensures
            1 <= self.m() <= MAX_HISTORY as int,
            self.window().len() <= self.m(),
    {
    }

    /// Creates a smoother with history length `m`, rejecting zero and
    /// over-large lengths before any value flows.
    pub fn new(m: usize) -> (r: Result<EdgeFilter, ConfigError>)
        ensures
            ({
                match r {
                    Ok(f) => {
                        &&& 1 <= m <= MAX_HISTORY
                        &&& f.wf()
                        &&& f.m() == m
                        &&& f.window() == Seq::<int>::empty()
                    },
                    Err(e) => {
                        &&& !(1 <= m <= MAX_HISTORY)
                        &&& e == (if m == 0 {
                            ConfigError::ZeroHistory
                        } else {
                            ConfigError::HistoryTooLarge
                        })
                    },
                }
            }),
    {
        if m == 0 {
            Err(ConfigError::ZeroHistory)
        } else if m > MAX_HISTORY {
            Err(ConfigError::HistoryTooLarge)
        } else {
            let f = EdgeFilter { m, buf: Vec::new() };
            assert(f.window() =~= Seq::<int>::empty());
            Ok(f)
        }
    }

    /// Pushes one value into the history: the window grows until it holds
    /// `M` values, then the oldest value leaves as each new one enters.
    pub fn input(&mut self, v: i64)
        requires
            old(self).wf(),
            -VAL_LIMIT <= v <= VAL_LIMIT,
        ensures
            final(self).wf(),
            final(self).m() == old(self).m(),
            final(self).window() == (if old(self).window().len() < old(self).m() {
                old(self).window().push(v as int)
            } else {
                old(self).window().remove(0).push(v as int)
            }),
    {
        if self.buf.len() == self.m {
            let ghost w0 = self.buf@;
            self.buf.remove(0);
            assert(vals(self.buf@) =~= vals(w0).remove(0));
        }
        let ghost w1 = self.buf@;
        self.buf.push(v);
        assert(vals(self.buf@) =~= vals(w1).push(v as int));
    }

    /// The current smoothed estimate: the truncating average of the held
    /// values, or zero before the first input.
    pub fn output(&self) -> (r: i64)
        requires
            self.wf(),
        ensures
            r == (if self.window().len() == 0 {
                0int
            } else {
                div_trunc(sum_prefix(self.window(), self.window().len() as int),
                    self.window().len() as int)
            }),
            -VAL_LIMIT <= r <= VAL_LIMIT,
    {
        let len = self.buf.len();
        if len == 0 {
            return 0;
        }
        let mut acc: i64 = 0;
        let mut i: usize = 0;
        while i < len
            invariant
                len == self.buf@.len(),
                self.wf(),
                i <= len,
                acc == sum_prefix(vals(self.buf@), i as int),
                -(i as int) * VAL_LIMIT <= acc <= (i as int) * VAL_LIMIT,
            decreases len - i,
        {
            proof {
                lemma_sum_step(acc as int, self.buf@[i as int] as int, i as int);
                assert(vals(self.buf@)[i as int] == self.buf@[i as int] as int);
            }
            acc = acc + self.buf[i];
            i = i + 1;
        }
        proof {
            lemma_sum_bounds(vals(self.buf@), -(VAL_LIMIT as int), VAL_LIMIT as int, len as int);
            lemma_avg_div_bound(acc as int, len as int);
        }
        if acc >= 0 {
            ((acc as u64) / (len as u64)) as i64
        } else {
            -(((-acc) as u64 / (len as u64)) as i64)
        }
    }
}

/// Adding one bounded value extends the running-sum bound by one step.
proof fn lemma_sum_step(acc: int, v: int, i: int)
    requires
        i >= 0,
        -i * (VAL_LIMIT as int) <= acc <= i * (VAL_LIMIT as int),
        -(VAL_LIMIT as int) <= v <= VAL_LIMIT as int,
    ensures
        -(i + 1) * (VAL_LIMIT as int) <= acc + v <= (i + 1) * (VAL_LIMIT as int),
{
    assert((i + 1) * (VAL_LIMIT as int) == i * (VAL_LIMIT as int) + VAL_LIMIT) by (nonlinear_arith);
    assert(-(i + 1) * (VAL_LIMIT as int) == -i * (VAL_LIMIT as int) - VAL_LIMIT)
        by (nonlinear_arith);
}

/// The truncating average of a bounded sum keeps the bound.
proof fn lemma_avg_div_bound(acc: int, len: int)
    requires
        len >= 1,
        -len * (VAL_LIMIT as int) <= acc <= len * (VAL_LIMIT as int),
    ensures
        -(VAL_LIMIT as int) <= div_trunc(acc, len) <= VAL_LIMIT as int,
{
    let v = VAL_LIMIT as int;
    assert(len * v == v * len) by (nonlinear_arith);
    vstd::arithmetic::div_mod::lemma_div_by_multiple(v, len);
    if acc >= 0 {
        vstd::arithmetic::div_mod::lemma_div_is_ordered(0, acc, len);
        vstd::arithmetic::div_mod::lemma_div_is_ordered(acc, len * v, len);
    } else {
        vstd::arithmetic::div_mod::lemma_div_is_ordered(0, -acc, len);
        vstd::arithmetic::div_mod::lemma_div_is_ordered(-acc, len * v, len);
    }
}

} // verus!
