//! Bit-exact pass-through encoding of decoded samples.
//!
//! The pass-through output writes each decoded component as a 32-bit
//! binary floating-point number. Every decoded value is `k / 128` for an
//! integer `k` in `[-128, 127]`, and each such value has one exact
//! single-precision representation, so its bit pattern is a pure function
//! of `k` and is computed here in integer arithmetic: sign bit, then the
//! biased exponent `127 + ilog2(|k|) - 7`, then the 23-bit fraction. The
//! caller only assembles the four bytes into its output stream.

use crate::decode::signed_val;
use vstd::arithmetic::power2::{
    lemma2_to64, lemma_pow2_adds, lemma_pow2_pos, lemma_pow2_strictly_increases,
    lemma_pow2_unfold, pow2,
};
use vstd::prelude::*;

verus! {

/// The position of the highest set bit: `floor(log2(a))` for `a >= 1`.
pub open spec fn ilog2(a: int) -> int
    decreases a,
{
    if a <= 1 {
        0
    } else {
        1 + ilog2(a / 2)
    }
}

/// The single-precision bit pattern of the value `k / 128`, for integer
/// `k` in `[-128, 127]`: zero encodes as all-zero bits; otherwise the
/// sign bit, the biased exponent `127 + ilog2(|k|) - 7`, and the 23-bit
/// fraction of `|k|` with its leading bit dropped.
pub open spec fn ieee_single_bits(k: int) -> int
    recommends
        -128 <= k <= 127,
{
    if k == 0 {
        0
    } else {
        let sign: int = if k < 0 {
            0x80000000
        } else {
            0
        };
        let a: int = if k < 0 {
            -k
        } else {
            k
        };
        let h = ilog2(a);
        sign + (120 + h) * 0x800000 + (a * (0x800000int / pow2(h as nat) as int) - 0x800000)
    }
}

/// `ilog2` is what the power-of-two bracketing says it is.
proof fn lemma_ilog2_bracket(a: int, h: nat)
    requires
        pow2(h) <= a < pow2(h + 1),
    ensures
        ilog2(a) == h,
    decreases h,
{
    lemma_pow2_pos(h);
    if h == 0 {
        assert(pow2(0) == 1 && pow2(1) == 2) by {
            lemma2_to64();
        }
    } else {
        lemma_pow2_unfold(h);
        lemma_pow2_unfold(h + 1);
        assert(a >= 2);
        // Halving moves the bracket down one power.
        assert(pow2((h - 1) as nat) <= a / 2 < pow2(h)) by {
            lemma_pow2_pos((h - 1) as nat);
            let x = pow2((h - 1) as nat) as int;
            assert(pow2(h) == 2 * x);
            assert((x * 2) / 2 == x) by {
                vstd::arithmetic::div_mod::lemma_div_by_multiple(x, 2);
            }
            assert(2 * x == x * 2);
            vstd::arithmetic::div_mod::lemma_div_is_ordered(x * 2, a, 2);
            let y = pow2(h) as int;
            assert(a <= 2 * y - 1);
            assert((2 * y - 1) / 2 == y - 1) by {
                vstd::arithmetic::div_mod::lemma_fundamental_div_mod_converse_div(
                    2 * y - 1, 2, y - 1, 1);
            }
            vstd::arithmetic::div_mod::lemma_div_is_ordered(a, 2 * y - 1, 2);
        }
        lemma_ilog2_bracket(a / 2, (h - 1) as nat);
    }
}

/// The single-precision bit pattern of the sample value a capture byte
/// decodes to, computed exactly in integer arithmetic.
pub fn byte_to_ieee_bits(b: u8) -> (r: u32)
    ensures
        r as int == ieee_single_bits(signed_val(b)),
{
    let k: i32 = if b < 128 {
        b as i32
    } else {
        (b as i32) - 256
    };
    assert(k == signed_val(b));
    if k == 0 {
        return 0;
    }
    let sign: u32 = if k < 0 {
        0x80000000
    } else {
        0
    };
    let a: u32 = if k < 0 {
        (-k) as u32
    } else {
        k as u32
    };
    assert(1 <= a <= 128);
    let mut h: u32 = 0;
    let mut p: u32 = 1;
    proof {
        lemma2_to64();
    }
    while p * 2 <= a
        invariant
            1 <= a <= 128,
            p == pow2(h as nat),
            p <= a,
            h <= 7,
        decreases a - p,
    {
        proof {
            lemma2_to64();
            lemma_pow2_unfold(h as nat + 1);
            if h as nat + 1 > 7 {
                lemma_pow2_strictly_increases(7, h as nat + 1);
            }
        }
        p = p * 2;
        h = h + 1;
    }
    proof {
        lemma_pow2_unfold(h as nat + 1);
        lemma_ilog2_bracket(a as int, h as nat);
        lemma2_to64();
        lemma_pow2_adds(h as nat, (23 - h) as nat);
        let sm = pow2((23 - h) as nat) as int;
        assert(0x800000 == (p as int) * sm);
        assert((sm * p) / (p as int) == sm) by {
            vstd::arithmetic::div_mod::lemma_div_by_multiple(sm, p as int);
        }
        assert(sm * p == (p as int) * sm) by (nonlinear_arith);
        assert(0x800000int / (p as int) == sm);
    }
    let scale_m: u32 = 0x800000 / p;
    proof {
        assert(0x800000 <= (a as int) * (scale_m as int) < 0x1000000) by (nonlinear_arith)
            requires
                (p as int) * (scale_m as int) == 0x800000,
                p <= a,
                (a as int) < 2 * (p as int),
                scale_m >= 0,
        ;
    }
    let mantissa: u32 = a * scale_m - 0x800000;
    sign + (120 + h) * 0x800000 + mantissa
}

/// The four bytes of a 32-bit pattern in little-endian order.
pub fn u32_le_bytes(bits: u32) -> (r: Vec<u8>)
    ensures
        r@.len() == 4,
        r@[0] as int == (bits as int) % 256,
        r@[1] as int == ((bits as int) / 0x100) % 256,
        r@[2] as int == ((bits as int) / 0x10000) % 256,
        r@[3] as int == ((bits as int) / 0x1000000) % 256,
{
    let mut out: Vec<u8> = Vec::new();
    out.push((bits % 256) as u8);
    out.push(((bits / 0x100) % 256) as u8);
    out.push(((bits / 0x10000) % 256) as u8);
    out.push(((bits / 0x1000000) % 256) as u8);
    out
}

/// The four bytes of a 32-bit pattern in big-endian order.
pub fn u32_be_bytes(bits: u32) -> (r: Vec<u8>)
    ensures
        r@.len() == 4,
        r@[3] as int == (bits as int) % 256,
        r@[2] as int == ((bits as int) / 0x100) % 256,
        r@[1] as int == ((bits as int) / 0x10000) % 256,
        r@[0] as int == ((bits as int) / 0x1000000) % 256,
{
    let mut out: Vec<u8> = Vec::new();
    out.push(((bits / 0x1000000) % 256) as u8);
    out.push(((bits / 0x10000) % 256) as u8);
    out.push(((bits / 0x100) % 256) as u8);
    out.push((bits % 256) as u8);
    out
}

/// The bit patterns of a whole capture's pass-through output: bytes are
/// consumed in (i, q) pairs, in order, a trailing unpaired byte is
/// dropped, and each byte becomes the single-precision pattern of its
/// decoded value.
pub fn passthrough_bits(bytes: &Vec<u8>) -> (r: Vec<u32>)
    ensures
        r@.len() == 2 * (bytes@.len() / 2),
        forall|j: int|
            0 <= j < r@.len() ==> (#[trigger] r@[j]) as int == ieee_single_bits(
                signed_val(bytes@[j]),
            ),
{
    proof {
        vstd::arithmetic::div_mod::lemma_fundamental_div_mod(bytes@.len() as int, 2);
        vstd::arithmetic::div_mod::lemma_mod_bound(bytes@.len() as int, 2);
    }
    let end: usize = (bytes.len() / 2) * 2;
    let mut out: Vec<u32> = Vec::new();
    let mut i: usize = 0;
    while i < end
        invariant
            end == 2 * (bytes@.len() / 2),
            end <= bytes@.len(),
            i <= end,
            out@.len() == i,
            forall|j: int|
                0 <= j < i ==> (#[trigger] out@[j]) as int == ieee_single_bits(
                    signed_val(bytes@[j]),
                ),
        decreases end - i,
    {
        let bits = byte_to_ieee_bits(bytes[i]);
        out.push(bits);
        i = i + 1;
    }
    out
}

} // verus!
