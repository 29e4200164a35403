//! Decoding raw capture bytes into fixed-point I/Q samples.
//!
//! Each capture byte is an unsigned 8-bit value that stands for the signed
//! two's-complement sample `signed(b) / 128`. In the crate's fixed-point
//! representation (unit = 1/32768) that is exactly `signed(b) * 256`, so
//! decoding is exact: no lookup value is ever rounded.

use vstd::prelude::*;

verus! {

/// The fixed-point unit: an integer sample value `v` stands for `v / SCALE`.
pub const SCALE: i32 = 32768;

/// The signed two's-complement reading of a capture byte.
pub open spec fn signed_val(b: u8) -> int {
    if b < 128 {
        b as int
    } else {
        b as int - 256
    }
}

/// The fixed-point value a capture byte decodes to: `signed(b) / 128`
/// expressed in units of `1 / SCALE`, which is exactly `signed(b) * 256`.
pub open spec fn byte_val(b: u8) -> int {
    signed_val(b) * 256
}

/// One complex baseband sample: in-phase and quadrature components in
/// fixed point. Decoded components lie in `[-SCALE, SCALE - 256]`, i.e.
/// `[-1.0, 1.0)`; the filters accept the closed range `[-SCALE, SCALE]`.
#[derive(Clone, Copy, PartialEq, Eq, Structural, Debug)]
pub struct IqSample {
    pub i: i32,
    pub q: i32,
}

impl View for IqSample {
    type V = (int, int);

    open spec fn view(&self) -> (int, int) {
        (self.i as int, self.q as int)
    }
}

impl IqSample {
    /// Both components lie within one fixed-point unit of magnitude.
    pub open spec fn in_range(self) -> bool {
        -SCALE <= self.i <= SCALE && -SCALE <= self.q <= SCALE
    }
}

/// The sample sequence a byte buffer decodes to: bytes are consumed in
/// (i, q) pairs, in order, and a trailing unpaired byte is dropped.
pub open spec fn decoded(bytes: Seq<u8>) -> Seq<(int, int)> {
    Seq::new((bytes.len() / 2) as nat, |k: int| (byte_val(bytes[2 * k]), byte_val(bytes[2 * k + 1])))
}

/// Decodes one capture byte exactly.
pub fn decode_byte(b: u8) -> (v: i32)
    ensures
        v == byte_val(b),
        -SCALE <= v <= SCALE - 256,
{
    if b < 128 {
        (b as i32) * 256
    } else {
        ((b as i32) - 256) * 256
    }
}

/// Pull-based decoder over an owned byte buffer: each `next` call consumes
/// one (i, q) byte pair, and the stream ends when fewer than two bytes
/// remain, silently dropping a trailing unpaired byte.
pub struct IqConverter {
    bytes: Vec<u8>,
    pos: usize,
}

impl IqConverter {
    /// How many samples have already been produced.
    pub closed spec fn produced(&self) -> int {
        self.pos as int / 2
    }

    /// The full buffer the converter was created over.
    pub closed spec fn source(&self) -> Seq<u8> {
        self.bytes@
    }

    /// The cursor sits on a pair boundary inside the buffer.
    pub closed spec fn wf(&self) -> bool {
        self.pos % 2 == 0 && self.pos <= self.bytes.len() + 1
    }

    pub fn new(bytes: Vec<u8>) -> (r: IqConverter)
        ensures
            r.wf(),
            r.source() == bytes@,
            r.produced() == 0,
    {
        IqConverter { bytes, pos: 0 }
    }

    /// Produces the next decoded sample, or `None` at the end of the
    /// buffer. In total exactly `floor(len / 2)` samples are produced.
    pub fn next(&mut self) -> (r: Option<IqSample>)
        requires
            old(self).wf(),
        ensures
            final(self).wf(),
            final(self).source() == old(self).source(),
            if old(self).produced() < old(self).source().len() / 2 {
                &&& r matches Some(s)
                &&& s@ == decoded(old(self).source())[old(self).produced()]
                &&& s.in_range()
                &&& final(self).produced() == old(self).produced() + 1
            } else {
                r is None && final(self).produced() == old(self).produced()
            },
    {
        if self.pos < self.bytes.len() && self.pos + 1 < self.bytes.len() {
            let i = decode_byte(self.bytes[self.pos]);
            let q = decode_byte(self.bytes[self.pos + 1]);
            self.pos = self.pos + 2;
            Some(IqSample { i, q })
        } else {
            None
        }
    }
}

/// Decodes a whole capture buffer at once: exactly `floor(len / 2)`
/// samples, pairing bytes in order and dropping a trailing unpaired byte.
pub fn decode_all(bytes: &Vec<u8>) -> (r: Vec<IqSample>)
    ensures
        r@.len() == bytes@.len() / 2,
        forall|k: int| 0 <= k < r@.len() ==> r@[k]@ == decoded(bytes@)[k],
        forall|k: int| 0 <= k < r@.len() ==> r@[k].in_range(),
{
    let mut out: Vec<IqSample> = Vec::new();
    let mut conv = IqConverter::new(bytes.clone());
    loop
        invariant
            conv.wf(),
            conv.source() == bytes@,
            0 <= conv.produced() <= bytes@.len() / 2,
            out@.len() == conv.produced(),
            forall|k: int| 0 <= k < out@.len() ==> out@[k]@ == decoded(bytes@)[k],
            forall|k: int| 0 <= k < out@.len() ==> out@[k].in_range(),
        decreases bytes@.len() / 2 - conv.produced(),
    {
        match conv.next() {
            Some(s) => out.push(s),
            None => {
                return out;
            },
        }
    }
}

} // verus!
