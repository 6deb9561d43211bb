//! Sequential big-endian extraction of 8-, 16- and 32-bit values from a byte
//! slice, tracking the read position.
//!
//! On failure the cursor is left at an unspecified position: a failed read
//! aborts the whole decode, so no caller resumes from it.

use vstd::prelude::*;
use vstd::slice::slice_subrange;
use crate::errors::DecodeError;

verus! {

/// Big-endian wire bytes of a 16-bit value.
pub open spec fn spec_u16_bytes(v: u16) -> Seq<u8> {
    seq![(v / 256) as u8, (v % 256) as u8]
}

/// Big-endian wire bytes of a 32-bit value.
pub open spec fn spec_u32_bytes(v: u32) -> Seq<u8> {
    spec_u16_bytes((v / 0x10000) as u16) + spec_u16_bytes((v % 0x10000) as u16)
}

/// One octet read at `pos`: the octet and the next position, or failure when
/// the input ends first.
pub open spec fn spec_read_u8(b: Seq<u8>, pos: int) -> Result<(u8, int), DecodeError> {
    if 0 <= pos && pos + 1 <= b.len() {
        Ok((b[pos], pos + 1))
    } else {
        Err(DecodeError::UnexpectedEndOfInput)
    }
}

/// A big-endian 16-bit read: two octet reads, most significant first.
pub open spec fn spec_read_u16(b: Seq<u8>, pos: int) -> Result<(u16, int), DecodeError> {
    match spec_read_u8(b, pos) {
        Ok((hi, p1)) => match spec_read_u8(b, p1) {
            Ok((lo, p2)) => Ok(((hi as int * 256 + lo as int) as u16, p2)),
            Err(e) => Err(e),
        },
        Err(e) => Err(e),
    }
}

/// A big-endian 32-bit read: two 16-bit reads, most significant first.
pub open spec fn spec_read_u32(b: Seq<u8>, pos: int) -> Result<(u32, int), DecodeError> {
    match spec_read_u16(b, pos) {
        Ok((hi, p1)) => match spec_read_u16(b, p1) {
            Ok((lo, p2)) => Ok(((hi as int * 0x10000 + lo as int) as u32, p2)),
            Err(e) => Err(e),
        },
        Err(e) => Err(e),
    }
}

/// Read position into a byte slice.
pub struct Cursor {
    pub pos: usize,
}

impl Cursor {
    /// A cursor at the start of the input.
    pub fn new() -> (c: Self)
        ensures
            c.pos == 0,
    {
        Cursor { pos: 0 }
    }

    /// The current read position.
    pub fn position(&self) -> (p: usize)
        ensures
            p == self.pos,
    {
        self.pos
    }

    /// The bytes not yet consumed, for position-based re-entry.
    pub fn remaining_slice<'a>(&self, bytes: &'a [u8]) -> (r: &'a [u8])
        requires
            self.pos <= bytes@.len(),
        ensures
            r@ == bytes@.subrange(self.pos as int, bytes@.len() as int),
    {
        slice_subrange(bytes, self.pos, bytes.len())
    }

    /// Consume one octet.
    pub fn read_u8(&mut self, bytes: &[u8]) -> (r: Result<u8, DecodeError>)
        ensures
            spec_read_u8(bytes@, old(self).pos as int) == (match r {
                Ok(v) => Ok::<(u8, int), DecodeError>((v, final(self).pos as int)),
                Err(e) => Err::<(u8, int), DecodeError>(e),
            }),
    {
        if self.pos < bytes.len() {
            let v = bytes[self.pos];
            self.pos = self.pos + 1;
            Ok(v)
        } else {
            Err(DecodeError::UnexpectedEndOfInput)
        }
    }

    /// Consume two octets as a big-endian 16-bit value.
    pub fn read_u16(&mut self, bytes: &[u8]) -> (r: Result<u16, DecodeError>)
        ensures
            spec_read_u16(bytes@, old(self).pos as int) == (match r {
                Ok(v) => Ok::<(u16, int), DecodeError>((v, final(self).pos as int)),
                Err(e) => Err::<(u16, int), DecodeError>(e),
            }),
    {
        let hi = match self.read_u8(bytes) {
            Ok(v) => v,
            Err(e) => {
                return Err(e);
            },
        };
        let lo = match self.read_u8(bytes) {
            Ok(v) => v,
            Err(e) => {
                return Err(e);
            },
        };
        Ok((hi as u16) * 256 + (lo as u16))
    }

    /// Consume four octets as a big-endian 32-bit value.
    pub fn read_u32(&mut self, bytes: &[u8]) -> (r: Result<u32, DecodeError>)
        ensures
            spec_read_u32(bytes@, old(self).pos as int) == (match r {
                Ok(v) => Ok::<(u32, int), DecodeError>((v, final(self).pos as int)),
                Err(e) => Err::<(u32, int), DecodeError>(e),
            }),
    {
        let hi = match self.read_u16(bytes) {
            Ok(v) => v,
            Err(e) => {
                return Err(e);
            },
        };
        let lo = match self.read_u16(bytes) {
            Ok(v) => v,
            Err(e) => {
                return Err(e);
            },
        };
        Ok((hi as u32) * 0x10000 + (lo as u32))
    }
}

/// The two big-endian wire bytes of a 16-bit value.
pub fn u16_to_bytes(v: u16) -> (r: [u8; 2])
    ensures
        r@ == spec_u16_bytes(v),
{
    proof {
        assert(v / 256 <= 255) by (nonlinear_arith);
    }
    let r = [(v / 256) as u8, (v % 256) as u8];
    proof {
        assert(r@ =~= spec_u16_bytes(v));
    }
    r
}

/// The four big-endian wire bytes of a 32-bit value.
pub fn u32_to_bytes(v: u32) -> (r: [u8; 4])
    ensures
        r@ == spec_u32_bytes(v),
{
    proof {
        assert(v / 0x10000 <= 0xffff) by (nonlinear_arith);
    }
    let hi = u16_to_bytes((v / 0x10000) as u16);
    let lo = u16_to_bytes((v % 0x10000) as u16);
    let r = [hi[0], hi[1], lo[0], lo[1]];
    proof {
        assert(r@ =~= spec_u32_bytes(v));
    }
    r
}

/// A 16-bit read at a window holding the wire bytes of `v` yields `v` and
/// stops right after the window.
pub proof fn lemma_read_u16_of_bytes(b: Seq<u8>, pos: int, v: u16)
    requires
        0 <= pos,
        pos + 2 <= b.len(),
        b.subrange(pos, pos + 2) == spec_u16_bytes(v),
    ensures
        spec_read_u16(b, pos) == Ok::<(u16, int), DecodeError>((v, pos + 2)),
{
    assert(b[pos] == spec_u16_bytes(v)[0]);
    assert(b[pos + 1] == spec_u16_bytes(v)[1]);
    assert(v / 256 <= 255 && v % 256 <= 255) by (nonlinear_arith);
    assert((v / 256) as int * 256 + (v % 256) as int == v) by (nonlinear_arith);
}

/// A 32-bit read at a window holding the wire bytes of `v` yields `v` and
/// stops right after the window.
pub proof fn lemma_read_u32_of_bytes(b: Seq<u8>, pos: int, v: u32)
    requires
        0 <= pos,
        pos + 4 <= b.len(),
        b.subrange(pos, pos + 4) == spec_u32_bytes(v),
    ensures
        spec_read_u32(b, pos) == Ok::<(u32, int), DecodeError>((v, pos + 4)),
{
    let hi = (v / 0x10000) as u16;
    let lo = (v % 0x10000) as u16;
    assert(v / 0x10000 <= 0xffff && v % 0x10000 <= 0xffff) by (nonlinear_arith);
    assert(b[pos] == b.subrange(pos, pos + 4)[0] && b[pos + 1] == b.subrange(pos, pos + 4)[1] && b[
        pos + 2] == b.subrange(pos, pos + 4)[2] && b[pos + 3] == b.subrange(pos, pos + 4)[3]);
    assert(spec_u32_bytes(v)[0] == spec_u16_bytes(hi)[0] && spec_u32_bytes(v)[1] == spec_u16_bytes(
        hi,
    )[1] && spec_u32_bytes(v)[2] == spec_u16_bytes(lo)[0] && spec_u32_bytes(v)[3]
        == spec_u16_bytes(lo)[1]);
    assert(b.subrange(pos, pos + 2) =~= spec_u16_bytes(hi));
    assert(b.subrange(pos + 2, pos + 4) =~= spec_u16_bytes(lo));
    lemma_read_u16_of_bytes(b, pos, hi);
    lemma_read_u16_of_bytes(b, pos + 2, lo);
    assert(hi as int * 0x10000 + lo as int == v) by (nonlinear_arith)
        requires
            hi == (v / 0x10000) as u16,
            lo == (v % 0x10000) as u16,
    ;
}

/// A window holding `x + y` splits into a window holding `x` and, right
/// after it, a window holding `y`.
pub proof fn lemma_window_split(b: Seq<u8>, pos: int, x: Seq<u8>, y: Seq<u8>)
    requires
        0 <= pos,
        pos + x.len() + y.len() <= b.len(),
        b.subrange(pos, pos + x.len() + y.len()) == x + y,
    ensures
        b.subrange(pos, pos + x.len()) == x,
        b.subrange(pos + x.len(), pos + x.len() + y.len()) == y,
{
    let w = b.subrange(pos, pos + x.len() + y.len());
    assert forall|m: int| 0 <= m < x.len() implies b.subrange(pos, pos + x.len())[m] == x[m] by {
        assert(w[m] == b[pos + m]);
        assert(b.subrange(pos, pos + x.len())[m] == b[pos + m]);
        assert((x + y)[m] == x[m]);
    }
    assert(b.subrange(pos, pos + x.len()) =~= x);
    assert forall|m: int| 0 <= m < y.len() implies b.subrange(
        pos + x.len(),
        pos + x.len() + y.len(),
    )[m] == y[m] by {
        assert(w[x.len() + m] == b[pos + (x.len() + m)]);
        assert(b.subrange(pos + x.len(), pos + x.len() + y.len())[m] == b[pos + x.len() + m]);
        assert((x + y)[x.len() + m] == y[m]);
    }
    assert(b.subrange(pos + x.len(), pos + x.len() + y.len()) =~= y);
}

/// A window holding a strict prefix of `x + y` either cuts `x` itself, or
/// holds `x` whole and cuts `y`.
pub proof fn lemma_window_split_partial(b: Seq<u8>, pos: int, x: Seq<u8>, y: Seq<u8>)
    requires
        0 <= pos <= b.len(),
        b.len() < pos + x.len() + y.len(),
        b.subrange(pos, b.len() as int) == (x + y).take(b.len() - pos),
    ensures
        b.len() < pos + x.len() ==> b.subrange(pos, b.len() as int) == x.take(b.len() - pos),
        b.len() >= pos + x.len() ==> b.subrange(pos, pos + x.len()) == x && b.subrange(
            pos + x.len(),
            b.len() as int,
        ) == y.take(b.len() - pos - x.len()),
{
    let w = b.subrange(pos, b.len() as int);
    assert forall|m: int| 0 <= m < b.len() - pos implies b[pos + m] == (x + y)[m] by {
        assert(w[m] == b[pos + m]);
        assert((x + y).take(b.len() - pos)[m] == (x + y)[m]);
    }
    if b.len() < pos + x.len() {
        assert forall|m: int| 0 <= m < b.len() - pos implies w[m] == x.take(b.len() - pos)[m] by {
            assert(w[m] == b[pos + m]);
            assert((x + y)[m] == x[m]);
        }
        assert(w =~= x.take(b.len() - pos));
    } else {
        assert forall|m: int| 0 <= m < x.len() implies b.subrange(pos, pos + x.len())[m]
            == x[m] by {
            assert(b.subrange(pos, pos + x.len())[m] == b[pos + m]);
            assert((x + y)[m] == x[m]);
        }
        assert(b.subrange(pos, pos + x.len()) =~= x);
        let w2 = b.subrange(pos + x.len(), b.len() as int);
        let yt = y.take(b.len() - pos - x.len());
        assert forall|m: int| 0 <= m < b.len() - pos - x.len() implies w2[m] == yt[m] by {
            assert(w2[m] == b[pos + x.len() + m]);
            assert(b[pos + (x.len() + m)] == (x + y)[x.len() + m]);
            assert((x + y)[x.len() + m] == y[m]);
            assert(yt[m] == y[m]);
        }
        assert(w2 =~= yt);
    }
}

} // verus!
