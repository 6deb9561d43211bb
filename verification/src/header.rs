//! The fixed 12-byte message header: identifier, packed flags word, and the
//! four section counts, all big-endian.

use vstd::prelude::*;
use crate::cursor::{
    Cursor, spec_read_u16, spec_read_u8, spec_u16_bytes, lemma_read_u16_of_bytes, u16_to_bytes,
};
use crate::errors::DecodeError;
use crate::flags::{
    DnsQueryHeaderFlags, spec_flags_bytes, spec_flags_byte_1, spec_flags_byte_2,
    spec_flags_of_bytes, spec_flags_wf, lemma_flags_round_trip,
};

verus! {

/// The message header. The counts state the exact number of entries in the
/// corresponding message sections.
#[derive(Clone, Copy, Debug, PartialEq, Eq, Structural)]
pub struct DnsQueryHeader {
    pub id: u16,
    pub flags: DnsQueryHeaderFlags,
    pub qd_count: u16,
    pub an_count: u16,
    pub ns_count: u16,
    pub ar_count: u16,
}

/// A header is well formed when its flags word is.
pub open spec fn spec_header_wf(h: DnsQueryHeader) -> bool {
    spec_flags_wf(h.flags)
}

/// The 12 wire bytes of a header.
pub open spec fn spec_header_bytes(h: DnsQueryHeader) -> Seq<u8> {
    spec_u16_bytes(h.id) + spec_flags_bytes(h.flags) + spec_u16_bytes(h.qd_count) + spec_u16_bytes(
        h.an_count,
    ) + spec_u16_bytes(h.ns_count) + spec_u16_bytes(h.ar_count)
}

/// A header read: identifier, the two flag bytes, then the four counts.
pub open spec fn spec_decode_header(b: Seq<u8>, pos: int) -> Result<
    (DnsQueryHeader, int),
    DecodeError,
> {
    match spec_read_u16(b, pos) {
        Ok((id, p1)) => match spec_read_u8(b, p1) {
            Ok((byte_1, p2)) => match spec_read_u8(b, p2) {
                Ok((byte_2, p3)) => match spec_read_u16(b, p3) {
                    Ok((qd_count, p4)) => match spec_read_u16(b, p4) {
                        Ok((an_count, p5)) => match spec_read_u16(b, p5) {
                            Ok((ns_count, p6)) => match spec_read_u16(b, p6) {
                                Ok((ar_count, p7)) => Ok(
                                    (
                                        DnsQueryHeader {
                                            id,
                                            flags: spec_flags_of_bytes(byte_1, byte_2),
                                            qd_count,
                                            an_count,
                                            ns_count,
                                            ar_count,
                                        },
                                        p7,
                                    ),
                                ),
                                Err(e) => Err(e),
                            },
                            Err(e) => Err(e),
                        },
                        Err(e) => Err(e),
                    },
                    Err(e) => Err(e),
                },
                Err(e) => Err(e),
            },
            Err(e) => Err(e),
        },
        Err(e) => Err(e),
    }
}

impl DnsQueryHeader {
    /// Read the 12 header bytes at the cursor. Fails exactly when fewer than
    /// 12 bytes remain; the decoded flags word is well formed.
    pub fn decode(bytes: &[u8], cursor: &mut Cursor) -> (r: Result<Self, DecodeError>)
        ensures
            spec_decode_header(bytes@, old(cursor).pos as int) == (match r {
                Ok(h) => Ok::<(DnsQueryHeader, int), DecodeError>((h, final(cursor).pos as int)),
                Err(e) => Err::<(DnsQueryHeader, int), DecodeError>(e),
            }),
            r matches Ok(h) ==> spec_header_wf(h),
    {
        let id = match cursor.read_u16(bytes) {
            Ok(v) => v,
            Err(e) => {
                return Err(e);
            },
        };
        let byte_1 = match cursor.read_u8(bytes) {
            Ok(v) => v,
            Err(e) => {
                return Err(e);
            },
        };
        let byte_2 = match cursor.read_u8(bytes) {
            Ok(v) => v,
            Err(e) => {
                return Err(e);
            },
        };
        let flags = DnsQueryHeaderFlags::decode(byte_1, byte_2);
        let qd_count = match cursor.read_u16(bytes) {
            Ok(v) => v,
            Err(e) => {
                return Err(e);
            },
        };
        let an_count = match cursor.read_u16(bytes) {
            Ok(v) => v,
            Err(e) => {
                return Err(e);
            },
        };
        let ns_count = match cursor.read_u16(bytes) {
            Ok(v) => v,
            Err(e) => {
                return Err(e);
            },
        };
        let ar_count = match cursor.read_u16(bytes) {
            Ok(v) => v,
            Err(e) => {
                return Err(e);
            },
        };
        Ok(DnsQueryHeader { id, flags, qd_count, an_count, ns_count, ar_count })
    }

    /// The 12 wire bytes of this header.
    pub fn encode(&self) -> (r: [u8; 12])
        ensures
            r@ == spec_header_bytes(*self),
    {
        let id = u16_to_bytes(self.id);
        let fl = self.flags.encode();
        let qd = u16_to_bytes(self.qd_count);
        let an = u16_to_bytes(self.an_count);
        let ns = u16_to_bytes(self.ns_count);
        let ar = u16_to_bytes(self.ar_count);
        let r = [
            id[0],
            id[1],
            fl[0],
            fl[1],
            qd[0],
            qd[1],
            an[0],
            an[1],
            ns[0],
            ns[1],
            ar[0],
            ar[1],
        ];
        proof {
            assert(r@ =~= spec_header_bytes(*self));
        }
        r
    }
}

/// A header read at a window holding the wire bytes of a well-formed header
/// `h` yields `h` and stops right after the window.
pub proof fn lemma_decode_header_of_bytes(b: Seq<u8>, pos: int, h: DnsQueryHeader)
    requires
        spec_header_wf(h),
        0 <= pos,
        pos + 12 <= b.len(),
        b.subrange(pos, pos + 12) == spec_header_bytes(h),
    ensures
        spec_decode_header(b, pos) == Ok::<(DnsQueryHeader, int), DecodeError>((h, pos + 12)),
{
    let w = b.subrange(pos, pos + 12);
    assert forall|i: int| 0 <= i < 12 implies b[pos + i] == spec_header_bytes(h)[i] by {
        assert(w[i] == b[pos + i]);
    }
    let s1 = spec_u16_bytes(h.id) + spec_flags_bytes(h.flags);
    let s2 = s1 + spec_u16_bytes(h.qd_count);
    let s3 = s2 + spec_u16_bytes(h.an_count);
    let s4 = s3 + spec_u16_bytes(h.ns_count);
    let s5 = s4 + spec_u16_bytes(h.ar_count);
    assert(spec_header_bytes(h) == s5);
    assert(s1.len() == 4 && s2.len() == 6 && s3.len() == 8 && s4.len() == 10 && s5.len() == 12);
    assert(s5[0] == spec_u16_bytes(h.id)[0] && s5[1] == spec_u16_bytes(h.id)[1]);
    assert(s5[2] == spec_flags_bytes(h.flags)[0] && s5[3] == spec_flags_bytes(h.flags)[1]);
    assert(s5[4] == spec_u16_bytes(h.qd_count)[0] && s5[5] == spec_u16_bytes(h.qd_count)[1]);
    assert(s5[6] == spec_u16_bytes(h.an_count)[0] && s5[7] == spec_u16_bytes(h.an_count)[1]);
    assert(s5[8] == spec_u16_bytes(h.ns_count)[0] && s5[9] == spec_u16_bytes(h.ns_count)[1]);
    assert(s5[10] == spec_u16_bytes(h.ar_count)[0] && s5[11] == spec_u16_bytes(h.ar_count)[1]);
    assert(b.subrange(pos, pos + 2) =~= spec_u16_bytes(h.id));
    lemma_read_u16_of_bytes(b, pos, h.id);
    assert(b[pos + 2] == spec_flags_byte_1(h.flags));
    assert(b[pos + 3] == spec_flags_byte_2(h.flags));
    lemma_flags_round_trip(h.flags);
    assert(b.subrange(pos + 4, pos + 6) =~= spec_u16_bytes(h.qd_count));
    lemma_read_u16_of_bytes(b, pos + 4, h.qd_count);
    assert(b.subrange(pos + 6, pos + 8) =~= spec_u16_bytes(h.an_count));
    lemma_read_u16_of_bytes(b, pos + 6, h.an_count);
    assert(b.subrange(pos + 8, pos + 10) =~= spec_u16_bytes(h.ns_count));
    lemma_read_u16_of_bytes(b, pos + 8, h.ns_count);
    assert(b.subrange(pos + 10, pos + 12) =~= spec_u16_bytes(h.ar_count));
    lemma_read_u16_of_bytes(b, pos + 10, h.ar_count);
}

/// A header read fails with the end-of-input error, whatever the bytes hold,
/// exactly when fewer than 12 bytes remain.
pub proof fn lemma_decode_header_short(b: Seq<u8>, pos: int)
    requires
        0 <= pos,
        b.len() < pos + 12,
    ensures
        spec_decode_header(b, pos) == Err::<(DnsQueryHeader, int), DecodeError>(
            DecodeError::UnexpectedEndOfInput,
        ),
{
}

} // verus!
