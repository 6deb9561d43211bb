//! The resource record codec: a name, type and class codes, a 32-bit time to
//! live, a 16-bit payload length, and the payload itself, whose shape is
//! selected by the class and type.
//!
//! For class IN and type A the payload is exactly four bytes, an IPv4
//! address. For class IN and type CNAME it is a domain name with its own
//! self-described length. Every other combination is carried as uninterpreted
//! bytes. After an interpreted payload is read, the byte count it consumed
//! must equal the declared length; a mismatch is a decode error, never
//! silently tolerated.

use vstd::prelude::*;
use crate::codes::{
    DnsQueryClass, DnsQueryType, lemma_class_round_trip, lemma_type_round_trip, spec_class_of,
    spec_class_value, spec_class_wf, spec_type_of, spec_type_value, spec_type_wf,
};
use crate::cursor::{
    Cursor, lemma_read_u16_of_bytes, lemma_read_u32_of_bytes, lemma_window_split,
    lemma_window_split_partial, spec_read_u16, spec_read_u32, spec_u16_bytes, spec_u32_bytes,
    u16_to_bytes, u32_to_bytes,
};
use crate::errors::{DecodeError, EncodeError};
use crate::name::{
    decode_name, encode_name, lemma_decode_name_bounds, lemma_decode_name_of_encoded,
    lemma_decode_name_of_encoded_trunc, spec_decode_name, spec_name_encode_result,
};

verus! {

/// The mathematical value of a record payload.
pub ghost enum RDataView {
    /// Four bytes read as an IPv4 address, for class IN, type A.
    Ipv4(u8, u8, u8, u8),
    /// A domain name, for class IN, type CNAME.
    Name(Seq<char>),
    /// Uninterpreted bytes, for every other class and type.
    Opaque(Seq<u8>),
}

/// The record payload.
#[derive(Debug)]
pub enum DnsQueryResourceRecordRDataType {
    /// Four bytes read as an IPv4 address, for class IN, type A.
    Ipv4(u8, u8, u8, u8),
    /// A domain name, for class IN, type CNAME.
    Name(String),
    /// Uninterpreted bytes, for every other class and type.
    Opaque(Vec<u8>),
}

impl View for DnsQueryResourceRecordRDataType {
    type V = RDataView;

    open spec fn view(&self) -> RDataView {
        match self {
            DnsQueryResourceRecordRDataType::Ipv4(a, b, c, d) => RDataView::Ipv4(*a, *b, *c, *d),
            DnsQueryResourceRecordRDataType::Name(s) => RDataView::Name(s@),
            DnsQueryResourceRecordRDataType::Opaque(v) => RDataView::Opaque(v@),
        }
    }
}

/// The mathematical value of a resource record.
pub ghost struct ResourceRecordView {
    pub name: Seq<char>,
    pub type_: DnsQueryType,
    pub class: DnsQueryClass,
    pub ttl: u32,
    pub rd_length: u16,
    pub r_data: RDataView,
}

/// One resource record of an answer, authority or additional section.
#[derive(Debug)]
pub struct DnsQueryResourceRecord {
    pub name: String,
    pub type_: DnsQueryType,
    pub class: DnsQueryClass,
    pub ttl: u32,
    pub rd_length: u16,
    pub r_data: DnsQueryResourceRecordRDataType,
}

impl View for DnsQueryResourceRecord {
    type V = ResourceRecordView;

    open spec fn view(&self) -> ResourceRecordView {
        ResourceRecordView {
            name: self.name@,
            type_: self.type_,
            class: self.class,
            ttl: self.ttl,
            rd_length: self.rd_length,
            r_data: self.r_data@,
        }
    }
}

/// A record fit for encoding: its codes are well formed, its payload variant
/// is the one its class and type select, and its declared payload length
/// matches the payload's wire size.
pub open spec fn spec_record_wf(r: ResourceRecordView) -> bool {
    &&& spec_type_wf(r.type_)
    &&& spec_class_wf(r.class)
    &&& ((r.class is In && r.type_ is A) <==> r.r_data is Ipv4)
    &&& ((r.class is In && r.type_ is CName) <==> r.r_data is Name)
    &&& (match r.r_data {
        RDataView::Ipv4(_a, _b, _c, _d) => r.rd_length == 4,
        RDataView::Name(nm) => spec_name_encode_result(nm) is Ok ==> r.rd_length
            == spec_name_encode_result(nm)->Ok_0.len(),
        RDataView::Opaque(bs) => r.rd_length == bs.len(),
    })
}

/// A payload read at `pos`, its shape selected by class and type, with the
/// declared length checked against the bytes the payload consumed.
pub open spec fn spec_decode_rdata(
    b: Seq<u8>,
    pos: int,
    class: DnsQueryClass,
    type_: DnsQueryType,
    rd_length: u16,
) -> Result<(RDataView, int), DecodeError> {
    if class is In && type_ is A {
        if 0 <= pos && pos + 4 <= b.len() {
            if rd_length != 4 {
                Err(DecodeError::RdataLengthMismatch)
            } else {
                Ok((RDataView::Ipv4(b[pos], b[pos + 1], b[pos + 2], b[pos + 3]), pos + 4))
            }
        } else {
            Err(DecodeError::UnexpectedEndOfInput)
        }
    } else if class is In && type_ is CName {
        match spec_decode_name(b, pos) {
            Ok((nm, end)) => {
                if end - pos != rd_length {
                    Err(DecodeError::RdataLengthMismatch)
                } else {
                    Ok((RDataView::Name(nm), end))
                }
            },
            Err(e) => Err(e),
        }
    } else {
        if 0 <= pos && pos + rd_length <= b.len() {
            Ok((RDataView::Opaque(b.subrange(pos, pos + rd_length)), pos + rd_length))
        } else {
            Err(DecodeError::UnexpectedEndOfInput)
        }
    }
}

/// A record read: name, type, class, time to live, declared payload length,
/// then the payload.
pub open spec fn spec_decode_record(b: Seq<u8>, pos: int) -> Result<
    (ResourceRecordView, int),
    DecodeError,
> {
    match spec_decode_name(b, pos) {
        Ok((name, p1)) => match spec_read_u16(b, p1) {
            Ok((tv, p2)) => match spec_read_u16(b, p2) {
                Ok((cv, p3)) => match spec_read_u32(b, p3) {
                    Ok((ttl, p4)) => match spec_read_u16(b, p4) {
                        Ok((rd_length, p5)) => match spec_decode_rdata(
                            b,
                            p5,
                            spec_class_of(cv),
                            spec_type_of(tv),
                            rd_length,
                        ) {
                            Ok((r_data, p6)) => Ok(
                                (
                                    ResourceRecordView {
                                        name,
                                        type_: spec_type_of(tv),
                                        class: spec_class_of(cv),
                                        ttl,
                                        rd_length,
                                        r_data,
                                    },
                                    p6,
                                ),
                            ),
                            Err(e) => Err(e),
                        },
                        Err(e) => Err(e),
                    },
                    Err(e) => Err(e),
                },
                Err(e) => Err(e),
            },
            Err(e) => Err(e),
        },
        Err(e) => Err(e),
    }
}

/// The wire bytes of a payload, or the error of an unencodable name.
pub open spec fn spec_encode_rdata(r: RDataView) -> Result<Seq<u8>, EncodeError> {
    match r {
        RDataView::Ipv4(a, b, c, d) => Ok(seq![a, b, c, d]),
        RDataView::Name(nm) => spec_name_encode_result(nm),
        RDataView::Opaque(bs) => Ok(bs),
    }
}

/// The wire bytes of a record: the encoded name, the two code words, the
/// time to live, the declared payload length, then the payload bytes.
pub open spec fn spec_encode_record(r: ResourceRecordView) -> Result<Seq<u8>, EncodeError> {
    match spec_name_encode_result(r.name) {
        Ok(nb) => match spec_encode_rdata(r.r_data) {
            Ok(db) => Ok(
                nb + spec_u16_bytes(spec_type_value(r.type_)) + spec_u16_bytes(
                    spec_class_value(r.class),
                ) + spec_u32_bytes(r.ttl) + spec_u16_bytes(r.rd_length) + db,
            ),
            Err(e) => Err(e),
        },
        Err(e) => Err(e),
    }
}

impl DnsQueryResourceRecord {
    /// Read a resource record at the cursor. The decoded codes are well
    /// formed, and an interpreted payload consumed exactly the declared
    /// number of bytes.
    pub fn decode(bytes: &[u8], cursor: &mut Cursor) -> (r: Result<Self, DecodeError>)
        ensures
            (match r {
                Ok(rec) => spec_decode_record(bytes@, old(cursor).pos as int) == Ok::<
                    (ResourceRecordView, int),
                    DecodeError,
                >((rec@, final(cursor).pos as int)) && spec_type_wf(rec@.type_) && spec_class_wf(
                    rec@.class,
                ),
                Err(e) => spec_decode_record(bytes@, old(cursor).pos as int) == Err::<
                    (ResourceRecordView, int),
                    DecodeError,
                >(e),
            }),
    {
        let name = match decode_name(bytes, cursor) {
            Ok(v) => v,
            Err(e) => {
                return Err(e);
            },
        };
        let tv = match cursor.read_u16(bytes) {
            Ok(v) => v,
            Err(e) => {
                return Err(e);
            },
        };
        let cv = match cursor.read_u16(bytes) {
            Ok(v) => v,
            Err(e) => {
                return Err(e);
            },
        };
        let ttl = match cursor.read_u32(bytes) {
            Ok(v) => v,
            Err(e) => {
                return Err(e);
            },
        };
        let rd_length = match cursor.read_u16(bytes) {
            Ok(v) => v,
            Err(e) => {
                return Err(e);
            },
        };
        let type_ = DnsQueryType::from_u16(tv);
        let class = DnsQueryClass::from_u16(cv);
        let r_data = match Self::decode_rdata(bytes, cursor, class, type_, rd_length) {
            Ok(v) => v,
            Err(e) => {
                return Err(e);
            },
        };
        Ok(DnsQueryResourceRecord { name, type_, class, ttl, rd_length, r_data })
    }

    /// Read the payload selected by `class` and `type_`, holding the bytes it
    /// consumes against the declared `rd_length`.
    fn decode_rdata(
        bytes: &[u8],
        cursor: &mut Cursor,
        class: DnsQueryClass,
        type_: DnsQueryType,
        rd_length: u16,
    ) -> (r: Result<DnsQueryResourceRecordRDataType, DecodeError>)
        ensures
            (match r {
                Ok(d) => spec_decode_rdata(bytes@, old(cursor).pos as int, class, type_, rd_length)
                    == Ok::<(RDataView, int), DecodeError>((d@, final(cursor).pos as int)),
                Err(e) => spec_decode_rdata(
                    bytes@,
                    old(cursor).pos as int,
                    class,
                    type_,
                    rd_length,
                ) == Err::<(RDataView, int), DecodeError>(e),
            }),
    {
        let is_in = matches!(class, DnsQueryClass::In);
        if is_in && matches!(type_, DnsQueryType::A) {
            if cursor.pos >= bytes.len() || bytes.len() - cursor.pos < 4 {
                return Err(DecodeError::UnexpectedEndOfInput);
            }
            let a = bytes[cursor.pos];
            let b = bytes[cursor.pos + 1];
            let c = bytes[cursor.pos + 2];
            let d = bytes[cursor.pos + 3];
            if rd_length != 4 {
                return Err(DecodeError::RdataLengthMismatch);
            }
            cursor.pos = cursor.pos + 4;
            Ok(DnsQueryResourceRecordRDataType::Ipv4(a, b, c, d))
        } else if is_in && matches!(type_, DnsQueryType::CName) {
            let start = cursor.position();
            let nm = match decode_name(bytes, cursor) {
                Ok(v) => v,
                Err(e) => {
                    return Err(e);
                },
            };
            proof {
                lemma_decode_name_bounds(bytes@, start as int);
            }
            let consumed = cursor.position() - start;
            if consumed != rd_length as usize {
                return Err(DecodeError::RdataLengthMismatch);
            }
            Ok(DnsQueryResourceRecordRDataType::Name(nm))
        } else {
            if cursor.pos > bytes.len() || bytes.len() - cursor.pos < rd_length as usize {
                return Err(DecodeError::UnexpectedEndOfInput);
            }
            let ghost start = cursor.pos as int;
            let mut v: Vec<u8> = Vec::new();
            let mut k: usize = 0;
            while k < rd_length as usize
                invariant
                    k <= rd_length as int,
                    start == cursor.pos as int,
                    start + rd_length as int <= bytes@.len(),
                    bytes@.len() <= usize::MAX,
                    v@ == bytes@.subrange(start, start + k as int),
                decreases rd_length as int - k,
            {
                v.push(bytes[cursor.pos + k]);
                k = k + 1;
                proof {
                    assert(v@ =~= bytes@.subrange(start, start + k as int));
                }
            }
            cursor.pos = cursor.pos + rd_length as usize;
            Ok(DnsQueryResourceRecordRDataType::Opaque(v))
        }
    }

    /// Append the wire bytes of this record to `out`. On a name error, `out`
    /// is unchanged.
    pub fn encode(&self, out: &mut Vec<u8>) -> (r: Result<(), EncodeError>)
        requires
            spec_record_wf(self@),
        ensures
            (match r {
                Ok(_) => spec_encode_record(self@) is Ok && final(out)@ == old(out)@
                    + spec_encode_record(self@)->Ok_0,
                Err(e) => spec_encode_record(self@) == Err::<Seq<u8>, EncodeError>(e)
                    && final(out)@ == old(out)@,
            }),
    {
        let mut tmp = match encode_name(self.name.as_str()) {
            Ok(v) => v,
            Err(e) => {
                return Err(e);
            },
        };
        let tb = u16_to_bytes(self.type_.to_u16());
        tmp.push(tb[0]);
        tmp.push(tb[1]);
        let cb = u16_to_bytes(self.class.to_u16());
        tmp.push(cb[0]);
        tmp.push(cb[1]);
        let lb = u32_to_bytes(self.ttl);
        tmp.push(lb[0]);
        tmp.push(lb[1]);
        tmp.push(lb[2]);
        tmp.push(lb[3]);
        let rb = u16_to_bytes(self.rd_length);
        tmp.push(rb[0]);
        tmp.push(rb[1]);
        match &self.r_data {
            DnsQueryResourceRecordRDataType::Ipv4(a, b, c, d) => {
                tmp.push(*a);
                tmp.push(*b);
                tmp.push(*c);
                tmp.push(*d);
            },
            DnsQueryResourceRecordRDataType::Name(nm) => {
                let mut nb = match encode_name(nm.as_str()) {
                    Ok(v) => v,
                    Err(e) => {
                        return Err(e);
                    },
                };
                tmp.append(&mut nb);
            },
            DnsQueryResourceRecordRDataType::Opaque(bs) => {
                let mut k: usize = 0;
                let ghost tmp_mid = tmp@;
                while k < bs.len()
                    invariant
                        k <= bs@.len(),
                        tmp@ == tmp_mid + bs@.subrange(0, k as int),
                    decreases bs@.len() - k,
                {
                    tmp.push(bs[k]);
                    k = k + 1;
                    proof {
                        assert(tmp@ =~= tmp_mid + bs@.subrange(0, k as int));
                    }
                }
                proof {
                    assert(bs@.subrange(0, bs@.len() as int) =~= bs@);
                }
            },
        }
        proof {
            assert(tmp@ =~= spec_encode_record(self@)->Ok_0);
        }
        out.append(&mut tmp);
        Ok(())
    }
}

/// A record read at a window holding the encoding of a well-formed record
/// `r` yields `r` and stops right after the window.
pub proof fn lemma_decode_record_of_encoded(b: Seq<u8>, pos: int, r: ResourceRecordView)
    requires
        spec_record_wf(r),
        spec_encode_record(r) is Ok,
        0 <= pos,
        pos + spec_encode_record(r)->Ok_0.len() <= b.len(),
        b.subrange(pos, pos + spec_encode_record(r)->Ok_0.len()) == spec_encode_record(r)->Ok_0,
    ensures
        spec_decode_record(b, pos) == Ok::<(ResourceRecordView, int), DecodeError>(
            (r, pos + spec_encode_record(r)->Ok_0.len()),
        ),
{
    let nb = spec_name_encode_result(r.name)->Ok_0;
    let tb = spec_u16_bytes(spec_type_value(r.type_));
    let cb = spec_u16_bytes(spec_class_value(r.class));
    let lb = spec_u32_bytes(r.ttl);
    let rb = spec_u16_bytes(r.rd_length);
    let db = spec_encode_rdata(r.r_data)->Ok_0;
    let enc = spec_encode_record(r)->Ok_0;
    assert(enc == nb + tb + cb + lb + rb + db);
    assert(tb.len() == 2 && cb.len() == 2 && lb.len() == 4 && rb.len() == 2);
    let p1 = pos + nb.len();
    lemma_window_split(b, pos, nb + tb + cb + lb + rb, db);
    lemma_window_split(b, pos, nb + tb + cb + lb, rb);
    lemma_window_split(b, pos, nb + tb + cb, lb);
    lemma_window_split(b, pos, nb + tb, cb);
    lemma_window_split(b, pos, nb, tb);
    lemma_decode_name_of_encoded(b, pos, r.name);
    lemma_read_u16_of_bytes(b, p1, spec_type_value(r.type_));
    lemma_read_u16_of_bytes(b, p1 + 2, spec_class_value(r.class));
    lemma_read_u32_of_bytes(b, p1 + 4, r.ttl);
    lemma_read_u16_of_bytes(b, p1 + 8, r.rd_length);
    lemma_type_round_trip(r.type_);
    lemma_class_round_trip(r.class);
    let p5 = p1 + 10;
    match r.r_data {
        RDataView::Ipv4(a2, b2, c2, d2) => {
            assert(db == seq![a2, b2, c2, d2]);
            let w = b.subrange(p5, p5 + 4);
            assert(b[p5] == w[0] && b[p5 + 1] == w[1] && b[p5 + 2] == w[2] && b[p5 + 3] == w[3]);
            assert(b[p5] == a2 && b[p5 + 1] == b2 && b[p5 + 2] == c2 && b[p5 + 3] == d2);
            assert(spec_decode_rdata(b, p5, r.class, r.type_, r.rd_length) == Ok::<
                (RDataView, int),
                DecodeError,
            >((r.r_data, p5 + 4)));
        },
        RDataView::Name(nm) => {
            assert(db == spec_name_encode_result(nm)->Ok_0);
            lemma_decode_name_of_encoded(b, p5, nm);
            assert(spec_decode_rdata(b, p5, r.class, r.type_, r.rd_length) == Ok::<
                (RDataView, int),
                DecodeError,
            >((r.r_data, p5 + db.len())));
        },
        RDataView::Opaque(bs) => {
            assert(db == bs);
            assert(r.rd_length == bs.len());
            assert(b.subrange(p5, p5 + r.rd_length) == bs);
            assert(spec_decode_rdata(b, p5, r.class, r.type_, r.rd_length) == Ok::<
                (RDataView, int),
                DecodeError,
            >((r.r_data, p5 + bs.len())));
        },
    }
}

/// A record read that meets the end of the input inside the record's
/// encoding fails with the end-of-input error.
pub proof fn lemma_decode_record_trunc(b: Seq<u8>, pos: int, r: ResourceRecordView)
    requires
        spec_record_wf(r),
        spec_encode_record(r) is Ok,
        0 <= pos <= b.len(),
        b.len() < pos + spec_encode_record(r)->Ok_0.len(),
        b.subrange(pos, b.len() as int) == spec_encode_record(r)->Ok_0.take(b.len() - pos),
    ensures
        spec_decode_record(b, pos) == Err::<(ResourceRecordView, int), DecodeError>(
            DecodeError::UnexpectedEndOfInput,
        ),
{
    let nb = spec_name_encode_result(r.name)->Ok_0;
    let tb = spec_u16_bytes(spec_type_value(r.type_));
    let cb = spec_u16_bytes(spec_class_value(r.class));
    let lb = spec_u32_bytes(r.ttl);
    let rb = spec_u16_bytes(r.rd_length);
    let db = spec_encode_rdata(r.r_data)->Ok_0;
    let enc = spec_encode_record(r)->Ok_0;
    let fx = tb + cb + lb + rb;
    assert(enc == nb + tb + cb + lb + rb + db);
    assert(tb.len() == 2 && cb.len() == 2 && lb.len() == 4 && rb.len() == 2 && fx.len() == 10);
    assert(enc =~= nb + (fx + db));
    lemma_window_split_partial(b, pos, nb, fx + db);
    if b.len() < pos + nb.len() {
        lemma_decode_name_of_encoded_trunc(b, pos, r.name);
    } else {
        lemma_decode_name_of_encoded(b, pos, r.name);
        let p1 = pos + nb.len();
        lemma_window_split_partial(b, p1, fx, db);
        if b.len() < p1 + 10 {
            // one of the four fixed reads runs out of input
        } else {
            lemma_window_split(b, p1, tb + cb + lb, rb);
            lemma_window_split(b, p1, tb + cb, lb);
            lemma_window_split(b, p1, tb, cb);
            lemma_read_u16_of_bytes(b, p1, spec_type_value(r.type_));
            lemma_read_u16_of_bytes(b, p1 + 2, spec_class_value(r.class));
            lemma_read_u32_of_bytes(b, p1 + 4, r.ttl);
            lemma_read_u16_of_bytes(b, p1 + 8, r.rd_length);
            lemma_type_round_trip(r.type_);
            lemma_class_round_trip(r.class);
            let p5 = p1 + 10;
            assert(b.len() < p5 + db.len());
            match r.r_data {
                RDataView::Ipv4(a2, b2, c2, d2) => {
                    assert(db == seq![a2, b2, c2, d2]);
                    assert(b.len() < p5 + 4);
                },
                RDataView::Name(nm) => {
                    assert(db == spec_name_encode_result(nm)->Ok_0);
                    lemma_decode_name_of_encoded_trunc(b, p5, nm);
                },
                RDataView::Opaque(bs) => {
                    assert(db == bs);
                    assert(r.rd_length == bs.len());
                    assert(b.len() < p5 + r.rd_length);
                },
            }
        }
    }
}

} // verus!
