//! The message assemblers.
//!
//! An outbound query is a header and a single question. An inbound message is
//! a header followed by exactly as many questions, answers, authority records
//! and additional records as the header's counts declare, in that fixed
//! order. Decoding and encoding walk the sections count-driven; trailing
//! bytes after the declared sections are left unread.

use vstd::prelude::*;
use crate::cursor::{Cursor, lemma_window_split, lemma_window_split_partial};
use crate::errors::{DecodeError, EncodeError};
use crate::flags::{
    DnsQueryHeaderFlags, DnsQueryHeaderFlagsAa, DnsQueryHeaderFlagsAd, DnsQueryHeaderFlagsCd,
    DnsQueryHeaderFlagsOpcode, DnsQueryHeaderFlagsQr, DnsQueryHeaderFlagsRa, DnsQueryHeaderFlagsRcode,
    DnsQueryHeaderFlagsRd, DnsQueryHeaderFlagsTc,
};
use crate::header::{
    DnsQueryHeader, lemma_decode_header_of_bytes, lemma_decode_header_short, spec_decode_header,
    spec_header_bytes, spec_header_wf,
};
use crate::codes::{DnsQueryClass, DnsQueryType};
use crate::question::{
    DnsQueryQuestion, QuestionView, lemma_decode_question_of_encoded, lemma_decode_question_trunc,
    spec_decode_question, spec_encode_question, spec_question_wf,
};
use crate::record::{
    DnsQueryResourceRecord, ResourceRecordView, lemma_decode_record_of_encoded,
    lemma_decode_record_trunc, spec_decode_record, spec_encode_record, spec_record_wf,
};

verus! {

/// The mathematical value of an outbound query.
pub ghost struct RequestQueryView {
    pub header: DnsQueryHeader,
    pub question: QuestionView,
}

/// An outbound query: a header and a single question. The counts of its
/// header are one question and no records.
#[derive(Debug)]
pub struct DnsRequestQuery {
    pub header: DnsQueryHeader,
    pub question: DnsQueryQuestion,
}

impl View for DnsRequestQuery {
    type V = RequestQueryView;

    open spec fn view(&self) -> RequestQueryView {
        RequestQueryView { header: self.header, question: self.question@ }
    }
}

/// The mathematical value of an inbound message.
pub ghost struct RespondQueryView {
    pub header: DnsQueryHeader,
    pub questions: Seq<QuestionView>,
    pub answers: Seq<ResourceRecordView>,
    pub authorities: Seq<ResourceRecordView>,
    pub additionals: Seq<ResourceRecordView>,
}

/// An inbound message: a header and its four sections. The header's counts
/// state the exact length of each section.
#[derive(Debug)]
pub struct DnsRespondQuery {
    pub header: DnsQueryHeader,
    pub questions: Vec<DnsQueryQuestion>,
    pub answers: Vec<DnsQueryResourceRecord>,
    pub authorities: Vec<DnsQueryResourceRecord>,
    pub additionals: Vec<DnsQueryResourceRecord>,
}

/// The views of a run of questions.
pub open spec fn spec_question_views(v: Seq<DnsQueryQuestion>) -> Seq<QuestionView> {
    v.map_values(|q: DnsQueryQuestion| q@)
}

/// The views of a run of records.
pub open spec fn spec_record_views(v: Seq<DnsQueryResourceRecord>) -> Seq<ResourceRecordView> {
    v.map_values(|r: DnsQueryResourceRecord| r@)
}

impl View for DnsRespondQuery {
    type V = RespondQueryView;

    open spec fn view(&self) -> RespondQueryView {
        RespondQueryView {
            header: self.header,
            questions: spec_question_views(self.questions@),
            answers: spec_record_views(self.answers@),
            authorities: spec_record_views(self.authorities@),
            additionals: spec_record_views(self.additionals@),
        }
    }
}

/// A message fit for encoding: the header's counts equal the section
/// lengths, its flags word is well formed, and every question and record is
/// well formed.
pub open spec fn spec_message_wf(m: RespondQueryView) -> bool {
    &&& spec_header_wf(m.header)
    &&& m.header.qd_count == m.questions.len()
    &&& m.header.an_count == m.answers.len()
    &&& m.header.ns_count == m.authorities.len()
    &&& m.header.ar_count == m.additionals.len()
    &&& (forall|i: int| 0 <= i < m.questions.len() ==> spec_question_wf(#[trigger] m.questions[i]))
    &&& (forall|i: int| 0 <= i < m.answers.len() ==> spec_record_wf(#[trigger] m.answers[i]))
    &&& (forall|i: int|
        0 <= i < m.authorities.len() ==> spec_record_wf(#[trigger] m.authorities[i]))
    &&& (forall|i: int|
        0 <= i < m.additionals.len() ==> spec_record_wf(#[trigger] m.additionals[i]))
}

/// `n` questions read one after another.
pub open spec fn spec_decode_questions(b: Seq<u8>, pos: int, n: int) -> Result<
    (Seq<QuestionView>, int),
    DecodeError,
>
    decreases n,
{
    if n <= 0 {
        Ok((Seq::empty(), pos))
    } else {
        match spec_decode_question(b, pos) {
            Ok((q, p1)) => match spec_decode_questions(b, p1, n - 1) {
                Ok((qs, p2)) => Ok((seq![q] + qs, p2)),
                Err(e) => Err(e),
            },
            Err(e) => Err(e),
        }
    }
}

/// `n` records read one after another.
pub open spec fn spec_decode_records(b: Seq<u8>, pos: int, n: int) -> Result<
    (Seq<ResourceRecordView>, int),
    DecodeError,
>
    decreases n,
{
    if n <= 0 {
        Ok((Seq::empty(), pos))
    } else {
        match spec_decode_record(b, pos) {
            Ok((r, p1)) => match spec_decode_records(b, p1, n - 1) {
                Ok((rs, p2)) => Ok((seq![r] + rs, p2)),
                Err(e) => Err(e),
            },
            Err(e) => Err(e),
        }
    }
}

/// A whole message read: the header, then exactly the counted number of
/// questions, answers, authority records and additional records.
pub open spec fn spec_decode_message(b: Seq<u8>) -> Result<RespondQueryView, DecodeError> {
    match spec_decode_header(b, 0) {
        Ok((header, p1)) => match spec_decode_questions(b, p1, header.qd_count as int) {
            Ok((questions, p2)) => match spec_decode_records(b, p2, header.an_count as int) {
                Ok((answers, p3)) => match spec_decode_records(b, p3, header.ns_count as int) {
                    Ok((authorities, p4)) => match spec_decode_records(
                        b,
                        p4,
                        header.ar_count as int,
                    ) {
                        Ok((additionals, _p5)) => Ok(
                            RespondQueryView {
                                header,
                                questions,
                                answers,
                                authorities,
                                additionals,
                            },
                        ),
                        Err(e) => Err(e),
                    },
                    Err(e) => Err(e),
                },
                Err(e) => Err(e),
            },
            Err(e) => Err(e),
        },
        Err(e) => Err(e),
    }
}

/// The wire bytes of an outbound query: the header, then the question.
pub open spec fn spec_encode_query(v: RequestQueryView) -> Result<Seq<u8>, EncodeError> {
    match spec_encode_question(v.question) {
        Ok(qb) => Ok(spec_header_bytes(v.header) + qb),
        Err(e) => Err(e),
    }
}

/// The wire bytes of a run of questions, or the first name error among them.
pub open spec fn spec_encode_questions(qs: Seq<QuestionView>) -> Result<Seq<u8>, EncodeError>
    decreases qs.len(),
{
    if qs.len() == 0 {
        Ok(Seq::empty())
    } else {
        match spec_encode_question(qs[0]) {
            Ok(hb) => match spec_encode_questions(qs.drop_first()) {
                Ok(tb) => Ok(hb + tb),
                Err(e) => Err(e),
            },
            Err(e) => Err(e),
        }
    }
}

/// The wire bytes of a run of records, or the first name error among them.
pub open spec fn spec_encode_records(rs: Seq<ResourceRecordView>) -> Result<Seq<u8>, EncodeError>
    decreases rs.len(),
{
    if rs.len() == 0 {
        Ok(Seq::empty())
    } else {
        match spec_encode_record(rs[0]) {
            Ok(hb) => match spec_encode_records(rs.drop_first()) {
                Ok(tb) => Ok(hb + tb),
                Err(e) => Err(e),
            },
            Err(e) => Err(e),
        }
    }
}

/// The wire bytes of a whole message: the header, then the four sections in
/// their fixed order, or the first name error among them.
pub open spec fn spec_encode_message(m: RespondQueryView) -> Result<Seq<u8>, EncodeError> {
    match spec_encode_questions(m.questions) {
        Ok(qb) => match spec_encode_records(m.answers) {
            Ok(ab) => match spec_encode_records(m.authorities) {
                Ok(ub) => match spec_encode_records(m.additionals) {
                    Ok(db) => Ok(spec_header_bytes(m.header) + qb + ab + ub + db),
                    Err(e) => Err(e),
                },
                Err(e) => Err(e),
            },
            Err(e) => Err(e),
        },
        Err(e) => Err(e),
    }
}

/// A successful run of `n` question reads yields exactly `n` questions.
proof fn lemma_decode_questions_len(b: Seq<u8>, pos: int, n: int)
    requires
        n >= 0,
        spec_decode_questions(b, pos, n) is Ok,
    ensures
        spec_decode_questions(b, pos, n)->Ok_0.0.len() == n,
    decreases n,
{
    if n > 0 {
        let r = spec_decode_question(b, pos);
        lemma_decode_questions_len(b, r->Ok_0.1, n - 1);
    }
}

/// A successful run of `n` record reads yields exactly `n` records.
proof fn lemma_decode_records_len(b: Seq<u8>, pos: int, n: int)
    requires
        n >= 0,
        spec_decode_records(b, pos, n) is Ok,
    ensures
        spec_decode_records(b, pos, n)->Ok_0.0.len() == n,
    decreases n,
{
    if n > 0 {
        let r = spec_decode_record(b, pos);
        lemma_decode_records_len(b, r->Ok_0.1, n - 1);
    }
}

/// Read `n` questions at the cursor.
fn decode_questions(bytes: &[u8], cursor: &mut Cursor, n: u16) -> (r: Result<
    Vec<DnsQueryQuestion>,
    DecodeError,
>)
    ensures
        (match r {
            Ok(qs) => spec_decode_questions(bytes@, old(cursor).pos as int, n as int) == Ok::<
                (Seq<QuestionView>, int),
                DecodeError,
            >((spec_question_views(qs@), final(cursor).pos as int)),
            Err(e) => spec_decode_questions(bytes@, old(cursor).pos as int, n as int) == Err::<
                (Seq<QuestionView>, int),
                DecodeError,
            >(e),
        }),
{
    let mut out: Vec<DnsQueryQuestion> = Vec::new();
    let mut i: u16 = 0;
    while i < n
        invariant
            i <= n,
            spec_decode_questions(bytes@, old(cursor).pos as int, n as int) == (match
                spec_decode_questions(bytes@, cursor.pos as int, n as int - i as int) {
                Ok((qs, p)) => Ok::<(Seq<QuestionView>, int), DecodeError>(
                    (spec_question_views(out@) + qs, p),
                ),
                Err(e) => Err::<(Seq<QuestionView>, int), DecodeError>(e),
            }),
        decreases n as int - i as int,
    {
        let ghost rem_here = spec_decode_questions(bytes@, cursor.pos as int, n as int - i as int);
        let ghost out_old = out@;
        let q = match DnsQueryQuestion::decode(bytes, cursor) {
            Ok(v) => v,
            Err(e) => {
                return Err(e);
            },
        };
        out.push(q);
        i = i + 1;
        proof {
            let rem_next = spec_decode_questions(
                bytes@,
                cursor.pos as int,
                n as int - i as int,
            );
            assert(rem_here == (match rem_next {
                Ok((qs, p)) => Ok::<(Seq<QuestionView>, int), DecodeError>((seq![q@] + qs, p)),
                Err(e) => Err::<(Seq<QuestionView>, int), DecodeError>(e),
            }));
            assert(spec_question_views(out@) =~= spec_question_views(out_old).push(q@));
            if rem_next is Ok {
                assert((spec_question_views(out_old) + (seq![q@] + rem_next->Ok_0.0)) =~= (
                spec_question_views(out@) + rem_next->Ok_0.0));
            }
        }
    }
    proof {
        assert(spec_question_views(out@) + Seq::<QuestionView>::empty() =~= spec_question_views(
            out@,
        ));
    }
    Ok(out)
}

/// Read `n` records at the cursor.
fn decode_records(bytes: &[u8], cursor: &mut Cursor, n: u16) -> (r: Result<
    Vec<DnsQueryResourceRecord>,
    DecodeError,
>)
    ensures
        (match r {
            Ok(rs) => spec_decode_records(bytes@, old(cursor).pos as int, n as int) == Ok::<
                (Seq<ResourceRecordView>, int),
                DecodeError,
            >((spec_record_views(rs@), final(cursor).pos as int)),
            Err(e) => spec_decode_records(bytes@, old(cursor).pos as int, n as int) == Err::<
                (Seq<ResourceRecordView>, int),
                DecodeError,
            >(e),
        }),
{
    let mut out: Vec<DnsQueryResourceRecord> = Vec::new();
    let mut i: u16 = 0;
    while i < n
        invariant
            i <= n,
            spec_decode_records(bytes@, old(cursor).pos as int, n as int) == (match
                spec_decode_records(bytes@, cursor.pos as int, n as int - i as int) {
                Ok((rs, p)) => Ok::<(Seq<ResourceRecordView>, int), DecodeError>(
                    (spec_record_views(out@) + rs, p),
                ),
                Err(e) => Err::<(Seq<ResourceRecordView>, int), DecodeError>(e),
            }),
        decreases n as int - i as int,
    {
        let ghost rem_here = spec_decode_records(bytes@, cursor.pos as int, n as int - i as int);
        let ghost out_old = out@;
        let rec = match DnsQueryResourceRecord::decode(bytes, cursor) {
            Ok(v) => v,
            Err(e) => {
                return Err(e);
            },
        };
        out.push(rec);
        i = i + 1;
        proof {
            let rem_next = spec_decode_records(bytes@, cursor.pos as int, n as int - i as int);
            assert(rem_here == (match rem_next {
                Ok((rs, p)) => Ok::<(Seq<ResourceRecordView>, int), DecodeError>(
                    (seq![rec@] + rs, p),
                ),
                Err(e) => Err::<(Seq<ResourceRecordView>, int), DecodeError>(e),
            }));
            assert(spec_record_views(out@) =~= spec_record_views(out_old).push(rec@));
            if rem_next is Ok {
                assert((spec_record_views(out_old) + (seq![rec@] + rem_next->Ok_0.0)) =~= (
                spec_record_views(out@) + rem_next->Ok_0.0));
            }
        }
    }
    proof {
        assert(spec_record_views(out@) + Seq::<ResourceRecordView>::empty() =~= spec_record_views(
            out@,
        ));
    }
    Ok(out)
}

/// Decode a whole message from its wire bytes: the header, then exactly the
/// counted number of questions, answers, authority records and additional
/// records. Any failure aborts the decode; no partial message is returned.
pub fn decode_message(bytes: &[u8]) -> (r: Result<DnsRespondQuery, DecodeError>)
    ensures
        (match r {
            Ok(m) => spec_decode_message(bytes@) == Ok::<RespondQueryView, DecodeError>(m@),
            Err(e) => spec_decode_message(bytes@) == Err::<RespondQueryView, DecodeError>(e),
        }),
        r matches Ok(m) ==> m@.questions.len() == m@.header.qd_count && m@.answers.len()
            == m@.header.an_count && m@.authorities.len() == m@.header.ns_count
            && m@.additionals.len() == m@.header.ar_count,
{
    let mut cursor = Cursor::new();
    let header = match DnsQueryHeader::decode(bytes, &mut cursor) {
        Ok(v) => v,
        Err(e) => {
            return Err(e);
        },
    };
    let questions = match decode_questions(bytes, &mut cursor, header.qd_count) {
        Ok(v) => v,
        Err(e) => {
            return Err(e);
        },
    };
    let answers = match decode_records(bytes, &mut cursor, header.an_count) {
        Ok(v) => v,
        Err(e) => {
            return Err(e);
        },
    };
    let authorities = match decode_records(bytes, &mut cursor, header.ns_count) {
        Ok(v) => v,
        Err(e) => {
            return Err(e);
        },
    };
    let additionals = match decode_records(bytes, &mut cursor, header.ar_count) {
        Ok(v) => v,
        Err(e) => {
            return Err(e);
        },
    };
    proof {
        let b = bytes@;
        let p1 = spec_decode_header(b, 0)->Ok_0.1;
        lemma_decode_questions_len(b, p1, header.qd_count as int);
        let p2 = spec_decode_questions(b, p1, header.qd_count as int)->Ok_0.1;
        lemma_decode_records_len(b, p2, header.an_count as int);
        let p3 = spec_decode_records(b, p2, header.an_count as int)->Ok_0.1;
        lemma_decode_records_len(b, p3, header.ns_count as int);
        let p4 = spec_decode_records(b, p3, header.ns_count as int)->Ok_0.1;
        lemma_decode_records_len(b, p4, header.ar_count as int);
    }
    Ok(DnsRespondQuery { header, questions, answers, authorities, additionals })
}

/// Encode an outbound query: the 12 header bytes, then the question's bytes.
pub fn encode_query(query: &DnsRequestQuery) -> (r: Result<Vec<u8>, EncodeError>)
    ensures
        (match r {
            Ok(v) => spec_encode_query(query@) == Ok::<Seq<u8>, EncodeError>(v@),
            Err(e) => spec_encode_query(query@) == Err::<Seq<u8>, EncodeError>(e),
        }),
{
    let mut out: Vec<u8> = Vec::new();
    let hb = query.header.encode();
    let mut k: usize = 0;
    while k < 12
        invariant
            k <= 12,
            hb@ == spec_header_bytes(query@.header),
            out@ == spec_header_bytes(query@.header).subrange(0, k as int),
        decreases 12 - k,
    {
        out.push(hb[k]);
        k = k + 1;
        proof {
            assert(out@ =~= spec_header_bytes(query@.header).subrange(0, k as int));
        }
    }
    proof {
        assert(out@ =~= spec_header_bytes(query@.header));
    }
    match query.question.encode(&mut out) {
        Ok(_) => {},
        Err(e) => {
            return Err(e);
        },
    }
    Ok(out)
}

/// Encode `qs` one after another onto `out`. On a name error, `out` is
/// unchanged.
fn encode_questions(qs: &Vec<DnsQueryQuestion>, out: &mut Vec<u8>) -> (r: Result<(), EncodeError>)
    ensures
        (match r {
            Ok(_) => spec_encode_questions(spec_question_views(qs@)) is Ok && final(out)@ == old(
                out,
            )@ + spec_encode_questions(spec_question_views(qs@))->Ok_0,
            Err(e) => spec_encode_questions(spec_question_views(qs@)) == Err::<Seq<u8>, EncodeError>(
                e,
            ) && final(out)@ == old(out)@,
        }),
{
    let mut tmp: Vec<u8> = Vec::new();
    proof {
        assert(spec_question_views(qs@).skip(0) =~= spec_question_views(qs@));
        let r0 = spec_encode_questions(spec_question_views(qs@));
        if r0 is Ok {
            assert(Seq::<u8>::empty() + r0->Ok_0 =~= r0->Ok_0);
        }
    }
    let mut i: usize = 0;
    while i < qs.len()
        invariant
            i <= qs@.len(),
            spec_encode_questions(spec_question_views(qs@)) == (match spec_encode_questions(
                spec_question_views(qs@).skip(i as int),
            ) {
                Ok(rest) => Ok::<Seq<u8>, EncodeError>(tmp@ + rest),
                Err(e) => Err::<Seq<u8>, EncodeError>(e),
            }),
        decreases qs@.len() - i,
    {
        let ghost rem_here = spec_encode_questions(spec_question_views(qs@).skip(i as int));
        let ghost tmp_old = tmp@;
        proof {
            assert(spec_question_views(qs@).skip(i as int)[0] == qs@[i as int]@);
            assert(spec_question_views(qs@).skip(i as int).drop_first() =~= spec_question_views(
                qs@,
            ).skip(i as int + 1));
        }
        match qs[i].encode(&mut tmp) {
            Ok(_) => {},
            Err(e) => {
                return Err(e);
            },
        }
        i = i + 1;
        proof {
            let rem_next = spec_encode_questions(spec_question_views(qs@).skip(i as int));
            let eb = spec_encode_question(qs@[i - 1]@)->Ok_0;
            assert(rem_here == (match rem_next {
                Ok(rest) => Ok::<Seq<u8>, EncodeError>(eb + rest),
                Err(e) => Err::<Seq<u8>, EncodeError>(e),
            }));
            if rem_next is Ok {
                assert((tmp_old + (eb + rem_next->Ok_0)) =~= (tmp@ + rem_next->Ok_0));
            }
        }
    }
    proof {
        assert(spec_question_views(qs@).skip(qs@.len() as int) =~= Seq::<QuestionView>::empty());
        assert(tmp@ + Seq::<u8>::empty() =~= tmp@);
    }
    out.append(&mut tmp);
    Ok(())
}

/// Encode `rs` one after another onto `out`. On a name error, `out` is
/// unchanged. Every record must be fit for encoding.
fn encode_records(rs: &Vec<DnsQueryResourceRecord>, out: &mut Vec<u8>) -> (r: Result<
    (),
    EncodeError,
>)
    requires
        forall|i: int| 0 <= i < rs@.len() ==> spec_record_wf(#[trigger] rs@[i]@),
    ensures
        (match r {
            Ok(_) => spec_encode_records(spec_record_views(rs@)) is Ok && final(out)@ == old(out)@
                + spec_encode_records(spec_record_views(rs@))->Ok_0,
            Err(e) => spec_encode_records(spec_record_views(rs@)) == Err::<Seq<u8>, EncodeError>(e)
                && final(out)@ == old(out)@,
        }),
{
    let mut tmp: Vec<u8> = Vec::new();
    proof {
        assert(spec_record_views(rs@).skip(0) =~= spec_record_views(rs@));
        let r0 = spec_encode_records(spec_record_views(rs@));
        if r0 is Ok {
            assert(Seq::<u8>::empty() + r0->Ok_0 =~= r0->Ok_0);
        }
    }
    let mut i: usize = 0;
    while i < rs.len()
        invariant
            i <= rs@.len(),
            forall|m: int| 0 <= m < rs@.len() ==> spec_record_wf(#[trigger] rs@[m]@),
            spec_encode_records(spec_record_views(rs@)) == (match spec_encode_records(
                spec_record_views(rs@).skip(i as int),
            ) {
                Ok(rest) => Ok::<Seq<u8>, EncodeError>(tmp@ + rest),
                Err(e) => Err::<Seq<u8>, EncodeError>(e),
            }),
        decreases rs@.len() - i,
    {
        let ghost rem_here = spec_encode_records(spec_record_views(rs@).skip(i as int));
        let ghost tmp_old = tmp@;
        proof {
            assert(spec_record_views(rs@).skip(i as int)[0] == rs@[i as int]@);
            assert(spec_record_views(rs@).skip(i as int).drop_first() =~= spec_record_views(
                rs@,
            ).skip(i as int + 1));
        }
        match rs[i].encode(&mut tmp) {
            Ok(_) => {},
            Err(e) => {
                return Err(e);
            },
        }
        i = i + 1;
        proof {
            let rem_next = spec_encode_records(spec_record_views(rs@).skip(i as int));
            let eb = spec_encode_record(rs@[i - 1]@)->Ok_0;
            assert(rem_here == (match rem_next {
                Ok(rest) => Ok::<Seq<u8>, EncodeError>(eb + rest),
                Err(e) => Err::<Seq<u8>, EncodeError>(e),
            }));
            if rem_next is Ok {
                assert((tmp_old + (eb + rem_next->Ok_0)) =~= (tmp@ + rem_next->Ok_0));
            }
        }
    }
    proof {
        assert(spec_record_views(rs@).skip(rs@.len() as int) =~= Seq::<
            ResourceRecordView,
        >::empty());
        assert(tmp@ + Seq::<u8>::empty() =~= tmp@);
    }
    out.append(&mut tmp);
    Ok(())
}

/// Encode a whole message: the 12 header bytes, then the four sections in
/// their fixed order. The message must be fit for encoding: counts equal to
/// section lengths, well-formed flags, and every question and record well
/// formed.
pub fn encode_message(message: &DnsRespondQuery) -> (r: Result<Vec<u8>, EncodeError>)
    requires
        spec_message_wf(message@),
    ensures
        (match r {
            Ok(v) => spec_encode_message(message@) == Ok::<Seq<u8>, EncodeError>(v@),
            Err(e) => spec_encode_message(message@) == Err::<Seq<u8>, EncodeError>(e),
        }),
{
    let mut out: Vec<u8> = Vec::new();
    let hb = message.header.encode();
    let mut k: usize = 0;
    while k < 12
        invariant
            k <= 12,
            hb@ == spec_header_bytes(message@.header),
            out@ == spec_header_bytes(message@.header).subrange(0, k as int),
        decreases 12 - k,
    {
        out.push(hb[k]);
        k = k + 1;
        proof {
            assert(out@ =~= spec_header_bytes(message@.header).subrange(0, k as int));
        }
    }
    proof {
        assert(out@ =~= spec_header_bytes(message@.header));
    }
    proof {
        assert forall|i: int| 0 <= i < message.answers@.len() implies spec_record_wf(
            #[trigger] message.answers@[i]@,
        ) by {
            assert(message@.answers[i] == message.answers@[i]@);
        }
        assert forall|i: int| 0 <= i < message.authorities@.len() implies spec_record_wf(
            #[trigger] message.authorities@[i]@,
        ) by {
            assert(message@.authorities[i] == message.authorities@[i]@);
        }
        assert forall|i: int| 0 <= i < message.additionals@.len() implies spec_record_wf(
            #[trigger] message.additionals@[i]@,
        ) by {
            assert(message@.additionals[i] == message.additionals@[i]@);
        }
    }
    match encode_questions(&message.questions, &mut out) {
        Ok(_) => {},
        Err(e) => {
            return Err(e);
        },
    }
    match encode_records(&message.answers, &mut out) {
        Ok(_) => {},
        Err(e) => {
            return Err(e);
        },
    }
    match encode_records(&message.authorities, &mut out) {
        Ok(_) => {},
        Err(e) => {
            return Err(e);
        },
    }
    match encode_records(&message.additionals, &mut out) {
        Ok(_) => {},
        Err(e) => {
            return Err(e);
        },
    }
    proof {
        assert(out@ =~= spec_encode_message(message@)->Ok_0);
    }
    Ok(out)
}

impl DnsRequestQuery {
    /// A standard outbound query for the host address of `url`: a fresh
    /// header asking one recursive standard query, and a single question for
    /// an IN A record under that name.
    pub fn from_url(url: String) -> (q: Self)
        ensures
            q@.header.id == 0,
            q@.header.flags == (DnsQueryHeaderFlags {
                qr: DnsQueryHeaderFlagsQr::Query,
                op_code: DnsQueryHeaderFlagsOpcode::StdQuery,
                aa: DnsQueryHeaderFlagsAa::NonAuthAns,
                tc: DnsQueryHeaderFlagsTc::NonTrunc,
                rd: DnsQueryHeaderFlagsRd::Recur,
                ra: DnsQueryHeaderFlagsRa::NotAvailable,
                z: 0,
                ad: DnsQueryHeaderFlagsAd::NotAuthed,
                cd: DnsQueryHeaderFlagsCd::Checked,
                r_code: DnsQueryHeaderFlagsRcode::NoErr,
            }),
            q@.header.qd_count == 1 && q@.header.an_count == 0 && q@.header.ns_count == 0
                && q@.header.ar_count == 0,
            q@.question.q_name == url@,
            q@.question.q_type == DnsQueryType::A,
            q@.question.q_class == DnsQueryClass::In,
    {
        DnsRequestQuery {
            header: DnsQueryHeader {
                id: 0,
                flags: DnsQueryHeaderFlags {
                    qr: DnsQueryHeaderFlagsQr::Query,
                    op_code: DnsQueryHeaderFlagsOpcode::StdQuery,
                    aa: DnsQueryHeaderFlagsAa::NonAuthAns,
                    tc: DnsQueryHeaderFlagsTc::NonTrunc,
                    rd: DnsQueryHeaderFlagsRd::Recur,
                    ra: DnsQueryHeaderFlagsRa::NotAvailable,
                    z: 0,
                    ad: DnsQueryHeaderFlagsAd::NotAuthed,
                    cd: DnsQueryHeaderFlagsCd::Checked,
                    r_code: DnsQueryHeaderFlagsRcode::NoErr,
                },
                qd_count: 1,
                an_count: 0,
                ns_count: 0,
                ar_count: 0,
            },
            question: DnsQueryQuestion {
                q_name: url,
                q_type: DnsQueryType::A,
                q_class: DnsQueryClass::In,
            },
        }
    }
}

/// Reading as many questions as a window holding their encodings announces
/// yields those questions and stops right after the window.
proof fn lemma_decode_questions_of_encoded(b: Seq<u8>, pos: int, qs: Seq<QuestionView>)
    requires
        forall|i: int| 0 <= i < qs.len() ==> spec_question_wf(#[trigger] qs[i]),
        spec_encode_questions(qs) is Ok,
        0 <= pos,
        pos + spec_encode_questions(qs)->Ok_0.len() <= b.len(),
        b.subrange(pos, pos + spec_encode_questions(qs)->Ok_0.len()) == spec_encode_questions(
            qs,
        )->Ok_0,
    ensures
        spec_decode_questions(b, pos, qs.len() as int) == Ok::<(Seq<QuestionView>, int), DecodeError>(
            (qs, pos + spec_encode_questions(qs)->Ok_0.len()),
        ),
    decreases qs.len(),
{
    if qs.len() == 0 {
        assert(qs =~= Seq::<QuestionView>::empty());
    } else {
        let hb = spec_encode_question(qs[0])->Ok_0;
        let rest = qs.drop_first();
        let tb = spec_encode_questions(rest)->Ok_0;
        assert(spec_encode_questions(qs)->Ok_0 == hb + tb);
        lemma_window_split(b, pos, hb, tb);
        lemma_decode_question_of_encoded(b, pos, qs[0]);
        assert(forall|i: int| 0 <= i < rest.len() ==> #[trigger] rest[i] == qs[i + 1]);
        lemma_decode_questions_of_encoded(b, pos + hb.len(), rest);
        assert(seq![qs[0]] + rest =~= qs);
    }
}

/// Reading as many questions as a window holding only a strict prefix of
/// their encodings announces fails with the end-of-input error.
proof fn lemma_decode_questions_trunc(b: Seq<u8>, pos: int, qs: Seq<QuestionView>)
    requires
        forall|i: int| 0 <= i < qs.len() ==> spec_question_wf(#[trigger] qs[i]),
        spec_encode_questions(qs) is Ok,
        0 <= pos <= b.len(),
        b.len() < pos + spec_encode_questions(qs)->Ok_0.len(),
        b.subrange(pos, b.len() as int) == spec_encode_questions(qs)->Ok_0.take(b.len() - pos),
    ensures
        spec_decode_questions(b, pos, qs.len() as int) == Err::<
            (Seq<QuestionView>, int),
            DecodeError,
        >(DecodeError::UnexpectedEndOfInput),
    decreases qs.len(),
{
    let hb = spec_encode_question(qs[0])->Ok_0;
    let rest = qs.drop_first();
    let tb = spec_encode_questions(rest)->Ok_0;
    assert(spec_encode_questions(qs)->Ok_0 == hb + tb);
    lemma_window_split_partial(b, pos, hb, tb);
    if b.len() < pos + hb.len() {
        lemma_decode_question_trunc(b, pos, qs[0]);
    } else {
        lemma_decode_question_of_encoded(b, pos, qs[0]);
        assert(forall|i: int| 0 <= i < rest.len() ==> #[trigger] rest[i] == qs[i + 1]);
        lemma_decode_questions_trunc(b, pos + hb.len(), rest);
    }
}

/// Reading as many records as a window holding their encodings announces
/// yields those records and stops right after the window.
proof fn lemma_decode_records_of_encoded(b: Seq<u8>, pos: int, rs: Seq<ResourceRecordView>)
    requires
        forall|i: int| 0 <= i < rs.len() ==> spec_record_wf(#[trigger] rs[i]),
        spec_encode_records(rs) is Ok,
        0 <= pos,
        pos + spec_encode_records(rs)->Ok_0.len() <= b.len(),
        b.subrange(pos, pos + spec_encode_records(rs)->Ok_0.len()) == spec_encode_records(
            rs,
        )->Ok_0,
    ensures
        spec_decode_records(b, pos, rs.len() as int) == Ok::<
            (Seq<ResourceRecordView>, int),
            DecodeError,
        >((rs, pos + spec_encode_records(rs)->Ok_0.len())),
    decreases rs.len(),
{
    if rs.len() == 0 {
        assert(rs =~= Seq::<ResourceRecordView>::empty());
    } else {
        let hb = spec_encode_record(rs[0])->Ok_0;
        let rest = rs.drop_first();
        let tb = spec_encode_records(rest)->Ok_0;
        assert(spec_encode_records(rs)->Ok_0 == hb + tb);
        lemma_window_split(b, pos, hb, tb);
        lemma_decode_record_of_encoded(b, pos, rs[0]);
        assert(forall|i: int| 0 <= i < rest.len() ==> #[trigger] rest[i] == rs[i + 1]);
        lemma_decode_records_of_encoded(b, pos + hb.len(), rest);
        assert(seq![rs[0]] + rest =~= rs);
    }
}

/// Reading as many records as a window holding only a strict prefix of their
/// encodings announces fails with the end-of-input error.
proof fn lemma_decode_records_trunc(b: Seq<u8>, pos: int, rs: Seq<ResourceRecordView>)
    requires
        forall|i: int| 0 <= i < rs.len() ==> spec_record_wf(#[trigger] rs[i]),
        spec_encode_records(rs) is Ok,
        0 <= pos <= b.len(),
        b.len() < pos + spec_encode_records(rs)->Ok_0.len(),
        b.subrange(pos, b.len() as int) == spec_encode_records(rs)->Ok_0.take(b.len() - pos),
    ensures
        spec_decode_records(b, pos, rs.len() as int) == Err::<
            (Seq<ResourceRecordView>, int),
            DecodeError,
        >(DecodeError::UnexpectedEndOfInput),
    decreases rs.len(),
{
    let hb = spec_encode_record(rs[0])->Ok_0;
    let rest = rs.drop_first();
    let tb = spec_encode_records(rest)->Ok_0;
    assert(spec_encode_records(rs)->Ok_0 == hb + tb);
    lemma_window_split_partial(b, pos, hb, tb);
    if b.len() < pos + hb.len() {
        lemma_decode_record_trunc(b, pos, rs[0]);
    } else {
        lemma_decode_record_of_encoded(b, pos, rs[0]);
        assert(forall|i: int| 0 <= i < rest.len() ==> #[trigger] rest[i] == rs[i + 1]);
        lemma_decode_records_trunc(b, pos + hb.len(), rest);
    }
}

/// After an intact header, a cut anywhere in the four encoded sections makes
/// the message decode fail for want of input.
#[verifier::rlimit(100)]
proof fn lemma_message_truncation_sections(m: RespondQueryView, b: Seq<u8>)
    requires
        spec_message_wf(m),
        spec_encode_questions(m.questions) is Ok,
        spec_encode_records(m.answers) is Ok,
        spec_encode_records(m.authorities) is Ok,
        spec_encode_records(m.additionals) is Ok,
        spec_decode_header(b, 0) == Ok::<(DnsQueryHeader, int), DecodeError>((m.header, 12)),
        12 <= b.len(),
        b.len() < 12 + spec_encode_questions(m.questions)->Ok_0.len() + spec_encode_records(
            m.answers,
        )->Ok_0.len() + spec_encode_records(m.authorities)->Ok_0.len() + spec_encode_records(
            m.additionals,
        )->Ok_0.len(),
        b.subrange(12, b.len() as int) == (spec_encode_questions(m.questions)->Ok_0
            + (spec_encode_records(m.answers)->Ok_0 + (spec_encode_records(
            m.authorities,
        )->Ok_0 + spec_encode_records(m.additionals)->Ok_0))).take(b.len() - 12),
    ensures
        spec_decode_message(b) == Err::<RespondQueryView, DecodeError>(
            DecodeError::UnexpectedEndOfInput,
        ),
{
    let qb = spec_encode_questions(m.questions)->Ok_0;
    let ab = spec_encode_records(m.answers)->Ok_0;
    let ub = spec_encode_records(m.authorities)->Ok_0;
    let db = spec_encode_records(m.additionals)->Ok_0;
    lemma_window_split_partial(b, 12, qb, ab + (ub + db));
    if b.len() < 12 + qb.len() {
        lemma_decode_questions_trunc(b, 12, m.questions);
        assert(spec_decode_questions(b, 12, m.header.qd_count as int) == Err::<
            (Seq<QuestionView>, int),
            DecodeError,
        >(DecodeError::UnexpectedEndOfInput));
    } else {
        lemma_decode_questions_of_encoded(b, 12, m.questions);
        let p2 = 12 + qb.len();
        assert(spec_decode_questions(b, 12, m.header.qd_count as int) == Ok::<
            (Seq<QuestionView>, int),
            DecodeError,
        >((m.questions, p2 as int)));
        lemma_window_split_partial(b, p2 as int, ab, ub + db);
        if b.len() < p2 + ab.len() {
            lemma_decode_records_trunc(b, p2 as int, m.answers);
        } else {
            lemma_decode_records_of_encoded(b, p2 as int, m.answers);
            let p3 = p2 + ab.len();
            assert(spec_decode_records(b, p2 as int, m.header.an_count as int) == Ok::<
                (Seq<ResourceRecordView>, int),
                DecodeError,
            >((m.answers, p3 as int)));
            lemma_window_split_partial(b, p3 as int, ub, db);
            if b.len() < p3 + ub.len() {
                lemma_decode_records_trunc(b, p3 as int, m.authorities);
            } else {
                lemma_decode_records_of_encoded(b, p3 as int, m.authorities);
                let p4 = p3 + ub.len();
                assert(spec_decode_records(b, p3 as int, m.header.ns_count as int) == Ok::<
                    (Seq<ResourceRecordView>, int),
                    DecodeError,
                >((m.authorities, p4 as int)));
                assert(b.len() < p4 + db.len());
                lemma_decode_records_trunc(b, p4 as int, m.additionals);
            }
        }
    }
}

/// Five concatenated byte runs, re-bracketed to the right.
proof fn lemma_concat_right(x1: Seq<u8>, x2: Seq<u8>, x3: Seq<u8>, x4: Seq<u8>, x5: Seq<u8>)
    ensures
        x1 + x2 + x3 + x4 + x5 == x1 + (x2 + (x3 + (x4 + x5))),
{
    assert(x1 + x2 + x3 + x4 + x5 =~= x1 + (x2 + (x3 + (x4 + x5))));
}

/// Truncating an encoded message at any byte offset makes the decode fail
/// for want of input, whatever the offset cuts: the header, a name, a fixed
/// field or a record payload. It never yields another error and never a
/// message.
#[verifier::rlimit(100)]
#[verifier::spinoff_prover]
pub proof fn lemma_message_truncation(m: RespondQueryView, k: int)
    requires
        spec_message_wf(m),
        spec_encode_message(m) is Ok,
        0 <= k < spec_encode_message(m)->Ok_0.len(),
    ensures
        spec_decode_message(spec_encode_message(m)->Ok_0.take(k)) == Err::<
            RespondQueryView,
            DecodeError,
        >(DecodeError::UnexpectedEndOfInput),
{
    let hb = spec_header_bytes(m.header);
    let qb = spec_encode_questions(m.questions)->Ok_0;
    let ab = spec_encode_records(m.answers)->Ok_0;
    let ub = spec_encode_records(m.authorities)->Ok_0;
    let db = spec_encode_records(m.additionals)->Ok_0;
    let enc = spec_encode_message(m)->Ok_0;
    let sections = qb + (ab + (ub + db));
    assert(enc == hb + qb + ab + ub + db);
    lemma_concat_right(hb, qb, ab, ub, db);
    assert(hb.len() == 12);
    let b = enc.take(k);
    assert(b.len() == k);
    if k < 12 {
        lemma_decode_header_short(b, 0);
    } else {
        assert(b.subrange(0, b.len() as int) =~= (hb + sections).take(b.len() - 0));
        lemma_window_split_partial(b, 0, hb, sections);
        lemma_decode_header_of_bytes(b, 0, m.header);
        lemma_message_truncation_sections(m, b);
    }
}

/// After an intact header, a window holding the four encoded sections reads
/// back exactly the questions and records that were written.
#[verifier::rlimit(100)]
#[verifier::spinoff_prover]
proof fn lemma_message_sections_round_trip(m: RespondQueryView, b: Seq<u8>)
    requires
        spec_message_wf(m),
        spec_encode_questions(m.questions) is Ok,
        spec_encode_records(m.answers) is Ok,
        spec_encode_records(m.authorities) is Ok,
        spec_encode_records(m.additionals) is Ok,
        spec_decode_header(b, 0) == Ok::<(DnsQueryHeader, int), DecodeError>((m.header, 12)),
        12 + spec_encode_questions(m.questions)->Ok_0.len() + spec_encode_records(
            m.answers,
        )->Ok_0.len() + spec_encode_records(m.authorities)->Ok_0.len() + spec_encode_records(
            m.additionals,
        )->Ok_0.len() <= b.len(),
        b.subrange(
            12,
            12 + spec_encode_questions(m.questions)->Ok_0.len() as int + spec_encode_records(
                m.answers,
            )->Ok_0.len() as int + spec_encode_records(m.authorities)->Ok_0.len() as int
                + spec_encode_records(m.additionals)->Ok_0.len() as int,
        ) == spec_encode_questions(m.questions)->Ok_0 + (spec_encode_records(m.answers)->Ok_0
            + (spec_encode_records(m.authorities)->Ok_0 + spec_encode_records(
            m.additionals,
        )->Ok_0)),
    ensures
        spec_decode_message(b) == Ok::<RespondQueryView, DecodeError>(m),
{
    let qb = spec_encode_questions(m.questions)->Ok_0;
    let ab = spec_encode_records(m.answers)->Ok_0;
    let ub = spec_encode_records(m.authorities)->Ok_0;
    let db = spec_encode_records(m.additionals)->Ok_0;
    let p2: int = 12 + qb.len() as int;
    let p3: int = p2 + ab.len() as int;
    let p4: int = p3 + ub.len() as int;
    let p5: int = p4 + db.len() as int;
    lemma_window_split(b, 12, qb, ab + (ub + db));
    lemma_window_split(b, p2, ab, ub + db);
    lemma_window_split(b, p3, ub, db);
    lemma_decode_questions_of_encoded(b, 12, m.questions);
    assert(spec_decode_questions(b, 12, m.header.qd_count as int) == Ok::<
        (Seq<QuestionView>, int),
        DecodeError,
    >((m.questions, p2)));
    lemma_decode_records_of_encoded(b, p2, m.answers);
    assert(spec_decode_records(b, p2, m.header.an_count as int) == Ok::<
        (Seq<ResourceRecordView>, int),
        DecodeError,
    >((m.answers, p3)));
    lemma_decode_records_of_encoded(b, p3, m.authorities);
    assert(spec_decode_records(b, p3, m.header.ns_count as int) == Ok::<
        (Seq<ResourceRecordView>, int),
        DecodeError,
    >((m.authorities, p4)));
    lemma_decode_records_of_encoded(b, p4, m.additionals);
    assert(spec_decode_records(b, p4, m.header.ar_count as int) == Ok::<
        (Seq<ResourceRecordView>, int),
        DecodeError,
    >((m.additionals, p5)));
}

/// Decoding the encoding of a well-formed message yields that message again:
/// the header survives, and each section reads back exactly the questions
/// and records that were written.
#[verifier::rlimit(100)]
#[verifier::spinoff_prover]
pub proof fn lemma_message_round_trip(m: RespondQueryView)
    requires
        spec_message_wf(m),
        spec_encode_message(m) is Ok,
    ensures
        spec_decode_message(spec_encode_message(m)->Ok_0) == Ok::<RespondQueryView, DecodeError>(m),
{
    let hb = spec_header_bytes(m.header);
    let qb = spec_encode_questions(m.questions)->Ok_0;
    let ab = spec_encode_records(m.answers)->Ok_0;
    let ub = spec_encode_records(m.authorities)->Ok_0;
    let db = spec_encode_records(m.additionals)->Ok_0;
    let b = spec_encode_message(m)->Ok_0;
    let sections = qb + (ab + (ub + db));
    assert(b == hb + qb + ab + ub + db);
    lemma_concat_right(hb, qb, ab, ub, db);
    assert(hb.len() == 12);
    assert(b.subrange(0, b.len() as int) =~= b);
    lemma_window_split(b, 0, hb, sections);
    lemma_decode_header_of_bytes(b, 0, m.header);
    lemma_message_sections_round_trip(m, b);
}

} // verus!
