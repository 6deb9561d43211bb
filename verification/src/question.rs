//! The question section entry: a domain name, a 16-bit type code and a
//! 16-bit class code.

use vstd::prelude::*;
use crate::codes::{
    DnsQueryClass, DnsQueryType, lemma_class_round_trip, lemma_type_round_trip, spec_class_of,
    spec_class_value, spec_class_wf, spec_type_of, spec_type_value, spec_type_wf,
};
use crate::cursor::{
    Cursor, lemma_read_u16_of_bytes, lemma_window_split, lemma_window_split_partial,
    spec_read_u16, spec_u16_bytes, u16_to_bytes,
};
use crate::errors::{DecodeError, EncodeError};
use crate::name::{
    decode_name, encode_name, lemma_decode_name_of_encoded, lemma_decode_name_of_encoded_trunc,
    spec_decode_name, spec_name_encode_result,
};

verus! {

/// The mathematical value of a question: its name text and its codes.
pub ghost struct QuestionView {
    pub q_name: Seq<char>,
    pub q_type: DnsQueryType,
    pub q_class: DnsQueryClass,
}

/// One entry of the question section.
#[derive(Debug)]
pub struct DnsQueryQuestion {
    pub q_name: String,
    pub q_type: DnsQueryType,
    pub q_class: DnsQueryClass,
}

impl View for DnsQueryQuestion {
    type V = QuestionView;

    open spec fn view(&self) -> QuestionView {
        QuestionView { q_name: self.q_name@, q_type: self.q_type, q_class: self.q_class }
    }
}

/// The codes of a well-formed question carry unknown-code variants only for
/// values without a named variant.
pub open spec fn spec_question_wf(q: QuestionView) -> bool {
    &&& spec_type_wf(q.q_type)
    &&& spec_class_wf(q.q_class)
}

/// A question read: the name, then the type and class codes mapped through
/// the code tables.
pub open spec fn spec_decode_question(b: Seq<u8>, pos: int) -> Result<
    (QuestionView, int),
    DecodeError,
> {
    match spec_decode_name(b, pos) {
        Ok((name, p1)) => match spec_read_u16(b, p1) {
            Ok((tv, p2)) => match spec_read_u16(b, p2) {
                Ok((cv, p3)) => Ok(
                    (
                        QuestionView {
                            q_name: name,
                            q_type: spec_type_of(tv),
                            q_class: spec_class_of(cv),
                        },
                        p3,
                    ),
                ),
                Err(e) => Err(e),
            },
            Err(e) => Err(e),
        },
        Err(e) => Err(e),
    }
}

/// The wire bytes of a question: the encoded name, then the two code words,
/// or the name's encode error.
pub open spec fn spec_encode_question(q: QuestionView) -> Result<Seq<u8>, EncodeError> {
    match spec_name_encode_result(q.q_name) {
        Ok(nb) => Ok(
            nb + spec_u16_bytes(spec_type_value(q.q_type)) + spec_u16_bytes(
                spec_class_value(q.q_class),
            ),
        ),
        Err(e) => Err(e),
    }
}

impl DnsQueryQuestion {
    /// Read a question at the cursor. The decoded question is well formed.
    pub fn decode(bytes: &[u8], cursor: &mut Cursor) -> (r: Result<Self, DecodeError>)
        ensures
            (match r {
                Ok(q) => spec_decode_question(bytes@, old(cursor).pos as int) == Ok::<
                    (QuestionView, int),
                    DecodeError,
                >((q@, final(cursor).pos as int)) && spec_question_wf(q@),
                Err(e) => spec_decode_question(bytes@, old(cursor).pos as int) == Err::<
                    (QuestionView, int),
                    DecodeError,
                >(e),
            }),
    {
        let q_name = match decode_name(bytes, cursor) {
            Ok(v) => v,
            Err(e) => {
                return Err(e);
            },
        };
        let tv = match cursor.read_u16(bytes) {
            Ok(v) => v,
            Err(e) => {
                return Err(e);
            },
        };
        let cv = match cursor.read_u16(bytes) {
            Ok(v) => v,
            Err(e) => {
                return Err(e);
            },
        };
        Ok(
            DnsQueryQuestion {
                q_name,
                q_type: DnsQueryType::from_u16(tv),
                q_class: DnsQueryClass::from_u16(cv),
            },
        )
    }

    /// Append the wire bytes of this question to `out`. On a name error,
    /// `out` is unchanged.
    pub fn encode(&self, out: &mut Vec<u8>) -> (r: Result<(), EncodeError>)
        ensures
            (match r {
                Ok(_) => spec_encode_question(self@) is Ok && final(out)@ == old(out)@
                    + spec_encode_question(self@)->Ok_0,
                Err(e) => spec_encode_question(self@) == Err::<Seq<u8>, EncodeError>(e)
                    && final(out)@ == old(out)@,
            }),
    {
        let mut nb = match encode_name(self.q_name.as_str()) {
            Ok(v) => v,
            Err(e) => {
                return Err(e);
            },
        };
        out.append(&mut nb);
        let tb = u16_to_bytes(self.q_type.to_u16());
        out.push(tb[0]);
        out.push(tb[1]);
        let cb = u16_to_bytes(self.q_class.to_u16());
        out.push(cb[0]);
        out.push(cb[1]);
        proof {
            assert(final(out)@ =~= old(out)@ + spec_encode_question(self@)->Ok_0);
        }
        Ok(())
    }
}

/// A question read at a window holding the encoding of a well-formed
/// question `q` yields `q` and stops right after the window.
pub proof fn lemma_decode_question_of_encoded(b: Seq<u8>, pos: int, q: QuestionView)
    requires
        spec_question_wf(q),
        spec_encode_question(q) is Ok,
        0 <= pos,
        pos + spec_encode_question(q)->Ok_0.len() <= b.len(),
        b.subrange(pos, pos + spec_encode_question(q)->Ok_0.len()) == spec_encode_question(
            q,
        )->Ok_0,
    ensures
        spec_decode_question(b, pos) == Ok::<(QuestionView, int), DecodeError>(
            (q, pos + spec_encode_question(q)->Ok_0.len()),
        ),
{
    let nb = spec_name_encode_result(q.q_name)->Ok_0;
    let tb = spec_u16_bytes(spec_type_value(q.q_type));
    let cb = spec_u16_bytes(spec_class_value(q.q_class));
    let enc = spec_encode_question(q)->Ok_0;
    assert(enc == nb + tb + cb);
    assert(tb.len() == 2 && cb.len() == 2);
    lemma_window_split(b, pos, nb + tb, cb);
    lemma_window_split(b, pos, nb, tb);
    lemma_decode_name_of_encoded(b, pos, q.q_name);
    lemma_read_u16_of_bytes(b, pos + nb.len(), spec_type_value(q.q_type));
    lemma_read_u16_of_bytes(b, pos + nb.len() + 2, spec_class_value(q.q_class));
    lemma_type_round_trip(q.q_type);
    lemma_class_round_trip(q.q_class);
}

/// A question read that meets the end of the input inside the question's
/// encoding fails with the end-of-input error.
pub proof fn lemma_decode_question_trunc(b: Seq<u8>, pos: int, q: QuestionView)
    requires
        spec_encode_question(q) is Ok,
        0 <= pos <= b.len(),
        b.len() < pos + spec_encode_question(q)->Ok_0.len(),
        b.subrange(pos, b.len() as int) == spec_encode_question(q)->Ok_0.take(b.len() - pos),
    ensures
        spec_decode_question(b, pos) == Err::<(QuestionView, int), DecodeError>(
            DecodeError::UnexpectedEndOfInput,
        ),
{
    let nb = spec_name_encode_result(q.q_name)->Ok_0;
    let tb = spec_u16_bytes(spec_type_value(q.q_type));
    let cb = spec_u16_bytes(spec_class_value(q.q_class));
    let enc = spec_encode_question(q)->Ok_0;
    assert(tb.len() == 2 && cb.len() == 2);
    assert(enc =~= nb + (tb + cb));
    lemma_window_split_partial(b, pos, nb, tb + cb);
    if b.len() < pos + nb.len() {
        lemma_decode_name_of_encoded_trunc(b, pos, q.q_name);
    } else {
        lemma_decode_name_of_encoded(b, pos, q.q_name);
        assert(b.len() < pos + nb.len() + 4);
    }
}

} // verus!
