//! The domain-name codec.
//!
//! On the wire a name is a run of length-prefixed labels closed by a zero
//! octet. A length octet whose top two bits are `11` is instead the first
//! half of a compression pointer: together with the next octet it names a
//! 14-bit offset from the start of the message, and decoding continues there.
//! A pointer must lead strictly backwards and no offset may be visited twice
//! within one name, so pointer chasing always ends. Decoding joins the labels
//! with `.`; encoding splits on `.` and produces no pointers.

use vstd::prelude::*;
use vstd::string::StrSliceExecFns;
use crate::cursor::Cursor;
use crate::errors::{DecodeError, EncodeError};

verus! {

/// The characters of the `len`-byte label whose length octet sits at `pos`:
/// each payload byte read as one character.
pub open spec fn spec_label_chars(b: Seq<u8>, pos: int, len: int) -> Seq<char> {
    Seq::new(len as nat, |k: int| b[pos + 1 + k] as char)
}

/// A label appended to the name accumulated so far, with a joining dot when
/// the accumulator already holds a label.
pub open spec fn spec_join_label(acc: Seq<char>, label: Seq<char>) -> Seq<char> {
    if acc.len() == 0 {
        label
    } else {
        acc + seq!['.'] + label
    }
}

/// One step of name decoding at `pos`, with the name text accumulated so far,
/// the octet count the labels so far would occupy in an uncompressed
/// encoding, the pointer offsets already visited, and the jumps still
/// allowed. The result pairs the full name with the position at which the
/// main read continues; a failure carries the decode error.
///
/// In order, a step fails with `UnexpectedEndOfInput` when the length octet
/// or the bytes it announces lie past the end; succeeds at a zero octet;
/// follows a pointer after checking that its offset leads strictly backwards
/// and was not visited before (`InvalidLabelLength` otherwise, also when the
/// jump budget is spent); rejects length octets 64 to 191
/// (`InvalidLabelLength`); and otherwise takes the label, rejecting a name
/// that would overrun 255 encoded octets (`InvalidLabelLength`).
pub open spec fn spec_decode_name_at(
    b: Seq<u8>,
    pos: int,
    acc: Seq<char>,
    enc_len: int,
    visited: Seq<u16>,
    gas: nat,
) -> Result<(Seq<char>, int), DecodeError>
    decreases gas, b.len() - pos,
{
    if !(0 <= pos && pos < b.len()) {
        Err(DecodeError::UnexpectedEndOfInput)
    } else {
        let len_octet = b[pos];
        if len_octet == 0 {
            Ok((acc, pos + 1))
        } else if len_octet >= 192 {
            if !(pos + 2 <= b.len()) {
                Err(DecodeError::UnexpectedEndOfInput)
            } else {
                let target = (len_octet - 192) * 256 + b[pos + 1];
                if !(target < pos) {
                    Err(DecodeError::InvalidLabelLength)
                } else if visited.contains(target as u16) {
                    Err(DecodeError::InvalidLabelLength)
                } else if gas == 0 {
                    Err(DecodeError::InvalidLabelLength)
                } else {
                    match spec_decode_name_at(
                        b,
                        target,
                        acc,
                        enc_len,
                        visited.push(target as u16),
                        (gas - 1) as nat,
                    ) {
                        Ok((name, _cont)) => Ok((name, pos + 2)),
                        Err(e) => Err(e),
                    }
                }
            }
        } else if len_octet >= 64 {
            Err(DecodeError::InvalidLabelLength)
        } else if enc_len + 1 + len_octet > 254 {
            Err(DecodeError::InvalidLabelLength)
        } else if !(pos + 1 + len_octet <= b.len()) {
            Err(DecodeError::UnexpectedEndOfInput)
        } else {
            spec_decode_name_at(
                b,
                pos + 1 + len_octet,
                spec_join_label(acc, spec_label_chars(b, pos, len_octet as int)),
                enc_len + 1 + len_octet,
                visited,
                gas,
            )
        }
    }
}

/// A whole name decoded at `pos`: no labels accumulated yet, no offsets
/// visited, and a jump budget no run can spend, since every jump records a
/// distinct offset below the buffer length.
pub open spec fn spec_decode_name(b: Seq<u8>, pos: int) -> Result<(Seq<char>, int), DecodeError> {
    spec_decode_name_at(b, pos, Seq::empty(), 0, Seq::empty(), b.len() as nat)
}

/// Relies on String::push: appends exactly one character to the string.
#[verifier::external_body]
fn push_char(s: &mut String, c: char)
    ensures
        final(s)@ == old(s)@.push(c),
{
    s.push(c);
}

/// Whether `x` occurs in `v`.
fn contains_u16(v: &Vec<u16>, x: u16) -> (found: bool)
    ensures
        found == v@.contains(x),
{
    let mut i: usize = 0;
    while i < v.len()
        invariant
            i <= v@.len(),
            forall|m: int| 0 <= m < i ==> v@[m] != x,
        decreases v@.len() - i,
    {
        if v[i] == x {
            return true;
        }
        i = i + 1;
    }
    false
}

/// Decode the domain name at the cursor, resolving compression pointers
/// against the whole buffer, whose start is the start of the message. On
/// success the cursor stands right after the name's bytes in the main run:
/// after the zero octet, or after the first pointer when one was followed.
pub fn decode_name(bytes: &[u8], cursor: &mut Cursor) -> (r: Result<String, DecodeError>)
    ensures
        (match r {
            Ok(name) => spec_decode_name(bytes@, old(cursor).pos as int) == Ok::<
                (Seq<char>, int),
                DecodeError,
            >((name@, final(cursor).pos as int)),
            Err(e) => spec_decode_name(bytes@, old(cursor).pos as int) == Err::<
                (Seq<char>, int),
                DecodeError,
            >(e),
        }),
{
    let mut name = String::new();
    let mut started = false;
    let mut enc_len: u16 = 0;
    let mut visited: Vec<u16> = Vec::new();
    let mut gas: usize = bytes.len();
    let mut ret_end: Option<usize> = None;
    loop
        invariant
            started == (name@.len() != 0),
            enc_len <= 254,
            spec_decode_name(bytes@, old(cursor).pos as int) == (match spec_decode_name_at(
                bytes@,
                cursor.pos as int,
                name@,
                enc_len as int,
                visited@,
                gas as nat,
            ) {
                Ok((nm, cont)) => Ok::<(Seq<char>, int), DecodeError>(
                    (
                        nm,
                        match ret_end {
                            Some(p) => p as int,
                            None => cont,
                        },
                    ),
                ),
                Err(e) => Err::<(Seq<char>, int), DecodeError>(e),
            }),
        decreases
                gas,
                (if cursor.pos as int <= bytes@.len() {
                    bytes@.len() - cursor.pos as int
                } else {
                    0int
                }),
    {
        let ghost spec_here = spec_decode_name_at(
            bytes@,
            cursor.pos as int,
            name@,
            enc_len as int,
            visited@,
            gas as nat,
        );
        if cursor.pos >= bytes.len() {
            proof {
                assert(spec_here == Err::<(Seq<char>, int), DecodeError>(
                    DecodeError::UnexpectedEndOfInput,
                ));
            }
            return Err(DecodeError::UnexpectedEndOfInput);
        }
        let ghost pos_before = cursor.pos as int;
        let len_octet = bytes[cursor.pos];
        if len_octet == 0 {
            proof {
                assert(spec_here == Ok::<(Seq<char>, int), DecodeError>((name@, pos_before + 1)));
            }
            let end = match ret_end {
                Some(p) => p,
                None => cursor.pos + 1,
            };
            cursor.pos = end;
            return Ok(name);
        }
        if len_octet >= 192 {
            if cursor.pos + 1 >= bytes.len() {
                proof {
                    assert(spec_here == Err::<(Seq<char>, int), DecodeError>(
                        DecodeError::UnexpectedEndOfInput,
                    ));
                }
                return Err(DecodeError::UnexpectedEndOfInput);
            }
            let target = ((len_octet - 192) as u16) * 256 + (bytes[cursor.pos + 1] as u16);
            proof {
                assert(target as int == (len_octet - 192) * 256 + bytes@[pos_before + 1]);
            }
            if !((target as usize) < cursor.pos) {
                proof {
                    assert(spec_here == Err::<(Seq<char>, int), DecodeError>(
                        DecodeError::InvalidLabelLength,
                    ));
                }
                return Err(DecodeError::InvalidLabelLength);
            }
            if contains_u16(&visited, target) {
                proof {
                    assert(spec_here == Err::<(Seq<char>, int), DecodeError>(
                        DecodeError::InvalidLabelLength,
                    ));
                }
                return Err(DecodeError::InvalidLabelLength);
            }
            if gas == 0 {
                proof {
                    assert(spec_here == Err::<(Seq<char>, int), DecodeError>(
                        DecodeError::InvalidLabelLength,
                    ));
                }
                return Err(DecodeError::InvalidLabelLength);
            }
            visited.push(target);
            if ret_end.is_none() {
                ret_end = Some(cursor.pos + 2);
            }
            cursor.pos = target as usize;
            gas = gas - 1;
            proof {
                let r_next = spec_decode_name_at(
                    bytes@,
                    target as int,
                    name@,
                    enc_len as int,
                    visited@,
                    gas as nat,
                );
                assert(spec_here == (match r_next {
                    Ok((nm, _cont)) => Ok::<(Seq<char>, int), DecodeError>((nm, pos_before + 2)),
                    Err(e) => Err::<(Seq<char>, int), DecodeError>(e),
                }));
            }
            continue ;
        }
        if len_octet >= 64 {
            proof {
                assert(spec_here == Err::<(Seq<char>, int), DecodeError>(
                    DecodeError::InvalidLabelLength,
                ));
            }
            return Err(DecodeError::InvalidLabelLength);
        }
        if enc_len + 1 + (len_octet as u16) > 254 {
            proof {
                assert(spec_here == Err::<(Seq<char>, int), DecodeError>(
                    DecodeError::InvalidLabelLength,
                ));
            }
            return Err(DecodeError::InvalidLabelLength);
        }
        if bytes.len() - cursor.pos < 1 + (len_octet as usize) {
            proof {
                assert(spec_here == Err::<(Seq<char>, int), DecodeError>(
                    DecodeError::UnexpectedEndOfInput,
                ));
            }
            return Err(DecodeError::UnexpectedEndOfInput);
        }
        let ghost acc_before = name@;
        if started {
            push_char(&mut name, '.');
        }
        let ghost joined_start = name@;
        let mut k: usize = 0;
        while k < len_octet as usize
            invariant
                k <= len_octet as int,
                cursor.pos as int + 1 + len_octet as int <= bytes@.len(),
                bytes@.len() <= usize::MAX,
                name@ == joined_start + Seq::new(
                    k as nat,
                    |m: int| bytes@[cursor.pos as int + 1 + m] as char,
                ),
            decreases len_octet as int - k,
        {
            push_char(&mut name, bytes[cursor.pos + 1 + k] as char);
            k = k + 1;
            proof {
                assert(name@ =~= joined_start + Seq::new(
                    k as nat,
                    |m: int| bytes@[cursor.pos as int + 1 + m] as char,
                ));
            }
        }
        proof {
            assert(name@ =~= spec_join_label(
                acc_before,
                spec_label_chars(bytes@, cursor.pos as int, len_octet as int),
            ));
        }
        started = true;
        enc_len = enc_len + 1 + (len_octet as u16);
        cursor.pos = cursor.pos + 1 + (len_octet as usize);
        proof {
            assert(spec_here == spec_decode_name_at(
                bytes@,
                cursor.pos as int,
                name@,
                enc_len as int,
                visited@,
                gas as nat,
            ));
        }
    }
}

/// Position of the first dot at or after `i`, or the end when there is none.
pub open spec fn spec_next_dot(s: Seq<char>, i: int) -> int
    decreases s.len() - i,
{
    if i >= s.len() {
        s.len() as int
    } else if s[i] == '.' {
        i
    } else {
        spec_next_dot(s, i + 1)
    }
}

/// The first dot at or after `i` lies between `i` and the end, is a dot when
/// it is not the end, and nothing before it is a dot.
pub proof fn lemma_next_dot_props(s: Seq<char>, i: int)
    requires
        0 <= i <= s.len(),
    ensures
        i <= spec_next_dot(s, i) <= s.len(),
        spec_next_dot(s, i) < s.len() ==> s[spec_next_dot(s, i)] == '.',
        forall|m: int| i <= m < spec_next_dot(s, i) ==> s[m] != '.',
    decreases s.len() - i,
{
    if i < s.len() && s[i] != '.' {
        lemma_next_dot_props(s, i + 1);
    }
}

/// The wire bytes of one label: its length octet, then one byte per
/// character.
pub open spec fn spec_encode_label(l: Seq<char>) -> Seq<u8> {
    seq![l.len() as u8] + Seq::new(l.len(), |k: int| (l[k] as u32) as u8)
}

/// Whether every character of `l` fits one byte.
pub open spec fn spec_label_fits(l: Seq<char>) -> bool {
    forall|k: int| 0 <= k < l.len() ==> (l[k] as u32) < 256
}

/// The label bytes of the name text from `i` on, label by label in scan
/// order: a label that is empty or longer than 63 characters fails, then a
/// label character that does not fit one byte fails, and otherwise the
/// label's bytes are emitted and the scan continues past the dot.
pub open spec fn spec_encode_labels_res(s: Seq<char>, i: int) -> Result<Seq<u8>, EncodeError>
    decreases s.len() - i,
        when 0 <= i <= s.len()
        via spec_encode_labels_res_dec
{
    let j = spec_next_dot(s, i);
    let l = s.subrange(i, j);
    if l.len() < 1 || l.len() > 63 {
        Err(EncodeError::InvalidLabelLength)
    } else if !spec_label_fits(l) {
        Err(EncodeError::FieldOverflow)
    } else if j >= s.len() {
        Ok(spec_encode_label(l))
    } else {
        match spec_encode_labels_res(s, j + 1) {
            Ok(rest) => Ok(spec_encode_label(l) + rest),
            Err(e) => Err(e),
        }
    }
}

#[via_fn]
proof fn spec_encode_labels_res_dec(s: Seq<char>, i: int) {
    lemma_next_dot_props(s, i);
}

/// The whole encoding of a name. The empty name is the root and encodes to
/// the lone zero octet; otherwise the labels encode in scan order, and an
/// encoding that would exceed 255 octets in all fails as too long.
pub open spec fn spec_name_encode_result(s: Seq<char>) -> Result<Seq<u8>, EncodeError> {
    if s.len() == 0 {
        Ok(seq![0u8])
    } else {
        match spec_encode_labels_res(s, 0) {
            Ok(bs) => {
                if bs.len() + 1 > 255 {
                    Err(EncodeError::NameTooLong)
                } else {
                    Ok(bs + seq![0u8])
                }
            },
            Err(e) => Err(e),
        }
    }
}

/// Encode a dotted name into length-prefixed labels closed by a zero octet.
/// No compression is produced. Fails on an empty or over-long label, on a
/// character that does not fit one byte, and on a name whose encoding would
/// exceed 255 octets, as `spec_name_encode_result` states.
#[verifier::loop_isolation(false)]
pub fn encode_name(name: &str) -> (r: Result<Vec<u8>, EncodeError>)
    ensures
        (match r {
            Ok(v) => spec_name_encode_result(name@) == Ok::<Seq<u8>, EncodeError>(v@),
            Err(e) => spec_name_encode_result(name@) == Err::<Seq<u8>, EncodeError>(e),
        }),
{
    let n = name.unicode_len();
    let mut v: Vec<u8> = Vec::new();
    if n == 0 {
        v.push(0u8);
        proof {
            assert(v@ =~= seq![0u8]);
        }
        return Ok(v);
    }
    let mut i: usize = 0;
    loop
        invariant
            0 <= i <= n,
            spec_encode_labels_res(name@, 0) == (match spec_encode_labels_res(name@, i as int) {
                Ok(rest) => Ok::<Seq<u8>, EncodeError>(v@ + rest),
                Err(e) => Err::<Seq<u8>, EncodeError>(e),
            }),
        decreases n - i,
    {
        let ghost rem_here = spec_encode_labels_res(name@, i as int);
        let mut j: usize = i;
        while j < n && name.get_char(j) != '.'
            invariant
                i <= j <= n,
                forall|m: int| i <= m < j ==> name@[m] != '.',
            decreases n - j,
        {
            j = j + 1;
        }
        proof {
            lemma_next_dot_props(name@, i as int);
            let nd = spec_next_dot(name@, i as int);
            if j < nd {
                assert(name@[j as int] == '.');
            }
            if nd < j {
                assert(name@[nd] != '.');
            }
            assert(j as int == nd);
        }
        let l_len = j - i;
        let ghost l = name@.subrange(i as int, j as int);
        if l_len == 0 || l_len > 63 {
            proof {
                assert(rem_here == Err::<Seq<u8>, EncodeError>(EncodeError::InvalidLabelLength));
            }
            return Err(EncodeError::InvalidLabelLength);
        }
        let ghost v_start = v@;
        v.push(l_len as u8);
        let mut k: usize = i;
        while k < j
            invariant
                i <= k <= j,
                forall|m: int| i <= m < k ==> (name@[m] as u32) < 256,
                v@ == v_start + seq![l_len as u8] + Seq::new(
                    (k - i) as nat,
                    |m: int| (name@[i + m] as u32) as u8,
                ),
            decreases j - k,
        {
            let c = name.get_char(k);
            let cu = c as u32;
            if cu >= 256 {
                proof {
                    assert((l[k - i] as u32) >= 256);
                    assert(!spec_label_fits(l));
                    assert(rem_here == Err::<Seq<u8>, EncodeError>(EncodeError::FieldOverflow));
                }
                return Err(EncodeError::FieldOverflow);
            }
            v.push(cu as u8);
            k = k + 1;
            proof {
                assert(v@ =~= v_start + seq![l_len as u8] + Seq::new(
                    (k - i) as nat,
                    |m: int| (name@[i + m] as u32) as u8,
                ));
            }
        }
        proof {
            assert(spec_label_fits(l));
            assert(v@ =~= v_start + spec_encode_label(l));
        }
        if j >= n {
            proof {
                assert(rem_here == Ok::<Seq<u8>, EncodeError>(spec_encode_label(l)));
                assert(v_start + spec_encode_label(l) =~= v@);
                assert(spec_encode_labels_res(name@, 0) == Ok::<Seq<u8>, EncodeError>(v@));
            }
            break ;
        }
        i = j + 1;
        proof {
            let rem_next = spec_encode_labels_res(name@, i as int);
            assert(rem_here == (match rem_next {
                Ok(rest) => Ok::<Seq<u8>, EncodeError>(spec_encode_label(l) + rest),
                Err(e) => Err::<Seq<u8>, EncodeError>(e),
            }));
            if rem_next is Ok {
                assert(v_start + (spec_encode_label(l) + rem_next->Ok_0) =~= v@
                    + rem_next->Ok_0);
            }
        }
    }
    if v.len() > 254 {
        return Err(EncodeError::NameTooLong);
    }
    v.push(0u8);
    proof {
        assert(v@ =~= spec_encode_labels_res(name@, 0)->Ok_0 + seq![0u8]);
    }
    Ok(v)
}

/// One byte of a window equals the matching byte of the buffer it sits in.
proof fn lemma_window_index(b: Seq<u8>, pos: int, w: Seq<u8>, m: int)
    requires
        0 <= pos,
        pos + w.len() <= b.len(),
        b.subrange(pos, pos + w.len()) == w,
        0 <= m < w.len(),
    ensures
        b[pos + m] == w[m],
{
    assert(b.subrange(pos, pos + w.len())[m] == b[pos + m]);
}

/// Joining the label `s[i..j]` onto the name text decoded for `s[..i-1]`
/// yields the text `s[..j]`, given that a dot stands at `i - 1`.
proof fn lemma_join_prefix(s: Seq<char>, i: int, j: int)
    requires
        0 <= i <= j <= s.len(),
        i != 1,
        i == 0 || s[i - 1] == '.',
    ensures
        spec_join_label(
            if i == 0 {
                Seq::<char>::empty()
            } else {
                s.subrange(0, i - 1)
            },
            s.subrange(i, j),
        ) == s.subrange(0, j),
{
    let l = s.subrange(i, j);
    if i == 0 {
        assert(spec_join_label(Seq::<char>::empty(), l) =~= s.subrange(0, j));
    } else {
        let acc = s.subrange(0, i - 1);
        let a2 = acc + seq!['.'];
        let r = a2 + l;
        assert(acc.len() == i - 1);
        assert(spec_join_label(acc, l) == r);
        assert forall|m: int| 0 <= m < j implies r[m] == s[m] by {
            if m < i - 1 {
                assert(r[m] == a2[m]);
                assert(a2[m] == acc[m]);
                assert(acc[m] == s[m]);
            } else if m == i - 1 {
                assert(r[m] == a2[m]);
                assert(a2[m] == '.');
            } else {
                assert(r[m] == l[m - i]);
                assert(l[m - i] == s[m]);
            }
        }
        assert(r =~= s.subrange(0, j));
    }
}

/// Decoding an encoded label run: at a window that holds the label bytes of
/// the name text from `i` on, followed by the closing zero octet, decoding
/// continues the name accumulated for the text before `i` and yields the
/// whole text, stopping right after the zero octet. Compression pointers play
/// no part: an encoded name holds none.
proof fn lemma_decode_of_encoded_labels(
    s: Seq<char>,
    i: int,
    b: Seq<u8>,
    pos: int,
    visited: Seq<u16>,
    gas: nat,
)
    requires
        0 < s.len(),
        0 <= i <= s.len(),
        i != 1,
        i == 0 || s[i - 1] == '.',
        spec_encode_labels_res(s, i) is Ok,
        0 <= pos,
        pos + spec_encode_labels_res(s, i)->Ok_0.len() + 1 <= b.len(),
        b.subrange(pos, pos + spec_encode_labels_res(s, i)->Ok_0.len()) == spec_encode_labels_res(
            s,
            i,
        )->Ok_0,
        b[pos + spec_encode_labels_res(s, i)->Ok_0.len()] == 0,
        (if i == 0 {
            0int
        } else {
            i
        }) + spec_encode_labels_res(s, i)->Ok_0.len() <= 254,
    ensures
        spec_decode_name_at(
            b,
            pos,
            if i == 0 {
                Seq::<char>::empty()
            } else {
                s.subrange(0, i - 1)
            },
            if i == 0 {
                0int
            } else {
                i
            },
            visited,
            gas,
        ) == Ok::<(Seq<char>, int), DecodeError>(
            (s, pos + spec_encode_labels_res(s, i)->Ok_0.len() + 1),
        ),
    decreases s.len() - i,
{
    lemma_next_dot_props(s, i);
    let j = spec_next_dot(s, i);
    let l = s.subrange(i, j);
    let bs = spec_encode_labels_res(s, i)->Ok_0;
    let acc = if i == 0 {
        Seq::<char>::empty()
    } else {
        s.subrange(0, i - 1)
    };
    let enc_len: int = if i == 0 {
        0
    } else {
        i
    };
    assert(1 <= l.len() <= 63);
    assert(spec_label_fits(l));
    let el = spec_encode_label(l);
    let lbytes = Seq::new(l.len(), |k: int| (l[k] as u32) as u8);
    assert(el == seq![l.len() as u8] + lbytes);
    assert(el.len() == 1 + l.len());
    assert(el[0] == l.len() as u8);
    if j >= s.len() {
        assert(bs == el);
    } else {
        assert(spec_encode_labels_res(s, j + 1) is Ok);
        assert(bs == el + spec_encode_labels_res(s, j + 1)->Ok_0);
        assert(bs[0] == el[0]);
    }
    lemma_window_index(b, pos, bs, 0);
    assert(b[pos] == l.len() as u8);
    assert forall|k: int| 0 <= k < l.len() implies spec_label_chars(b, pos, l.len() as int)[k]
        == l[k] by {
        lemma_window_index(b, pos, bs, 1 + k);
        if j < s.len() {
            assert(bs[1 + k] == el[1 + k]);
        }
        assert(el[1 + k] == lbytes[k]);
        assert(lbytes[k] == ((l[k] as u32) as u8));
        assert((l[k] as u32) < 256);
        let u = l[k] as u32;
        let x = u as u8;
        assert(x as int == u as int);
        vstd::utf8::char_u32_cast(l[k], u);
        assert((x as char) == l[k]);
        assert(spec_label_chars(b, pos, l.len() as int)[k] == (b[pos + 1 + k]) as char);
        assert(b[pos + 1 + k] == b[pos + (1 + k)]);
    }
    assert(spec_label_chars(b, pos, l.len() as int) =~= l);
    lemma_join_prefix(s, i, j);
    let acc2 = spec_join_label(acc, spec_label_chars(b, pos, l.len() as int));
    assert(acc2 == s.subrange(0, j));
    let pos2 = pos + 1 + l.len();
    let enc_len2 = enc_len + 1 + l.len();
    if j >= s.len() {
        assert(acc2 =~= s);
        assert(b[pos2] == 0) by {
            assert(pos2 == pos + bs.len());
        }
        assert(spec_decode_name_at(b, pos2, acc2, enc_len2, visited, gas) == Ok::<
            (Seq<char>, int),
            DecodeError,
        >((acc2, pos2 + 1)));
    } else {
        let rest = spec_encode_labels_res(s, j + 1)->Ok_0;
        assert(s[j] == '.');
        assert(enc_len2 == j + 1);
        assert(bs.len() == el.len() + rest.len());
        assert forall|m: int| 0 <= m < rest.len() implies b.subrange(pos2, pos2 + rest.len())[m]
            == rest[m] by {
            lemma_window_index(b, pos, bs, el.len() + m);
            assert(bs[el.len() + m] == rest[m]);
            assert(b.subrange(pos2, pos2 + rest.len())[m] == b[pos2 + m]);
            assert(b[pos + (el.len() + m)] == b[pos2 + m]);
        }
        assert(b.subrange(pos2, pos2 + rest.len()) =~= rest);
        assert(b[pos2 + rest.len()] == 0) by {
            assert(pos2 + rest.len() == pos + bs.len());
        }
        lemma_decode_of_encoded_labels(s, j + 1, b, pos2, visited, gas);
        assert(spec_decode_name_at(b, pos2, s.subrange(0, j), j + 1, visited, gas) == Ok::<
            (Seq<char>, int),
            DecodeError,
        >((s, pos2 + rest.len() + 1)));
        assert(pos2 + rest.len() + 1 == pos + bs.len() + 1);
    }
}

/// A name read at a window holding a successful name encoding yields the
/// encoded text and stops right after the window, whatever the rest of the
/// buffer holds.
pub proof fn lemma_decode_name_of_encoded(b: Seq<u8>, pos: int, s: Seq<char>)
    requires
        spec_name_encode_result(s) is Ok,
        0 <= pos,
        pos + spec_name_encode_result(s)->Ok_0.len() <= b.len(),
        b.subrange(pos, pos + spec_name_encode_result(s)->Ok_0.len()) == spec_name_encode_result(
            s,
        )->Ok_0,
    ensures
        spec_decode_name(b, pos) == Ok::<(Seq<char>, int), DecodeError>(
            (s, pos + spec_name_encode_result(s)->Ok_0.len()),
        ),
{
    let enc = spec_name_encode_result(s)->Ok_0;
    assert forall|m: int| 0 <= m < enc.len() implies b[pos + m] == enc[m] by {
        assert(b.subrange(pos, pos + enc.len())[m] == b[pos + m]);
    }
    if s.len() == 0 {
        assert(enc == seq![0u8]);
        lemma_window_index(b, pos, enc, 0);
        assert(b[pos] == 0);
        assert(s =~= Seq::<char>::empty());
        assert(spec_decode_name(b, pos) == Ok::<(Seq<char>, int), DecodeError>((s, pos + 1)));
    } else {
        let bs = spec_encode_labels_res(s, 0)->Ok_0;
        assert(enc == bs + seq![0u8]);
        assert(enc.len() == bs.len() + 1);
        assert forall|m: int| 0 <= m < bs.len() implies b.subrange(pos, pos + bs.len())[m]
            == bs[m] by {
            lemma_window_index(b, pos, enc, m);
            assert(enc[m] == bs[m]);
            assert(b.subrange(pos, pos + bs.len())[m] == b[pos + m]);
        }
        assert(b.subrange(pos, pos + bs.len()) =~= bs);
        lemma_window_index(b, pos, enc, bs.len() as int);
        assert(enc[bs.len() as int] == 0);
        lemma_decode_of_encoded_labels(s, 0, b, pos, Seq::empty(), b.len() as nat);
        assert(enc.len() == bs.len() + 1);
        assert(spec_decode_name(b, pos) == Ok::<(Seq<char>, int), DecodeError>(
            (s, pos + bs.len() + 1),
        ));
    }
}

/// Decoding the encoding of a name yields the name again: for every name the
/// encoder accepts, among them all names of labels of at most 63 one-byte
/// characters whose encoding fits 255 octets, the decoder reads the encoded
/// bytes back to exactly the original text, consuming exactly the encoding.
pub proof fn lemma_name_round_trip(s: Seq<char>)
    requires
        spec_name_encode_result(s) is Ok,
    ensures
        spec_decode_name(spec_name_encode_result(s)->Ok_0, 0) == Ok::<
            (Seq<char>, int),
            DecodeError,
        >((s, spec_name_encode_result(s)->Ok_0.len() as int)),
{
    let enc = spec_name_encode_result(s)->Ok_0;
    assert(enc.subrange(0, enc.len() as int) =~= enc);
    lemma_decode_name_of_encoded(enc, 0, s);
}

/// Decoding a truncated encoded label run: at a window that holds only a
/// strict prefix of the label bytes and closing zero octet of the name text
/// from `i` on, decoding fails for want of input, whatever name text was
/// accumulated before.
proof fn lemma_decode_of_encoded_labels_trunc(
    s: Seq<char>,
    i: int,
    b: Seq<u8>,
    pos: int,
    acc: Seq<char>,
    enc_len: int,
    visited: Seq<u16>,
    gas: nat,
)
    requires
        0 < s.len(),
        0 <= i <= s.len(),
        spec_encode_labels_res(s, i) is Ok,
        0 <= pos <= b.len(),
        b.len() < pos + spec_encode_labels_res(s, i)->Ok_0.len() + 1,
        b.subrange(pos, b.len() as int) == (spec_encode_labels_res(s, i)->Ok_0
            + seq![0u8]).take(b.len() - pos),
        0 <= enc_len,
        enc_len + spec_encode_labels_res(s, i)->Ok_0.len() <= 254,
    ensures
        spec_decode_name_at(b, pos, acc, enc_len, visited, gas) == Err::<
            (Seq<char>, int),
            DecodeError,
        >(DecodeError::UnexpectedEndOfInput),
    decreases s.len() - i,
{
    lemma_next_dot_props(s, i);
    let j = spec_next_dot(s, i);
    let l = s.subrange(i, j);
    let bs = spec_encode_labels_res(s, i)->Ok_0;
    let w = bs + seq![0u8];
    assert(1 <= l.len() <= 63);
    let el = spec_encode_label(l);
    let lbytes = Seq::new(l.len(), |k: int| (l[k] as u32) as u8);
    assert(el == seq![l.len() as u8] + lbytes);
    assert(el.len() == 1 + l.len());
    assert(el[0] == l.len() as u8);
    if j >= s.len() {
        assert(bs == el);
    } else {
        assert(spec_encode_labels_res(s, j + 1) is Ok);
        assert(bs == el + spec_encode_labels_res(s, j + 1)->Ok_0);
        assert(bs[0] == el[0]);
    }
    assert forall|m: int| 0 <= m < b.len() - pos implies b[pos + m] == w[m] by {
        assert(b.subrange(pos, b.len() as int)[m] == b[pos + m]);
        assert(w.take(b.len() - pos)[m] == w[m]);
    }
    if pos == b.len() {
        assert(spec_decode_name_at(b, pos, acc, enc_len, visited, gas) == Err::<
            (Seq<char>, int),
            DecodeError,
        >(DecodeError::UnexpectedEndOfInput));
    } else {
        assert(b[pos + 0] == w[0]);
        assert(w[0] == bs[0]);
        assert(b[pos] == l.len() as u8);
        assert(enc_len + 1 + l.len() <= 254);
        let pos2 = pos + 1 + l.len();
        let enc_len2 = enc_len + 1 + l.len();
        if pos2 > b.len() {
            assert(spec_decode_name_at(b, pos, acc, enc_len, visited, gas) == Err::<
                (Seq<char>, int),
                DecodeError,
            >(DecodeError::UnexpectedEndOfInput));
        } else {
            let acc2 = spec_join_label(acc, spec_label_chars(b, pos, l.len() as int));
            if j >= s.len() {
                assert(pos2 == b.len());
                assert(spec_decode_name_at(b, pos2, acc2, enc_len2, visited, gas) == Err::<
                    (Seq<char>, int),
                    DecodeError,
                >(DecodeError::UnexpectedEndOfInput));
            } else {
                let rest = spec_encode_labels_res(s, j + 1)->Ok_0;
                let w2 = rest + seq![0u8];
                assert(bs.len() == el.len() + rest.len());
                assert forall|m: int| 0 <= m < b.len() - pos2 implies b.subrange(
                    pos2,
                    b.len() as int,
                )[m] == w2.take(b.len() - pos2)[m] by {
                    assert(b.subrange(pos2, b.len() as int)[m] == b[pos2 + m]);
                    assert(b[pos + (el.len() + m)] == w[el.len() + m]);
                    assert(b[pos2 + m] == b[pos + (el.len() + m)]);
                    if el.len() + m < bs.len() {
                        assert(w[el.len() + m] == bs[el.len() + m]);
                        assert(bs[el.len() + m] == rest[m]);
                        assert(w2[m] == rest[m]);
                    } else {
                        assert(m == rest.len());
                        assert(w[el.len() + m] == 0);
                        assert(w2[m] == 0);
                    }
                    assert(w2.take(b.len() - pos2)[m] == w2[m]);
                }
                assert(b.subrange(pos2, b.len() as int) =~= w2.take(b.len() - pos2));
                assert(enc_len2 + rest.len() <= 254);
                lemma_decode_of_encoded_labels_trunc(
                    s,
                    j + 1,
                    b,
                    pos2,
                    acc2,
                    enc_len2,
                    visited,
                    gas,
                );
            }
        }
    }
}

/// A name read that meets the end of the input inside the encoding of a name
/// fails with the end-of-input error: a window that holds only a strict
/// prefix of a successful name encoding never decodes to anything else.
pub proof fn lemma_decode_name_of_encoded_trunc(b: Seq<u8>, pos: int, s: Seq<char>)
    requires
        spec_name_encode_result(s) is Ok,
        0 <= pos <= b.len(),
        b.len() < pos + spec_name_encode_result(s)->Ok_0.len(),
        b.subrange(pos, b.len() as int) == spec_name_encode_result(s)->Ok_0.take(b.len() - pos),
    ensures
        spec_decode_name(b, pos) == Err::<(Seq<char>, int), DecodeError>(
            DecodeError::UnexpectedEndOfInput,
        ),
{
    let enc = spec_name_encode_result(s)->Ok_0;
    if s.len() == 0 {
        assert(enc.len() == 1);
        assert(pos == b.len());
    } else {
        let bs = spec_encode_labels_res(s, 0)->Ok_0;
        assert(enc == bs + seq![0u8]);
        assert(bs.len() + 1 <= 255);
        lemma_decode_of_encoded_labels_trunc(
            s,
            0,
            b,
            pos,
            Seq::empty(),
            0,
            Seq::empty(),
            b.len() as nat,
        );
    }
}

/// A compression pointer whose offset was already visited within the same
/// name is rejected as an invalid label, as is one that does not lead
/// strictly backwards; pointer chasing therefore never returns to an offset
/// and always ends.
pub proof fn lemma_name_pointer_revisit_rejected(
    b: Seq<u8>,
    pos: int,
    acc: Seq<char>,
    enc_len: int,
    visited: Seq<u16>,
    gas: nat,
)
    requires
        0 <= pos,
        pos + 2 <= b.len(),
        b[pos] >= 192,
        visited.contains((((b[pos] - 192) * 256 + b[pos + 1]) as u16)),
    ensures
        spec_decode_name_at(b, pos, acc, enc_len, visited, gas) == Err::<
            (Seq<char>, int),
            DecodeError,
        >(DecodeError::InvalidLabelLength),
{
}

/// A successful name read lands strictly past where it began and within the
/// buffer.
pub proof fn lemma_decode_name_at_bounds(
    b: Seq<u8>,
    pos: int,
    acc: Seq<char>,
    enc_len: int,
    visited: Seq<u16>,
    gas: nat,
)
    requires
        spec_decode_name_at(b, pos, acc, enc_len, visited, gas) is Ok,
    ensures
        pos + 1 <= spec_decode_name_at(b, pos, acc, enc_len, visited, gas)->Ok_0.1 <= b.len(),
    decreases gas, b.len() - pos,
{
    let len_octet = b[pos];
    if len_octet == 0 {
    } else if len_octet >= 192 {
    } else {
        lemma_decode_name_at_bounds(
            b,
            pos + 1 + len_octet,
            spec_join_label(acc, spec_label_chars(b, pos, len_octet as int)),
            enc_len + 1 + len_octet,
            visited,
            gas,
        );
    }
}

/// A successful whole-name read lands strictly past where it began and
/// within the buffer.
pub proof fn lemma_decode_name_bounds(b: Seq<u8>, pos: int)
    requires
        spec_decode_name(b, pos) is Ok,
    ensures
        pos + 1 <= spec_decode_name(b, pos)->Ok_0.1 <= b.len(),
{
    lemma_decode_name_at_bounds(b, pos, Seq::empty(), 0, Seq::empty(), b.len() as nat);
}

/// The dot-separated labels of the name text from `i` on.
pub open spec fn spec_labels_from(s: Seq<char>, i: int) -> Seq<Seq<char>>
    decreases s.len() - i,
        when 0 <= i <= s.len()
        via spec_labels_from_dec
{
    let j = spec_next_dot(s, i);
    if j >= s.len() {
        seq![s.subrange(i, s.len() as int)]
    } else {
        seq![s.subrange(i, j)] + spec_labels_from(s, j + 1)
    }
}

#[via_fn]
proof fn spec_labels_from_dec(s: Seq<char>, i: int) {
    lemma_next_dot_props(s, i);
}

/// The dot-separated labels of a name; the empty name is the root and has
/// none.
pub open spec fn spec_name_labels(s: Seq<char>) -> Seq<Seq<char>> {
    if s.len() == 0 {
        Seq::empty()
    } else {
        spec_labels_from(s, 0)
    }
}

/// The label bytes of a run of labels, one encoded label after another.
pub open spec fn spec_encode_labels(ls: Seq<Seq<char>>) -> Seq<u8>
    decreases ls.len(),
{
    if ls.len() == 0 {
        Seq::empty()
    } else {
        spec_encode_label(ls[0]) + spec_encode_labels(ls.drop_first())
    }
}

/// A name the encoder owes success on: every label has 1 to 63 characters,
/// each character fits one byte, and the whole encoding, closing zero octet
/// included, fits 255 octets.
pub open spec fn spec_name_valid(s: Seq<char>) -> bool {
    let ls = spec_name_labels(s);
    &&& (forall|i: int| 0 <= i < ls.len() ==> 1 <= (#[trigger] ls[i]).len() <= 63)
    &&& (forall|i: int| 0 <= i < ls.len() ==> spec_label_fits(#[trigger] ls[i]))
    &&& spec_encode_labels(ls).len() + 1 <= 255
}

/// The label run from `i` encodes successfully exactly when all its labels
/// are well formed, and then to the concatenation of their encodings.
proof fn lemma_encode_labels_res_iff(s: Seq<char>, i: int)
    requires
        0 <= i <= s.len(),
    ensures
        spec_encode_labels_res(s, i) is Ok <==> ((forall|k: int|
            0 <= k < spec_labels_from(s, i).len() ==> 1 <= (#[trigger] spec_labels_from(s, i)[k]).len()
                <= 63) && (forall|k: int|
            0 <= k < spec_labels_from(s, i).len() ==> spec_label_fits(
                #[trigger] spec_labels_from(s, i)[k],
            ))),
        spec_encode_labels_res(s, i) is Ok ==> spec_encode_labels_res(s, i)->Ok_0
            == spec_encode_labels(spec_labels_from(s, i)),
    decreases s.len() - i,
{
    lemma_next_dot_props(s, i);
    let j = spec_next_dot(s, i);
    let l = s.subrange(i, j);
    let ls = spec_labels_from(s, i);
    if j >= s.len() {
        assert(ls == seq![l]);
        assert(ls[0] == l);
        if spec_encode_labels_res(s, i) is Ok {
            assert(spec_encode_labels(ls) =~= spec_encode_label(l) + spec_encode_labels(
                ls.drop_first(),
            ));
            assert(ls.drop_first() =~= Seq::<Seq<char>>::empty());
            assert(spec_encode_label(l) + Seq::<u8>::empty() =~= spec_encode_label(l));
        }
    } else {
        let rest = spec_labels_from(s, j + 1);
        assert(ls == seq![l] + rest);
        assert(ls[0] == l);
        assert(forall|k: int| 0 <= k < rest.len() ==> #[trigger] rest[k] == ls[k + 1]);
        lemma_encode_labels_res_iff(s, j + 1);
        if spec_encode_labels_res(s, i) is Ok {
            assert(ls.drop_first() =~= rest);
        } else {
            if 1 <= l.len() <= 63 && spec_label_fits(l) {
                assert(spec_encode_labels_res(s, j + 1) is Err);
            }
        }
    }
}

/// The encoder succeeds on exactly the valid names, and then its result is
/// the labels' encodings closed by the zero octet. Together with the round
/// trip this owes every name of one-byte labels of at most 63 characters,
/// fitting 255 encoded octets in all, a successful encode and an identical
/// decode.
pub proof fn lemma_name_encode_ok_iff(s: Seq<char>)
    ensures
        spec_name_encode_result(s) is Ok <==> spec_name_valid(s),
        spec_name_encode_result(s) is Ok ==> spec_name_encode_result(s)->Ok_0
            == spec_encode_labels(spec_name_labels(s)) + seq![0u8],
{
    if s.len() == 0 {
        assert(spec_name_labels(s) == Seq::<Seq<char>>::empty());
        assert(spec_encode_labels(spec_name_labels(s)) + seq![0u8] =~= seq![0u8]);
    } else {
        lemma_encode_labels_res_iff(s, 0);
    }
}

} // verus!
