use dns_query_parser::codes::{DnsQueryClass, DnsQueryType};
use dns_query_parser::errors::{DecodeError, EncodeError};
use dns_query_parser::flags::{
    DnsQueryHeaderFlagsOpcode, DnsQueryHeaderFlagsQr, DnsQueryHeaderFlagsRcode,
    DnsQueryHeaderFlagsRd,
};
use dns_query_parser::message::{decode_message, encode_message, encode_query, DnsRequestQuery};
use dns_query_parser::record::DnsQueryResourceRecordRDataType;

/// A captured response: header, one question for www.example.com IN A, and
/// one answer whose name is a compression pointer to offset 12.
const RESPONSE: [u8; 49] = [
    0x00, 0x00, 0x81, 0x80, 0x00, 0x01, 0x00, 0x01, 0x00, 0x00, 0x00, 0x00, 0x03, 0x77, 0x77,
    0x77, 0x07, 0x65, 0x78, 0x61, 0x6d, 0x70, 0x6c, 0x65, 0x03, 0x63, 0x6f, 0x6d, 0x00, 0x00,
    0x01, 0x00, 0x01, 0xc0, 0x0c, 0x00, 0x01, 0x00, 0x01, 0x00, 0x00, 0x2f, 0x19, 0x00, 0x04,
    0x5d, 0xb8, 0xd8, 0x22,
];

#[test]
fn decode_captured_response() {
    let m = decode_message(&RESPONSE).unwrap();
    assert_eq!(m.header.id, 0);
    assert!(matches!(m.header.flags.qr, DnsQueryHeaderFlagsQr::Response));
    assert!(matches!(
        m.header.flags.op_code,
        DnsQueryHeaderFlagsOpcode::StdQuery
    ));
    assert!(matches!(
        m.header.flags.r_code,
        DnsQueryHeaderFlagsRcode::NoErr
    ));
    assert_eq!(m.header.qd_count, 1);
    assert_eq!(m.header.an_count, 1);
    assert_eq!(m.header.ns_count, 0);
    assert_eq!(m.header.ar_count, 0);

    assert_eq!(m.questions.len(), 1);
    let q = &m.questions[0];
    assert_eq!(q.q_name, "www.example.com");
    assert!(matches!(q.q_type, DnsQueryType::A));
    assert!(matches!(q.q_class, DnsQueryClass::In));

    assert_eq!(m.answers.len(), 1);
    let a = &m.answers[0];
    assert_eq!(a.name, "www.example.com");
    assert!(matches!(a.type_, DnsQueryType::A));
    assert!(matches!(a.class, DnsQueryClass::In));
    assert_eq!(a.ttl, 12057);
    assert_eq!(a.rd_length, 4);
    assert!(matches!(
        a.r_data,
        DnsQueryResourceRecordRDataType::Ipv4(93, 184, 216, 34)
    ));
    assert_eq!(m.authorities.len(), 0);
    assert_eq!(m.additionals.len(), 0);
}

#[test]
fn encode_query_for_example() {
    let query = DnsRequestQuery::from_url(String::from("www.example.com"));
    let bytes = encode_query(&query).unwrap();
    let expected: Vec<u8> = vec![
        0x00, 0x00, 0x01, 0x00, 0x00, 0x01, 0x00, 0x00, 0x00, 0x00, 0x00, 0x00, 0x03, 0x77,
        0x77, 0x77, 0x07, 0x65, 0x78, 0x61, 0x6d, 0x70, 0x6c, 0x65, 0x03, 0x63, 0x6f, 0x6d,
        0x00, 0x00, 0x01, 0x00, 0x01,
    ];
    assert_eq!(bytes, expected);
    // The question section matches the captured response byte for byte.
    assert_eq!(bytes[12..33], RESPONSE[12..33]);
}

#[test]
fn from_url_builds_standard_query() {
    let q = DnsRequestQuery::from_url(String::from("host.test"));
    assert_eq!(q.header.id, 0);
    assert!(matches!(q.header.flags.qr, DnsQueryHeaderFlagsQr::Query));
    assert!(matches!(
        q.header.flags.op_code,
        DnsQueryHeaderFlagsOpcode::StdQuery
    ));
    assert!(matches!(q.header.flags.rd, DnsQueryHeaderFlagsRd::Recur));
    assert_eq!(q.header.qd_count, 1);
    assert_eq!(q.header.an_count, 0);
    assert_eq!(q.header.ns_count, 0);
    assert_eq!(q.header.ar_count, 0);
    assert_eq!(q.question.q_name, "host.test");
    assert!(matches!(q.question.q_type, DnsQueryType::A));
    assert!(matches!(q.question.q_class, DnsQueryClass::In));
}

#[test]
fn truncated_message_always_ends_unexpectedly() {
    // Cutting the captured response at any byte offset makes the decode fail
    // for want of input, never panic and never succeed.
    for k in 0..RESPONSE.len() {
        assert_eq!(
            decode_message(&RESPONSE[..k]).unwrap_err(),
            DecodeError::UnexpectedEndOfInput,
            "truncation at {k}"
        );
    }
}

#[test]
fn reencoded_response_round_trips() {
    // Re-encoding writes the answer's name in full instead of the pointer,
    // and decoding the longer buffer yields the same message again.
    let m = decode_message(&RESPONSE).unwrap();
    let bytes = encode_message(&m).unwrap();
    assert_eq!(bytes.len(), RESPONSE.len() + 15);
    let n = decode_message(&bytes).unwrap();
    assert_eq!(n.header, m.header);
    assert_eq!(n.questions[0].q_name, m.questions[0].q_name);
    assert_eq!(n.answers[0].name, m.answers[0].name);
    assert_eq!(n.answers[0].ttl, m.answers[0].ttl);
    assert!(matches!(
        n.answers[0].r_data,
        DnsQueryResourceRecordRDataType::Ipv4(93, 184, 216, 34)
    ));
}

#[test]
fn rdata_length_mismatch_rejected() {
    // A record declaring rd_length 5 for an IN A payload: the four address
    // bytes read fine, then the count mismatch aborts the decode.
    let bytes: Vec<u8> = vec![
        0x00, 0x00, 0x00, 0x00, 0x00, 0x00, 0x00, 0x01, 0x00, 0x00, 0x00, 0x00, // header
        0x00, // root name
        0x00, 0x01, // type A
        0x00, 0x01, // class IN
        0x00, 0x00, 0x00, 0x00, // ttl
        0x00, 0x05, // rd_length 5
        0x01, 0x02, 0x03, 0x04, 0x05,
    ];
    assert_eq!(
        decode_message(&bytes).unwrap_err(),
        DecodeError::RdataLengthMismatch
    );
}

#[test]
fn cname_record_decodes_by_its_own_length() {
    // An IN CNAME record whose payload is a 5-octet name encoding.
    let bytes: Vec<u8> = vec![
        0x00, 0x00, 0x00, 0x00, 0x00, 0x00, 0x00, 0x01, 0x00, 0x00, 0x00, 0x00, // header
        0x00, // root name
        0x00, 0x05, // type CNAME
        0x00, 0x01, // class IN
        0x00, 0x00, 0x00, 0x3c, // ttl 60
        0x00, 0x05, // rd_length
        0x03, b'f', b'o', b'o', 0x00, // "foo"
    ];
    let m = decode_message(&bytes).unwrap();
    let a = &m.answers[0];
    match &a.r_data {
        DnsQueryResourceRecordRDataType::Name(n) => assert_eq!(n, "foo"),
        other => panic!("wrong rdata variant: {other:?}"),
    }
}

#[test]
fn cname_record_length_mismatch_rejected() {
    let bytes: Vec<u8> = vec![
        0x00, 0x00, 0x00, 0x00, 0x00, 0x00, 0x00, 0x01, 0x00, 0x00, 0x00, 0x00, // header
        0x00, // root name
        0x00, 0x05, // type CNAME
        0x00, 0x01, // class IN
        0x00, 0x00, 0x00, 0x3c, // ttl
        0x00, 0x06, // rd_length does not match the 5-octet name
        0x03, b'f', b'o', b'o', 0x00, 0xff,
    ];
    assert_eq!(
        decode_message(&bytes).unwrap_err(),
        DecodeError::RdataLengthMismatch
    );
}

#[test]
fn unknown_codes_carry_raw_payload() {
    // Class 2 has no named variant; type 16 is TXT. The payload is carried
    // opaque, rd_length octets long.
    let bytes: Vec<u8> = vec![
        0x00, 0x00, 0x00, 0x00, 0x00, 0x00, 0x00, 0x01, 0x00, 0x00, 0x00, 0x00, // header
        0x00, // root name
        0x00, 0x10, // type TXT
        0x00, 0x02, // class 2: unknown
        0x00, 0x00, 0x00, 0x00, // ttl
        0x00, 0x03, // rd_length
        0xaa, 0xbb, 0xcc,
    ];
    let m = decode_message(&bytes).unwrap();
    let a = &m.answers[0];
    assert!(matches!(a.type_, DnsQueryType::Txt));
    assert!(matches!(a.class, DnsQueryClass::Unknown(2)));
    match &a.r_data {
        DnsQueryResourceRecordRDataType::Opaque(v) => assert_eq!(v, &vec![0xaa, 0xbb, 0xcc]),
        other => panic!("wrong rdata variant: {other:?}"),
    }
}

#[test]
fn empty_message_decodes() {
    let bytes: Vec<u8> = vec![
        0xab, 0xcd, 0x01, 0x00, 0x00, 0x00, 0x00, 0x00, 0x00, 0x00, 0x00, 0x00,
    ];
    let m = decode_message(&bytes).unwrap();
    assert_eq!(m.header.id, 0xabcd);
    assert!(m.questions.is_empty());
    assert!(m.answers.is_empty());
    assert!(m.authorities.is_empty());
    assert!(m.additionals.is_empty());
}

#[test]
fn encode_message_surfaces_name_errors() {
    let mut m = decode_message(&RESPONSE).unwrap();
    m.questions[0].q_name = String::from("bad..name");
    assert_eq!(
        encode_message(&m).unwrap_err(),
        EncodeError::InvalidLabelLength
    );
}
