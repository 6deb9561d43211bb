use dns_query_parser::codes::{DnsQueryClass, DnsQueryType};
use dns_query_parser::cursor::{u16_to_bytes, u32_to_bytes, Cursor};
use dns_query_parser::errors::DecodeError;
use dns_query_parser::header::DnsQueryHeader;

#[test]
fn read_big_endian_values() {
    let bytes = [0x12, 0x34, 0x56, 0x78, 0x9a, 0xbc, 0xde];
    let mut c = Cursor::new();
    assert_eq!(c.read_u8(&bytes).unwrap(), 0x12);
    assert_eq!(c.read_u16(&bytes).unwrap(), 0x3456);
    assert_eq!(c.read_u32(&bytes).unwrap(), 0x789abcde);
    assert_eq!(c.position(), 7);
}

#[test]
fn read_past_end_fails() {
    let bytes = [0x01, 0x02, 0x03];
    let mut c = Cursor { pos: 2 };
    assert_eq!(
        c.read_u16(&bytes).unwrap_err(),
        DecodeError::UnexpectedEndOfInput
    );
    let mut c = Cursor { pos: 0 };
    assert_eq!(
        c.read_u32(&bytes).unwrap_err(),
        DecodeError::UnexpectedEndOfInput
    );
    let mut c = Cursor { pos: 3 };
    assert_eq!(
        c.read_u8(&bytes).unwrap_err(),
        DecodeError::UnexpectedEndOfInput
    );
}

#[test]
fn write_big_endian_values() {
    assert_eq!(u16_to_bytes(0x0102), [0x01, 0x02]);
    assert_eq!(u32_to_bytes(0xdeadbeef), [0xde, 0xad, 0xbe, 0xef]);
}

#[test]
fn header_round_trip() {
    let bytes = [
        0x00, 0x2a, 0x81, 0x80, 0x00, 0x01, 0x00, 0x02, 0x00, 0x03, 0x00, 0x04,
    ];
    let mut c = Cursor::new();
    let h = DnsQueryHeader::decode(&bytes, &mut c).unwrap();
    assert_eq!(h.id, 42);
    assert_eq!(h.qd_count, 1);
    assert_eq!(h.an_count, 2);
    assert_eq!(h.ns_count, 3);
    assert_eq!(h.ar_count, 4);
    assert_eq!(c.position(), 12);
    assert_eq!(h.encode(), bytes);
}

#[test]
fn header_too_short_fails() {
    let bytes = [0x00; 11];
    let mut c = Cursor::new();
    assert_eq!(
        DnsQueryHeader::decode(&bytes, &mut c).unwrap_err(),
        DecodeError::UnexpectedEndOfInput
    );
}

#[test]
fn type_codes_map_both_ways() {
    assert!(matches!(DnsQueryType::from_u16(1), DnsQueryType::A));
    assert!(matches!(DnsQueryType::from_u16(5), DnsQueryType::CName));
    assert!(matches!(DnsQueryType::from_u16(28), DnsQueryType::Aaaa));
    assert!(matches!(
        DnsQueryType::from_u16(999),
        DnsQueryType::Unknown(999)
    ));
    assert_eq!(DnsQueryType::A.to_u16(), 1);
    assert_eq!(DnsQueryType::Unknown(999).to_u16(), 999);
    assert!(matches!(DnsQueryClass::from_u16(1), DnsQueryClass::In));
    assert!(matches!(
        DnsQueryClass::from_u16(250),
        DnsQueryClass::Unknown(250)
    ));
    assert_eq!(DnsQueryClass::In.to_u16(), 1);
    assert_eq!(DnsQueryClass::Hs.to_u16(), 4);
}

#[test]
fn remaining_slice_after_reads() {
    let bytes = [0x10, 0x20, 0x30, 0x40];
    let mut c = Cursor::new();
    c.read_u16(&bytes).unwrap();
    assert_eq!(c.remaining_slice(&bytes), &[0x30, 0x40]);
    c.read_u16(&bytes).unwrap();
    assert_eq!(c.remaining_slice(&bytes), &[] as &[u8]);
}
