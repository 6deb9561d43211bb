use dns_query_parser::cursor::Cursor;
use dns_query_parser::errors::{DecodeError, EncodeError};
use dns_query_parser::name::{decode_name, encode_name};

#[test]
fn encode_simple_name() {
    let v = encode_name("www.example.com").unwrap();
    assert_eq!(
        v,
        vec![
            3, b'w', b'w', b'w', 7, b'e', b'x', b'a', b'm', b'p', b'l', b'e', 3, b'c', b'o', b'm',
            0
        ]
    );
}

#[test]
fn encode_root_name() {
    assert_eq!(encode_name("").unwrap(), vec![0]);
}

#[test]
fn encode_rejects_empty_label() {
    assert_eq!(
        encode_name("a..b").unwrap_err(),
        EncodeError::InvalidLabelLength
    );
    assert_eq!(
        encode_name(".a").unwrap_err(),
        EncodeError::InvalidLabelLength
    );
    assert_eq!(
        encode_name("a.").unwrap_err(),
        EncodeError::InvalidLabelLength
    );
}

#[test]
fn encode_rejects_long_label() {
    let long = "a".repeat(64);
    assert_eq!(
        encode_name(&long).unwrap_err(),
        EncodeError::InvalidLabelLength
    );
    let just_fits = "a".repeat(63);
    assert_eq!(encode_name(&just_fits).unwrap().len(), 65);
}

#[test]
fn encode_rejects_wide_char() {
    assert_eq!(
        encode_name("snow\u{2713}.com").unwrap_err(),
        EncodeError::FieldOverflow
    );
}

#[test]
fn encode_rejects_too_long_name() {
    // Four 63-byte labels encode to 4 * 64 + 1 = 257 octets: over the bound.
    let name = [
        "a".repeat(63),
        "b".repeat(63),
        "c".repeat(63),
        "d".repeat(63),
    ]
    .join(".");
    assert_eq!(encode_name(&name).unwrap_err(), EncodeError::NameTooLong);
    // Three 63-byte labels and one 61-byte label encode to exactly 255.
    let name = [
        "a".repeat(63),
        "b".repeat(63),
        "c".repeat(63),
        "d".repeat(61),
    ]
    .join(".");
    assert_eq!(encode_name(&name).unwrap().len(), 255);
}

#[test]
fn name_round_trip() {
    for name in ["www.example.com", "a", "x.y", "latin1-\u{00e9}.test"] {
        let bytes = encode_name(name).unwrap();
        let mut cursor = Cursor::new();
        let back = decode_name(&bytes, &mut cursor).unwrap();
        assert_eq!(back, name);
        assert_eq!(cursor.position(), bytes.len());
    }
}

#[test]
fn decode_name_via_pointer() {
    // An 'a' label at offset 0, then a name at offset 3 made of one pointer
    // back to it.
    let bytes = [1, b'a', 0, 0xc0, 0x00];
    let mut cursor = Cursor { pos: 3 };
    let name = decode_name(&bytes, &mut cursor).unwrap();
    assert_eq!(name, "a");
    assert_eq!(cursor.position(), 5);
}

#[test]
fn decode_name_rejects_forward_pointer() {
    // A pointer must lead strictly backwards; offset 2 is not before
    // position 2.
    let bytes = [1, b'a', 0xc0, 0x02];
    let mut cursor = Cursor { pos: 2 };
    assert_eq!(
        decode_name(&bytes, &mut cursor).unwrap_err(),
        DecodeError::InvalidLabelLength
    );
}

#[test]
fn decode_name_rejects_pointer_revisit() {
    // From offset 4: jump to 2, jump to 0, read label 'a', then the pointer
    // at 2 comes up again and names offset 0 a second time.
    let bytes = [1, b'a', 0xc0, 0x00, 0xc0, 0x02];
    let mut cursor = Cursor { pos: 4 };
    assert_eq!(
        decode_name(&bytes, &mut cursor).unwrap_err(),
        DecodeError::InvalidLabelLength
    );
}

#[test]
fn decode_name_rejects_length_between_64_and_191() {
    let bytes = [77, b'a', 0];
    let mut cursor = Cursor::new();
    assert_eq!(
        decode_name(&bytes, &mut cursor).unwrap_err(),
        DecodeError::InvalidLabelLength
    );
}

#[test]
fn decode_name_rejects_overlong_name() {
    // Five 63-byte labels are each fine alone, but the name would pass the
    // 255-octet bound at the fourth label.
    let mut bytes = Vec::new();
    for _ in 0..5 {
        bytes.push(63);
        bytes.extend(std::iter::repeat(b'a').take(63));
    }
    bytes.push(0);
    let mut cursor = Cursor::new();
    assert_eq!(
        decode_name(&bytes, &mut cursor).unwrap_err(),
        DecodeError::InvalidLabelLength
    );
}

#[test]
fn decode_name_truncated() {
    let full = encode_name("www.example.com").unwrap();
    for k in 0..full.len() {
        let mut cursor = Cursor::new();
        assert_eq!(
            decode_name(&full[..k], &mut cursor).unwrap_err(),
            DecodeError::UnexpectedEndOfInput,
            "truncation at {k}"
        );
    }
}

#[test]
fn name_round_trip_at_bound() {
    let name = [
        "a".repeat(63),
        "b".repeat(63),
        "c".repeat(63),
        "d".repeat(61),
    ]
    .join(".");
    let bytes = encode_name(&name).unwrap();
    assert_eq!(bytes.len(), 255);
    let mut cursor = Cursor::new();
    assert_eq!(decode_name(&bytes, &mut cursor).unwrap(), name);
    assert_eq!(cursor.position(), 255);
}

#[test]
fn decode_name_with_suffix_pointer() {
    // "www.example.com" encoded at offset 0; at offset 17 a name made of the
    // label "foo" followed by a pointer into the suffix "example.com".
    let mut bytes = encode_name("www.example.com").unwrap();
    assert_eq!(bytes.len(), 17);
    bytes.extend_from_slice(&[3, b'f', b'o', b'o', 0xc0, 0x04]);
    let mut cursor = Cursor { pos: 17 };
    let name = decode_name(&bytes, &mut cursor).unwrap();
    assert_eq!(name, "foo.example.com");
    assert_eq!(cursor.position(), 23);
}
