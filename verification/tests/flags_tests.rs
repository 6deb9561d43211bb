use dns_query_parser::flags::{
    DnsQueryHeaderFlags, DnsQueryHeaderFlagsAa, DnsQueryHeaderFlagsAd, DnsQueryHeaderFlagsCd,
    DnsQueryHeaderFlagsOpcode, DnsQueryHeaderFlagsQr, DnsQueryHeaderFlagsRa,
    DnsQueryHeaderFlagsRcode, DnsQueryHeaderFlagsRd, DnsQueryHeaderFlagsTc,
};

#[test]
fn decode_response_flags() {
    let f = DnsQueryHeaderFlags::decode(0x81, 0x80);
    assert!(matches!(f.qr, DnsQueryHeaderFlagsQr::Response));
    assert!(matches!(f.op_code, DnsQueryHeaderFlagsOpcode::StdQuery));
    assert!(matches!(f.aa, DnsQueryHeaderFlagsAa::NonAuthAns));
    assert!(matches!(f.tc, DnsQueryHeaderFlagsTc::NonTrunc));
    assert!(matches!(f.rd, DnsQueryHeaderFlagsRd::Recur));
    assert!(matches!(f.ra, DnsQueryHeaderFlagsRa::Available));
    assert_eq!(f.z, 0);
    assert!(matches!(f.ad, DnsQueryHeaderFlagsAd::NotAuthed));
    assert!(matches!(f.cd, DnsQueryHeaderFlagsCd::Checked));
    assert!(matches!(f.r_code, DnsQueryHeaderFlagsRcode::NoErr));
}

#[test]
fn encode_query_flags() {
    let f = DnsQueryHeaderFlags {
        qr: DnsQueryHeaderFlagsQr::Query,
        op_code: DnsQueryHeaderFlagsOpcode::StdQuery,
        aa: DnsQueryHeaderFlagsAa::NonAuthAns,
        tc: DnsQueryHeaderFlagsTc::NonTrunc,
        rd: DnsQueryHeaderFlagsRd::Recur,
        ra: DnsQueryHeaderFlagsRa::NotAvailable,
        z: 0,
        ad: DnsQueryHeaderFlagsAd::NotAuthed,
        cd: DnsQueryHeaderFlagsCd::Checked,
        r_code: DnsQueryHeaderFlagsRcode::NoErr,
    };
    assert_eq!(f.encode(), [0x01, 0x00]);
}

#[test]
fn flags_round_trip_all_bits() {
    // Walk every 16-bit flags word through decode and encode: the packed
    // form survives the round trip byte for byte.
    for hi in 0..=255u16 {
        for lo in 0..=255u16 {
            let f = DnsQueryHeaderFlags::decode(hi as u8, lo as u8);
            let back = DnsQueryHeaderFlags::encode(&f);
            assert_eq!(back, [hi as u8, lo as u8]);
        }
    }
}

#[test]
fn flags_field_round_trip() {
    // A well-formed field combination survives encode then decode.
    let f = DnsQueryHeaderFlags {
        qr: DnsQueryHeaderFlagsQr::Response,
        op_code: DnsQueryHeaderFlagsOpcode::Reserved(9),
        aa: DnsQueryHeaderFlagsAa::AuthAns,
        tc: DnsQueryHeaderFlagsTc::Trunc,
        rd: DnsQueryHeaderFlagsRd::NotRecur,
        ra: DnsQueryHeaderFlagsRa::Available,
        z: 1,
        ad: DnsQueryHeaderFlagsAd::Authed,
        cd: DnsQueryHeaderFlagsCd::NotChecked,
        r_code: DnsQueryHeaderFlagsRcode::Reserved(13),
    };
    let bytes = f.encode();
    let g = DnsQueryHeaderFlags::decode(bytes[0], bytes[1]);
    assert_eq!(f, g);
}

#[test]
fn opcode_reserved_values() {
    let f = DnsQueryHeaderFlags::decode(0x18, 0x00);
    // 0x18 >> 3 == 3: unassigned op_code, carried raw.
    assert!(matches!(f.op_code, DnsQueryHeaderFlagsOpcode::Reserved(3)));
    let g = DnsQueryHeaderFlags::decode(0x30, 0x0c);
    // 0x30 >> 3 == 6: DSO; r_code 12 is reserved.
    assert!(matches!(g.op_code, DnsQueryHeaderFlagsOpcode::Dso));
    assert!(matches!(g.r_code, DnsQueryHeaderFlagsRcode::Reserved(12)));
}
