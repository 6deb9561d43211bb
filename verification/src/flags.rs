//! The 16-bit flags word of the message header.
//!
//! Bit layout, bit 15 (most significant) down to bit 0:
//! `qr(1) op_code(4) aa(1) tc(1) rd(1) | ra(1) z(1) ad(1) cd(1) r_code(4)`.
//!
//! Encoding builds each byte by bitwise-OR of every field pre-masked to its
//! bit width and shifted to its position; decoding extracts each field by
//! shift and mask. Values outside the named `op_code` / `r_code` ranges decode
//! to an explicit reserved variant carrying the raw value, never through an
//! unchecked reinterpretation.

use vstd::prelude::*;

verus! {

/// Query (0) or response (1).
#[derive(Clone, Copy, Debug, PartialEq, Eq, Structural)]
pub enum DnsQueryHeaderFlagsQr {
    /// 0: a query
    Query,
    /// 1: a response
    Response,
}

/// Kind of query, 4 bits.
#[derive(Clone, Copy, Debug, PartialEq, Eq, Structural)]
pub enum DnsQueryHeaderFlagsOpcode {
    /// 0: a standard query (QUERY)
    StdQuery,
    /// 1: an inverse query (IQUERY)
    InvQuery,
    /// 2: a server status request (STATUS)
    StatReq,
    /// 4: notify
    Notify,
    /// 5: update
    Upd,
    /// 6: DNS stateful operations (DSO)
    Dso,
    /// 3 (unassigned) and 7 through 15 (reserved), carrying the raw value
    Reserved(u8),
}

/// Authoritative answer, 1 bit.
#[derive(Clone, Copy, Debug, PartialEq, Eq, Structural)]
pub enum DnsQueryHeaderFlagsAa {
    /// 0
    NonAuthAns,
    /// 1
    AuthAns,
}

/// Truncation, 1 bit.
#[derive(Clone, Copy, Debug, PartialEq, Eq, Structural)]
pub enum DnsQueryHeaderFlagsTc {
    /// 0
    NonTrunc,
    /// 1
    Trunc,
}

/// Recursion desired, 1 bit.
#[derive(Clone, Copy, Debug, PartialEq, Eq, Structural)]
pub enum DnsQueryHeaderFlagsRd {
    /// 0
    NotRecur,
    /// 1
    Recur,
}

/// Recursion available, 1 bit.
#[derive(Clone, Copy, Debug, PartialEq, Eq, Structural)]
pub enum DnsQueryHeaderFlagsRa {
    /// 0
    NotAvailable,
    /// 1
    Available,
}

/// Authentic data (DNSSEC), 1 bit.
#[derive(Clone, Copy, Debug, PartialEq, Eq, Structural)]
pub enum DnsQueryHeaderFlagsAd {
    /// 0
    NotAuthed,
    /// 1
    Authed,
}

/// Checking disabled (DNSSEC), 1 bit.
#[derive(Clone, Copy, Debug, PartialEq, Eq, Structural)]
pub enum DnsQueryHeaderFlagsCd {
    /// 0
    Checked,
    /// 1
    NotChecked,
}

/// Response code, 4 bits.
#[derive(Clone, Copy, Debug, PartialEq, Eq, Structural)]
pub enum DnsQueryHeaderFlagsRcode {
    /// 0: no error condition
    NoErr,
    /// 1: format error - the name server was unable to interpret the query
    FormatErr,
    /// 2: server failure
    SvrFail,
    /// 3: name error - the queried domain name does not exist
    NameErr,
    /// 4: not implemented
    NotImpl,
    /// 5: refused for policy reasons
    Refused,
    /// 6: a name that should not exist does exist
    NameExist,
    /// 7: a resource record set that should not exist does exist
    ResRecordExist,
    /// 8: a resource record set that should exist does not exist
    ResRecordNotExist,
    /// 9: the server is not authoritative for the zone
    ZoneNotAuth,
    /// 10: a name is not within the zone denoted by the query
    NameNotInZone,
    /// 11 through 15: reserved, carrying the raw value
    Reserved(u8),
}

/// The unpacked flags word.
#[derive(Clone, Copy, Debug, PartialEq, Eq, Structural)]
pub struct DnsQueryHeaderFlags {
    pub qr: DnsQueryHeaderFlagsQr,
    pub op_code: DnsQueryHeaderFlagsOpcode,
    pub aa: DnsQueryHeaderFlagsAa,
    pub tc: DnsQueryHeaderFlagsTc,
    pub rd: DnsQueryHeaderFlagsRd,
    pub ra: DnsQueryHeaderFlagsRa,
    /// Reserved bit; one bit wide.
    pub z: u8,
    pub ad: DnsQueryHeaderFlagsAd,
    pub cd: DnsQueryHeaderFlagsCd,
    pub r_code: DnsQueryHeaderFlagsRcode,
}

/// Numeric value of the qr bit.
pub open spec fn spec_qr_value(v: DnsQueryHeaderFlagsQr) -> u8 {
    match v {
        DnsQueryHeaderFlagsQr::Query => 0,
        DnsQueryHeaderFlagsQr::Response => 1,
    }
}

/// The qr variant denoted by a bit.
pub open spec fn spec_qr_of(v: u8) -> DnsQueryHeaderFlagsQr {
    if v == 0 {
        DnsQueryHeaderFlagsQr::Query
    } else {
        DnsQueryHeaderFlagsQr::Response
    }
}

/// Numeric value of the op_code field.
pub open spec fn spec_opcode_value(v: DnsQueryHeaderFlagsOpcode) -> u8 {
    match v {
        DnsQueryHeaderFlagsOpcode::StdQuery => 0,
        DnsQueryHeaderFlagsOpcode::InvQuery => 1,
        DnsQueryHeaderFlagsOpcode::StatReq => 2,
        DnsQueryHeaderFlagsOpcode::Notify => 4,
        DnsQueryHeaderFlagsOpcode::Upd => 5,
        DnsQueryHeaderFlagsOpcode::Dso => 6,
        DnsQueryHeaderFlagsOpcode::Reserved(n) => n,
    }
}

/// The op_code variant denoted by a 4-bit value; values without a named
/// variant map to the reserved variant carrying the raw value.
pub open spec fn spec_opcode_of(v: u8) -> DnsQueryHeaderFlagsOpcode {
    if v == 0 {
        DnsQueryHeaderFlagsOpcode::StdQuery
    } else if v == 1 {
        DnsQueryHeaderFlagsOpcode::InvQuery
    } else if v == 2 {
        DnsQueryHeaderFlagsOpcode::StatReq
    } else if v == 4 {
        DnsQueryHeaderFlagsOpcode::Notify
    } else if v == 5 {
        DnsQueryHeaderFlagsOpcode::Upd
    } else if v == 6 {
        DnsQueryHeaderFlagsOpcode::Dso
    } else {
        DnsQueryHeaderFlagsOpcode::Reserved(v)
    }
}

/// A reserved op_code carries only a raw value that has no named variant and
/// fits 4 bits.
pub open spec fn spec_opcode_wf(v: DnsQueryHeaderFlagsOpcode) -> bool {
    match v {
        DnsQueryHeaderFlagsOpcode::Reserved(n) => n == 3 || (7 <= n && n <= 15),
        _ => true,
    }
}

/// Numeric value of the aa bit.
pub open spec fn spec_aa_value(v: DnsQueryHeaderFlagsAa) -> u8 {
    match v {
        DnsQueryHeaderFlagsAa::NonAuthAns => 0,
        DnsQueryHeaderFlagsAa::AuthAns => 1,
    }
}

/// The aa variant denoted by a bit.
pub open spec fn spec_aa_of(v: u8) -> DnsQueryHeaderFlagsAa {
    if v == 0 {
        DnsQueryHeaderFlagsAa::NonAuthAns
    } else {
        DnsQueryHeaderFlagsAa::AuthAns
    }
}

/// Numeric value of the tc bit.
pub open spec fn spec_tc_value(v: DnsQueryHeaderFlagsTc) -> u8 {
    match v {
        DnsQueryHeaderFlagsTc::NonTrunc => 0,
        DnsQueryHeaderFlagsTc::Trunc => 1,
    }
}

/// The tc variant denoted by a bit.
pub open spec fn spec_tc_of(v: u8) -> DnsQueryHeaderFlagsTc {
    if v == 0 {
        DnsQueryHeaderFlagsTc::NonTrunc
    } else {
        DnsQueryHeaderFlagsTc::Trunc
    }
}

/// Numeric value of the rd bit.
pub open spec fn spec_rd_value(v: DnsQueryHeaderFlagsRd) -> u8 {
    match v {
        DnsQueryHeaderFlagsRd::NotRecur => 0,
        DnsQueryHeaderFlagsRd::Recur => 1,
    }
}

/// The rd variant denoted by a bit.
pub open spec fn spec_rd_of(v: u8) -> DnsQueryHeaderFlagsRd {
    if v == 0 {
        DnsQueryHeaderFlagsRd::NotRecur
    } else {
        DnsQueryHeaderFlagsRd::Recur
    }
}

/// Numeric value of the ra bit.
pub open spec fn spec_ra_value(v: DnsQueryHeaderFlagsRa) -> u8 {
    match v {
        DnsQueryHeaderFlagsRa::NotAvailable => 0,
        DnsQueryHeaderFlagsRa::Available => 1,
    }
}

/// The ra variant denoted by a bit.
pub open spec fn spec_ra_of(v: u8) -> DnsQueryHeaderFlagsRa {
    if v == 0 {
        DnsQueryHeaderFlagsRa::NotAvailable
    } else {
        DnsQueryHeaderFlagsRa::Available
    }
}

/// Numeric value of the ad bit.
pub open spec fn spec_ad_value(v: DnsQueryHeaderFlagsAd) -> u8 {
    match v {
        DnsQueryHeaderFlagsAd::NotAuthed => 0,
        DnsQueryHeaderFlagsAd::Authed => 1,
    }
}

/// The ad variant denoted by a bit.
pub open spec fn spec_ad_of(v: u8) -> DnsQueryHeaderFlagsAd {
    if v == 0 {
        DnsQueryHeaderFlagsAd::NotAuthed
    } else {
        DnsQueryHeaderFlagsAd::Authed
    }
}

/// Numeric value of the cd bit.
pub open spec fn spec_cd_value(v: DnsQueryHeaderFlagsCd) -> u8 {
    match v {
        DnsQueryHeaderFlagsCd::Checked => 0,
        DnsQueryHeaderFlagsCd::NotChecked => 1,
    }
}

/// The cd variant denoted by a bit.
pub open spec fn spec_cd_of(v: u8) -> DnsQueryHeaderFlagsCd {
    if v == 0 {
        DnsQueryHeaderFlagsCd::Checked
    } else {
        DnsQueryHeaderFlagsCd::NotChecked
    }
}

/// Numeric value of the r_code field.
pub open spec fn spec_rcode_value(v: DnsQueryHeaderFlagsRcode) -> u8 {
    match v {
        DnsQueryHeaderFlagsRcode::NoErr => 0,
        DnsQueryHeaderFlagsRcode::FormatErr => 1,
        DnsQueryHeaderFlagsRcode::SvrFail => 2,
        DnsQueryHeaderFlagsRcode::NameErr => 3,
        DnsQueryHeaderFlagsRcode::NotImpl => 4,
        DnsQueryHeaderFlagsRcode::Refused => 5,
        DnsQueryHeaderFlagsRcode::NameExist => 6,
        DnsQueryHeaderFlagsRcode::ResRecordExist => 7,
        DnsQueryHeaderFlagsRcode::ResRecordNotExist => 8,
        DnsQueryHeaderFlagsRcode::ZoneNotAuth => 9,
        DnsQueryHeaderFlagsRcode::NameNotInZone => 10,
        DnsQueryHeaderFlagsRcode::Reserved(n) => n,
    }
}

/// The r_code variant denoted by a 4-bit value; values without a named
/// variant map to the reserved variant carrying the raw value.
pub open spec fn spec_rcode_of(v: u8) -> DnsQueryHeaderFlagsRcode {
    if v == 0 {
        DnsQueryHeaderFlagsRcode::NoErr
    } else if v == 1 {
        DnsQueryHeaderFlagsRcode::FormatErr
    } else if v == 2 {
        DnsQueryHeaderFlagsRcode::SvrFail
    } else if v == 3 {
        DnsQueryHeaderFlagsRcode::NameErr
    } else if v == 4 {
        DnsQueryHeaderFlagsRcode::NotImpl
    } else if v == 5 {
        DnsQueryHeaderFlagsRcode::Refused
    } else if v == 6 {
        DnsQueryHeaderFlagsRcode::NameExist
    } else if v == 7 {
        DnsQueryHeaderFlagsRcode::ResRecordExist
    } else if v == 8 {
        DnsQueryHeaderFlagsRcode::ResRecordNotExist
    } else if v == 9 {
        DnsQueryHeaderFlagsRcode::ZoneNotAuth
    } else if v == 10 {
        DnsQueryHeaderFlagsRcode::NameNotInZone
    } else {
        DnsQueryHeaderFlagsRcode::Reserved(v)
    }
}

/// A reserved r_code carries only a raw value that has no named variant and
/// fits 4 bits.
pub open spec fn spec_rcode_wf(v: DnsQueryHeaderFlagsRcode) -> bool {
    match v {
        DnsQueryHeaderFlagsRcode::Reserved(n) => 11 <= n && n <= 15,
        _ => true,
    }
}

/// Every field of the flags word fits its bit width: the reserved z bit is a
/// single bit, and reserved op_code / r_code variants carry only values from
/// their reserved ranges.
pub open spec fn spec_flags_wf(f: DnsQueryHeaderFlags) -> bool {
    &&& f.z <= 1
    &&& spec_opcode_wf(f.op_code)
    &&& spec_rcode_wf(f.r_code)
}

/// First byte of the packed flags word: `qr(1) op_code(4) aa(1) tc(1) rd(1)`,
/// each field pre-masked to its width.
pub open spec fn spec_flags_byte_1(f: DnsQueryHeaderFlags) -> u8 {
    ((spec_qr_value(f.qr) & 0x1) << 7) | ((spec_opcode_value(f.op_code) & 0xf) << 3) | ((
    spec_aa_value(f.aa) & 0x1) << 2) | ((spec_tc_value(f.tc) & 0x1) << 1) | (spec_rd_value(f.rd)
        & 0x1)
}

/// Second byte of the packed flags word: `ra(1) z(1) ad(1) cd(1) r_code(4)`,
/// each field pre-masked to its width.
pub open spec fn spec_flags_byte_2(f: DnsQueryHeaderFlags) -> u8 {
    ((spec_ra_value(f.ra) & 0x1) << 7) | ((f.z & 0x1) << 6) | ((spec_ad_value(f.ad) & 0x1) << 5) | (
    (spec_cd_value(f.cd) & 0x1) << 4) | (spec_rcode_value(f.r_code) & 0xf)
}

/// Both bytes of the packed flags word, in wire order.
pub open spec fn spec_flags_bytes(f: DnsQueryHeaderFlags) -> Seq<u8> {
    seq![spec_flags_byte_1(f), spec_flags_byte_2(f)]
}

/// The flags word denoted by its two wire bytes.
pub open spec fn spec_flags_of_bytes(byte_1: u8, byte_2: u8) -> DnsQueryHeaderFlags {
    DnsQueryHeaderFlags {
        qr: spec_qr_of(byte_1 >> 7),
        op_code: spec_opcode_of((byte_1 >> 3) & 0xf),
        aa: spec_aa_of((byte_1 >> 2) & 0x1),
        tc: spec_tc_of((byte_1 >> 1) & 0x1),
        rd: spec_rd_of(byte_1 & 0x1),
        ra: spec_ra_of((byte_2 >> 7) & 0x1),
        z: (byte_2 >> 6) & 0x1,
        ad: spec_ad_of((byte_2 >> 5) & 0x1),
        cd: spec_cd_of((byte_2 >> 4) & 0x1),
        r_code: spec_rcode_of(byte_2 & 0xf),
    }
}

impl DnsQueryHeaderFlags {
    /// Unpack the flags word from its two wire bytes. Every 16-bit input
    /// denotes some flags word, so decoding cannot fail; the result is
    /// well formed.
    pub fn decode(byte_1: u8, byte_2: u8) -> (f: Self)
        ensures
            f == spec_flags_of_bytes(byte_1, byte_2),
            spec_flags_wf(f),
    {
        let qr_v = byte_1 >> 7;
        let qr = if qr_v == 0 {
            DnsQueryHeaderFlagsQr::Query
        } else {
            DnsQueryHeaderFlagsQr::Response
        };

        let op_v = (byte_1 >> 3) & 0xf;
        let op_code = if op_v == 0 {
            DnsQueryHeaderFlagsOpcode::StdQuery
        } else if op_v == 1 {
            DnsQueryHeaderFlagsOpcode::InvQuery
        } else if op_v == 2 {
            DnsQueryHeaderFlagsOpcode::StatReq
        } else if op_v == 4 {
            DnsQueryHeaderFlagsOpcode::Notify
        } else if op_v == 5 {
            DnsQueryHeaderFlagsOpcode::Upd
        } else if op_v == 6 {
            DnsQueryHeaderFlagsOpcode::Dso
        } else {
            DnsQueryHeaderFlagsOpcode::Reserved(op_v)
        };

        let aa_v = (byte_1 >> 2) & 0x1;
        let aa = if aa_v == 0 {
            DnsQueryHeaderFlagsAa::NonAuthAns
        } else {
            DnsQueryHeaderFlagsAa::AuthAns
        };

        let tc_v = (byte_1 >> 1) & 0x1;
        let tc = if tc_v == 0 {
            DnsQueryHeaderFlagsTc::NonTrunc
        } else {
            DnsQueryHeaderFlagsTc::Trunc
        };

        let rd_v = byte_1 & 0x1;
        let rd = if rd_v == 0 {
            DnsQueryHeaderFlagsRd::NotRecur
        } else {
            DnsQueryHeaderFlagsRd::Recur
        };

        let ra_v = (byte_2 >> 7) & 0x1;
        let ra = if ra_v == 0 {
            DnsQueryHeaderFlagsRa::NotAvailable
        } else {
            DnsQueryHeaderFlagsRa::Available
        };

        let z = (byte_2 >> 6) & 0x1;

        let ad_v = (byte_2 >> 5) & 0x1;
        let ad = if ad_v == 0 {
            DnsQueryHeaderFlagsAd::NotAuthed
        } else {
            DnsQueryHeaderFlagsAd::Authed
        };

        let cd_v = (byte_2 >> 4) & 0x1;
        let cd = if cd_v == 0 {
            DnsQueryHeaderFlagsCd::Checked
        } else {
            DnsQueryHeaderFlagsCd::NotChecked
        };

        let rc_v = byte_2 & 0xf;
        let r_code = if rc_v == 0 {
            DnsQueryHeaderFlagsRcode::NoErr
        } else if rc_v == 1 {
            DnsQueryHeaderFlagsRcode::FormatErr
        } else if rc_v == 2 {
            DnsQueryHeaderFlagsRcode::SvrFail
        } else if rc_v == 3 {
            DnsQueryHeaderFlagsRcode::NameErr
        } else if rc_v == 4 {
            DnsQueryHeaderFlagsRcode::NotImpl
        } else if rc_v == 5 {
            DnsQueryHeaderFlagsRcode::Refused
        } else if rc_v == 6 {
            DnsQueryHeaderFlagsRcode::NameExist
        } else if rc_v == 7 {
            DnsQueryHeaderFlagsRcode::ResRecordExist
        } else if rc_v == 8 {
            DnsQueryHeaderFlagsRcode::ResRecordNotExist
        } else if rc_v == 9 {
            DnsQueryHeaderFlagsRcode::ZoneNotAuth
        } else if rc_v == 10 {
            DnsQueryHeaderFlagsRcode::NameNotInZone
        } else {
            DnsQueryHeaderFlagsRcode::Reserved(rc_v)
        };

        proof {
            assert(byte_1 >> 7 <= 1 && (byte_1 >> 3) & 0xf <= 15 && (byte_2 >> 6) & 0x1 <= 1
                && byte_2 & 0xf <= 15) by (bit_vector);
        }

        DnsQueryHeaderFlags { qr, op_code, aa, tc, rd, ra, z, ad, cd, r_code }
    }

    /// Pack the flags word into its two wire bytes. Each field is pre-masked
    /// to its bit width and OR-ed into its shifted position, so packing is
    /// total; on a well-formed flags word the masks change nothing.
    pub fn encode(&self) -> (r: [u8; 2])
        ensures
            r@ == spec_flags_bytes(*self),
    {
        let qr_v: u8 = match self.qr {
            DnsQueryHeaderFlagsQr::Query => 0,
            DnsQueryHeaderFlagsQr::Response => 1,
        };
        let op_v: u8 = match self.op_code {
            DnsQueryHeaderFlagsOpcode::StdQuery => 0,
            DnsQueryHeaderFlagsOpcode::InvQuery => 1,
            DnsQueryHeaderFlagsOpcode::StatReq => 2,
            DnsQueryHeaderFlagsOpcode::Notify => 4,
            DnsQueryHeaderFlagsOpcode::Upd => 5,
            DnsQueryHeaderFlagsOpcode::Dso => 6,
            DnsQueryHeaderFlagsOpcode::Reserved(n) => n,
        };
        let aa_v: u8 = match self.aa {
            DnsQueryHeaderFlagsAa::NonAuthAns => 0,
            DnsQueryHeaderFlagsAa::AuthAns => 1,
        };
        let tc_v: u8 = match self.tc {
            DnsQueryHeaderFlagsTc::NonTrunc => 0,
            DnsQueryHeaderFlagsTc::Trunc => 1,
        };
        let rd_v: u8 = match self.rd {
            DnsQueryHeaderFlagsRd::NotRecur => 0,
            DnsQueryHeaderFlagsRd::Recur => 1,
        };
        let ra_v: u8 = match self.ra {
            DnsQueryHeaderFlagsRa::NotAvailable => 0,
            DnsQueryHeaderFlagsRa::Available => 1,
        };
        let ad_v: u8 = match self.ad {
            DnsQueryHeaderFlagsAd::NotAuthed => 0,
            DnsQueryHeaderFlagsAd::Authed => 1,
        };
        let cd_v: u8 = match self.cd {
            DnsQueryHeaderFlagsCd::Checked => 0,
            DnsQueryHeaderFlagsCd::NotChecked => 1,
        };
        let rc_v: u8 = match self.r_code {
            DnsQueryHeaderFlagsRcode::NoErr => 0,
            DnsQueryHeaderFlagsRcode::FormatErr => 1,
            DnsQueryHeaderFlagsRcode::SvrFail => 2,
            DnsQueryHeaderFlagsRcode::NameErr => 3,
            DnsQueryHeaderFlagsRcode::NotImpl => 4,
            DnsQueryHeaderFlagsRcode::Refused => 5,
            DnsQueryHeaderFlagsRcode::NameExist => 6,
            DnsQueryHeaderFlagsRcode::ResRecordExist => 7,
            DnsQueryHeaderFlagsRcode::ResRecordNotExist => 8,
            DnsQueryHeaderFlagsRcode::ZoneNotAuth => 9,
            DnsQueryHeaderFlagsRcode::NameNotInZone => 10,
            DnsQueryHeaderFlagsRcode::Reserved(n) => n,
        };

        let byte_1: u8 = ((qr_v & 0x1) << 7) | ((op_v & 0xf) << 3) | ((aa_v & 0x1) << 2) | ((tc_v
            & 0x1) << 1) | (rd_v & 0x1);
        let byte_2: u8 = ((ra_v & 0x1) << 7) | ((self.z & 0x1) << 6) | ((ad_v & 0x1) << 5) | ((cd_v
            & 0x1) << 4) | (rc_v & 0xf);

        let r = [byte_1, byte_2];
        proof {
            assert(r@ =~= spec_flags_bytes(*self));
        }
        r
    }
}

/// Unpacking the two packed bytes of a well-formed flags word yields that
/// flags word again: every valid field combination survives the round trip.
pub proof fn lemma_flags_round_trip(f: DnsQueryHeaderFlags)
    requires
        spec_flags_wf(f),
    ensures
        spec_flags_of_bytes(spec_flags_byte_1(f), spec_flags_byte_2(f)) == f,
{
    let qr_v = spec_qr_value(f.qr);
    let op_v = spec_opcode_value(f.op_code);
    let aa_v = spec_aa_value(f.aa);
    let tc_v = spec_tc_value(f.tc);
    let rd_v = spec_rd_value(f.rd);
    let ra_v = spec_ra_value(f.ra);
    let z_v = f.z;
    let ad_v = spec_ad_value(f.ad);
    let cd_v = spec_cd_value(f.cd);
    let rc_v = spec_rcode_value(f.r_code);
    let byte_1 = spec_flags_byte_1(f);
    let byte_2 = spec_flags_byte_2(f);
    assert(qr_v <= 1 && aa_v <= 1 && tc_v <= 1 && rd_v <= 1);
    assert(op_v <= 15);
    assert(ra_v <= 1 && z_v <= 1 && ad_v <= 1 && cd_v <= 1);
    assert(rc_v <= 15);
    assert(byte_1 >> 7 == qr_v && (byte_1 >> 3) & 0xf == op_v && (byte_1 >> 2) & 0x1 == aa_v && (
    byte_1 >> 1) & 0x1 == tc_v && byte_1 & 0x1 == rd_v) by (bit_vector)
        requires
            byte_1 == ((qr_v & 0x1) << 7) | ((op_v & 0xf) << 3) | ((aa_v & 0x1) << 2) | ((tc_v
                & 0x1) << 1) | (rd_v & 0x1),
            qr_v <= 1 && op_v <= 15 && aa_v <= 1 && tc_v <= 1 && rd_v <= 1,
    ;
    assert((byte_2 >> 7) & 0x1 == ra_v && (byte_2 >> 6) & 0x1 == z_v && (byte_2 >> 5) & 0x1 == ad_v
        && (byte_2 >> 4) & 0x1 == cd_v && byte_2 & 0xf == rc_v) by (bit_vector)
        requires
            byte_2 == ((ra_v & 0x1) << 7) | ((z_v & 0x1) << 6) | ((ad_v & 0x1) << 5) | ((cd_v & 0x1)
                << 4) | (rc_v & 0xf),
            ra_v <= 1 && z_v <= 1 && ad_v <= 1 && cd_v <= 1 && rc_v <= 15,
    ;
    assert(spec_qr_of(qr_v) == f.qr);
    assert(spec_opcode_of(op_v) == f.op_code);
    assert(spec_aa_of(aa_v) == f.aa);
    assert(spec_tc_of(tc_v) == f.tc);
    assert(spec_rd_of(rd_v) == f.rd);
    assert(spec_ra_of(ra_v) == f.ra);
    assert(spec_ad_of(ad_v) == f.ad);
    assert(spec_cd_of(cd_v) == f.cd);
    assert(spec_rcode_of(rc_v) == f.r_code);
}

} // verus!
