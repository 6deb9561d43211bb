//! Record type and class codes: 16-bit wire values mapped to named variants,
//! with an explicit unknown variant carrying the raw value, so that decoding
//! stays forward-compatible with codes assigned after this table was written.

use vstd::prelude::*;

verus! {

/// A record type code.
#[derive(Clone, Copy, Debug, PartialEq, Eq, Structural)]
pub enum DnsQueryType {
    /// 1: a host address
    A,
    /// 2: an authoritative name server
    Ns,
    /// 5: the canonical name for an alias
    CName,
    /// 6: start of a zone of authority
    Soa,
    /// 12: a domain name pointer
    Ptr,
    /// 15: mail exchange
    Mx,
    /// 16: text strings
    Txt,
    /// 28: an IPv6 host address
    Aaaa,
    /// any other code, carried raw
    Unknown(u16),
}

/// A record class code.
#[derive(Clone, Copy, Debug, PartialEq, Eq, Structural)]
pub enum DnsQueryClass {
    /// 1: the Internet
    In,
    /// 3: the CHAOS class
    Ch,
    /// 4: Hesiod
    Hs,
    /// any other code, carried raw
    Unknown(u16),
}

/// Numeric value of a type code.
pub open spec fn spec_type_value(t: DnsQueryType) -> u16 {
    match t {
        DnsQueryType::A => 1,
        DnsQueryType::Ns => 2,
        DnsQueryType::CName => 5,
        DnsQueryType::Soa => 6,
        DnsQueryType::Ptr => 12,
        DnsQueryType::Mx => 15,
        DnsQueryType::Txt => 16,
        DnsQueryType::Aaaa => 28,
        DnsQueryType::Unknown(n) => n,
    }
}

/// The type denoted by a 16-bit value; values without a named variant map to
/// the unknown variant carrying the raw value.
pub open spec fn spec_type_of(v: u16) -> DnsQueryType {
    if v == 1 {
        DnsQueryType::A
    } else if v == 2 {
        DnsQueryType::Ns
    } else if v == 5 {
        DnsQueryType::CName
    } else if v == 6 {
        DnsQueryType::Soa
    } else if v == 12 {
        DnsQueryType::Ptr
    } else if v == 15 {
        DnsQueryType::Mx
    } else if v == 16 {
        DnsQueryType::Txt
    } else if v == 28 {
        DnsQueryType::Aaaa
    } else {
        DnsQueryType::Unknown(v)
    }
}

/// An unknown type carries only a value that no named variant covers.
pub open spec fn spec_type_wf(t: DnsQueryType) -> bool {
    match t {
        DnsQueryType::Unknown(n) => spec_type_of(n) == DnsQueryType::Unknown(n),
        _ => true,
    }
}

/// Numeric value of a class code.
pub open spec fn spec_class_value(c: DnsQueryClass) -> u16 {
    match c {
        DnsQueryClass::In => 1,
        DnsQueryClass::Ch => 3,
        DnsQueryClass::Hs => 4,
        DnsQueryClass::Unknown(n) => n,
    }
}

/// The class denoted by a 16-bit value; values without a named variant map to
/// the unknown variant carrying the raw value.
pub open spec fn spec_class_of(v: u16) -> DnsQueryClass {
    if v == 1 {
        DnsQueryClass::In
    } else if v == 3 {
        DnsQueryClass::Ch
    } else if v == 4 {
        DnsQueryClass::Hs
    } else {
        DnsQueryClass::Unknown(v)
    }
}

/// An unknown class carries only a value that no named variant covers.
pub open spec fn spec_class_wf(c: DnsQueryClass) -> bool {
    match c {
        DnsQueryClass::Unknown(n) => spec_class_of(n) == DnsQueryClass::Unknown(n),
        _ => true,
    }
}

impl DnsQueryType {
    /// The type denoted by a 16-bit wire value.
    pub fn from_u16(v: u16) -> (t: Self)
        ensures
            t == spec_type_of(v),
            spec_type_wf(t),
    {
        if v == 1 {
            DnsQueryType::A
        } else if v == 2 {
            DnsQueryType::Ns
        } else if v == 5 {
            DnsQueryType::CName
        } else if v == 6 {
            DnsQueryType::Soa
        } else if v == 12 {
            DnsQueryType::Ptr
        } else if v == 15 {
            DnsQueryType::Mx
        } else if v == 16 {
            DnsQueryType::Txt
        } else if v == 28 {
            DnsQueryType::Aaaa
        } else {
            DnsQueryType::Unknown(v)
        }
    }

    /// The 16-bit wire value of this type.
    pub fn to_u16(&self) -> (v: u16)
        ensures
            v == spec_type_value(*self),
    {
        match *self {
            DnsQueryType::A => 1,
            DnsQueryType::Ns => 2,
            DnsQueryType::CName => 5,
            DnsQueryType::Soa => 6,
            DnsQueryType::Ptr => 12,
            DnsQueryType::Mx => 15,
            DnsQueryType::Txt => 16,
            DnsQueryType::Aaaa => 28,
            DnsQueryType::Unknown(n) => n,
        }
    }
}

impl DnsQueryClass {
    /// The class denoted by a 16-bit wire value.
    pub fn from_u16(v: u16) -> (c: Self)
        ensures
            c == spec_class_of(v),
            spec_class_wf(c),
    {
        if v == 1 {
            DnsQueryClass::In
        } else if v == 3 {
            DnsQueryClass::Ch
        } else if v == 4 {
            DnsQueryClass::Hs
        } else {
            DnsQueryClass::Unknown(v)
        }
    }

    /// The 16-bit wire value of this class.
    pub fn to_u16(&self) -> (v: u16)
        ensures
            v == spec_class_value(*self),
    {
        match *self {
            DnsQueryClass::In => 1,
            DnsQueryClass::Ch => 3,
            DnsQueryClass::Hs => 4,
            DnsQueryClass::Unknown(n) => n,
        }
    }
}

/// A well-formed type survives the round trip through its wire value.
pub proof fn lemma_type_round_trip(t: DnsQueryType)
    requires
        spec_type_wf(t),
    ensures
        spec_type_of(spec_type_value(t)) == t,
{
}

/// A well-formed class survives the round trip through its wire value.
pub proof fn lemma_class_round_trip(c: DnsQueryClass)
    requires
        spec_class_wf(c),
    ensures
        spec_class_of(spec_class_value(c)) == c,
{
}

} // verus!
