//! The record types and their 16-bit codes.
use vstd::prelude::*;

verus! {

/// The type of a resource record.
#[derive(Debug, Clone, Copy, PartialEq, Eq, Hash, Structural)]
pub enum RecordType {
    /// IPv4 address
    A,
    /// IPv6 address
    AAAA,
    /// All cached records (query only)
    ANY,
    /// Zone transfer (query only)
    AXFR,
    /// Certification Authority Authorization
    CAA,
    /// Canonical name
    CNAME,
    /// Incremental zone transfer (query only)
    IXFR,
    /// Mail exchange
    MX,
    /// Null record
    NULL,
    /// Name server
    NS,
    /// OpenPGP public key
    OPENPGPKEY,
    /// EDNS options
    OPT,
    /// Pointer
    PTR,
    /// Start of authority
    SOA,
    /// Service locator
    SRV,
    /// SSH key fingerprint
    SSHFP,
    /// TLSA certificate association
    TLSA,
    /// Text
    TXT,
    /// A type this library has no record data format for, by its code
    Unknown(u16),
    /// The unspecified type 0
    ZERO,
}

/// The 16-bit code of a record type.
pub open spec fn code_of(rt: RecordType) -> u16 {
    match rt {
        RecordType::A => 1,
        RecordType::AAAA => 28,
        RecordType::ANY => 255,
        RecordType::AXFR => 252,
        RecordType::CAA => 257,
        RecordType::CNAME => 5,
        RecordType::IXFR => 251,
        RecordType::MX => 15,
        RecordType::NULL => 10,
        RecordType::NS => 2,
        RecordType::OPENPGPKEY => 61,
        RecordType::OPT => 41,
        RecordType::PTR => 12,
        RecordType::SOA => 6,
        RecordType::SRV => 33,
        RecordType::SSHFP => 44,
        RecordType::TLSA => 52,
        RecordType::TXT => 16,
        RecordType::Unknown(c) => c,
        RecordType::ZERO => 0,
    }
}

/// The record type that a 16-bit code stands for.
pub open spec fn type_of_code(c: u16) -> RecordType {
    if c == 1 {
        RecordType::A
    } else if c == 28 {
        RecordType::AAAA
    } else if c == 255 {
        RecordType::ANY
    } else if c == 252 {
        RecordType::AXFR
    } else if c == 257 {
        RecordType::CAA
    } else if c == 5 {
        RecordType::CNAME
    } else if c == 251 {
        RecordType::IXFR
    } else if c == 15 {
        RecordType::MX
    } else if c == 10 {
        RecordType::NULL
    } else if c == 2 {
        RecordType::NS
    } else if c == 61 {
        RecordType::OPENPGPKEY
    } else if c == 41 {
        RecordType::OPT
    } else if c == 12 {
        RecordType::PTR
    } else if c == 6 {
        RecordType::SOA
    } else if c == 33 {
        RecordType::SRV
    } else if c == 44 {
        RecordType::SSHFP
    } else if c == 52 {
        RecordType::TLSA
    } else if c == 16 {
        RecordType::TXT
    } else if c == 0 {
        RecordType::ZERO
    } else {
        RecordType::Unknown(c)
    }
}

impl RecordType {
    /// The record type that the code `c` stands for; codes of no known type
    /// give `Unknown(c)`.
    pub fn from_code(c: u16) -> (rt: RecordType)
        ensures
            rt == type_of_code(c),
    {
        match c {
            1 => RecordType::A,
            28 => RecordType::AAAA,
            255 => RecordType::ANY,
            252 => RecordType::AXFR,
            257 => RecordType::CAA,
            5 => RecordType::CNAME,
            251 => RecordType::IXFR,
            15 => RecordType::MX,
            10 => RecordType::NULL,
            2 => RecordType::NS,
            61 => RecordType::OPENPGPKEY,
            41 => RecordType::OPT,
            12 => RecordType::PTR,
            6 => RecordType::SOA,
            33 => RecordType::SRV,
            44 => RecordType::SSHFP,
            52 => RecordType::TLSA,
            16 => RecordType::TXT,
            0 => RecordType::ZERO,
            _ => RecordType::Unknown(c),
        }
    }

    /// The 16-bit code of this record type.
    pub fn code(&self) -> (c: u16)
        ensures
            c == code_of(*self),
    {
        match self {
            RecordType::A => 1,
            RecordType::AAAA => 28,
            RecordType::ANY => 255,
            RecordType::AXFR => 252,
            RecordType::CAA => 257,
            RecordType::CNAME => 5,
            RecordType::IXFR => 251,
            RecordType::MX => 15,
            RecordType::NULL => 10,
            RecordType::NS => 2,
            RecordType::OPENPGPKEY => 61,
            RecordType::OPT => 41,
            RecordType::PTR => 12,
            RecordType::SOA => 6,
            RecordType::SRV => 33,
            RecordType::SSHFP => 44,
            RecordType::TLSA => 52,
            RecordType::TXT => 16,
            RecordType::Unknown(c) => *c,
            RecordType::ZERO => 0,
        }
    }
}

/// Every code comes back from the type it stands for.
pub proof fn lemma_code_roundtrip(c: u16)
    ensures
        code_of(type_of_code(c)) == c,
{
}

/// Every type comes back from its code, except an `Unknown` that carries the
/// code of a known type.
pub proof fn lemma_type_roundtrip(rt: RecordType)
    requires
        rt matches RecordType::Unknown(c) ==> type_of_code(c) == RecordType::Unknown(c),
    ensures
        type_of_code(code_of(rt)) == rt,
{
}

} // verus!
