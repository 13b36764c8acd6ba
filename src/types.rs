use vstd::prelude::*;

verus! {

/// The class of a record.
#[derive(Debug, Clone, Copy, PartialEq, Eq, Hash, Structural)]
pub enum DNSClass {
    /// Internet
    IN,
    /// Chaos
    CH,
    /// Hesiod
    HS,
    /// QCLASS NONE
    NONE,
    /// QCLASS * (ANY)
    ANY,
    /// The EDNS payload size that OPT records carry in the class field;
    /// values below 512 count as 512.
    OPT(u16),
}

/// The 16-bit wire code of a class.
pub open spec fn class_code(c: DNSClass) -> u16 {
    match c {
        DNSClass::IN => 1,
        DNSClass::CH => 3,
        DNSClass::HS => 4,
        DNSClass::NONE => 254,
        DNSClass::ANY => 255,
        DNSClass::OPT(max_payload_len) => if max_payload_len < 512 {
            512
        } else {
            max_payload_len
        },
    }
}

impl From<DNSClass> for u16 {
    fn from(rt: DNSClass) -> u16 {
        match rt {
            DNSClass::IN => 1,
            DNSClass::CH => 3,
            DNSClass::HS => 4,
            DNSClass::NONE => 254,
            DNSClass::ANY => 255,
            DNSClass::OPT(max_payload_len) => if max_payload_len < 512 {
                512
            } else {
                max_payload_len
            },
        }
    }
}

impl vstd::std_specs::convert::FromSpecImpl<DNSClass> for u16 {
    open spec fn obeys_from_spec() -> bool {
        true
    }

    open spec fn from_spec(v: DNSClass) -> u16 {
        class_code(v)
    }
}

/// The signing algorithms that keys and signatures name.
#[derive(Debug, Clone, Copy, PartialEq, Eq, Hash, PartialOrd, Ord, Structural)]
pub enum Algorithm {
    /// ECDSA on curve P-256 with SHA-256
    ECDSAP256SHA256,
    /// RSA with SHA-256
    RSASHA256,
}

/// The 8-bit wire code of an algorithm.
pub open spec fn algorithm_code(a: Algorithm) -> u8 {
    match a {
        Algorithm::RSASHA256 => 8,
        Algorithm::ECDSAP256SHA256 => 13,
    }
}

impl From<Algorithm> for u8 {
    fn from(a: Algorithm) -> u8 {
        match a {
            Algorithm::RSASHA256 => 8,
            Algorithm::ECDSAP256SHA256 => 13,
        }
    }
}

impl vstd::std_specs::convert::FromSpecImpl<Algorithm> for u8 {
    open spec fn obeys_from_spec() -> bool {
        true
    }

    open spec fn from_spec(v: Algorithm) -> u8 {
        algorithm_code(v)
    }
}

/// The type of a record; `Unknown` carries any other code.
#[derive(Debug, Clone, Copy, PartialEq, Eq, Hash, Structural)]
pub enum RecordType {
    A,
    AAAA,
    ANAME,
    ANY,
    AXFR,
    CAA,
    CDS,
    CDNSKEY,
    CNAME,
    CSYNC,
    DNSKEY,
    DS,
    HINFO,
    HTTPS,
    IXFR,
    KEY,
    MX,
    NAPTR,
    NS,
    NSEC,
    NSEC3,
    NSEC3PARAM,
    NULL,
    OPENPGPKEY,
    OPT,
    PTR,
    RRSIG,
    SIG,
    SOA,
    SRV,
    SSHFP,
    SVCB,
    TLSA,
    TSIG,
    TXT,
    Unknown(u16),
    ZERO,
}

/// The 16-bit wire code of a record type.
pub open spec fn record_type_code(t: RecordType) -> u16 {
    match t {
        RecordType::A => 1,
        RecordType::AAAA => 28,
        RecordType::ANAME => 65305,
        RecordType::ANY => 255,
        RecordType::AXFR => 252,
        RecordType::CAA => 257,
        RecordType::CDS => 59,
        RecordType::CDNSKEY => 60,
        RecordType::CNAME => 5,
        RecordType::CSYNC => 62,
        RecordType::DNSKEY => 48,
        RecordType::DS => 43,
        RecordType::HINFO => 13,
        RecordType::HTTPS => 65,
        RecordType::IXFR => 251,
        RecordType::KEY => 25,
        RecordType::MX => 15,
        RecordType::NAPTR => 35,
        RecordType::NS => 2,
        RecordType::NSEC => 47,
        RecordType::NSEC3 => 50,
        RecordType::NSEC3PARAM => 51,
        RecordType::NULL => 10,
        RecordType::OPENPGPKEY => 61,
        RecordType::OPT => 41,
        RecordType::PTR => 12,
        RecordType::RRSIG => 46,
        RecordType::SIG => 24,
        RecordType::SOA => 6,
        RecordType::SRV => 33,
        RecordType::SSHFP => 44,
        RecordType::SVCB => 64,
        RecordType::TLSA => 52,
        RecordType::TSIG => 250,
        RecordType::TXT => 16,
        RecordType::ZERO => 0,
        RecordType::Unknown(code) => code,
    }
}

/// The record type that a 16-bit wire code names.
pub open spec fn record_type_of(c: u16) -> RecordType {
    match c {
        1 => RecordType::A,
        28 => RecordType::AAAA,
        65305 => RecordType::ANAME,
        255 => RecordType::ANY,
        252 => RecordType::AXFR,
        257 => RecordType::CAA,
        59 => RecordType::CDS,
        60 => RecordType::CDNSKEY,
        5 => RecordType::CNAME,
        62 => RecordType::CSYNC,
        48 => RecordType::DNSKEY,
        43 => RecordType::DS,
        13 => RecordType::HINFO,
        65 => RecordType::HTTPS,
        251 => RecordType::IXFR,
        25 => RecordType::KEY,
        15 => RecordType::MX,
        35 => RecordType::NAPTR,
        2 => RecordType::NS,
        47 => RecordType::NSEC,
        50 => RecordType::NSEC3,
        51 => RecordType::NSEC3PARAM,
        10 => RecordType::NULL,
        61 => RecordType::OPENPGPKEY,
        41 => RecordType::OPT,
        12 => RecordType::PTR,
        46 => RecordType::RRSIG,
        24 => RecordType::SIG,
        6 => RecordType::SOA,
        33 => RecordType::SRV,
        44 => RecordType::SSHFP,
        64 => RecordType::SVCB,
        52 => RecordType::TLSA,
        250 => RecordType::TSIG,
        16 => RecordType::TXT,
        0 => RecordType::ZERO,
        _ => RecordType::Unknown(c),
    }
}

impl From<u16> for RecordType {
    fn from(value: u16) -> RecordType {
        match value {
            1 => RecordType::A,
            28 => RecordType::AAAA,
            65305 => RecordType::ANAME,
            255 => RecordType::ANY,
            252 => RecordType::AXFR,
            257 => RecordType::CAA,
            59 => RecordType::CDS,
            60 => RecordType::CDNSKEY,
            5 => RecordType::CNAME,
            62 => RecordType::CSYNC,
            48 => RecordType::DNSKEY,
            43 => RecordType::DS,
            13 => RecordType::HINFO,
            65 => RecordType::HTTPS,
            251 => RecordType::IXFR,
            25 => RecordType::KEY,
            15 => RecordType::MX,
            35 => RecordType::NAPTR,
            2 => RecordType::NS,
            47 => RecordType::NSEC,
            50 => RecordType::NSEC3,
            51 => RecordType::NSEC3PARAM,
            10 => RecordType::NULL,
            61 => RecordType::OPENPGPKEY,
            41 => RecordType::OPT,
            12 => RecordType::PTR,
            46 => RecordType::RRSIG,
            24 => RecordType::SIG,
            6 => RecordType::SOA,
            33 => RecordType::SRV,
            44 => RecordType::SSHFP,
            64 => RecordType::SVCB,
            52 => RecordType::TLSA,
            250 => RecordType::TSIG,
            16 => RecordType::TXT,
            0 => RecordType::ZERO,
            _ => RecordType::Unknown(value),
        }
    }
}

impl vstd::std_specs::convert::FromSpecImpl<u16> for RecordType {
    open spec fn obeys_from_spec() -> bool {
        true
    }

    open spec fn from_spec(v: u16) -> RecordType {
        record_type_of(v)
    }
}

impl From<RecordType> for u16 {
    fn from(rt: RecordType) -> u16 {
        match rt {
            RecordType::A => 1,
            RecordType::AAAA => 28,
            RecordType::ANAME => 65305,
            RecordType::ANY => 255,
            RecordType::AXFR => 252,
            RecordType::CAA => 257,
            RecordType::CDS => 59,
            RecordType::CDNSKEY => 60,
            RecordType::CNAME => 5,
            RecordType::CSYNC => 62,
            RecordType::DNSKEY => 48,
            RecordType::DS => 43,
            RecordType::HINFO => 13,
            RecordType::HTTPS => 65,
            RecordType::IXFR => 251,
            RecordType::KEY => 25,
            RecordType::MX => 15,
            RecordType::NAPTR => 35,
            RecordType::NS => 2,
            RecordType::NSEC => 47,
            RecordType::NSEC3 => 50,
            RecordType::NSEC3PARAM => 51,
            RecordType::NULL => 10,
            RecordType::OPENPGPKEY => 61,
            RecordType::OPT => 41,
            RecordType::PTR => 12,
            RecordType::RRSIG => 46,
            RecordType::SIG => 24,
            RecordType::SOA => 6,
            RecordType::SRV => 33,
            RecordType::SSHFP => 44,
            RecordType::SVCB => 64,
            RecordType::TLSA => 52,
            RecordType::TSIG => 250,
            RecordType::TXT => 16,
            RecordType::ZERO => 0,
            RecordType::Unknown(code) => code,
        }
    }
}

impl vstd::std_specs::convert::FromSpecImpl<RecordType> for u16 {
    open spec fn obeys_from_spec() -> bool {
        true
    }

    open spec fn from_spec(v: RecordType) -> u16 {
        record_type_code(v)
    }
}

/// Reading a record type from its code and writing it back gives the code.
pub proof fn lemma_record_type_code_round_trip(c: u16)
    ensures
        record_type_code(record_type_of(c)) == c,
{
}

} // verus!
