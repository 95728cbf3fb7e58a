//! Record data of every record type: reading it from a message for a given
//! type and length, writing it, its type, and its address for A and AAAA.
use vstd::prelude::*;
use crate::error::ProtoError;
use crate::wire::BinDecoder;
use crate::encoder::{BinEncoder, emit_name_spec};
use crate::name::{Name, name_at, lower_labels, lemma_lower_labels, lemma_decode_wf};
use crate::record_type::{RecordType, code_of};
use crate::rdata::{
    CAA,
    MX,
    NULL,
    OPENPGPKEY,
    OPT,
    SOA,
    SRV,
    SSHFP,
    TLSA,
    TXT,
    parse_bytes,
    parse_caa,
    parse_mx,
    parse_opt,
    parse_soa,
    parse_srv,
    parse_sshfp,
    parse_tlsa,
    parse_txt,
    lemma_txt_end,
    lemma_opt_end,
    read_caa_at,
    read_mx_at,
    read_opt_at,
    read_plain_at,
    read_soa_at,
    read_srv_at,
    read_sshfp_at,
    read_tlsa_at,
    read_txt_at,
    parse_fields,
    read_fields_at,
    emit_mx_spec,
    emit_soa_spec,
    emit_srv_spec,
    caa_bytes,
    sshfp_bytes,
    tlsa_bytes,
    opt_bytes,
    txt_emit,
};

verus! {

/// Record data, by record type.
#[derive(Debug, PartialEq, Clone, Eq)]
pub enum RData {
    /// An IPv4 address, as its four octets.
    A([u8; 4]),
    /// An IPv6 address, as its sixteen octets.
    AAAA([u8; 16]),
    /// Certification Authority Authorization.
    CAA(CAA),
    /// The canonical name of an alias.
    CNAME(Name),
    /// A mail exchange.
    MX(MX),
    /// Arbitrary data.
    NULL(NULL),
    /// An authoritative name server.
    NS(Name),
    /// An OpenPGP public key.
    OPENPGPKEY(OPENPGPKEY),
    /// EDNS options.
    OPT(OPT),
    /// A pointer to another name.
    PTR(Name),
    /// The start of a zone of authority.
    SOA(SOA),
    /// A service location.
    SRV(SRV),
    /// An SSH key fingerprint.
    SSHFP(SSHFP),
    /// A TLS certificate association.
    TLSA(TLSA),
    /// Text.
    TXT(TXT),
    /// The data of a record type this library has no format for.
    Unknown {
        /// The record type code.
        code: u16,
        /// The record data.
        rdata: NULL,
    },
    /// The data of record type 0, which is empty.
    ZERO,
}

/// Record data as plain values.
pub enum RDataV {
    A(Seq<u8>),
    AAAA(Seq<u8>),
    CAA((bool, Seq<u8>, Seq<u8>)),
    CNAME(Seq<Seq<u8>>),
    MX((u16, Seq<Seq<u8>>)),
    NULL(Seq<u8>),
    NS(Seq<Seq<u8>>),
    OPENPGPKEY(Seq<u8>),
    OPT(Seq<(u16, Seq<u8>)>),
    PTR(Seq<Seq<u8>>),
    SOA((Seq<Seq<u8>>, Seq<Seq<u8>>, u32, i32, i32, i32, u32)),
    SRV((u16, u16, u16, Seq<Seq<u8>>)),
    SSHFP((u8, u8, Seq<u8>)),
    TLSA((u8, u8, u8, Seq<u8>)),
    TXT(Seq<Seq<u8>>),
    Unknown(u16, Seq<u8>),
    ZERO,
}

impl View for RData {
    type V = RDataV;

    open spec fn view(&self) -> RDataV {
        match self {
            RData::A(a) => RDataV::A(a@),
            RData::AAAA(a) => RDataV::AAAA(a@),
            RData::CAA(v) => RDataV::CAA(v@),
            RData::CNAME(n) => RDataV::CNAME(n@),
            RData::MX(v) => RDataV::MX(v@),
            RData::NULL(v) => RDataV::NULL(v@),
            RData::NS(n) => RDataV::NS(n@),
            RData::OPENPGPKEY(v) => RDataV::OPENPGPKEY(v@),
            RData::OPT(v) => RDataV::OPT(v@),
            RData::PTR(n) => RDataV::PTR(n@),
            RData::SOA(v) => RDataV::SOA(v@),
            RData::SRV(v) => RDataV::SRV(v@),
            RData::SSHFP(v) => RDataV::SSHFP(v@),
            RData::TLSA(v) => RDataV::TLSA(v@),
            RData::TXT(v) => RDataV::TXT(v@),
            RData::Unknown { code, rdata } => RDataV::Unknown(*code, rdata@),
            RData::ZERO => RDataV::ZERO,
        }
    }
}

/// The record type of the data.
pub open spec fn rtype_of(v: RDataV) -> RecordType {
    match v {
        RDataV::A(_) => RecordType::A,
        RDataV::AAAA(_) => RecordType::AAAA,
        RDataV::CAA(_) => RecordType::CAA,
        RDataV::CNAME(_) => RecordType::CNAME,
        RDataV::MX(_) => RecordType::MX,
        RDataV::NULL(_) => RecordType::NULL,
        RDataV::NS(_) => RecordType::NS,
        RDataV::OPENPGPKEY(_) => RecordType::OPENPGPKEY,
        RDataV::OPT(_) => RecordType::OPT,
        RDataV::PTR(_) => RecordType::PTR,
        RDataV::SOA(_) => RecordType::SOA,
        RDataV::SRV(_) => RecordType::SRV,
        RDataV::SSHFP(_) => RecordType::SSHFP,
        RDataV::TLSA(_) => RecordType::TLSA,
        RDataV::TXT(_) => RecordType::TXT,
        RDataV::Unknown(code, _) => RecordType::Unknown(code),
        RDataV::ZERO => RecordType::ZERO,
    }
}

/// The record data of type `rt` that starts at `pos`, `len` bytes long as
/// announced, and the index where reading it stopped.  Types that have no
/// data format of their own are not handled here (see `read_rdata`).
pub open spec fn parse_rdata(buf: Seq<u8>, pos: int, rt: RecordType, len: int) -> Result<
    (RDataV, int),
    (ProtoError, int),
> {
    match rt {
        RecordType::A => match parse_fields(buf, pos, 4, 1) {
            Ok((v, e)) => Ok((RDataV::A(v), e)),
            Err(x) => Err(x),
        },
        RecordType::AAAA => match parse_fields(buf, pos, 8, 2) {
            Ok((v, e)) => Ok((RDataV::AAAA(v), e)),
            Err(x) => Err(x),
        },
        RecordType::CAA => match parse_caa(buf, pos, len) {
            Ok((v, e)) => Ok((RDataV::CAA(v), e)),
            Err(x) => Err(x),
        },
        RecordType::CNAME => match name_at(buf, pos) {
            Ok((v, e)) => Ok((RDataV::CNAME(v), e)),
            Err(x) => Err(x),
        },
        RecordType::MX => match parse_mx(buf, pos) {
            Ok((v, e)) => Ok((RDataV::MX(v), e)),
            Err(x) => Err(x),
        },
        RecordType::NULL => match parse_bytes(buf, pos, len) {
            Ok((v, e)) => Ok((RDataV::NULL(v), e)),
            Err(x) => Err(x),
        },
        RecordType::NS => match name_at(buf, pos) {
            Ok((v, e)) => Ok((RDataV::NS(v), e)),
            Err(x) => Err(x),
        },
        RecordType::OPENPGPKEY => match parse_bytes(buf, pos, len) {
            Ok((v, e)) => Ok((RDataV::OPENPGPKEY(v), e)),
            Err(x) => Err(x),
        },
        RecordType::OPT => match parse_opt(buf, pos, len) {
            Ok((v, e)) => Ok((RDataV::OPT(v), e)),
            Err(x) => Err(x),
        },
        RecordType::PTR => match name_at(buf, pos) {
            Ok((v, e)) => Ok((RDataV::PTR(v), e)),
            Err(x) => Err(x),
        },
        RecordType::SOA => match parse_soa(buf, pos) {
            Ok((v, e)) => Ok((RDataV::SOA(v), e)),
            Err(x) => Err(x),
        },
        RecordType::SRV => match parse_srv(buf, pos) {
            Ok((v, e)) => Ok((RDataV::SRV(v), e)),
            Err(x) => Err(x),
        },
        RecordType::SSHFP => match parse_sshfp(buf, pos, len) {
            Ok((v, e)) => Ok((RDataV::SSHFP(v), e)),
            Err(x) => Err(x),
        },
        RecordType::TLSA => match parse_tlsa(buf, pos, len) {
            Ok((v, e)) => Ok((RDataV::TLSA(v), e)),
            Err(x) => Err(x),
        },
        RecordType::TXT => match parse_txt(buf, pos, pos + len) {
            Ok((v, e)) => Ok((RDataV::TXT(v), e)),
            Err(x) => Err(x),
        },
        RecordType::Unknown(code) => match parse_bytes(buf, pos, len) {
            Ok((v, e)) => Ok((RDataV::Unknown(code, v), e)),
            Err(x) => Err(x),
        },
        _ => Err((ProtoError::UnknownRecordTypeValue(code_of(rt)), pos)),
    }
}

/// Where reading stopped: after the data, or where the error came.
pub open spec fn stop_of(r: Result<(RDataV, int), (ProtoError, int)>) -> int {
    match r {
        Ok((_, e)) => e,
        Err((_, s)) => s,
    }
}

/// Reading record data of type `rt`, announced as `len` bytes long, at `pos`:
/// query-only types are refused and type 0 has no data, both reading
/// nothing.  For any other type the data is read, and when the reading
/// stopped anywhere but `len` bytes on, successful or not, the result is the
/// length error; else it is what was read.  Gives the data or the error,
/// with the index where reading stopped.
pub open spec fn read_rdata(buf: Seq<u8>, pos: int, rt: RecordType, len: u16) -> Result<
    (RDataV, int),
    (ProtoError, int),
> {
    match rt {
        RecordType::ANY | RecordType::AXFR | RecordType::IXFR => Err(
            (ProtoError::UnknownRecordTypeValue(code_of(rt)), pos),
        ),
        RecordType::ZERO => Ok((RDataV::ZERO, pos)),
        _ => {
            let r = parse_rdata(buf, pos, rt, len as int);
            let stop = stop_of(r);
            if stop - pos != len {
                Err(
                    (
                        ProtoError::IncorrectRDataLengthRead {
                            read: (stop - pos) as usize,
                            len: len as usize,
                        },
                        stop,
                    ),
                )
            } else {
                r
            }
        },
    }
}

/// Writing record data into a buffer whose earlier names are `ptrs`: the
/// bytes and names afterwards, and the error that stopped the writing, if
/// any (only text with a string longer than 255 bytes has one).
pub open spec fn emit_rdata_spec(
    buf: Seq<u8>,
    ptrs: Seq<(usize, Seq<u8>)>,
    v: RDataV,
    canonical: bool,
) -> (Seq<u8>, Seq<(usize, Seq<u8>)>, Option<ProtoError>) {
    match v {
        RDataV::A(a) => (buf + a, ptrs, None),
        RDataV::AAAA(a) => (buf + a, ptrs, None),
        RDataV::CAA(c) => (buf + caa_bytes(c), ptrs, None),
        RDataV::CNAME(n) => {
            let (b, p) = emit_name_spec(buf, ptrs, n, canonical);
            (b, p, None)
        },
        RDataV::MX(m) => {
            let (b, p) = emit_mx_spec(buf, ptrs, m, canonical);
            (b, p, None)
        },
        RDataV::NULL(d) => (buf + d, ptrs, None),
        RDataV::NS(n) => {
            let (b, p) = emit_name_spec(buf, ptrs, n, canonical);
            (b, p, None)
        },
        RDataV::OPENPGPKEY(d) => (buf + d, ptrs, None),
        RDataV::OPT(o) => (buf + opt_bytes(o), ptrs, None),
        RDataV::PTR(n) => {
            let (b, p) = emit_name_spec(buf, ptrs, n, canonical);
            (b, p, None)
        },
        RDataV::SOA(x) => {
            let (b, p) = emit_soa_spec(buf, ptrs, x, canonical);
            (b, p, None)
        },
        RDataV::SRV(x) => {
            let (b, p) = emit_srv_spec(buf, ptrs, x, canonical);
            (b, p, None)
        },
        RDataV::SSHFP(x) => (buf + sshfp_bytes(x), ptrs, None),
        RDataV::TLSA(x) => (buf + tlsa_bytes(x), ptrs, None),
        RDataV::TXT(t) => {
            let (b, e) = txt_emit(buf, t);
            (b, ptrs, e)
        },
        RDataV::Unknown(_, d) => (buf + d, ptrs, None),
        RDataV::ZERO => (buf, ptrs, None),
    }
}

/// The data with the ASCII letters of its names in lower case.
pub open spec fn names_lowered(v: RDataV) -> RDataV {
    match v {
        RDataV::CNAME(n) => RDataV::CNAME(lower_labels(n)),
        RDataV::NS(n) => RDataV::NS(lower_labels(n)),
        RDataV::PTR(n) => RDataV::PTR(lower_labels(n)),
        RDataV::MX(m) => RDataV::MX((m.0, lower_labels(m.1))),
        RDataV::SOA(x) => RDataV::SOA(
            (lower_labels(x.0), lower_labels(x.1), x.2, x.3, x.4, x.5, x.6),
        ),
        RDataV::SRV(x) => RDataV::SRV((x.0, x.1, x.2, lower_labels(x.3))),
        _ => v,
    }
}

/// In canonical mode the case of the letters in names does not matter:
/// record data whose names are equal up to case is written as the same
/// bytes, with the same remembered names, from any state of the buffer.
pub proof fn lemma_canonical_emit_ignores_case(
    buf: Seq<u8>,
    ptrs: Seq<(usize, Seq<u8>)>,
    a: RDataV,
    b: RDataV,
)
    requires
        names_lowered(a) == names_lowered(b),
    ensures
        emit_rdata_spec(buf, ptrs, a, true) == emit_rdata_spec(buf, ptrs, b, true),
{
    lemma_emit_lowered(buf, ptrs, a);
    lemma_emit_lowered(buf, ptrs, b);
}

/// Canonical writing of data is that of the data with its names in lower
/// case.
proof fn lemma_emit_lowered(buf: Seq<u8>, ptrs: Seq<(usize, Seq<u8>)>, v: RDataV)
    ensures
        emit_rdata_spec(buf, ptrs, names_lowered(v), true) == emit_rdata_spec(buf, ptrs, v, true),
{
    match v {
        RDataV::CNAME(n) => lemma_lower_labels(n, n),
        RDataV::NS(n) => lemma_lower_labels(n, n),
        RDataV::PTR(n) => lemma_lower_labels(n, n),
        RDataV::MX(m) => lemma_lower_labels(m.1, m.1),
        RDataV::SRV(x) => lemma_lower_labels(x.3, x.3),
        RDataV::SOA(x) => {
            lemma_lower_labels(x.0, x.0);
            lemma_lower_labels(x.1, x.1);
        },
        _ => {},
    }
}

/// The data as it is written: its names in lower case in canonical mode.
pub open spec fn written_form(v: RDataV, canonical: bool) -> RDataV {
    if canonical {
        names_lowered(v)
    } else {
        v
    }
}

/// The bytes of the record data written on its own, names compressed
/// against each other.
pub open spec fn rdata_bytes(v: RDataV) -> Seq<u8> {
    emit_rdata_spec(Seq::<u8>::empty(), Seq::<(usize, Seq<u8>)>::empty(), v, false).0
}

/// The canonical form of the record data (RFC 4034, 6.2): written on its
/// own, names in full and in lower case.
pub open spec fn canonical_bytes(v: RDataV) -> Seq<u8> {
    emit_rdata_spec(Seq::<u8>::empty(), Seq::<(usize, Seq<u8>)>::empty(), v, true).0
}

/// The address held by A and AAAA data.
pub open spec fn ip_of(v: RDataV) -> Option<Seq<u8>> {
    match v {
        RDataV::A(a) => Some(a),
        RDataV::AAAA(a) => Some(a),
        _ => None,
    }
}

/// An IP address, version 4 or 6, by its octets.
#[derive(Debug, Clone, Copy, PartialEq, Eq)]
pub enum IpAddr {
    V4([u8; 4]),
    V6([u8; 16]),
}

/// Reading record data never stops before it started.
pub proof fn lemma_parse_end(buf: Seq<u8>, pos: int, rt: RecordType, len: int)
    requires
        0 <= len,
        0 <= pos,
    ensures
        pos <= stop_of(parse_rdata(buf, pos, rt, len)),
{
    lemma_decode_wf(buf, pos, pos);
    lemma_decode_wf(buf, pos + 2, pos + 2);
    lemma_decode_wf(buf, pos + 6, pos + 6);
    if let Ok((_, e1)) = name_at(buf, pos) {
        lemma_decode_wf(buf, e1, e1);
        if let Ok((_, e2)) = name_at(buf, e1) {
            lemma_decode_wf(buf, e2, e2);
        }
    }
    lemma_txt_end(buf, pos, pos + len);
    lemma_opt_end(buf, pos, pos + len);
    if pos < buf.len() {
        assert(0 <= (buf.len() - pos) / 2 * 2) by (nonlinear_arith)
            requires
                pos < buf.len(),
        ;
    }
}

impl RData {
    /// Reads record data of type `record_type`, announced as `rdata_length`
    /// bytes long, that starts at `pos` of a message; gives the data and the
    /// index after it, or the error and the index where reading stopped.
    pub fn read_at(buf: &[u8], pos: usize, record_type: RecordType, rdata_length: u16) -> (res:
        Result<(RData, usize), (ProtoError, usize)>)
        ensures
            match res {
                Ok((v, end)) => read_rdata(buf@, pos as int, record_type, rdata_length) == Ok::<
                    _,
                    (ProtoError, int),
                >((v@, end as int)),
                Err((e, stop)) => read_rdata(buf@, pos as int, record_type, rdata_length)
                    == Err::<(RDataV, int), (ProtoError, int)>((e, stop as int)),
            },
    {
        let parsed: Result<(RData, usize), (ProtoError, usize)> = match record_type {
            RecordType::A => match read_fields_at(buf, pos, 4, 1) {
                Ok((v, e)) => {
                    let a = [v[0], v[1], v[2], v[3]];
                    assert(a@ =~= v@);
                    Ok((RData::A(a), e))
                },
                Err(x) => Err(x),
            },
            RecordType::AAAA => match read_fields_at(buf, pos, 8, 2) {
                Ok((v, e)) => {
                    let a = [
                        v[0],
                        v[1],
                        v[2],
                        v[3],
                        v[4],
                        v[5],
                        v[6],
                        v[7],
                        v[8],
                        v[9],
                        v[10],
                        v[11],
                        v[12],
                        v[13],
                        v[14],
                        v[15],
                    ];
                    assert(a@ =~= v@);
                    Ok((RData::AAAA(a), e))
                },
                Err(x) => Err(x),
            },
            RecordType::ANY => {
                return Err((ProtoError::UnknownRecordTypeValue(255), pos));
            },
            RecordType::AXFR => {
                return Err((ProtoError::UnknownRecordTypeValue(252), pos));
            },
            RecordType::IXFR => {
                return Err((ProtoError::UnknownRecordTypeValue(251), pos));
            },
            RecordType::ZERO => {
                return Ok((RData::ZERO, pos));
            },
            RecordType::CAA => match read_caa_at(buf, pos, rdata_length) {
                Ok((v, e)) => Ok((RData::CAA(v), e)),
                Err(x) => Err(x),
            },
            RecordType::CNAME => match Name::read_at(buf, pos) {
                Ok((v, e)) => Ok((RData::CNAME(v), e)),
                Err(x) => Err(x),
            },
            RecordType::MX => match read_mx_at(buf, pos) {
                Ok((v, e)) => Ok((RData::MX(v), e)),
                Err(x) => Err(x),
            },
            RecordType::NULL => match read_plain_at(buf, pos, rdata_length) {
                Ok((v, e)) => Ok((RData::NULL(NULL { anything: v }), e)),
                Err(x) => Err(x),
            },
            RecordType::NS => match Name::read_at(buf, pos) {
                Ok((v, e)) => Ok((RData::NS(v), e)),
                Err(x) => Err(x),
            },
            RecordType::OPENPGPKEY => match read_plain_at(buf, pos, rdata_length) {
                Ok((v, e)) => Ok((RData::OPENPGPKEY(OPENPGPKEY { public_key: v }), e)),
                Err(x) => Err(x),
            },
            RecordType::OPT => match read_opt_at(buf, pos, rdata_length) {
                Ok((v, e)) => Ok((RData::OPT(v), e)),
                Err(x) => Err(x),
            },
            RecordType::PTR => match Name::read_at(buf, pos) {
                Ok((v, e)) => Ok((RData::PTR(v), e)),
                Err(x) => Err(x),
            },
            RecordType::SOA => match read_soa_at(buf, pos) {
                Ok((v, e)) => Ok((RData::SOA(v), e)),
                Err(x) => Err(x),
            },
            RecordType::SRV => match read_srv_at(buf, pos) {
                Ok((v, e)) => Ok((RData::SRV(v), e)),
                Err(x) => Err(x),
            },
            RecordType::SSHFP => match read_sshfp_at(buf, pos, rdata_length) {
                Ok((v, e)) => Ok((RData::SSHFP(v), e)),
                Err(x) => Err(x),
            },
            RecordType::TLSA => match read_tlsa_at(buf, pos, rdata_length) {
                Ok((v, e)) => Ok((RData::TLSA(v), e)),
                Err(x) => Err(x),
            },
            RecordType::TXT => match read_txt_at(buf, pos, rdata_length) {
                Ok((v, e)) => Ok((RData::TXT(v), e)),
                Err(x) => Err(x),
            },
            RecordType::Unknown(code) => match read_plain_at(buf, pos, rdata_length) {
                Ok((v, e)) => Ok((RData::Unknown { code, rdata: NULL { anything: v } }, e)),
                Err(x) => Err(x),
            },
        };
        let stop = match &parsed {
            Ok((_, e)) => *e,
            Err((_, s)) => *s,
        };
        proof {
            lemma_parse_end(buf@, pos as int, record_type, rdata_length as int);
        }
        if stop - pos != rdata_length as usize {
            return Err(
                (
                    ProtoError::IncorrectRDataLengthRead {
                        read: stop - pos,
                        len: rdata_length as usize,
                    },
                    stop,
                ),
            );
        }
        parsed
    }

    /// Reads record data of type `record_type`, announced as `rdata_length`
    /// bytes long, at the decoder's index, and moves the index to where
    /// reading stopped: past the data, or where the error came.
    pub fn read(decoder: &mut BinDecoder, record_type: RecordType, rdata_length: u16) -> (res:
        Result<RData, ProtoError>)
        ensures
            final(decoder).bytes() == old(decoder).bytes(),
            match read_rdata(old(decoder).bytes(), old(decoder).pos() as int, record_type, rdata_length) {
                Ok((v, end)) => (res matches Ok(r) && r@ == v) && final(decoder).pos() == end,
                Err((e, stop)) => res == Err::<RData, ProtoError>(e) && final(decoder).pos()
                    == stop,
            },
    {
        match RData::read_at(decoder.buffer(), decoder.index(), record_type, rdata_length) {
            Ok((v, end)) => {
                decoder.set_index(end);
                Ok(v)
            },
            Err((e, stop)) => {
                decoder.set_index(stop);
                Err(e)
            },
        }
    }

    /// Writes the record data.  Text with a string longer than 255 bytes
    /// stops with an error after the strings before it.
    pub fn emit(&self, encoder: &mut BinEncoder) -> (res: Result<(), ProtoError>)
        ensures
            ({
                let (b, p, e) = emit_rdata_spec(
                    old(encoder).bytes(),
                    old(encoder).pointers(),
                    self@,
                    old(encoder).canonical(),
                );
                &&& final(encoder).bytes() == b
                &&& final(encoder).pointers() == p
                &&& res == match e {
                    Some(x) => Err::<(), ProtoError>(x),
                    None => Ok(()),
                }
            }),
            final(encoder).canonical() == old(encoder).canonical(),
            old(encoder).wf() ==> final(encoder).wf(),
    {
        match self {
            RData::A(a) => {
                encoder.emit_vec(a.as_slice());
                Ok(())
            },
            RData::AAAA(a) => {
                encoder.emit_vec(a.as_slice());
                Ok(())
            },
            RData::CAA(c) => {
                c.emit(encoder);
                Ok(())
            },
            RData::CNAME(n) | RData::NS(n) | RData::PTR(n) => {
                encoder.emit_name(n);
                Ok(())
            },
            RData::ZERO => Ok(()),
            RData::MX(m) => {
                m.emit(encoder);
                Ok(())
            },
            RData::NULL(n) => {
                n.emit(encoder);
                Ok(())
            },
            RData::OPENPGPKEY(k) => {
                k.emit(encoder);
                Ok(())
            },
            RData::OPT(o) => {
                o.emit(encoder);
                Ok(())
            },
            RData::SOA(x) => {
                x.emit(encoder);
                Ok(())
            },
            RData::SRV(x) => {
                x.emit(encoder);
                Ok(())
            },
            RData::SSHFP(x) => {
                x.emit(encoder);
                Ok(())
            },
            RData::TLSA(x) => {
                x.emit(encoder);
                Ok(())
            },
            RData::TXT(t) => t.emit(encoder),
            RData::Unknown { rdata, .. } => {
                rdata.emit(encoder);
                Ok(())
            },
        }
    }

    /// The bytes of the record data written on its own, names compressed.
    /// Should writing stop with an error, the bytes written until then.
    pub fn to_bytes(&self) -> (b: Vec<u8>)
        ensures
            b@ == rdata_bytes(self@),
    {
        let mut encoder = BinEncoder::new();
        let _ = self.emit(&mut encoder);
        encoder.into_bytes()
    }

    /// The canonical form of the record data (RFC 4034, 6.2): written on its
    /// own, names in full and in lower case.  Should writing stop with an
    /// error, the bytes written until then.
    pub fn to_canonical_bytes(&self) -> (b: Vec<u8>)
        ensures
            b@ == canonical_bytes(self@),
    {
        let mut encoder = BinEncoder::new_canonical();
        let _ = self.emit(&mut encoder);
        encoder.into_bytes()
    }

    /// The record type of the data.
    pub fn to_record_type(&self) -> (rt: RecordType)
        ensures
            rt == rtype_of(self@),
    {
        match self {
            RData::A(..) => RecordType::A,
            RData::AAAA(..) => RecordType::AAAA,
            RData::CAA(..) => RecordType::CAA,
            RData::CNAME(..) => RecordType::CNAME,
            RData::MX(..) => RecordType::MX,
            RData::NS(..) => RecordType::NS,
            RData::NULL(..) => RecordType::NULL,
            RData::OPENPGPKEY(..) => RecordType::OPENPGPKEY,
            RData::OPT(..) => RecordType::OPT,
            RData::PTR(..) => RecordType::PTR,
            RData::SOA(..) => RecordType::SOA,
            RData::SRV(..) => RecordType::SRV,
            RData::SSHFP(..) => RecordType::SSHFP,
            RData::TLSA(..) => RecordType::TLSA,
            RData::TXT(..) => RecordType::TXT,
            RData::Unknown { code, .. } => RecordType::Unknown(*code),
            RData::ZERO => RecordType::ZERO,
        }
    }

    /// The address of A and AAAA data; `None` for any other data.
    pub fn to_ip_addr(&self) -> (ip: Option<IpAddr>)
        ensures
            match ip_of(self@) {
                Some(a) => ip matches Some(x) && match x {
                    IpAddr::V4(o) => self@ is A && o@ == a,
                    IpAddr::V6(o) => self@ is AAAA && o@ == a,
                },
                None => ip is None,
            },
            self@ matches RDataV::A(a) ==> ip matches Some(IpAddr::V4(o)) && o@ == a,
            self@ matches RDataV::AAAA(a) ==> ip matches Some(IpAddr::V6(o)) && o@ == a,
            !(self@ is A || self@ is AAAA) ==> ip is None,
    {
        match self {
            RData::A(a) => Some(IpAddr::V4(*a)),
            RData::AAAA(a) => Some(IpAddr::V6(*a)),
            _ => None,
        }
    }
}

} // verus!
