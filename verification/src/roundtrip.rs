//! What is written reads back: record data written into a message, after
//! any earlier names it may point at, reads back as the same data from where
//! it was written, whatever follows it.
use vstd::prelude::*;
use crate::error::ProtoError;
use crate::name::{labels_wf, decode_name, lemma_decode_extend};
use crate::encoder::{
    pointers_valid,
    emit_name_spec,
    written_labels,
    lemma_emit_name,
    lemma_name_keeps_prefix,
    lemma_pointers_extend,
};
use crate::wire::{be16, be32, u32_at, lemma_subrange_split, lemma_u16_at, lemma_u32_at, lemma_i32_as_u32};
use crate::rdata::{
    caa_bytes,
    sshfp_bytes,
    tlsa_bytes,
    opt_bytes,
    txt_bytes,
    txt_wf,
    opt_wf,
    first_non_alnum,
    parse_opt,
    lemma_txt_emit,
    lemma_txt_roundtrip,
    lemma_opt_items_roundtrip,
    lemma_opt_from_distinct,
};
use crate::record_type::RecordType;
use crate::record_data::{
    RDataV,
    rtype_of,
    read_rdata,
    emit_rdata_spec,
    rdata_bytes,
    canonical_bytes,
    names_lowered,
    written_form,
};

verus! {

/// Record data that can be written and read back: names of well-formed
/// labels, addresses of the right size, a CAA tag of 1 to 15 letters or
/// digits, text strings of at most 255 bytes, and options with distinct
/// codes whose data fits a 16-bit length.
pub open spec fn rdata_wf(v: RDataV) -> bool {
    match v {
        RDataV::A(a) => a.len() == 4,
        RDataV::AAAA(a) => a.len() == 16,
        RDataV::CAA(c) => 1 <= c.1.len() <= 15 && first_non_alnum(c.1) is None,
        RDataV::CNAME(n) => labels_wf(n),
        RDataV::MX(m) => labels_wf(m.1),
        RDataV::NS(n) => labels_wf(n),
        RDataV::OPT(o) => opt_wf(o),
        RDataV::PTR(n) => labels_wf(n),
        RDataV::SOA(x) => labels_wf(x.0) && labels_wf(x.1),
        RDataV::SRV(x) => labels_wf(x.3),
        RDataV::TXT(t) => txt_wf(t),
        _ => true,
    }
}

/// A name written at the end of `buf` reads back from there, whatever bytes
/// follow.
proof fn lemma_name_back(
    buf: Seq<u8>,
    ptrs: Seq<(usize, Seq<u8>)>,
    ls: Seq<Seq<u8>>,
    canonical: bool,
    ext: Seq<u8>,
)
    requires
        pointers_valid(buf, ptrs),
        labels_wf(ls),
    ensures
        ({
            let (b2, p2) = emit_name_spec(buf, ptrs, ls, canonical);
            &&& buf.len() < b2.len()
            &&& b2.subrange(0, buf.len() as int) == buf
            &&& pointers_valid(b2, p2)
            &&& decode_name(b2 + ext, buf.len() as int, buf.len() as int) == Ok::<
                (Seq<Seq<u8>>, int),
                (ProtoError, int),
            >((written_labels(ls, canonical), b2.len() as int))
        }),
{
    lemma_emit_name(buf, ptrs, ls, canonical);
    let (b2, p2) = emit_name_spec(buf, ptrs, ls, canonical);
    lemma_decode_extend(b2, ext, buf.len() as int, buf.len() as int);
}

/// Bytes appended to `buf` sit after it, before whatever follows.
proof fn lemma_appended(buf: Seq<u8>, d: Seq<u8>, ext: Seq<u8>)
    ensures
        (buf + d + ext).subrange(buf.len() as int, (buf.len() + d.len()) as int) == d,
        (buf + d + ext).len() == buf.len() + d.len() + ext.len(),
{
    assert((buf + d + ext).subrange(buf.len() as int, (buf.len() + d.len()) as int) =~= d);
}

/// The round trip of record data `v` written into `buf` (whose earlier
/// names are `ptrs`) and read back from a message that goes on with `ext`:
/// no error, the earlier bytes kept, the names readable, and the data read
/// back, as it was written (names in lower case in canonical mode), for its
/// own type and the length it took.
pub open spec fn roundtrip_holds(
    buf: Seq<u8>,
    ptrs: Seq<(usize, Seq<u8>)>,
    v: RDataV,
    canonical: bool,
    ext: Seq<u8>,
) -> bool {
    let (b2, p2, err) = emit_rdata_spec(buf, ptrs, v, canonical);
    &&& err is None
    &&& buf.len() <= b2.len()
    &&& b2.subrange(0, buf.len() as int) == buf
    &&& pointers_valid(b2, p2)
    &&& read_rdata(b2 + ext, buf.len() as int, rtype_of(v), (b2.len() - buf.len()) as u16)
        == Ok::<(RDataV, int), (ProtoError, int)>((written_form(v, canonical), b2.len() as int))
}

/// The round trip of A data.
proof fn lemma_roundtrip_a(
    buf: Seq<u8>,
    ptrs: Seq<(usize, Seq<u8>)>,
    v: RDataV,
    canonical: bool,
    ext: Seq<u8>,
)
    requires
        pointers_valid(buf, ptrs),
        rdata_wf(v),
        v is A,
        emit_rdata_spec(buf, ptrs, v, canonical).0.len() <= buf.len() + 65535,
    ensures
        roundtrip_holds(buf, ptrs, v, canonical, ext),
{
    let base = buf.len() as int;
    let (b2, p2, err) = emit_rdata_spec(buf, ptrs, v, canonical);
    let big = b2 + ext;
    match v {
        RDataV::A(a) => {
            lemma_appended(buf, a, ext);
            lemma_pointers_extend(buf, ptrs, a);
            assert(b2.subrange(0, base) =~= buf);
        },
        _ => {},
    }
}

/// The round trip of AAAA data.
proof fn lemma_roundtrip_aaaa(
    buf: Seq<u8>,
    ptrs: Seq<(usize, Seq<u8>)>,
    v: RDataV,
    canonical: bool,
    ext: Seq<u8>,
)
    requires
        pointers_valid(buf, ptrs),
        rdata_wf(v),
        v is AAAA,
        emit_rdata_spec(buf, ptrs, v, canonical).0.len() <= buf.len() + 65535,
    ensures
        roundtrip_holds(buf, ptrs, v, canonical, ext),
{
    let base = buf.len() as int;
    let (b2, p2, err) = emit_rdata_spec(buf, ptrs, v, canonical);
    let big = b2 + ext;
    match v {
        RDataV::AAAA(a) => {
            lemma_appended(buf, a, ext);
            lemma_pointers_extend(buf, ptrs, a);
            assert(b2.subrange(0, base) =~= buf);
        },
        _ => {},
    }
}

/// The round trip of CAA data.
proof fn lemma_roundtrip_caa(
    buf: Seq<u8>,
    ptrs: Seq<(usize, Seq<u8>)>,
    v: RDataV,
    canonical: bool,
    ext: Seq<u8>,
)
    requires
        pointers_valid(buf, ptrs),
        rdata_wf(v),
        v is CAA,
        emit_rdata_spec(buf, ptrs, v, canonical).0.len() <= buf.len() + 65535,
    ensures
        roundtrip_holds(buf, ptrs, v, canonical, ext),
{
    let base = buf.len() as int;
    let (b2, p2, err) = emit_rdata_spec(buf, ptrs, v, canonical);
    let big = b2 + ext;
    match v {
        RDataV::CAA(c) => {
            let d = caa_bytes(c);
            lemma_appended(buf, d, ext);
            lemma_pointers_extend(buf, ptrs, d);
            assert(b2.subrange(0, base) =~= buf);
            let tl = c.1.len();
            assert(d == seq![d[0], d[1]] + c.1 + c.2);
            lemma_subrange_split(big, base, seq![d[0], d[1]] + c.1, c.2);
            lemma_subrange_split(big, base, seq![d[0], d[1]], c.1);
            assert(big[base] == big.subrange(base, base + 2)[0]);
            assert(big[base + 1] == big.subrange(base, base + 2)[1]);
            assert(big[base + 1] == tl);
        },
        _ => {},
    }
}

/// The round trip of CNAME data.
proof fn lemma_roundtrip_cname(
    buf: Seq<u8>,
    ptrs: Seq<(usize, Seq<u8>)>,
    v: RDataV,
    canonical: bool,
    ext: Seq<u8>,
)
    requires
        pointers_valid(buf, ptrs),
        rdata_wf(v),
        v is CNAME,
        emit_rdata_spec(buf, ptrs, v, canonical).0.len() <= buf.len() + 65535,
    ensures
        roundtrip_holds(buf, ptrs, v, canonical, ext),
{
    let base = buf.len() as int;
    let (b2, p2, err) = emit_rdata_spec(buf, ptrs, v, canonical);
    let big = b2 + ext;
    match v {
        RDataV::CNAME(n) => {
            lemma_name_back(buf, ptrs, n, canonical, ext);
        },
        _ => {},
    }
}

/// The round trip of NS data.
proof fn lemma_roundtrip_ns(
    buf: Seq<u8>,
    ptrs: Seq<(usize, Seq<u8>)>,
    v: RDataV,
    canonical: bool,
    ext: Seq<u8>,
)
    requires
        pointers_valid(buf, ptrs),
        rdata_wf(v),
        v is NS,
        emit_rdata_spec(buf, ptrs, v, canonical).0.len() <= buf.len() + 65535,
    ensures
        roundtrip_holds(buf, ptrs, v, canonical, ext),
{
    let base = buf.len() as int;
    let (b2, p2, err) = emit_rdata_spec(buf, ptrs, v, canonical);
    let big = b2 + ext;
    match v {
        RDataV::NS(n) => {
            lemma_name_back(buf, ptrs, n, canonical, ext);
        },
        _ => {},
    }
}

/// The round trip of PTR data.
proof fn lemma_roundtrip_ptr(
    buf: Seq<u8>,
    ptrs: Seq<(usize, Seq<u8>)>,
    v: RDataV,
    canonical: bool,
    ext: Seq<u8>,
)
    requires
        pointers_valid(buf, ptrs),
        rdata_wf(v),
        v is PTR,
        emit_rdata_spec(buf, ptrs, v, canonical).0.len() <= buf.len() + 65535,
    ensures
        roundtrip_holds(buf, ptrs, v, canonical, ext),
{
    let base = buf.len() as int;
    let (b2, p2, err) = emit_rdata_spec(buf, ptrs, v, canonical);
    let big = b2 + ext;
    match v {
        RDataV::PTR(n) => {
            lemma_name_back(buf, ptrs, n, canonical, ext);
        },
        _ => {},
    }
}

/// The round trip of MX data.
proof fn lemma_roundtrip_mx(
    buf: Seq<u8>,
    ptrs: Seq<(usize, Seq<u8>)>,
    v: RDataV,
    canonical: bool,
    ext: Seq<u8>,
)
    requires
        pointers_valid(buf, ptrs),
        rdata_wf(v),
        v is MX,
        emit_rdata_spec(buf, ptrs, v, canonical).0.len() <= buf.len() + 65535,
    ensures
        roundtrip_holds(buf, ptrs, v, canonical, ext),
{
    let base = buf.len() as int;
    let (b2, p2, err) = emit_rdata_spec(buf, ptrs, v, canonical);
    let big = b2 + ext;
    match v {
        RDataV::MX(m) => {
            let b1 = buf + be16(m.0);
            lemma_pointers_extend(buf, ptrs, be16(m.0));
            lemma_name_back(b1, ptrs, m.1, canonical, ext);
            assert(b2.subrange(0, base) =~= buf) by {
                assert(b2.subrange(0, base) =~= b2.subrange(0, b1.len() as int).subrange(0, base));
            }
            assert(big.subrange(base, base + 2) =~= be16(m.0)) by {
                assert(big.subrange(base, base + 2) =~= b2.subrange(0, b1.len() as int).subrange(
                    base,
                    base + 2,
                ));
            }
            lemma_u16_at(big, base, m.0);
        },
        _ => {},
    }
}

/// The round trip of SRV data.
proof fn lemma_roundtrip_srv(
    buf: Seq<u8>,
    ptrs: Seq<(usize, Seq<u8>)>,
    v: RDataV,
    canonical: bool,
    ext: Seq<u8>,
)
    requires
        pointers_valid(buf, ptrs),
        rdata_wf(v),
        v is SRV,
        emit_rdata_spec(buf, ptrs, v, canonical).0.len() <= buf.len() + 65535,
    ensures
        roundtrip_holds(buf, ptrs, v, canonical, ext),
{
    let base = buf.len() as int;
    let (b2, p2, err) = emit_rdata_spec(buf, ptrs, v, canonical);
    let big = b2 + ext;
    match v {
        RDataV::SRV(x) => {
            let b1 = buf + be16(x.0) + be16(x.1) + be16(x.2);
            lemma_pointers_extend(buf, ptrs, be16(x.0) + be16(x.1) + be16(x.2));
            assert(buf + (be16(x.0) + be16(x.1) + be16(x.2)) =~= b1);
            lemma_name_back(b1, ptrs, x.3, canonical, ext);
            assert(b2.subrange(0, base) =~= buf) by {
                assert(b2.subrange(0, base) =~= b2.subrange(0, b1.len() as int).subrange(0, base));
            }
            assert(big.subrange(base, base + 6) =~= be16(x.0) + be16(x.1) + be16(x.2)) by {
                assert(big.subrange(base, base + 6) =~= b2.subrange(0, b1.len() as int).subrange(
                    base,
                    base + 6,
                ));
            }
            lemma_subrange_split(big, base, be16(x.0) + be16(x.1), be16(x.2));
            lemma_subrange_split(big, base, be16(x.0), be16(x.1));
            lemma_u16_at(big, base, x.0);
            lemma_u16_at(big, base + 2, x.1);
            lemma_u16_at(big, base + 4, x.2);
        },
        _ => {},
    }
}

/// The five 32-bit fields at the end of SOA data.
pub open spec fn soa_tail(x: (Seq<Seq<u8>>, Seq<Seq<u8>>, u32, i32, i32, i32, u32)) -> Seq<u8> {
    be32(x.2) + be32(x.3 as u32) + be32(x.4 as u32) + be32(x.5 as u32) + be32(x.6)
}

/// The five fields of SOA data read back from their bytes.
proof fn lemma_soa_tail(
    big: Seq<u8>,
    e2: int,
    x: (Seq<Seq<u8>>, Seq<Seq<u8>>, u32, i32, i32, i32, u32),
)
    requires
        0 <= e2,
        e2 + 20 <= big.len(),
        big.subrange(e2, e2 + 20) == soa_tail(x),
    ensures
        u32_at(big, e2) == x.2,
        u32_at(big, e2 + 4) as i32 == x.3,
        u32_at(big, e2 + 8) as i32 == x.4,
        u32_at(big, e2 + 12) as i32 == x.5,
        u32_at(big, e2 + 16) == x.6,
{
    lemma_subrange_split(
        big,
        e2,
        be32(x.2) + be32(x.3 as u32) + be32(x.4 as u32) + be32(x.5 as u32),
        be32(x.6),
    );
    lemma_subrange_split(big, e2, be32(x.2) + be32(x.3 as u32) + be32(x.4 as u32), be32(x.5 as u32));
    lemma_subrange_split(big, e2, be32(x.2) + be32(x.3 as u32), be32(x.4 as u32));
    lemma_subrange_split(big, e2, be32(x.2), be32(x.3 as u32));
    lemma_u32_at(big, e2, x.2);
    lemma_u32_at(big, e2 + 4, x.3 as u32);
    lemma_u32_at(big, e2 + 8, x.4 as u32);
    lemma_u32_at(big, e2 + 12, x.5 as u32);
    lemma_u32_at(big, e2 + 16, x.6);
    lemma_i32_as_u32(x.3);
    lemma_i32_as_u32(x.4);
    lemma_i32_as_u32(x.5);
}

/// The two names of SOA data read back, one after the other.
proof fn lemma_soa_names(
    buf: Seq<u8>,
    ptrs: Seq<(usize, Seq<u8>)>,
    m: Seq<Seq<u8>>,
    r: Seq<Seq<u8>>,
    canonical: bool,
    rest: Seq<u8>,
)
    requires
        pointers_valid(buf, ptrs),
        labels_wf(m),
        labels_wf(r),
    ensures
        ({
            let (b1, p1) = emit_name_spec(buf, ptrs, m, canonical);
            let (bn, pn) = emit_name_spec(b1, p1, r, canonical);
            &&& buf.len() < b1.len() < bn.len()
            &&& bn.subrange(0, buf.len() as int) == buf
            &&& pointers_valid(bn, pn)
            &&& decode_name(bn + rest, buf.len() as int, buf.len() as int) == Ok::<
                (Seq<Seq<u8>>, int),
                (ProtoError, int),
            >((written_labels(m, canonical), b1.len() as int))
            &&& decode_name(bn + rest, b1.len() as int, b1.len() as int) == Ok::<
                (Seq<Seq<u8>>, int),
                (ProtoError, int),
            >((written_labels(r, canonical), bn.len() as int))
        }),
{
    let (b1, p1) = emit_name_spec(buf, ptrs, m, canonical);
    let (bn, pn) = emit_name_spec(b1, p1, r, canonical);
    lemma_emit_name(buf, ptrs, m, canonical);
    lemma_name_back(b1, p1, r, canonical, rest);
    let more = bn.subrange(b1.len() as int, bn.len() as int) + rest;
    assert(b1 + more =~= bn + rest);
    lemma_decode_extend(b1, more, buf.len() as int, buf.len() as int);
    assert(bn.subrange(0, buf.len() as int) =~= b1.subrange(0, buf.len() as int));
}

/// SOA data whose names and fields are in place reads back.
proof fn lemma_parse_soa_back(
    big: Seq<u8>,
    base: int,
    e1: int,
    e2: int,
    x: (Seq<Seq<u8>>, Seq<Seq<u8>>, u32, i32, i32, i32, u32),
)
    requires
        0 <= e2,
        decode_name(big, base, base) == Ok::<(Seq<Seq<u8>>, int), (ProtoError, int)>((x.0, e1)),
        decode_name(big, e1, e1) == Ok::<(Seq<Seq<u8>>, int), (ProtoError, int)>((x.1, e2)),
        e2 + 20 <= big.len(),
        big.subrange(e2, e2 + 20) == soa_tail(x),
    ensures
        crate::rdata::parse_soa(big, base) == Ok::<
            ((Seq<Seq<u8>>, Seq<Seq<u8>>, u32, i32, i32, i32, u32), int),
            (ProtoError, int),
        >((x, e2 + 20)),
{
    lemma_soa_tail(big, e2, x);
}

/// The round trip of SOA data.
#[verifier::rlimit(50)]
proof fn lemma_roundtrip_soa(
    buf: Seq<u8>,
    ptrs: Seq<(usize, Seq<u8>)>,
    v: RDataV,
    canonical: bool,
    ext: Seq<u8>,
)
    requires
        pointers_valid(buf, ptrs),
        rdata_wf(v),
        v is SOA,
        emit_rdata_spec(buf, ptrs, v, canonical).0.len() <= buf.len() + 65535,
    ensures
        roundtrip_holds(buf, ptrs, v, canonical, ext),
{
    let base = buf.len() as int;
    let x = v->SOA_0;
    let (b2, p2, err) = emit_rdata_spec(buf, ptrs, v, canonical);
    let (b1, p1) = emit_name_spec(buf, ptrs, x.0, canonical);
    let (bn, pn) = emit_name_spec(b1, p1, x.1, canonical);
    let tail = soa_tail(x);
    assert(b2 == bn + tail);
    assert(p2 == pn);
    let big = b2 + ext;
    assert(bn + (tail + ext) =~= big);
    lemma_soa_names(buf, ptrs, x.0, x.1, canonical, tail + ext);
    lemma_pointers_extend(bn, pn, tail);
    assert(b2.subrange(0, base) =~= bn.subrange(0, base));
    let e2 = bn.len() as int;
    lemma_appended(bn, tail, ext);
    let w = written_form(v, canonical)->SOA_0;
    assert(soa_tail(w) == tail);
    lemma_parse_soa_back(big, base, b1.len() as int, e2, w);
}

/// The round trip of NULL data.
proof fn lemma_roundtrip_null(
    buf: Seq<u8>,
    ptrs: Seq<(usize, Seq<u8>)>,
    v: RDataV,
    canonical: bool,
    ext: Seq<u8>,
)
    requires
        pointers_valid(buf, ptrs),
        rdata_wf(v),
        v is NULL,
        emit_rdata_spec(buf, ptrs, v, canonical).0.len() <= buf.len() + 65535,
    ensures
        roundtrip_holds(buf, ptrs, v, canonical, ext),
{
    let base = buf.len() as int;
    let (b2, p2, err) = emit_rdata_spec(buf, ptrs, v, canonical);
    let big = b2 + ext;
    match v {
        RDataV::NULL(d) => {
            lemma_appended(buf, d, ext);
            lemma_pointers_extend(buf, ptrs, d);
            assert(b2.subrange(0, base) =~= buf);
        },
        _ => {},
    }
}

/// The round trip of OPENPGPKEY data.
proof fn lemma_roundtrip_openpgpkey(
    buf: Seq<u8>,
    ptrs: Seq<(usize, Seq<u8>)>,
    v: RDataV,
    canonical: bool,
    ext: Seq<u8>,
)
    requires
        pointers_valid(buf, ptrs),
        rdata_wf(v),
        v is OPENPGPKEY,
        emit_rdata_spec(buf, ptrs, v, canonical).0.len() <= buf.len() + 65535,
    ensures
        roundtrip_holds(buf, ptrs, v, canonical, ext),
{
    let base = buf.len() as int;
    let (b2, p2, err) = emit_rdata_spec(buf, ptrs, v, canonical);
    let big = b2 + ext;
    match v {
        RDataV::OPENPGPKEY(d) => {
            lemma_appended(buf, d, ext);
            lemma_pointers_extend(buf, ptrs, d);
            assert(b2.subrange(0, base) =~= buf);
        },
        _ => {},
    }
}

/// The round trip of Unknown data.
proof fn lemma_roundtrip_unknown(
    buf: Seq<u8>,
    ptrs: Seq<(usize, Seq<u8>)>,
    v: RDataV,
    canonical: bool,
    ext: Seq<u8>,
)
    requires
        pointers_valid(buf, ptrs),
        rdata_wf(v),
        v is Unknown,
        emit_rdata_spec(buf, ptrs, v, canonical).0.len() <= buf.len() + 65535,
    ensures
        roundtrip_holds(buf, ptrs, v, canonical, ext),
{
    let base = buf.len() as int;
    let (b2, p2, err) = emit_rdata_spec(buf, ptrs, v, canonical);
    let big = b2 + ext;
    match v {
        RDataV::Unknown(_, d) => {
            lemma_appended(buf, d, ext);
            lemma_pointers_extend(buf, ptrs, d);
            assert(b2.subrange(0, base) =~= buf);
        },
        _ => {},
    }
}

/// The round trip of SSHFP data.
proof fn lemma_roundtrip_sshfp(
    buf: Seq<u8>,
    ptrs: Seq<(usize, Seq<u8>)>,
    v: RDataV,
    canonical: bool,
    ext: Seq<u8>,
)
    requires
        pointers_valid(buf, ptrs),
        rdata_wf(v),
        v is SSHFP,
        emit_rdata_spec(buf, ptrs, v, canonical).0.len() <= buf.len() + 65535,
    ensures
        roundtrip_holds(buf, ptrs, v, canonical, ext),
{
    let base = buf.len() as int;
    let (b2, p2, err) = emit_rdata_spec(buf, ptrs, v, canonical);
    let big = b2 + ext;
    match v {
        RDataV::SSHFP(x) => {
            let d = sshfp_bytes(x);
            lemma_appended(buf, d, ext);
            lemma_pointers_extend(buf, ptrs, d);
            assert(b2.subrange(0, base) =~= buf);
            lemma_subrange_split(big, base, seq![x.0, x.1], x.2);
            assert(big[base] == big.subrange(base, base + 2)[0]);
            assert(big[base + 1] == big.subrange(base, base + 2)[1]);
        },
        _ => {},
    }
}

/// The round trip of TLSA data.
proof fn lemma_roundtrip_tlsa(
    buf: Seq<u8>,
    ptrs: Seq<(usize, Seq<u8>)>,
    v: RDataV,
    canonical: bool,
    ext: Seq<u8>,
)
    requires
        pointers_valid(buf, ptrs),
        rdata_wf(v),
        v is TLSA,
        emit_rdata_spec(buf, ptrs, v, canonical).0.len() <= buf.len() + 65535,
    ensures
        roundtrip_holds(buf, ptrs, v, canonical, ext),
{
    let base = buf.len() as int;
    let (b2, p2, err) = emit_rdata_spec(buf, ptrs, v, canonical);
    let big = b2 + ext;
    match v {
        RDataV::TLSA(x) => {
            let d = tlsa_bytes(x);
            lemma_appended(buf, d, ext);
            lemma_pointers_extend(buf, ptrs, d);
            assert(b2.subrange(0, base) =~= buf);
            lemma_subrange_split(big, base, seq![x.0, x.1, x.2], x.3);
            assert(big[base] == big.subrange(base, base + 3)[0]);
            assert(big[base + 1] == big.subrange(base, base + 3)[1]);
            assert(big[base + 2] == big.subrange(base, base + 3)[2]);
        },
        _ => {},
    }
}

/// The round trip of OPT data.
proof fn lemma_roundtrip_opt(
    buf: Seq<u8>,
    ptrs: Seq<(usize, Seq<u8>)>,
    v: RDataV,
    canonical: bool,
    ext: Seq<u8>,
)
    requires
        pointers_valid(buf, ptrs),
        rdata_wf(v),
        v is OPT,
        emit_rdata_spec(buf, ptrs, v, canonical).0.len() <= buf.len() + 65535,
    ensures
        roundtrip_holds(buf, ptrs, v, canonical, ext),
{
    let base = buf.len() as int;
    let (b2, p2, err) = emit_rdata_spec(buf, ptrs, v, canonical);
    let big = b2 + ext;
    match v {
        RDataV::OPT(o) => {
            let d = opt_bytes(o);
            lemma_appended(buf, d, ext);
            lemma_pointers_extend(buf, ptrs, d);
            assert(b2.subrange(0, base) =~= buf);
            lemma_opt_items_roundtrip(big, base, o);
            lemma_opt_from_distinct(o);
            assert(parse_opt(big, base, d.len() as int) == Ok::<
                (Seq<(u16, Seq<u8>)>, int),
                (ProtoError, int),
            >((o, base + d.len())));
        },
        _ => {},
    }
}

/// The round trip of TXT data.
proof fn lemma_roundtrip_txt(
    buf: Seq<u8>,
    ptrs: Seq<(usize, Seq<u8>)>,
    v: RDataV,
    canonical: bool,
    ext: Seq<u8>,
)
    requires
        pointers_valid(buf, ptrs),
        rdata_wf(v),
        v is TXT,
        emit_rdata_spec(buf, ptrs, v, canonical).0.len() <= buf.len() + 65535,
    ensures
        roundtrip_holds(buf, ptrs, v, canonical, ext),
{
    let base = buf.len() as int;
    let (b2, p2, err) = emit_rdata_spec(buf, ptrs, v, canonical);
    let big = b2 + ext;
    match v {
        RDataV::TXT(t) => {
            lemma_txt_emit(buf, t);
            let d = txt_bytes(t);
            lemma_appended(buf, d, ext);
            lemma_pointers_extend(buf, ptrs, d);
            assert(b2.subrange(0, base) =~= buf);
            lemma_txt_roundtrip(big, base, t);
        },
        _ => {},
    }
}

/// The round trip of ZERO data.
proof fn lemma_roundtrip_zero(
    buf: Seq<u8>,
    ptrs: Seq<(usize, Seq<u8>)>,
    v: RDataV,
    canonical: bool,
    ext: Seq<u8>,
)
    requires
        pointers_valid(buf, ptrs),
        rdata_wf(v),
        v is ZERO,
        emit_rdata_spec(buf, ptrs, v, canonical).0.len() <= buf.len() + 65535,
    ensures
        roundtrip_holds(buf, ptrs, v, canonical, ext),
{
    let base = buf.len() as int;
    let (b2, p2, err) = emit_rdata_spec(buf, ptrs, v, canonical);
    let big = b2 + ext;
    match v {
        RDataV::ZERO => {
            assert(b2.subrange(0, base) =~= buf);
        },
        _ => {},
    }
}

/// Record data written into a buffer whose remembered names are readable is
/// written without error after the bytes already there, keeps the
/// remembered names readable, and reads back as itself, for its own record
/// type and the length it took, from where it was written to where it ended,
/// whatever bytes follow it.
pub proof fn lemma_rdata_roundtrip(
    buf: Seq<u8>,
    ptrs: Seq<(usize, Seq<u8>)>,
    v: RDataV,
    canonical: bool,
    ext: Seq<u8>,
)
    requires
        pointers_valid(buf, ptrs),
        rdata_wf(v),
        emit_rdata_spec(buf, ptrs, v, canonical).0.len() <= buf.len() + 65535,
    ensures
        roundtrip_holds(buf, ptrs, v, canonical, ext),
{
    match v {
        RDataV::A(_) => lemma_roundtrip_a(buf, ptrs, v, canonical, ext),
        RDataV::AAAA(_) => lemma_roundtrip_aaaa(buf, ptrs, v, canonical, ext),
        RDataV::CAA(_) => lemma_roundtrip_caa(buf, ptrs, v, canonical, ext),
        RDataV::CNAME(_) => lemma_roundtrip_cname(buf, ptrs, v, canonical, ext),
        RDataV::NS(_) => lemma_roundtrip_ns(buf, ptrs, v, canonical, ext),
        RDataV::PTR(_) => lemma_roundtrip_ptr(buf, ptrs, v, canonical, ext),
        RDataV::MX(_) => lemma_roundtrip_mx(buf, ptrs, v, canonical, ext),
        RDataV::SRV(_) => lemma_roundtrip_srv(buf, ptrs, v, canonical, ext),
        RDataV::SOA(_) => lemma_roundtrip_soa(buf, ptrs, v, canonical, ext),
        RDataV::NULL(_) => lemma_roundtrip_null(buf, ptrs, v, canonical, ext),
        RDataV::OPENPGPKEY(_) => lemma_roundtrip_openpgpkey(buf, ptrs, v, canonical, ext),
        RDataV::Unknown(_, _) => lemma_roundtrip_unknown(buf, ptrs, v, canonical, ext),
        RDataV::SSHFP(_) => lemma_roundtrip_sshfp(buf, ptrs, v, canonical, ext),
        RDataV::TLSA(_) => lemma_roundtrip_tlsa(buf, ptrs, v, canonical, ext),
        RDataV::OPT(_) => lemma_roundtrip_opt(buf, ptrs, v, canonical, ext),
        RDataV::TXT(_) => lemma_roundtrip_txt(buf, ptrs, v, canonical, ext),
        RDataV::ZERO => lemma_roundtrip_zero(buf, ptrs, v, canonical, ext),
    }
}


/// The bytes of record data written on its own read back as that data, for
/// its own type and length, whatever follows them.
pub proof fn lemma_to_bytes_roundtrip(v: RDataV, ext: Seq<u8>)
    requires
        rdata_wf(v),
        rdata_bytes(v).len() <= 65535,
    ensures
        read_rdata(rdata_bytes(v) + ext, 0, rtype_of(v), rdata_bytes(v).len() as u16) == Ok::<
            (RDataV, int),
            (ProtoError, int),
        >((v, rdata_bytes(v).len() as int)),
{
    let e = Seq::<u8>::empty();
    let p = Seq::<(usize, Seq<u8>)>::empty();
    assert(pointers_valid(e, p)) by {
        reveal(pointers_valid);
    }
    lemma_rdata_roundtrip(e, p, v, false, ext);
}

/// The canonical form of record data reads back as the data with its names
/// in lower case, for its own type and length, whatever follows it.
pub proof fn lemma_canonical_roundtrip(v: RDataV, ext: Seq<u8>)
    requires
        rdata_wf(v),
        canonical_bytes(v).len() <= 65535,
    ensures
        read_rdata(canonical_bytes(v) + ext, 0, rtype_of(v), canonical_bytes(v).len() as u16)
            == Ok::<(RDataV, int), (ProtoError, int)>(
            (names_lowered(v), canonical_bytes(v).len() as int),
        ),
{
    let e = Seq::<u8>::empty();
    let p = Seq::<(usize, Seq<u8>)>::empty();
    assert(pointers_valid(e, p)) by {
        reveal(pointers_valid);
    }
    lemma_rdata_roundtrip(e, p, v, true, ext);
}

/// Writing record data keeps the bytes written before it.
pub proof fn lemma_emit_keeps_prefix(
    buf: Seq<u8>,
    ptrs: Seq<(usize, Seq<u8>)>,
    v: RDataV,
    canonical: bool,
)
    requires
        rdata_wf(v),
    ensures
        ({
            let b2 = emit_rdata_spec(buf, ptrs, v, canonical).0;
            &&& buf.len() <= b2.len()
            &&& b2.subrange(0, buf.len() as int) == buf
        }),
{
    let base = buf.len() as int;
    let b2 = emit_rdata_spec(buf, ptrs, v, canonical).0;
    match v {
        RDataV::CNAME(n) => lemma_name_keeps_prefix(buf, ptrs, n, canonical),
        RDataV::NS(n) => lemma_name_keeps_prefix(buf, ptrs, n, canonical),
        RDataV::PTR(n) => lemma_name_keeps_prefix(buf, ptrs, n, canonical),
        RDataV::MX(m) => {
            let b1 = buf + be16(m.0);
            lemma_name_keeps_prefix(b1, ptrs, m.1, canonical);
            assert(b2.subrange(0, base) =~= b2.subrange(0, b1.len() as int).subrange(0, base));
        },
        RDataV::SRV(x) => {
            let b1 = buf + be16(x.0) + be16(x.1) + be16(x.2);
            lemma_name_keeps_prefix(b1, ptrs, x.3, canonical);
            assert(b2.subrange(0, base) =~= b2.subrange(0, b1.len() as int).subrange(0, base));
        },
        RDataV::SOA(x) => {
            let (b1, p1) = emit_name_spec(buf, ptrs, x.0, canonical);
            let (bn, pn) = emit_name_spec(b1, p1, x.1, canonical);
            lemma_name_keeps_prefix(buf, ptrs, x.0, canonical);
            lemma_name_keeps_prefix(b1, p1, x.1, canonical);
            assert(b2.subrange(0, base) =~= bn.subrange(0, b1.len() as int).subrange(0, base));
        },
        RDataV::TXT(t) => {
            lemma_txt_emit(buf, t);
            assert(b2.subrange(0, base) =~= buf);
        },
        _ => {
            assert(b2.subrange(0, base) =~= buf);
        },
    }
}

/// Record data read for a record type is data of that type.
pub proof fn lemma_read_type(buf: Seq<u8>, pos: int, rt: RecordType, len: u16)
    ensures
        read_rdata(buf, pos, rt, len) matches Ok((v, _)) ==> rtype_of(v) == rt,
{
}

} // verus!
