//! The wire layout, field by field: which octets of a message each field of
//! record data is read from, which octets writing it produces, the
//! high-order-first order of integers, and what lower-casing does to a
//! byte.
use vstd::prelude::*;
use crate::error::ProtoError;
use crate::wire::{u16_at, u32_at, be16, be32};
use crate::name::{split_dots, dotted_labels, ascii_lower, lower_label, lower_labels, labels_wf, plain_encoding, decode_name, name_at};
use crate::encoder::emit_name_spec;
use crate::record_type::RecordType;
use crate::record_data::{RDataV, read_rdata, emit_rdata_spec, ip_of};
use crate::rdata::{parse_opt_items, opt_insert, txt_bytes, txt_wf, txt_emit, parse_txt, opt_bytes, lemma_txt_emit};

verus! {

/// A 16-bit integer is read high-order octet first.
pub proof fn lemma_u16_layout(buf: Seq<u8>, pos: int)
    requires
        0 <= pos,
        pos + 2 <= buf.len(),
    ensures
        u16_at(buf, pos) as int == buf[pos] as int * 256 + buf[pos + 1] as int,
{
    assert(buf[pos] as int * 256 + buf[pos + 1] as int <= 65535);
}

/// A 32-bit integer is read high-order octet first.
pub proof fn lemma_u32_layout(buf: Seq<u8>, pos: int)
    requires
        0 <= pos,
        pos + 4 <= buf.len(),
    ensures
        u32_at(buf, pos) as int == buf[pos] as int * 16777216 + buf[pos + 1] as int * 65536
            + buf[pos + 2] as int * 256 + buf[pos + 3] as int,
{
    let (a, b, c, d) = (buf[pos] as int, buf[pos + 1] as int, buf[pos + 2] as int, buf[pos + 3] as int);
    assert(a * 16777216 + b * 65536 + c * 256 + d <= 4294967295) by (nonlinear_arith)
        requires
            0 <= a < 256,
            0 <= b < 256,
            0 <= c < 256,
            0 <= d < 256,
    ;
}

/// A 16-bit integer is written as two octets, high-order first.
pub proof fn lemma_be16_layout(v: u16)
    ensures
        be16(v).len() == 2,
        be16(v)[0] as int * 256 + be16(v)[1] as int == v as int,
{
    let s = be16(v);
    assert(s[0] as int == v / 256);
    assert(s[1] as int == v % 256);
}

/// A 32-bit integer is written as four octets, high-order first.
pub proof fn lemma_be32_layout(v: u32)
    ensures
        be32(v).len() == 4,
        be32(v)[0] as int * 16777216 + be32(v)[1] as int * 65536 + be32(v)[2] as int * 256
            + be32(v)[3] as int == v as int,
{
    let s = be32(v);
    assert(s[0] as int == v / 16777216);
    assert(s[1] as int == (v / 65536) % 256);
    assert(s[2] as int == (v / 256) % 256);
    assert(s[3] as int == v % 256);
    assert((v / 16777216) * 16777216 + ((v / 65536) % 256) * 65536 + ((v / 256) % 256) * 256 + v
        % 256 == v) by (nonlinear_arith);
}

/// Lower-casing turns each upper-case ASCII letter into its lower-case
/// letter (32 further on) and leaves every other byte alone, so no
/// upper-case letter is left.
pub proof fn lemma_ascii_lower_layout(b: u8)
    ensures
        65 <= b <= 90 ==> ascii_lower(b) as int == b as int + 32,
        !(65 <= b <= 90) ==> ascii_lower(b) == b,
        !(65 <= ascii_lower(b) <= 90),
{
}

/// A label in lower case has the same length, each byte lower-cased in
/// place, and no upper-case ASCII letter.
pub proof fn lemma_lower_label_layout(l: Seq<u8>)
    ensures
        lower_label(l).len() == l.len(),
        forall|j: int| 0 <= j < l.len() ==> #[trigger] lower_label(l)[j] == ascii_lower(l[j]),
        forall|j: int| 0 <= j < l.len() ==> !(65 <= #[trigger] lower_label(l)[j] <= 90),
{
}

/// The address of A and AAAA data is the data's own octets in their own
/// order; other data has none.
pub proof fn lemma_ip_layout(v: RDataV)
    ensures
        v matches RDataV::A(a) ==> ip_of(v) == Some(a),
        v matches RDataV::AAAA(a) ==> ip_of(v) == Some(a),
        !(v is A || v is AAAA) ==> ip_of(v) is None,
{
}

/// Writing record data of fixed layout appends its fields in their wire
/// order: A and AAAA their octets as they stand; NULL, OPENPGPKEY and
/// unknown data their bytes; SSHFP the algorithm, the fingerprint type, the
/// fingerprint; TLSA usage, selector, matching type, data; CAA the flags
/// (128 for critical), the tag length, the tag, the value; type 0 nothing.
#[verifier::rlimit(40)]
pub proof fn lemma_emit_layout(buf: Seq<u8>, ptrs: Seq<(usize, Seq<u8>)>, v: RDataV, c: bool)
    ensures
        v matches RDataV::A(a) ==> emit_rdata_spec(buf, ptrs, v, c) == (buf + a, ptrs, None::<ProtoError>),
        v matches RDataV::AAAA(a) ==> emit_rdata_spec(buf, ptrs, v, c) == (buf + a, ptrs, None::<ProtoError>),
        v matches RDataV::NULL(d) ==> emit_rdata_spec(buf, ptrs, v, c) == (buf + d, ptrs, None::<ProtoError>),
        v matches RDataV::OPENPGPKEY(d) ==> emit_rdata_spec(buf, ptrs, v, c) == (buf + d, ptrs, None::<ProtoError>),
        v matches RDataV::Unknown(_, d) ==> emit_rdata_spec(buf, ptrs, v, c) == (buf + d, ptrs, None::<ProtoError>),
        v matches RDataV::SSHFP(x) ==> emit_rdata_spec(buf, ptrs, v, c) == (
            buf + seq![x.0, x.1] + x.2,
            ptrs,
            None::<ProtoError>,
        ),
        v matches RDataV::TLSA(x) ==> emit_rdata_spec(buf, ptrs, v, c) == (
            buf + seq![x.0, x.1, x.2] + x.3,
            ptrs,
            None::<ProtoError>,
        ),
        v matches RDataV::CAA(x) ==> emit_rdata_spec(buf, ptrs, v, c) == (
            buf + seq![
                if x.0 {
                    128u8
                } else {
                    0u8
                },
                (x.1.len() % 256) as u8,
            ] + x.1 + x.2,
            ptrs,
            None::<ProtoError>,
        ),
        v is ZERO ==> emit_rdata_spec(buf, ptrs, v, c) == (buf, ptrs, None::<ProtoError>),
{
    match v {
        RDataV::SSHFP(x) => {
            assert(buf + crate::rdata::sshfp_bytes(x) =~= buf + seq![x.0, x.1] + x.2);
        },
        RDataV::TLSA(x) => {
            assert(buf + crate::rdata::tlsa_bytes(x) =~= buf + seq![x.0, x.1, x.2] + x.3);
        },
        RDataV::CAA(x) => {
            assert(buf + crate::rdata::caa_bytes(x) =~= buf + seq![
                if x.0 {
                    128u8
                } else {
                    0u8
                },
                (x.1.len() % 256) as u8,
            ] + x.1 + x.2);
        },
        RDataV::A(a) => {
            assert(emit_rdata_spec(buf, ptrs, v, c) == (buf + a, ptrs, None::<ProtoError>));
        },
        _ => {},
    }
}

/// Writing MX, SRV and SOA data appends its integers high-order first,
/// around its names: MX the preference then the exchange; SRV priority,
/// weight and port, then the target; SOA the two names, then serial,
/// refresh, retry, expire and minimum.
pub proof fn lemma_emit_fields_layout(
    buf: Seq<u8>,
    ptrs: Seq<(usize, Seq<u8>)>,
    v: RDataV,
    c: bool,
)
    ensures
        v matches RDataV::MX(m) ==> ({
            let (b, p) = emit_name_spec(buf + be16(m.0), ptrs, m.1, c);
            emit_rdata_spec(buf, ptrs, v, c) == (b, p, None::<ProtoError>)
        }),
        v matches RDataV::SRV(x) ==> ({
            let (b, p) = emit_name_spec(buf + be16(x.0) + be16(x.1) + be16(x.2), ptrs, x.3, c);
            emit_rdata_spec(buf, ptrs, v, c) == (b, p, None::<ProtoError>)
        }),
        v matches RDataV::SOA(x) ==> ({
            let (b1, p1) = emit_name_spec(buf, ptrs, x.0, c);
            let (b2, p2) = emit_name_spec(b1, p1, x.1, c);
            emit_rdata_spec(buf, ptrs, v, c) == (
                b2 + be32(x.2) + be32(x.3 as u32) + be32(x.4 as u32) + be32(x.5 as u32) + be32(x.6),
                p2,
                None::<ProtoError>,
            )
        }),
{
}

/// Record data read successfully takes exactly the announced length (type
/// 0, which has no data, takes nothing), and data of fixed layout holds the
/// octets it was read from in their wire order: A the four octets at the
/// start, AAAA the sixteen; NULL, OPENPGPKEY and unknown data all the
/// announced bytes; SSHFP the algorithm from the first octet, the
/// fingerprint type from the second, the rest as fingerprint; TLSA usage,
/// selector and matching type from the first three octets, the rest as
/// data; CAA critical when the high bit of the first octet is set, the tag
/// as long as the second octet says, the rest as value.
#[verifier::rlimit(40)]
pub proof fn lemma_read_layout(buf: Seq<u8>, pos: int, rt: RecordType, len: u16)
    ensures
        read_rdata(buf, pos, rt, len) matches Ok((v, e)) ==> {
            &&& rt is ZERO ==> v is ZERO && e == pos
            &&& !(rt is ZERO) ==> e == pos + len
            &&& (v matches RDataV::A(a) ==> a == buf.subrange(pos, pos + 4))
            &&& (v matches RDataV::AAAA(a) ==> a == buf.subrange(pos, pos + 16))
            &&& (v matches RDataV::NULL(d) ==> d == buf.subrange(pos, pos + len))
            &&& (v matches RDataV::OPENPGPKEY(d) ==> d == buf.subrange(pos, pos + len))
            &&& (v matches RDataV::Unknown(_, d) ==> d == buf.subrange(pos, pos + len))
            &&& (v matches RDataV::SSHFP(x) ==> {
                &&& x.0 == buf[pos]
                &&& x.1 == buf[pos + 1]
                &&& x.2 == buf.subrange(pos + 2, pos + len)
            })
            &&& (v matches RDataV::TLSA(x) ==> {
                &&& x.0 == buf[pos]
                &&& x.1 == buf[pos + 1]
                &&& x.2 == buf[pos + 2]
                &&& x.3 == buf.subrange(pos + 3, pos + len)
            })
            &&& (v matches RDataV::CAA(x) ==> {
                &&& x.0 == (buf[pos] >= 128)
                &&& x.1 == buf.subrange(pos + 2, pos + 2 + buf[pos + 1])
                &&& x.2 == buf.subrange(pos + 2 + buf[pos + 1], pos + len)
            })
        },
{
}

/// Record data with names reads its integers high-order first (see
/// `lemma_u16_layout` and `lemma_u32_layout`) around its names: CNAME, NS
/// and PTR a name at the start; MX the preference from the first two
/// octets, then the exchange; SRV priority, weight and port from the first
/// six octets, then the target; SOA the two names one after the other, then
/// serial, refresh, retry, expire and minimum in the last twenty octets.
#[verifier::rlimit(40)]
pub proof fn lemma_read_fields_layout(buf: Seq<u8>, pos: int, rt: RecordType, len: u16)
    ensures
        read_rdata(buf, pos, rt, len) matches Ok((v, e)) ==> {
            &&& (v matches RDataV::CNAME(n) ==> name_at(buf, pos) == Ok::<
                (Seq<Seq<u8>>, int),
                (ProtoError, int),
            >((n, e)))
            &&& (v matches RDataV::NS(n) ==> name_at(buf, pos) == Ok::<
                (Seq<Seq<u8>>, int),
                (ProtoError, int),
            >((n, e)))
            &&& (v matches RDataV::PTR(n) ==> name_at(buf, pos) == Ok::<
                (Seq<Seq<u8>>, int),
                (ProtoError, int),
            >((n, e)))
            &&& (v matches RDataV::MX(m) ==> {
                &&& m.0 == u16_at(buf, pos)
                &&& name_at(buf, pos + 2) == Ok::<(Seq<Seq<u8>>, int), (ProtoError, int)>(
                    (m.1, e),
                )
            })
            &&& (v matches RDataV::SRV(x) ==> {
                &&& x.0 == u16_at(buf, pos)
                &&& x.1 == u16_at(buf, pos + 2)
                &&& x.2 == u16_at(buf, pos + 4)
                &&& name_at(buf, pos + 6) == Ok::<(Seq<Seq<u8>>, int), (ProtoError, int)>(
                    (x.3, e),
                )
            })
            &&& (v matches RDataV::SOA(x) ==> {
                &&& name_at(buf, pos) matches Ok((m, e1))
                &&& m == x.0
                &&& name_at(buf, e1) == Ok::<(Seq<Seq<u8>>, int), (ProtoError, int)>(
                    (x.1, e - 20),
                )
                &&& x.2 == u32_at(buf, e - 20)
                &&& x.3 == u32_at(buf, e - 16) as i32
                &&& x.4 == u32_at(buf, e - 12) as i32
                &&& x.5 == u32_at(buf, e - 8) as i32
                &&& x.6 == u32_at(buf, e - 4)
            })
        },
{
}

/// How a name is laid out where it is read: a zero octet ends it; an octet
/// of 1 to 63 is the length of a label whose bytes follow it, and the rest
/// of the name comes after them; an octet of 192 or more starts a two-octet
/// pointer, whose low 14 bits give an earlier index at which the rest of
/// the name is read, and the name ends after the pointer; no other octet
/// starts a part of a name.
pub proof fn lemma_name_layout(buf: Seq<u8>, pos: int, start: int)
    ensures
        decode_name(buf, pos, start) matches Ok((ls, e)) ==> {
            &&& 0 <= pos < buf.len()
            &&& buf[pos] < 64 || buf[pos] >= 192
            &&& buf[pos] == 0 ==> ls.len() == 0 && e == pos + 1
            &&& 1 <= buf[pos] < 64 ==> {
                &&& ls.len() >= 1
                &&& ls[0] == buf.subrange(pos + 1, pos + 1 + buf[pos])
                &&& decode_name(buf, pos + 1 + buf[pos], start) == Ok::<
                    (Seq<Seq<u8>>, int),
                    (ProtoError, int),
                >((ls.drop_first(), e))
            }
            &&& buf[pos] >= 192 ==> {
                let target = (buf[pos] - 192) * 256 + buf[pos + 1];
                &&& e == pos + 2
                &&& 0 <= target < start
                &&& decode_name(buf, target, target) matches Ok((rest, _))
                &&& rest == ls
            }
        },
{
    if decode_name(buf, pos, start) is Ok && 1 <= buf[pos] < 64 {
        let (ls, e) = decode_name(buf, pos, start)->Ok_0;
        let n = buf[pos] as int;
        let (rest, e2) = decode_name(buf, pos + 1 + n, start)->Ok_0;
        assert(ls == seq![buf.subrange(pos + 1, pos + 1 + n)] + rest);
        assert(ls.drop_first() =~= rest);
    }
}

/// The plain wire form of a name is each label after an octet holding its
/// length, in order.
pub proof fn lemma_plain_layout(ls: Seq<Seq<u8>>)
    ensures
        ls.len() == 0 ==> plain_encoding(ls) == Seq::<u8>::empty(),
        ls.len() > 0 ==> plain_encoding(ls) == seq![ls[0].len() as u8] + ls[0] + plain_encoding(
            ls.drop_first(),
        ),
{
}

/// A well-formed name written in canonical mode is its labels in full, in
/// lower case, then a zero octet, and remembers no name; it holds no
/// upper-case ASCII letter: its length octets are below 64 and its label
/// bytes are lower case.
pub proof fn lemma_canonical_name_lower(buf: Seq<u8>, ptrs: Seq<(usize, Seq<u8>)>, ls: Seq<Seq<u8>>)
    requires
        labels_wf(ls),
    ensures
        ({
            let (b, p) = emit_name_spec(buf, ptrs, ls, true);
            &&& b == buf + plain_encoding(lower_labels(ls)).push(0)
            &&& p == ptrs
            &&& b.subrange(0, buf.len() as int) == buf
            &&& forall|j: int| buf.len() <= j < b.len() ==> !(65 <= #[trigger] b[j] <= 90)
        }),
{
    let lw = lower_labels(ls);
    lemma_plain_lower(lw);
    let b = emit_name_spec(buf, ptrs, ls, true).0;
    let pe = plain_encoding(lw);
    assert(b == buf + pe.push(0));
    assert(b.subrange(0, buf.len() as int) =~= buf);
    assert forall|j: int| buf.len() <= j < b.len() implies !(65 <= #[trigger] b[j] <= 90) by {
        if j < buf.len() + pe.len() {
            assert(b[j] == pe[j - buf.len()]);
        }
    }
}

/// The plain wire form of labels that are short and lower case holds no
/// upper-case ASCII letter.
proof fn lemma_plain_lower(lw: Seq<Seq<u8>>)
    requires
        forall|i: int| 0 <= i < lw.len() ==> (#[trigger] lw[i]).len() < 64,
        forall|i: int, j: int|
            0 <= i < lw.len() && 0 <= j < lw[i].len() ==> !(65 <= #[trigger] lw[i][j] <= 90),
    ensures
        forall|j: int| 0 <= j < plain_encoding(lw).len() ==> !(65 <= #[trigger] plain_encoding(lw)[j] <= 90),
    decreases lw.len(),
{
    if lw.len() > 0 {
        let rest = lw.drop_first();
        assert forall|i: int, j: int|
            0 <= i < rest.len() && 0 <= j < rest[i].len() implies !(65 <= #[trigger] rest[i][j] <= 90) by {
            assert(rest[i] == lw[i + 1]);
        }
        assert forall|i: int| 0 <= i < rest.len() implies (#[trigger] rest[i]).len() < 64 by {
            assert(rest[i] == lw[i + 1]);
        }
        lemma_plain_lower(rest);
        let head = seq![lw[0].len() as u8] + lw[0];
        let pe = plain_encoding(lw);
        assert(pe == head + plain_encoding(rest));
        assert forall|j: int| 0 <= j < pe.len() implies !(65 <= #[trigger] pe[j] <= 90) by {
            if j == 0 {
            } else if j < head.len() {
                assert(pe[j] == lw[0][j - 1]);
            } else {
                assert(pe[j] == plain_encoding(rest)[j - head.len()]);
            }
        }
    }
}

/// Text is written as its strings in order, each after an octet holding
/// its length; written whole, without error, when every string fits.
pub proof fn lemma_txt_layout(buf: Seq<u8>, t: Seq<Seq<u8>>)
    ensures
        t.len() == 0 ==> txt_bytes(t) == Seq::<u8>::empty(),
        t.len() > 0 ==> txt_bytes(t) == seq![t[0].len() as u8] + t[0] + txt_bytes(t.drop_first()),
        txt_wf(t) ==> txt_emit(buf, t) == (buf + txt_bytes(t), None::<ProtoError>),
        t.len() > 0 && t[0].len() > 255 ==> txt_emit(buf, t) == (
            buf,
            Some(ProtoError::CharacterDataTooLong { max: 255, len: t[0].len() as usize }),
        ),
{
    if txt_wf(t) {
        lemma_txt_emit(buf, t);
    }
}

/// Text is read as strings, each the bytes after an octet holding its
/// length, one after the other until the announced end is reached.
pub proof fn lemma_txt_read_layout(buf: Seq<u8>, pos: int, limit: int)
    ensures
        parse_txt(buf, pos, limit) matches Ok((ss, e)) ==> {
            &&& pos >= limit ==> ss.len() == 0 && e == pos
            &&& pos < limit ==> {
                &&& 0 <= pos < buf.len()
                &&& ss.len() >= 1
                &&& ss[0] == buf.subrange(pos + 1, pos + 1 + buf[pos])
                &&& parse_txt(buf, pos + 1 + buf[pos], limit) == Ok::<
                    (Seq<Seq<u8>>, int),
                    (ProtoError, int),
                >((ss.drop_first(), e))
            }
        },
{
    if parse_txt(buf, pos, limit) is Ok && pos < limit {
        let (ss, e) = parse_txt(buf, pos, limit)->Ok_0;
        let n = buf[pos] as int;
        let (rest, e2) = parse_txt(buf, pos + 1 + n, limit)->Ok_0;
        assert(ss.drop_first() =~= rest);
    }
}

/// EDNS options are written in order, each as its code, the length of its
/// data (both 16-bit, high-order first) and its data.
pub proof fn lemma_opt_layout(o: Seq<(u16, Seq<u8>)>)
    ensures
        o.len() == 0 ==> opt_bytes(o) == Seq::<u8>::empty(),
        o.len() > 0 && o[0].1.len() <= 65535 ==> opt_bytes(o) == be16(o[0].0) + be16(
            o[0].1.len() as u16,
        ) + o[0].1 + opt_bytes(o.drop_first()),
{
}

/// Labels joined with dots between them.
pub open spec fn join_dots(ls: Seq<Seq<u8>>) -> Seq<u8>
    decreases ls.len(),
{
    if ls.len() == 0 {
        seq![]
    } else if ls.len() == 1 {
        ls[0]
    } else {
        ls[0] + seq![46u8] + join_dots(ls.drop_first())
    }
}

/// Splitting at dots gives labels without dots that, joined with dots
/// again, give back the text (after the label begun so far).
pub proof fn lemma_split_dots_layout(t: Seq<u8>, cur: Seq<u8>)
    requires
        forall|j: int| 0 <= j < cur.len() ==> cur[j] != 46,
    ensures
        split_dots(t, cur).len() >= 1,
        join_dots(split_dots(t, cur)) == cur + t,
        forall|i: int, j: int|
            0 <= i < split_dots(t, cur).len() && 0 <= j < split_dots(t, cur)[i].len() ==> #[trigger] split_dots(t, cur)[i][j] != 46,
    decreases t.len(),
{
    let sp = split_dots(t, cur);
    if t.len() == 0 {
        assert(cur + t =~= cur);
    } else if t[0] == 46 {
        let rest = t.drop_first();
        let x = split_dots(rest, seq![]);
        lemma_split_dots_layout(rest, seq![]);
        assert(sp == seq![cur] + x);
        assert(sp.drop_first() =~= x);
        assert(cur + seq![46u8] + rest =~= cur + t);
        assert forall|i: int, j: int|
            0 <= i < sp.len() && 0 <= j < sp[i].len() implies #[trigger] sp[i][j] != 46 by {
            if i > 0 {
                assert(sp[i] == x[i - 1]);
            }
        }
    } else {
        let rest = t.drop_first();
        lemma_split_dots_layout(rest, cur.push(t[0]));
        assert(cur.push(t[0]) + rest =~= cur + t);
    }
}

/// The labels of dotted text hold no dot, and joined with dots they give
/// back the text without its one final dot (none for the root).
pub proof fn lemma_dotted_layout(s: Seq<u8>)
    ensures
        ({
            let t = if s.len() > 0 && s.last() == 46 {
                s.drop_last()
            } else {
                s
            };
            &&& join_dots(dotted_labels(s)) == t
            &&& forall|i: int, j: int|
                0 <= i < dotted_labels(s).len() && 0 <= j < dotted_labels(s)[i].len()
                    ==> #[trigger] dotted_labels(s)[i][j] != 46
        }),
{
    let t = if s.len() > 0 && s.last() == 46 {
        s.drop_last()
    } else {
        s
    };
    if t.len() > 0 {
        lemma_split_dots_layout(t, seq![]);
        assert(Seq::<u8>::empty() + t =~= t);
    }
}

/// EDNS options are read as a 16-bit code and a 16-bit data length (both
/// high-order first), then that many bytes of data, one option after the
/// other until the announced end.
pub proof fn lemma_opt_read_layout(buf: Seq<u8>, pos: int, limit: int)
    ensures
        parse_opt_items(buf, pos, limit) matches Ok((items, complete, e)) ==> {
            &&& pos >= limit ==> items.len() == 0 && complete && e == pos
            &&& (pos < limit && items.len() > 0) ==> {
                let l = u16_at(buf, pos + 2) as int;
                &&& 0 <= pos
                &&& pos + 4 + l <= buf.len()
                &&& items[0] == (u16_at(buf, pos), buf.subrange(pos + 4, pos + 4 + l))
                &&& parse_opt_items(buf, pos + 4 + l, limit) == Ok::<
                    (Seq<(u16, Seq<u8>)>, bool, int),
                    (ProtoError, int),
                >((items.drop_first(), complete, e))
            }
        },
{
    if parse_opt_items(buf, pos, limit) is Ok && pos < limit {
        let (items, complete, e) = parse_opt_items(buf, pos, limit)->Ok_0;
        if items.len() > 0 {
            let l = u16_at(buf, pos + 2) as int;
            if l == 0 {
                assert(buf.subrange(pos + 4, pos + 4) =~= Seq::<u8>::empty());
            }
            let (rest, c2, e2) = parse_opt_items(buf, pos + 4 + l, limit)->Ok_0;
            assert(items.drop_first() =~= rest);
        }
    }
}

/// Setting an option leaves exactly one entry for its code, holding the
/// new data, keeps every entry of another code, and adds no other.
#[verifier::rlimit(100)]
#[verifier::spinoff_prover]
pub proof fn lemma_opt_insert_layout(opts: Seq<(u16, Seq<u8>)>, code: u16, data: Seq<u8>)
    requires
        forall|i: int, j: int| 0 <= i < j < opts.len() ==> (#[trigger] opts[i]).0 != (#[trigger] opts[j]).0,
    ensures
        ({
            let r = opt_insert(opts, code, data);
            &&& exists|i: int| 0 <= i < r.len() && r[i] == (code, data)
            &&& forall|i: int| 0 <= i < r.len() && (#[trigger] r[i]).0 == code ==> r[i].1 == data
            &&& forall|i: int, j: int| 0 <= i < j < r.len() ==> (#[trigger] r[i]).0 != (#[trigger] r[j]).0
            &&& forall|i: int| 0 <= i < opts.len() && (#[trigger] opts[i]).0 != code ==> exists|j: int|
                0 <= j < r.len() && r[j] == opts[i]
            &&& forall|j: int| 0 <= j < r.len() && (#[trigger] r[j]).0 != code ==> exists|i: int|
                0 <= i < opts.len() && opts[i] == r[j]
        }),
    decreases opts.len(),
{
    let r = opt_insert(opts, code, data);
    if opts.len() == 0 {
        assert(r[0] == (code, data));
    } else if opts[0].0 == code {
        let rest = opts.drop_first();
        assert(r == seq![(code, data)] + rest);
        assert(r[0] == (code, data));
        assert forall|i: int| 0 <= i < r.len() && (#[trigger] r[i]).0 == code implies r[i].1 == data by {
            if i > 0 {
                assert(r[i] == opts[i]);
            }
        }
        assert forall|i: int, j: int| 0 <= i < j < r.len() implies (#[trigger] r[i]).0 != (#[trigger] r[j]).0 by {
            assert(r[j] == opts[j]);
            if i > 0 {
                assert(r[i] == opts[i]);
            }
        }
        assert forall|i: int| 0 <= i < opts.len() && (#[trigger] opts[i]).0 != code implies exists|j: int|
            0 <= j < r.len() && r[j] == opts[i] by {
            assert(r[i] == opts[i]);
        }
        assert forall|j: int| 0 <= j < r.len() && (#[trigger] r[j]).0 != code implies exists|i: int|
            0 <= i < opts.len() && opts[i] == r[j] by {
            assert(r[j] == opts[j]);
        }
    } else {
        let rest = opts.drop_first();
        assert forall|i: int, j: int| 0 <= i < j < rest.len() implies (#[trigger] rest[i]).0 != (#[trigger] rest[j]).0 by {
            assert(rest[i] == opts[i + 1]);
            assert(rest[j] == opts[j + 1]);
        }
        lemma_opt_insert_layout(rest, code, data);
        let r2 = opt_insert(rest, code, data);
        assert(r == seq![opts[0]] + r2);
        let w = choose|i: int| 0 <= i < r2.len() && r2[i] == (code, data);
        assert(r[w + 1] == (code, data));
        assert forall|i: int| 0 <= i < r.len() && (#[trigger] r[i]).0 == code implies r[i].1 == data by {
            if i > 0 {
                assert(r[i] == r2[i - 1]);
            }
        }
        assert forall|i: int, j: int| 0 <= i < j < r.len() implies (#[trigger] r[i]).0 != (#[trigger] r[j]).0 by {
            assert(r[j] == r2[j - 1]);
            if i > 0 {
                assert(r[i] == r2[i - 1]);
            } else {
                if r2[j - 1].0 != code {
                    let k = choose|k: int| 0 <= k < rest.len() && rest[k] == r2[j - 1];
                    assert(rest[k] == opts[k + 1]);
                }
            }
        }
        assert forall|i: int| 0 <= i < opts.len() && (#[trigger] opts[i]).0 != code implies exists|j: int|
            0 <= j < r.len() && r[j] == opts[i] by {
            if i == 0 {
                assert(r[0] == opts[0]);
            } else {
                assert(rest[i - 1] == opts[i]);
                let j = choose|j: int| 0 <= j < r2.len() && r2[j] == rest[i - 1];
                assert(r[j + 1] == opts[i]);
            }
        }
        assert forall|j: int| 0 <= j < r.len() && (#[trigger] r[j]).0 != code implies exists|i: int|
            0 <= i < opts.len() && opts[i] == r[j] by {
            if j == 0 {
                assert(opts[0] == r[0]);
            } else {
                assert(r[j] == r2[j - 1]);
                let i = choose|i: int| 0 <= i < rest.len() && rest[i] == r2[j - 1];
                assert(opts[i + 1] == r[j]);
            }
        }
    }
}

} // verus!
