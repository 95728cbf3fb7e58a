//! The record data of each record type: its fields, how it is read from a
//! message, and how it is written.
use vstd::prelude::*;
use crate::error::ProtoError;
use crate::name::{Name, name_at};
use crate::wire::{u16_at, u32_at, be16, be32, read_u16_at, read_u32_at, read_bytes_at};
use crate::encoder::{BinEncoder, emit_name_spec};

verus! {

/// Mail exchange: a preference (lower is preferred) and the host.
#[derive(Debug, Clone, PartialEq, Eq)]
pub struct MX {
    pub preference: u16,
    pub exchange: Name,
}

impl View for MX {
    type V = (u16, Seq<Seq<u8>>);

    open spec fn view(&self) -> (u16, Seq<Seq<u8>>) {
        (self.preference, self.exchange@)
    }
}

impl MX {
    /// A mail exchange record.
    pub fn new(preference: u16, exchange: Name) -> (mx: MX)
        ensures
            mx@ == (preference, exchange@),
    {
        MX { preference, exchange }
    }
}

/// Start of a zone of authority.
#[derive(Debug, Clone, PartialEq, Eq)]
pub struct SOA {
    pub mname: Name,
    pub rname: Name,
    pub serial: u32,
    pub refresh: i32,
    pub retry: i32,
    pub expire: i32,
    pub minimum: u32,
}

impl View for SOA {
    type V = (Seq<Seq<u8>>, Seq<Seq<u8>>, u32, i32, i32, i32, u32);

    open spec fn view(&self) -> (Seq<Seq<u8>>, Seq<Seq<u8>>, u32, i32, i32, i32, u32) {
        (self.mname@, self.rname@, self.serial, self.refresh, self.retry, self.expire, self.minimum)
    }
}

impl SOA {
    /// A start-of-authority record.
    pub fn new(
        mname: Name,
        rname: Name,
        serial: u32,
        refresh: i32,
        retry: i32,
        expire: i32,
        minimum: u32,
    ) -> (soa: SOA)
        ensures
            soa@ == (mname@, rname@, serial, refresh, retry, expire, minimum),
    {
        SOA { mname, rname, serial, refresh, retry, expire, minimum }
    }
}

/// Service location: priority, weight, port and target host.
#[derive(Debug, Clone, PartialEq, Eq)]
pub struct SRV {
    pub priority: u16,
    pub weight: u16,
    pub port: u16,
    pub target: Name,
}

impl View for SRV {
    type V = (u16, u16, u16, Seq<Seq<u8>>);

    open spec fn view(&self) -> (u16, u16, u16, Seq<Seq<u8>>) {
        (self.priority, self.weight, self.port, self.target@)
    }
}

impl SRV {
    /// A service record.
    pub fn new(priority: u16, weight: u16, port: u16, target: Name) -> (srv: SRV)
        ensures
            srv@ == (priority, weight, port, target@),
    {
        SRV { priority, weight, port, target }
    }
}

/// Certification Authority Authorization: the critical flag, the property
/// tag and the raw property value.
#[derive(Debug, Clone, PartialEq, Eq)]
pub struct CAA {
    pub issuer_critical: bool,
    pub tag: Vec<u8>,
    pub value: Vec<u8>,
}

impl View for CAA {
    type V = (bool, Seq<u8>, Seq<u8>);

    open spec fn view(&self) -> (bool, Seq<u8>, Seq<u8>) {
        (self.issuer_critical, self.tag@, self.value@)
    }
}

/// Arbitrary data, as NULL records and records of unknown types hold.
#[derive(Debug, Clone, PartialEq, Eq)]
pub struct NULL {
    pub anything: Vec<u8>,
}

impl View for NULL {
    type V = Seq<u8>;

    open spec fn view(&self) -> Seq<u8> {
        self.anything@
    }
}

/// An OpenPGP transferable public key.
#[derive(Debug, Clone, PartialEq, Eq)]
pub struct OPENPGPKEY {
    pub public_key: Vec<u8>,
}

impl View for OPENPGPKEY {
    type V = Seq<u8>;

    open spec fn view(&self) -> Seq<u8> {
        self.public_key@
    }
}

/// One EDNS option: its code and its data.
#[derive(Debug, Clone, PartialEq, Eq)]
pub struct EdnsOption {
    pub code: u16,
    pub data: Vec<u8>,
}

/// The EDNS options of an OPT record, at most one per code.
#[derive(Debug, Clone, PartialEq, Eq)]
pub struct OPT {
    pub options: Vec<EdnsOption>,
}

/// The options as plain values.
pub open spec fn options_of(v: Seq<EdnsOption>) -> Seq<(u16, Seq<u8>)> {
    Seq::new(v.len(), |i: int| (v[i].code, v[i].data@))
}

impl View for OPT {
    type V = Seq<(u16, Seq<u8>)>;

    open spec fn view(&self) -> Seq<(u16, Seq<u8>)> {
        options_of(self.options@)
    }
}

/// SSH key fingerprint: algorithm, fingerprint type and fingerprint.
#[derive(Debug, Clone, PartialEq, Eq)]
pub struct SSHFP {
    pub algorithm: u8,
    pub fingerprint_type: u8,
    pub fingerprint: Vec<u8>,
}

impl View for SSHFP {
    type V = (u8, u8, Seq<u8>);

    open spec fn view(&self) -> (u8, u8, Seq<u8>) {
        (self.algorithm, self.fingerprint_type, self.fingerprint@)
    }
}

/// TLSA certificate association: usage, selector, matching type and data.
#[derive(Debug, Clone, PartialEq, Eq)]
pub struct TLSA {
    pub cert_usage: u8,
    pub selector: u8,
    pub matching: u8,
    pub cert_data: Vec<u8>,
}

impl View for TLSA {
    type V = (u8, u8, u8, Seq<u8>);

    open spec fn view(&self) -> (u8, u8, u8, Seq<u8>) {
        (self.cert_usage, self.selector, self.matching, self.cert_data@)
    }
}

/// Text: one or more character strings.
#[derive(Debug, Clone, PartialEq, Eq)]
pub struct TXT {
    pub txt_data: Vec<Vec<u8>>,
}

/// The strings as plain values.
pub open spec fn strings_of(v: Seq<Vec<u8>>) -> Seq<Seq<u8>> {
    Seq::new(v.len(), |i: int| v[i]@)
}

impl View for TXT {
    type V = Seq<Seq<u8>>;

    open spec fn view(&self) -> Seq<Seq<u8>> {
        strings_of(self.txt_data@)
    }
}

impl TXT {
    /// A text record of the given strings.
    pub fn new(txt_data: Vec<Vec<u8>>) -> (t: TXT)
        ensures
            t@ == strings_of(txt_data@),
    {
        TXT { txt_data }
    }
}

// ---------------------------------------------------------------- reading
//
// Every reader gives the value and the index just after it, or an error and
// the index where reading stopped.  A field of fixed width (a byte, a 16-bit
// or 32-bit integer, a run of bytes of known length) is taken whole or not at
// all; fields are taken one after the other.

/// Fixed fields of width `w`, `n` of them, at `pos`: the bytes, or, when they
/// do not all fit, the index after the complete fields that do.
pub open spec fn parse_fields(buf: Seq<u8>, pos: int, n: int, w: int) -> Result<
    (Seq<u8>, int),
    (ProtoError, int),
> {
    if pos + n * w > buf.len() {
        Err(
            (
                ProtoError::InsufficientBytes,
                if pos < buf.len() {
                    pos + ((buf.len() - pos) / w) * w
                } else {
                    pos
                },
            ),
        )
    } else {
        Ok((buf.subrange(pos, pos + n * w), pos + n * w))
    }
}

/// MX: a 16-bit preference, then a name.
pub open spec fn parse_mx(buf: Seq<u8>, pos: int) -> Result<
    ((u16, Seq<Seq<u8>>), int),
    (ProtoError, int),
> {
    if pos + 2 > buf.len() {
        Err((ProtoError::InsufficientBytes, pos))
    } else {
        match name_at(buf, pos + 2) {
            Ok((n, end)) => Ok(((u16_at(buf, pos), n), end)),
            Err(e) => Err(e),
        }
    }
}

/// SRV: priority, weight and port, then the target name.
pub open spec fn parse_srv(buf: Seq<u8>, pos: int) -> Result<
    ((u16, u16, u16, Seq<Seq<u8>>), int),
    (ProtoError, int),
> {
    if pos + 2 > buf.len() {
        Err((ProtoError::InsufficientBytes, pos))
    } else if pos + 4 > buf.len() {
        Err((ProtoError::InsufficientBytes, pos + 2))
    } else if pos + 6 > buf.len() {
        Err((ProtoError::InsufficientBytes, pos + 4))
    } else {
        match name_at(buf, pos + 6) {
            Ok((n, end)) => Ok(
                ((u16_at(buf, pos), u16_at(buf, pos + 2), u16_at(buf, pos + 4), n), end),
            ),
            Err(e) => Err(e),
        }
    }
}

/// SOA: two names, then five 32-bit fields (the middle three signed).
pub open spec fn parse_soa(buf: Seq<u8>, pos: int) -> Result<
    ((Seq<Seq<u8>>, Seq<Seq<u8>>, u32, i32, i32, i32, u32), int),
    (ProtoError, int),
> {
    match name_at(buf, pos) {
        Err(e) => Err(e),
        Ok((m, e1)) => match name_at(buf, e1) {
            Err(e) => Err(e),
            Ok((r, e2)) => if e2 + 20 > buf.len() {
                Err(
                    (
                        ProtoError::InsufficientBytes,
                        if e2 + 4 > buf.len() {
                            e2
                        } else if e2 + 8 > buf.len() {
                            e2 + 4
                        } else if e2 + 12 > buf.len() {
                            e2 + 8
                        } else if e2 + 16 > buf.len() {
                            e2 + 12
                        } else {
                            e2 + 16
                        },
                    ),
                )
            } else {
                Ok(
                    (
                        (
                            m,
                            r,
                            u32_at(buf, e2),
                            u32_at(buf, e2 + 4) as i32,
                            u32_at(buf, e2 + 8) as i32,
                            u32_at(buf, e2 + 12) as i32,
                            u32_at(buf, e2 + 16),
                        ),
                        e2 + 20,
                    ),
                )
            },
        },
    }
}

/// Whether the byte is an ASCII letter or digit.
pub open spec fn is_alnum(b: u8) -> bool {
    (48 <= b <= 57) || (65 <= b <= 90) || (97 <= b <= 122)
}

/// The first byte of `s` that is not an ASCII letter or digit.
pub open spec fn first_non_alnum(s: Seq<u8>) -> Option<u8>
    decreases s.len(),
{
    if s.len() == 0 {
        None
    } else if !is_alnum(s[0]) {
        Some(s[0])
    } else {
        first_non_alnum(s.drop_first())
    }
}

/// CAA: flags (the high bit marks the issuer critical), the tag length and
/// tag (1 to 15 letters or digits), then the value, which takes up the rest
/// of the record data.
pub open spec fn parse_caa(buf: Seq<u8>, pos: int, len: int) -> Result<
    ((bool, Seq<u8>, Seq<u8>), int),
    (ProtoError, int),
> {
    if pos >= buf.len() {
        Err((ProtoError::InsufficientBytes, pos))
    } else if pos + 1 >= buf.len() {
        Err((ProtoError::InsufficientBytes, pos + 1))
    } else {
        let flags = buf[pos];
        let tl = buf[pos + 1] as int;
        if tl == 0 || tl > 15 {
            Err((ProtoError::CaaTagLength(tl as u8), pos + 2))
        } else if pos + 2 + tl > buf.len() {
            Err((ProtoError::InsufficientBytes, pos + 2))
        } else {
            let tag = buf.subrange(pos + 2, pos + 2 + tl);
            match first_non_alnum(tag) {
                Some(b) => Err((ProtoError::CaaTagCharacter(b), pos + 2 + tl)),
                None => if len < 2 + tl {
                    Err((ProtoError::RDataTooShort { len: len as usize }, pos + 2 + tl))
                } else if pos + len > buf.len() {
                    Err((ProtoError::InsufficientBytes, pos + 2 + tl))
                } else {
                    Ok(((flags >= 128, tag, buf.subrange(pos + 2 + tl, pos + len)), pos + len))
                },
            }
        }
    }
}

/// Record data that is just its bytes: `len` of them.
pub open spec fn parse_bytes(buf: Seq<u8>, pos: int, len: int) -> Result<
    (Seq<u8>, int),
    (ProtoError, int),
> {
    if pos + len > buf.len() {
        Err((ProtoError::InsufficientBytes, pos))
    } else {
        Ok((buf.subrange(pos, pos + len), pos + len))
    }
}

/// SSHFP: algorithm and fingerprint type, then the fingerprint, which takes
/// up the rest of the record data.
pub open spec fn parse_sshfp(buf: Seq<u8>, pos: int, len: int) -> Result<
    ((u8, u8, Seq<u8>), int),
    (ProtoError, int),
> {
    if len < 2 {
        Err((ProtoError::RDataTooShort { len: len as usize }, pos))
    } else if pos >= buf.len() {
        Err((ProtoError::InsufficientBytes, pos))
    } else if pos + 1 >= buf.len() {
        Err((ProtoError::InsufficientBytes, pos + 1))
    } else if pos + len > buf.len() {
        Err((ProtoError::InsufficientBytes, pos + 2))
    } else {
        Ok(((buf[pos], buf[pos + 1], buf.subrange(pos + 2, pos + len)), pos + len))
    }
}

/// TLSA: usage, selector and matching type, then the association data,
/// which takes up the rest of the record data.
pub open spec fn parse_tlsa(buf: Seq<u8>, pos: int, len: int) -> Result<
    ((u8, u8, u8, Seq<u8>), int),
    (ProtoError, int),
> {
    if len < 3 {
        Err((ProtoError::RDataTooShort { len: len as usize }, pos))
    } else if pos >= buf.len() {
        Err((ProtoError::InsufficientBytes, pos))
    } else if pos + 1 >= buf.len() {
        Err((ProtoError::InsufficientBytes, pos + 1))
    } else if pos + 2 >= buf.len() {
        Err((ProtoError::InsufficientBytes, pos + 2))
    } else if pos + len > buf.len() {
        Err((ProtoError::InsufficientBytes, pos + 3))
    } else {
        Ok(((buf[pos], buf[pos + 1], buf[pos + 2], buf.subrange(pos + 3, pos + len)), pos + len))
    }
}

/// TXT: character strings (a length byte, then that many bytes), read as
/// long as the record data is not used up; the last one may run past it.
pub open spec fn parse_txt(buf: Seq<u8>, pos: int, limit: int) -> Result<
    (Seq<Seq<u8>>, int),
    (ProtoError, int),
>
    decreases buf.len() - pos,
{
    if pos >= limit {
        Ok((seq![], pos))
    } else if pos < 0 || pos >= buf.len() {
        Err((ProtoError::InsufficientBytes, pos))
    } else {
        let n = buf[pos] as int;
        if pos + 1 + n > buf.len() {
            Err((ProtoError::InsufficientBytes, pos + 1))
        } else {
            match parse_txt(buf, pos + 1 + n, limit) {
                Ok((rest, end)) => Ok((seq![buf.subrange(pos + 1, pos + 1 + n)] + rest, end)),
                Err(e) => Err(e),
            }
        }
    }
}

/// EDNS options as they follow one another: a code, a data length, then the
/// data byte by byte, while the record data is not used up.  The flag is
/// false when the record data ends inside an option.
pub open spec fn parse_opt_items(buf: Seq<u8>, pos: int, limit: int) -> Result<
    (Seq<(u16, Seq<u8>)>, bool, int),
    (ProtoError, int),
>
    decreases buf.len() - pos,
{
    if pos >= limit {
        Ok((seq![], true, pos))
    } else if pos < 0 || pos + 2 > buf.len() {
        Err((ProtoError::InsufficientBytes, pos))
    } else {
        let code = u16_at(buf, pos);
        let p1 = pos + 2;
        if p1 >= limit {
            Ok((seq![], false, p1))
        } else if p1 + 2 > buf.len() {
            Err((ProtoError::InsufficientBytes, p1))
        } else {
            let l = u16_at(buf, p1) as int;
            let p2 = p1 + 2;
            if l == 0 {
                match parse_opt_items(buf, p2, limit) {
                    Ok((items, c, e)) => Ok((seq![(code, Seq::<u8>::empty())] + items, c, e)),
                    Err(x) => Err(x),
                }
            } else if p2 >= limit {
                Ok((seq![], false, p2))
            } else if limit - p2 < l {
                if limit > buf.len() {
                    Err((ProtoError::InsufficientBytes, buf.len() as int))
                } else {
                    Ok((seq![], false, limit))
                }
            } else if p2 + l > buf.len() {
                Err((ProtoError::InsufficientBytes, buf.len() as int))
            } else {
                match parse_opt_items(buf, p2 + l, limit) {
                    Ok((items, c, e)) => Ok((seq![(code, buf.subrange(p2, p2 + l))] + items, c, e)),
                    Err(x) => Err(x),
                }
            }
        }
    }
}

/// Sets the data of `code`: in place where the code is already present,
/// else at the end.
pub open spec fn opt_insert(opts: Seq<(u16, Seq<u8>)>, code: u16, data: Seq<u8>) -> Seq<
    (u16, Seq<u8>),
>
    decreases opts.len(),
{
    if opts.len() == 0 {
        seq![(code, data)]
    } else if opts[0].0 == code {
        seq![(code, data)] + opts.drop_first()
    } else {
        seq![opts[0]] + opt_insert(opts.drop_first(), code, data)
    }
}

/// The options after setting each item in turn, a later one replacing an
/// earlier one with the same code.
pub open spec fn opt_from_items(items: Seq<(u16, Seq<u8>)>) -> Seq<(u16, Seq<u8>)>
    decreases items.len(),
{
    if items.len() == 0 {
        seq![]
    } else {
        opt_insert(opt_from_items(items.drop_last()), items.last().0, items.last().1)
    }
}

/// OPT: the options, or none at all when the record data ends inside one.
pub open spec fn parse_opt(buf: Seq<u8>, pos: int, len: int) -> Result<
    (Seq<(u16, Seq<u8>)>, int),
    (ProtoError, int),
> {
    match parse_opt_items(buf, pos, pos + len) {
        Ok((items, complete, end)) => Ok(
            (
                if complete {
                    opt_from_items(items)
                } else {
                    seq![]
                },
                end,
            ),
        ),
        Err(e) => Err(e),
    }
}

/// Reads `n` fields of width `w` (1 or 2) at `pos`.
pub fn read_fields_at(buf: &[u8], pos: usize, n: usize, w: usize) -> (res: Result<
    (Vec<u8>, usize),
    (ProtoError, usize),
>)
    requires
        1 <= w <= 2,
        n <= 16,
    ensures
        match res {
            Ok((v, end)) => parse_fields(buf@, pos as int, n as int, w as int) == Ok::<
                _,
                (ProtoError, int),
            >((v@, end as int)),
            Err((e, stop)) => parse_fields(buf@, pos as int, n as int, w as int) == Err::<
                (Seq<u8>, int),
                (ProtoError, int),
            >((e, stop as int)),
        },
{
    let total = if w == 1 {
        n
    } else {
        n + n
    };
    assert(total == n * w) by (nonlinear_arith)
        requires
            w == 1 ==> total == n,
            w == 2 ==> total == n + n,
            1 <= w <= 2,
    ;
    if pos > buf.len() || buf.len() - pos < total {
        if pos < buf.len() {
            let rem = buf.len() - pos;
            let whole = if w == 1 {
                rem
            } else {
                rem - rem % 2
            };
            assert(whole == (rem / w) * w) by (nonlinear_arith)
                requires
                    w == 1 ==> whole == rem,
                    w == 2 ==> whole == rem - rem % 2,
                    1 <= w <= 2,
            ;
            return Err((ProtoError::InsufficientBytes, pos + whole));
        }
        return Err((ProtoError::InsufficientBytes, pos));
    }
    match read_bytes_at(buf, pos, total) {
        Ok(v) => Ok((v, pos + total)),
        Err(e) => Err((e, pos)),
    }
}

/// Reads an MX record at `pos`.
pub fn read_mx_at(buf: &[u8], pos: usize) -> (res: Result<(MX, usize), (ProtoError, usize)>)
    ensures
        match res {
            Ok((v, end)) => parse_mx(buf@, pos as int) == Ok::<_, (ProtoError, int)>(
                (v@, end as int),
            ),
            Err((e, stop)) => parse_mx(buf@, pos as int) == Err::<
                ((u16, Seq<Seq<u8>>), int),
                (ProtoError, int),
            >((e, stop as int)),
        },
{
    if pos > buf.len() || buf.len() - pos < 2 {
        return Err((ProtoError::InsufficientBytes, pos));
    }
    let preference = match read_u16_at(buf, pos) {
        Ok(v) => v,
        Err(e) => return Err((e, pos)),
    };
    match Name::read_at(buf, pos + 2) {
        Ok((exchange, end)) => Ok((MX { preference, exchange }, end)),
        Err(e) => Err(e),
    }
}

/// Reads an SRV record at `pos`.
pub fn read_srv_at(buf: &[u8], pos: usize) -> (res: Result<(SRV, usize), (ProtoError, usize)>)
    ensures
        match res {
            Ok((v, end)) => parse_srv(buf@, pos as int) == Ok::<_, (ProtoError, int)>(
                (v@, end as int),
            ),
            Err((e, stop)) => parse_srv(buf@, pos as int) == Err::<
                ((u16, u16, u16, Seq<Seq<u8>>), int),
                (ProtoError, int),
            >((e, stop as int)),
        },
{
    if pos > buf.len() || buf.len() - pos < 2 {
        return Err((ProtoError::InsufficientBytes, pos));
    }
    if buf.len() - pos < 4 {
        return Err((ProtoError::InsufficientBytes, pos + 2));
    }
    if buf.len() - pos < 6 {
        return Err((ProtoError::InsufficientBytes, pos + 4));
    }
    let priority = match read_u16_at(buf, pos) {
        Ok(v) => v,
        Err(e) => return Err((e, pos)),
    };
    let weight = match read_u16_at(buf, pos + 2) {
        Ok(v) => v,
        Err(e) => return Err((e, pos + 2)),
    };
    let port = match read_u16_at(buf, pos + 4) {
        Ok(v) => v,
        Err(e) => return Err((e, pos + 4)),
    };
    match Name::read_at(buf, pos + 6) {
        Ok((target, end)) => Ok((SRV { priority, weight, port, target }, end)),
        Err(e) => Err(e),
    }
}

/// Reads an SOA record at `pos`.
pub fn read_soa_at(buf: &[u8], pos: usize) -> (res: Result<(SOA, usize), (ProtoError, usize)>)
    ensures
        match res {
            Ok((v, end)) => parse_soa(buf@, pos as int) == Ok::<_, (ProtoError, int)>(
                (v@, end as int),
            ),
            Err((e, stop)) => parse_soa(buf@, pos as int) == Err::<
                ((Seq<Seq<u8>>, Seq<Seq<u8>>, u32, i32, i32, i32, u32), int),
                (ProtoError, int),
            >((e, stop as int)),
        },
{
    let (mname, e1) = match Name::read_at(buf, pos) {
        Ok(r) => r,
        Err(e) => return Err(e),
    };
    let (rname, e2) = match Name::read_at(buf, e1) {
        Ok(r) => r,
        Err(e) => return Err(e),
    };
    if e2 > buf.len() || buf.len() - e2 < 4 {
        return Err((ProtoError::InsufficientBytes, e2));
    }
    if buf.len() - e2 < 8 {
        return Err((ProtoError::InsufficientBytes, e2 + 4));
    }
    if buf.len() - e2 < 12 {
        return Err((ProtoError::InsufficientBytes, e2 + 8));
    }
    if buf.len() - e2 < 16 {
        return Err((ProtoError::InsufficientBytes, e2 + 12));
    }
    if buf.len() - e2 < 20 {
        return Err((ProtoError::InsufficientBytes, e2 + 16));
    }
    let serial = match read_u32_at(buf, e2) {
        Ok(v) => v,
        Err(e) => return Err((e, e2)),
    };
    let refresh = match read_u32_at(buf, e2 + 4) {
        Ok(v) => v as i32,
        Err(e) => return Err((e, e2 + 4)),
    };
    let retry = match read_u32_at(buf, e2 + 8) {
        Ok(v) => v as i32,
        Err(e) => return Err((e, e2 + 8)),
    };
    let expire = match read_u32_at(buf, e2 + 12) {
        Ok(v) => v as i32,
        Err(e) => return Err((e, e2 + 12)),
    };
    let minimum = match read_u32_at(buf, e2 + 16) {
        Ok(v) => v,
        Err(e) => return Err((e, e2 + 16)),
    };
    Ok((SOA { mname, rname, serial, refresh, retry, expire, minimum }, e2 + 20))
}

/// The first byte of `buf[start..end]` that is not an ASCII letter or digit.
fn find_non_alnum(buf: &[u8], start: usize, end: usize) -> (r: Option<u8>)
    requires
        start <= end <= buf@.len(),
    ensures
        r == first_non_alnum(buf@.subrange(start as int, end as int)),
{
    let ghost whole = buf@.subrange(start as int, end as int);
    assert(whole.skip(0) =~= whole);
    let mut i: usize = start;
    while i < end
        invariant
            start <= i <= end <= buf@.len(),
            first_non_alnum(whole) == first_non_alnum(whole.skip(i - start)),
            whole == buf@.subrange(start as int, end as int),
        decreases end - i,
    {
        let b = buf[i];
        let ghost rest = whole.skip(i - start);
        assert(rest[0] == b);
        if !((48 <= b && b <= 57) || (65 <= b && b <= 90) || (97 <= b && b <= 122)) {
            return Some(b);
        }
        assert(rest.drop_first() =~= whole.skip(i + 1 - start));
        i = i + 1;
    }
    None
}

/// Reads a CAA record of `len` bytes at `pos`.
pub fn read_caa_at(buf: &[u8], pos: usize, len: u16) -> (res: Result<
    (CAA, usize),
    (ProtoError, usize),
>)
    ensures
        match res {
            Ok((v, end)) => parse_caa(buf@, pos as int, len as int) == Ok::<_, (ProtoError, int)>(
                (v@, end as int),
            ),
            Err((e, stop)) => parse_caa(buf@, pos as int, len as int) == Err::<
                ((bool, Seq<u8>, Seq<u8>), int),
                (ProtoError, int),
            >((e, stop as int)),
        },
{
    if pos >= buf.len() {
        return Err((ProtoError::InsufficientBytes, pos));
    }
    if buf.len() - pos < 2 {
        return Err((ProtoError::InsufficientBytes, pos + 1));
    }
    let flags = buf[pos];
    let tl = buf[pos + 1];
    if tl == 0 || tl > 15 {
        return Err((ProtoError::CaaTagLength(tl), pos + 2));
    }
    let tlu = tl as usize;
    if buf.len() - pos - 2 < tlu {
        return Err((ProtoError::InsufficientBytes, pos + 2));
    }
    match find_non_alnum(buf, pos + 2, pos + 2 + tlu) {
        Some(b) => {
            return Err((ProtoError::CaaTagCharacter(b), pos + 2 + tlu));
        },
        None => {},
    }
    let lenu = len as usize;
    if lenu < 2 + tlu {
        return Err((ProtoError::RDataTooShort { len: lenu }, pos + 2 + tlu));
    }
    if buf.len() - pos < lenu {
        return Err((ProtoError::InsufficientBytes, pos + 2 + tlu));
    }
    let tag = match read_bytes_at(buf, pos + 2, tlu) {
        Ok(v) => v,
        Err(e) => return Err((e, pos + 2)),
    };
    let value = match read_bytes_at(buf, pos + 2 + tlu, lenu - 2 - tlu) {
        Ok(v) => v,
        Err(e) => return Err((e, pos + 2 + tlu)),
    };
    Ok((CAA { issuer_critical: flags >= 128, tag, value }, pos + lenu))
}

/// Reads `len` bytes of record data at `pos`.
pub fn read_plain_at(buf: &[u8], pos: usize, len: u16) -> (res: Result<
    (Vec<u8>, usize),
    (ProtoError, usize),
>)
    ensures
        match res {
            Ok((v, end)) => parse_bytes(buf@, pos as int, len as int) == Ok::<_, (ProtoError, int)>(
                (v@, end as int),
            ),
            Err((e, stop)) => parse_bytes(buf@, pos as int, len as int) == Err::<
                (Seq<u8>, int),
                (ProtoError, int),
            >((e, stop as int)),
        },
{
    let lenu = len as usize;
    if pos > buf.len() || buf.len() - pos < lenu {
        return Err((ProtoError::InsufficientBytes, pos));
    }
    match read_bytes_at(buf, pos, lenu) {
        Ok(v) => Ok((v, pos + lenu)),
        Err(e) => Err((e, pos)),
    }
}

/// Reads an SSHFP record of `len` bytes at `pos`.
pub fn read_sshfp_at(buf: &[u8], pos: usize, len: u16) -> (res: Result<
    (SSHFP, usize),
    (ProtoError, usize),
>)
    ensures
        match res {
            Ok((v, end)) => parse_sshfp(buf@, pos as int, len as int) == Ok::<_, (ProtoError, int)>(
                (v@, end as int),
            ),
            Err((e, stop)) => parse_sshfp(buf@, pos as int, len as int) == Err::<
                ((u8, u8, Seq<u8>), int),
                (ProtoError, int),
            >((e, stop as int)),
        },
{
    let lenu = len as usize;
    if lenu < 2 {
        return Err((ProtoError::RDataTooShort { len: lenu }, pos));
    }
    if pos >= buf.len() {
        return Err((ProtoError::InsufficientBytes, pos));
    }
    if buf.len() - pos < 2 {
        return Err((ProtoError::InsufficientBytes, pos + 1));
    }
    if buf.len() - pos < lenu {
        return Err((ProtoError::InsufficientBytes, pos + 2));
    }
    let fingerprint = match read_bytes_at(buf, pos + 2, lenu - 2) {
        Ok(v) => v,
        Err(e) => return Err((e, pos + 2)),
    };
    Ok((SSHFP { algorithm: buf[pos], fingerprint_type: buf[pos + 1], fingerprint }, pos + lenu))
}

/// Reads a TLSA record of `len` bytes at `pos`.
pub fn read_tlsa_at(buf: &[u8], pos: usize, len: u16) -> (res: Result<
    (TLSA, usize),
    (ProtoError, usize),
>)
    ensures
        match res {
            Ok((v, end)) => parse_tlsa(buf@, pos as int, len as int) == Ok::<_, (ProtoError, int)>(
                (v@, end as int),
            ),
            Err((e, stop)) => parse_tlsa(buf@, pos as int, len as int) == Err::<
                ((u8, u8, u8, Seq<u8>), int),
                (ProtoError, int),
            >((e, stop as int)),
        },
{
    let lenu = len as usize;
    if lenu < 3 {
        return Err((ProtoError::RDataTooShort { len: lenu }, pos));
    }
    if pos >= buf.len() {
        return Err((ProtoError::InsufficientBytes, pos));
    }
    if buf.len() - pos < 2 {
        return Err((ProtoError::InsufficientBytes, pos + 1));
    }
    if buf.len() - pos < 3 {
        return Err((ProtoError::InsufficientBytes, pos + 2));
    }
    if buf.len() - pos < lenu {
        return Err((ProtoError::InsufficientBytes, pos + 3));
    }
    let cert_data = match read_bytes_at(buf, pos + 3, lenu - 3) {
        Ok(v) => v,
        Err(e) => return Err((e, pos + 3)),
    };
    Ok(
        (
            TLSA {
                cert_usage: buf[pos],
                selector: buf[pos + 1],
                matching: buf[pos + 2],
                cert_data,
            },
            pos + lenu,
        ),
    )
}

/// Reads the character strings of a TXT record from `pos` while fewer than
/// `len` bytes have been read since `start`.
fn read_txt_strings(buf: &[u8], pos: usize, start: usize, len: usize) -> (res: Result<
    (Vec<Vec<u8>>, usize),
    (ProtoError, usize),
>)
    requires
        start <= pos,
    ensures
        match res {
            Ok((v, end)) => parse_txt(buf@, pos as int, start + len) == Ok::<_, (ProtoError, int)>(
                (strings_of(v@), end as int),
            ),
            Err((e, stop)) => parse_txt(buf@, pos as int, start + len) == Err::<
                (Seq<Seq<u8>>, int),
                (ProtoError, int),
            >((e, stop as int)),
        },
    decreases buf@.len() - pos,
{
    if pos - start >= len {
        let v: Vec<Vec<u8>> = Vec::new();
        assert(strings_of(v@) =~= Seq::<Seq<u8>>::empty());
        return Ok((v, pos));
    }
    if pos >= buf.len() {
        return Err((ProtoError::InsufficientBytes, pos));
    }
    let n = buf[pos] as usize;
    if buf.len() - pos - 1 < n {
        return Err((ProtoError::InsufficientBytes, pos + 1));
    }
    let s = match read_bytes_at(buf, pos + 1, n) {
        Ok(v) => v,
        Err(e) => return Err((e, pos + 1)),
    };
    match read_txt_strings(buf, pos + 1 + n, start, len) {
        Ok((mut rest, end)) => {
            let ghost old_rest = rest@;
            rest.insert(0, s);
            assert(strings_of(rest@) =~= seq![buf@.subrange(pos + 1, pos + 1 + n)] + strings_of(
                old_rest,
            ));
            Ok((rest, end))
        },
        Err(e) => Err(e),
    }
}

/// Reads a TXT record of `len` bytes at `pos`.
pub fn read_txt_at(buf: &[u8], pos: usize, len: u16) -> (res: Result<
    (TXT, usize),
    (ProtoError, usize),
>)
    ensures
        match res {
            Ok((v, end)) => parse_txt(buf@, pos as int, pos + len) == Ok::<_, (ProtoError, int)>(
                (v@, end as int),
            ),
            Err((e, stop)) => parse_txt(buf@, pos as int, pos + len) == Err::<
                (Seq<Seq<u8>>, int),
                (ProtoError, int),
            >((e, stop as int)),
        },
{
    match read_txt_strings(buf, pos, pos, len as usize) {
        Ok((txt_data, end)) => Ok((TXT { txt_data }, end)),
        Err(e) => Err(e),
    }
}

/// Reads the EDNS options from `pos` while fewer than `len` bytes have been
/// read since `start`.
fn read_opt_items(buf: &[u8], pos: usize, start: usize, len: usize) -> (res: Result<
    (Vec<EdnsOption>, bool, usize),
    (ProtoError, usize),
>)
    requires
        start <= pos,
    ensures
        match res {
            Ok((v, c, end)) => parse_opt_items(buf@, pos as int, start + len) == Ok::<
                _,
                (ProtoError, int),
            >((options_of(v@), c, end as int)),
            Err((e, stop)) => parse_opt_items(buf@, pos as int, start + len) == Err::<
                (Seq<(u16, Seq<u8>)>, bool, int),
                (ProtoError, int),
            >((e, stop as int)),
        },
    decreases buf@.len() - pos,
{
    if pos - start >= len {
        let v: Vec<EdnsOption> = Vec::new();
        assert(options_of(v@) =~= Seq::<(u16, Seq<u8>)>::empty());
        return Ok((v, true, pos));
    }
    if pos > buf.len() || buf.len() - pos < 2 {
        return Err((ProtoError::InsufficientBytes, pos));
    }
    let code = match read_u16_at(buf, pos) {
        Ok(c) => c,
        Err(e) => return Err((e, pos)),
    };
    let p1 = pos + 2;
    if p1 - start >= len {
        let v: Vec<EdnsOption> = Vec::new();
        assert(options_of(v@) =~= Seq::<(u16, Seq<u8>)>::empty());
        return Ok((v, false, p1));
    }
    if buf.len() - p1 < 2 {
        return Err((ProtoError::InsufficientBytes, p1));
    }
    let l = match read_u16_at(buf, p1) {
        Ok(c) => c as usize,
        Err(e) => return Err((e, p1)),
    };
    let p2 = p1 + 2;
    if l == 0 {
        match read_opt_items(buf, p2, start, len) {
            Ok((mut items, c, end)) => {
                let ghost old_items = items@;
                let data: Vec<u8> = Vec::new();
                assert(data@ =~= Seq::<u8>::empty());
                items.insert(0, EdnsOption { code, data });
                assert(options_of(items@) =~= seq![(code, Seq::<u8>::empty())] + options_of(
                    old_items,
                ));
                return Ok((items, c, end));
            },
            Err(e) => return Err(e),
        }
    }
    if p2 - start >= len {
        let v: Vec<EdnsOption> = Vec::new();
        assert(options_of(v@) =~= Seq::<(u16, Seq<u8>)>::empty());
        return Ok((v, false, p2));
    }
    let room = len - (p2 - start);
    if room < l {
        if start > buf.len() || len > buf.len() - start {
            return Err((ProtoError::InsufficientBytes, buf.len()));
        }
        let v: Vec<EdnsOption> = Vec::new();
        assert(options_of(v@) =~= Seq::<(u16, Seq<u8>)>::empty());
        return Ok((v, false, start + len));
    }
    if buf.len() - p2 < l {
        return Err((ProtoError::InsufficientBytes, buf.len()));
    }
    let data = match read_bytes_at(buf, p2, l) {
        Ok(d) => d,
        Err(e) => return Err((e, p2)),
    };
    match read_opt_items(buf, p2 + l, start, len) {
        Ok((mut items, c, end)) => {
            let ghost old_items = items@;
            let ghost d = data@;
            items.insert(0, EdnsOption { code, data });
            assert(options_of(items@) =~= seq![(code, d)] + options_of(old_items));
            Ok((items, c, end))
        },
        Err(e) => Err(e),
    }
}

/// Where `code` first occurs, setting its data there is an update in place;
/// where it does not occur, the option goes at the end.
proof fn lemma_opt_insert_at(opts: Seq<(u16, Seq<u8>)>, code: u16, data: Seq<u8>, k: int)
    requires
        0 <= k <= opts.len(),
        forall|j: int| 0 <= j < k ==> (#[trigger] opts[j]).0 != code,
        k < opts.len() ==> opts[k].0 == code,
    ensures
        k < opts.len() ==> opt_insert(opts, code, data) == opts.update(k, (code, data)),
        k == opts.len() ==> opt_insert(opts, code, data) == opts.push((code, data)),
    decreases opts.len(),
{
    if opts.len() == 0 {
        assert(seq![(code, data)] =~= opts.push((code, data)));
    } else if k == 0 {
        assert(seq![(code, data)] + opts.drop_first() =~= opts.update(0, (code, data)));
    } else {
        let rest = opts.drop_first();
        assert forall|j: int| 0 <= j < k - 1 implies (#[trigger] rest[j]).0 != code by {
            assert(rest[j] == opts[j + 1]);
        }
        lemma_opt_insert_at(rest, code, data, k - 1);
        if k < opts.len() {
            assert(seq![opts[0]] + rest.update(k - 1, (code, data)) =~= opts.update(
                k,
                (code, data),
            ));
        } else {
            assert(seq![opts[0]] + rest.push((code, data)) =~= opts.push((code, data)));
        }
    }
}

/// Sets the data of `code` among the options.
fn opt_insert_exec(opts: &mut Vec<EdnsOption>, code: u16, data: Vec<u8>)
    ensures
        options_of(final(opts)@) == opt_insert(options_of(old(opts)@), code, data@),
{
    let ghost ov = options_of(opts@);
    let mut k: usize = 0;
    while k < opts.len()
        invariant
            k <= opts@.len(),
            ov == options_of(opts@),
            forall|j: int| 0 <= j < k ==> (#[trigger] ov[j]).0 != code,
            opts@ == old(opts)@,
        decreases opts@.len() - k,
    {
        if opts[k].code == code {
            proof {
                lemma_opt_insert_at(ov, code, data@, k as int);
            }
            let ghost d = data@;
            opts.set(k, EdnsOption { code, data });
            assert(options_of(opts@) =~= ov.update(k as int, (code, d)));
            return;
        }
        k = k + 1;
    }
    proof {
        lemma_opt_insert_at(ov, code, data@, k as int);
    }
    let ghost d = data@;
    opts.push(EdnsOption { code, data });
    assert(options_of(opts@) =~= ov.push((code, d)));
}

/// Reads an OPT record of `len` bytes at `pos`.
pub fn read_opt_at(buf: &[u8], pos: usize, len: u16) -> (res: Result<
    (OPT, usize),
    (ProtoError, usize),
>)
    ensures
        match res {
            Ok((v, end)) => parse_opt(buf@, pos as int, len as int) == Ok::<_, (ProtoError, int)>(
                (v@, end as int),
            ),
            Err((e, stop)) => parse_opt(buf@, pos as int, len as int) == Err::<
                (Seq<(u16, Seq<u8>)>, int),
                (ProtoError, int),
            >((e, stop as int)),
        },
{
    let (items, complete, end) = match read_opt_items(buf, pos, pos, len as usize) {
        Ok(r) => r,
        Err(e) => return Err(e),
    };
    let mut options: Vec<EdnsOption> = Vec::new();
    if !complete {
        assert(options_of(options@) =~= Seq::<(u16, Seq<u8>)>::empty());
        return Ok((OPT { options }, end));
    }
    let ghost all = options_of(items@);
    let mut i: usize = 0;
    let n = items.len();
    assert(options_of(options@) =~= opt_from_items(all.take(0)));
    while i < n
        invariant
            n == all.len(),
            i <= n,
            items@.len() == n,
            options_of(items@) == all,
            options_of(options@) == opt_from_items(all.take(i as int)),
        decreases n - i,
    {
        let code = items[i].code;
        let data = crate::name::copy_bytes(&items[i].data);
        assert(all[i as int] == (code, data@));
        opt_insert_exec(&mut options, code, data);
        assert(all.take(i + 1).drop_last() =~= all.take(i as int));
        assert(all.take(i + 1).last() == all[i as int]);
        i = i + 1;
    }
    assert(all.take(n as int) =~= all);
    Ok((OPT { options }, end))
}

/// Reading text never stops before it started.
pub proof fn lemma_txt_end(buf: Seq<u8>, pos: int, limit: int)
    requires
        0 <= pos,
    ensures
        parse_txt(buf, pos, limit) matches Ok((_, end)) ==> pos <= end,
        parse_txt(buf, pos, limit) matches Err((_, stop)) ==> pos <= stop,
    decreases buf.len() - pos,
{
    if pos < limit && 0 <= pos < buf.len() {
        let n = buf[pos] as int;
        if pos + 1 + n <= buf.len() {
            lemma_txt_end(buf, pos + 1 + n, limit);
        }
    }
}

/// Reading options never stops before it started.
pub proof fn lemma_opt_end(buf: Seq<u8>, pos: int, limit: int)
    requires
        0 <= pos,
    ensures
        parse_opt_items(buf, pos, limit) matches Ok((_, _, end)) ==> pos <= end,
        parse_opt_items(buf, pos, limit) matches Err((_, stop)) ==> pos <= stop,
    decreases buf.len() - pos,
{
    if pos < limit && 0 <= pos && pos + 4 <= buf.len() {
        let l = u16_at(buf, pos + 2) as int;
        if l == 0 {
            lemma_opt_end(buf, pos + 4, limit);
        } else if pos + 4 + l <= buf.len() {
            lemma_opt_end(buf, pos + 4 + l, limit);
        }
    }
}

// ---------------------------------------------------------------- reading back what was written

/// The strings of a TXT record, each after its length byte.
pub open spec fn txt_bytes(strings: Seq<Seq<u8>>) -> Seq<u8>
    decreases strings.len(),
{
    if strings.len() == 0 {
        seq![]
    } else {
        seq![strings[0].len() as u8] + strings[0] + txt_bytes(strings.drop_first())
    }
}

/// Every string fits a length byte.
pub open spec fn txt_wf(strings: Seq<Seq<u8>>) -> bool {
    forall|i: int| 0 <= i < strings.len() ==> (#[trigger] strings[i]).len() <= 255
}

/// At most one option per code, and every option's data fits a 16-bit
/// length.
pub open spec fn opt_wf(opts: Seq<(u16, Seq<u8>)>) -> bool {
    &&& forall|i: int, j: int| 0 <= i < j < opts.len() ==> (#[trigger] opts[i]).0 != (#[trigger] opts[j]).0
    &&& forall|i: int| 0 <= i < opts.len() ==> (#[trigger] opts[i]).1.len() <= 65535
}

/// Text whose strings all fit is written whole, without error.
pub proof fn lemma_txt_emit(buf: Seq<u8>, strings: Seq<Seq<u8>>)
    requires
        txt_wf(strings),
    ensures
        txt_emit(buf, strings) == (buf + txt_bytes(strings), None::<ProtoError>),
    decreases strings.len(),
{
    if strings.len() == 0 {
        assert(buf + txt_bytes(strings) =~= buf);
    } else {
        let rest = strings.drop_first();
        assert(strings[0].len() <= 255);
        assert(txt_wf(rest)) by {
            assert forall|i: int| 0 <= i < rest.len() implies (#[trigger] rest[i]).len() <= 255 by {
                assert(rest[i] == strings[i + 1]);
            }
        }
        lemma_txt_emit(buf + seq![strings[0].len() as u8] + strings[0], rest);
        assert(buf + seq![strings[0].len() as u8] + strings[0] + txt_bytes(rest) =~= buf
            + txt_bytes(strings));
    }
}

/// Written text reads back as the same strings, ending where it ends.
pub proof fn lemma_txt_roundtrip(buf: Seq<u8>, p: int, strings: Seq<Seq<u8>>)
    requires
        txt_wf(strings),
        0 <= p,
        p + txt_bytes(strings).len() <= buf.len(),
        buf.subrange(p, p + txt_bytes(strings).len()) == txt_bytes(strings),
    ensures
        parse_txt(buf, p, p + txt_bytes(strings).len()) == Ok::<
            (Seq<Seq<u8>>, int),
            (ProtoError, int),
        >(
            (strings, p + txt_bytes(strings).len()),
        ),
    decreases strings.len(),
{
    let limit = p + txt_bytes(strings).len();
    if strings.len() == 0 {
        assert(strings =~= Seq::<Seq<u8>>::empty());
    } else {
        let s0 = strings[0];
        let rest = strings.drop_first();
        assert(s0.len() <= 255);
        assert(txt_wf(rest)) by {
            assert forall|i: int| 0 <= i < rest.len() implies (#[trigger] rest[i]).len() <= 255 by {
                assert(rest[i] == strings[i + 1]);
            }
        }
        let hd = seq![s0.len() as u8] + s0;
        assert(txt_bytes(strings) == hd + txt_bytes(rest));
        crate::wire::lemma_subrange_split(buf, p, hd, txt_bytes(rest));
        crate::wire::lemma_subrange_split(buf, p, seq![s0.len() as u8], s0);
        assert(buf[p] == buf.subrange(p, p + 1)[0]);
        assert(buf[p] == s0.len() as u8);
        lemma_txt_roundtrip(buf, p + 1 + s0.len(), rest);
        assert(seq![s0] + rest =~= strings);
    }
}

/// The length of the written options.
pub proof fn lemma_opt_bytes_len(opts: Seq<(u16, Seq<u8>)>)
    ensures
        opt_bytes(opts).len() >= 4 * opts.len(),
    decreases opts.len(),
{
    if opts.len() > 0 {
        lemma_opt_bytes_len(opts.drop_first());
        let hd = be16(opts[0].0) + be16((opts[0].1.len() % 65536) as u16) + opts[0].1;
        assert(opt_bytes(opts) == hd + opt_bytes(opts.drop_first()));
        assert(hd.len() == 4 + opts[0].1.len());
    }
}

/// Written options read back as the same options, completely, ending where
/// they end.
pub proof fn lemma_opt_items_roundtrip(buf: Seq<u8>, p: int, opts: Seq<(u16, Seq<u8>)>)
    requires
        forall|i: int| 0 <= i < opts.len() ==> (#[trigger] opts[i]).1.len() <= 65535,
        0 <= p,
        p + opt_bytes(opts).len() <= buf.len(),
        buf.subrange(p, p + opt_bytes(opts).len()) == opt_bytes(opts),
    ensures
        parse_opt_items(buf, p, p + opt_bytes(opts).len()) == Ok::<
            (Seq<(u16, Seq<u8>)>, bool, int),
            (ProtoError, int),
        >((opts, true, p + opt_bytes(opts).len())),
    decreases opts.len(),
{
    let limit = p + opt_bytes(opts).len();
    if opts.len() == 0 {
        assert(opts =~= Seq::<(u16, Seq<u8>)>::empty());
    } else {
        let (code, data) = opts[0];
        let rest = opts.drop_first();
        assert(forall|i: int| 0 <= i < rest.len() ==> (#[trigger] rest[i]).1.len() <= 65535) by {
            assert forall|i: int| 0 <= i < rest.len() implies (#[trigger] rest[i]).1.len()
                <= 65535 by {
                assert(rest[i] == opts[i + 1]);
            }
        }
        assert(data.len() <= 65535);
        let l16 = (data.len() % 65536) as u16;
        assert(l16 == data.len());
        lemma_opt_bytes_len(rest);
        let ob = opt_bytes(opts);
        assert(ob == be16(code) + be16(l16) + data + opt_bytes(rest));
        crate::wire::lemma_subrange_split(buf, p, be16(code) + be16(l16) + data, opt_bytes(rest));
        crate::wire::lemma_subrange_split(buf, p, be16(code) + be16(l16), data);
        crate::wire::lemma_subrange_split(buf, p, be16(code), be16(l16));
        crate::wire::lemma_u16_at(buf, p, code);
        crate::wire::lemma_u16_at(buf, p + 2, l16);
        lemma_opt_items_roundtrip(buf, p + 4 + data.len(), rest);
        if data.len() == 0 {
            assert(data =~= Seq::<u8>::empty());
        }
        assert(seq![(code, data)] + rest =~= opts);
    }
}

/// Options with distinct codes are their own map.
pub proof fn lemma_opt_from_distinct(opts: Seq<(u16, Seq<u8>)>)
    requires
        forall|i: int, j: int| 0 <= i < j < opts.len() ==> (#[trigger] opts[i]).0 != (#[trigger] opts[j]).0,
    ensures
        opt_from_items(opts) == opts,
    decreases opts.len(),
{
    if opts.len() > 0 {
        let init = opts.drop_last();
        assert forall|i: int, j: int| 0 <= i < j < init.len() implies (#[trigger] init[i]).0
            != (#[trigger] init[j]).0 by {
            assert(init[i] == opts[i] && init[j] == opts[j]);
        }
        lemma_opt_from_distinct(init);
        let last = opts.last();
        assert forall|j: int| 0 <= j < init.len() implies (#[trigger] init[j]).0 != last.0 by {
            assert(init[j] == opts[j]);
            assert(opts[j].0 != opts[opts.len() - 1].0);
        }
        lemma_opt_insert_at(init, last.0, last.1, init.len() as int);
        assert(init.push((last.0, last.1)) =~= opts);
    }
}

// ---------------------------------------------------------------- writing

/// MX: the preference, then the exchange name.
pub open spec fn emit_mx_spec(
    buf: Seq<u8>,
    ptrs: Seq<(usize, Seq<u8>)>,
    v: (u16, Seq<Seq<u8>>),
    canonical: bool,
) -> (Seq<u8>, Seq<(usize, Seq<u8>)>) {
    emit_name_spec(buf + be16(v.0), ptrs, v.1, canonical)
}

/// SRV: priority, weight, port, then the target name.
pub open spec fn emit_srv_spec(
    buf: Seq<u8>,
    ptrs: Seq<(usize, Seq<u8>)>,
    v: (u16, u16, u16, Seq<Seq<u8>>),
    canonical: bool,
) -> (Seq<u8>, Seq<(usize, Seq<u8>)>) {
    emit_name_spec(buf + be16(v.0) + be16(v.1) + be16(v.2), ptrs, v.3, canonical)
}

/// SOA: the two names, then the five 32-bit fields.
pub open spec fn emit_soa_spec(
    buf: Seq<u8>,
    ptrs: Seq<(usize, Seq<u8>)>,
    v: (Seq<Seq<u8>>, Seq<Seq<u8>>, u32, i32, i32, i32, u32),
    canonical: bool,
) -> (Seq<u8>, Seq<(usize, Seq<u8>)>) {
    let (b1, p1) = emit_name_spec(buf, ptrs, v.0, canonical);
    let (b2, p2) = emit_name_spec(b1, p1, v.1, canonical);
    (
        b2 + be32(v.2) + be32(v.3 as u32) + be32(v.4 as u32) + be32(v.5 as u32) + be32(v.6),
        p2,
    )
}

/// CAA: the flags byte (high bit for the critical flag), the tag length
/// byte, the tag and the value.
pub open spec fn caa_bytes(v: (bool, Seq<u8>, Seq<u8>)) -> Seq<u8> {
    seq![
        if v.0 {
            128u8
        } else {
            0u8
        },
        (v.1.len() % 256) as u8,
    ] + v.1 + v.2
}

/// SSHFP: algorithm, fingerprint type, fingerprint.
pub open spec fn sshfp_bytes(v: (u8, u8, Seq<u8>)) -> Seq<u8> {
    seq![v.0, v.1] + v.2
}

/// TLSA: usage, selector, matching type, association data.
pub open spec fn tlsa_bytes(v: (u8, u8, u8, Seq<u8>)) -> Seq<u8> {
    seq![v.0, v.1, v.2] + v.3
}

/// OPT: each option as its code, its data length and its data.
pub open spec fn opt_bytes(opts: Seq<(u16, Seq<u8>)>) -> Seq<u8>
    decreases opts.len(),
{
    if opts.len() == 0 {
        seq![]
    } else {
        be16(opts[0].0) + be16((opts[0].1.len() % 65536) as u16) + opts[0].1 + opt_bytes(
            opts.drop_first(),
        )
    }
}

/// TXT: each string after its length byte, up to the first string longer
/// than 255 bytes, which stops the writing with an error.
pub open spec fn txt_emit(buf: Seq<u8>, strings: Seq<Seq<u8>>) -> (Seq<u8>, Option<ProtoError>)
    decreases strings.len(),
{
    if strings.len() == 0 {
        (buf, None)
    } else if strings[0].len() > 255 {
        (buf, Some(ProtoError::CharacterDataTooLong { max: 255, len: strings[0].len() as usize }))
    } else {
        txt_emit(buf + seq![strings[0].len() as u8] + strings[0], strings.drop_first())
    }
}

impl MX {
    /// Writes the record data.
    pub fn emit(&self, encoder: &mut BinEncoder)
        ensures
            (final(encoder).bytes(), final(encoder).pointers()) == emit_mx_spec(
                old(encoder).bytes(),
                old(encoder).pointers(),
                self@,
                old(encoder).canonical(),
            ),
            final(encoder).canonical() == old(encoder).canonical(),
            old(encoder).wf() ==> final(encoder).wf(),
    {
        encoder.emit_u16(self.preference);
        encoder.emit_name(&self.exchange);
    }
}

impl SRV {
    /// Writes the record data.
    pub fn emit(&self, encoder: &mut BinEncoder)
        ensures
            (final(encoder).bytes(), final(encoder).pointers()) == emit_srv_spec(
                old(encoder).bytes(),
                old(encoder).pointers(),
                self@,
                old(encoder).canonical(),
            ),
            final(encoder).canonical() == old(encoder).canonical(),
            old(encoder).wf() ==> final(encoder).wf(),
    {
        encoder.emit_u16(self.priority);
        encoder.emit_u16(self.weight);
        encoder.emit_u16(self.port);
        encoder.emit_name(&self.target);
    }
}

impl SOA {
    /// Writes the record data.
    pub fn emit(&self, encoder: &mut BinEncoder)
        ensures
            (final(encoder).bytes(), final(encoder).pointers()) == emit_soa_spec(
                old(encoder).bytes(),
                old(encoder).pointers(),
                self@,
                old(encoder).canonical(),
            ),
            final(encoder).canonical() == old(encoder).canonical(),
            old(encoder).wf() ==> final(encoder).wf(),
    {
        encoder.emit_name(&self.mname);
        encoder.emit_name(&self.rname);
        encoder.emit_u32(self.serial);
        encoder.emit_u32(self.refresh as u32);
        encoder.emit_u32(self.retry as u32);
        encoder.emit_u32(self.expire as u32);
        encoder.emit_u32(self.minimum);
    }
}

impl CAA {
    /// Writes the record data.
    pub fn emit(&self, encoder: &mut BinEncoder)
        ensures
            final(encoder).bytes() == old(encoder).bytes() + caa_bytes(self@),
            final(encoder).pointers() == old(encoder).pointers(),
            final(encoder).canonical() == old(encoder).canonical(),
            old(encoder).wf() ==> final(encoder).wf(),
    {
        encoder.emit(
            if self.issuer_critical {
                128u8
            } else {
                0u8
            },
        );
        encoder.emit((self.tag.len() % 256) as u8);
        encoder.emit_vec(self.tag.as_slice());
        encoder.emit_vec(self.value.as_slice());
        assert(encoder.bytes() =~= old(encoder).bytes() + caa_bytes(self@));
    }
}

impl NULL {
    /// Writes the record data.
    pub fn emit(&self, encoder: &mut BinEncoder)
        ensures
            final(encoder).bytes() == old(encoder).bytes() + self@,
            final(encoder).pointers() == old(encoder).pointers(),
            final(encoder).canonical() == old(encoder).canonical(),
            old(encoder).wf() ==> final(encoder).wf(),
    {
        encoder.emit_vec(self.anything.as_slice());
    }
}

impl OPENPGPKEY {
    /// Writes the record data.
    pub fn emit(&self, encoder: &mut BinEncoder)
        ensures
            final(encoder).bytes() == old(encoder).bytes() + self@,
            final(encoder).pointers() == old(encoder).pointers(),
            final(encoder).canonical() == old(encoder).canonical(),
            old(encoder).wf() ==> final(encoder).wf(),
    {
        encoder.emit_vec(self.public_key.as_slice());
    }
}

impl SSHFP {
    /// Writes the record data.
    pub fn emit(&self, encoder: &mut BinEncoder)
        ensures
            final(encoder).bytes() == old(encoder).bytes() + sshfp_bytes(self@),
            final(encoder).pointers() == old(encoder).pointers(),
            final(encoder).canonical() == old(encoder).canonical(),
            old(encoder).wf() ==> final(encoder).wf(),
    {
        encoder.emit(self.algorithm);
        encoder.emit(self.fingerprint_type);
        encoder.emit_vec(self.fingerprint.as_slice());
        assert(encoder.bytes() =~= old(encoder).bytes() + sshfp_bytes(self@));
    }
}

impl TLSA {
    /// Writes the record data.
    pub fn emit(&self, encoder: &mut BinEncoder)
        ensures
            final(encoder).bytes() == old(encoder).bytes() + tlsa_bytes(self@),
            final(encoder).pointers() == old(encoder).pointers(),
            final(encoder).canonical() == old(encoder).canonical(),
            old(encoder).wf() ==> final(encoder).wf(),
    {
        encoder.emit(self.cert_usage);
        encoder.emit(self.selector);
        encoder.emit(self.matching);
        encoder.emit_vec(self.cert_data.as_slice());
        assert(encoder.bytes() =~= old(encoder).bytes() + tlsa_bytes(self@));
    }
}

impl OPT {
    /// Writes the record data.
    pub fn emit(&self, encoder: &mut BinEncoder)
        ensures
            final(encoder).bytes() == old(encoder).bytes() + opt_bytes(self@),
            final(encoder).pointers() == old(encoder).pointers(),
            final(encoder).canonical() == old(encoder).canonical(),
            old(encoder).wf() ==> final(encoder).wf(),
    {
        let ghost all = self@;
        let ghost start = encoder.bytes();
        let mut i: usize = 0;
        assert(all.skip(0) =~= all);
        while i < self.options.len()
            invariant
                i <= self.options@.len(),
                all == options_of(self.options@),
                start + opt_bytes(all) == encoder.bytes() + opt_bytes(all.skip(i as int)),
                encoder.pointers() == old(encoder).pointers(),
                encoder.canonical() == old(encoder).canonical(),
                old(encoder).wf() ==> encoder.wf(),
                start == old(encoder).bytes(),
            decreases self.options@.len() - i,
        {
            let o = &self.options[i];
            let ghost rest = all.skip(i as int);
            assert(rest[0] == (o.code, o.data@));
            assert(rest.drop_first() =~= all.skip(i + 1));
            let ghost before = encoder.bytes();
            encoder.emit_u16(o.code);
            encoder.emit_u16((o.data.len() % 65536) as u16);
            encoder.emit_vec(o.data.as_slice());
            assert(opt_bytes(rest) == be16(o.code) + be16((o.data@.len() % 65536) as u16) + o.data@
                + opt_bytes(all.skip(i + 1)));
            assert(encoder.bytes() + opt_bytes(all.skip(i + 1)) =~= before + opt_bytes(rest));
            i = i + 1;
        }
        assert(all.skip(i as int) =~= Seq::<(u16, Seq<u8>)>::empty());
        assert(opt_bytes(all.skip(i as int)) =~= Seq::<u8>::empty());
        assert(encoder.bytes() =~= start + opt_bytes(all));
    }
}

impl TXT {
    /// Writes the record data: each string after its length byte.  A string
    /// longer than 255 bytes stops the writing with an error, after the
    /// strings before it.
    pub fn emit(&self, encoder: &mut BinEncoder) -> (res: Result<(), ProtoError>)
        ensures
            final(encoder).bytes() == txt_emit(old(encoder).bytes(), self@).0,
            res == (match txt_emit(old(encoder).bytes(), self@).1 {
                Some(e) => Err::<(), ProtoError>(e),
                None => Ok(()),
            }),
            final(encoder).pointers() == old(encoder).pointers(),
            final(encoder).canonical() == old(encoder).canonical(),
            old(encoder).wf() ==> final(encoder).wf(),
    {
        let ghost all = self@;
        let ghost target = txt_emit(encoder.bytes(), all);
        let mut i: usize = 0;
        assert(all.skip(0) =~= all);
        while i < self.txt_data.len()
            invariant
                i <= self.txt_data@.len(),
                all == strings_of(self.txt_data@),
                txt_emit(encoder.bytes(), all.skip(i as int)) == target,
                encoder.pointers() == old(encoder).pointers(),
                encoder.canonical() == old(encoder).canonical(),
                old(encoder).wf() ==> encoder.wf(),
                target == txt_emit(old(encoder).bytes(), all),
            decreases self.txt_data@.len() - i,
        {
            let s = &self.txt_data[i];
            let ghost rest = all.skip(i as int);
            assert(rest[0] == s@);
            assert(rest.drop_first() =~= all.skip(i + 1));
            let ghost before = encoder.bytes();
            match encoder.emit_character_data(s.as_slice()) {
                Ok(()) => {},
                Err(e) => {
                    return Err(e);
                },
            }
            assert(encoder.bytes() == before + seq![s@.len() as u8] + s@);
            i = i + 1;
        }
        assert(all.skip(i as int) =~= Seq::<Seq<u8>>::empty());
        Ok(())
    }
}

} // verus!
