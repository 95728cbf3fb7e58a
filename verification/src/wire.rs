//! Big-endian integers and byte runs on the wire, and the decoder cursor.
use vstd::prelude::*;
use crate::error::ProtoError;

verus! {

/// The 16-bit big-endian integer stored at `pos`.
pub open spec fn u16_at(buf: Seq<u8>, pos: int) -> u16 {
    ((buf[pos] as int) * 256 + (buf[pos + 1] as int)) as u16
}

/// The 32-bit big-endian integer stored at `pos`.
pub open spec fn u32_at(buf: Seq<u8>, pos: int) -> u32 {
    ((buf[pos] as int) * 16777216 + (buf[pos + 1] as int) * 65536 + (buf[pos + 2] as int) * 256
        + (buf[pos + 3] as int)) as u32
}

/// The two bytes that encode `v` in network order.
pub open spec fn be16(v: u16) -> Seq<u8> {
    seq![(v / 256) as u8, (v % 256) as u8]
}

/// The four bytes that encode `v` in network order.
pub open spec fn be32(v: u32) -> Seq<u8> {
    seq![(v / 16777216) as u8, ((v / 65536) % 256) as u8, ((v / 256) % 256) as u8, (v % 256) as u8]
}

/// Reading back the two bytes of `be16(v)` gives `v`.
pub proof fn lemma_be16_roundtrip(v: u16)
    ensures
        u16_at(be16(v), 0) == v,
{
    let s = be16(v);
    assert(s[0] as int == v / 256);
    assert(s[1] as int == v % 256);
}

/// Reading back the four bytes of `be32(v)` gives `v`.
pub proof fn lemma_be32_roundtrip(v: u32)
    ensures
        u32_at(be32(v), 0) == v,
{
    let s = be32(v);
    assert(s[0] as int == v / 16777216);
    assert(s[1] as int == (v / 65536) % 256);
    assert(s[2] as int == (v / 256) % 256);
    assert(s[3] as int == v % 256);
    assert((v / 16777216) * 16777216 + ((v / 65536) % 256) * 65536 + ((v / 256) % 256) * 256 + v
        % 256 == v) by (nonlinear_arith);
}

/// A signed 32-bit field survives its trip through the unsigned wire form.
pub proof fn lemma_i32_as_u32(v: i32)
    ensures
        ((v as u32) as i32) == v,
{
    assert(((v as u32) as i32) == v) by (bit_vector);
}

/// The byte at `pos`, if there is one.
pub fn read_u8_at(buf: &[u8], pos: usize) -> (res: Result<u8, ProtoError>)
    ensures
        pos < buf@.len() ==> res == Ok::<u8, ProtoError>(buf@[pos as int]),
        pos >= buf@.len() ==> res == Err::<u8, ProtoError>(ProtoError::InsufficientBytes),
{
    if pos < buf.len() {
        Ok(buf[pos])
    } else {
        Err(ProtoError::InsufficientBytes)
    }
}

/// A run of bytes that holds `a` then `b` holds `a`, and `b` after it.
pub proof fn lemma_subrange_split(buf: Seq<u8>, p: int, a: Seq<u8>, b: Seq<u8>)
    requires
        0 <= p,
        p + a.len() + b.len() <= buf.len(),
        buf.subrange(p, p + a.len() + b.len()) == a + b,
    ensures
        buf.subrange(p, p + a.len()) == a,
        buf.subrange(p + a.len(), p + a.len() + b.len()) == b,
{
    assert forall|k: int| 0 <= k < a.len() implies buf.subrange(p, p + a.len())[k] == a[k] by {
        assert(buf.subrange(p, p + a.len() + b.len())[k] == (a + b)[k]);
    }
    assert forall|k: int| 0 <= k < b.len() implies buf.subrange(
        p + a.len(),
        p + a.len() + b.len(),
    )[k] == b[k] by {
        assert(buf.subrange(p, p + a.len() + b.len())[a.len() + k] == (a + b)[a.len() + k]);
        assert((a + b)[a.len() + k] == b[k]);
        assert(buf.subrange(p, p + a.len() + b.len())[a.len() + k] == buf[p + a.len() + k]);
    }
    assert(buf.subrange(p, p + a.len()) =~= a);
    assert(buf.subrange(p + a.len(), p + a.len() + b.len()) =~= b);
}

/// Bytes that hold `be16(v)` read as `v`.
pub proof fn lemma_u16_at(buf: Seq<u8>, p: int, v: u16)
    requires
        0 <= p,
        p + 2 <= buf.len(),
        buf.subrange(p, p + 2) == be16(v),
    ensures
        u16_at(buf, p) == v,
{
    lemma_be16_roundtrip(v);
    assert(buf[p] == buf.subrange(p, p + 2)[0]);
    assert(buf[p + 1] == buf.subrange(p, p + 2)[1]);
}

/// Bytes that hold `be32(v)` read as `v`.
pub proof fn lemma_u32_at(buf: Seq<u8>, p: int, v: u32)
    requires
        0 <= p,
        p + 4 <= buf.len(),
        buf.subrange(p, p + 4) == be32(v),
    ensures
        u32_at(buf, p) == v,
{
    lemma_be32_roundtrip(v);
    assert(buf[p] == buf.subrange(p, p + 4)[0]);
    assert(buf[p + 1] == buf.subrange(p, p + 4)[1]);
    assert(buf[p + 2] == buf.subrange(p, p + 4)[2]);
    assert(buf[p + 3] == buf.subrange(p, p + 4)[3]);
}

/// The 16-bit big-endian integer at `pos`, if two bytes are there.
pub fn read_u16_at(buf: &[u8], pos: usize) -> (res: Result<u16, ProtoError>)
    ensures
        pos + 2 <= buf@.len() ==> res == Ok::<u16, ProtoError>(u16_at(buf@, pos as int)),
        pos + 2 > buf@.len() ==> res == Err::<u16, ProtoError>(ProtoError::InsufficientBytes),
{
    if pos < buf.len() && buf.len() - pos >= 2 {
        let hi = buf[pos] as u16;
        let lo = buf[pos + 1] as u16;
        Ok(hi * 256 + lo)
    } else {
        Err(ProtoError::InsufficientBytes)
    }
}

/// The 32-bit big-endian integer at `pos`, if four bytes are there.
pub fn read_u32_at(buf: &[u8], pos: usize) -> (res: Result<u32, ProtoError>)
    ensures
        pos + 4 <= buf@.len() ==> res == Ok::<u32, ProtoError>(u32_at(buf@, pos as int)),
        pos + 4 > buf@.len() ==> res == Err::<u32, ProtoError>(ProtoError::InsufficientBytes),
{
    if pos < buf.len() && buf.len() - pos >= 4 {
        let b0 = buf[pos] as u32;
        let b1 = buf[pos + 1] as u32;
        let b2 = buf[pos + 2] as u32;
        let b3 = buf[pos + 3] as u32;
        Ok(b0 * 16777216 + b1 * 65536 + b2 * 256 + b3)
    } else {
        Err(ProtoError::InsufficientBytes)
    }
}

/// A copy of the `len` bytes that start at `pos`.
pub fn read_bytes_at(buf: &[u8], pos: usize, len: usize) -> (res: Result<Vec<u8>, ProtoError>)
    ensures
        pos + len <= buf@.len() ==> (res matches Ok(v) && v@ == buf@.subrange(
            pos as int,
            pos + len,
        )),
        pos + len > buf@.len() ==> res == Err::<Vec<u8>, ProtoError>(
            ProtoError::InsufficientBytes,
        ),
{
    if pos > buf.len() || buf.len() - pos < len {
        return Err(ProtoError::InsufficientBytes);
    }
    let mut out: Vec<u8> = Vec::new();
    let mut i: usize = 0;
    while i < len
        invariant
            i <= len,
            pos + len <= buf.len(),
            out@ == buf@.subrange(pos as int, pos + i),
        decreases len - i,
    {
        out.push(buf[pos + i]);
        i = i + 1;
        assert(out@ =~= buf@.subrange(pos as int, pos + i));
    }
    Ok(out)
}

/// The lexicographic comparison of two byte strings, a proper prefix first:
/// -1, 0 or 1.
pub open spec fn lex_sign(a: Seq<u8>, b: Seq<u8>) -> int
    decreases a.len(),
{
    if a.len() == 0 {
        if b.len() == 0 {
            0
        } else {
            -1
        }
    } else if b.len() == 0 {
        1
    } else if a[0] < b[0] {
        -1
    } else if a[0] > b[0] {
        1
    } else {
        lex_sign(a.drop_first(), b.drop_first())
    }
}

/// The comparison is -1, 0 or 1, and 0 exactly for equal strings.
pub proof fn lemma_sign_equal(a: Seq<u8>, b: Seq<u8>)
    ensures
        -1 <= lex_sign(a, b) <= 1,
        (lex_sign(a, b) == 0) <==> (a == b),
    decreases a.len(),
{
    if a.len() > 0 && b.len() > 0 && a[0] == b[0] {
        lemma_sign_equal(a.drop_first(), b.drop_first());
        assert(a =~= seq![a[0]] + a.drop_first());
        assert(b =~= seq![b[0]] + b.drop_first());
    }
    if a.len() == 0 && b.len() == 0 {
        assert(a =~= b);
    }
}

/// Swapping the strings negates the comparison.
pub proof fn lemma_sign_flip(a: Seq<u8>, b: Seq<u8>)
    ensures
        lex_sign(b, a) == -lex_sign(a, b),
    decreases a.len(),
{
    if a.len() > 0 && b.len() > 0 && a[0] == b[0] {
        lemma_sign_flip(a.drop_first(), b.drop_first());
    }
}

/// Before-before is before.
pub proof fn lemma_sign_trans(a: Seq<u8>, b: Seq<u8>, c: Seq<u8>)
    requires
        lex_sign(a, b) < 0,
        lex_sign(b, c) < 0,
    ensures
        lex_sign(a, c) < 0,
    decreases a.len(),
{
    if a.len() > 0 && b.len() > 0 && c.len() > 0 && a[0] == b[0] && b[0] == c[0] {
        lemma_sign_trans(a.drop_first(), b.drop_first(), c.drop_first());
    }
}

/// A proper prefix comes first.
pub proof fn lemma_sign_prefix(a: Seq<u8>, b: Seq<u8>)
    requires
        b.len() > 0,
    ensures
        lex_sign(a, a + b) == -1,
    decreases a.len(),
{
    if a.len() > 0 {
        assert((a + b).drop_first() =~= a.drop_first() + b);
        assert((a + b)[0] == a[0]);
        lemma_sign_prefix(a.drop_first(), b);
    }
}

/// Byte strings are ordered by the first index at which they differ, the
/// octets there compared as unsigned values.
pub proof fn lemma_sign_first_difference(a: Seq<u8>, b: Seq<u8>, k: int)
    requires
        0 <= k < a.len(),
        k < b.len(),
        forall|j: int| 0 <= j < k ==> a[j] == b[j],
        a[k] != b[k],
    ensures
        lex_sign(a, b) == (if (a[k] as int) < (b[k] as int) {
            -1int
        } else {
            1int
        }),
    decreases k,
{
    if k > 0 {
        let (a1, b1) = (a.drop_first(), b.drop_first());
        assert(a[0] == b[0]);
        assert forall|j: int| 0 <= j < k - 1 implies a1[j] == b1[j] by {
            assert(a1[j] == a[j + 1]);
            assert(b1[j] == b[j + 1]);
        }
        lemma_sign_first_difference(a1, b1, k - 1);
    }
}

/// Compares two byte strings lexicographically.
pub fn compare_bytes(a: &Vec<u8>, b: &Vec<u8>) -> (r: i8)
    ensures
        r == lex_sign(a@, b@),
{
    let mut i: usize = 0;
    assert(a@.skip(0) =~= a@);
    assert(b@.skip(0) =~= b@);
    while i < a.len() && i < b.len()
        invariant
            i <= a@.len(),
            i <= b@.len(),
            lex_sign(a@, b@) == lex_sign(a@.skip(i as int), b@.skip(i as int)),
        decreases a@.len() - i,
    {
        let x = a[i];
        let y = b[i];
        assert(a@.skip(i as int)[0] == x);
        assert(b@.skip(i as int)[0] == y);
        if x < y {
            return -1;
        }
        if x > y {
            return 1;
        }
        assert(a@.skip(i as int).drop_first() =~= a@.skip(i + 1));
        assert(b@.skip(i as int).drop_first() =~= b@.skip(i + 1));
        i = i + 1;
    }
    if i < a.len() {
        1
    } else if i < b.len() {
        -1
    } else {
        0
    }
}

/// A reading cursor over a whole message: the bytes and the index of the
/// next byte to read.
pub struct BinDecoder<'a> {
    buffer: &'a [u8],
    index: usize,
}

impl<'a> BinDecoder<'a> {
    /// The bytes of the message.
    pub closed spec fn bytes(&self) -> Seq<u8> {
        self.buffer@
    }

    /// The index of the next byte to read.
    pub closed spec fn pos(&self) -> nat {
        self.index as nat
    }

    /// A cursor at the start of `buffer`.
    pub fn new(buffer: &'a [u8]) -> (d: BinDecoder<'a>)
        ensures
            d.bytes() == buffer@,
            d.pos() == 0,
    {
        BinDecoder { buffer, index: 0 }
    }

    /// A cursor over the same bytes at `index`.
    pub fn clone_at(&self, index: usize) -> (d: BinDecoder<'a>)
        ensures
            d.bytes() == self.bytes(),
            d.pos() == index,
    {
        BinDecoder { buffer: self.buffer, index }
    }

    /// The index of the next byte to read.
    pub fn index(&self) -> (i: usize)
        ensures
            i == self.pos(),
    {
        self.index
    }

    /// The bytes of the message.
    pub fn buffer(&self) -> (b: &'a [u8])
        ensures
            b@ == self.bytes(),
    {
        self.buffer
    }

    /// Moves the cursor to `index`.
    pub fn set_index(&mut self, index: usize)
        ensures
            final(self).bytes() == old(self).bytes(),
            final(self).pos() == index,
    {
        self.index = index;
    }
}

} // verus!
