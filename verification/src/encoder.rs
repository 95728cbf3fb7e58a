//! The writing side: a growing buffer that remembers where names were
//! written, so that later names can point back at them.
use vstd::prelude::*;
use crate::error::ProtoError;
use crate::name::{
    Name,
    decode_name,
    labels_of,
    label_wf,
    labels_wf,
    plain_encoding,
    lemma_plain_split,
    lemma_plain_len,
    lemma_plain_injective,
    lemma_decode_plain,
    lemma_decode_extend,
    lemma_decode_end,
    lemma_decode_pointer,
    lower_labels,
    lower_label,
    lemma_lower_labels_wf,
    append_lower,
};
use crate::wire::{be16, be32};

verus! {

/// The first remembered name whose wire form (without the final zero byte)
/// is `bytes`, given by the index where it was written.
pub open spec fn find_pointer(ptrs: Seq<(usize, Seq<u8>)>, bytes: Seq<u8>) -> Option<usize>
    decreases ptrs.len(),
{
    if ptrs.len() == 0 {
        None
    } else if ptrs[0].1 == bytes {
        Some(ptrs[0].0)
    } else {
        find_pointer(ptrs.drop_first(), bytes)
    }
}

/// The index where label `i` of `ls` is written when the name starts at `base`.
pub open spec fn label_offset(base: int, ls: Seq<Seq<u8>>, i: int) -> int {
    base + plain_encoding(ls.take(i)).len()
}

/// The two bytes of a compression pointer to index `loc`.
pub open spec fn pointer_bytes(loc: usize) -> Seq<u8> {
    seq![(192 + loc / 256) as u8, (loc % 256) as u8]
}

/// Compression of a name whose labels have been written out plainly after
/// `base`, giving `full`: going from the longest suffix to the shortest, the
/// first suffix that was written before is replaced by a pointer to it;
/// suffixes that were not are remembered (when a pointer can reach them).
/// Without any such suffix the name ends with a zero byte.
pub open spec fn compress_from(
    full: Seq<u8>,
    ptrs: Seq<(usize, Seq<u8>)>,
    ls: Seq<Seq<u8>>,
    i: nat,
    base: int,
) -> (Seq<u8>, Seq<(usize, Seq<u8>)>)
    decreases ls.len() - i,
{
    if i >= ls.len() {
        (full.push(0), ptrs)
    } else {
        let p = label_offset(base, ls, i as int);
        let suffix = full.subrange(p, full.len() as int);
        match find_pointer(ptrs, suffix) {
            Some(loc) => (full.subrange(0, p) + pointer_bytes(loc), ptrs),
            None => compress_from(
                full,
                if p <= 0x3FFF {
                    ptrs.push((p as usize, suffix))
                } else {
                    ptrs
                },
                ls,
                i + 1,
                base,
            ),
        }
    }
}

/// The labels a name is written with: in lower case in canonical mode.
pub open spec fn written_labels(ls: Seq<Seq<u8>>, canonical: bool) -> Seq<Seq<u8>> {
    if canonical {
        lower_labels(ls)
    } else {
        ls
    }
}

/// The bytes and remembered names after writing the name `ls`: in canonical
/// mode plainly and in lower case (RFC 4034, 6.2), else compressed against
/// the names written before.
pub open spec fn emit_name_spec(
    buf: Seq<u8>,
    ptrs: Seq<(usize, Seq<u8>)>,
    ls: Seq<Seq<u8>>,
    canonical: bool,
) -> (Seq<u8>, Seq<(usize, Seq<u8>)>) {
    if canonical {
        ((buf + plain_encoding(lower_labels(ls))).push(0), ptrs)
    } else {
        compress_from(buf + plain_encoding(ls), ptrs, ls, 0, buf.len() as int)
    }
}

/// Every remembered name can be pointed at: it starts at an index a pointer
/// can hold, and reading the name there gives labels whose plain wire form
/// is the remembered one.
#[verifier::opaque]
pub open spec fn pointers_valid(buf: Seq<u8>, ptrs: Seq<(usize, Seq<u8>)>) -> bool {
    forall|k: int|
        0 <= k < ptrs.len() ==> {
            let e = #[trigger] ptrs[k];
            &&& e.0 < buf.len()
            &&& e.0 <= 0x3FFF
            &&& decode_name(buf, e.0 as int, e.0 as int) is Ok
            &&& labels_wf(decode_name(buf, e.0 as int, e.0 as int)->Ok_0.0)
            &&& plain_encoding(decode_name(buf, e.0 as int, e.0 as int)->Ok_0.0) == e.1
        }
}

/// A found pointer is one of the remembered names, with the wanted bytes.
pub proof fn lemma_find_pointer(ptrs: Seq<(usize, Seq<u8>)>, bytes: Seq<u8>)
    ensures
        find_pointer(ptrs, bytes) matches Some(loc) ==> exists|k: int|
            0 <= k < ptrs.len() && #[trigger] ptrs[k] == (loc, bytes),
    decreases ptrs.len(),
{
    if ptrs.len() > 0 && ptrs[0].1 != bytes {
        lemma_find_pointer(ptrs.drop_first(), bytes);
        if let Some(loc) = find_pointer(ptrs, bytes) {
            let k = choose|k: int| 0 <= k < ptrs.drop_first().len() && #[trigger] ptrs.drop_first()[k] == (loc, bytes);
            assert(ptrs[k + 1] == (loc, bytes));
        }
    } else if ptrs.len() > 0 {
        assert(ptrs[0] == (ptrs[0].0, bytes));
    }
}

/// Remembered names stay valid when bytes are added after the buffer.
pub proof fn lemma_pointers_extend(buf: Seq<u8>, ptrs: Seq<(usize, Seq<u8>)>, ext: Seq<u8>)
    requires
        pointers_valid(buf, ptrs),
    ensures
        pointers_valid(buf + ext, ptrs),
{
    reveal(pointers_valid);
    assert forall|k: int| 0 <= k < ptrs.len() implies {
        let e = #[trigger] ptrs[k];
        &&& e.0 < (buf + ext).len()
        &&& e.0 <= 0x3FFF
        &&& decode_name(buf + ext, e.0 as int, e.0 as int) is Ok
        &&& labels_wf(decode_name(buf + ext, e.0 as int, e.0 as int)->Ok_0.0)
        &&& plain_encoding(decode_name(buf + ext, e.0 as int, e.0 as int)->Ok_0.0) == e.1
    } by {
        let e = ptrs[k];
        lemma_decode_extend(buf, ext, e.0 as int, e.0 as int);
    }
}

/// A sub-run of well-formed labels is well formed.
proof fn lemma_wf_subrange(ls: Seq<Seq<u8>>, a: int, b: int)
    requires
        labels_wf(ls),
        0 <= a <= b <= ls.len(),
    ensures
        labels_wf(ls.subrange(a, b)),
{
    assert forall|i: int| 0 <= i < ls.subrange(a, b).len() implies label_wf(
        #[trigger] ls.subrange(a, b)[i],
    ) by {
        assert(ls.subrange(a, b)[i] == ls[a + i]);
    }
}

/// Where the labels of a name sit in its plain wire form.
proof fn lemma_offsets(buf: Seq<u8>, ls: Seq<Seq<u8>>, j: int)
    requires
        labels_wf(ls),
        0 <= j <= ls.len(),
    ensures
        label_offset(buf.len() as int, ls, j) + plain_encoding(ls.skip(j)).len() == buf.len()
            + plain_encoding(ls).len(),
        (buf + plain_encoding(ls)).subrange(
            label_offset(buf.len() as int, ls, j),
            (buf.len() + plain_encoding(ls).len()) as int,
        ) == plain_encoding(ls.skip(j)),
        buf.len() <= label_offset(buf.len() as int, ls, j),
{
    lemma_plain_split(ls, j);
    let full = buf + plain_encoding(ls);
    let off = label_offset(buf.len() as int, ls, j);
    assert(full.subrange(off, full.len() as int) =~= plain_encoding(ls.skip(j)));
}

/// Later labels start further on.
proof fn lemma_offsets_strict(base: int, ls: Seq<Seq<u8>>, j: int, i: int)
    requires
        labels_wf(ls),
        0 <= j < i <= ls.len(),
    ensures
        label_offset(base, ls, j) + 2 <= label_offset(base, ls, i),
{
    let ti = ls.take(i);
    lemma_plain_split(ti, j);
    assert(ti.take(j) =~= ls.take(j));
    assert(ti.skip(j) =~= ls.subrange(j, i));
    lemma_wf_subrange(ls, j, i);
    lemma_plain_len(ls.subrange(j, i));
}

/// The entry was remembered for the suffix that starts at some label before
/// label `i`.
spec fn stored_suffix(base: int, ls: Seq<Seq<u8>>, i: int, e: (usize, Seq<u8>)) -> bool {
    exists|j: int|
        0 <= j < i && #[trigger] label_offset(base, ls, j) == e.0 && e.0 <= 0x3FFF && e.1
            == plain_encoding(ls.skip(j))
}

/// What compression produces: the buffer keeps its old bytes, every
/// remembered name stays readable, and the name and each of its suffixes
/// read back as the labels they hold.
proof fn lemma_compress(
    buf: Seq<u8>,
    ptrs0: Seq<(usize, Seq<u8>)>,
    ls: Seq<Seq<u8>>,
    i: nat,
    cur: Seq<(usize, Seq<u8>)>,
)
    requires
        pointers_valid(buf, ptrs0),
        labels_wf(ls),
        i <= ls.len(),
        ptrs0.len() <= cur.len(),
        forall|k: int| 0 <= k < ptrs0.len() ==> cur[k] == ptrs0[k],
        forall|k: int|
            ptrs0.len() <= k < cur.len() ==> stored_suffix(
                buf.len() as int,
                ls,
                i as int,
                #[trigger] cur[k],
            ),
    ensures
        ({
            let (b2, p2) = compress_from(
                buf + plain_encoding(ls),
                cur,
                ls,
                i,
                buf.len() as int,
            );
            &&& buf.len() < b2.len()
            &&& b2.subrange(0, buf.len() as int) == buf
            &&& pointers_valid(b2, p2)
            &&& forall|j: int, s: int|
                0 <= j <= i && buf.len() <= s <= label_offset(buf.len() as int, ls, j)
                    ==> #[trigger] decode_name(b2, label_offset(buf.len() as int, ls, j), s)
                    == Ok::<(Seq<Seq<u8>>, int), (ProtoError, int)>((ls.skip(j), b2.len() as int))
        }),
    decreases ls.len() - i,
{
    reveal(pointers_valid);
    let base = buf.len() as int;
    let full = buf + plain_encoding(ls);
    let n0 = ptrs0.len() as int;
    let (b2, p2) = compress_from(full, cur, ls, i, base);
    lemma_offsets(buf, ls, ls.len() as int);
    assert(ls.take(ls.len() as int) =~= ls);
    if i >= ls.len() {
        assert(b2 == full.push(0));
        assert(b2 == buf + (plain_encoding(ls).push(0)));
        assert forall|j: int, s: int|
            0 <= j <= i && base <= s <= label_offset(base, ls, j) implies #[trigger] decode_name(
            b2,
            label_offset(base, ls, j),
            s,
        ) == Ok::<(Seq<Seq<u8>>, int), (ProtoError, int)>((ls.skip(j), b2.len() as int)) by {
            let off = label_offset(base, ls, j);
            lemma_offsets(buf, ls, j);
            lemma_wf_subrange(ls, j, ls.len() as int);
            assert(ls.skip(j) =~= ls.subrange(j, ls.len() as int));
            assert(b2.subrange(off, off + plain_encoding(ls.skip(j)).len()) =~= full.subrange(
                off,
                full.len() as int,
            ));
            lemma_decode_plain(b2, off, s, ls.skip(j));
            lemma_decode_end(b2, full.len() as int, s);
            assert(ls.skip(j) + seq![] =~= ls.skip(j));
        }
        lemma_pointers_extend(buf, ptrs0, plain_encoding(ls).push(0));
        assert forall|k: int| 0 <= k < p2.len() implies {
            let e = #[trigger] p2[k];
            &&& e.0 < b2.len()
            &&& e.0 <= 0x3FFF
            &&& decode_name(b2, e.0 as int, e.0 as int) is Ok
            &&& labels_wf(decode_name(b2, e.0 as int, e.0 as int)->Ok_0.0)
            &&& plain_encoding(decode_name(b2, e.0 as int, e.0 as int)->Ok_0.0) == e.1
        } by {
            if k < n0 {
                assert(p2[k] == ptrs0[k]);
            } else {
                assert(stored_suffix(base, ls, i as int, p2[k]));
                let e = p2[k];
                let j = choose|j: int|
                    0 <= j < i && #[trigger] label_offset(base, ls, j) == e.0 && e.0 <= 0x3FFF
                        && e.1 == plain_encoding(ls.skip(j));
                lemma_offsets(buf, ls, j);
                assert(decode_name(b2, label_offset(base, ls, j), e.0 as int) == Ok::<
                    (Seq<Seq<u8>>, int),
                    (ProtoError, int),
                >((ls.skip(j), b2.len() as int)));
                lemma_wf_subrange(ls, j, ls.len() as int);
                assert(ls.skip(j) =~= ls.subrange(j, ls.len() as int));
            }
        }
        assert(b2.subrange(0, base) =~= buf);
    } else {
        let p = label_offset(base, ls, i as int);
        lemma_offsets(buf, ls, i as int);
        let suffix = full.subrange(p, full.len() as int);
        assert(suffix == plain_encoding(ls.skip(i as int)));
        lemma_wf_subrange(ls, i as int, ls.len() as int);
        assert(ls.skip(i as int) =~= ls.subrange(i as int, ls.len() as int));
        match find_pointer(cur, suffix) {
            Some(loc) => {
                lemma_find_pointer(cur, suffix);
                let k = choose|k: int| 0 <= k < cur.len() && #[trigger] cur[k] == (loc, suffix);
                if k >= n0 {
                    assert(stored_suffix(base, ls, i as int, cur[k]));
                    let j = choose|j: int|
                        0 <= j < i && #[trigger] label_offset(base, ls, j) == cur[k].0
                            && cur[k].0 <= 0x3FFF && cur[k].1 == plain_encoding(ls.skip(j));
                    lemma_offsets(buf, ls, j);
                    lemma_offsets_strict(base, ls, j, i as int);
                    assert(false);
                }
                assert(ptrs0[k] == (loc, suffix));
                let r = decode_name(buf, loc as int, loc as int)->Ok_0.0;
                lemma_plain_injective(r, ls.skip(i as int));
                let ext = b2.subrange(base, b2.len() as int);
                assert(b2 =~= buf + ext);
                lemma_decode_extend(buf, ext, loc as int, loc as int);
                lemma_pointers_extend(buf, ptrs0, ext);
                assert forall|j: int, s: int|
                    0 <= j <= i && base <= s <= label_offset(base, ls, j) implies #[trigger] decode_name(
                    b2,
                    label_offset(base, ls, j),
                    s,
                ) == Ok::<(Seq<Seq<u8>>, int), (ProtoError, int)>((ls.skip(j), b2.len() as int)) by {
                    let off = label_offset(base, ls, j);
                    let mid = ls.subrange(j, i as int);
                    lemma_wf_subrange(ls, j, i as int);
                    lemma_wf_subrange(ls, j, ls.len() as int);
                    lemma_offsets(buf, ls, j);
                    let sj = ls.skip(j);
                    lemma_plain_split(sj, i - j);
                    assert(sj.take(i - j) =~= mid);
                    assert(sj.skip(i - j) =~= ls.skip(i as int));
                    assert(off + plain_encoding(mid).len() == p);
                    assert(b2.subrange(off, p) =~= plain_encoding(mid)) by {
                        assert forall|t: int| 0 <= t < p - off implies b2.subrange(off, p)[t]
                            == plain_encoding(mid)[t] by {
                            assert(b2[off + t] == full[off + t]);
                            assert(full.subrange(off, full.len() as int)[t] == full[off + t]);
                            assert(plain_encoding(sj)[t] == plain_encoding(mid)[t]);
                        }
                    }
                    lemma_decode_plain(b2, off, s, mid);
                    lemma_decode_pointer(b2, p, s, loc as int);
                    assert(mid + ls.skip(i as int) =~= ls.skip(j));
                }
                assert forall|k2: int| 0 <= k2 < p2.len() implies {
                    let e = #[trigger] p2[k2];
                    &&& e.0 < b2.len()
                    &&& e.0 <= 0x3FFF
                    &&& decode_name(b2, e.0 as int, e.0 as int) is Ok
                    &&& labels_wf(decode_name(b2, e.0 as int, e.0 as int)->Ok_0.0)
                    &&& plain_encoding(decode_name(b2, e.0 as int, e.0 as int)->Ok_0.0) == e.1
                } by {
                    if k2 < n0 {
                        assert(p2[k2] == ptrs0[k2]);
                    } else {
                        assert(stored_suffix(base, ls, i as int, p2[k2]));
                        let e = p2[k2];
                        let j = choose|j: int|
                            0 <= j < i && #[trigger] label_offset(base, ls, j) == e.0 && e.0
                                <= 0x3FFF && e.1 == plain_encoding(ls.skip(j));
                        lemma_offsets(buf, ls, j);
                        lemma_offsets_strict(base, ls, j, i as int);
                        assert(decode_name(b2, label_offset(base, ls, j), e.0 as int) == Ok::<
                            (Seq<Seq<u8>>, int),
                            (ProtoError, int),
                        >((ls.skip(j), b2.len() as int)));
                        lemma_wf_subrange(ls, j, ls.len() as int);
                        assert(ls.skip(j) =~= ls.subrange(j, ls.len() as int));
                    }
                }
                assert(b2.subrange(0, base) =~= buf);
            },
            None => {
                let cur2 = if p <= 0x3FFF {
                    cur.push((p as usize, suffix))
                } else {
                    cur
                };
                assert forall|k: int|
                    ptrs0.len() <= k < cur2.len() implies stored_suffix(
                    base,
                    ls,
                    (i + 1) as int,
                    #[trigger] cur2[k],
                ) by {
                    if k < cur.len() {
                        assert(cur2[k] == cur[k]);
                        assert(stored_suffix(base, ls, i as int, cur[k]));
                        let e = cur[k];
                        let j = choose|j: int|
                            0 <= j < i && #[trigger] label_offset(base, ls, j) == e.0 && e.0
                                <= 0x3FFF && e.1 == plain_encoding(ls.skip(j));
                        assert(label_offset(base, ls, j) == e.0);
                    } else {
                        assert(cur2[k] == (p as usize, suffix));
                        assert(label_offset(base, ls, i as int) == p);
                    }
                }
                lemma_compress(buf, ptrs0, ls, i + 1, cur2);
            },
        }
    }
}

/// A name written into a buffer whose remembered names are all readable
/// reads back from where it was written as the labels it was written with
/// (itself, or in lower case in canonical mode), the buffer keeps its earlier
/// bytes, and the remembered names stay readable.
pub proof fn lemma_emit_name(
    buf: Seq<u8>,
    ptrs: Seq<(usize, Seq<u8>)>,
    ls: Seq<Seq<u8>>,
    canonical: bool,
)
    requires
        pointers_valid(buf, ptrs),
        labels_wf(ls),
    ensures
        ({
            let (b2, p2) = emit_name_spec(buf, ptrs, ls, canonical);
            &&& buf.len() < b2.len()
            &&& b2.subrange(0, buf.len() as int) == buf
            &&& pointers_valid(b2, p2)
            &&& decode_name(b2, buf.len() as int, buf.len() as int) == Ok::<
                (Seq<Seq<u8>>, int),
                (ProtoError, int),
            >((written_labels(ls, canonical), b2.len() as int))
        }),
{
    let base = buf.len() as int;
    if canonical {
        let lw = lower_labels(ls);
        lemma_lower_labels_wf(ls);
        let b2 = (buf + plain_encoding(lw)).push(0);
        assert(b2 == buf + plain_encoding(lw).push(0));
        lemma_pointers_extend(buf, ptrs, plain_encoding(lw).push(0));
        assert(b2.subrange(base, base + plain_encoding(lw).len()) =~= plain_encoding(lw));
        lemma_decode_plain(b2, base, base, lw);
        lemma_decode_end(b2, base + plain_encoding(lw).len(), base);
        assert(lw + seq![] =~= lw);
        assert(b2.subrange(0, base) =~= buf);
    } else {
        lemma_compress(buf, ptrs, ls, 0, ptrs);
        assert(label_offset(base, ls, 0) == base) by {
            assert(ls.take(0) =~= Seq::<Seq<u8>>::empty());
        }
        assert(ls.skip(0) =~= ls);
        let (b2, p2) = emit_name_spec(buf, ptrs, ls, canonical);
        assert(decode_name(b2, label_offset(base, ls, 0), base) == Ok::<
            (Seq<Seq<u8>>, int),
            (ProtoError, int),
        >((ls.skip(0), b2.len() as int)));
    }
}


/// Compression keeps the bytes written before the name and adds at least one.
proof fn lemma_compress_prefix(
    buf: Seq<u8>,
    cur: Seq<(usize, Seq<u8>)>,
    ls: Seq<Seq<u8>>,
    i: nat,
)
    requires
        labels_wf(ls),
        i <= ls.len(),
    ensures
        ({
            let (b2, p2) = compress_from(buf + plain_encoding(ls), cur, ls, i, buf.len() as int);
            &&& buf.len() < b2.len()
            &&& b2.subrange(0, buf.len() as int) == buf
        }),
    decreases ls.len() - i,
{
    let full = buf + plain_encoding(ls);
    let base = buf.len() as int;
    let (b2, p2) = compress_from(full, cur, ls, i, base);
    if i >= ls.len() {
        assert(b2.subrange(0, base) =~= buf);
    } else {
        let p = label_offset(base, ls, i as int);
        lemma_offsets(buf, ls, i as int);
        let suffix = full.subrange(p, full.len() as int);
        match find_pointer(cur, suffix) {
            Some(loc) => {
                assert(b2.subrange(0, base) =~= buf);
            },
            None => {
                let cur2 = if p <= 0x3FFF {
                    cur.push((p as usize, suffix))
                } else {
                    cur
                };
                lemma_compress_prefix(buf, cur2, ls, i + 1);
            },
        }
    }
}

/// Writing a name keeps the bytes written before it and adds at least one.
pub proof fn lemma_name_keeps_prefix(
    buf: Seq<u8>,
    ptrs: Seq<(usize, Seq<u8>)>,
    ls: Seq<Seq<u8>>,
    canonical: bool,
)
    requires
        labels_wf(ls),
    ensures
        ({
            let (b2, p2) = emit_name_spec(buf, ptrs, ls, canonical);
            &&& buf.len() < b2.len()
            &&& b2.subrange(0, buf.len() as int) == buf
        }),
{
    if canonical {
        let b2 = (buf + plain_encoding(lower_labels(ls))).push(0);
        assert(b2.subrange(0, buf.len() as int) =~= buf);
    } else {
        lemma_compress_prefix(buf, ptrs, ls, 0);
    }
}

/// The pointer table as plain values.
pub open spec fn pointers_of(v: Seq<(usize, Vec<u8>)>) -> Seq<(usize, Seq<u8>)> {
    Seq::new(v.len(), |i: int| (v[i].0, v[i].1@))
}

/// Appends the bytes of `src` to `dst`.
fn append_bytes(dst: &mut Vec<u8>, src: &[u8])
    ensures
        final(dst)@ == old(dst)@ + src@,
{
    let mut i: usize = 0;
    let ghost start = dst@;
    while i < src.len()
        invariant
            i <= src@.len(),
            dst@ == start + src@.take(i as int),
        decreases src@.len() - i,
    {
        dst.push(src[i]);
        i = i + 1;
        assert(dst@ =~= start + src@.take(i as int));
    }
    assert(src@.take(i as int) =~= src@);
}

/// Whether `a` holds the same bytes as `buf[start..end]`.
fn bytes_equal(a: &Vec<u8>, buf: &Vec<u8>, start: usize, end: usize) -> (r: bool)
    requires
        start <= end <= buf@.len(),
    ensures
        r == (a@ == buf@.subrange(start as int, end as int)),
{
    if a.len() != end - start {
        return false;
    }
    let mut i: usize = 0;
    while i < a.len()
        invariant
            i <= a@.len(),
            a@.len() == end - start,
            start <= end <= buf@.len(),
            forall|k: int| 0 <= k < i ==> a@[k] == buf@[start + k],
        decreases a@.len() - i,
    {
        if a[i] != buf[start + i] {
            assert(a@[i as int] != buf@.subrange(start as int, end as int)[i as int]);
            return false;
        }
        i = i + 1;
    }
    assert(a@ =~= buf@.subrange(start as int, end as int));
    true
}

/// A writing buffer for record data, with the names written so far that
/// later names may point back at.
pub struct BinEncoder {
    buffer: Vec<u8>,
    name_pointers: Vec<(usize, Vec<u8>)>,
    canonical_names: bool,
}

impl BinEncoder {
    /// The bytes written so far.
    pub closed spec fn bytes(&self) -> Seq<u8> {
        self.buffer@
    }

    /// The names that can be pointed at, by index and plain wire form.
    pub closed spec fn pointers(&self) -> Seq<(usize, Seq<u8>)> {
        pointers_of(self.name_pointers@)
    }

    /// Whether names are written without compression.
    pub closed spec fn canonical(&self) -> bool {
        self.canonical_names
    }

    /// Every remembered name can be read back where it was written.
    pub open spec fn wf(&self) -> bool {
        pointers_valid(self.bytes(), self.pointers())
    }

    /// An empty buffer that compresses names.
    pub fn new() -> (e: BinEncoder)
        ensures
            e.bytes() == Seq::<u8>::empty(),
            e.pointers() == Seq::<(usize, Seq<u8>)>::empty(),
            !e.canonical(),
            e.wf(),
    {
        let e = BinEncoder { buffer: Vec::new(), name_pointers: Vec::new(), canonical_names: false };
        assert(e.pointers() =~= Seq::<(usize, Seq<u8>)>::empty());
        reveal(pointers_valid);
        e
    }

    /// An empty buffer that writes names plainly (the canonical form used
    /// for signatures).
    pub fn new_canonical() -> (e: BinEncoder)
        ensures
            e.bytes() == Seq::<u8>::empty(),
            e.pointers() == Seq::<(usize, Seq<u8>)>::empty(),
            e.canonical(),
            e.wf(),
    {
        let e = BinEncoder { buffer: Vec::new(), name_pointers: Vec::new(), canonical_names: true };
        assert(e.pointers() =~= Seq::<(usize, Seq<u8>)>::empty());
        reveal(pointers_valid);
        e
    }

    /// Whether names are written without compression.
    pub fn is_canonical_names(&self) -> (b: bool)
        ensures
            b == self.canonical(),
    {
        self.canonical_names
    }

    /// The number of bytes written so far.
    pub fn len(&self) -> (n: usize)
        ensures
            n == self.bytes().len(),
    {
        self.buffer.len()
    }

    /// The bytes written so far.
    pub fn as_bytes(&self) -> (b: &Vec<u8>)
        ensures
            b@ == self.bytes(),
    {
        &self.buffer
    }

    /// The bytes written, giving up the buffer.
    pub fn into_bytes(self) -> (b: Vec<u8>)
        ensures
            b@ == self.bytes(),
    {
        self.buffer
    }

    /// Appends raw bytes.
    pub fn emit_vec(&mut self, data: &[u8])
        ensures
            final(self).bytes() == old(self).bytes() + data@,
            final(self).pointers() == old(self).pointers(),
            final(self).canonical() == old(self).canonical(),
            old(self).wf() ==> final(self).wf(),
    {
        proof {
            if self.wf() {
                lemma_pointers_extend(self.bytes(), self.pointers(), data@);
            }
        }
        append_bytes(&mut self.buffer, data);
    }

    /// Appends one byte.
    pub fn emit(&mut self, b: u8)
        ensures
            final(self).bytes() == old(self).bytes().push(b),
            final(self).pointers() == old(self).pointers(),
            final(self).canonical() == old(self).canonical(),
            old(self).wf() ==> final(self).wf(),
    {
        proof {
            if self.wf() {
                lemma_pointers_extend(self.bytes(), self.pointers(), seq![b]);
                assert(self.bytes() + seq![b] =~= self.bytes().push(b));
            }
        }
        self.buffer.push(b);
    }

    /// Appends a 16-bit integer in network order.
    pub fn emit_u16(&mut self, v: u16)
        ensures
            final(self).bytes() == old(self).bytes() + be16(v),
            final(self).pointers() == old(self).pointers(),
            final(self).canonical() == old(self).canonical(),
            old(self).wf() ==> final(self).wf(),
    {
        proof {
            if self.wf() {
                lemma_pointers_extend(self.bytes(), self.pointers(), be16(v));
            }
        }
        self.buffer.push((v / 256) as u8);
        self.buffer.push((v % 256) as u8);
        assert(self.buffer@ =~= old(self).bytes() + be16(v));
    }

    /// Appends a 32-bit integer in network order.
    pub fn emit_u32(&mut self, v: u32)
        ensures
            final(self).bytes() == old(self).bytes() + be32(v),
            final(self).pointers() == old(self).pointers(),
            final(self).canonical() == old(self).canonical(),
            old(self).wf() ==> final(self).wf(),
    {
        proof {
            if self.wf() {
                lemma_pointers_extend(self.bytes(), self.pointers(), be32(v));
            }
        }
        self.buffer.push((v / 16777216) as u8);
        self.buffer.push(((v / 65536) % 256) as u8);
        self.buffer.push(((v / 256) % 256) as u8);
        self.buffer.push((v % 256) as u8);
        assert(self.buffer@ =~= old(self).bytes() + be32(v));
    }

    /// Appends a character string: its length byte, then its bytes; a string
    /// longer than 255 bytes is refused and nothing is written.
    pub fn emit_character_data(&mut self, data: &[u8]) -> (res: Result<(), ProtoError>)
        ensures
            data@.len() <= 255 ==> res is Ok && final(self).bytes() == old(self).bytes() + seq![
                data@.len() as u8,
            ] + data@,
            data@.len() > 255 ==> res == Err::<(), ProtoError>(
                ProtoError::CharacterDataTooLong { max: 255, len: data@.len() as usize },
            ) && final(self).bytes() == old(self).bytes(),
            final(self).pointers() == old(self).pointers(),
            final(self).canonical() == old(self).canonical(),
            old(self).wf() ==> final(self).wf(),
    {
        if data.len() > 255 {
            return Err(ProtoError::CharacterDataTooLong { max: 255, len: data.len() });
        }
        self.emit(data.len() as u8);
        self.emit_vec(data);
        Ok(())
    }

    /// The first remembered name whose plain wire form is `buffer[start..end]`.
    fn get_label_pointer(&self, start: usize, end: usize) -> (r: Option<usize>)
        requires
            start <= end <= self.bytes().len(),
        ensures
            r == find_pointer(self.pointers(), self.bytes().subrange(start as int, end as int)),
    {
        let ghost target = self.bytes().subrange(start as int, end as int);
        assert(self.pointers().skip(0) =~= self.pointers());
        let mut k: usize = 0;
        while k < self.name_pointers.len()
            invariant
                k <= self.name_pointers@.len(),
                start <= end <= self.buffer@.len(),
                target == self.buffer@.subrange(start as int, end as int),
                find_pointer(self.pointers(), target) == find_pointer(
                    self.pointers().skip(k as int),
                    target,
                ),
            decreases self.name_pointers@.len() - k,
        {
            let ghost rest = self.pointers().skip(k as int);
            assert(rest[0] == (self.name_pointers@[k as int].0, self.name_pointers@[k as int].1@));
            if bytes_equal(&self.name_pointers[k].1, &self.buffer, start, end) {
                return Some(self.name_pointers[k].0);
            }
            assert(rest.drop_first() =~= self.pointers().skip(k + 1));
            k = k + 1;
        }
        None
    }

    /// Writes a name: in canonical mode plainly and in lower case, else
    /// compressed against the names written before.
    pub fn emit_name(&mut self, name: &Name)
        ensures
            (final(self).bytes(), final(self).pointers()) == emit_name_spec(
                old(self).bytes(),
                old(self).pointers(),
                name@,
                old(self).canonical(),
            ),
            final(self).canonical() == old(self).canonical(),
            old(self).wf() ==> final(self).wf(),
            old(self).wf() ==> decode_name(
                final(self).bytes(),
                old(self).bytes().len() as int,
                old(self).bytes().len() as int,
            ) == Ok::<(Seq<Seq<u8>>, int), (ProtoError, int)>(
                (written_labels(name@, old(self).canonical()), final(self).bytes().len() as int),
            ),
            old(self).bytes().len() < final(self).bytes().len(),
            final(self).bytes().subrange(0, old(self).bytes().len() as int) == old(self).bytes(),
    {
        let labels = name.labels();
        let ghost ls = name@;
        let ghost buf0 = self.bytes();
        let ghost ptrs0 = self.pointers();
        let base = self.buffer.len();
        let ghost wl = written_labels(ls, self.canonical_names);
        proof {
            lemma_lower_labels_wf(ls);
        }
        let mut offsets: Vec<usize> = Vec::new();
        let mut i: usize = 0;
        while i < labels.len()
            invariant
                labels_of(labels@) == ls,
                labels_wf(ls),
                labels_wf(wl),
                wl == written_labels(ls, self.canonical_names),
                i <= ls.len(),
                base == buf0.len(),
                self.buffer@ == buf0 + plain_encoding(wl.take(i as int)),
                self.name_pointers@ == old(self).name_pointers@,
                self.canonical_names == old(self).canonical_names,
                offsets@.len() == i,
                forall|j: int| 0 <= j < i ==> offsets@[j] == label_offset(base as int, wl, j),
            decreases ls.len() - i,
        {
            let ghost prev = self.buffer@;
            offsets.push(self.buffer.len());
            let label = &labels[i];
            assert(label@ == ls[i as int]);
            assert(label_wf(ls[i as int]));
            assert(wl[i as int].len() == label@.len());
            self.buffer.push(label.len() as u8);
            if self.canonical_names {
                append_lower(&mut self.buffer, label.as_slice());
            } else {
                append_bytes(&mut self.buffer, label.as_slice());
            }
            proof {
                lemma_plain_split(wl.take(i + 1), i as int);
                assert(wl.take(i + 1).take(i as int) =~= wl.take(i as int));
                assert(wl.take(i + 1).skip(i as int) =~= seq![wl[i as int]]);
                assert(plain_encoding(seq![wl[i as int]]) =~= seq![wl[i as int].len() as u8]
                    + wl[i as int] + plain_encoding(seq![wl[i as int]].drop_first()));
                assert(seq![wl[i as int]].drop_first() =~= Seq::<Seq<u8>>::empty());
                assert(self.buffer@ =~= buf0 + plain_encoding(wl.take(i + 1)));
            }
            i = i + 1;
        }
        assert(wl.take(i as int) =~= wl);
        let ghost full = self.buffer@;
        if self.canonical_names {
            self.buffer.push(0);
            proof {
                if pointers_valid(buf0, ptrs0) {
                    lemma_emit_name(buf0, ptrs0, ls, true);
                }
                assert(self.buffer@.subrange(0, base as int) =~= buf0);
            }
            return;
        }
        let last = self.buffer.len();
        let ghost target = compress_from(full, ptrs0, ls, 0, base as int);
        let mut done = false;
        let mut i: usize = 0;
        while i < labels.len() && !done
            invariant
                labels_of(labels@) == ls,
                labels_wf(ls),
                i <= ls.len(),
                base == buf0.len(),
                full == buf0 + plain_encoding(ls),
                last == full.len(),
                offsets@.len() == ls.len(),
                forall|j: int| 0 <= j < ls.len() ==> offsets@[j] == label_offset(base as int, ls, j),
                !done ==> self.buffer@ == full,
                !done ==> compress_from(full, self.pointers(), ls, i as nat, base as int)
                    == target,
                done ==> (self.buffer@, self.pointers()) == target,
                target == compress_from(full, ptrs0, ls, 0, base as int),
                self.canonical_names == old(self).canonical_names,
            decreases ls.len() - i + (if done { 0int } else { 1int }),
        {
            let p = offsets[i];
            let ghost cur = self.pointers();
            proof {
                lemma_offsets(buf0, ls, i as int);
            }
            match self.get_label_pointer(p, last) {
                Some(loc) => {
                    self.buffer.truncate(p);
                    self.buffer.push(#[verifier::truncate] ((192 + loc / 256) as u8));
                    self.buffer.push((loc % 256) as u8);
                    proof {
                        assert(self.buffer@ =~= full.subrange(0, p as int) + pointer_bytes(loc));
                        assert(compress_from(full, cur, ls, i as nat, base as int) == (
                            full.subrange(0, p as int) + pointer_bytes(loc),
                            cur,
                        ));
                    }
                    done = true;
                },
                None => {
                    if p <= 0x3FFF {
                        let mut stored: Vec<u8> = Vec::new();
                        let mut t: usize = p;
                        while t < last
                            invariant
                                p <= t <= last,
                                last == self.buffer@.len(),
                                stored@ == self.buffer@.subrange(p as int, t as int),
                            decreases last - t,
                        {
                            stored.push(self.buffer[t]);
                            t = t + 1;
                            assert(stored@ =~= self.buffer@.subrange(p as int, t as int));
                        }
                        let ghost before = self.pointers();
                        self.name_pointers.push((p, stored));
                        assert(self.pointers() =~= before.push(
                            (p, full.subrange(p as int, full.len() as int)),
                        ));
                    }
                    assert(compress_from(full, cur, ls, i as nat, base as int) == compress_from(
                        full,
                        self.pointers(),
                        ls,
                        (i + 1) as nat,
                        base as int,
                    ));
                    i = i + 1;
                },
            }
        }
        if !done {
            self.buffer.push(0);
            assert(compress_from(full, self.pointers(), ls, i as nat, base as int) == (
                full.push(0),
                self.pointers(),
            ));
        }
        proof {
            if pointers_valid(buf0, ptrs0) {
                lemma_emit_name(buf0, ptrs0, ls, false);
            }
            lemma_compress_prefix(buf0, ptrs0, ls, 0);
        }
    }
}

} // verus!
