//! Domain names: their labels, their wire form, and how a compressed name is
//! read back from a message.
use vstd::prelude::*;
use crate::error::ProtoError;
use vstd::string::StringSliceAdditionalSpecFns;
use vstd::std_specs::cmp::PartialEqSpecImpl;
use crate::wire::{read_bytes_at, BinDecoder};
use crate::encoder::{BinEncoder, emit_name_spec, written_labels};

verus! {

/// A label holds between 1 and 63 bytes.
pub open spec fn label_wf(l: Seq<u8>) -> bool {
    1 <= l.len() <= 63
}

/// Every label of the sequence is well formed.
pub open spec fn labels_wf(ls: Seq<Seq<u8>>) -> bool {
    forall|i: int| 0 <= i < ls.len() ==> label_wf(#[trigger] ls[i])
}

/// The labels held by a vector of byte vectors.
pub open spec fn labels_of(v: Seq<Vec<u8>>) -> Seq<Seq<u8>> {
    Seq::new(v.len(), |i: int| v[i]@)
}

/// The labels written one after the other, each after its length byte,
/// without the terminating zero byte.
pub open spec fn plain_encoding(ls: Seq<Seq<u8>>) -> Seq<u8>
    decreases ls.len(),
{
    if ls.len() == 0 {
        seq![]
    } else {
        seq![ls[0].len() as u8] + ls[0] + plain_encoding(ls.drop_first())
    }
}

/// The pointer target encoded by the two bytes `hi`, `lo` of a compression
/// pointer (the high byte carries the marker `0b11` in its top bits).
pub open spec fn pointer_target(hi: u8, lo: u8) -> int {
    (hi - 192) * 256 + lo
}

/// The labels of the name that starts at `pos` in `buf`, and the index just
/// after it, following compression pointers.  `start` is the index where
/// the name being read begins: a pointer must point before it, so that
/// reading always ends.  An error comes with the index where reading
/// stopped: a label's length byte is taken before its bytes, a pointer's two
/// bytes are taken before it is checked and followed, and a byte of a
/// reserved kind is not taken.
pub open spec fn decode_name(buf: Seq<u8>, pos: int, start: int) -> Result<
    (Seq<Seq<u8>>, int),
    (ProtoError, int),
>
    decreases start, buf.len() - pos,
{
    if pos < 0 || start < 0 || pos >= buf.len() {
        Err((ProtoError::InsufficientBytes, pos))
    } else {
        let b = buf[pos];
        if b == 0 {
            Ok((seq![], pos + 1))
        } else if b < 64 {
            if pos + 1 + b > buf.len() {
                Err((ProtoError::InsufficientBytes, pos + 1))
            } else {
                match decode_name(buf, pos + 1 + b, start) {
                    Ok((rest, end)) => Ok((seq![buf.subrange(pos + 1, pos + 1 + b)] + rest, end)),
                    Err(e) => Err(e),
                }
            }
        } else if b >= 192 {
            if pos + 2 > buf.len() {
                Err((ProtoError::InsufficientBytes, pos))
            } else {
                let target = pointer_target(b, buf[pos + 1]);
                if 0 <= target < start {
                    match decode_name(buf, target, target) {
                        Ok((ls, _)) => Ok((ls, pos + 2)),
                        Err((e, _)) => Err((e, pos + 2)),
                    }
                } else {
                    Err(
                        (
                            ProtoError::PointerNotPriorToLabel {
                                idx: pos as usize,
                                ptr: target as u16,
                            },
                            pos + 2,
                        ),
                    )
                }
            }
        } else {
            Err((ProtoError::UnrecognizedLabelCode(b), pos))
        }
    }
}

/// The labels of the name that starts at `pos`, read as a name of its own.
pub open spec fn name_at(buf: Seq<u8>, pos: int) -> Result<(Seq<Seq<u8>>, int), (ProtoError, int)> {
    decode_name(buf, pos, pos)
}

/// Whatever decodes, decodes into well-formed labels, ending after `pos`.
pub proof fn lemma_decode_wf(buf: Seq<u8>, pos: int, start: int)
    ensures
        decode_name(buf, pos, start) matches Ok((ls, end)) ==> labels_wf(ls) && pos < end
            <= buf.len(),
        decode_name(buf, pos, start) matches Err((_, stop)) ==> pos <= stop,
    decreases start, buf.len() - pos,
{
    if pos < 0 || start < 0 || pos >= buf.len() {
    } else {
        let b = buf[pos];
        if b == 0 {
        } else if b < 64 {
            if pos + 1 + b <= buf.len() {
                lemma_decode_wf(buf, pos + 1 + b, start);
                if let Ok((rest, end)) = decode_name(buf, pos + 1 + b, start) {
                    let ls = seq![buf.subrange(pos + 1, pos + 1 + b)] + rest;
                    assert forall|i: int| 0 <= i < ls.len() implies label_wf(#[trigger] ls[i]) by {
                        if i > 0 {
                            assert(ls[i] == rest[i - 1]);
                        }
                    }
                }
            }
        } else if b >= 192 {
            if pos + 2 <= buf.len() {
                let target = pointer_target(b, buf[pos + 1]);
                if 0 <= target < start {
                    lemma_decode_wf(buf, target, target);
                }
            }
        }
    }
}

/// Writing two runs of labels one after the other writes each run in turn.
pub proof fn lemma_plain_append(a: Seq<Seq<u8>>, b: Seq<Seq<u8>>)
    ensures
        plain_encoding(a + b) == plain_encoding(a) + plain_encoding(b),
    decreases a.len(),
{
    if a.len() == 0 {
        assert(a + b =~= b);
        assert(plain_encoding(a) =~= Seq::<u8>::empty());
        assert(plain_encoding(a) + plain_encoding(b) =~= plain_encoding(b));
    } else {
        assert((a + b).drop_first() =~= a.drop_first() + b);
        lemma_plain_append(a.drop_first(), b);
        assert((a + b)[0] == a[0]);
        assert(plain_encoding(a + b) =~= plain_encoding(a) + plain_encoding(b));
    }
}

/// The wire form of the labels splits at any label.
pub proof fn lemma_plain_split(ls: Seq<Seq<u8>>, j: int)
    requires
        0 <= j <= ls.len(),
    ensures
        plain_encoding(ls) == plain_encoding(ls.take(j)) + plain_encoding(ls.skip(j)),
{
    assert(ls.take(j) + ls.skip(j) =~= ls);
    lemma_plain_append(ls.take(j), ls.skip(j));
}

/// A non-empty run of well-formed labels takes up at least one byte per label.
pub proof fn lemma_plain_len(ls: Seq<Seq<u8>>)
    requires
        labels_wf(ls),
    ensures
        plain_encoding(ls).len() >= 2 * ls.len(),
    decreases ls.len(),
{
    if ls.len() > 0 {
        assert(label_wf(ls[0]));
        assert(labels_wf(ls.drop_first())) by {
            assert forall|i: int| 0 <= i < ls.drop_first().len() implies label_wf(
                #[trigger] ls.drop_first()[i],
            ) by {
                assert(ls.drop_first()[i] == ls[i + 1]);
            }
        }
        lemma_plain_len(ls.drop_first());
    }
}

/// Well-formed labels are told apart by their wire form.
pub proof fn lemma_plain_injective(a: Seq<Seq<u8>>, b: Seq<Seq<u8>>)
    requires
        labels_wf(a),
        labels_wf(b),
        plain_encoding(a) == plain_encoding(b),
    ensures
        a == b,
    decreases a.len(),
{
    lemma_plain_len(a);
    lemma_plain_len(b);
    if a.len() == 0 {
        assert(b.len() == 0);
        assert(a =~= b);
    } else {
        assert(b.len() > 0);
        let pa = plain_encoding(a);
        assert(pa[0] == a[0].len() as u8);
        assert(plain_encoding(b)[0] == b[0].len() as u8);
        assert(label_wf(a[0]) && label_wf(b[0]));
        assert(a[0].len() == b[0].len());
        let n = a[0].len() as int;
        assert(pa.subrange(1, 1 + n) =~= a[0]);
        assert(plain_encoding(b).subrange(1, 1 + n) =~= b[0]);
        assert(pa.subrange(1 + n, pa.len() as int) =~= plain_encoding(a.drop_first()));
        assert(plain_encoding(b).subrange(1 + n, pa.len() as int) =~= plain_encoding(
            b.drop_first(),
        ));
        assert(labels_wf(a.drop_first())) by {
            assert forall|i: int| 0 <= i < a.drop_first().len() implies label_wf(
                #[trigger] a.drop_first()[i],
            ) by {
                assert(a.drop_first()[i] == a[i + 1]);
            }
        }
        assert(labels_wf(b.drop_first())) by {
            assert forall|i: int| 0 <= i < b.drop_first().len() implies label_wf(
                #[trigger] b.drop_first()[i],
            ) by {
                assert(b.drop_first()[i] == b[i + 1]);
            }
        }
        lemma_plain_injective(a.drop_first(), b.drop_first());
        assert(a =~= b) by {
            assert forall|i: int| 0 <= i < a.len() implies a[i] == b[i] by {
                if i > 0 {
                    assert(a[i] == a.drop_first()[i - 1]);
                    assert(b[i] == b.drop_first()[i - 1]);
                }
            }
        }
    }
}

/// Labels written out plainly at `p` are read as they are, followed by
/// whatever is read where they end.
pub proof fn lemma_decode_plain(buf: Seq<u8>, p: int, start: int, ls: Seq<Seq<u8>>)
    requires
        labels_wf(ls),
        0 <= p,
        0 <= start,
        p + plain_encoding(ls).len() <= buf.len(),
        buf.subrange(p, p + plain_encoding(ls).len()) == plain_encoding(ls),
    ensures
        decode_name(buf, p, start) == (match decode_name(
            buf,
            p + plain_encoding(ls).len(),
            start,
        ) {
            Ok((r, e)) => Ok((ls + r, e)),
            Err(x) => Err(x),
        }),
    decreases ls.len(),
{
    if ls.len() == 0 {
        assert(plain_encoding(ls).len() == 0);
        match decode_name(buf, p, start) {
            Ok((r, e)) => {
                assert(ls + r =~= r);
            },
            Err(x) => {},
        }
    } else {
        let pl = plain_encoding(ls);
        let n = ls[0].len() as int;
        assert(label_wf(ls[0]));
        let rest = ls.drop_first();
        assert(labels_wf(rest)) by {
            assert forall|i: int| 0 <= i < rest.len() implies label_wf(#[trigger] rest[i]) by {
                assert(rest[i] == ls[i + 1]);
            }
        }
        assert(pl.len() == 1 + n + plain_encoding(rest).len());
        assert(buf[p] == pl[0]);
        assert(pl[0] == n as u8);
        assert(buf.subrange(p + 1, p + 1 + n) =~= ls[0]) by {
            assert forall|k: int| 0 <= k < n implies buf.subrange(p + 1, p + 1 + n)[k]
                == ls[0][k] by {
                assert(buf[p + 1 + k] == pl[1 + k]);
            }
        }
        assert(buf.subrange(p + 1 + n, p + 1 + n + plain_encoding(rest).len()) =~= plain_encoding(
            rest,
        )) by {
            assert forall|k: int| 0 <= k < plain_encoding(rest).len() implies buf.subrange(
                p + 1 + n,
                p + 1 + n + plain_encoding(rest).len(),
            )[k] == plain_encoding(rest)[k] by {
                assert(buf[p + 1 + n + k] == pl[1 + n + k]);
            }
        }
        lemma_decode_plain(buf, p + 1 + n, start, rest);
        match decode_name(buf, p + pl.len(), start) {
            Ok((r, e)) => {
                assert(seq![ls[0]] + (rest + r) =~= ls + r);
            },
            Err(x) => {},
        }
    }
}

/// A name that decodes keeps decoding the same way when bytes are added
/// after the buffer.
pub proof fn lemma_decode_extend(buf: Seq<u8>, ext: Seq<u8>, pos: int, start: int)
    requires
        decode_name(buf, pos, start) is Ok,
    ensures
        decode_name(buf + ext, pos, start) == decode_name(buf, pos, start),
    decreases start, buf.len() - pos,
{
    let b2 = buf + ext;
    if pos < 0 || start < 0 || pos >= buf.len() {
    } else {
        let b = buf[pos];
        assert(b2[pos] == b);
        if b == 0 {
        } else if b < 64 {
            lemma_decode_extend(buf, ext, pos + 1 + b, start);
            assert(b2.subrange(pos + 1, pos + 1 + b) =~= buf.subrange(pos + 1, pos + 1 + b));
        } else if b >= 192 {
            assert(b2[pos + 1] == buf[pos + 1]);
            let target = pointer_target(b, buf[pos + 1]);
            lemma_decode_extend(buf, ext, target, target);
        }
    }
}

/// A zero byte ends a name.
pub proof fn lemma_decode_end(buf: Seq<u8>, q: int, start: int)
    requires
        0 <= q < buf.len(),
        0 <= start,
        buf[q] == 0,
    ensures
        decode_name(buf, q, start) == Ok::<(Seq<Seq<u8>>, int), (ProtoError, int)>(
            (seq![], q + 1),
        ),
{
}

/// A compression pointer to an earlier name reads as that name.
pub proof fn lemma_decode_pointer(buf: Seq<u8>, q: int, start: int, loc: int)
    requires
        0 <= q,
        q + 2 <= buf.len(),
        0 <= loc < start,
        loc <= 0x3FFF,
        buf[q] == (192 + loc / 256) as u8,
        buf[q + 1] == (loc % 256) as u8,
        decode_name(buf, loc, loc) is Ok,
    ensures
        decode_name(buf, q, start) == Ok::<(Seq<Seq<u8>>, int), (ProtoError, int)>(
            (decode_name(buf, loc, loc)->Ok_0.0, q + 2),
        ),
{
    assert(buf[q] >= 192);
    assert(pointer_target(buf[q], buf[q + 1]) == loc);
}

/// A domain name: a sequence of labels, from the most specific to the top
/// level.  The root name has no labels.
#[derive(Debug, Eq)]
pub struct Name {
    labels: Vec<Vec<u8>>,
}

impl View for Name {
    type V = Seq<Seq<u8>>;

    closed spec fn view(&self) -> Seq<Seq<u8>> {
        labels_of(self.labels@)
    }
}

/// An ASCII letter in lower case; any other byte as it is.
pub open spec fn ascii_lower(b: u8) -> u8 {
    if 65 <= b <= 90 {
        (b + 32) as u8
    } else {
        b
    }
}

/// Two labels are the same up to the case of ASCII letters.
pub open spec fn label_eq_ignore_case(a: Seq<u8>, b: Seq<u8>) -> bool {
    a.len() == b.len() && forall|j: int| 0 <= j < a.len() ==> ascii_lower(a[j]) == ascii_lower(b[j])
}

/// Two names have the same labels up to the case of ASCII letters.
pub open spec fn names_eq_ignore_case(a: Seq<Seq<u8>>, b: Seq<Seq<u8>>) -> bool {
    a.len() == b.len() && forall|i: int|
        0 <= i < a.len() ==> label_eq_ignore_case(#[trigger] a[i], b[i])
}

/// Whether two labels are the same up to the case of ASCII letters.
fn label_eq(a: &Vec<u8>, b: &Vec<u8>) -> (r: bool)
    ensures
        r == label_eq_ignore_case(a@, b@),
{
    if a.len() != b.len() {
        return false;
    }
    let mut j: usize = 0;
    while j < a.len()
        invariant
            j <= a@.len(),
            a@.len() == b@.len(),
            forall|k: int| 0 <= k < j ==> ascii_lower(a@[k]) == ascii_lower(b@[k]),
        decreases a@.len() - j,
    {
        let x = a[j];
        let y = b[j];
        let lx = if 65 <= x && x <= 90 { x + 32 } else { x };
        let ly = if 65 <= y && y <= 90 { y + 32 } else { y };
        if lx != ly {
            return false;
        }
        j = j + 1;
    }
    true
}

/// Names are equal when their labels are, up to the case of ASCII letters.
impl PartialEq for Name {
    fn eq(&self, other: &Name) -> (r: bool) {
        if self.labels.len() != other.labels.len() {
            return false;
        }
        let mut i: usize = 0;
        while i < self.labels.len()
            invariant
                i <= self.labels@.len(),
                self.labels@.len() == other.labels@.len(),
                forall|k: int|
                    0 <= k < i ==> label_eq_ignore_case(
                        #[trigger] labels_of(self.labels@)[k],
                        labels_of(other.labels@)[k],
                    ),
            decreases self.labels@.len() - i,
        {
            if !label_eq(&self.labels[i], &other.labels[i]) {
                assert(labels_of(self.labels@)[i as int] == self.labels@[i as int]@);
                assert(labels_of(other.labels@)[i as int] == other.labels@[i as int]@);
                return false;
            }
            i = i + 1;
        }
        true
    }
}

impl PartialEqSpecImpl for Name {
    open spec fn obeys_eq_spec() -> bool {
        true
    }

    open spec fn eq_spec(&self, other: &Name) -> bool {
        names_eq_ignore_case(self@, other@)
    }
}

/// A label with its ASCII letters in lower case.
pub open spec fn lower_label(l: Seq<u8>) -> Seq<u8> {
    Seq::new(l.len(), |j: int| ascii_lower(l[j]))
}

/// Labels with their ASCII letters in lower case.
pub open spec fn lower_labels(ls: Seq<Seq<u8>>) -> Seq<Seq<u8>> {
    Seq::new(ls.len(), |i: int| lower_label(ls[i]))
}

/// Lower-casing keeps labels well formed.
pub proof fn lemma_lower_labels_wf(ls: Seq<Seq<u8>>)
    requires
        labels_wf(ls),
    ensures
        labels_wf(lower_labels(ls)),
{
    assert forall|i: int| 0 <= i < lower_labels(ls).len() implies label_wf(
        #[trigger] lower_labels(ls)[i],
    ) by {
        assert(label_wf(ls[i]));
    }
}

/// Names that are equal up to case have the same lower-case labels, and
/// lower-casing twice is lower-casing once.
pub proof fn lemma_lower_labels(a: Seq<Seq<u8>>, b: Seq<Seq<u8>>)
    ensures
        names_eq_ignore_case(a, b) ==> lower_labels(a) == lower_labels(b),
        lower_labels(lower_labels(a)) == lower_labels(a),
{
    if names_eq_ignore_case(a, b) {
        assert forall|i: int| 0 <= i < a.len() implies lower_labels(a)[i] == lower_labels(b)[i] by {
            assert(label_eq_ignore_case(a[i], b[i]));
            assert(lower_label(a[i]) =~= lower_label(b[i]));
        }
        assert(lower_labels(a) =~= lower_labels(b));
    }
    assert forall|i: int| 0 <= i < a.len() implies lower_labels(lower_labels(a))[i]
        == lower_labels(a)[i] by {
        assert(lower_label(lower_label(a[i])) =~= lower_label(a[i]));
    }
    assert(lower_labels(lower_labels(a)) =~= lower_labels(a));
}

/// Appends the bytes of `src` to `dst`, ASCII letters in lower case.
pub fn append_lower(dst: &mut Vec<u8>, src: &[u8])
    ensures
        final(dst)@ == old(dst)@ + lower_label(src@),
{
    let mut i: usize = 0;
    let ghost start = dst@;
    while i < src.len()
        invariant
            i <= src@.len(),
            dst@ == start + lower_label(src@).take(i as int),
        decreases src@.len() - i,
    {
        let b = src[i];
        let lb = if 65 <= b && b <= 90 {
            b + 32
        } else {
            b
        };
        dst.push(lb);
        i = i + 1;
        assert(dst@ =~= start + lower_label(src@).take(i as int));
    }
    assert(lower_label(src@).take(i as int) =~= lower_label(src@));
}

impl Clone for Name {
    fn clone(&self) -> (n: Name)
        ensures
            n@ == self@,
    {
        proof {
            use_type_invariant(self);
        }
        let mut labels: Vec<Vec<u8>> = Vec::new();
        let mut i: usize = 0;
        while i < self.labels.len()
            invariant
                i <= self.labels@.len(),
                labels_wf(labels_of(self.labels@)),
                labels_of(labels@) == labels_of(self.labels@).take(i as int),
            decreases self.labels@.len() - i,
        {
            let label = copy_bytes(&self.labels[i]);
            let ghost prev = labels@;
            assert(labels_of(prev).len() == prev.len());
            assert(prev.len() == i);
            labels.push(label);
            assert(labels@ == prev.push(label));
            assert(label@ == self.labels@[i as int]@);
            assert forall|k: int| 0 <= k <= i implies #[trigger] labels_of(labels@)[k]
                == labels_of(self.labels@)[k] by {
                if k < i {
                    assert(labels_of(prev)[k] == labels_of(self.labels@).take(i as int)[k]);
                }
            }
            i = i + 1;
            assert(labels_of(labels@) =~= labels_of(self.labels@).take(i as int));
        }
        assert(labels_of(self.labels@).take(i as int) =~= labels_of(self.labels@));
        Name { labels }
    }
}

/// A copy of the bytes of `v`.
pub fn copy_bytes(v: &Vec<u8>) -> (out: Vec<u8>)
    ensures
        out@ == v@,
{
    let mut out: Vec<u8> = Vec::new();
    let mut i: usize = 0;
    while i < v.len()
        invariant
            i <= v@.len(),
            out@ == v@.take(i as int),
        decreases v@.len() - i,
    {
        out.push(v[i]);
        i = i + 1;
        assert(out@ =~= v@.take(i as int));
    }
    assert(v@.take(i as int) =~= v@);
    out
}

impl Name {
    #[verifier::type_invariant]
    closed spec fn inv(self) -> bool {
        labels_wf(labels_of(self.labels@))
    }

    /// The root name, which has no labels.
    pub fn root() -> (n: Name)
        ensures
            n@ == Seq::<Seq<u8>>::empty(),
    {
        let n = Name { labels: Vec::new() };
        assert(n@ =~= Seq::<Seq<u8>>::empty());
        n
    }

    /// The labels of the name.
    pub fn labels(&self) -> (ls: &Vec<Vec<u8>>)
        ensures
            labels_of(ls@) == self@,
            labels_wf(self@),
    {
        proof {
            use_type_invariant(self);
        }
        &self.labels
    }

    /// The name made of the given labels, or an error naming the length of the
    /// first label that is empty or longer than 63 bytes.
    pub fn from_labels(labels: Vec<Vec<u8>>) -> (res: Result<Name, ProtoError>)
        ensures
            labels_wf(labels_of(labels@)) ==> (res matches Ok(n) && n@ == labels_of(labels@)),
            !labels_wf(labels_of(labels@)) ==> (res matches Err(ProtoError::LabelBytesInvalid {
                len,
            }) && exists|i: int|
                0 <= i < labels@.len() && labels@[i]@.len() == len && !label_wf(labels@[i]@)),
    {
        let mut i: usize = 0;
        while i < labels.len()
            invariant
                i <= labels@.len(),
                forall|j: int| 0 <= j < i ==> label_wf(#[trigger] labels@[j]@),
            decreases labels@.len() - i,
        {
            let len = labels[i].len();
            if len == 0 || len > 63 {
                assert(labels_of(labels@)[i as int] == labels@[i as int]@);
                return Err(ProtoError::LabelBytesInvalid { len });
            }
            i = i + 1;
        }
        let n = Name { labels };
        assert(labels_wf(labels_of(n.labels@)));
        Ok(n)
    }
}

/// Reads the name that starts at `pos`, where the name being read begins at
/// `start`; gives its labels and the index just after it, or the error and
/// the index where reading stopped.
pub fn read_name_at(buf: &[u8], pos: usize, start: usize) -> (res: Result<
    (Vec<Vec<u8>>, usize),
    (ProtoError, usize),
>)
    ensures
        match res {
            Ok((ls, end)) => decode_name(buf@, pos as int, start as int) == Ok::<
                (Seq<Seq<u8>>, int),
                (ProtoError, int),
            >((labels_of(ls@), end as int)),
            Err((e, stop)) => decode_name(buf@, pos as int, start as int) == Err::<
                (Seq<Seq<u8>>, int),
                (ProtoError, int),
            >((e, stop as int)),
        },
    decreases start, buf@.len() - pos,
{
    if pos >= buf.len() {
        return Err((ProtoError::InsufficientBytes, pos));
    }
    let b = buf[pos];
    if b == 0 {
        let ls: Vec<Vec<u8>> = Vec::new();
        assert(labels_of(ls@) =~= Seq::<Seq<u8>>::empty());
        return Ok((ls, pos + 1));
    } else if b < 64 {
        let len = b as usize;
        if buf.len() - pos - 1 < len {
            return Err((ProtoError::InsufficientBytes, pos + 1));
        }
        let label = match read_bytes_at(buf, pos + 1, len) {
            Ok(l) => l,
            Err(e) => return Err((e, pos + 1)),
        };
        match read_name_at(buf, pos + 1 + len, start) {
            Ok((mut rest, end)) => {
                let ghost old_rest = rest@;
                rest.insert(0, label);
                assert(labels_of(rest@) =~= seq![buf@.subrange(pos + 1, pos + 1 + b)]
                    + labels_of(old_rest));
                Ok((rest, end))
            },
            Err(e) => Err(e),
        }
    } else if b >= 192 {
        if buf.len() - pos < 2 {
            return Err((ProtoError::InsufficientBytes, pos));
        }
        let target: usize = (b - 192) as usize * 256 + buf[pos + 1] as usize;
        if target < start {
            match read_name_at(buf, target, target) {
                Ok((ls, _)) => Ok((ls, pos + 2)),
                Err((e, _)) => Err((e, pos + 2)),
            }
        } else {
            Err((ProtoError::PointerNotPriorToLabel { idx: pos, ptr: target as u16 }, pos + 2))
        }
    } else {
        Err((ProtoError::UnrecognizedLabelCode(b), pos))
    }
}

impl Name {
    /// Reads the name that starts at `pos` of a message, following
    /// compression pointers; gives the name and the index just after it, or
    /// the error and the index where reading stopped.
    pub fn read_at(buf: &[u8], pos: usize) -> (res: Result<(Name, usize), (ProtoError, usize)>)
        ensures
            match res {
                Ok((n, end)) => name_at(buf@, pos as int) == Ok::<
                    (Seq<Seq<u8>>, int),
                    (ProtoError, int),
                >((n@, end as int)),
                Err((e, stop)) => name_at(buf@, pos as int) == Err::<
                    (Seq<Seq<u8>>, int),
                    (ProtoError, int),
                >((e, stop as int)),
            },
    {
        match read_name_at(buf, pos, pos) {
            Ok((labels, end)) => {
                proof {
                    lemma_decode_wf(buf@, pos as int, pos as int);
                }
                Ok((Name { labels }, end))
            },
            Err(e) => Err(e),
        }
    }
}


/// The labels of a dotted name written out in bytes, splitting at every dot;
/// `cur` is the label read so far.
pub open spec fn split_dots(t: Seq<u8>, cur: Seq<u8>) -> Seq<Seq<u8>>
    decreases t.len(),
{
    if t.len() == 0 {
        seq![cur]
    } else if t[0] == 46 {
        seq![cur] + split_dots(t.drop_first(), seq![])
    } else {
        split_dots(t.drop_first(), cur.push(t[0]))
    }
}

/// The labels of a dotted name such as `www.example.com`: one final dot is
/// allowed (a fully qualified name), and an empty text or a lone dot is the
/// root.
pub open spec fn dotted_labels(s: Seq<u8>) -> Seq<Seq<u8>> {
    let t = if s.len() > 0 && s.last() == 46 {
        s.drop_last()
    } else {
        s
    };
    if t.len() == 0 {
        seq![]
    } else {
        split_dots(t, seq![])
    }
}

/// Splits the bytes of a dotted name into labels.
fn split_name_bytes(t: &[u8]) -> (labels: Vec<Vec<u8>>)
    requires
        t@.len() > 0,
    ensures
        labels_of(labels@) == split_dots(t@, seq![]),
{
    let mut labels: Vec<Vec<u8>> = Vec::new();
    let mut cur: Vec<u8> = Vec::new();
    let mut i: usize = 0;
    assert(t@.skip(0) =~= t@);
    assert(labels_of(labels@) + split_dots(t@.skip(0), cur@) =~= split_dots(t@, seq![]));
    while i < t.len()
        invariant
            i <= t@.len(),
            labels_of(labels@) + split_dots(t@.skip(i as int), cur@) == split_dots(t@, seq![]),
        decreases t@.len() - i,
    {
        let b = t[i];
        let ghost rest = t@.skip(i as int);
        assert(rest[0] == b);
        assert(rest.drop_first() =~= t@.skip(i + 1));
        let ghost before = labels_of(labels@);
        if b == 46 {
            let done = cur;
            let ghost d = done@;
            labels.push(done);
            cur = Vec::new();
            assert(labels_of(labels@) =~= before.push(d));
            assert(cur@ =~= Seq::<u8>::empty());
            assert(split_dots(rest, d) == seq![d] + split_dots(t@.skip(i + 1), seq![]));
            assert(before + (seq![d] + split_dots(t@.skip(i + 1), cur@)) =~= labels_of(labels@)
                + split_dots(t@.skip(i + 1), cur@));
        } else {
            let ghost c0 = cur@;
            cur.push(b);
            assert(split_dots(rest, c0) == split_dots(t@.skip(i + 1), c0.push(b)));
        }
        i = i + 1;
    }
    let ghost before = labels_of(labels@);
    let ghost c = cur@;
    assert(t@.skip(i as int) =~= Seq::<u8>::empty());
    assert(split_dots(t@.skip(i as int), c) == seq![c]);
    labels.push(cur);
    assert(labels_of(labels@) =~= before.push(c));
    assert(before + seq![c] =~= before.push(c));
    labels
}

impl Name {
    /// The name written as dotted text, such as `www.example.com` or
    /// `example.com.`; an empty or too long label is refused with its length.
    pub fn from_ascii(text: &str) -> (res: Result<Name, ProtoError>)
        ensures
            labels_wf(dotted_labels(text.spec_bytes())) ==> (res matches Ok(n) && n@
                == dotted_labels(text.spec_bytes())),
            !labels_wf(dotted_labels(text.spec_bytes())) ==> (res matches Err(
                ProtoError::LabelBytesInvalid { len },
            ) && exists|i: int|
                0 <= i < dotted_labels(text.spec_bytes()).len() && dotted_labels(
                    text.spec_bytes(),
                )[i].len() == len && !label_wf(dotted_labels(text.spec_bytes())[i])),
    {
        let bytes = text.as_bytes();
        let mut n = bytes.len();
        if n > 0 && bytes[n - 1] == 46 {
            n = n - 1;
        }
        let ghost s = bytes@;
        let ghost t = if s.len() > 0 && s.last() == 46 {
            s.drop_last()
        } else {
            s
        };
        if n == 0 {
            let labels: Vec<Vec<u8>> = Vec::new();
            assert(labels_of(labels@) =~= Seq::<Seq<u8>>::empty());
            return Name::from_labels(labels);
        }
        let mut trimmed: Vec<u8> = Vec::new();
        let mut i: usize = 0;
        while i < n
            invariant
                i <= n <= bytes@.len(),
                trimmed@ == bytes@.take(i as int),
            decreases n - i,
        {
            trimmed.push(bytes[i]);
            i = i + 1;
            assert(trimmed@ =~= bytes@.take(i as int));
        }
        assert(trimmed@ =~= t);
        let labels = split_name_bytes(trimmed.as_slice());
        let ghost lv = labels@;
        let r = Name::from_labels(labels);
        proof {
            if let Err(ProtoError::LabelBytesInvalid { len }) = r {
                if !labels_wf(labels_of(lv)) {
                    let i = choose|i: int|
                        0 <= i < lv.len() && lv[i]@.len() == len && !label_wf(lv[i]@);
                    assert(labels_of(lv)[i] == lv[i]@);
                }
            }
        }
        r
    }
}


impl Name {
    /// Reads a name at the decoder's index, following compression pointers,
    /// and moves the index past it; on an error the index is left where
    /// reading stopped.
    pub fn read(decoder: &mut BinDecoder) -> (res: Result<Name, ProtoError>)
        ensures
            final(decoder).bytes() == old(decoder).bytes(),
            match name_at(old(decoder).bytes(), old(decoder).pos() as int) {
                Ok((ls, end)) => (res matches Ok(n) && n@ == ls) && final(decoder).pos() == end,
                Err((e, stop)) => res == Err::<Name, ProtoError>(e) && final(decoder).pos()
                    == stop,
            },
    {
        match Name::read_at(decoder.buffer(), decoder.index()) {
            Ok((n, end)) => {
                decoder.set_index(end);
                Ok(n)
            },
            Err((e, stop)) => {
                decoder.set_index(stop);
                Err(e)
            },
        }
    }

    /// Writes the name: compressed against the names written before, or
    /// in full and in lower case in canonical mode.
    pub fn emit(&self, encoder: &mut BinEncoder)
        ensures
            (final(encoder).bytes(), final(encoder).pointers()) == emit_name_spec(
                old(encoder).bytes(),
                old(encoder).pointers(),
                self@,
                old(encoder).canonical(),
            ),
            final(encoder).canonical() == old(encoder).canonical(),
            old(encoder).wf() ==> final(encoder).wf(),
            old(encoder).wf() ==> name_at(final(encoder).bytes(), old(encoder).bytes().len() as int)
                == Ok::<(Seq<Seq<u8>>, int), (ProtoError, int)>(
                (written_labels(self@, old(encoder).canonical()), final(encoder).bytes().len() as int),
            ),
    {
        encoder.emit_name(self);
    }
}

} // verus!
