//! The canonical order of record data (RFC 4034, 6.3): by its canonical
//! form, names in full and in lower case, compared as unsigned octet strings
//! in which a missing octet sorts before a zero.
use vstd::prelude::*;
use std::cmp::Ordering;
use crate::record_data::{RData, RDataV, canonical_bytes, names_lowered, lemma_canonical_emit_ignores_case};
use vstd::std_specs::cmp::PartialOrdSpecImpl;
use crate::wire::{lex_sign, compare_bytes, lemma_sign_first_difference, lemma_sign_equal, lemma_sign_flip, lemma_sign_trans, lemma_sign_prefix};

verus! {

/// The lexicographic order of two byte strings, a proper prefix first.
pub open spec fn lex_order(a: Seq<u8>, b: Seq<u8>) -> Ordering {
    let s = lex_sign(a, b);
    if s < 0 {
        Ordering::Less
    } else if s == 0 {
        Ordering::Equal
    } else {
        Ordering::Greater
    }
}

/// The opposite of an ordering.
pub open spec fn flipped(o: Ordering) -> Ordering {
    match o {
        Ordering::Less => Ordering::Greater,
        Ordering::Equal => Ordering::Equal,
        Ordering::Greater => Ordering::Less,
    }
}

/// Two byte strings compare equal exactly when they are equal.
pub proof fn lemma_lex_equal(a: Seq<u8>, b: Seq<u8>)
    ensures
        (lex_order(a, b) == Ordering::Equal) <==> (a == b),
{
    lemma_sign_equal(a, b);
}

/// Swapping the two strings flips the order.
pub proof fn lemma_lex_flip(a: Seq<u8>, b: Seq<u8>)
    ensures
        lex_order(b, a) == flipped(lex_order(a, b)),
{
    lemma_sign_flip(a, b);
}

/// The order is transitive.
pub proof fn lemma_lex_transitive(a: Seq<u8>, b: Seq<u8>, c: Seq<u8>)
    requires
        lex_order(a, b) == Ordering::Less,
        lex_order(b, c) == Ordering::Less,
    ensures
        lex_order(a, c) == Ordering::Less,
{
    lemma_sign_trans(a, b, c);
}

/// A missing octet sorts before any octet: a proper prefix comes first.
pub proof fn lemma_lex_prefix(a: Seq<u8>, b: Seq<u8>)
    requires
        b.len() > 0,
    ensures
        lex_order(a, a + b) == Ordering::Less,
{
    lemma_sign_prefix(a, b);
}


/// Two byte strings are ordered by the first index at which they differ,
/// the octets there compared as unsigned values (0 to 255).
pub proof fn lemma_lex_first_difference(a: Seq<u8>, b: Seq<u8>, k: int)
    requires
        0 <= k < a.len(),
        k < b.len(),
        forall|j: int| 0 <= j < k ==> a[j] == b[j],
        a[k] != b[k],
    ensures
        a[k] < b[k] ==> lex_order(a, b) == Ordering::Less,
        a[k] > b[k] ==> lex_order(a, b) == Ordering::Greater,
{
    lemma_sign_first_difference(a, b, k);
}

/// Record data is ordered by the first octet at which the canonical forms
/// differ, compared as an unsigned value.
pub proof fn lemma_order_first_difference(x: RDataV, y: RDataV, k: int)
    requires
        0 <= k < canonical_bytes(x).len(),
        k < canonical_bytes(y).len(),
        forall|j: int| 0 <= j < k ==> canonical_bytes(x)[j] == canonical_bytes(y)[j],
        canonical_bytes(x)[k] != canonical_bytes(y)[k],
    ensures
        canonical_bytes(x)[k] < canonical_bytes(y)[k] ==> rdata_order(x, y)
            == Ordering::Less,
        canonical_bytes(x)[k] > canonical_bytes(y)[k] ==> rdata_order(x, y)
            == Ordering::Greater,
{
    lemma_sign_first_difference(canonical_bytes(x), canonical_bytes(y), k);
}

/// The canonical order of two pieces of record data: by their canonical
/// forms.
pub open spec fn rdata_order(a: RDataV, b: RDataV) -> Ordering {
    lex_order(canonical_bytes(a), canonical_bytes(b))
}

/// Record data compares equal to other data exactly when their canonical
/// forms are equal; so every piece of data compares equal to itself.
pub proof fn lemma_order_equal(a: RDataV, b: RDataV)
    ensures
        (rdata_order(a, b) == Ordering::Equal) <==> (canonical_bytes(a) == canonical_bytes(b)),
        rdata_order(a, a) == Ordering::Equal,
{
    lemma_sign_equal(canonical_bytes(a), canonical_bytes(b));
    lemma_sign_equal(canonical_bytes(a), canonical_bytes(a));
}

/// Comparing the other way round gives the opposite order.
pub proof fn lemma_order_flip(a: RDataV, b: RDataV)
    ensures
        rdata_order(b, a) == flipped(rdata_order(a, b)),
{
    lemma_sign_flip(canonical_bytes(a), canonical_bytes(b));
}

/// The order is transitive, and data that compares equal compares alike
/// with everything else.
pub proof fn lemma_order_transitive(a: RDataV, b: RDataV, c: RDataV)
    ensures
        rdata_order(a, b) == Ordering::Less && rdata_order(b, c) == Ordering::Less ==> rdata_order(a, c)
            == Ordering::Less,
        rdata_order(a, b) == Ordering::Equal ==> rdata_order(a, c) == rdata_order(b, c),
{
    let (x, y, z) = (canonical_bytes(a), canonical_bytes(b), canonical_bytes(c));
    lemma_sign_equal(x, y);
    if lex_sign(x, y) < 0 && lex_sign(y, z) < 0 {
        lemma_sign_trans(x, y, z);
    }
}

/// The case of the letters in the names of record data does not change its
/// place in the order: data whose names are equal up to case compares
/// equal.
pub proof fn lemma_order_ignores_case(a: RDataV, b: RDataV)
    requires
        names_lowered(a) == names_lowered(b),
    ensures
        rdata_order(a, b) == Ordering::Equal,
{
    lemma_canonical_emit_ignores_case(
        Seq::<u8>::empty(),
        Seq::<(usize, Seq<u8>)>::empty(),
        a,
        b,
    );
    lemma_sign_equal(canonical_bytes(a), canonical_bytes(b));
}

impl RData {
    /// The canonical order of record data (RFC 4034, 6.3): by the canonical
    /// form of the data (RFC 4034, 6.2), names in full and in lower case,
    /// as unsigned octet strings in which a missing octet sorts first.
    pub fn cmp(&self, other: &RData) -> (o: Ordering)
        ensures
            o == rdata_order(self@, other@),
    {
        let a = self.to_canonical_bytes();
        let b = other.to_canonical_bytes();
        let s = compare_bytes(&a, &b);
        if s < 0 {
            Ordering::Less
        } else if s == 0 {
            Ordering::Equal
        } else {
            Ordering::Greater
        }
    }
}

/// The canonical order of record data, which is total: `<` and the other
/// comparisons go by it.
impl PartialOrd for RData {
    fn partial_cmp(&self, other: &RData) -> (o: Option<Ordering>) {
        Some(RData::cmp(self, other))
    }
}

impl PartialOrdSpecImpl for RData {
    open spec fn obeys_partial_cmp_spec() -> bool {
        true
    }

    open spec fn partial_cmp_spec(&self, other: &RData) -> Option<Ordering> {
        Some(rdata_order(self@, other@))
    }
}

} // verus!
