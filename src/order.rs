//! The ordering capability that the sort engine is generic over.
use vstd::prelude::*;
use vstd::utf8::encode_utf8;

verus! {

/// A type with a total preorder, decided by `less_eq`, whose values can be duplicated.
pub trait SortKey: Sized {
    /// `self` comes no later than `other`.
    spec fn le(self, other: Self) -> bool;

    proof fn lemma_reflexive(x: Self)
        ensures
            x.le(x),
    ;

    proof fn lemma_transitive(x: Self, y: Self, z: Self)
        requires
            x.le(y),
            y.le(z),
        ensures
            x.le(z),
    ;

    proof fn lemma_total(x: Self, y: Self)
        ensures
            x.le(y) || y.le(x),
    ;

    fn less_eq(&self, other: &Self) -> (r: bool)
        ensures
            r == self.le(*other),
    ;

    fn duplicate(&self) -> (r: Self)
        ensures
            r == *self,
    ;
}

/// Lexicographic order on byte strings: a proper prefix comes first.
pub open spec fn lex_le(a: Seq<u8>, b: Seq<u8>) -> bool
    decreases a.len(),
{
    if a.len() == 0 {
        true
    } else if b.len() == 0 {
        false
    } else if a[0] != b[0] {
        a[0] < b[0]
    } else {
        lex_le(a.drop_first(), b.drop_first())
    }
}

pub proof fn lemma_lex_reflexive(a: Seq<u8>)
    ensures
        lex_le(a, a),
    decreases a.len(),
{
    if a.len() > 0 {
        lemma_lex_reflexive(a.drop_first());
    }
}

pub proof fn lemma_lex_transitive(a: Seq<u8>, b: Seq<u8>, c: Seq<u8>)
    requires
        lex_le(a, b),
        lex_le(b, c),
    ensures
        lex_le(a, c),
    decreases a.len(),
{
    if a.len() > 0 && b.len() > 0 && c.len() > 0 && a[0] == b[0] && b[0] == c[0] {
        lemma_lex_transitive(a.drop_first(), b.drop_first(), c.drop_first());
    }
}

pub proof fn lemma_lex_total(a: Seq<u8>, b: Seq<u8>)
    ensures
        lex_le(a, b) || lex_le(b, a),
    decreases a.len(),
{
    if a.len() > 0 && b.len() > 0 && a[0] == b[0] {
        lemma_lex_total(a.drop_first(), b.drop_first());
    }
}

/// Compares two byte slices lexicographically.
pub fn bytes_le(a: &[u8], b: &[u8]) -> (r: bool)
    ensures
        r == lex_le(a@, b@),
{
    let mut i: usize = 0;
    assert(a@.skip(0) =~= a@);
    assert(b@.skip(0) =~= b@);
    while i < a.len() && i < b.len()
        invariant
            i <= a@.len(),
            i <= b@.len(),
            lex_le(a@, b@) == lex_le(a@.skip(i as int), b@.skip(i as int)),
        decreases a@.len() - i,
    {
        if a[i] != b[i] {
            return a[i] < b[i];
        }
        assert(a@.skip(i as int).drop_first() =~= a@.skip(i + 1));
        assert(b@.skip(i as int).drop_first() =~= b@.skip(i + 1));
        i = i + 1;
    }
    i == a.len()
}

/// Strings compare by their UTF-8 bytes, as `Ord for String` does.
impl SortKey for String {
    open spec fn le(self, other: Self) -> bool {
        lex_le(encode_utf8(self@), encode_utf8(other@))
    }

    proof fn lemma_reflexive(x: Self) {
        lemma_lex_reflexive(encode_utf8(x@));
    }

    proof fn lemma_transitive(x: Self, y: Self, z: Self) {
        lemma_lex_transitive(encode_utf8(x@), encode_utf8(y@), encode_utf8(z@));
    }

    proof fn lemma_total(x: Self, y: Self) {
        lemma_lex_total(encode_utf8(x@), encode_utf8(y@));
    }

    fn less_eq(&self, other: &Self) -> (r: bool) {
        bytes_le(self.as_str().as_bytes(), other.as_str().as_bytes())
    }

    fn duplicate(&self) -> (r: Self) {
        self.clone()
    }
}

impl SortKey for u64 {
    open spec fn le(self, other: Self) -> bool {
        self <= other
    }

    proof fn lemma_reflexive(x: Self) {
    }

    proof fn lemma_transitive(x: Self, y: Self, z: Self) {
    }

    proof fn lemma_total(x: Self, y: Self) {
    }

    fn less_eq(&self, other: &Self) -> (r: bool) {
        *self <= *other
    }

    fn duplicate(&self) -> (r: Self) {
        *self
    }
}

} // verus!
