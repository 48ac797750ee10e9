//! Canonical ordering of hashed owner names.
//!
//! A hashed owner name is compared as the sequence of its bytes. Names that
//! differ only in the case of ASCII letters denote the same hash, so every
//! comparison first folds the lower-case ASCII letters to upper case.

use vstd::prelude::*;
use vstd::string::StringSliceAdditionalSpecFns;
use vstd::utf8::encode_utf8_decode_utf8;

verus! {

/// `a` comes strictly before `b` in bytewise lexicographic order: at the first
/// position where they differ `a` holds the smaller byte, or `a` is a proper
/// prefix of `b`.
pub open spec fn precedes(a: Seq<u8>, b: Seq<u8>) -> bool
    decreases a.len(),
{
    if b.len() == 0 {
        false
    } else if a.len() == 0 {
        true
    } else if a[0] != b[0] {
        a[0] < b[0]
    } else {
        precedes(a.drop_first(), b.drop_first())
    }
}

/// The upper-case form of an ASCII letter; every other byte is left alone.
pub open spec fn upper_byte(b: u8) -> u8 {
    if 97 <= b && b <= 122 {
        (b - 32) as u8
    } else {
        b
    }
}

/// The case-normalised form of a name: each byte replaced by its upper-case form.
pub open spec fn upper(s: Seq<u8>) -> Seq<u8> {
    Seq::new(s.len(), |i: int| upper_byte(s[i]))
}

/// Nothing comes before itself.
pub proof fn lemma_precedes_irreflexive(a: Seq<u8>)
    ensures
        !precedes(a, a),
    decreases a.len(),
{
    if a.len() > 0 {
        lemma_precedes_irreflexive(a.drop_first());
    }
}

/// The order is transitive.
pub proof fn lemma_precedes_transitive(a: Seq<u8>, b: Seq<u8>, c: Seq<u8>)
    requires
        precedes(a, b),
        precedes(b, c),
    ensures
        precedes(a, c),
    decreases a.len(),
{
    if a.len() > 0 && a[0] == b[0] && b[0] == c[0] {
        lemma_precedes_transitive(a.drop_first(), b.drop_first(), c.drop_first());
    }
}

/// Any two byte strings are equal or ordered one way round.
pub proof fn lemma_precedes_total(a: Seq<u8>, b: Seq<u8>)
    ensures
        precedes(a, b) || a == b || precedes(b, a),
    decreases a.len(),
{
    if a.len() > 0 && b.len() > 0 && a[0] == b[0] {
        lemma_precedes_total(a.drop_first(), b.drop_first());
        if a.drop_first() == b.drop_first() {
            assert(a =~= seq![a[0]] + a.drop_first());
            assert(b =~= seq![b[0]] + b.drop_first());
        }
    } else if a.len() == 0 && b.len() == 0 {
        assert(a =~= b);
    }
}

/// No two byte strings are ordered both ways round.
pub proof fn lemma_precedes_asymmetric(a: Seq<u8>, b: Seq<u8>)
    requires
        precedes(a, b),
    ensures
        !precedes(b, a),
{
    if precedes(b, a) {
        lemma_precedes_transitive(a, b, a);
        lemma_precedes_irreflexive(a);
    }
}

/// What does not come after `b` and `b` itself both come before whatever `b`
/// comes before.
pub proof fn lemma_not_after_then_before(a: Seq<u8>, b: Seq<u8>, c: Seq<u8>)
    requires
        !precedes(b, a),
        precedes(b, c),
    ensures
        precedes(a, c),
{
    lemma_precedes_total(a, b);
    if a != b {
        lemma_precedes_transitive(a, b, c);
    }
}

/// Dropping a common prefix of length `k` does not change the order.
pub proof fn lemma_precedes_skip(a: Seq<u8>, b: Seq<u8>, k: int)
    requires
        0 <= k <= a.len(),
        k <= b.len(),
        a.take(k) == b.take(k),
    ensures
        precedes(a, b) == precedes(a.skip(k), b.skip(k)),
    decreases k,
{
    if k > 0 {
        assert(a[0] == a.take(k)[0]);
        assert(b[0] == b.take(k)[0]);
        assert(a.drop_first().take(k - 1) =~= a.take(k).drop_first());
        assert(b.drop_first().take(k - 1) =~= b.take(k).drop_first());
        lemma_precedes_skip(a.drop_first(), b.drop_first(), k - 1);
        assert(a.drop_first().skip(k - 1) =~= a.skip(k));
        assert(b.drop_first().skip(k - 1) =~= b.skip(k));
    } else {
        assert(a.skip(0) =~= a);
        assert(b.skip(0) =~= b);
    }
}

/// Folds one byte to upper case.
pub fn to_upper(b: u8) -> (r: u8)
    ensures
        r == upper_byte(b),
{
    if 97 <= b && b <= 122 {
        b - 32
    } else {
        b
    }
}

/// Tells whether `a` comes strictly before `b` once both are case-normalised.
pub fn canonical_lt(a: &[u8], b: &[u8]) -> (r: bool)
    ensures
        r == precedes(upper(a@), upper(b@)),
{
    let ghost ua = upper(a@);
    let ghost ub = upper(b@);
    let mut i: usize = 0;
    while i < a.len() && i < b.len()
        invariant
            ua == upper(a@),
            ub == upper(b@),
            i <= a@.len(),
            i <= b@.len(),
            ua.take(i as int) == ub.take(i as int),
        decreases a@.len() - i,
    {
        let x = to_upper(a[i]);
        let y = to_upper(b[i]);
        if x != y {
            proof {
                lemma_precedes_skip(ua, ub, i as int);
            }
            return x < y;
        }
        assert(ua.take(i + 1) =~= ua.take(i as int).push(ua[i as int]));
        assert(ub.take(i + 1) =~= ub.take(i as int).push(ub[i as int]));
        i += 1;
    }
    proof {
        lemma_precedes_skip(ua, ub, i as int);
    }
    i < b.len()
}

/// Tells whether `a` and `b` are the same name once both are case-normalised.
pub fn canonical_eq(a: &[u8], b: &[u8]) -> (r: bool)
    ensures
        r == (upper(a@) == upper(b@)),
{
    if a.len() != b.len() {
        return false;
    }
    let mut i: usize = 0;
    while i < a.len()
        invariant
            a@.len() == b@.len(),
            i <= a@.len(),
            upper(a@).take(i as int) == upper(b@).take(i as int),
        decreases a@.len() - i,
    {
        if to_upper(a[i]) != to_upper(b[i]) {
            assert(upper(a@)[i as int] != upper(b@)[i as int]);
            return false;
        }
        assert(upper(a@).take(i + 1) =~= upper(a@).take(i as int).push(upper(a@)[i as int]));
        assert(upper(b@).take(i + 1) =~= upper(b@).take(i as int).push(upper(b@)[i as int]));
        i += 1;
    }
    assert(upper(a@).take(i as int) =~= upper(a@));
    assert(upper(b@).take(i as int) =~= upper(b@));
    true
}

/// Tells whether two texts are the same.
pub fn same_text(a: &str, b: &str) -> (r: bool)
    ensures
        r == (a@ == b@),
{
    let x = a.as_bytes();
    let y = b.as_bytes();
    proof {
        encode_utf8_decode_utf8(a@);
        encode_utf8_decode_utf8(b@);
    }
    if x.len() != y.len() {
        return false;
    }
    let mut i: usize = 0;
    while i < x.len()
        invariant
            x@ == a.spec_bytes(),
            y@ == b.spec_bytes(),
            x@.len() == y@.len(),
            i <= x@.len(),
            x@.take(i as int) == y@.take(i as int),
        decreases x@.len() - i,
    {
        if x[i] != y[i] {
            return false;
        }
        assert(x@.take(i + 1) =~= x@.take(i as int).push(x@[i as int]));
        assert(y@.take(i + 1) =~= y@.take(i as int).push(y@[i as int]));
        i += 1;
    }
    assert(x@.take(i as int) =~= x@);
    assert(y@.take(i as int) =~= y@);
    true
}

} // verus!
