//! The order in which feature names are arranged: byte by byte over their
//! UTF-8 encoding, a proper prefix coming before every extension of it.

use vstd::prelude::*;
use vstd::utf8::*;

verus! {

/// `a` comes strictly before `b` in byte-wise lexicographic order.
pub open spec fn bytes_before(a: Seq<u8>, b: Seq<u8>) -> bool
    decreases a.len(),
{
    if b.len() == 0 {
        false
    } else if a.len() == 0 {
        true
    } else if a[0] != b[0] {
        a[0] < b[0]
    } else {
        bytes_before(a.drop_first(), b.drop_first())
    }
}

/// The feature name `a` comes strictly before `b`: their UTF-8 encodings
/// are compared byte by byte.
pub open spec fn feature_before(a: Seq<char>, b: Seq<char>) -> bool {
    bytes_before(encode_utf8(a), encode_utf8(b))
}

/// No byte string comes before itself.
pub proof fn lemma_bytes_before_irreflexive(a: Seq<u8>)
    ensures
        !bytes_before(a, a),
    decreases a.len(),
{
    if a.len() > 0 {
        lemma_bytes_before_irreflexive(a.drop_first());
    }
}

/// The byte order is transitive.
pub proof fn lemma_bytes_before_transitive(a: Seq<u8>, b: Seq<u8>, c: Seq<u8>)
    requires
        bytes_before(a, b),
        bytes_before(b, c),
    ensures
        bytes_before(a, c),
    decreases a.len(),
{
    if a.len() > 0 && a[0] == b[0] && b[0] == c[0] {
        lemma_bytes_before_transitive(a.drop_first(), b.drop_first(), c.drop_first());
    }
}

/// Of two different byte strings one comes before the other.
pub proof fn lemma_bytes_before_total(a: Seq<u8>, b: Seq<u8>)
    requires
        a != b,
    ensures
        bytes_before(a, b) || bytes_before(b, a),
    decreases a.len(),
{
    if a.len() > 0 && b.len() > 0 && a[0] == b[0] {
        if a.drop_first() == b.drop_first() {
            assert(a =~= seq![a[0]] + a.drop_first());
            assert(b =~= seq![b[0]] + b.drop_first());
        }
        lemma_bytes_before_total(a.drop_first(), b.drop_first());
    } else if a.len() == 0 && b.len() == 0 {
        assert(a =~= b);
    }
}

/// No feature name comes before itself.
pub proof fn lemma_feature_before_irreflexive(a: Seq<char>)
    ensures
        !feature_before(a, a),
{
    lemma_bytes_before_irreflexive(encode_utf8(a));
}

/// The order of feature names is transitive.
pub proof fn lemma_feature_before_transitive(a: Seq<char>, b: Seq<char>, c: Seq<char>)
    requires
        feature_before(a, b),
        feature_before(b, c),
    ensures
        feature_before(a, c),
{
    lemma_bytes_before_transitive(encode_utf8(a), encode_utf8(b), encode_utf8(c));
}

/// Of two different feature names one comes before the other, because
/// different names have different encodings.
pub proof fn lemma_feature_before_total(a: Seq<char>, b: Seq<char>)
    requires
        a != b,
    ensures
        feature_before(a, b) || feature_before(b, a),
{
    encode_utf8_decode_utf8(a);
    encode_utf8_decode_utf8(b);
    lemma_bytes_before_total(encode_utf8(a), encode_utf8(b));
}

/// Two feature names are never each before the other.
pub proof fn lemma_feature_before_asymmetric(a: Seq<char>, b: Seq<char>)
    requires
        feature_before(a, b),
    ensures
        !feature_before(b, a),
{
    if feature_before(b, a) {
        lemma_feature_before_transitive(a, b, a);
        lemma_feature_before_irreflexive(a);
    }
}

/// "Not after" is transitive: if `a` is not after `b` and `b` is not after
/// `c`, then `a` is not after `c`.
pub proof fn lemma_not_after_transitive(a: Seq<char>, b: Seq<char>, c: Seq<char>)
    requires
        !feature_before(b, a),
        !feature_before(c, b),
    ensures
        !feature_before(c, a),
{
    if feature_before(c, a) {
        if a == b {
        } else {
            lemma_feature_before_total(a, b);
            lemma_feature_before_transitive(c, a, b);
        }
    }
}

/// Decides whether `a` comes strictly before `b`.
pub fn string_before(a: &str, b: &str) -> (before: bool)
    ensures
        before == feature_before(a@, b@),
{
    let x = a.as_bytes();
    let y = b.as_bytes();
    let mut i: usize = 0;
    assert(x@.skip(0) =~= x@ && y@.skip(0) =~= y@);
    while i < x.len() && i < y.len()
        invariant
            x@ == encode_utf8(a@),
            y@ == encode_utf8(b@),
            i <= x@.len(),
            i <= y@.len(),
            bytes_before(x@, y@) == bytes_before(x@.skip(i as int), y@.skip(i as int)),
        decreases x@.len() - i,
    {
        if x[i] != y[i] {
            return x[i] < y[i];
        }
        assert(x@.skip(i as int).drop_first() =~= x@.skip(i + 1));
        assert(y@.skip(i as int).drop_first() =~= y@.skip(i + 1));
        i += 1;
    }
    i < y.len()
}

} // verus!
