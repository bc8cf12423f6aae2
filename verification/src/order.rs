//! The order in which keys are arranged: lexicographic on the bytes of their
//! UTF-8 encoding, case-sensitive and independent of any locale.

use vstd::prelude::*;
use vstd::utf8::{encode_utf8, encode_utf8_decode_utf8};

verus! {

/// Strict lexicographic order on byte strings: the first position at which
/// the two differ decides, and a proper prefix comes before its extensions.
pub open spec fn bytes_before(a: Seq<u8>, b: Seq<u8>) -> bool
    decreases a.len(),
{
    if b.len() == 0 {
        false
    } else if a.len() == 0 {
        true
    } else if a[0] != b[0] {
        a[0] < b[0]
    } else {
        bytes_before(a.drop_first(), b.drop_first())
    }
}

/// Strict order on keys: the order of their UTF-8 encodings.
#[verifier::opaque]
pub open spec fn key_before(a: Seq<char>, b: Seq<char>) -> bool {
    bytes_before(encode_utf8(a), encode_utf8(b))
}

/// `a` and `b` agree on their first `k` bytes, and at position `k` either
/// `a` ends while `b` goes on, or `a` has the smaller byte.
pub open spec fn decided_at(a: Seq<u8>, b: Seq<u8>, k: int) -> bool {
    &&& 0 <= k <= a.len()
    &&& k < b.len()
    &&& a.take(k) == b.take(k)
    &&& k == a.len() || a[k] < b[k]
}

/// `a` comes before `b` exactly where some position decides so.
pub proof fn lemma_bytes_before_is_lexicographic(a: Seq<u8>, b: Seq<u8>)
    ensures
        bytes_before(a, b) <==> exists|k: int| decided_at(a, b, k),
    decreases a.len(),
{
    if b.len() == 0 {
    } else if a.len() == 0 || a[0] != b[0] {
        if bytes_before(a, b) {
            assert(a.take(0) =~= b.take(0));
            assert(decided_at(a, b, 0));
        }
        if exists|k: int| decided_at(a, b, k) {
            let k = choose|k: int| decided_at(a, b, k);
            if k > 0 {
                assert(a.take(k)[0] == b.take(k)[0]);
            }
        }
    } else {
        let (ra, rb) = (a.drop_first(), b.drop_first());
        lemma_bytes_before_is_lexicographic(ra, rb);
        if bytes_before(a, b) {
            let k = choose|k: int| decided_at(ra, rb, k);
            assert(a.take(k + 1) =~= seq![a[0]] + ra.take(k));
            assert(b.take(k + 1) =~= seq![b[0]] + rb.take(k));
            assert(decided_at(a, b, k + 1));
        }
        if exists|k: int| decided_at(a, b, k) {
            let k = choose|k: int| decided_at(a, b, k);
            assert(k > 0);
            assert(ra.take(k - 1) =~= a.take(k).drop_first());
            assert(rb.take(k - 1) =~= b.take(k).drop_first());
            assert(decided_at(ra, rb, k - 1));
        }
    }
}

/// No byte string comes before itself.
pub proof fn lemma_bytes_before_irreflexive(a: Seq<u8>)
    ensures
        !bytes_before(a, a),
    decreases a.len(),
{
    if a.len() > 0 {
        lemma_bytes_before_irreflexive(a.drop_first());
    }
}

/// Of two byte strings at most one comes before the other.
pub proof fn lemma_bytes_before_asymmetric(a: Seq<u8>, b: Seq<u8>)
    ensures
        !(bytes_before(a, b) && bytes_before(b, a)),
    decreases a.len(),
{
    if a.len() > 0 && b.len() > 0 && a[0] == b[0] {
        lemma_bytes_before_asymmetric(a.drop_first(), b.drop_first());
    }
}

/// The order is transitive.
pub proof fn lemma_bytes_before_transitive(a: Seq<u8>, b: Seq<u8>, c: Seq<u8>)
    requires
        bytes_before(a, b),
        bytes_before(b, c),
    ensures
        bytes_before(a, c),
    decreases a.len(),
{
    if a.len() > 0 && a[0] == b[0] && b[0] == c[0] {
        lemma_bytes_before_transitive(a.drop_first(), b.drop_first(), c.drop_first());
    }
}

/// Two byte strings of which neither comes before the other are equal.
pub proof fn lemma_bytes_before_connected(a: Seq<u8>, b: Seq<u8>)
    requires
        !bytes_before(a, b),
        !bytes_before(b, a),
    ensures
        a == b,
    decreases a.len(),
{
    if a.len() > 0 && b.len() > 0 {
        lemma_bytes_before_connected(a.drop_first(), b.drop_first());
        assert(a =~= seq![a[0]] + a.drop_first());
        assert(b =~= seq![b[0]] + b.drop_first());
    } else {
        assert(a =~= b);
    }
}

/// No key comes before itself.
pub proof fn lemma_key_before_irreflexive(a: Seq<char>)
    ensures
        !key_before(a, a),
{
    reveal(key_before);
    lemma_bytes_before_irreflexive(encode_utf8(a));
}

/// Of two keys at most one comes before the other.
pub proof fn lemma_key_before_asymmetric(a: Seq<char>, b: Seq<char>)
    ensures
        !(key_before(a, b) && key_before(b, a)),
{
    reveal(key_before);
    lemma_bytes_before_asymmetric(encode_utf8(a), encode_utf8(b));
}

/// Two keys of which neither comes before the other are the same key.
pub proof fn lemma_key_before_connected(a: Seq<char>, b: Seq<char>)
    requires
        !key_before(a, b),
        !key_before(b, a),
    ensures
        a == b,
{
    reveal(key_before);
    lemma_bytes_before_connected(encode_utf8(a), encode_utf8(b));
    encode_utf8_decode_utf8(a);
    encode_utf8_decode_utf8(b);
}

/// "Does not come after" is transitive: if `a` does not come after `b` and
/// `b` does not come after `c`, then `a` does not come after `c`.
pub proof fn lemma_key_not_after_transitive(a: Seq<char>, b: Seq<char>, c: Seq<char>)
    requires
        !key_before(b, a),
        !key_before(c, b),
    ensures
        !key_before(c, a),
{
    reveal(key_before);
    let (x, y, z) = (encode_utf8(a), encode_utf8(b), encode_utf8(c));
    if bytes_before(z, x) {
        if bytes_before(y, z) {
            lemma_bytes_before_transitive(y, z, x);
        } else {
            lemma_bytes_before_connected(y, z);
        }
    }
}

/// Tells whether `a` comes strictly before `b` in key order.
pub fn key_less(a: &str, b: &str) -> (less: bool)
    ensures
        less == key_before(a@, b@),
{
    let x = a.as_bytes();
    let y = b.as_bytes();
    let mut i: usize = 0;
    assert(x@.skip(0) =~= x@ && y@.skip(0) =~= y@);
    while i < x.len() && i < y.len()
        invariant
            i <= x.len(),
            i <= y.len(),
            x@ == encode_utf8(a@),
            y@ == encode_utf8(b@),
            bytes_before(x@, y@) == bytes_before(x@.skip(i as int), y@.skip(i as int)),
        decreases x.len() - i,
    {
        assert(x@.skip(i as int)[0] == x@[i as int] && y@.skip(i as int)[0] == y@[i as int]);
        if x[i] != y[i] {
            proof {
                reveal(key_before);
            }
            return x[i] < y[i];
        }
        assert(x@.skip(i as int).drop_first() =~= x@.skip(i as int + 1));
        assert(y@.skip(i as int).drop_first() =~= y@.skip(i as int + 1));
        i += 1;
    }
    proof {
        reveal(key_before);
    }
    i < y.len()
}

} // verus!
