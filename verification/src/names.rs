//! The order on participant identifiers: lexicographic on the bytes of their
//! UTF-8 encoding, the order in which Rust itself compares strings.
use vstd::prelude::*;
use vstd::utf8::encode_utf8;
use vstd::utf8::encode_utf8_decode_utf8;

verus! {

/// `a` and `b` agree on their first `k` bytes.
pub open spec fn common_prefix(a: Seq<u8>, b: Seq<u8>, k: int) -> bool {
    &&& 0 <= k <= a.len()
    &&& k <= b.len()
    &&& forall|j: int| 0 <= j < k ==> a[j] == b[j]
}

/// `a` and `b` agree up to `k`, where `a` either ends or holds the smaller byte.
pub open spec fn precedes_at(a: Seq<u8>, b: Seq<u8>, k: int) -> bool {
    &&& common_prefix(a, b, k)
    &&& k < b.len()
    &&& (k == a.len() || a[k] < b[k])
}

/// `a` comes strictly before `b` in lexicographic order.
pub open spec fn bytes_less(a: Seq<u8>, b: Seq<u8>) -> bool {
    exists|k: int| precedes_at(a, b, k)
}

/// The identifier `a` comes strictly before the identifier `b`.
pub open spec fn precedes(a: Seq<char>, b: Seq<char>) -> bool {
    bytes_less(encode_utf8(a), encode_utf8(b))
}

/// Of two byte strings at most one comes before the other.
pub proof fn lemma_bytes_less_asymmetric(a: Seq<u8>, b: Seq<u8>)
    ensures
        !(bytes_less(a, b) && bytes_less(b, a)),
{
    if bytes_less(a, b) && bytes_less(b, a) {
        let k1 = choose|k: int| precedes_at(a, b, k);
        let k2 = choose|k: int| precedes_at(b, a, k);
        if k1 < k2 {
            assert(b[k1] == a[k1]);
        } else if k2 < k1 {
            assert(a[k2] == b[k2]);
        }
    }
}

/// What comes before something that comes before a third comes before the
/// third.
pub proof fn lemma_bytes_less_transitive(a: Seq<u8>, b: Seq<u8>, c: Seq<u8>)
    requires
        bytes_less(a, b),
        bytes_less(b, c),
    ensures
        bytes_less(a, c),
{
    let k1 = choose|k: int| precedes_at(a, b, k);
    let k2 = choose|k: int| precedes_at(b, c, k);
    let k = if k1 <= k2 {
        k1
    } else {
        k2
    };
    assert forall|j: int| 0 <= j < k implies a[j] == c[j] by {
        assert(a[j] == b[j] && b[j] == c[j]);
    }
    if k1 < k2 {
        assert(b[k1] == c[k1]);
    } else if k2 < k1 {
        assert(a[k2] == b[k2]);
    }
    assert(precedes_at(a, c, k));
}

/// Two different byte strings that agree on their first `i` bytes are ordered
/// one way or the other.
proof fn lemma_bytes_less_total_from(a: Seq<u8>, b: Seq<u8>, i: int)
    requires
        common_prefix(a, b, i),
        a != b,
    ensures
        bytes_less(a, b) || bytes_less(b, a),
    decreases a.len() - i,
{
    if i == a.len() {
        if i == b.len() {
            assert(a =~= b);
        } else {
            assert(precedes_at(a, b, i));
        }
    } else if i == b.len() {
        assert(precedes_at(b, a, i));
    } else if a[i] < b[i] {
        assert(precedes_at(a, b, i));
    } else if b[i] < a[i] {
        assert(precedes_at(b, a, i));
    } else {
        lemma_bytes_less_total_from(a, b, i + 1);
    }
}

/// The order on identifiers is strict: of two identifiers at most one comes
/// before the other, and none comes before itself.
pub proof fn lemma_precedes_asymmetric(a: Seq<char>, b: Seq<char>)
    ensures
        !(precedes(a, b) && precedes(b, a)),
        !precedes(a, a),
{
    lemma_bytes_less_asymmetric(encode_utf8(a), encode_utf8(b));
    lemma_bytes_less_asymmetric(encode_utf8(a), encode_utf8(a));
}

/// The order on identifiers is total: two different identifiers are ordered
/// one way or the other.
pub proof fn lemma_precedes_total(a: Seq<char>, b: Seq<char>)
    requires
        a != b,
    ensures
        precedes(a, b) || precedes(b, a),
{
    encode_utf8_decode_utf8(a);
    encode_utf8_decode_utf8(b);
    lemma_bytes_less_total_from(encode_utf8(a), encode_utf8(b), 0);
}

/// The order on identifiers is transitive.
pub proof fn lemma_precedes_transitive(a: Seq<char>, b: Seq<char>, c: Seq<char>)
    requires
        precedes(a, b),
        precedes(b, c),
    ensures
        precedes(a, c),
{
    lemma_bytes_less_transitive(encode_utf8(a), encode_utf8(b), encode_utf8(c));
}

/// Whether the identifier `a` comes strictly before the identifier `b`.
pub fn name_precedes(a: &String, b: &String) -> (less: bool)
    ensures
        less == precedes(a@, b@),
{
    let x = a.as_str().as_bytes();
    let y = b.as_str().as_bytes();
    let mut i: usize = 0;
    while i < x.len() && i < y.len()
        invariant
            common_prefix(x@, y@, i as int),
            x@ == encode_utf8(a@),
            y@ == encode_utf8(b@),
        decreases x.len() - i,
    {
        if x[i] != y[i] {
            proof {
                lemma_bytes_less_asymmetric(x@, y@);
                if x[i as int] < y[i as int] {
                    assert(precedes_at(x@, y@, i as int));
                } else {
                    assert(precedes_at(y@, x@, i as int));
                }
            }
            return x[i] < y[i];
        }
        i = i + 1;
    }
    proof {
        lemma_bytes_less_asymmetric(x@, y@);
        lemma_bytes_less_asymmetric(x@, x@);
        if x.len() < y.len() {
            assert(precedes_at(x@, y@, i as int));
        } else if y.len() < x.len() {
            assert(precedes_at(y@, x@, i as int));
        } else {
            assert(x@ =~= y@);
        }
    }
    x.len() < y.len()
}

} // verus!
