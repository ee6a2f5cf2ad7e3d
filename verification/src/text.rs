//! Comparison of identifiers.
//!
//! Identifiers are compared by the bytes of their UTF-8 encoding, which is
//! the order of `str` in the standard library.

use vstd::prelude::*;
use vstd::string::StringSliceAdditionalSpecFns;
use vstd::utf8::{encode_utf8, encode_utf8_decode_utf8};

verus! {

/// `a` and `b` have the same first `k` bytes.
pub open spec fn agree_before(a: Seq<u8>, b: Seq<u8>, k: int) -> bool {
    &&& 0 <= k <= a.len()
    &&& k <= b.len()
    &&& forall|i: int| 0 <= i < k ==> a[i] == b[i]
}

/// `k` is where `a` falls before `b`: they agree up to `k`, and there `a`
/// ends while `b` goes on, or `a` has the smaller byte.
pub open spec fn falls_before_at(a: Seq<u8>, b: Seq<u8>, k: int) -> bool {
    &&& agree_before(a, b, k)
    &&& k < b.len()
    &&& k < a.len() ==> a[k] < b[k]
}

/// The lexicographic order of byte strings.
pub open spec fn bytes_precede(a: Seq<u8>, b: Seq<u8>) -> bool {
    exists|k: int| falls_before_at(a, b, k)
}

/// The order of identifiers: the lexicographic order of their UTF-8
/// encodings.
pub open spec fn text_precedes(a: Seq<char>, b: Seq<char>) -> bool {
    bytes_precede(encode_utf8(a), encode_utf8(b))
}

/// No byte string precedes itself.
pub proof fn lemma_bytes_irreflexive(a: Seq<u8>)
    ensures
        !bytes_precede(a, a),
{
}

/// The order of byte strings is transitive.
pub proof fn lemma_bytes_transitive(a: Seq<u8>, b: Seq<u8>, c: Seq<u8>)
    requires
        bytes_precede(a, b),
        bytes_precede(b, c),
    ensures
        bytes_precede(a, c),
{
    let k1 = choose|k: int| falls_before_at(a, b, k);
    let k2 = choose|k: int| falls_before_at(b, c, k);
    let k = if k1 <= k2 {
        k1
    } else {
        k2
    };
    assert(falls_before_at(a, c, k));
}

/// Starting from a common prefix of length `k`, two byte strings are equal
/// or one precedes the other.
proof fn lemma_bytes_total_from(a: Seq<u8>, b: Seq<u8>, k: int)
    requires
        agree_before(a, b, k),
    ensures
        bytes_precede(a, b) || a == b || bytes_precede(b, a),
    decreases a.len() - k,
{
    if k == a.len() && k == b.len() {
        assert(a =~= b);
    } else if k == a.len() {
        assert(falls_before_at(a, b, k));
    } else if k == b.len() {
        assert(falls_before_at(b, a, k));
    } else if a[k] < b[k] {
        assert(falls_before_at(a, b, k));
    } else if b[k] < a[k] {
        assert(falls_before_at(b, a, k));
    } else {
        lemma_bytes_total_from(a, b, k + 1);
    }
}

/// Any two byte strings are equal or one precedes the other.
pub proof fn lemma_bytes_total(a: Seq<u8>, b: Seq<u8>)
    ensures
        bytes_precede(a, b) || a == b || bytes_precede(b, a),
{
    lemma_bytes_total_from(a, b, 0);
}

/// Different identifiers have different encodings.
pub proof fn lemma_encoding_identifies_text(a: Seq<char>, b: Seq<char>)
    ensures
        encode_utf8(a) == encode_utf8(b) <==> a == b,
{
    encode_utf8_decode_utf8(a);
    encode_utf8_decode_utf8(b);
}

/// The order of identifiers is a strict total order.
pub proof fn lemma_text_order(a: Seq<char>, b: Seq<char>, c: Seq<char>)
    ensures
        !text_precedes(a, a),
        text_precedes(a, b) && text_precedes(b, c) ==> text_precedes(a, c),
        text_precedes(a, b) || a == b || text_precedes(b, a),
        !(text_precedes(a, b) && text_precedes(b, a)),
{
    let x = encode_utf8(a);
    let y = encode_utf8(b);
    let z = encode_utf8(c);
    lemma_bytes_irreflexive(x);
    if bytes_precede(x, y) && bytes_precede(y, z) {
        lemma_bytes_transitive(x, y, z);
    }
    if bytes_precede(x, y) && bytes_precede(y, x) {
        lemma_bytes_transitive(x, y, x);
    }
    lemma_bytes_total(x, y);
    lemma_encoding_identifies_text(a, b);
}

/// Whether the byte string `a` comes strictly before `b`.
pub fn bytes_before(a: &[u8], b: &[u8]) -> (before: bool)
    ensures
        before == bytes_precede(a@, b@),
{
    let mut i: usize = 0;
    while i < a.len() && i < b.len()
        invariant
            agree_before(a@, b@, i as int),
        decreases a.len() - i,
    {
        if a[i] != b[i] {
            proof {
                if a[i as int] < b[i as int] {
                    assert(falls_before_at(a@, b@, i as int));
                } else {
                    assert(falls_before_at(b@, a@, i as int));
                    if bytes_precede(a@, b@) {
                        lemma_bytes_transitive(a@, b@, a@);
                    }
                }
            }
            return a[i] < b[i];
        }
        i += 1;
    }
    proof {
        if i < b.len() {
            assert(falls_before_at(a@, b@, i as int));
        } else if i < a.len() {
            assert(falls_before_at(b@, a@, i as int));
            if bytes_precede(a@, b@) {
                lemma_bytes_transitive(a@, b@, a@);
            }
        } else {
            assert(a@ =~= b@);
        }
    }
    i < b.len()
}

/// Whether the identifier `a` comes strictly before `b`.
pub fn text_before(a: &str, b: &str) -> (before: bool)
    ensures
        before == text_precedes(a@, b@),
{
    bytes_before(a.as_bytes(), b.as_bytes())
}

/// Whether two byte strings are equal.
pub fn same_bytes(a: &[u8], b: &[u8]) -> (same: bool)
    ensures
        same == (a@ == b@),
{
    if a.len() != b.len() {
        return false;
    }
    let mut i: usize = 0;
    while i < a.len()
        invariant
            a.len() == b.len(),
            forall|j: int| 0 <= j < i ==> a[j] == b[j],
        decreases a.len() - i,
    {
        if a[i] != b[i] {
            return false;
        }
        i += 1;
    }
    assert(a@ =~= b@);
    true
}

/// Whether two strings hold the same text.
pub fn same_text(a: &str, b: &str) -> (same: bool)
    ensures
        same == (a@ == b@),
{
    proof {
        lemma_encoding_identifies_text(a@, b@);
    }
    same_bytes(a.as_bytes(), b.as_bytes())
}

} // verus!
