//! Ids: how they are minted, and the total order over their textual form
//! by which two claims on one spawn slot are settled.

use vstd::prelude::*;
use vstd::utf8::{encode_utf8, encode_utf8_decode_utf8};

verus! {

/// Whether two byte strings agree on their first `k` bytes and the first
/// one goes on with a smaller byte, or ends there while the second goes on.
pub open spec fn departs(a: Seq<u8>, b: Seq<u8>, k: int) -> bool {
    &&& 0 <= k <= a.len()
    &&& k < b.len()
    &&& a.take(k) == b.take(k)
    &&& (k < a.len() ==> a[k] < b[k])
}

/// Whether one byte string sorts before another: it is a proper prefix of
/// the other, or at the first place where the two differ its byte is the
/// smaller one.
pub open spec fn bytes_before(a: Seq<u8>, b: Seq<u8>) -> bool {
    exists|k: int| #[trigger] departs(a, b, k)
}

/// Whether one id sorts before another: the order of their textual forms,
/// byte by byte in UTF-8.
pub open spec fn text_before(a: Seq<char>, b: Seq<char>) -> bool {
    bytes_before(encode_utf8(a), encode_utf8(b))
}

/// Whether one byte string sorts before another.
pub fn sorts_before(a: &[u8], b: &[u8]) -> (before: bool)
    ensures
        before == bytes_before(a@, b@),
{
    let mut i: usize = 0;
    while i < a.len() && i < b.len()
        invariant
            i <= a.len(),
            i <= b.len(),
            a@.take(i as int) == b@.take(i as int),
        decreases a.len() - i,
    {
        if a[i] != b[i] {
            proof {
                if a[i as int] < b[i as int] {
                    assert(departs(a@, b@, i as int));
                } else {
                    assert(departs(b@, a@, i as int));
                    lemma_bytes_asymmetric(a@, b@);
                }
            }
            return a[i] < b[i];
        }
        proof {
            assert(a@.take(i as int + 1) =~= a@.take(i as int).push(a@[i as int]));
            assert(b@.take(i as int + 1) =~= b@.take(i as int).push(b@[i as int]));
        }
        i += 1;
    }
    proof {
        if a.len() < b.len() {
            assert(departs(a@, b@, i as int));
        } else {
            if bytes_before(a@, b@) {
                let k = choose|k: int| #[trigger] departs(a@, b@, k);
                assert(a@.take(i as int)[k] == b@.take(i as int)[k]);
            }
        }
    }
    a.len() < b.len()
}

/// Whether one id sorts before another.
pub fn id_before(a: &String, b: &String) -> (before: bool)
    ensures
        before == text_before(a@, b@),
{
    sorts_before(a.as_str().as_bytes(), b.as_str().as_bytes())
}

/// `uuid::Uuid::new_v4` and the `to_string` of the result: a fresh random
/// id in its textual form, which has 36 characters. Nothing is claimed of
/// which id comes out.
#[verifier::external_body]
pub(crate) fn mint_id() -> (id: String)
    ensures
        id@.len() == 36,
{
    uuid::Uuid::new_v4().to_string()
}

/// Byte strings that agree on their first `k` bytes agree at every place
/// before `k`.
proof fn lemma_agree(a: Seq<u8>, b: Seq<u8>, j: int, k: int)
    requires
        0 <= j < k <= a.len(),
        k <= b.len(),
        a.take(k) == b.take(k),
    ensures
        a[j] == b[j],
{
    assert(a.take(k)[j] == a[j]);
    assert(b.take(k)[j] == b[j]);
}

/// The order is strict: nothing sorts before itself, and of two byte
/// strings at most one sorts before the other.
pub proof fn lemma_bytes_asymmetric(a: Seq<u8>, b: Seq<u8>)
    ensures
        !(bytes_before(a, b) && bytes_before(b, a)),
        !bytes_before(a, a),
{
    if bytes_before(a, b) && bytes_before(b, a) {
        let j = choose|j: int| #[trigger] departs(a, b, j);
        let k = choose|k: int| #[trigger] departs(b, a, k);
        if j < k {
            lemma_agree(b, a, j, k);
        } else if k < j {
            lemma_agree(a, b, k, j);
        }
    }
    if bytes_before(a, a) {
        let j = choose|j: int| #[trigger] departs(a, a, j);
    }
}

/// Two different byte strings that agree on their first `k` bytes depart
/// from each other at some later place.
proof fn lemma_first_departure(a: Seq<u8>, b: Seq<u8>, k: int)
    requires
        a != b,
        0 <= k <= a.len(),
        k <= b.len(),
        a.take(k) == b.take(k),
    ensures
        bytes_before(a, b) || bytes_before(b, a),
    decreases a.len() - k,
{
    if k == a.len() {
        if k == b.len() {
            assert(a.take(k) =~= a);
            assert(b.take(k) =~= b);
        } else {
            assert(departs(a, b, k));
        }
    } else if k == b.len() {
        assert(departs(b, a, k));
    } else if a[k] < b[k] {
        assert(departs(a, b, k));
    } else if b[k] < a[k] {
        assert(departs(b, a, k));
    } else {
        assert(a.take(k + 1) =~= a.take(k).push(a[k]));
        assert(b.take(k + 1) =~= b.take(k).push(b[k]));
        lemma_first_departure(a, b, k + 1);
    }
}

/// The order is total: of two different byte strings one sorts before the
/// other.
pub proof fn lemma_bytes_total(a: Seq<u8>, b: Seq<u8>)
    requires
        a != b,
    ensures
        bytes_before(a, b) || bytes_before(b, a),
{
    assert(a.take(0) =~= b.take(0));
    lemma_first_departure(a, b, 0);
}

/// The order is transitive.
pub proof fn lemma_bytes_transitive(a: Seq<u8>, b: Seq<u8>, c: Seq<u8>)
    requires
        bytes_before(a, b),
        bytes_before(b, c),
    ensures
        bytes_before(a, c),
{
    let j = choose|j: int| #[trigger] departs(a, b, j);
    let k = choose|k: int| #[trigger] departs(b, c, k);
    if j <= k {
        assert(a.take(j) =~= c.take(j)) by {
            assert forall|i: int| 0 <= i < j implies a.take(j)[i] == c.take(j)[i] by {
                assert(a.take(j)[i] == b.take(j)[i]);
                assert(b.take(k)[i] == c.take(k)[i]);
            }
        }
        if j < k {
            assert(b.take(k)[j] == c.take(k)[j]);
        }
        assert(departs(a, c, j));
    } else {
        assert(a.take(k) =~= c.take(k)) by {
            assert forall|i: int| 0 <= i < k implies a.take(k)[i] == c.take(k)[i] by {
                assert(a.take(j)[i] == b.take(j)[i]);
                assert(b.take(k)[i] == c.take(k)[i]);
            }
        }
        assert(a.take(j)[k] == b.take(j)[k]);
        assert(departs(a, c, k));
    }
}

/// The order over ids is a strict total order: no id sorts before itself,
/// of two different ids exactly one sorts before the other, and the order
/// is transitive. Every peer therefore ranks the same two ids alike.
pub proof fn lemma_text_order(a: Seq<char>, b: Seq<char>, c: Seq<char>)
    ensures
        !text_before(a, a),
        !(text_before(a, b) && text_before(b, a)),
        a != b ==> text_before(a, b) || text_before(b, a),
        text_before(a, b) && text_before(b, c) ==> text_before(a, c),
{
    lemma_bytes_asymmetric(encode_utf8(a), encode_utf8(b));
    lemma_bytes_asymmetric(encode_utf8(a), encode_utf8(a));
    if a != b {
        encode_utf8_decode_utf8(a);
        encode_utf8_decode_utf8(b);
        assert(encode_utf8(a) != encode_utf8(b));
        lemma_bytes_total(encode_utf8(a), encode_utf8(b));
    }
    if text_before(a, b) && text_before(b, c) {
        lemma_bytes_transitive(encode_utf8(a), encode_utf8(b), encode_utf8(c));
    }
}

} // verus!
