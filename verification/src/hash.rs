//! 32-byte hashes and their lexicographic order.

use sha3::Digest;
use vstd::prelude::*;

verus! {

/// Number of bytes in a hash.
pub const HASH_SIZE: usize = 32;

/// A 32-byte digest. Block ids, locator hashes, writer ids and channel tags
/// all have this shape.
pub type Hash = [u8; 32];

/// Result of comparing two hashes.
#[derive(Clone, Copy, Debug, PartialEq, Eq, Structural)]
pub enum Order {
    Less,
    Equal,
    Greater,
}

/// `a` and `b` agree on every byte before position `i` and differ at `i`.
pub open spec fn differ_first_at(a: Hash, b: Hash, i: int) -> bool {
    &&& 0 <= i < 32
    &&& forall|j: int| 0 <= j < i ==> a[j] == b[j]
    &&& a[i] != b[i]
}

/// Strict lexicographic order on hashes: at the first byte where the two
/// differ, `a` holds the smaller one.
pub open spec fn hash_lt(a: Hash, b: Hash) -> bool {
    exists|i: int| #[trigger] differ_first_at(a, b, i) && a[i] < b[i]
}

/// `a` is below `b` or equal to it.
pub open spec fn hash_le(a: Hash, b: Hash) -> bool {
    a == b || hash_lt(a, b)
}

/// Two hashes can differ first at one position only.
pub proof fn lemma_first_difference_unique(a: Hash, b: Hash, i: int, k: int)
    requires
        differ_first_at(a, b, i),
        differ_first_at(b, a, k) || differ_first_at(a, b, k),
    ensures
        i == k,
{
    if i < k {
        assert(a[i] == b[i]);
    } else if k < i {
        assert(a[k] == b[k]);
    }
}

/// No hash is below itself.
pub proof fn lemma_hash_lt_irreflexive(a: Hash)
    ensures
        !hash_lt(a, a),
{
}

/// The order is asymmetric.
pub proof fn lemma_hash_lt_asymmetric(a: Hash, b: Hash)
    requires
        hash_lt(a, b),
    ensures
        !hash_lt(b, a),
        a != b,
{
    let i = choose|i: int| #[trigger] differ_first_at(a, b, i) && a[i] < b[i];
    if hash_lt(b, a) {
        let k = choose|k: int| #[trigger] differ_first_at(b, a, k) && b[k] < a[k];
        lemma_first_difference_unique(a, b, i, k);
    }
}

/// The order is transitive.
pub proof fn lemma_hash_lt_transitive(a: Hash, b: Hash, c: Hash)
    requires
        hash_lt(a, b),
        hash_lt(b, c),
    ensures
        hash_lt(a, c),
{
    let i = choose|i: int| #[trigger] differ_first_at(a, b, i) && a[i] < b[i];
    let k = choose|k: int| #[trigger] differ_first_at(b, c, k) && b[k] < c[k];
    let m = if i <= k { i } else { k };
    assert forall|j: int| 0 <= j < m implies a[j] == c[j] by {
        assert(a[j] == b[j]);
        assert(b[j] == c[j]);
    }
    if i < k {
        assert(b[i] == c[i]);
    } else if k < i {
        assert(a[k] == b[k]);
    }
    assert(differ_first_at(a, c, m) && a[m] < c[m]);
}

/// The order on hashes is total: any two hashes are equal or ordered one way.
pub proof fn law_hash_order_total(a: Hash, b: Hash)
    ensures
        a == b || hash_lt(a, b) || hash_lt(b, a),
{
    if a != b {
        lemma_find_first_difference(a, b, 0);
        let i = choose|i: int| differ_first_at(a, b, i);
        assert(differ_first_at(b, a, i));
    }
}

/// Two hashes that agree on the first `from` bytes are equal or differ first
/// at some later position.
pub proof fn lemma_find_first_difference(a: Hash, b: Hash, from: int)
    requires
        0 <= from <= 32,
        forall|j: int| 0 <= j < from ==> a[j] == b[j],
    ensures
        a == b || exists|i: int| differ_first_at(a, b, i),
    decreases 32 - from,
{
    broadcast use vstd::array::group_array_axioms;

    if from == 32 {
        assert(a@ =~= b@);
        assert(a == b);
    } else if a[from] != b[from] {
        assert(differ_first_at(a, b, from));
    } else {
        lemma_find_first_difference(a, b, from + 1);
    }
}

/// Two hashes with the same bytes are the same hash.
pub proof fn lemma_hash_view_injective(a: Hash, b: Hash)
    requires
        a@ == b@,
    ensures
        a == b,
{
    broadcast use vstd::array::group_array_axioms;

    assert forall|i: int| 0 <= i < 32 implies a[i] == b[i] by {
        assert(a@[i] == b@[i]);
    }
    assert(a =~= b);
}

/// Compares two hashes byte by byte.
pub fn hash_order(a: &Hash, b: &Hash) -> (r: Order)
    ensures
        r == Order::Less <==> hash_lt(*a, *b),
        r == Order::Equal <==> *a == *b,
        r == Order::Greater <==> hash_lt(*b, *a),
{
    broadcast use vstd::array::group_array_axioms;

    let mut i: usize = 0;
    while i < 32
        invariant
            0 <= i <= 32,
            forall|j: int| 0 <= j < i ==> a[j] == b[j],
        decreases 32 - i,
    {
        if a[i] < b[i] {
            proof {
                assert(differ_first_at(*a, *b, i as int));
                lemma_hash_lt_asymmetric(*a, *b);
            }
            return Order::Less;
        }
        if a[i] > b[i] {
            proof {
                assert(differ_first_at(*b, *a, i as int));
                lemma_hash_lt_asymmetric(*b, *a);
            }
            return Order::Greater;
        }
        i = i + 1;
    }
    proof {
        assert(a@ =~= b@);
        assert(*a == *b);
        lemma_hash_lt_irreflexive(*a);
    }
    Order::Equal
}

/// Whether two hashes hold the same bytes.
pub fn hash_eq(a: &Hash, b: &Hash) -> (r: bool)
    ensures
        r == (*a == *b),
{
    hash_order(a, b) == Order::Equal
}

/// The SHA3-256 digest of a byte string, as `sha3::Sha3_256` computes it.
pub uninterp spec fn sha3_256(data: Seq<u8>) -> Seq<u8>;

/// Calls `sha3::Sha3_256::digest` on `data`. The contract gives the 32-byte
/// result its name, `sha3_256(data@)`, and claims nothing else of it.
#[verifier::external_body]
pub(crate) fn sha3_256_digest(data: &[u8]) -> (r: crate::hash::Hash)
    ensures
        r@ == sha3_256(data@),
{
    sha3::Sha3_256::digest(data).into()
}

/// Appends the bytes of `hash` to `buffer`.
pub fn append_hash(buffer: &mut Vec<u8>, hash: &crate::hash::Hash)
    ensures
        final(buffer)@ == old(buffer)@ + hash@,
{
    let mut i: usize = 0;
    while i < 32
        invariant
            0 <= i <= 32,
            buffer@ == old(buffer)@ + hash@.take(i as int),
        decreases 32 - i,
    {
        buffer.push(hash[i]);
        assert(hash@.take(i as int).push(hash@[i as int]) =~= hash@.take(i + 1));
        i = i + 1;
    }
    assert(hash@.take(32) =~= hash@);
}

} // verus!
