//! Block hashes: equality and the big-endian order used by every tie-break.

use vstd::prelude::*;

verus! {

/// A block or transaction hash.
pub type BlockHash = [u8; 32];

/// The all-zero hash, the placeholder for "no hash".
pub open spec fn zero_hash() -> BlockHash {
    vstd::array::spec_array_fill_for_copy_type::<u8, 32>(0u8)
}

/// Big-endian (lexicographic) order on byte strings of one length: `a` comes
/// before `b` when the first byte at which they differ is smaller in `a`.
pub open spec fn lex_less(a: Seq<u8>, b: Seq<u8>) -> bool {
    exists|i: int| #[trigger] differ_first_at(a, b, i) && a[i] < b[i]
}

/// `i` is the first position at which `a` and `b` differ.
pub open spec fn differ_first_at(a: Seq<u8>, b: Seq<u8>, i: int) -> bool {
    &&& 0 <= i < a.len()
    &&& i < b.len()
    &&& a[i] != b[i]
    &&& forall|j: int| 0 <= j < i ==> a[j] == b[j]
}

/// No hash comes before itself.
pub proof fn lex_less_irreflexive(a: Seq<u8>)
    ensures
        !lex_less(a, a),
{
}

/// Of two distinct hashes, exactly one comes before the other.
pub proof fn lex_less_total(a: BlockHash, b: BlockHash)
    ensures
        a != b ==> lex_less(a@, b@) || lex_less(b@, a@),
        !(lex_less(a@, b@) && lex_less(b@, a@)),
{
    if lex_less(a@, b@) && lex_less(b@, a@) {
        let i = choose|i: int| #[trigger] differ_first_at(a@, b@, i) && a@[i] < b@[i];
        let j = choose|j: int| #[trigger] differ_first_at(b@, a@, j) && b@[j] < a@[j];
        assert(i == j);
    }
    if a != b {
        assert(!(a =~= b));
        let k = choose|k: int| 0 <= k < 32 && a@[k] != b@[k];
        lemma_first_difference(a@, b@, k);
        let i = choose|i: int| differ_first_at(a@, b@, i);
        assert(differ_first_at(b@, a@, i));
    }
}

/// The order is transitive.
pub proof fn lex_less_transitive(a: BlockHash, b: BlockHash, c: BlockHash)
    requires
        lex_less(a@, b@),
        lex_less(b@, c@),
    ensures
        lex_less(a@, c@),
{
    let i = choose|i: int| #[trigger] differ_first_at(a@, b@, i) && a@[i] < b@[i];
    let j = choose|j: int| #[trigger] differ_first_at(b@, c@, j) && b@[j] < c@[j];
    let k = if i < j {
        i
    } else {
        j
    };
    assert(differ_first_at(a@, c@, k));
}

proof fn lemma_first_difference(a: Seq<u8>, b: Seq<u8>, k: int)
    requires
        a.len() == b.len(),
        0 <= k < a.len(),
        a[k] != b[k],
    ensures
        exists|i: int| differ_first_at(a, b, i),
    decreases k,
{
    if exists|j: int| 0 <= j < k && a[j] != b[j] {
        let j = choose|j: int| 0 <= j < k && a[j] != b[j];
        lemma_first_difference(a, b, j);
    } else {
        assert(differ_first_at(a, b, k));
    }
}

/// The all-zero hash.
pub fn no_hash() -> (hash: BlockHash)
    ensures
        hash == zero_hash(),
{
    [0u8; 32]
}

/// Whether two hashes are the same.
pub fn hash_eq(a: &BlockHash, b: &BlockHash) -> (equal: bool)
    ensures
        equal == (*a == *b),
        equal == (a@ == b@),
{
    let mut i: usize = 0;
    while i < 32
        invariant
            i <= 32,
            forall|j: int| 0 <= j < i ==> a@[j] == b@[j],
        decreases 32 - i,
    {
        if a[i] != b[i] {
            return false;
        }
        i = i + 1;
    }
    assert(*a =~= *b);
    true
}

/// Whether `a` comes before `b` in big-endian order.
pub fn hash_less(a: &BlockHash, b: &BlockHash) -> (less: bool)
    ensures
        less == lex_less(a@, b@),
{
    let mut i: usize = 0;
    while i < 32
        invariant
            i <= 32,
            forall|j: int| 0 <= j < i ==> a@[j] == b@[j],
        decreases 32 - i,
    {
        if a[i] != b[i] {
            assert(differ_first_at(a@, b@, i as int));
            if a[i] < b[i] {
                return true;
            }
            proof {
                lex_less_total(*a, *b);
                assert(differ_first_at(b@, a@, i as int));
            }
            return false;
        }
        i = i + 1;
    }
    proof {
        assert(*a =~= *b);
        lex_less_irreflexive(a@);
    }
    false
}

/// Whether two byte strings are the same.
pub fn bytes_eq(a: &[u8], b: &[u8]) -> (equal: bool)
    ensures
        equal == (a@ == b@),
{
    if a.len() != b.len() {
        return false;
    }
    let mut i: usize = 0;
    while i < a.len()
        invariant
            i <= a.len(),
            a@.len() == b@.len(),
            forall|j: int| 0 <= j < i ==> a@[j] == b@[j],
        decreases a.len() - i,
    {
        if a[i] != b[i] {
            return false;
        }
        i = i + 1;
    }
    assert(a@ =~= b@);
    true
}

} // verus!
