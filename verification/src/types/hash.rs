//! 32-byte digests and their byte-wise order.
use vstd::prelude::*;

verus! {

/// A 32-byte digest.
#[derive(Clone, Copy, Debug, Hash, PartialOrd, Ord)]
pub struct Hash(pub [u8; 32]);

impl View for Hash {
    type V = Seq<u8>;

    open spec fn view(&self) -> Seq<u8> {
        self.0@
    }
}

impl PartialEq for Hash {
    fn eq(&self, other: &Self) -> (r: bool) {
        let mut i: usize = 0;
        while i < 32
            invariant
                i <= 32,
                forall|j: int| 0 <= j < i ==> self.0@[j] == other.0@[j],
            decreases 32 - i,
        {
            if self.0[i] != other.0[i] {
                return false;
            }
            i = i + 1;
        }
        proof {
            assert(self.0 =~= other.0);
        }
        true
    }
}

impl vstd::std_specs::cmp::PartialEqSpecImpl for Hash {
    open spec fn obeys_eq_spec() -> bool {
        true
    }

    open spec fn eq_spec(&self, other: &Hash) -> bool {
        *self == *other
    }
}

impl Eq for Hash {
}

/// Two digests are equal exactly when their bytes are.
pub proof fn lemma_hash_eq(a: Hash, b: Hash)
    ensures
        (a == b) <==> (a@ == b@),
{
    if a@ == b@ {
        assert(a.0 =~= b.0);
    }
}

/// The digest whose bytes are `bytes` (32 of them).
pub open spec fn hash_from(bytes: Seq<u8>) -> Hash {
    Hash(choose|a: [u8; 32]| a@ == bytes)
}

/// A digest is the one its bytes describe.
pub proof fn lemma_hash_from(h: Hash)
    ensures
        h == hash_from(h@),
{
    let a = choose|a: [u8; 32]| a@ == h@;
    assert(a@ == h.0@);
    assert(a =~= h.0);
}

/// `a` comes before `b` in byte-wise (lexicographic) order: they agree up to
/// some position, where `a` holds the smaller byte.
pub open spec fn bytes_less(a: Seq<u8>, b: Seq<u8>) -> bool {
    exists|i: int|
        0 <= i < a.len() && i < b.len() && a[i] < b[i] && forall|k: int|
            0 <= k < i ==> #[trigger] a[k] == b[k]
}

/// Byte-wise order is irreflexive.
pub proof fn lemma_bytes_less_irreflexive(a: Seq<u8>)
    ensures
        !bytes_less(a, a),
{
}

/// Byte-wise order is transitive.
pub proof fn lemma_bytes_less_transitive(a: Seq<u8>, b: Seq<u8>, c: Seq<u8>)
    requires
        bytes_less(a, b),
        bytes_less(b, c),
    ensures
        bytes_less(a, c),
{
    let i = choose|i: int|
        0 <= i < a.len() && i < b.len() && a[i] < b[i] && forall|k: int|
            0 <= k < i ==> #[trigger] a[k] == b[k];
    let j = choose|j: int|
        0 <= j < b.len() && j < c.len() && b[j] < c[j] && forall|k: int|
            0 <= k < j ==> #[trigger] b[k] == c[k];
    if i < j {
        assert(b[i] == c[i]);
        assert forall|k: int| 0 <= k < i implies #[trigger] a[k] == c[k] by {
            assert(a[k] == b[k]);
            assert(b[k] == c[k]);
        }
    } else if j < i {
        assert(a[j] == b[j]);
        assert forall|k: int| 0 <= k < j implies #[trigger] a[k] == c[k] by {
            assert(a[k] == b[k]);
            assert(b[k] == c[k]);
        }
    } else {
        assert forall|k: int| 0 <= k < i implies #[trigger] a[k] == c[k] by {
            assert(a[k] == b[k]);
            assert(b[k] == c[k]);
        }
    }
}

/// Two different byte strings of one length are ordered one way or the other.
pub proof fn lemma_bytes_less_total(a: Seq<u8>, b: Seq<u8>)
    requires
        a.len() == b.len(),
    ensures
        a == b || bytes_less(a, b) || bytes_less(b, a),
    decreases a.len(),
{
    if a.len() > 0 {
        if a[0] != b[0] {
            assert(forall|k: int| 0 <= k < 0 ==> #[trigger] a[k] == b[k]);
            if a[0] < b[0] {
                assert(bytes_less(a, b));
            } else {
                assert(bytes_less(b, a));
            }
        } else {
            let a1 = a.drop_first();
            let b1 = b.drop_first();
            lemma_bytes_less_total(a1, b1);
            if a1 == b1 {
                assert(a =~= b) by {
                    assert forall|k: int| 0 <= k < a.len() implies a[k] == b[k] by {
                        if k > 0 {
                            assert(a1[k - 1] == b1[k - 1]);
                        }
                    }
                }
            } else if bytes_less(a1, b1) {
                let i = choose|i: int|
                    0 <= i < a1.len() && i < b1.len() && a1[i] < b1[i] && forall|k: int|
                        0 <= k < i ==> #[trigger] a1[k] == b1[k];
                assert(a[i + 1] < b[i + 1]);
                assert forall|k: int| 0 <= k < i + 1 implies #[trigger] a[k] == b[k] by {
                    if k > 0 {
                        assert(a1[k - 1] == b1[k - 1]);
                    }
                }
                assert(bytes_less(a, b));
            } else {
                let i = choose|i: int|
                    0 <= i < b1.len() && i < a1.len() && b1[i] < a1[i] && forall|k: int|
                        0 <= k < i ==> #[trigger] b1[k] == a1[k];
                assert(b[i + 1] < a[i + 1]);
                assert forall|k: int| 0 <= k < i + 1 implies #[trigger] b[k] == a[k] by {
                    if k > 0 {
                        assert(b1[k - 1] == a1[k - 1]);
                    }
                }
                assert(bytes_less(b, a));
            }
        }
    } else {
        assert(a =~= b);
    }
}

impl Hash {
    /// The all-zero digest.
    pub fn zero() -> (r: Hash)
        ensures
            r@ == Seq::new(32, |i: int| 0u8),
    {
        let r = Hash([0u8; 32]);
        proof {
            assert(r@ =~= Seq::new(32, |i: int| 0u8));
        }
        r
    }

    /// Whether `self` comes strictly before `other` in byte-wise order.
    pub fn less_than(&self, other: &Hash) -> (r: bool)
        ensures
            r == bytes_less(self@, other@),
    {
        let mut i: usize = 0;
        while i < 32
            invariant
                i <= 32,
                forall|k: int| 0 <= k < i ==> #[trigger] self@[k] == other@[k],
            decreases 32 - i,
        {
            if self.0[i] < other.0[i] {
                return true;
            }
            if self.0[i] > other.0[i] {
                proof {
                    if bytes_less(self@, other@) {
                        let j = choose|j: int|
                            0 <= j < self@.len() && j < other@.len() && self@[j] < other@[j]
                                && forall|k: int| 0 <= k < j ==> #[trigger] self@[k] == other@[k];
                        if j < i {
                        } else if j > i {
                            assert(self@[i as int] == other@[i as int]);
                        }
                    }
                }
                return false;
            }
            i = i + 1;
        }
        proof {
            if bytes_less(self@, other@) {
                let j = choose|j: int|
                    0 <= j < self@.len() && j < other@.len() && self@[j] < other@[j] && forall|k: int|
                        0 <= k < j ==> #[trigger] self@[k] == other@[k];
                assert(self@[j] == other@[j]);
            }
        }
        false
    }
}

} // verus!
