//! Node identities: 32-byte public keys, compared byte by byte.

use vstd::prelude::*;

verus! {

broadcast use vstd::array::group_array_axioms;

/// A 32-byte public key that identifies a gossip node.
#[derive(Clone, Copy, Debug, PartialEq, Eq, Hash, PartialOrd, Ord, Default)]
pub struct Pubkey(pub [u8; 32]);

impl Pubkey {
    /// The key's bytes as a sequence.
    pub open spec fn bytes(self) -> Seq<u8> {
        self.0@
    }

    /// A key made of the given bytes.
    pub fn new_from_array(bytes: [u8; 32]) -> (k: Pubkey)
        ensures
            k.0 == bytes,
    {
        Pubkey(bytes)
    }

    /// The key's bytes.
    pub fn to_bytes(&self) -> (b: [u8; 32])
        ensures
            b == self.0,
    {
        self.0
    }
}

/// `a` precedes `b` in the byte-wise lexicographic order of keys.
pub open spec fn key_lt(a: Pubkey, b: Pubkey) -> bool {
    exists|i: int|
        0 <= i < 32 && a.0@.subrange(0, i) == b.0@.subrange(0, i) && #[trigger] a.0@[i] < b.0@[i]
}

/// `a` precedes or equals `b` in the byte-wise lexicographic order of keys.
pub open spec fn key_le(a: Pubkey, b: Pubkey) -> bool {
    a == b || key_lt(a, b)
}

/// Whether two keys are equal.
pub fn key_eq(a: &Pubkey, b: &Pubkey) -> (r: bool)
    ensures
        r == (*a == *b),
{
    let mut i: usize = 0;
    while i < 32
        invariant
            0 <= i <= 32,
            forall|j: int| 0 <= j < i ==> a.0@[j] == b.0@[j],
        decreases 32 - i,
    {
        if a.0[i] != b.0[i] {
            return false;
        }
        i = i + 1;
    }
    assert(a.0 =~= b.0);
    true
}

/// Whether `a` precedes or equals `b` in the byte-wise lexicographic order.
pub fn key_leq(a: &Pubkey, b: &Pubkey) -> (r: bool)
    ensures
        r == key_le(*a, *b),
{
    let mut i: usize = 0;
    while i < 32
        invariant
            0 <= i <= 32,
            a.0@.subrange(0, i as int) == b.0@.subrange(0, i as int),
        decreases 32 - i,
    {
        if a.0[i] != b.0[i] {
            let r = a.0[i] < b.0[i];
            proof {
                if !r {
                    assert(a.0@ != b.0@);
                    assert forall|j: int|
                        0 <= j < 32 && a.0@.subrange(0, j) == b.0@.subrange(0, j) implies !(
                    #[trigger] a.0@[j] < b.0@[j]) by {
                        if j < i {
                            assert(a.0@[j] == a.0@.subrange(0, i as int)[j]);
                            assert(b.0@[j] == b.0@.subrange(0, i as int)[j]);
                        } else if j > i {
                            assert(a.0@[i as int] == a.0@.subrange(0, j)[i as int]);
                            assert(b.0@[i as int] == b.0@.subrange(0, j)[i as int]);
                        }
                    }
                }
            }
            return r;
        }
        assert(a.0@.subrange(0, i + 1) =~= a.0@.subrange(0, i as int).push(a.0@[i as int]));
        assert(b.0@.subrange(0, i + 1) =~= b.0@.subrange(0, i as int).push(b.0@[i as int]));
        i = i + 1;
    }
    assert(a.0@ =~= a.0@.subrange(0, 32));
    assert(b.0@ =~= b.0@.subrange(0, 32));
    assert(a.0 =~= b.0);
    true
}

/// Whether `k` occurs in `v`.
pub fn vec_contains_key(v: &Vec<Pubkey>, k: &Pubkey) -> (r: bool)
    ensures
        r == v@.contains(*k),
{
    let mut i: usize = 0;
    while i < v.len()
        invariant
            0 <= i <= v@.len(),
            forall|j: int| 0 <= j < i ==> v@[j] != *k,
        decreases v@.len() - i,
    {
        if key_eq(&v[i], k) {
            return true;
        }
        i = i + 1;
    }
    false
}

/// The key order is total.
pub proof fn lemma_key_le_total(a: Pubkey, b: Pubkey)
    ensures
        key_le(a, b) || key_le(b, a),
{
    if a != b {
        assert(!(a.0 =~= b.0));
        let i = choose|i: int| 0 <= i < 32 && #[trigger] a.0[i] != b.0[i];
        lemma_first_difference(a.0@, b.0@, i);
    }
}

/// Two different 32-byte sequences have a first position where they differ.
proof fn lemma_first_difference(s: Seq<u8>, t: Seq<u8>, i: int)
    requires
        s.len() == 32,
        t.len() == 32,
        0 <= i < 32,
        s[i] != t[i],
    ensures
        exists|k: int| 0 <= k < 32 && s.subrange(0, k) == t.subrange(0, k) && #[trigger] s[k] != t[k],
    decreases i,
{
    if forall|j: int| 0 <= j < i ==> #[trigger] s[j] == t[j] {
        assert(s.subrange(0, i) =~= t.subrange(0, i));
    } else {
        let j = choose|j: int| 0 <= j < i && #[trigger] s[j] != t[j];
        lemma_first_difference(s, t, j);
    }
}

/// The key order is transitive.
pub proof fn lemma_key_le_trans(a: Pubkey, b: Pubkey, c: Pubkey)
    requires
        key_le(a, b),
        key_le(b, c),
    ensures
        key_le(a, c),
{
    if a != b && b != c {
        let i = choose|i: int|
            0 <= i < 32 && a.0@.subrange(0, i) == b.0@.subrange(0, i) && #[trigger] a.0@[i]
                < b.0@[i];
        let j = choose|j: int|
            0 <= j < 32 && b.0@.subrange(0, j) == c.0@.subrange(0, j) && #[trigger] b.0@[j]
                < c.0@[j];
        let k = if i < j {
            i
        } else {
            j
        };
        assert(a.0@.subrange(0, k) =~= c.0@.subrange(0, k)) by {
            assert forall|m: int| 0 <= m < k implies a.0@.subrange(0, k)[m] == c.0@.subrange(
                0,
                k,
            )[m] by {
                assert(a.0@.subrange(0, i)[m] == b.0@.subrange(0, i)[m]);
                assert(b.0@.subrange(0, j)[m] == c.0@.subrange(0, j)[m]);
            }
        }
        if i < j {
            assert(b.0@.subrange(0, j)[i] == c.0@.subrange(0, j)[i]);
        } else if j < i {
            assert(a.0@.subrange(0, i)[j] == b.0@.subrange(0, i)[j]);
        }
        assert(a.0@[k] < c.0@[k]);
    }
}

/// The key order is antisymmetric.
pub proof fn lemma_key_le_antisym(a: Pubkey, b: Pubkey)
    requires
        key_le(a, b),
        key_le(b, a),
    ensures
        a == b,
{
    if a != b {
        let i = choose|i: int|
            0 <= i < 32 && a.0@.subrange(0, i) == b.0@.subrange(0, i) && #[trigger] a.0@[i]
                < b.0@[i];
        let j = choose|j: int|
            0 <= j < 32 && b.0@.subrange(0, j) == a.0@.subrange(0, j) && #[trigger] b.0@[j]
                < a.0@[j];
        if i < j {
            assert(b.0@.subrange(0, j)[i] == a.0@.subrange(0, j)[i]);
        } else if j < i {
            assert(a.0@.subrange(0, i)[j] == b.0@.subrange(0, i)[j]);
        }
    }
}

impl crate::sort::TotalOrder for Pubkey {
    open spec fn ord_le(self, other: Self) -> bool {
        key_le(self, other)
    }

    proof fn lemma_total(a: Self, b: Self) {
        lemma_key_le_total(a, b);
    }

    proof fn lemma_trans(a: Self, b: Self, c: Self) {
        lemma_key_le_trans(a, b, c);
    }

    fn leq(&self, other: &Self) -> (r: bool) {
        key_leq(self, other)
    }
}

} // verus!
