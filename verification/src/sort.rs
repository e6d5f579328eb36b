//! Sorting by a total preorder.

use vstd::prelude::*;

verus! {

/// A total preorder on values, with an executable comparison.
pub trait TotalOrder: Sized {
    /// `self` may come before `other`.
    spec fn ord_le(self, other: Self) -> bool;

    proof fn lemma_total(a: Self, b: Self)
        ensures
            a.ord_le(b) || b.ord_le(a),
    ;

    proof fn lemma_trans(a: Self, b: Self, c: Self)
        requires
            a.ord_le(b),
            b.ord_le(c),
        ensures
            a.ord_le(c),
    ;

    fn leq(&self, other: &Self) -> (r: bool)
        ensures
            r == self.ord_le(*other),
    ;
}

/// Every element may come before every later one.
pub open spec fn sorted<T: TotalOrder>(s: Seq<T>) -> bool {
    forall|i: int, j: int| 0 <= i < j < s.len() ==> #[trigger] s[i].ord_le(#[trigger] s[j])
}

/// The elements of `v`, rearranged so that they are sorted.
pub fn sort_vec<T: TotalOrder>(v: Vec<T>) -> (r: Vec<T>)
    ensures
        sorted(r@),
        r@.to_multiset() =~= v@.to_multiset(),
        r@.len() == v@.len(),
{
    broadcast use vstd::seq_lib::group_seq_properties;
    broadcast use vstd::multiset::group_multiset_axioms;

    let ghost orig = v@;
    let mut rest = v;
    let mut out: Vec<T> = Vec::new();
    while rest.len() > 0
        invariant
            sorted(out@),
            forall|i: int, j: int|
                0 <= i < out@.len() && 0 <= j < rest@.len() ==> #[trigger] out@[i].ord_le(
                    #[trigger] rest@[j],
                ),
            out@.to_multiset().add(rest@.to_multiset()) =~= orig.to_multiset(),
            out@.len() + rest@.len() == orig.len(),
        decreases rest@.len(),
    {
        let mut m: usize = 0;
        let mut k: usize = 1;
        proof {
            T::lemma_total(rest@[0], rest@[0]);
        }
        while k < rest.len()
            invariant
                0 <= m < k <= rest@.len(),
                forall|j: int| 0 <= j < k ==> #[trigger] rest@[m as int].ord_le(rest@[j]),
            decreases rest@.len() - k,
        {
            if !rest[m].leq(&rest[k]) {
                proof {
                    T::lemma_total(rest@[m as int], rest@[k as int]);
                    assert forall|j: int| 0 <= j < k + 1 implies #[trigger] rest@[k as int].ord_le(
                        rest@[j],
                    ) by {
                        if j < k {
                            T::lemma_trans(rest@[k as int], rest@[m as int], rest@[j]);
                        } else {
                            T::lemma_total(rest@[k as int], rest@[k as int]);
                        }
                    }
                }
                m = k;
            }
            k = k + 1;
        }
        let ghost rest_before = rest@;
        let ghost out_before = out@;
        let x = rest.remove(m);
        proof {
            vstd::seq_lib::to_multiset_remove(rest_before, m as int);
            assert(rest@ == rest_before.remove(m as int));
            assert forall|j: int| 0 <= j < rest@.len() implies #[trigger] x.ord_le(rest@[j]) by {
                if j < m {
                    assert(rest@[j] == rest_before[j]);
                } else {
                    assert(rest@[j] == rest_before[j + 1]);
                }
            }
            assert forall|i: int, j: int|
                0 <= i < out_before.len() && 0 <= j < rest@.len() implies #[trigger] out_before[i].ord_le(
                #[trigger] rest@[j],
            ) by {
                if j < m {
                    assert(rest@[j] == rest_before[j]);
                } else {
                    assert(rest@[j] == rest_before[j + 1]);
                }
            }
        }
        out.push(x);
        proof {
            assert(out@ == out_before.push(x));
            vstd::seq_lib::to_multiset_build(out_before, x);
            rest_before.to_multiset_ensures();
            assert(rest_before[m as int] == x);
            assert(rest_before.contains(x));
            assert(rest_before.to_multiset().count(x) > 0);
            assert(rest_before.to_multiset() =~= rest@.to_multiset().insert(x));
            assert forall|i: int, j: int| 0 <= i < j < out@.len() implies #[trigger] out@[i].ord_le(
                #[trigger] out@[j],
            ) by {
                if j < out_before.len() {
                    assert(out@[i] == out_before[i]);
                    assert(out@[j] == out_before[j]);
                } else {
                    assert(out@[i] == out_before[i]);
                    assert(out_before[i].ord_le(rest_before[m as int]));
                }
            }
            assert forall|i: int, j: int|
                0 <= i < out@.len() && 0 <= j < rest@.len() implies #[trigger] out@[i].ord_le(
                #[trigger] rest@[j],
            ) by {
                if i < out_before.len() {
                    assert(out@[i] == out_before[i]);
                }
            }
        }
    }
    out
}

/// Stakes sorted for the order of `u64` are in increasing numeric order.
pub proof fn lemma_sorted_u64_increasing(t: Seq<u64>)
    requires
        sorted(t),
    ensures
        forall|i: int, j: int| 0 <= i < j < t.len() ==> t[i] <= t[j],
{
    assert forall|i: int, j: int| 0 <= i < j < t.len() implies t[i] <= t[j] by {
        assert(t[i].ord_le(t[j]));
    }
}

impl TotalOrder for u64 {
    open spec fn ord_le(self, other: Self) -> bool {
        self <= other
    }

    proof fn lemma_total(a: Self, b: Self) {
    }

    proof fn lemma_trans(a: Self, b: Self, c: Self) {
    }

    fn leq(&self, other: &Self) -> (r: bool) {
        *self <= *other
    }
}


/// `a` precedes or equals `b` in the byte-wise lexicographic order, in which a proper
/// prefix comes first (the order of `str` and `String`).
pub open spec fn bytes_le(a: Seq<u8>, b: Seq<u8>) -> bool
    decreases a.len(),
{
    if a.len() == 0 {
        true
    } else if b.len() == 0 {
        false
    } else if a[0] != b[0] {
        a[0] < b[0]
    } else {
        bytes_le(a.drop_first(), b.drop_first())
    }
}

/// The byte-wise order is lexicographic: a proper prefix comes first, and otherwise the
/// first byte that differs decides, the smaller byte first.
pub proof fn lemma_bytes_le_lexicographic(a: Seq<u8>, b: Seq<u8>, i: int)
    requires
        0 <= i <= a.len(),
        i <= b.len(),
        a.take(i) == b.take(i),
    ensures
        i == a.len() ==> bytes_le(a, b),
        i == b.len() && i < a.len() ==> !bytes_le(a, b),
        i < a.len() && i < b.len() && a[i] < b[i] ==> bytes_le(a, b) && !bytes_le(b, a),
    decreases i,
{
    if i > 0 {
        assert(a.drop_first().take(i - 1) =~= a.take(i).drop_first());
        assert(b.drop_first().take(i - 1) =~= b.take(i).drop_first());
        assert(a[0] == a.take(i)[0] && b[0] == b.take(i)[0]);
        lemma_bytes_le_lexicographic(a.drop_first(), b.drop_first(), i - 1);
        if i < a.len() {
            assert(a.drop_first()[i - 1] == a[i]);
        }
        if i < b.len() {
            assert(b.drop_first()[i - 1] == b[i]);
        }
    }
}

/// The byte-wise order is total.
pub proof fn lemma_bytes_le_total(a: Seq<u8>, b: Seq<u8>)
    ensures
        bytes_le(a, b) || bytes_le(b, a),
    decreases a.len(),
{
    if a.len() > 0 && b.len() > 0 && a[0] == b[0] {
        lemma_bytes_le_total(a.drop_first(), b.drop_first());
    }
}

/// The byte-wise order is transitive.
pub proof fn lemma_bytes_le_trans(a: Seq<u8>, b: Seq<u8>, c: Seq<u8>)
    requires
        bytes_le(a, b),
        bytes_le(b, c),
    ensures
        bytes_le(a, c),
    decreases a.len(),
{
    if a.len() > 0 && b.len() > 0 && c.len() > 0 && a[0] == b[0] && b[0] == c[0] {
        lemma_bytes_le_trans(a.drop_first(), b.drop_first(), c.drop_first());
    }
}

/// Past a common prefix, the order is decided by what follows it.
proof fn lemma_bytes_le_skip(a: Seq<u8>, b: Seq<u8>, i: int)
    requires
        0 <= i <= a.len(),
        0 <= i <= b.len(),
        a.take(i) == b.take(i),
    ensures
        bytes_le(a, b) == bytes_le(a.skip(i), b.skip(i)),
    decreases i,
{
    if i > 0 {
        assert(a[0] == a.take(i)[0]);
        assert(b[0] == b.take(i)[0]);
        assert(a.drop_first().take(i - 1) =~= b.drop_first().take(i - 1)) by {
            assert forall|j: int| 0 <= j < i - 1 implies #[trigger] a.drop_first().take(i - 1)[j] == b.drop_first().take(i - 1)[j] by {
                assert(a.take(i)[j + 1] == b.take(i)[j + 1]);
                assert(a.take(i)[j + 1] == a[j + 1]);
                assert(b.take(i)[j + 1] == b[j + 1]);
                assert(a.drop_first().take(i - 1)[j] == a[j + 1]);
                assert(b.drop_first().take(i - 1)[j] == b[j + 1]);
            }
        }
        lemma_bytes_le_skip(a.drop_first(), b.drop_first(), i - 1);
        assert(a.drop_first().skip(i - 1) =~= a.skip(i));
        assert(b.drop_first().skip(i - 1) =~= b.skip(i));
    } else {
        assert(a.skip(0) =~= a);
        assert(b.skip(0) =~= b);
    }
}

/// Whether `a` precedes or equals `b` in the byte-wise lexicographic order.
pub fn bytes_leq(a: &Vec<u8>, b: &Vec<u8>) -> (r: bool)
    ensures
        r == bytes_le(a@, b@),
{
    let mut i: usize = 0;
    while i < a.len() && i < b.len()
        invariant
            0 <= i <= a@.len(),
            i <= b@.len(),
            a@.take(i as int) == b@.take(i as int),
        decreases a@.len() - i,
    {
        if a[i] != b[i] {
            proof {
                lemma_bytes_le_skip(a@, b@, i as int);
                assert(a@.skip(i as int)[0] == a@[i as int]);
                assert(b@.skip(i as int)[0] == b@[i as int]);
            }
            return a[i] < b[i];
        }
        assert(a@.take(i + 1) =~= a@.take(i as int).push(a@[i as int]));
        assert(b@.take(i + 1) =~= b@.take(i as int).push(b@[i as int]));
        i = i + 1;
    }
    proof {
        lemma_bytes_le_skip(a@, b@, i as int);
    }
    i == a.len()
}

} // verus!
