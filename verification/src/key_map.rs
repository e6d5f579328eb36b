//! Maps keyed by node identity, kept as a list of entries with distinct keys.

use vstd::prelude::*;
use crate::pubkey::{Pubkey, key_eq};

verus! {

/// No key occurs twice among the entries.
pub open spec fn keys_distinct<V>(s: Seq<(Pubkey, V)>) -> bool {
    forall|i: int, j: int| 0 <= i < j < s.len() ==> #[trigger] s[i].0 != #[trigger] s[j].0
}

/// The map that a list of entries stands for: a later entry wins over an earlier one.
pub open spec fn map_of<V>(s: Seq<(Pubkey, V)>) -> Map<Pubkey, V>
    decreases s.len(),
{
    if s.len() == 0 {
        Map::empty()
    } else {
        map_of(s.drop_last()).insert(s.last().0, s.last().1)
    }
}

/// The keys of the entries, in order.
pub open spec fn keys_of<V>(s: Seq<(Pubkey, V)>) -> Seq<Pubkey> {
    s.map_values(|e: (Pubkey, V)| e.0)
}

/// A key is mapped exactly when some entry holds it.
pub proof fn lemma_map_of_dom<V>(s: Seq<(Pubkey, V)>, k: Pubkey)
    ensures
        map_of(s).dom().contains(k) <==> exists|i: int| 0 <= i < s.len() && #[trigger] s[i].0 == k,
    decreases s.len(),
{
    if s.len() > 0 {
        lemma_map_of_dom(s.drop_last(), k);
        if map_of(s).dom().contains(k) && k != s.last().0 {
            let i = choose|i: int| 0 <= i < s.drop_last().len() && #[trigger] s.drop_last()[i].0 == k;
            assert(s[i].0 == k);
        }
        if exists|i: int| 0 <= i < s.len() && #[trigger] s[i].0 == k {
            let i = choose|i: int| 0 <= i < s.len() && #[trigger] s[i].0 == k;
            if i < s.len() - 1 {
                assert(s.drop_last()[i].0 == k);
            }
        }
    }
}

/// With distinct keys, each entry's key is mapped to that entry's value.
pub proof fn lemma_map_of_value<V>(s: Seq<(Pubkey, V)>, i: int)
    requires
        keys_distinct(s),
        0 <= i < s.len(),
    ensures
        map_of(s).dom().contains(s[i].0),
        map_of(s)[s[i].0] == s[i].1,
    decreases s.len(),
{
    lemma_map_of_dom(s, s[i].0);
    if i < s.len() - 1 {
        assert(s.drop_last()[i] == s[i]);
        lemma_map_of_value(s.drop_last(), i);
    }
}

/// With distinct keys, the map has as many keys as there are entries.
pub proof fn lemma_map_of_len<V>(s: Seq<(Pubkey, V)>)
    requires
        keys_distinct(s),
    ensures
        map_of(s).dom().finite(),
        map_of(s).len() == s.len(),
    decreases s.len(),
{
    if s.len() > 0 {
        lemma_map_of_len(s.drop_last());
        lemma_map_of_dom(s.drop_last(), s.last().0);
        if map_of(s.drop_last()).dom().contains(s.last().0) {
            let i = choose|i: int|
                0 <= i < s.drop_last().len() && #[trigger] s.drop_last()[i].0 == s.last().0;
            assert(s[i].0 == s[s.len() - 1].0);
        }
    }
}

/// Replacing the value of an entry updates the map at that entry's key.
pub proof fn lemma_map_of_update<V>(s: Seq<(Pubkey, V)>, i: int, v: V)
    requires
        keys_distinct(s),
        0 <= i < s.len(),
    ensures
        keys_distinct(s.update(i, (s[i].0, v))),
        map_of(s.update(i, (s[i].0, v))) == map_of(s).insert(s[i].0, v),
    decreases s.len(),
{
    let t = s.update(i, (s[i].0, v));
    assert(keys_distinct(t)) by {
        assert forall|a: int, b: int| 0 <= a < b < t.len() implies #[trigger] t[a].0
            != #[trigger] t[b].0 by {
            assert(s[a].0 != s[b].0);
        }
    }
    if i == s.len() - 1 {
        assert(t.drop_last() =~= s.drop_last());
        lemma_map_of_dom(s.drop_last(), s[i].0);
        if map_of(s.drop_last()).dom().contains(s[i].0) {
            let j = choose|j: int| 0 <= j < s.drop_last().len() && #[trigger] s.drop_last()[j].0 == s[i].0;
            assert(s[j].0 == s[i].0);
        }
        assert(map_of(t) =~= map_of(s).insert(s[i].0, v));
    } else {
        assert(t.drop_last() =~= s.drop_last().update(i, (s[i].0, v)));
        assert(s.drop_last()[i] == s[i]);
        lemma_map_of_update(s.drop_last(), i, v);
        assert(s.last().0 != s[i].0);
        assert(map_of(t) =~= map_of(s).insert(s[i].0, v));
    }
}

/// A key is mapped exactly when it is among the keys in order.
pub proof fn lemma_key_seq_contains<V>(m: PubkeyMap<V>, x: Pubkey)
    ensures
        m@.dom().contains(x) <==> m.key_seq().contains(x),
{
    lemma_map_of_dom(m.entry_seq(), x);
    if m.key_seq().contains(x) {
        let i = choose|i: int| 0 <= i < m.key_seq().len() && m.key_seq()[i] == x;
        assert(m.entry_seq()[i].0 == x);
    }
    if m@.dom().contains(x) {
        let i = choose|i: int| 0 <= i < m.entry_seq().len() && #[trigger] m.entry_seq()[i].0 == x;
        assert(m.key_seq()[i] == x);
    }
}

/// The keys in order of a well-formed map have no repeats.
pub proof fn lemma_key_seq_distinct<V>(m: PubkeyMap<V>)
    requires
        m.wf(),
    ensures
        forall|i: int, j: int| 0 <= i < j < m.key_seq().len() ==> #[trigger] m.key_seq()[i] != #[trigger] m.key_seq()[j],
{
    assert forall|i: int, j: int| 0 <= i < j < m.key_seq().len() implies #[trigger] m.key_seq()[i] != #[trigger] m.key_seq()[j] by {
        assert(m.entry_seq()[i].0 != m.entry_seq()[j].0);
    }
}

/// A map from node identities to values, kept as a list of entries in insertion order.
#[derive(Debug, Clone)]
pub struct PubkeyMap<V> {
    entries: Vec<(Pubkey, V)>,
}

/// A set of node identities, kept in insertion order.
pub type PubkeySet = PubkeyMap<()>;

impl<V> PubkeyMap<V> {
    /// The entries, in insertion order.
    pub closed spec fn entry_seq(self) -> Seq<(Pubkey, V)> {
        self.entries@
    }

    /// The keys, in insertion order.
    pub open spec fn key_seq(self) -> Seq<Pubkey> {
        keys_of(self.entry_seq())
    }

    /// No key occurs twice.
    pub open spec fn wf(self) -> bool {
        keys_distinct(self.entry_seq())
    }

    /// The map that the entries stand for.
    pub open spec fn view(&self) -> Map<Pubkey, V> {
        map_of(self.entry_seq())
    }

    /// An empty map.
    pub fn new() -> (m: Self)
        ensures
            m.wf(),
            m.entry_seq() == Seq::<(Pubkey, V)>::empty(),
            m@ == Map::<Pubkey, V>::empty(),
    {
        PubkeyMap { entries: Vec::new() }
    }

    /// The number of keys.
    pub fn len(&self) -> (n: usize)
        requires
            self.wf(),
        ensures
            n == self.entry_seq().len(),
            n == self@.len(),
            self@.dom().finite(),
    {
        proof {
            lemma_map_of_len(self.entries@);
        }
        self.entries.len()
    }

    /// Whether the map is empty.
    pub fn is_empty(&self) -> (b: bool)
        requires
            self.wf(),
        ensures
            b == (self@.len() == 0),
            b == (self.entry_seq().len() == 0),
    {
        proof {
            lemma_map_of_len(self.entries@);
        }
        self.entries.len() == 0
    }

    /// The position of the entry holding `k`, if any.
    pub fn index_of(&self, k: &Pubkey) -> (r: Option<usize>)
        ensures
            match r {
                Some(i) => i < self.entry_seq().len() && self.entry_seq()[i as int].0 == *k,
                None => forall|i: int|
                    0 <= i < self.entry_seq().len() ==> #[trigger] self.entry_seq()[i].0 != *k,
            },
            r is Some <==> self@.dom().contains(*k),
    {
        let mut i: usize = 0;
        while i < self.entries.len()
            invariant
                0 <= i <= self.entries@.len(),
                forall|j: int| 0 <= j < i ==> #[trigger] self.entries@[j].0 != *k,
            decreases self.entries@.len() - i,
        {
            if key_eq(&self.entries[i].0, k) {
                proof {
                    lemma_map_of_dom(self.entries@, *k);
                }
                return Some(i);
            }
            i = i + 1;
        }
        proof {
            lemma_map_of_dom(self.entries@, *k);
        }
        None
    }

    /// Whether `k` is a key of the map.
    pub fn contains_key(&self, k: &Pubkey) -> (b: bool)
        ensures
            b == self@.dom().contains(*k),
    {
        self.index_of(k).is_some()
    }

    /// The value that `k` maps to, if any.
    pub fn get(&self, k: &Pubkey) -> (r: Option<&V>)
        requires
            self.wf(),
        ensures
            match r {
                Some(v) => self@.dom().contains(*k) && *v == self@[*k],
                None => !self@.dom().contains(*k),
            },
    {
        match self.index_of(k) {
            Some(i) => {
                proof {
                    lemma_map_of_value(self.entries@, i as int);
                }
                Some(&self.entries[i].1)
            },
            None => None,
        }
    }

    /// The entry at position `i`, in insertion order.
    pub fn entry_at(&self, i: usize) -> (e: &(Pubkey, V))
        requires
            i < self.entry_seq().len(),
        ensures
            *e == self.entry_seq()[i as int],
    {
        &self.entries[i]
    }

    /// Maps `k` to `v`: an existing entry keeps its place, a new key goes last.
    pub fn insert(&mut self, k: Pubkey, v: V)
        requires
            old(self).wf(),
        ensures
            final(self).wf(),
            final(self)@ == old(self)@.insert(k, v),
            old(self)@.dom().contains(k) ==> keys_of(final(self).entry_seq()) == keys_of(
                old(self).entry_seq(),
            ),
            !old(self)@.dom().contains(k) ==> final(self).entry_seq() == old(self).entry_seq().push(
                (k, v),
            ),
    {
        match self.index_of(&k) {
            Some(i) => {
                proof {
                    lemma_map_of_update(self.entries@, i as int, v);
                }
                let ghost before = self.entries@;
                self.entries.set(i, (k, v));
                assert(keys_of(self.entries@) =~= keys_of(before));
            },
            None => {
                let ghost before = self.entries@;
                self.entries.push((k, v));
                proof {
                    assert(self.entries@.drop_last() =~= before);
                    assert forall|a: int, b: int| 0 <= a < b < self.entries@.len() implies #[trigger] self.entries@[a].0
                        != #[trigger] self.entries@[b].0 by {
                        if b == self.entries@.len() - 1 {
                            assert(before[a].0 != k);
                        } else {
                            assert(before[a].0 != before[b].0);
                        }
                    }
                }
            },
        }
    }

    /// Mutable access to the value at position `i`.
    pub fn value_at_mut(&mut self, i: usize) -> (v: &mut V)
        requires
            i < old(self).entry_seq().len(),
        ensures
            *v == old(self).entry_seq()[i as int].1,
            final(self).entry_seq() == old(self).entry_seq().update(
                i as int,
                (old(self).entry_seq()[i as int].0, *final(v)),
            ),
    {
        &mut self.entries[i].1
    }

    /// Removes every entry.
    pub fn clear(&mut self)
        ensures
            final(self).wf(),
            final(self).entry_seq() == Seq::<(Pubkey, V)>::empty(),
            final(self)@ == Map::<Pubkey, V>::empty(),
    {
        self.entries.clear();
    }
}

/// Every value of a map of maps is well formed.
pub open spec fn inner_wf<V>(m: PubkeyMap<PubkeyMap<V>>) -> bool {
    forall|k: Pubkey| #[trigger] m@.dom().contains(k) ==> m@[k].wf()
}

/// The inner map at `a` after mapping `b` to `v` in it, creating it if absent.
pub open spec fn inner_after_insert<V>(m: Map<Pubkey, PubkeyMap<V>>, a: Pubkey, b: Pubkey, v: V) -> Map<
    Pubkey,
    V,
> {
    if m.dom().contains(a) {
        m[a]@.insert(b, v)
    } else {
        Map::<Pubkey, V>::empty().insert(b, v)
    }
}

/// Maps `b` to `v` in the inner map at `a`, creating that inner map if absent.
pub fn insert_nested<V>(m: &mut PubkeyMap<PubkeyMap<V>>, a: Pubkey, b: Pubkey, v: V)
    requires
        old(m).wf(),
        inner_wf(*old(m)),
    ensures
        final(m).wf(),
        inner_wf(*final(m)),
        final(m)@.dom() == old(m)@.dom().insert(a),
        forall|k: Pubkey| #[trigger] old(m)@.dom().contains(k) && k != a ==> final(m)@[k] == old(m)@[k],
        final(m)@[a]@ == inner_after_insert(old(m)@, a, b, v),
        keys_of(final(m).entry_seq()) == (if old(m)@.dom().contains(a) {
            keys_of(old(m).entry_seq())
        } else {
            keys_of(old(m).entry_seq()).push(a)
        }),
{
    let ghost m0 = m@;
    let idx = match m.index_of(&a) {
        Some(i) => i,
        None => {
            m.insert(a, PubkeyMap::new());
            assert(m.entry_seq()[m.entry_seq().len() - 1].0 == a);
            m.len() - 1
        },
    };
    let ghost m1 = *m;
    proof {
        lemma_map_of_value(m1.entry_seq(), idx as int);
        assert(keys_of(m1.entry_seq()) == (if m0.dom().contains(a) {
            keys_of(old(m).entry_seq())
        } else {
            keys_of(old(m).entry_seq()).push(a)
        })) by {
            if !m0.dom().contains(a) {
                assert(keys_of(m1.entry_seq()) =~= keys_of(old(m).entry_seq()).push(a));
            } else {
                assert(m1 == *old(m));
            }
        }
        assert(m1@[a].wf());
    }
    let inner = m.value_at_mut(idx);
    inner.insert(b, v);
    proof {
        lemma_map_of_update(m1.entry_seq(), idx as int, *inner);
        assert(keys_of(m.entry_seq()) =~= keys_of(m1.entry_seq()));
        assert forall|k: Pubkey| #[trigger] m@.dom().contains(k) implies m@[k].wf() by {
            if k != a {
                assert(m1@.dom().contains(k));
            }
        }
    }
}

} // verus!
