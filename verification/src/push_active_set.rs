//! The push active set: for each stake bucket, the gossip nodes that a node
//! pushes messages to, and for each of them the origins that it has pruned.

use vstd::prelude::*;
use indexmap::IndexMap;
use crate::pubkey::{Pubkey, key_eq, vec_contains_key};
use crate::key_map::PubkeyMap;

verus! {

broadcast use vstd::std_specs::bits::axiom_u64_leading_zeros;

/// The number of stake buckets, and so of entries in a push active set.
pub const NUM_PUSH_ACTIVE_SET_ENTRIES: usize = 25;

/// The number of lamports in one SOL.
pub open spec fn lamports_per_sol_spec() -> u64 {
    1_000_000_000
}

/// Calls `solana_sdk::native_token::LAMPORTS_PER_SOL`: the constant is 10^9.
#[verifier::external_body]
fn lamports_per_sol() -> (r: u64)
    ensures
        r == lamports_per_sol_spec(),
{
    solana_sdk::native_token::LAMPORTS_PER_SOL
}

/// The number of binary digits of `x` (0 for 0).
pub open spec fn bit_length(x: nat) -> nat
    decreases x,
{
    if x == 0 {
        0
    } else {
        1 + bit_length(x / 2)
    }
}

/// The bit length of a positive number is the `b` with `2^(b-1) <= x < 2^b`, and that
/// of zero is zero.
pub proof fn lemma_bit_length_bounds(x: nat)
    ensures
        x == 0 <==> bit_length(x) == 0,
        x > 0 ==> vstd::arithmetic::power2::pow2((bit_length(x) - 1) as nat) <= x
            < vstd::arithmetic::power2::pow2(bit_length(x)),
    decreases x,
{
    if x > 0 {
        lemma_bit_length_bounds(x / 2);
        let b = bit_length(x);
        assert(b == 1 + bit_length(x / 2));
        vstd::arithmetic::power2::lemma_pow2_unfold(b);
        if x / 2 == 0 {
            assert(x == 1);
            vstd::arithmetic::power2::lemma2_to64();
        } else {
            vstd::arithmetic::power2::lemma_pow2_unfold((b - 1) as nat);
        }
    }
}

/// A whole number of SOL falls in bucket 0 when it is zero; otherwise in the bucket
/// `b` with `2^(b-1) <= sol < 2^b`, and in the last bucket when that `b` is past it.
pub proof fn lemma_stake_bucket_bounds(stake: u64)
    ensures
        ({
            let sol = (stake / lamports_per_sol_spec()) as nat;
            let b = stake_bucket(Some(stake));
            &&& sol == 0 ==> b == 0
            &&& b < NUM_PUSH_ACTIVE_SET_ENTRIES
            &&& sol > 0 && b < NUM_PUSH_ACTIVE_SET_ENTRIES - 1 ==> vstd::arithmetic::power2::pow2((b - 1) as nat) <= sol
                < vstd::arithmetic::power2::pow2(b)
            &&& sol > 0 && b == NUM_PUSH_ACTIVE_SET_ENTRIES - 1 ==> vstd::arithmetic::power2::pow2((b - 1) as nat) <= sol
        }),
        stake_bucket(None) == 0,
{
    let sol = (stake / lamports_per_sol_spec()) as nat;
    lemma_bit_length_bounds(sol);
    lemma_bit_length_bounds(0);
    if bit_length(sol) > NUM_PUSH_ACTIVE_SET_ENTRIES - 1 {
        vstd::arithmetic::power2::lemma_pow2_strictly_increases(
            (NUM_PUSH_ACTIVE_SET_ENTRIES - 2) as nat,
            (bit_length(sol) - 1) as nat,
        );
    }
}

/// The stake bucket of a stake: the bit length of the whole SOL in it, at most 24.
pub open spec fn stake_bucket(stake: Option<u64>) -> nat {
    let sol = match stake {
        Some(s) => s / lamports_per_sol_spec(),
        None => 0,
    };
    if bit_length(sol as nat) < (NUM_PUSH_ACTIVE_SET_ENTRIES - 1) as nat {
        bit_length(sol as nat)
    } else {
        (NUM_PUSH_ACTIVE_SET_ENTRIES - 1) as nat
    }
}

proof fn lemma_leading_zeros_bit_length(x: u64)
    ensures
        64 - vstd::std_specs::bits::u64_leading_zeros(x) == bit_length(x as nat),
    decreases x,
{
    reveal(vstd::std_specs::bits::u64_leading_zeros);
    if x != 0 {
        lemma_leading_zeros_bit_length(x / 2);
    }
}

/// Maps a stake to its bucket index.
pub fn get_stake_bucket(stake: Option<&u64>) -> (b: usize)
    ensures
        b == stake_bucket(
            match stake {
                Some(s) => Some(*s),
                None => None,
            },
        ),
        b < NUM_PUSH_ACTIVE_SET_ENTRIES,
{
    let lamports = match stake {
        Some(s) => *s,
        None => 0,
    };
    let sol = lamports / lamports_per_sol();
    let zeros = sol.leading_zeros();
    proof {
        lemma_leading_zeros_bit_length(sol);
    }
    let bucket: u32 = u64::BITS - zeros;
    if (bucket as usize) < NUM_PUSH_ACTIVE_SET_ENTRIES - 1 {
        bucket as usize
    } else {
        NUM_PUSH_ACTIVE_SET_ENTRIES - 1
    }
}


/// The outside ordered map that holds an entry's push targets.
#[verifier::external_type_specification]
#[verifier::external_body]
#[verifier::reject_recursive_types(K)]
#[verifier::reject_recursive_types(V)]
#[verifier::reject_recursive_types(S)]
pub struct ExIndexMap<K, V, S>(IndexMap<K, V, S>);

/// What an ordered map of push targets holds: its (key, pruned origins) pairs in order.
pub uninterp spec fn index_map_entries(m: IndexMap<[u8; 32], Vec<Pubkey>>) -> Seq<
    ([u8; 32], Seq<Pubkey>),
>;

/// Calls `IndexMap::new`: the new map holds no pairs.
#[verifier::external_body]
fn index_map_new() -> (m: IndexMap<[u8; 32], Vec<Pubkey>>)
    ensures
        index_map_entries(m) == Seq::<([u8; 32], Seq<Pubkey>)>::empty(),
{
    IndexMap::new()
}

/// Calls `IndexMap::len`: the number of pairs held.
#[verifier::external_body]
fn index_map_len(m: &IndexMap<[u8; 32], Vec<Pubkey>>) -> (n: usize)
    ensures
        n == index_map_entries(*m).len(),
{
    m.len()
}

/// Calls `IndexMap::get_index_of`: the position of a pair whose key equals `key`, or
/// `None` when no pair has that key.
#[verifier::external_body]
fn index_map_get_index_of(m: &IndexMap<[u8; 32], Vec<Pubkey>>, key: &[u8; 32])
    -> (r: Option<usize>)
    ensures
        match r {
            Some(i) => i < index_map_entries(*m).len() && index_map_entries(*m)[i as int].0
                == *key,
            None => forall|i: int|
                0 <= i < index_map_entries(*m).len() ==> #[trigger] index_map_entries(*m)[i].0
                    != *key,
        },
{
    m.get_index_of(key)
}

/// Calls `IndexMap::get_index`: the pair at position `i`, or `None` past the end.
#[verifier::external_body]
fn index_map_get_index(m: &IndexMap<[u8; 32], Vec<Pubkey>>, i: usize)
    -> (r: Option<(&[u8; 32], &Vec<Pubkey>)>)
    ensures
        r is Some <==> i < index_map_entries(*m).len(),
        r matches Some(p) ==> *p.0 == index_map_entries(*m)[i as int].0 && p.1@
            == index_map_entries(*m)[i as int].1,
{
    m.get_index(i)
}

/// Calls `IndexMap::insert`: a pair whose key is already held gets the new value in
/// its place; otherwise the pair goes last.
#[verifier::external_body]
fn index_map_insert(m: &mut IndexMap<[u8; 32], Vec<Pubkey>>, key: [u8; 32], value: Vec<Pubkey>)
    ensures
        forall|i: int|
            0 <= i < index_map_entries(*old(m)).len() && #[trigger] index_map_entries(
                *old(m),
            )[i].0 == key ==> index_map_entries(*final(m)) == index_map_entries(*old(m)).update(
                i,
                (key, value@),
            ),
        (forall|i: int|
            0 <= i < index_map_entries(*old(m)).len() ==> #[trigger] index_map_entries(
                *old(m),
            )[i].0 != key) ==> index_map_entries(*final(m)) == index_map_entries(*old(m)).push(
            (key, value@),
        ),
{
    m.insert(key, value);
}

/// Calls `IndexMap::shift_remove_index(0)`: the first pair leaves and the others keep
/// their order.
#[verifier::external_body]
fn index_map_shift_remove_first(m: &mut IndexMap<[u8; 32], Vec<Pubkey>>)
    ensures
        index_map_entries(*old(m)).len() > 0 ==> index_map_entries(*final(m)) == index_map_entries(
            *old(m),
        ).subrange(1, index_map_entries(*old(m)).len() as int),
        index_map_entries(*old(m)).len() == 0 ==> index_map_entries(*final(m)) == index_map_entries(
            *old(m),
        ),
{
    m.shift_remove_index(0);
}

/// The pairs of an entry: each push target's key and the origins it has pruned.
pub type EntryPairs = Seq<([u8; 32], Seq<Pubkey>)>;

/// No push target occurs twice.
pub open spec fn pairs_distinct(e: EntryPairs) -> bool {
    forall|i: int, j: int| 0 <= i < j < e.len() ==> #[trigger] e[i].0 != #[trigger] e[j].0
}

/// Whether `key` is one of the push targets.
pub open spec fn pairs_contain(e: EntryPairs, key: [u8; 32]) -> bool {
    exists|i: int| 0 <= i < e.len() && #[trigger] e[i].0 == key
}

/// The push targets in order, keeping those that have not pruned `origin`, or all
/// of them when the push is forced.
pub open spec fn unpruned_nodes(e: EntryPairs, origin: Pubkey, force: bool) -> Seq<Pubkey>
    decreases e.len(),
{
    if e.len() == 0 {
        Seq::empty()
    } else {
        let prev = unpruned_nodes(e.drop_last(), origin, force);
        if force || !e.last().1.contains(origin) {
            prev.push(Pubkey(e.last().0))
        } else {
            prev
        }
    }
}

/// The push targets in order, keeping those that have not pruned `origin` and those
/// whose choice in `force` (one per pair, in order) forces the push.
pub open spec fn chosen_nodes(e: EntryPairs, origin: Pubkey, force: Seq<bool>) -> Seq<Pubkey>
    decreases e.len(),
{
    if e.len() == 0 {
        Seq::empty()
    } else {
        let prev = chosen_nodes(e.drop_last(), origin, force.take(e.len() - 1));
        if force[e.len() - 1] || !e.last().1.contains(origin) {
            prev.push(Pubkey(e.last().0))
        } else {
            prev
        }
    }
}

/// Where every target that pruned `origin` gets the same choice, the targets chosen
/// are those of a push forced or not by that choice.
pub proof fn lemma_chosen_uniform(e: EntryPairs, origin: Pubkey, force: Seq<bool>, c: bool)
    requires
        force.len() == e.len(),
        forall|i: int| 0 <= i < e.len() && e[i].1.contains(origin) ==> #[trigger] force[i] == c,
    ensures
        chosen_nodes(e, origin, force) == unpruned_nodes(e, origin, c),
    decreases e.len(),
{
    if e.len() > 0 {
        let f0 = force.take(e.len() - 1);
        assert forall|i: int| 0 <= i < e.drop_last().len() && e.drop_last()[i].1.contains(origin) implies #[trigger] f0[i] == c by {
            assert(e.drop_last()[i] == e[i]);
            assert(f0[i] == force[i]);
        }
        lemma_chosen_uniform(e.drop_last(), origin, f0, c);
    }
}

/// The pairs after `node` prunes `origin`: the origin joins that target's pruned set.
pub open spec fn pairs_after_prune(e: EntryPairs, node: Pubkey, origin: Pubkey) -> EntryPairs {
    Seq::new(
        e.len(),
        |i: int|
            if e[i].0 == node.0 && !e[i].1.contains(origin) {
                (e[i].0, e[i].1.push(origin))
            } else {
                e[i]
            },
    )
}

/// The pairs after offering the candidates in order: while there are at most `size`
/// targets, a candidate that is not yet a target goes last, having pruned itself.
pub open spec fn pairs_filled(e: EntryPairs, cands: Seq<Pubkey>, size: nat) -> EntryPairs
    decreases cands.len(),
{
    if cands.len() == 0 || e.len() > size {
        e
    } else if pairs_contain(e, cands[0].0) {
        pairs_filled(e, cands.drop_first(), size)
    } else {
        pairs_filled(e.push((cands[0].0, seq![cands[0]])), cands.drop_first(), size)
    }
}

/// The pairs after a rotation: fill with the candidates, then keep the last `size`.
pub open spec fn pairs_rotated(e: EntryPairs, cands: Seq<Pubkey>, size: nat) -> EntryPairs {
    let f = pairs_filled(e, cands, size);
    if f.len() > size {
        f.subrange(f.len() - size, f.len() as int)
    } else {
        f
    }
}

/// The candidates of a rotation: the nodes in the order the shuffle gives.
pub open spec fn shuffled_nodes(nodes: Seq<Pubkey>, shuffle: Seq<usize>) -> Seq<Pubkey> {
    Seq::new(shuffle.len(), |j: int| nodes[shuffle[j] as int])
}

/// A copy of a list of keys.
fn copy_keys(v: &Vec<Pubkey>) -> (r: Vec<Pubkey>)
    ensures
        r@ == v@,
{
    let mut r: Vec<Pubkey> = Vec::new();
    let mut i: usize = 0;
    while i < v.len()
        invariant
            0 <= i <= v@.len(),
            r@ == v@.take(i as int),
        decreases v@.len() - i,
    {
        r.push(v[i]);
        assert(v@.take(i + 1) =~= v@.take(i as int).push(v@[i as int]));
        i = i + 1;
    }
    assert(v@.take(v@.len() as int) =~= v@);
    r
}

/// The gossip nodes to push to for one stake bucket, each with the origins it pruned.
pub struct PushActiveSetEntry(IndexMap<[u8; 32], Vec<Pubkey>>);

impl PushActiveSetEntry {
    /// The (target, pruned origins) pairs in order.
    pub closed spec fn pairs(self) -> EntryPairs {
        index_map_entries(self.0)
    }

    /// The push targets in order.
    pub open spec fn targets(self) -> Seq<Pubkey> {
        self.pairs().map_values(|p: ([u8; 32], Seq<Pubkey>)| Pubkey(p.0))
    }

    /// No target occurs twice, and every target has pruned itself.
    pub open spec fn wf(self) -> bool {
        &&& pairs_distinct(self.pairs())
        &&& pairs_self_pruned(self.pairs())
    }

    /// An entry with no targets.
    pub fn new() -> (e: Self)
        ensures
            e.wf(),
            e.pairs() == Seq::<([u8; 32], Seq<Pubkey>)>::empty(),
    {
        PushActiveSetEntry(index_map_new())
    }

    /// The number of targets.
    pub fn len(&self) -> (n: usize)
        ensures
            n == self.pairs().len(),
    {
        index_map_len(&self.0)
    }

    /// The targets in order.
    pub fn keys(&self) -> (ks: Vec<Pubkey>)
        ensures
            ks@ == self.targets(),
    {
        let n = index_map_len(&self.0);
        let mut ks: Vec<Pubkey> = Vec::new();
        let mut i: usize = 0;
        while i < n
            invariant
                n == self.pairs().len(),
                0 <= i <= n,
                ks@ == self.targets().take(i as int),
            decreases n - i,
        {
            match index_map_get_index(&self.0, i) {
                Some((k, _)) => {
                    ks.push(Pubkey(*k));
                },
                None => {},
            }
            assert(self.targets().take(i + 1) =~= self.targets().take(i as int).push(
                self.targets()[i as int],
            ));
            i = i + 1;
        }
        assert(self.targets().take(n as int) =~= self.targets());
        ks
    }

    /// The origins that `node` has pruned, if `node` is a target.
    pub fn pruned_origins(&self, node: &Pubkey) -> (r: Option<Vec<Pubkey>>)
        ensures
            match r {
                Some(v) => exists|i: int|
                    0 <= i < self.pairs().len() && #[trigger] self.pairs()[i].0 == node.0
                        && self.pairs()[i].1 == v@,
                None => !pairs_contain(self.pairs(), node.0),
            },
    {
        match index_map_get_index_of(&self.0, &node.0) {
            Some(i) => match index_map_get_index(&self.0, i) {
                Some((_, v)) => {
                    let r = copy_keys(v);
                    assert(self.pairs()[i as int].0 == node.0 && self.pairs()[i as int].1 == r@);
                    Some(r)
                },
                None => None,
            },
            None => None,
        }
    }

    /// The targets to push a message from `origin` to, in order: those that have not
    /// pruned it, and those that did for which `should_force_push` forces the push. It
    /// is asked only of the targets that pruned `origin`.
    pub fn get_nodes<F: Fn(&Pubkey) -> bool>(&self, origin: &Pubkey, should_force_push: F) -> (r: Vec<Pubkey>)
        requires
            forall|k: Pubkey| should_force_push.requires((&k,)),
        ensures
            exists|force: Seq<bool>|
                #[trigger] chosen_nodes(self.pairs(), *origin, force) == r@ && force.len() == self.pairs().len()
                    && forall|i: int|
                    0 <= i < self.pairs().len() && self.pairs()[i].1.contains(*origin) ==> should_force_push.ensures(
                        (&Pubkey(self.pairs()[i].0),),
                        #[trigger] force[i],
                    ),
    {
        let n = index_map_len(&self.0);
        let mut r: Vec<Pubkey> = Vec::new();
        let ghost mut force: Seq<bool> = Seq::empty();
        let mut i: usize = 0;
        while i < n
            invariant
                n == self.pairs().len(),
                0 <= i <= n,
                forall|k: Pubkey| should_force_push.requires((&k,)),
                force.len() == i,
                r@ == chosen_nodes(self.pairs().take(i as int), *origin, force),
                forall|q: int|
                    0 <= q < i && self.pairs()[q].1.contains(*origin) ==> should_force_push.ensures(
                        (&Pubkey(self.pairs()[q].0),),
                        #[trigger] force[q],
                    ),
            decreases n - i,
        {
            let ghost f0 = force;
            assert(self.pairs().take(i + 1).drop_last() =~= self.pairs().take(i as int));
            match index_map_get_index(&self.0, i) {
                Some((k, v)) => {
                    let key = Pubkey(*k);
                    if !vec_contains_key(v, origin) {
                        r.push(key);
                        proof {
                            force = force.push(false);
                        }
                    } else {
                        let forced = should_force_push(&key);
                        if forced {
                            r.push(key);
                        }
                        proof {
                            force = force.push(forced);
                        }
                    }
                },
                None => {},
            }
            assert(force.take(i as int) =~= f0);
            i = i + 1;
        }
        assert(self.pairs().take(n as int) =~= self.pairs());
        r
    }

    /// Records that `node` pruned `origin`; nothing happens if `node` is no target.
    pub fn prune(&mut self, node: &Pubkey, origin: &Pubkey)
        requires
            old(self).wf(),
        ensures
            final(self).wf(),
            final(self).pairs() == pairs_after_prune(old(self).pairs(), *node, *origin),
    {
        let ghost before = self.pairs();
        proof {
            lemma_prune_keeps_self_pruned(before, *node, *origin);
        }
        match index_map_get_index_of(&self.0, &node.0) {
            Some(i) => {
                let mut origins = match index_map_get_index(&self.0, i) {
                    Some((_, v)) => v.clone(),
                    None => Vec::new(),
                };
                if !vec_contains_key(&origins, origin) {
                    origins.push(*origin);
                    index_map_insert(&mut self.0, node.0, origins);
                    assert(self.pairs() =~= pairs_after_prune(before, *node, *origin)) by {
                        assert forall|j: int| 0 <= j < before.len() && j != i implies !(
                        #[trigger] before[j].0 == node.0) by {
                            assert(before[i as int].0 == node.0);
                        }
                    }
                } else {
                    assert(self.pairs() =~= pairs_after_prune(before, *node, *origin)) by {
                        assert forall|j: int| 0 <= j < before.len() && j != i implies !(
                        #[trigger] before[j].0 == node.0) by {
                            assert(before[i as int].0 == node.0);
                        }
                    }
                }
            },
            None => {
                assert(self.pairs() =~= pairs_after_prune(before, *node, *origin));
            },
        }
    }

    /// Offers the shuffled nodes as new targets while there are at most `size`
    /// targets, then drops the oldest targets until `size` remain.
    pub fn rotate(&mut self, size: usize, nodes: &[Pubkey], shuffle: &[usize])
        requires
            old(self).wf(),
            forall|j: int| 0 <= j < shuffle@.len() ==> #[trigger] shuffle@[j] < nodes@.len(),
        ensures
            final(self).wf(),
            final(self).pairs() == pairs_rotated(
                old(self).pairs(),
                shuffled_nodes(nodes@, shuffle@),
                size as nat,
            ),
    {
        let ghost cands = shuffled_nodes(nodes@, shuffle@);
        let ghost start = self.pairs();
        let ghost target = pairs_filled(self.pairs(), cands, size as nat);
        assert(cands.skip(0) =~= cands);
        let mut j: usize = 0;
        loop
            invariant
                0 <= j <= shuffle@.len(),
                forall|q: int| 0 <= q < shuffle@.len() ==> #[trigger] shuffle@[q] < nodes@.len(),
                cands == shuffled_nodes(nodes@, shuffle@),
                pairs_distinct(self.pairs()),
                pairs_filled(self.pairs(), cands.skip(j as int), size as nat) == target,
            ensures
                pairs_distinct(self.pairs()),
                self.pairs() == target,
            decreases shuffle@.len() - j,
        {
            if j >= shuffle.len() {
                assert(cands.skip(j as int).len() == 0);
                break;
            }
            let node = nodes[shuffle[j]];
            assert(cands.skip(j as int)[0] == node);
            assert(cands.skip(j as int).drop_first() =~= cands.skip(j + 1));
            if index_map_len(&self.0) > size {
                assert(pairs_filled(self.pairs(), cands.skip(j as int), size as nat) == self.pairs());
                break;
            }
            match index_map_get_index_of(&self.0, &node.0) {
                Some(_) => {},
                None => {
                    let ghost before = self.pairs();
                    let mut pruned: Vec<Pubkey> = Vec::new();
                    pruned.push(node);
                    assert(pruned@ =~= seq![node]);
                    index_map_insert(&mut self.0, node.0, pruned);
                    assert(pairs_distinct(self.pairs())) by {
                        assert forall|a: int, b: int| 0 <= a < b < self.pairs().len() implies #[trigger] self.pairs()[a].0
                            != #[trigger] self.pairs()[b].0 by {
                            if b == before.len() {
                                assert(self.pairs()[a] == before[a]);
                            } else {
                                assert(self.pairs()[a] == before[a]);
                                assert(self.pairs()[b] == before[b]);
                            }
                        }
                    }
                },
            }
            j = j + 1;
        }
        while index_map_len(&self.0) > size
            invariant
                pairs_distinct(self.pairs()),
                target.len() >= self.pairs().len(),
                self.pairs() == target.subrange(
                    target.len() - self.pairs().len(),
                    target.len() as int,
                ),
                self.pairs().len() < target.len() ==> self.pairs().len() >= size,
            decreases self.pairs().len(),
        {
            let ghost before = self.pairs();
            index_map_shift_remove_first(&mut self.0);
            assert(self.pairs() =~= target.subrange(
                target.len() - self.pairs().len(),
                target.len() as int,
            ));
            assert(pairs_distinct(self.pairs())) by {
                assert forall|a: int, b: int| 0 <= a < b < self.pairs().len() implies #[trigger] self.pairs()[a].0
                    != #[trigger] self.pairs()[b].0 by {
                    assert(self.pairs()[a] == before[a + 1]);
                    assert(self.pairs()[b] == before[b + 1]);
                }
            }
        }
        proof {
            if target.len() <= size {
                assert(self.pairs() =~= target);
            } else {
                assert(self.pairs().len() == size);
            }
            lemma_rotate_laws(start, cands, size as nat);
        }
    }
}


/// The stake that `stakes` gives `k`, if any.
pub open spec fn stake_of(stakes: Map<Pubkey, u64>, k: Pubkey) -> Option<u64> {
    if stakes.dom().contains(k) {
        Some(stakes[k])
    } else {
        None
    }
}

/// The bucket that node `pubkey` uses for messages from `origin` is the bucket of
/// the smaller of their two stakes, and the bucket of no stake when either is
/// missing.
pub proof fn lemma_push_bucket_smaller_stake(stakes: Map<Pubkey, u64>, pubkey: Pubkey, origin: Pubkey)
    ensures
        stakes.dom().contains(pubkey) && stakes.dom().contains(origin) && stakes[pubkey] <= stakes[origin]
            ==> push_bucket(stakes, pubkey, origin) == stake_bucket(Some(stakes[pubkey])),
        stakes.dom().contains(pubkey) && stakes.dom().contains(origin) && stakes[origin] <= stakes[pubkey]
            ==> push_bucket(stakes, pubkey, origin) == stake_bucket(Some(stakes[origin])),
        !stakes.dom().contains(pubkey) || !stakes.dom().contains(origin) ==> push_bucket(stakes, pubkey, origin)
            == stake_bucket(None),
{
}

/// The smaller of two optional stakes, where a missing stake is the smallest.
pub open spec fn option_min(a: Option<u64>, b: Option<u64>) -> Option<u64> {
    match (a, b) {
        (Some(x), Some(y)) => Some(
            if x <= y {
                x
            } else {
                y
            },
        ),
        _ => None,
    }
}

/// The bucket that a message from `origin` uses at node `pubkey`: that of the
/// smaller of their stakes.
pub open spec fn push_bucket(stakes: Map<Pubkey, u64>, pubkey: Pubkey, origin: Pubkey) -> nat {
    stake_bucket(option_min(stake_of(stakes, pubkey), stake_of(stakes, origin)))
}

/// The entries after `node` prunes each of `origins` at node `pubkey`, in order;
/// `pubkey` itself is never pruned.
pub open spec fn entries_after_prunes(
    v: Seq<EntryPairs>,
    stakes: Map<Pubkey, u64>,
    pubkey: Pubkey,
    node: Pubkey,
    origins: Seq<Pubkey>,
) -> Seq<EntryPairs>
    decreases origins.len(),
{
    if origins.len() == 0 {
        v
    } else {
        let prev = entries_after_prunes(v, stakes, pubkey, node, origins.drop_last());
        let o = origins.last();
        if o == pubkey {
            prev
        } else {
            let k = push_bucket(stakes, pubkey, o) as int;
            prev.update(k, pairs_after_prune(prev[k], node, o))
        }
    }
}

/// The sampling weight of a node in stake bucket `bucket` for the entry of bucket `k`.
pub open spec fn rotation_weight(bucket: nat, k: nat) -> nat {
    let b = if bucket < k {
        bucket
    } else {
        k
    };
    (b + 1) * (b + 1)
}

/// The stake of `k` in `stakes`, if any.
pub fn get_stake<'a>(stakes: &'a PubkeyMap<u64>, k: &Pubkey) -> (r: Option<&'a u64>)
    requires
        stakes.wf(),
    ensures
        match r {
            Some(s) => stake_of(stakes@, *k) == Some(*s),
            None => stake_of(stakes@, *k) is None,
        },
{
    stakes.get(k)
}

/// For each stake bucket, the gossip nodes to push to.
pub struct PushActiveSet(Vec<PushActiveSetEntry>);

impl PushActiveSet {
    /// The pairs of each entry, by stake bucket.
    pub closed spec fn entries(self) -> Seq<EntryPairs> {
        self.0@.map_values(|e: PushActiveSetEntry| e.pairs())
    }

    /// One entry per stake bucket, none with a target twice, every target having pruned
    /// itself.
    pub open spec fn wf(self) -> bool {
        &&& self.entries().len() == NUM_PUSH_ACTIVE_SET_ENTRIES
        &&& forall|k: int| 0 <= k < self.entries().len() ==> pairs_distinct(#[trigger] self.entries()[k])
        &&& forall|k: int| 0 <= k < self.entries().len() ==> pairs_self_pruned(#[trigger] self.entries()[k])
    }

    /// A set with no targets in any bucket.
    pub fn new() -> (s: Self)
        ensures
            s.wf(),
            forall|k: int| 0 <= k < NUM_PUSH_ACTIVE_SET_ENTRIES ==> #[trigger] s.entries()[k]
                == Seq::<([u8; 32], Seq<Pubkey>)>::empty(),
    {
        let mut v: Vec<PushActiveSetEntry> = Vec::new();
        let mut k: usize = 0;
        while k < NUM_PUSH_ACTIVE_SET_ENTRIES
            invariant
                0 <= k <= NUM_PUSH_ACTIVE_SET_ENTRIES,
                v@.len() == k,
                forall|j: int| 0 <= j < k ==> #[trigger] v@[j].pairs() == Seq::<
                    ([u8; 32], Seq<Pubkey>),
                >::empty(),
            decreases NUM_PUSH_ACTIVE_SET_ENTRIES - k,
        {
            v.push(PushActiveSetEntry::new());
            k = k + 1;
        }
        PushActiveSet(v)
    }

    /// The entry of stake bucket `k`.
    pub fn entry(&self, k: usize) -> (e: &PushActiveSetEntry)
        requires
            self.wf(),
            k < NUM_PUSH_ACTIVE_SET_ENTRIES,
        ensures
            e.pairs() == self.entries()[k as int],
            e.wf(),
    {
        &self.0[k]
    }

    /// The entry for messages from `origin` at node `pubkey`.
    fn get_entry(&self, stake: Option<&u64>) -> (e: &PushActiveSetEntry)
        requires
            self.wf(),
        ensures
            e.pairs() == self.entries()[stake_bucket(
                match stake {
                    Some(s) => Some(*s),
                    None => None,
                },
            ) as int],
    {
        &self.0[get_stake_bucket(stake)]
    }

    /// The gossip nodes that node `pubkey` pushes a message from `origin` to: the
    /// targets of the bucket of the smaller of their stakes that have not pruned
    /// `origin`, and those that did for which `should_force_push` forces the push.
    pub fn get_nodes<F: Fn(&Pubkey) -> bool>(
        &self,
        pubkey: &Pubkey,
        origin: &Pubkey,
        should_force_push: F,
        stakes: &PubkeyMap<u64>,
    ) -> (r: Vec<Pubkey>)
        requires
            self.wf(),
            stakes.wf(),
            forall|k: Pubkey| should_force_push.requires((&k,)),
        ensures
            ({
                let e = self.entries()[push_bucket(stakes@, *pubkey, *origin) as int];
                exists|force: Seq<bool>|
                    #[trigger] chosen_nodes(e, *origin, force) == r@ && force.len() == e.len() && forall|i: int|
                        0 <= i < e.len() && e[i].1.contains(*origin) ==> should_force_push.ensures(
                            (&Pubkey(e[i].0),),
                            #[trigger] force[i],
                        )
            }),
    {
        let a = get_stake(stakes, pubkey);
        let b = get_stake(stakes, origin);
        let stake = match (a, b) {
            (Some(x), Some(y)) => if *x <= *y {
                Some(x)
            } else {
                Some(y)
            },
            _ => None,
        };
        let entry = self.get_entry(stake);
        let r = entry.get_nodes(origin, should_force_push);
        proof {
            let e = self.entries()[push_bucket(stakes@, *pubkey, *origin) as int];
            assert(entry.pairs() == e);
            let force = choose|force: Seq<bool>|
                #[trigger] chosen_nodes(entry.pairs(), *origin, force) == r@ && force.len() == entry.pairs().len()
                    && forall|i: int|
                    0 <= i < entry.pairs().len() && entry.pairs()[i].1.contains(*origin) ==> should_force_push.ensures(
                        (&Pubkey(entry.pairs()[i].0),),
                        #[trigger] force[i],
                    );
            assert(chosen_nodes(e, *origin, force) == r@);
        }
        r
    }

    /// Node `pubkey` records that gossip node `node` pruned each of `origins`, in
    /// the bucket that each origin uses; `pubkey` itself is skipped.
    pub fn prune(&mut self, pubkey: &Pubkey, node: &Pubkey, origins: &[Pubkey], stakes: &PubkeyMap<u64>)
        requires
            old(self).wf(),
            stakes.wf(),
        ensures
            final(self).wf(),
            final(self).entries() == entries_after_prunes(
                old(self).entries(),
                stakes@,
                *pubkey,
                *node,
                origins@,
            ),
    {
        let ghost start = self.entries();
        let mut i: usize = 0;
        while i < origins.len()
            invariant
                0 <= i <= origins@.len(),
                self.wf(),
                stakes.wf(),
                self.entries() == entries_after_prunes(
                    start,
                    stakes@,
                    *pubkey,
                    *node,
                    origins@.take(i as int),
                ),
            decreases origins@.len() - i,
        {
            let origin = &origins[i];
            assert(origins@.take(i + 1).drop_last() =~= origins@.take(i as int));
            assert(origins@.take(i + 1).last() == *origin);
            if !crate::pubkey::key_eq(origin, pubkey) {
                let a = get_stake(stakes, pubkey);
                let b = get_stake(stakes, origin);
                let stake = match (a, b) {
                    (Some(x), Some(y)) => if *x <= *y {
                        Some(x)
                    } else {
                        Some(y)
                    },
                    _ => None,
                };
                let k = get_stake_bucket(stake);
                let ghost before = self.entries();
                assert(self.0@[k as int].pairs() == self.entries()[k as int]);
                self.0[k].prune(node, origin);
                assert(self.entries() =~= before.update(
                    k as int,
                    pairs_after_prune(before[k as int], *node, *origin),
                ));
            }
            i = i + 1;
        }
        assert(origins@.take(origins@.len() as int) =~= origins@);
    }

    /// For each bucket `k`, the sampling weight of each of `nodes`: the square of one
    /// more than the smaller of `k` and the node's stake bucket.
    pub fn rotation_weights(nodes: &[Pubkey], stakes: &PubkeyMap<u64>) -> (w: Vec<Vec<u64>>)
        requires
            stakes.wf(),
        ensures
            w@.len() == NUM_PUSH_ACTIVE_SET_ENTRIES,
            forall|k: int|
                0 <= k < NUM_PUSH_ACTIVE_SET_ENTRIES ==> (#[trigger] w@[k])@.len() == nodes@.len(),
            forall|k: int, i: int|
                0 <= k < NUM_PUSH_ACTIVE_SET_ENTRIES && 0 <= i < nodes@.len() ==> #[trigger] w@[k]@[i]
                    == rotation_weight(stake_bucket(stake_of(stakes@, nodes@[i])), k as nat),
            forall|k: int, i: int|
                0 <= k < NUM_PUSH_ACTIVE_SET_ENTRIES && 0 <= i < nodes@.len() ==> {
                    let b = stake_bucket(stake_of(stakes@, nodes@[i]));
                    &&& b <= k ==> #[trigger] w@[k]@[i] == (b + 1) * (b + 1)
                    &&& k <= b ==> w@[k]@[i] == (k + 1) * (k + 1)
                },
    {
        let mut buckets: Vec<usize> = Vec::new();
        let mut i: usize = 0;
        while i < nodes.len()
            invariant
                0 <= i <= nodes@.len(),
                stakes.wf(),
                buckets@.len() == i,
                forall|j: int|
                    0 <= j < i ==> #[trigger] buckets@[j] == stake_bucket(
                        stake_of(stakes@, nodes@[j]),
                    ),
                forall|j: int| 0 <= j < i ==> #[trigger] buckets@[j] < NUM_PUSH_ACTIVE_SET_ENTRIES,
            decreases nodes@.len() - i,
        {
            buckets.push(get_stake_bucket(get_stake(stakes, &nodes[i])));
            i = i + 1;
        }
        let mut w: Vec<Vec<u64>> = Vec::new();
        let mut k: usize = 0;
        while k < NUM_PUSH_ACTIVE_SET_ENTRIES
            invariant
                0 <= k <= NUM_PUSH_ACTIVE_SET_ENTRIES,
                buckets@.len() == nodes@.len(),
                forall|j: int|
                    0 <= j < nodes@.len() ==> #[trigger] buckets@[j] == stake_bucket(
                        stake_of(stakes@, nodes@[j]),
                    ),
                forall|j: int|
                    0 <= j < nodes@.len() ==> #[trigger] buckets@[j] < NUM_PUSH_ACTIVE_SET_ENTRIES,
                w@.len() == k,
                forall|q: int| 0 <= q < k ==> (#[trigger] w@[q])@.len() == nodes@.len(),
                forall|q: int, j: int|
                    0 <= q < k && 0 <= j < nodes@.len() ==> #[trigger] w@[q]@[j] == rotation_weight(
                        stake_bucket(stake_of(stakes@, nodes@[j])),
                        q as nat,
                    ),
            decreases NUM_PUSH_ACTIVE_SET_ENTRIES - k,
        {
            let mut row: Vec<u64> = Vec::new();
            let mut j: usize = 0;
            while j < buckets.len()
                invariant
                    0 <= j <= buckets@.len(),
                    buckets@.len() == nodes@.len(),
                    k < NUM_PUSH_ACTIVE_SET_ENTRIES,
                    forall|q: int|
                        0 <= q < nodes@.len() ==> #[trigger] buckets@[q] == stake_bucket(
                            stake_of(stakes@, nodes@[q]),
                        ),
                    forall|q: int| 0 <= q < nodes@.len() ==> #[trigger] buckets@[q] < NUM_PUSH_ACTIVE_SET_ENTRIES,
                    row@.len() == j,
                    forall|q: int|
                        0 <= q < j ==> #[trigger] row@[q] == rotation_weight(
                            stake_bucket(stake_of(stakes@, nodes@[q])),
                            k as nat,
                        ),
                decreases buckets@.len() - j,
            {
                let b: u64 = if buckets[j] < k {
                    buckets[j] as u64
                } else {
                    k as u64
                };
                assert((b + 1) * (b + 1) <= 625) by (nonlinear_arith)
                    requires
                        b < 25,
                ;
                row.push((b + 1) * (b + 1));
                j = j + 1;
            }
            w.push(row);
            k = k + 1;
        }
        w
    }

    /// Rotates the entry of each bucket `k` with the nodes in the order of `shuffles[k]`,
    /// keeping at most `size` targets in each.
    pub fn rotate(&mut self, size: usize, nodes: &[Pubkey], shuffles: &Vec<Vec<usize>>)
        requires
            old(self).wf(),
            shuffles@.len() == NUM_PUSH_ACTIVE_SET_ENTRIES,
            forall|k: int, j: int|
                0 <= k < NUM_PUSH_ACTIVE_SET_ENTRIES && 0 <= j < shuffles@[k]@.len()
                    ==> #[trigger] shuffles@[k]@[j] < nodes@.len(),
        ensures
            final(self).wf(),
            forall|k: int|
                0 <= k < NUM_PUSH_ACTIVE_SET_ENTRIES ==> #[trigger] final(self).entries()[k]
                    == pairs_rotated(
                    old(self).entries()[k],
                    shuffled_nodes(nodes@, shuffles@[k]@),
                    size as nat,
                ),
    {
        let ghost start = self.entries();
        let mut k: usize = 0;
        while k < NUM_PUSH_ACTIVE_SET_ENTRIES
            invariant
                0 <= k <= NUM_PUSH_ACTIVE_SET_ENTRIES,
                self.wf(),
                shuffles@.len() == NUM_PUSH_ACTIVE_SET_ENTRIES,
                forall|q: int, j: int|
                    0 <= q < NUM_PUSH_ACTIVE_SET_ENTRIES && 0 <= j < shuffles@[q]@.len()
                        ==> #[trigger] shuffles@[q]@[j] < nodes@.len(),
                forall|q: int|
                    0 <= q < k ==> #[trigger] self.entries()[q] == pairs_rotated(
                        start[q],
                        shuffled_nodes(nodes@, shuffles@[q]@),
                        size as nat,
                    ),
                forall|q: int| k <= q < NUM_PUSH_ACTIVE_SET_ENTRIES ==> #[trigger] self.entries()[q] == start[q],
            decreases NUM_PUSH_ACTIVE_SET_ENTRIES - k,
        {
            let ghost before = self.entries();
            assert(forall|j: int| 0 <= j < shuffles@[k as int]@.len() ==> #[trigger] shuffles@[k as int]@[j] < nodes@.len());
            assert(self.0@[k as int].pairs() == self.entries()[k as int]);
            self.0[k].rotate(size, nodes, shuffles[k].as_slice());
            assert(self.entries() =~= before.update(
                k as int,
                pairs_rotated(
                    before[k as int],
                    shuffled_nodes(nodes@, shuffles@[k as int]@),
                    size as nat,
                ),
            ));
            k = k + 1;
        }
    }
}


/// Every target has pruned itself, so it is never pushed a message that it originated.
pub open spec fn pairs_self_pruned(e: EntryPairs) -> bool {
    forall|i: int| 0 <= i < e.len() ==> (#[trigger] e[i]).1.contains(Pubkey(e[i].0))
}

/// An element is in a sequence with one more element pushed exactly when it is that
/// element or was in the sequence.
proof fn lemma_push_contains(s: Seq<Pubkey>, v: Pubkey, x: Pubkey)
    ensures
        s.push(v).contains(x) <==> (s.contains(x) || x == v),
{
    if s.push(v).contains(x) && x != v {
        let q = choose|q: int| 0 <= q < s.push(v).len() && s.push(v)[q] == x;
        assert(s[q] == x);
    }
    if s.contains(x) {
        let q = choose|q: int| 0 <= q < s.len() && s[q] == x;
        assert(s.push(v)[q] == x);
    }
    if x == v {
        assert(s.push(v)[s.len() as int] == x);
    }
}

/// A pair's pruned origins after a prune: those before, and the pruned origin when
/// the pair is the pruning node's.
proof fn lemma_after_prune_origins(e: EntryPairs, node: Pubkey, origin: Pubkey, i: int, x: Pubkey)
    requires
        0 <= i < e.len(),
    ensures
        pairs_after_prune(e, node, origin)[i].0 == e[i].0,
        pairs_after_prune(e, node, origin)[i].1.contains(x) <==> (e[i].1.contains(x) || (e[i].0 == node.0 && x == origin)),
{
    lemma_push_contains(e[i].1, origin, x);
}

/// A key is among the targets pushed a message from `origin` exactly when some pair
/// has that key and, unless the push is forced, has not pruned `origin`.
pub proof fn lemma_unpruned_contains(e: EntryPairs, origin: Pubkey, force: bool, x: Pubkey)
    ensures
        unpruned_nodes(e, origin, force).contains(x) <==> exists|i: int|
            0 <= i < e.len() && Pubkey(#[trigger] e[i].0) == x && (force || !e[i].1.contains(origin)),
    decreases e.len(),
{
    if e.len() > 0 {
        let d = e.drop_last();
        lemma_unpruned_contains(d, origin, force, x);
        let prev = unpruned_nodes(d, origin, force);
        let last = e.len() - 1;
        if unpruned_nodes(e, origin, force).contains(x) {
            if prev.contains(x) {
                let i = choose|i: int|
                    0 <= i < d.len() && Pubkey(#[trigger] d[i].0) == x && (force || !d[i].1.contains(origin));
                assert(e[i] == d[i]);
            } else {
                let r = unpruned_nodes(e, origin, force);
                let q = choose|q: int| 0 <= q < r.len() && r[q] == x;
                if q < prev.len() {
                    assert(prev[q] == x);
                }
                assert(Pubkey(e[last].0) == x);
            }
        }
        if exists|i: int| 0 <= i < e.len() && Pubkey(#[trigger] e[i].0) == x && (force || !e[i].1.contains(origin)) {
            let i = choose|i: int|
                0 <= i < e.len() && Pubkey(#[trigger] e[i].0) == x && (force || !e[i].1.contains(origin));
            if i < last {
                assert(d[i] == e[i]);
                assert(prev.contains(x));
                let q = choose|q: int| 0 <= q < prev.len() && prev[q] == x;
                assert(unpruned_nodes(e, origin, force)[q] == x);
            } else {
                let r = unpruned_nodes(e, origin, force);
                assert(r[r.len() - 1] == x);
            }
        }
    }
}

/// A forced push goes to every target, in order.
pub proof fn lemma_forced_push_reaches_all(e: EntryPairs, origin: Pubkey)
    ensures
        unpruned_nodes(e, origin, true) == e.map_values(|p: ([u8; 32], Seq<Pubkey>)| Pubkey(p.0)),
    decreases e.len(),
{
    if e.len() > 0 {
        lemma_forced_push_reaches_all(e.drop_last(), origin);
        assert(e.map_values(|p: ([u8; 32], Seq<Pubkey>)| Pubkey(p.0)) =~= e.drop_last().map_values(
            |p: ([u8; 32], Seq<Pubkey>)| Pubkey(p.0),
        ).push(Pubkey(e.last().0)));
    } else {
        assert(e.map_values(|p: ([u8; 32], Seq<Pubkey>)| Pubkey(p.0)) =~= Seq::<Pubkey>::empty());
    }
}

/// Once `node` prunes `origin`, messages from `origin` are no longer pushed to it;
/// every other target is pushed to as before, and a forced push still reaches every
/// target.
pub proof fn lemma_prune_excludes(e: EntryPairs, node: Pubkey, origin: Pubkey)
    ensures
        !unpruned_nodes(pairs_after_prune(e, node, origin), origin, false).contains(node),
        forall|x: Pubkey|
            x != node ==> (unpruned_nodes(pairs_after_prune(e, node, origin), origin, false).contains(x)
                <==> unpruned_nodes(e, origin, false).contains(x)),
        unpruned_nodes(pairs_after_prune(e, node, origin), origin, true) == unpruned_nodes(e, origin, true),
{
    let a = pairs_after_prune(e, node, origin);
    lemma_unpruned_contains(a, origin, false, node);
    if unpruned_nodes(a, origin, false).contains(node) {
        let i = choose|i: int| 0 <= i < a.len() && Pubkey(#[trigger] a[i].0) == node && !a[i].1.contains(origin);
        lemma_after_prune_origins(e, node, origin, i, origin);
    }
    assert forall|x: Pubkey|
        x != node implies (unpruned_nodes(a, origin, false).contains(x) <==> unpruned_nodes(e, origin, false).contains(x)) by {
        lemma_unpruned_contains(a, origin, false, x);
        lemma_unpruned_contains(e, origin, false, x);
        if unpruned_nodes(a, origin, false).contains(x) {
            let i = choose|i: int| 0 <= i < a.len() && Pubkey(#[trigger] a[i].0) == x && !a[i].1.contains(origin);
            assert(e[i].0 != node.0);
            assert(Pubkey(e[i].0) == x);
        }
        if unpruned_nodes(e, origin, false).contains(x) {
            let i = choose|i: int| 0 <= i < e.len() && Pubkey(#[trigger] e[i].0) == x && !e[i].1.contains(origin);
            assert(e[i].0 != node.0);
            assert(Pubkey(a[i].0) == x);
        }
    }
    lemma_forced_push_reaches_all(a, origin);
    lemma_forced_push_reaches_all(e, origin);
    assert(a.map_values(|p: ([u8; 32], Seq<Pubkey>)| Pubkey(p.0)) =~= e.map_values(
        |p: ([u8; 32], Seq<Pubkey>)| Pubkey(p.0),
    ));
}

/// Pruning one origin leaves the pushes of every other origin as they were.
pub proof fn lemma_prune_other_origin(e: EntryPairs, node: Pubkey, pruned: Pubkey, origin: Pubkey, force: bool)
    requires
        pruned != origin,
    ensures
        unpruned_nodes(pairs_after_prune(e, node, pruned), origin, force) == unpruned_nodes(e, origin, force),
    decreases e.len(),
{
    let a = pairs_after_prune(e, node, pruned);
    if e.len() > 0 {
        lemma_prune_other_origin(e.drop_last(), node, pruned, origin, force);
        assert(a.drop_last() =~= pairs_after_prune(e.drop_last(), node, pruned));
        lemma_after_prune_origins(e, node, pruned, e.len() - 1, origin);
    }
}

/// Pruning never adds a target for any origin.
pub proof fn lemma_prune_only_removes(e: EntryPairs, node: Pubkey, pruned: Pubkey, origin: Pubkey, x: Pubkey)
    requires
        unpruned_nodes(pairs_after_prune(e, node, pruned), origin, false).contains(x),
    ensures
        unpruned_nodes(e, origin, false).contains(x),
{
    let a = pairs_after_prune(e, node, pruned);
    lemma_unpruned_contains(a, origin, false, x);
    lemma_unpruned_contains(e, origin, false, x);
    let i = choose|i: int| 0 <= i < a.len() && Pubkey(#[trigger] a[i].0) == x && !a[i].1.contains(origin);
    lemma_after_prune_origins(e, node, pruned, i, origin);
    assert(Pubkey(e[i].0) == x);
}

/// A target that pruned itself is never pushed a message that it originated.
pub proof fn lemma_self_pruned_never_pushed_own(e: EntryPairs, x: Pubkey)
    requires
        pairs_self_pruned(e),
    ensures
        !unpruned_nodes(e, x, false).contains(x),
{
    lemma_unpruned_contains(e, x, false, x);
    if unpruned_nodes(e, x, false).contains(x) {
        let i = choose|i: int| 0 <= i < e.len() && Pubkey(#[trigger] e[i].0) == x && !e[i].1.contains(x);
        assert(e[i].1.contains(Pubkey(e[i].0)));
    }
}

/// Pruning keeps every target's own key among its pruned origins.
pub proof fn lemma_prune_keeps_self_pruned(e: EntryPairs, node: Pubkey, origin: Pubkey)
    requires
        pairs_self_pruned(e),
    ensures
        pairs_self_pruned(pairs_after_prune(e, node, origin)),
{
    let a = pairs_after_prune(e, node, origin);
    assert forall|i: int| 0 <= i < a.len() implies (#[trigger] a[i]).1.contains(Pubkey(a[i].0)) by {
        assert(e[i].1.contains(Pubkey(e[i].0)));
        if e[i].0 == node.0 && !e[i].1.contains(origin) {
            let j = choose|j: int| 0 <= j < e[i].1.len() && e[i].1[j] == Pubkey(e[i].0);
            assert(a[i].1[j] == Pubkey(a[i].0));
        }
    }
}

/// Filling keeps the pairs that were there, in order, in front; the pairs it adds are
/// candidates that were not targets yet, each having pruned itself.
pub proof fn lemma_fill_extends(e: EntryPairs, cands: Seq<Pubkey>, size: nat)
    ensures
        pairs_filled(e, cands, size).len() >= e.len(),
        pairs_filled(e, cands, size).take(e.len() as int) == e,
        forall|i: int|
            e.len() <= i < pairs_filled(e, cands, size).len() ==> cands.contains(
                Pubkey(#[trigger] pairs_filled(e, cands, size)[i].0),
            ) && pairs_filled(e, cands, size)[i].1 == seq![Pubkey(pairs_filled(e, cands, size)[i].0)],
        e.len() <= size ==> pairs_filled(e, cands, size).len() <= size + 1,
    decreases cands.len(),
{
    if cands.len() == 0 || e.len() > size {
        assert(e.take(e.len() as int) =~= e);
    } else {
        let rest = cands.drop_first();
        if pairs_contain(e, cands[0].0) {
            lemma_fill_extends(e, rest, size);
            let f = pairs_filled(e, cands, size);
            assert forall|i: int| e.len() <= i < f.len() implies cands.contains(Pubkey(#[trigger] f[i].0)) by {
                let q = choose|q: int| 0 <= q < rest.len() && rest[q] == Pubkey(f[i].0);
                assert(cands[q + 1] == rest[q]);
            }
        } else {
            let e1 = e.push((cands[0].0, seq![cands[0]]));
            lemma_fill_extends(e1, rest, size);
            let f = pairs_filled(e, cands, size);
            assert(f.take(e1.len() as int) == e1);
            assert(f.take(e.len() as int) =~= e) by {
                assert forall|i: int| 0 <= i < e.len() implies f.take(e.len() as int)[i] == e[i] by {
                    assert(f.take(e1.len() as int)[i] == e1[i]);
                }
            }
            assert forall|i: int| e.len() <= i < f.len() implies cands.contains(Pubkey(#[trigger] f[i].0))
                && f[i].1 == seq![Pubkey(f[i].0)] by {
                if i == e.len() {
                    assert(f.take(e1.len() as int)[i] == e1[i]);
                    assert(Pubkey(cands[0].0) == cands[0]);
                    assert(cands[0] == Pubkey(f[i].0));
                } else {
                    let q = choose|q: int| 0 <= q < rest.len() && rest[q] == Pubkey(f[i].0);
                    assert(cands[q + 1] == rest[q]);
                }
            }
        }
    }
}

/// A rotation keeps at most `size` targets, each of them a target from before or
/// one of the candidates, and the targets it keeps from before stay in their order
/// ahead of the new ones: the result is the last pairs of the old pairs followed by
/// the added ones. Every target it adds has pruned itself.
pub proof fn lemma_rotate_laws(e: EntryPairs, cands: Seq<Pubkey>, size: nat)
    ensures
        pairs_rotated(e, cands, size).len() <= size,
        ({
            let f = pairs_filled(e, cands, size);
            &&& f.take(e.len() as int) == e
            &&& pairs_rotated(e, cands, size) == f.skip(f.len() - pairs_rotated(e, cands, size).len())
        }),
        forall|i: int|
            0 <= i < pairs_rotated(e, cands, size).len() ==> pairs_contain(e, #[trigger] pairs_rotated(e, cands, size)[i].0)
                || cands.contains(Pubkey(pairs_rotated(e, cands, size)[i].0)),
        pairs_self_pruned(e) ==> pairs_self_pruned(pairs_rotated(e, cands, size)),
{
    lemma_fill_extends(e, cands, size);
    let f = pairs_filled(e, cands, size);
    let r = pairs_rotated(e, cands, size);
    assert(r =~= f.skip(f.len() - r.len()));
    assert forall|i: int| 0 <= i < r.len() implies pairs_contain(e, #[trigger] r[i].0) || cands.contains(Pubkey(r[i].0)) by {
        let j = f.len() - r.len() + i;
        assert(r[i] == f[j]);
        if j < e.len() {
            assert(f.take(e.len() as int)[j] == e[j]);
            assert(e[j].0 == r[i].0);
        } else {
            assert(cands.contains(Pubkey(f[j].0)));
        }
    }
    if pairs_self_pruned(e) {
        assert forall|i: int| 0 <= i < r.len() implies (#[trigger] r[i]).1.contains(Pubkey(r[i].0)) by {
            let j = f.len() - r.len() + i;
            assert(r[i] == f[j]);
            if j < e.len() {
                assert(f.take(e.len() as int)[j] == e[j]);
                assert(e[j].1.contains(Pubkey(e[j].0)));
            } else {
                assert(f[j].1 == seq![Pubkey(f[j].0)]);
                assert(f[j].1[0] == Pubkey(f[j].0));
            }
        }
    }
}


/// Pruning keeps one entry per bucket.
proof fn lemma_prunes_keep_len(
    v: Seq<EntryPairs>,
    stakes: Map<Pubkey, u64>,
    pubkey: Pubkey,
    node: Pubkey,
    origins: Seq<Pubkey>,
)
    requires
        v.len() == NUM_PUSH_ACTIVE_SET_ENTRIES,
    ensures
        entries_after_prunes(v, stakes, pubkey, node, origins).len() == NUM_PUSH_ACTIVE_SET_ENTRIES,
    decreases origins.len(),
{
    if origins.len() > 0 {
        lemma_prunes_keep_len(v, stakes, pubkey, node, origins.drop_last());
    }
}

/// After node `pubkey` records that `node` pruned some origins, messages from each of
/// those origins (other than `pubkey` itself) are no longer pushed to `node`.
pub proof fn lemma_set_prune_excludes(
    v: Seq<EntryPairs>,
    stakes: Map<Pubkey, u64>,
    pubkey: Pubkey,
    node: Pubkey,
    origins: Seq<Pubkey>,
    origin: Pubkey,
)
    requires
        v.len() == NUM_PUSH_ACTIVE_SET_ENTRIES,
        origins.contains(origin),
        origin != pubkey,
    ensures
        !unpruned_nodes(
            entries_after_prunes(v, stakes, pubkey, node, origins)[push_bucket(stakes, pubkey, origin) as int],
            origin,
            false,
        ).contains(node),
    decreases origins.len(),
{
    let d = origins.drop_last();
    let o = origins.last();
    let prev = entries_after_prunes(v, stakes, pubkey, node, d);
    lemma_prunes_keep_len(v, stakes, pubkey, node, d);
    let kk = push_bucket(stakes, pubkey, origin) as int;
    if o == origin {
        lemma_prune_excludes(prev[kk], node, origin);
    } else {
        let q = choose|q: int| 0 <= q < origins.len() && origins[q] == origin;
        assert(d[q] == origin);
        lemma_set_prune_excludes(v, stakes, pubkey, node, d, origin);
        if o != pubkey {
            let k = push_bucket(stakes, pubkey, o) as int;
            if k == kk {
                lemma_prune_other_origin(prev[k], node, o, origin, false);
            }
        }
    }
}


/// Recording prunes never adds a target: a node that is not pushed messages from
/// `origin` in a bucket stays so.
pub proof fn lemma_prunes_keep_exclusion(
    v: Seq<EntryPairs>,
    stakes: Map<Pubkey, u64>,
    pubkey: Pubkey,
    node: Pubkey,
    origins: Seq<Pubkey>,
    k: int,
    origin: Pubkey,
    x: Pubkey,
)
    requires
        v.len() == NUM_PUSH_ACTIVE_SET_ENTRIES,
        0 <= k < NUM_PUSH_ACTIVE_SET_ENTRIES,
        !unpruned_nodes(v[k], origin, false).contains(x),
    ensures
        !unpruned_nodes(entries_after_prunes(v, stakes, pubkey, node, origins)[k], origin, false).contains(x),
    decreases origins.len(),
{
    if origins.len() > 0 {
        let d = origins.drop_last();
        lemma_prunes_keep_exclusion(v, stakes, pubkey, node, d, k, origin, x);
        lemma_prunes_keep_len(v, stakes, pubkey, node, d);
        let prev = entries_after_prunes(v, stakes, pubkey, node, d);
        let o = origins.last();
        if o != pubkey {
            let kk = push_bucket(stakes, pubkey, o) as int;
            if kk == k && unpruned_nodes(pairs_after_prune(prev[k], node, o), origin, false).contains(x) {
                lemma_prune_only_removes(prev[k], node, o, origin, x);
            }
        }
    }
}

/// Recording prunes keeps one entry per bucket.
pub proof fn lemma_prunes_keep_count(
    v: Seq<EntryPairs>,
    stakes: Map<Pubkey, u64>,
    pubkey: Pubkey,
    node: Pubkey,
    origins: Seq<Pubkey>,
)
    requires
        v.len() == NUM_PUSH_ACTIVE_SET_ENTRIES,
    ensures
        entries_after_prunes(v, stakes, pubkey, node, origins).len() == NUM_PUSH_ACTIVE_SET_ENTRIES,
{
    lemma_prunes_keep_len(v, stakes, pubkey, node, origins);
}


/// A node never pushes a message back to its origin: in a well formed push active set,
/// the targets for messages from `origin` (unless the push is forced) leave `origin`
/// out.
pub proof fn lemma_never_pushed_back_to_origin(s: PushActiveSet, stakes: Map<Pubkey, u64>, pubkey: Pubkey, origin: Pubkey)
    requires
        s.wf(),
    ensures
        !unpruned_nodes(s.entries()[push_bucket(stakes, pubkey, origin) as int], origin, false).contains(origin),
{
    lemma_self_pruned_never_pushed_own(s.entries()[push_bucket(stakes, pubkey, origin) as int], origin);
}

} // verus!
