//! Statistics over gossip rounds: message redundancy, hop counts, stranded nodes.

use vstd::prelude::*;
use std::collections::BTreeMap;
use vstd::std_specs::iter::IteratorSpec;
use vstd::std_specs::cmp::OrdSpec;
use crate::pubkey::Pubkey;
use crate::key_map::PubkeyMap;
use crate::sort::{TotalOrder, sort_vec, sorted};

verus! {

/// The message counts of one gossip round, from which the relative message
/// redundancy `m / (n - 1) - 1` is computed:
/// `m` is the number of push and prune messages exchanged, `n` the number of nodes
/// that received the message.
#[derive(Debug, Clone)]
pub struct RelativeMessageRedundancy {
    m: u64,
    n: u64,
}

impl RelativeMessageRedundancy {
    /// The number of messages exchanged.
    pub closed spec fn messages(self) -> u64 {
        self.m
    }

    /// The number of nodes that received the message.
    pub closed spec fn receivers(self) -> u64 {
        self.n
    }

    /// Counts with no message and no receiver.
    pub fn new() -> (r: Self)
        ensures
            r.messages() == 0,
            r.receivers() == 0,
    {
        RelativeMessageRedundancy { m: 0, n: 0 }
    }

    /// Counts one more message.
    pub fn increment_m(&mut self)
        requires
            old(self).messages() < u64::MAX,
        ensures
            final(self).messages() == old(self).messages() + 1,
            final(self).receivers() == old(self).receivers(),
    {
        self.m = self.m + 1;
    }

    /// Counts one more receiver.
    pub fn increment_n(&mut self)
        requires
            old(self).receivers() < u64::MAX,
        ensures
            final(self).messages() == old(self).messages(),
            final(self).receivers() == old(self).receivers() + 1,
    {
        self.n = self.n + 1;
    }

    /// Sets both counts back to zero.
    pub fn reset(&mut self)
        ensures
            final(self).messages() == 0,
            final(self).receivers() == 0,
    {
        self.m = 0;
        self.n = 0;
    }

    /// The number of messages exchanged.
    pub fn m(&self) -> (r: u64)
        ensures
            r == self.messages(),
    {
        self.m
    }

    /// The number of nodes that received the message.
    pub fn n(&self) -> (r: u64)
        ensures
            r == self.receivers(),
    {
        self.n
    }

    /// The numerator and denominator of `m / (n - 1)`, of which the relative
    /// message redundancy is one less; an error when at most the origin received the
    /// message, as `n - 1` is then zero or less.
    pub fn calculate_rmr(&self) -> (r: Result<(u64, u64), String>)
        ensures
            self.receivers() <= 1 <==> r is Err,
            r matches Ok(q) ==> q.0 == self.messages() && q.1 == self.receivers() - 1 && q.1 > 0,
            r matches Err(e) ==> e@ == (if self.receivers() == 0 {
                "Division by zero. n is 0."@
            } else {
                "Division by zero. n is 1."@
            }),
    {
        if self.n == 0 {
            Err("Division by zero. n is 0.".to_string())
        } else if self.n == 1 {
            Err("Division by zero. n is 1.".to_string())
        } else {
            Ok((self.m, self.n - 1))
        }
    }
}

impl Default for RelativeMessageRedundancy {
    fn default() -> (r: Self)
        ensures
            r.messages() == 0,
            r.receivers() == 0,
    {
        RelativeMessageRedundancy::new()
    }
}


/// Keys in increasing order are strictly increasing numbers.
proof fn lemma_increasing_keys(ks: Seq<u64>)
    requires
        vstd::std_specs::btree::increasing_seq(ks),
    ensures
        forall|i: int, j: int| 0 <= i < j < ks.len() ==> #[trigger] ks[i] < #[trigger] ks[j],
{
    broadcast use vstd::std_specs::btree::group_btree_axioms;
    assert(vstd::laws_cmp::obeys_cmp::<u64>());
    assert forall|i: int, j: int| 0 <= i < j < ks.len() implies #[trigger] ks[i] < #[trigger] ks[j] by {
        assert(ks[i].cmp_spec(&ks[j]) is Less);
    }
}

/// `r` lists the buckets of `m` and their counts, by increasing bucket.
pub open spec fn lists_counts(m: Map<u64, u64>, r: Seq<(u64, u64)>) -> bool {
    &&& forall|i: int, j: int| 0 <= i < j < r.len() ==> #[trigger] r[i].0 < #[trigger] r[j].0
    &&& forall|i: int| 0 <= i < r.len() ==> m.contains_key(#[trigger] r[i].0) && m[r[i].0] == r[i].1
    &&& forall|b: u64| #[trigger] m.contains_key(b) ==> exists|i: int| 0 <= i < r.len() && #[trigger] r[i].0 == b
}

/// A histogram of how many times nodes were stranded: bucket `b` counts the nodes
/// stranded between `min + b * range` and `min + (b + 1) * range - 1` times.
#[derive(Debug, Clone)]
pub struct Histogram {
    entries: BTreeMap<u64, u64>,
    min_stranded: u64,
    max_stranded: u64,
    bucket_range: u64,
    num_buckets: u64,
}

impl Histogram {
    /// The count of each bucket that holds a node.
    pub closed spec fn counts(self) -> Map<u64, u64> {
        self.entries@
    }

    /// The fewest times a node was stranded.
    pub closed spec fn min_spec(self) -> u64 {
        self.min_stranded
    }

    /// The most times a node was stranded.
    pub closed spec fn max_spec(self) -> u64 {
        self.max_stranded
    }

    /// The width of each bucket.
    pub closed spec fn range_spec(self) -> u64 {
        self.bucket_range
    }

    /// The number of buckets asked for.
    pub closed spec fn num_buckets_spec(self) -> u64 {
        self.num_buckets
    }

    /// An empty histogram with every setting zero.
    pub fn new() -> (h: Self)
        ensures
            h.counts() == Map::<u64, u64>::empty(),
            h.min_spec() == 0,
            h.max_spec() == 0,
            h.range_spec() == 0,
            h.num_buckets_spec() == 0,
    {
        Histogram { entries: BTreeMap::new(), min_stranded: 0, max_stranded: 0, bucket_range: 0, num_buckets: 0 }
    }

    /// Sets the fewest times a node was stranded.
    pub fn set_min_stranded(&mut self, val: u64)
        ensures
            final(self).min_spec() == val,
            final(self).counts() == old(self).counts(),
            final(self).max_spec() == old(self).max_spec(),
            final(self).range_spec() == old(self).range_spec(),
            final(self).num_buckets_spec() == old(self).num_buckets_spec(),
    {
        self.min_stranded = val;
    }

    /// Sets the most times a node was stranded.
    pub fn set_max_stranded(&mut self, val: u64)
        ensures
            final(self).max_spec() == val,
            final(self).counts() == old(self).counts(),
            final(self).min_spec() == old(self).min_spec(),
            final(self).range_spec() == old(self).range_spec(),
            final(self).num_buckets_spec() == old(self).num_buckets_spec(),
    {
        self.max_stranded = val;
    }

    /// Sets the width of each bucket.
    pub fn set_bucket_range(&mut self, val: u64)
        ensures
            final(self).range_spec() == val,
            final(self).counts() == old(self).counts(),
            final(self).min_spec() == old(self).min_spec(),
            final(self).max_spec() == old(self).max_spec(),
            final(self).num_buckets_spec() == old(self).num_buckets_spec(),
    {
        self.bucket_range = val;
    }

    /// The fewest times a node was stranded.
    pub fn min_stranded(&self) -> (v: u64)
        ensures
            v == self.min_spec(),
    {
        self.min_stranded
    }

    /// The most times a node was stranded.
    pub fn max_stranded(&self) -> (v: u64)
        ensures
            v == self.max_spec(),
    {
        self.max_stranded
    }

    /// The width of each bucket.
    pub fn bucket_range(&self) -> (v: u64)
        ensures
            v == self.range_spec(),
    {
        self.bucket_range
    }

    /// Sets the number of buckets.
    pub fn set_num_buckets(&mut self, val: u64)
        ensures
            final(self).num_buckets_spec() == val,
            final(self).counts() == old(self).counts(),
            final(self).min_spec() == old(self).min_spec(),
            final(self).max_spec() == old(self).max_spec(),
            final(self).range_spec() == old(self).range_spec(),
    {
        self.num_buckets = val;
    }

    /// The number of buckets.
    pub fn num_buckets(&self) -> (v: u64)
        ensures
            v == self.num_buckets_spec(),
    {
        self.num_buckets
    }

    /// The buckets that hold a node and their counts, by increasing bucket.
    pub fn entries(&self) -> (r: Vec<(u64, u64)>)
        ensures
            lists_counts(self.counts(), r@),
    {
        broadcast use vstd::std_specs::btree::group_btree_axioms;
        let mut r: Vec<(u64, u64)> = Vec::new();
        let iter = self.entries.iter();
        let ghost rem = iter.remaining();
        proof {
            assert(vstd::laws_cmp::obeys_cmp::<u64>());
        }
        for p in it: iter
            invariant
                it.seq() == rem,
                r@.len() == it.index(),
                forall|i: int| 0 <= i < it.index() ==> #[trigger] r@[i] == (*rem[i].0, *rem[i].1),
        {
            r.push((*p.0, *p.1));
        }
        proof {
            let ks = rem.map_values(|kv: (&u64, &u64)| *kv.0);
            assert(vstd::std_specs::btree::increasing_seq(ks));
            lemma_increasing_keys(ks);
            assert forall|i: int, j: int| 0 <= i < j < r@.len() implies #[trigger] r@[i].0 < #[trigger] r@[j].0 by {
                assert(ks[i] == r@[i].0);
                assert(ks[j] == r@[j].0);
            }
            assert forall|b: u64| #[trigger] self.counts().contains_key(b) implies exists|i: int| 0 <= i < r@.len() && #[trigger] r@[i].0 == b by {
                assert(rem.contains((&b, &self.entries@[b])));
                let i = choose|i: int| 0 <= i < rem.len() && rem[i] == (&b, &self.entries@[b]);
                assert(r@[i].0 == b);
            }
        }
        r
    }
}

impl Default for Histogram {
    fn default() -> (h: Self)
        ensures
            h.counts() == Map::<u64, u64>::empty(),
            h.min_spec() == 0,
            h.max_spec() == 0,
            h.range_spec() == 0,
            h.num_buckets_spec() == 0,
    {
        Histogram::new()
    }
}


/// A stranded node: its key, its stake and the number of rounds it was stranded in.
pub type StrandedEntry = (Pubkey, (u64, u64));

/// Stranded nodes ordered by more rounds stranded first, then by more stake.
/// Stranded entries sorted for their order come most rounds stranded first and, among
/// equal rounds, most stake first.
pub proof fn lemma_stranded_order(t: Seq<StrandedEntry>)
    requires
        sorted(t),
    ensures
        forall|i: int, j: int|
            0 <= i < j < t.len() ==> #[trigger] t[i].1.1 > #[trigger] t[j].1.1 || (t[i].1.1 == t[j].1.1 && t[i].1.0
                >= t[j].1.0),
{
    assert forall|i: int, j: int| 0 <= i < j < t.len() implies #[trigger] t[i].1.1 > #[trigger] t[j].1.1 || (t[i].1.1
        == t[j].1.1 && t[i].1.0 >= t[j].1.0) by {
        assert(t[i].ord_le(t[j]));
    }
}

impl TotalOrder for (Pubkey, (u64, u64)) {
    open spec fn ord_le(self, other: Self) -> bool {
        self.1.1 > other.1.1 || (self.1.1 == other.1.1 && self.1.0 >= other.1.0)
    }

    proof fn lemma_total(a: Self, b: Self) {
    }

    proof fn lemma_trans(a: Self, b: Self, c: Self) {
    }

    fn leq(&self, other: &Self) -> (r: bool) {
        self.1.1 > other.1.1 || (self.1.1 == other.1.1 && self.1.0 >= other.1.0)
    }
}

/// The total of the rounds stranded over the entries.
pub open spec fn sum_times(s: Seq<StrandedEntry>) -> nat
    decreases s.len(),
{
    if s.len() == 0 {
        0
    } else {
        sum_times(s.drop_last()) + s.last().1.1 as nat
    }
}

/// The total stake over the entries.
pub open spec fn sum_stakes(s: Seq<StrandedEntry>) -> nat
    decreases s.len(),
{
    if s.len() == 0 {
        0
    } else {
        sum_stakes(s.drop_last()) + s.last().1.0 as nat
    }
}

/// The fewest rounds stranded over the entries (0 when there are none).
pub open spec fn min_times(s: Seq<StrandedEntry>) -> u64
    decreases s.len(),
{
    if s.len() == 0 {
        0
    } else if s.len() == 1 || s.last().1.1 < min_times(s.drop_last()) {
        s.last().1.1
    } else {
        min_times(s.drop_last())
    }
}

/// The most rounds stranded over the entries (0 when there are none).
pub open spec fn max_times(s: Seq<StrandedEntry>) -> u64
    decreases s.len(),
{
    if s.len() == 0 {
        0
    } else if s.len() == 1 || s.last().1.1 > max_times(s.drop_last()) {
        s.last().1.1
    } else {
        max_times(s.drop_last())
    }
}

/// The least stake over the entries (0 when there are none).
pub open spec fn min_stake(s: Seq<StrandedEntry>) -> u64
    decreases s.len(),
{
    if s.len() == 0 {
        0
    } else if s.len() == 1 || s.last().1.0 < min_stake(s.drop_last()) {
        s.last().1.0
    } else {
        min_stake(s.drop_last())
    }
}

/// The most stake over the entries (0 when there are none).
pub open spec fn max_stake(s: Seq<StrandedEntry>) -> u64
    decreases s.len(),
{
    if s.len() == 0 {
        0
    } else if s.len() == 1 || s.last().1.0 > max_stake(s.drop_last()) {
        s.last().1.0
    } else {
        max_stake(s.drop_last())
    }
}

/// The histogram bucket of a node stranded `t` times.
pub open spec fn bucket_of(t: u64, min: u64, range: u64, num_buckets: u64) -> u64 {
    let raw = (t - min) / (range as int);
    if raw < num_buckets {
        raw as u64
    } else {
        (num_buckets - 1) as u64
    }
}

/// The bucket counts after adding each of the entries to `base`.
pub open spec fn bucket_counts(base: Map<u64, u64>, s: Seq<StrandedEntry>, min: u64, range: u64, num_buckets: u64) -> Map<u64, u64>
    decreases s.len(),
{
    if s.len() == 0 {
        base
    } else {
        let prev = bucket_counts(base, s.drop_last(), min, range, num_buckets);
        let b = bucket_of(s.last().1.1, min, range, num_buckets);
        let c = if prev.contains_key(b) {
            prev[b]
        } else {
            0
        };
        prev.insert(b, (c + 1) as u64)
    }
}

/// The number of entries that fall in bucket `b`.
pub open spec fn in_bucket(s: Seq<StrandedEntry>, min: u64, range: u64, num_buckets: u64, b: u64) -> nat
    decreases s.len(),
{
    if s.len() == 0 {
        0
    } else {
        in_bucket(s.drop_last(), min, range, num_buckets, b) + if bucket_of(s.last().1.1, min, range, num_buckets) == b {
            1nat
        } else {
            0nat
        }
    }
}

/// The nodes stranded over many rounds: for each, its stake and how many rounds it
/// was stranded in, with totals and a histogram.
#[derive(Debug)]
pub struct StrandedNodeCollection {
    stranded_nodes: PubkeyMap<(u64, u64)>,
    total_gossip_iterations: u64,
    total_stranded_iterations: u64,
    total_nodes: usize,
    total_stranded_stake: u64,
    stranded_node_max_stake: u64,
    stranded_node_min_stake: u64,
    histogram: Histogram,
}

impl StrandedNodeCollection {
    /// The stranded nodes in the order they were first stranded.
    pub closed spec fn entries_spec(self) -> Seq<StrandedEntry> {
        self.stranded_nodes.entry_seq()
    }

    /// For each stranded node, its stake and the rounds it was stranded in.
    pub closed spec fn stranded_map(self) -> Map<Pubkey, (u64, u64)> {
        self.stranded_nodes@
    }

    /// The number of rounds recorded.
    pub closed spec fn iterations(self) -> u64 {
        self.total_gossip_iterations
    }

    /// The number of nodes in the network, taken at the first round.
    pub closed spec fn nodes_in_network(self) -> usize {
        self.total_nodes
    }

    /// The totals and extremes as last calculated: rounds stranded, stake, most
    /// stake, least stake.
    pub closed spec fn calculated(self) -> (u64, u64, u64, u64) {
        (
            self.total_stranded_iterations,
            self.total_stranded_stake,
            self.stranded_node_max_stake,
            self.stranded_node_min_stake,
        )
    }

    /// The histogram as last built.
    pub closed spec fn histogram_spec(self) -> Histogram {
        self.histogram
    }

    /// No node is recorded twice.
    pub closed spec fn wf(self) -> bool {
        self.stranded_nodes.wf()
    }

    /// An empty collection.
    pub fn new() -> (c: Self)
        ensures
            c.wf(),
            c.entries_spec() == Seq::<StrandedEntry>::empty(),
            c.iterations() == 0,
            c.nodes_in_network() == 0,
            c.calculated() == (0u64, 0u64, 0u64, 0u64),
            c.histogram_spec().counts() == Map::<u64, u64>::empty(),
            c.histogram_spec().min_spec() == 0,
            c.histogram_spec().max_spec() == 0,
            c.histogram_spec().range_spec() == 0,
            c.histogram_spec().num_buckets_spec() == 0,
    {
        StrandedNodeCollection {
            stranded_nodes: PubkeyMap::new(),
            total_gossip_iterations: 0,
            total_stranded_iterations: 0,
            total_nodes: 0,
            total_stranded_stake: 0,
            stranded_node_max_stake: 0,
            stranded_node_min_stake: 0,
            histogram: Histogram::new(),
        }
    }

    /// Counts one more round stranded for `pubkey`; a node stranded for the first time
    /// is recorded with its stake, and one without a stake is left out.
    fn increment_stranded_count(&mut self, pubkey: &Pubkey, stakes: &PubkeyMap<u64>)
        requires
            old(self).wf(),
            stakes.wf(),
            old(self).stranded_map().dom().contains(*pubkey) ==> old(self).stranded_map()[*pubkey].1 < u64::MAX,
        ensures
            final(self).wf(),
            final(self).stranded_map() == (if old(self).stranded_map().dom().contains(*pubkey) {
                old(self).stranded_map().insert(
                    *pubkey,
                    (old(self).stranded_map()[*pubkey].0, (old(self).stranded_map()[*pubkey].1 + 1) as u64),
                )
            } else if stakes@.dom().contains(*pubkey) {
                old(self).stranded_map().insert(*pubkey, (stakes@[*pubkey], 1u64))
            } else {
                old(self).stranded_map()
            }),
            final(self).iterations() == old(self).iterations(),
            final(self).nodes_in_network() == old(self).nodes_in_network(),
            final(self).calculated() == old(self).calculated(),
            final(self).histogram_spec() == old(self).histogram_spec(),
    {
        match self.stranded_nodes.index_of(pubkey) {
            Some(i) => {
                let ghost e0 = self.stranded_nodes.entry_seq();
                proof {
                    crate::key_map::lemma_map_of_value(e0, i as int);
                }
                let v = self.stranded_nodes.value_at_mut(i);
                v.1 = v.1 + 1;
                proof {
                    crate::key_map::lemma_map_of_update(e0, i as int, *v);
                }
            },
            None => {
                match stakes.get(pubkey) {
                    Some(stake) => {
                        self.stranded_nodes.insert(*pubkey, (*stake, 1));
                    },
                    None => {},
                }
            },
        }
    }

    /// Records one round: each of `stranded_nodes` counts one more round stranded (one
    /// without a stake is left out), and at the first round the number of nodes in the
    /// network is taken from `stakes`.
    pub fn insert_nodes(&mut self, stranded_nodes: &Vec<Pubkey>, stakes: &PubkeyMap<u64>)
        requires
            old(self).wf(),
            stakes.wf(),
            old(self).iterations() < u64::MAX,
            forall|k: Pubkey|
                #[trigger] old(self).stranded_map().dom().contains(k) ==> old(self).stranded_map()[k].1 + stranded_nodes@.len() <= u64::MAX,
        ensures
            final(self).wf(),
            final(self).iterations() == old(self).iterations() + 1,
            final(self).nodes_in_network() == (if old(self).nodes_in_network() == 0 {
                stakes@.len() as usize
            } else {
                old(self).nodes_in_network()
            }),
            final(self).stranded_map() == stranded_after(old(self).stranded_map(), stranded_nodes@, stakes@),
            final(self).calculated() == old(self).calculated(),
            final(self).histogram_spec() == old(self).histogram_spec(),
    {
        let ghost m0 = self.stranded_map();
        let mut i: usize = 0;
        while i < stranded_nodes.len()
            invariant
                0 <= i <= stranded_nodes@.len(),
                self.wf(),
                stakes.wf(),
                self.stranded_map() == stranded_after(m0, stranded_nodes@.take(i as int), stakes@),
                forall|k: Pubkey| #[trigger] m0.dom().contains(k) ==> m0[k].1 + stranded_nodes@.len() <= u64::MAX,
                forall|k: Pubkey|
                    #[trigger] self.stranded_map().dom().contains(k) ==> self.stranded_map()[k].1 <= i + (if m0.dom().contains(k) {
                        m0[k].1 as int
                    } else {
                        0int
                    }),
                self.iterations() == old(self).iterations(),
                self.nodes_in_network() == old(self).nodes_in_network(),
                self.calculated() == old(self).calculated(),
                self.histogram_spec() == old(self).histogram_spec(),
            decreases stranded_nodes@.len() - i,
        {
            let ghost before = self.stranded_map();
            self.increment_stranded_count(&stranded_nodes[i], stakes);
            proof {
                assert(stranded_nodes@.take(i + 1).drop_last() =~= stranded_nodes@.take(i as int));
            }
            i = i + 1;
        }
        proof {
            assert(stranded_nodes@.take(stranded_nodes@.len() as int) =~= stranded_nodes@);
        }
        self.total_gossip_iterations = self.total_gossip_iterations + 1;
        if self.total_nodes == 0 {
            self.total_nodes = stakes.len();
        }
    }
}

/// The record of stranded nodes after one round in which `nodes` were stranded.
pub open spec fn stranded_after(m: Map<Pubkey, (u64, u64)>, nodes: Seq<Pubkey>, stakes: Map<Pubkey, u64>) -> Map<
    Pubkey,
    (u64, u64),
>
    decreases nodes.len(),
{
    if nodes.len() == 0 {
        m
    } else {
        let prev = stranded_after(m, nodes.drop_last(), stakes);
        let k = nodes.last();
        if prev.dom().contains(k) {
            prev.insert(k, (prev[k].0, (prev[k].1 + 1) as u64))
        } else if stakes.dom().contains(k) {
            prev.insert(k, (stakes[k], 1u64))
        } else {
            prev
        }
    }
}


impl StrandedNodeCollection {
    /// Adds up the rounds stranded and the stakes of the stranded nodes, and finds the
    /// most and least stake among them (0 when none is stranded).
    pub fn calculate_stats(&mut self)
        requires
            old(self).wf(),
            sum_times(old(self).entries_spec()) <= u64::MAX,
            sum_stakes(old(self).entries_spec()) <= u64::MAX,
        ensures
            final(self).wf(),
            final(self).entries_spec() == old(self).entries_spec(),
            final(self).stranded_map() == old(self).stranded_map(),
            final(self).iterations() == old(self).iterations(),
            final(self).nodes_in_network() == old(self).nodes_in_network(),
            final(self).histogram_spec() == old(self).histogram_spec(),
            final(self).calculated() == (
                sum_times(old(self).entries_spec()) as u64,
                sum_stakes(old(self).entries_spec()) as u64,
                max_stake(old(self).entries_spec()),
                min_stake(old(self).entries_spec()),
            ),
    {
        let ghost es = self.stranded_nodes.entry_seq();
        let n = self.stranded_nodes.len();
        let mut total_iters: u64 = 0;
        let mut total_stake: u64 = 0;
        let mut most: u64 = 0;
        let mut least: u64 = 0;
        let mut i: usize = 0;
        while i < n
            invariant
                es == self.stranded_nodes.entry_seq(),
                n == es.len(),
                0 <= i <= n,
                sum_times(es) <= u64::MAX,
                sum_stakes(es) <= u64::MAX,
                total_iters == sum_times(es.take(i as int)),
                total_stake == sum_stakes(es.take(i as int)),
                most == max_stake(es.take(i as int)),
                least == min_stake(es.take(i as int)),
            decreases n - i,
        {
            let e = self.stranded_nodes.entry_at(i);
            proof {
                assert(es.take(i + 1).drop_last() =~= es.take(i as int));
                lemma_sums_prefix(es, i + 1);
            }
            total_iters = total_iters + e.1.1;
            total_stake = total_stake + e.1.0;
            if i == 0 || e.1.0 > most {
                most = e.1.0;
            }
            if i == 0 || e.1.0 < least {
                least = e.1.0;
            }
            i = i + 1;
        }
        proof {
            assert(es.take(n as int) =~= es);
        }
        self.total_stranded_iterations = total_iters;
        self.total_stranded_stake = total_stake;
        self.stranded_node_max_stake = most;
        self.stranded_node_min_stake = least;
    }

    /// The stranded nodes, most rounds stranded first and, among equals, most stake
    /// first.
    pub fn get_sorted_stranded(&self) -> (r: Vec<StrandedEntry>)
        requires
            self.wf(),
        ensures
            sorted(r@),
            r@.to_multiset() == self.entries_spec().to_multiset(),
            forall|i: int, j: int|
                0 <= i < j < r@.len() ==> #[trigger] r@[i].1.1 > #[trigger] r@[j].1.1 || (r@[i].1.1 == r@[j].1.1
                    && r@[i].1.0 >= r@[j].1.0),
    {
        let n = self.stranded_nodes.len();
        let mut v: Vec<StrandedEntry> = Vec::new();
        let mut i: usize = 0;
        while i < n
            invariant
                n == self.stranded_nodes.entry_seq().len(),
                0 <= i <= n,
                v@ == self.stranded_nodes.entry_seq().take(i as int),
            decreases n - i,
        {
            let e = self.stranded_nodes.entry_at(i);
            v.push(*e);
            assert(self.stranded_nodes.entry_seq().take(i + 1) =~= self.stranded_nodes.entry_seq().take(i as int).push(*e));
            i = i + 1;
        }
        assert(self.stranded_nodes.entry_seq().take(n as int) =~= self.stranded_nodes.entry_seq());
        let r = sort_vec(v);
        proof {
            lemma_stranded_order(r@);
        }
        r
    }

    /// The rounds each stranded node was stranded in, fewest first.
    pub fn sorted_stranded_counts(&self) -> (r: Vec<u64>)
        requires
            self.wf(),
        ensures
            sorted(r@),
            r@.to_multiset() == self.entries_spec().map_values(|e: StrandedEntry| e.1.1).to_multiset(),
            forall|i: int, j: int| 0 <= i < j < r@.len() ==> #[trigger] r@[i] <= #[trigger] r@[j],
    {
        let n = self.stranded_nodes.len();
        let ghost es = self.stranded_nodes.entry_seq();
        let mut v: Vec<u64> = Vec::new();
        let mut i: usize = 0;
        while i < n
            invariant
                es == self.stranded_nodes.entry_seq(),
                n == es.len(),
                0 <= i <= n,
                v@ == es.take(i as int).map_values(|e: StrandedEntry| e.1.1),
            decreases n - i,
        {
            let e = self.stranded_nodes.entry_at(i);
            v.push(e.1.1);
            assert(es.take(i + 1).map_values(|e: StrandedEntry| e.1.1) =~= es.take(i as int).map_values(
                |e: StrandedEntry| e.1.1,
            ).push(e.1.1));
            i = i + 1;
        }
        assert(es.take(n as int) =~= es);
        let r = sort_vec(v);
        proof {
            crate::sort::lemma_sorted_u64_increasing(r@);
        }
        r
    }

    /// The stakes of the stranded nodes, least first.
    pub fn sorted_stranded_stakes(&self) -> (r: Vec<u64>)
        requires
            self.wf(),
        ensures
            sorted(r@),
            r@.to_multiset() == self.entries_spec().map_values(|e: StrandedEntry| e.1.0).to_multiset(),
            forall|i: int, j: int| 0 <= i < j < r@.len() ==> #[trigger] r@[i] <= #[trigger] r@[j],
    {
        let n = self.stranded_nodes.len();
        let ghost es = self.stranded_nodes.entry_seq();
        let mut v: Vec<u64> = Vec::new();
        let mut i: usize = 0;
        while i < n
            invariant
                es == self.stranded_nodes.entry_seq(),
                n == es.len(),
                0 <= i <= n,
                v@ == es.take(i as int).map_values(|e: StrandedEntry| e.1.0),
            decreases n - i,
        {
            let e = self.stranded_nodes.entry_at(i);
            v.push(e.1.0);
            assert(es.take(i + 1).map_values(|e: StrandedEntry| e.1.0) =~= es.take(i as int).map_values(
                |e: StrandedEntry| e.1.0,
            ).push(e.1.0));
            i = i + 1;
        }
        assert(es.take(n as int) =~= es);
        let r = sort_vec(v);
        proof {
            crate::sort::lemma_sorted_u64_increasing(r@);
        }
        r
    }

    /// The number of nodes stranded at least once.
    pub fn stranded_count(&self) -> (n: usize)
        requires
            self.wf(),
        ensures
            n == self.entries_spec().len(),
    {
        self.stranded_nodes.len()
    }

    /// The total of the rounds stranded, as last calculated.
    pub fn get_total_stranded_iterations(&self) -> (t: u64)
        ensures
            t == self.calculated().0,
    {
        self.total_stranded_iterations
    }

    /// The number of rounds recorded.
    pub fn get_total_gossip_iterations(&self) -> (t: u64)
        ensures
            t == self.iterations(),
    {
        self.total_gossip_iterations
    }

    /// The number of nodes in the network, taken at the first round.
    pub fn get_total_nodes(&self) -> (t: usize)
        ensures
            t == self.nodes_in_network(),
    {
        self.total_nodes
    }

    /// The total, most and least stake of the stranded nodes, as last calculated.
    pub fn get_stranded_stake_stats(&self) -> (r: (u64, u64, u64))
        ensures
            r == (self.calculated().1, self.calculated().2, self.calculated().3),
    {
        (self.total_stranded_stake, self.stranded_node_max_stake, self.stranded_node_min_stake)
    }

    /// The histogram as last built.
    pub fn get_histogram(&self) -> (h: &Histogram)
        ensures
            *h == self.histogram_spec(),
    {
        &self.histogram
    }
}

/// The sums over a prefix one longer add the next entry.
proof fn lemma_sums_prefix(es: Seq<StrandedEntry>, k: int)
    requires
        0 < k <= es.len(),
    ensures
        sum_times(es.take(k)) == sum_times(es.take(k - 1)) + es[k - 1].1.1,
        sum_stakes(es.take(k)) == sum_stakes(es.take(k - 1)) + es[k - 1].1.0,
        sum_times(es.take(k)) <= sum_times(es),
        sum_stakes(es.take(k)) <= sum_stakes(es),
    decreases es.len(),
{
    assert(es.take(k).drop_last() =~= es.take(k - 1));
    if k < es.len() {
        lemma_sums_prefix(es.drop_last(), k);
        assert(es.drop_last().take(k) =~= es.take(k));
        assert(es.drop_last().take(k - 1) =~= es.take(k - 1));
    } else {
        assert(es.take(k) =~= es);
    }
}


/// The fewest and most rounds stranded bound every entry's rounds.
proof fn lemma_times_bounds(es: Seq<StrandedEntry>)
    ensures
        forall|i: int| 0 <= i < es.len() ==> min_times(es) <= #[trigger] es[i].1.1 <= max_times(es),
    decreases es.len(),
{
    if es.len() > 0 {
        let d = es.drop_last();
        lemma_times_bounds(d);
        assert forall|i: int| 0 <= i < es.len() implies min_times(es) <= #[trigger] es[i].1.1 <= max_times(es) by {
            if i < es.len() - 1 {
                assert(es[i] == d[i]);
            }
        }
    }
}

/// The extremes over a prefix one longer take in the next entry.
proof fn lemma_times_prefix(es: Seq<StrandedEntry>, k: int)
    requires
        0 < k <= es.len(),
    ensures
        min_times(es.take(k)) == (if k == 1 || es[k - 1].1.1 < min_times(es.take(k - 1)) {
            es[k - 1].1.1
        } else {
            min_times(es.take(k - 1))
        }),
        max_times(es.take(k)) == (if k == 1 || es[k - 1].1.1 > max_times(es.take(k - 1)) {
            es[k - 1].1.1
        } else {
            max_times(es.take(k - 1))
        }),
{
    assert(es.take(k).drop_last() =~= es.take(k - 1));
}

impl StrandedNodeCollection {
    /// Builds the histogram of how many times nodes were stranded, with
    /// `num_buckets` buckets between the fewest and most rounds stranded: each node
    /// stranded `t` times adds one to bucket `(t - min) / range`, where `range` is
    /// `(max - min)` over `num_buckets`, rounded up; a node past the last bucket
    /// counts in the last one.
    pub fn build_historgram(&mut self, num_buckets: u64)
        requires
            old(self).wf(),
            num_buckets > 0,
            max_times(old(self).entries_spec()) - min_times(old(self).entries_spec()) + num_buckets - 1 <= u64::MAX,
            old(self).entries_spec().len() > 0 ==> max_times(old(self).entries_spec()) > min_times(old(self).entries_spec()),
            forall|b: u64|
                #[trigger] old(self).histogram_spec().counts().contains_key(b) ==> old(self).histogram_spec().counts()[b]
                    + old(self).entries_spec().len() <= u64::MAX,
        ensures
            final(self).wf(),
            final(self).entries_spec() == old(self).entries_spec(),
            final(self).stranded_map() == old(self).stranded_map(),
            final(self).iterations() == old(self).iterations(),
            final(self).nodes_in_network() == old(self).nodes_in_network(),
            final(self).calculated() == old(self).calculated(),
            final(self).histogram_spec().num_buckets_spec() == num_buckets,
            final(self).histogram_spec().min_spec() == min_times(old(self).entries_spec()),
            final(self).histogram_spec().max_spec() == max_times(old(self).entries_spec()),
            final(self).histogram_spec().range_spec() == (max_times(old(self).entries_spec()) - min_times(
                old(self).entries_spec(),
            ) + num_buckets - 1) / (num_buckets as int),
            final(self).histogram_spec().counts() == bucket_counts(
                old(self).histogram_spec().counts(),
                old(self).entries_spec(),
                min_times(old(self).entries_spec()),
                final(self).histogram_spec().range_spec(),
                num_buckets,
            ),
            forall|b: u64| #[trigger] final(self).histogram_spec().counts().contains_key(b) ==> old(
                self,
            ).histogram_spec().counts().contains_key(b) || b < num_buckets,
    {
        let ghost es = self.stranded_nodes.entry_seq();
        let n = self.stranded_nodes.len();
        self.histogram.set_num_buckets(num_buckets);
        let mut least: u64 = 0;
        let mut most: u64 = 0;
        let mut i: usize = 0;
        while i < n
            invariant
                es == self.stranded_nodes.entry_seq(),
                n == es.len(),
                0 <= i <= n,
                least == min_times(es.take(i as int)),
                most == max_times(es.take(i as int)),
            decreases n - i,
        {
            let t = self.stranded_nodes.entry_at(i).1.1;
            proof {
                lemma_times_prefix(es, i + 1);
            }
            if i == 0 || t < least {
                least = t;
            }
            if i == 0 || t > most {
                most = t;
            }
            i = i + 1;
        }
        proof {
            assert(es.take(n as int) =~= es);
            lemma_times_bounds(es);
            if n > 0 {
                assert(min_times(es) <= es[0].1.1 <= max_times(es));
            }
            assert(least == min_times(es));
            assert(most == max_times(es));
            assert(es == old(self).entries_spec());
            assert(least <= most);
            if n > 0 {
                assert((most - least + num_buckets - 1) / (num_buckets as int) > 0) by (nonlinear_arith)
                    requires
                        most - least >= 1,
                        num_buckets >= 1,
                ;
            }
        }
        self.histogram.set_min_stranded(least);
        self.histogram.set_max_stranded(most);
        let range = (most - least + (num_buckets - 1)) / num_buckets;
        self.histogram.set_bucket_range(range);
        let ghost base = self.histogram.entries@;
        assert(base == old(self).histogram_spec().counts());
        let mut j: usize = 0;
        while j < n
            invariant
                es == self.stranded_nodes.entry_seq(),
                n == es.len(),
                0 <= j <= n,
                least == min_times(es),
                n > 0 ==> range > 0,
                forall|q: int| 0 <= q < es.len() ==> min_times(es) <= #[trigger] es[q].1.1,
                forall|b: u64| #[trigger] base.contains_key(b) ==> base[b] + es.len() <= u64::MAX,
                self.histogram.entries@ == bucket_counts(base, es.take(j as int), least, range, num_buckets),
                num_buckets > 0,
                forall|b: u64| #[trigger] self.histogram.entries@.contains_key(b) ==> base.contains_key(b) || b < num_buckets,
                forall|b: u64|
                    #[trigger] self.histogram.entries@.contains_key(b) ==> self.histogram.entries@[b] <= j + (if base.contains_key(b) {
                        base[b] as int
                    } else {
                        0int
                    }),
                self.histogram.num_buckets == num_buckets,
                self.total_gossip_iterations == old(self).total_gossip_iterations,
                self.total_nodes == old(self).total_nodes,
                self.total_stranded_iterations == old(self).total_stranded_iterations,
                self.total_stranded_stake == old(self).total_stranded_stake,
                self.stranded_node_max_stake == old(self).stranded_node_max_stake,
                self.stranded_node_min_stake == old(self).stranded_node_min_stake,
                self.histogram.min_stranded == least,
                self.histogram.max_stranded == most,
                self.histogram.bucket_range == range,
            decreases n - j,
        {
            let t = self.stranded_nodes.entry_at(j).1.1;
            let raw = (t - least) / range;
            let bucket = if raw < num_buckets {
                raw
            } else {
                num_buckets - 1
            };
            let c: u64 = match self.histogram.entries.get(&bucket) {
                Some(c) => *c,
                None => 0,
            };
            proof {
                assert(es.take(j + 1).drop_last() =~= es.take(j as int));
                assert(es.take(j + 1).last() == es[j as int]);
                if !base.contains_key(bucket) {
                    assert(c <= j);
                }
            }
            self.histogram.entries.insert(bucket, c + 1);
            j = j + 1;
        }
        proof {
            assert(es.take(n as int) =~= es);
        }
    }
}

/// Each stranded node falls in exactly one bucket: starting from no counts, the count
/// of every bucket is the number of nodes in it, and the buckets counted are those
/// that hold a node.
pub proof fn lemma_bucket_counts_count(s: Seq<StrandedEntry>, min: u64, range: u64, num_buckets: u64, b: u64)
    requires
        s.len() <= u64::MAX,
    ensures
        bucket_counts(Map::empty(), s, min, range, num_buckets).contains_key(b) <==> in_bucket(s, min, range, num_buckets, b) > 0,
        bucket_counts(Map::empty(), s, min, range, num_buckets).contains_key(b) ==> bucket_counts(
            Map::empty(),
            s,
            min,
            range,
            num_buckets,
        )[b] == in_bucket(s, min, range, num_buckets, b),
    decreases s.len(),
{
    if s.len() > 0 {
        lemma_bucket_counts_count(s.drop_last(), min, range, num_buckets, b);
        lemma_in_bucket_bound(s.drop_last(), min, range, num_buckets, b);
    }
}

/// No bucket holds more nodes than there are.
proof fn lemma_in_bucket_bound(s: Seq<StrandedEntry>, min: u64, range: u64, num_buckets: u64, b: u64)
    ensures
        in_bucket(s, min, range, num_buckets, b) <= s.len(),
    decreases s.len(),
{
    if s.len() > 0 {
        lemma_in_bucket_bound(s.drop_last(), min, range, num_buckets, b);
    }
}

/// With the bucket width of the histogram, a node stranded between the fewest and
/// most times falls in a bucket below the number of buckets: its own bucket, which
/// is at most one past the last, or the last one.
pub proof fn lemma_bucket_within(min: u64, max: u64, num_buckets: u64, t: u64)
    requires
        num_buckets > 0,
        min <= t <= max,
        max > min,
    ensures
        (max - min + num_buckets - 1) / (num_buckets as int) > 0,
        (t - min) / ((max - min + num_buckets - 1) / (num_buckets as int)) <= num_buckets,
        bucket_of(t, min, ((max - min + num_buckets - 1) / (num_buckets as int)) as u64, num_buckets) < num_buckets,
{
    let d = max - min;
    let nb = num_buckets as int;
    let r = (d + nb - 1) / nb;
    assert(r >= 1) by (nonlinear_arith)
        requires
            d >= 1,
            nb >= 1,
            r == (d + nb - 1) / nb,
    ;
    assert(r * nb >= d) by (nonlinear_arith)
        requires
            nb >= 1,
            r == (d + nb - 1) / nb,
    ;
    assert((t - min) / r <= nb) by (nonlinear_arith)
        requires
            0 <= t - min <= d,
            r >= 1,
            r * nb >= d,
    ;
    assert(r <= d) by (nonlinear_arith)
        requires
            d >= 1,
            nb >= 1,
            r == (d + nb - 1) / nb,
    ;
    assert(r as u64 == r);
}


/// The hop counts that enter the statistics: those of nodes reached (not `u64::MAX`)
/// other than the origin (not 0), in order.
pub open spec fn kept_hops(s: Seq<u64>) -> Seq<u64>
    decreases s.len(),
{
    if s.len() == 0 {
        Seq::empty()
    } else if s.last() != u64::MAX && s.last() != 0 {
        kept_hops(s.drop_last()).push(s.last())
    } else {
        kept_hops(s.drop_last())
    }
}

/// The total of a list of counts.
pub open spec fn total(s: Seq<u64>) -> nat
    decreases s.len(),
{
    if s.len() == 0 {
        0
    } else {
        total(s.drop_last()) + s.last() as nat
    }
}

/// The statistics of a sorted, non-empty list of hop counts: (number, total, lower
/// middle, upper middle, most, fewest).
pub open spec fn stat_parts(k: Seq<u64>) -> (usize, u64, u64, u64, u64, u64) {
    (
        k.len() as usize,
        total(k) as u64,
        if k.len() % 2 == 0 {
            k[k.len() / 2 - 1]
        } else {
            k[(k.len() / 2) as int]
        },
        k[(k.len() / 2) as int],
        k.last(),
        k[0],
    )
}

/// The hop statistics of one round: how many nodes were reached in at least one hop,
/// the total of their hops, the two middle hop counts (the same one when there is an
/// odd number), and the most and fewest hops. The mean is the total over the number,
/// the median the average of the two middle counts.
#[derive(Debug, Clone, Copy)]
pub struct HopsStat {
    count: usize,
    sum: u64,
    median_low: u64,
    median_high: u64,
    max: u64,
    min: u64,
}

impl HopsStat {
    /// The statistics as (number, total, lower middle, upper middle, most, fewest).
    pub closed spec fn parts(self) -> (usize, u64, u64, u64, u64, u64) {
        (self.count, self.sum, self.median_low, self.median_high, self.max, self.min)
    }

    /// The statistics of no round: every part zero.
    pub fn new_empty() -> (h: Self)
        ensures
            h.parts() == (0usize, 0u64, 0u64, 0u64, 0u64, 0u64),
    {
        HopsStat { count: 0, sum: 0, median_low: 0, median_high: 0, max: 0, min: 0 }
    }

    /// Sorts the hop counts of a round in place, and computes the statistics of those of
    /// nodes reached in at least one hop.
    pub fn new(hops: &mut Vec<u64>) -> (h: Self)
        requires
            exists|i: int| 0 <= i < old(hops)@.len() && #[trigger] old(hops)@[i] != u64::MAX && old(hops)@[i] != 0,
            total(kept_hops(old(hops)@)) <= u64::MAX,
        ensures
            sorted(final(hops)@),
            final(hops)@.to_multiset() == old(hops)@.to_multiset(),
            kept_hops(final(hops)@).len() > 0,
            h.parts() == stat_parts(kept_hops(final(hops)@)),
    {
        let ghost before = hops@;
        let mut v: Vec<u64> = Vec::new();
        std::mem::swap(&mut v, hops);
        let sorted_hops = sort_vec(v);
        *hops = sorted_hops;
        proof {
            lemma_kept_hops_perm(before, hops@);
        }
        let mut k: Vec<u64> = Vec::new();
        let mut i: usize = 0;
        while i < hops.len()
            invariant
                0 <= i <= hops@.len(),
                k@ == kept_hops(hops@.take(i as int)),
            decreases hops@.len() - i,
        {
            let x = hops[i];
            assert(hops@.take(i + 1).drop_last() =~= hops@.take(i as int));
            assert(hops@.take(i + 1).last() == x);
            if x != u64::MAX && x != 0 {
                k.push(x);
            }
            i = i + 1;
        }
        assert(hops@.take(hops@.len() as int) =~= hops@);
        let count = k.len();
        let mut sum: u64 = 0;
        let mut j: usize = 0;
        while j < count
            invariant
                count == k@.len(),
                0 <= j <= count,
                total(k@) <= u64::MAX,
                sum == total(k@.take(j as int)),
            decreases count - j,
        {
            proof {
                lemma_total_prefix(k@, j + 1);
            }
            sum = sum + k[j];
            j = j + 1;
        }
        assert(k@.take(count as int) =~= k@);
        let mid = count / 2;
        let low = if count % 2 == 0 {
            k[mid - 1]
        } else {
            k[mid]
        };
        HopsStat { count, sum, median_low: low, median_high: k[mid], max: k[count - 1], min: k[0] }
    }

    /// The number of hop counts and their total, of which the mean is the quotient.
    pub fn mean_parts(&self) -> (r: (usize, u64))
        ensures
            r == (self.parts().0, self.parts().1),
    {
        (self.count, self.sum)
    }

    /// The two middle hop counts, of which the median is the average.
    pub fn median_parts(&self) -> (r: (u64, u64))
        ensures
            r == (self.parts().2, self.parts().3),
    {
        (self.median_low, self.median_high)
    }

    /// The most hops.
    pub fn max(&self) -> (r: u64)
        ensures
            r == self.parts().4,
    {
        self.max
    }

    /// The fewest hops.
    pub fn min(&self) -> (r: u64)
        ensures
            r == self.parts().5,
    {
        self.min
    }
}

impl Default for HopsStat {
    fn default() -> (h: Self)
        ensures
            h.parts() == (0usize, 0u64, 0u64, 0u64, 0u64, 0u64),
    {
        HopsStat::new_empty()
    }
}

/// The total over a prefix one longer adds the next count, and no prefix exceeds the
/// whole.
proof fn lemma_total_prefix(s: Seq<u64>, k: int)
    requires
        0 < k <= s.len(),
    ensures
        total(s.take(k)) == total(s.take(k - 1)) + s[k - 1],
        total(s.take(k)) <= total(s),
    decreases s.len(),
{
    assert(s.take(k).drop_last() =~= s.take(k - 1));
    if k < s.len() {
        lemma_total_prefix(s.drop_last(), k);
        assert(s.drop_last().take(k) =~= s.take(k));
        assert(s.drop_last().take(k - 1) =~= s.take(k - 1));
    } else {
        assert(s.take(k) =~= s);
    }
}

/// The kept hop counts of a rearrangement hold the same counts, and so one exists in
/// the one exactly when in the other, with the same total.
proof fn lemma_kept_hops_perm(a: Seq<u64>, b: Seq<u64>)
    requires
        a.to_multiset() == b.to_multiset(),
    ensures
        kept_hops(a).to_multiset() == kept_hops(b).to_multiset(),
        kept_hops(a).len() == kept_hops(b).len(),
        total(kept_hops(a)) == total(kept_hops(b)),
        (exists|i: int| 0 <= i < a.len() && #[trigger] a[i] != u64::MAX && a[i] != 0) ==> kept_hops(b).len() > 0,
{
    lemma_kept_multiset(a);
    lemma_kept_multiset(b);
    assert(kept_hops(a).to_multiset() =~= kept_hops(b).to_multiset());
    kept_hops(a).to_multiset_ensures();
    kept_hops(b).to_multiset_ensures();
    lemma_total_multiset(kept_hops(a), kept_hops(b));
    if exists|i: int| 0 <= i < a.len() && #[trigger] a[i] != u64::MAX && a[i] != 0 {
        let i = choose|i: int| 0 <= i < a.len() && #[trigger] a[i] != u64::MAX && a[i] != 0;
        a.to_multiset_ensures();
        assert(a.contains(a[i]));
        assert(kept_hops(a).to_multiset().count(a[i]) == a.to_multiset().count(a[i]));
        assert(kept_hops(a).to_multiset().count(a[i]) > 0);
    }
}

/// The kept hop counts hold each count other than 0 and `u64::MAX` as often as the
/// whole list, and those two never.
proof fn lemma_kept_multiset(s: Seq<u64>)
    ensures
        forall|x: u64|
            #[trigger] kept_hops(s).to_multiset().count(x) == (if x != u64::MAX && x != 0 {
                s.to_multiset().count(x)
            } else {
                0
            }),
    decreases s.len(),
{
    broadcast use vstd::seq_lib::group_seq_properties;
    broadcast use vstd::multiset::group_multiset_axioms;

    if s.len() == 0 {
        assert(kept_hops(s) =~= Seq::<u64>::empty());
    } else {
        let d = s.drop_last();
        lemma_kept_multiset(d);
        assert(s =~= d.push(s.last()));
        vstd::seq_lib::to_multiset_build(d, s.last());
        if s.last() != u64::MAX && s.last() != 0 {
            vstd::seq_lib::to_multiset_build(kept_hops(d), s.last());
        }
    }
}

/// Two lists holding the same counts have the same total.
proof fn lemma_total_multiset(a: Seq<u64>, b: Seq<u64>)
    requires
        a.to_multiset() == b.to_multiset(),
    ensures
        total(a) == total(b),
    decreases a.len(),
{
    broadcast use vstd::seq_lib::group_seq_properties;
    broadcast use vstd::multiset::group_multiset_axioms;

    a.to_multiset_ensures();
    b.to_multiset_ensures();
    if a.len() > 0 {
        let x = a.last();
        let d = a.drop_last();
        assert(a =~= d.push(x));
        vstd::seq_lib::to_multiset_build(d, x);
        assert(a.to_multiset().count(x) > 0);
        assert(b.contains(x));
        let j = choose|j: int| 0 <= j < b.len() && b[j] == x;
        let e = b.remove(j);
        vstd::seq_lib::to_multiset_remove(b, j);
        assert(d.to_multiset() =~= e.to_multiset());
        lemma_total_multiset(d, e);
        lemma_total_remove(b, j);
    } else {
        assert(b.to_multiset().len() == 0);
        assert(b.len() == 0);
    }
}

/// Taking one count out of a list takes it off the total.
proof fn lemma_total_remove(b: Seq<u64>, j: int)
    requires
        0 <= j < b.len(),
    ensures
        total(b) == total(b.remove(j)) + b[j],
    decreases b.len(),
{
    if j < b.len() - 1 {
        lemma_total_remove(b.drop_last(), j);
        assert(b.remove(j).drop_last() =~= b.drop_last().remove(j));
        assert(b.remove(j).last() == b.last());
    } else {
        assert(b.remove(j) =~= b.drop_last());
    }
}


/// The hop counts other than `u64::MAX`, in order.
pub open spec fn reached_hops(s: Seq<u64>) -> Seq<u64>
    decreases s.len(),
{
    if s.len() == 0 {
        Seq::empty()
    } else if s.last() != u64::MAX {
        reached_hops(s.drop_last()).push(s.last())
    } else {
        reached_hops(s.drop_last())
    }
}

/// The hop statistics over many rounds: those of each round, every hop count seen, and
/// the statistics over all of them and over each round's most hops.
#[derive(Debug, Clone)]
pub struct HopsStatCollection {
    per_round_stats: Vec<HopsStat>,
    raw_hop_collection: Vec<u64>,
    aggregate_stats: HopsStat,
    last_delivery_hop_stats: HopsStat,
}

impl HopsStatCollection {
    /// The statistics of each round, in order.
    pub closed spec fn rounds(self) -> Seq<HopsStat> {
        self.per_round_stats@
    }

    /// Every hop count of a node reached, over all rounds.
    pub closed spec fn raw(self) -> Seq<u64> {
        self.raw_hop_collection@
    }

    /// The statistics over all hop counts, as last computed.
    pub closed spec fn aggregate(self) -> HopsStat {
        self.aggregate_stats
    }

    /// The statistics over each round's most hops, as last computed.
    pub closed spec fn last_delivery(self) -> HopsStat {
        self.last_delivery_hop_stats
    }

    /// A collection with no round.
    pub fn new() -> (c: Self)
        ensures
            c.rounds() == Seq::<HopsStat>::empty(),
            c.raw() == Seq::<u64>::empty(),
            c.aggregate().parts() == (0usize, 0u64, 0u64, 0u64, 0u64, 0u64),
            c.last_delivery().parts() == (0usize, 0u64, 0u64, 0u64, 0u64, 0u64),
    {
        HopsStatCollection {
            per_round_stats: Vec::new(),
            raw_hop_collection: Vec::new(),
            aggregate_stats: HopsStat::new_empty(),
            last_delivery_hop_stats: HopsStat::new_empty(),
        }
    }

    /// Adds a round: its statistics, and its hop counts of nodes reached (sorted, as
    /// the statistics sort them in place).
    pub fn insert(&mut self, hops: &mut Vec<u64>)
        requires
            exists|i: int| 0 <= i < old(hops)@.len() && #[trigger] old(hops)@[i] != u64::MAX && old(hops)@[i] != 0,
            total(kept_hops(old(hops)@)) <= u64::MAX,
        ensures
            sorted(final(hops)@),
            final(hops)@.to_multiset() == old(hops)@.to_multiset(),
            kept_hops(final(hops)@).len() > 0,
            final(self).rounds().len() == old(self).rounds().len() + 1,
            final(self).rounds().drop_last() == old(self).rounds(),
            final(self).rounds().last().parts() == stat_parts(kept_hops(final(hops)@)),
            final(self).raw() == old(self).raw() + reached_hops(final(hops)@),
            final(self).aggregate() == old(self).aggregate(),
            final(self).last_delivery() == old(self).last_delivery(),
    {
        let stat = HopsStat::new(hops);
        self.per_round_stats.push(stat);
        let ghost raw0 = self.raw_hop_collection@;
        let ghost rounds1 = self.per_round_stats@;
        assert(rounds1.drop_last() =~= old(self).per_round_stats@);
        let mut i: usize = 0;
        while i < hops.len()
            invariant
                0 <= i <= hops@.len(),
                self.per_round_stats@ == rounds1,
                self.aggregate_stats == old(self).aggregate_stats,
                self.last_delivery_hop_stats == old(self).last_delivery_hop_stats,
                self.raw_hop_collection@ == raw0 + reached_hops(hops@.take(i as int)),
            decreases hops@.len() - i,
        {
            let x = hops[i];
            assert(hops@.take(i + 1).drop_last() =~= hops@.take(i as int));
            assert(hops@.take(i + 1).last() == x);
            if x != u64::MAX {
                self.raw_hop_collection.push(x);
                assert(raw0 + reached_hops(hops@.take(i + 1)) =~= (raw0 + reached_hops(hops@.take(i as int))).push(x));
            }
            i = i + 1;
        }
        assert(hops@.take(hops@.len() as int) =~= hops@);
    }

    /// The statistics of round `index`.
    pub fn get_stat_by_iteration(&self, index: usize) -> (h: &HopsStat)
        requires
            index < self.rounds().len(),
        ensures
            *h == self.rounds()[index as int],
    {
        &self.per_round_stats[index]
    }

    /// Computes the statistics over every hop count seen (sorting them in place).
    pub fn aggregate_hop_stats(&mut self)
        requires
            exists|i: int| 0 <= i < old(self).raw().len() && #[trigger] old(self).raw()[i] != u64::MAX && old(self).raw()[i] != 0,
            total(kept_hops(old(self).raw())) <= u64::MAX,
        ensures
            sorted(final(self).raw()),
            final(self).raw().to_multiset() == old(self).raw().to_multiset(),
            final(self).aggregate().parts() == stat_parts(kept_hops(final(self).raw())),
            final(self).rounds() == old(self).rounds(),
            final(self).last_delivery() == old(self).last_delivery(),
    {
        self.aggregate_stats = HopsStat::new(&mut self.raw_hop_collection);
    }

    /// The statistics over every hop count seen, as last computed.
    pub fn get_aggregate_hop_stats(&self) -> (h: &HopsStat)
        ensures
            *h == self.aggregate(),
    {
        &self.aggregate_stats
    }

    /// Computes the statistics over each round's most hops.
    pub fn calc_last_delivery_hop_stats(&mut self)
        requires
            exists|i: int| 0 <= i < old(self).rounds().len() && #[trigger] old(self).rounds()[i].parts().4 != u64::MAX
                && old(self).rounds()[i].parts().4 != 0,
            total(kept_hops(old(self).rounds().map_values(|h: HopsStat| h.parts().4))) <= u64::MAX,
        ensures
            exists|t: Seq<u64>|
                #[trigger] sorted(t) && t.to_multiset() == old(self).rounds().map_values(|h: HopsStat| h.parts().4).to_multiset()
                    && final(self).last_delivery().parts() == stat_parts(kept_hops(t)),
            final(self).rounds() == old(self).rounds(),
            final(self).raw() == old(self).raw(),
            final(self).aggregate() == old(self).aggregate(),
    {
        let ghost maxes = self.per_round_stats@.map_values(|h: HopsStat| h.parts().4);
        let mut v: Vec<u64> = Vec::new();
        let mut i: usize = 0;
        while i < self.per_round_stats.len()
            invariant
                0 <= i <= self.per_round_stats@.len(),
                maxes == self.per_round_stats@.map_values(|h: HopsStat| h.parts().4),
                v@ == maxes.take(i as int),
            decreases self.per_round_stats@.len() - i,
        {
            v.push(self.per_round_stats[i].max());
            assert(maxes.take(i + 1) =~= maxes.take(i as int).push(maxes[i as int]));
            i = i + 1;
        }
        assert(maxes.take(maxes.len() as int) =~= maxes);
        proof {
            let q = choose|q: int| 0 <= q < self.rounds().len() && #[trigger] self.rounds()[q].parts().4 != u64::MAX
                && self.rounds()[q].parts().4 != 0;
            assert(v@[q] == maxes[q]);
        }
        let stat = HopsStat::new(&mut v);
        assert(sorted(v@));
        self.last_delivery_hop_stats = stat;
    }

    /// The statistics over each round's most hops, as last computed.
    pub fn get_last_delivery_hop_stats(&self) -> (h: &HopsStat)
        ensures
            *h == self.last_delivery(),
    {
        &self.last_delivery_hop_stats
    }
}

} // verus!
