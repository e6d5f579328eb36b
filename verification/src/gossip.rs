//! Gossip nodes and the cluster simulation: how a message from an origin spreads
//! through the nodes' push active sets.

use vstd::prelude::*;
use std::sync::Arc;
use std::time::Instant;
use std::collections::VecDeque;
use crossbeam_channel::{Receiver, Sender};
use crate::pubkey::{Pubkey, key_eq, vec_contains_key, key_le};
use crate::key_map::{PubkeyMap, PubkeySet, insert_nested, inner_wf, inner_after_insert, keys_of};
use crate::push_active_set::{
    PushActiveSet,
    EntryPairs,
    unpruned_nodes,
    push_bucket,
    entries_after_prunes,
    pairs_rotated,
    shuffled_nodes,
};
use crate::received_cache::ReceivedCache;
use crate::gossip_stats::RelativeMessageRedundancy;
use crate::sort::{sort_vec, sorted, TotalOrder};
use crate::Error;
use solana_sdk::pubkey::ParsePubkeyError;
use std::str::FromStr;
use vstd::string::StringExecFns;

verus! {

/// The number of distinct origins that a node tracks.
pub const CRDS_UNIQUE_PUBKEY_CAPACITY: usize = 8192;

/// The outside monotonic clock reading.
#[verifier::external_type_specification]
#[verifier::external_body]
pub struct ExInstant(Instant);

/// The sending half of an outside channel.
#[verifier::external_type_specification]
#[verifier::external_body]
#[verifier::reject_recursive_types(T)]
pub struct ExSender<T>(Sender<T>);

/// The receiving half of an outside channel.
#[verifier::external_type_specification]
#[verifier::external_body]
#[verifier::reject_recursive_types(T)]
pub struct ExReceiver<T>(Receiver<T>);

/// Calls `Instant::now`: a reading of the monotonic clock, of which nothing is stated.
#[verifier::external_body]
fn instant_now() -> Instant {
    Instant::now()
}

/// Calls `crossbeam_channel::unbounded`: the two halves of a new channel, of which
/// nothing is stated.
#[verifier::external_body]
fn packet_channel() -> (Sender<Arc<Packet>>, Receiver<Arc<Packet>>) {
    crossbeam_channel::unbounded()
}

/// The kinds of experiment that a simulation can sweep over.
#[derive(Clone, Copy, Debug, PartialEq, Eq, Structural)]
pub enum Testing {
    ActiveSetSize,
    PushFanout,
    MinIngressNodes,
    PruneStakeThreshold,
    OriginRank,
    RotateProbability,
    FailNodes,
    NoTest,
}

/// The text a kind of experiment is shown as.
pub open spec fn testing_name(t: Testing) -> Seq<char> {
    match t {
        Testing::ActiveSetSize => "ActiveSetSize"@,
        Testing::PushFanout => "PushFanout()"@,
        Testing::MinIngressNodes => "MinIngressNodes()"@,
        Testing::PruneStakeThreshold => "PruneStakeThreshold()"@,
        Testing::OriginRank => "OriginRank()"@,
        Testing::RotateProbability => "RotateProbability()"@,
        Testing::FailNodes => "FailNodes()"@,
        Testing::NoTest => "NoTest()"@,
    }
}

/// The command-line name of each kind of experiment.
pub open spec fn command_name(t: Testing) -> Seq<char> {
    match t {
        Testing::ActiveSetSize => "active-set-size"@,
        Testing::PushFanout => "push-fanout"@,
        Testing::MinIngressNodes => "min-ingress-nodes"@,
        Testing::PruneStakeThreshold => "prune-stake-threshold"@,
        Testing::OriginRank => "origin-rank"@,
        Testing::RotateProbability => "rotate-probability"@,
        Testing::FailNodes => "fail-nodes"@,
        Testing::NoTest => "no-test"@,
    }
}

/// The kind of experiment that a command-line name stands for, if any.
pub open spec fn testing_of_name(s: Seq<char>) -> Option<Testing> {
    if s == "active-set-size"@ {
        Some(Testing::ActiveSetSize)
    } else if s == "push-fanout"@ {
        Some(Testing::PushFanout)
    } else if s == "min-ingress-nodes"@ {
        Some(Testing::MinIngressNodes)
    } else if s == "prune-stake-threshold"@ {
        Some(Testing::PruneStakeThreshold)
    } else if s == "origin-rank"@ {
        Some(Testing::OriginRank)
    } else if s == "rotate-probability"@ {
        Some(Testing::RotateProbability)
    } else if s == "fail-nodes"@ {
        Some(Testing::FailNodes)
    } else if s == "no-test"@ {
        Some(Testing::NoTest)
    } else {
        None
    }
}

impl Testing {
    /// The text the kind of experiment is shown as.
    pub fn name(&self) -> (s: &'static str)
        ensures
            s@ == testing_name(*self),
    {
        match self {
            Testing::ActiveSetSize => "ActiveSetSize",
            Testing::PushFanout => "PushFanout()",
            Testing::MinIngressNodes => "MinIngressNodes()",
            Testing::PruneStakeThreshold => "PruneStakeThreshold()",
            Testing::OriginRank => "OriginRank()",
            Testing::RotateProbability => "RotateProbability()",
            Testing::FailNodes => "FailNodes()",
            Testing::NoTest => "NoTest()",
        }
    }

    /// The kind of experiment a command-line name stands for, or the message
    /// "Invalid test type: " followed by the name.
    pub fn from_name(s: &str) -> (r: Result<Testing, String>)
        ensures
            match testing_of_name(s@) {
                Some(t) => r == Ok::<Testing, String>(t),
                None => r matches Err(e) && e@ == "Invalid test type: "@ + s@,
            },
    {
        if crate::str_eq(s, "active-set-size") {
            Ok(Testing::ActiveSetSize)
        } else if crate::str_eq(s, "push-fanout") {
            Ok(Testing::PushFanout)
        } else if crate::str_eq(s, "min-ingress-nodes") {
            Ok(Testing::MinIngressNodes)
        } else if crate::str_eq(s, "prune-stake-threshold") {
            Ok(Testing::PruneStakeThreshold)
        } else if crate::str_eq(s, "origin-rank") {
            Ok(Testing::OriginRank)
        } else if crate::str_eq(s, "rotate-probability") {
            Ok(Testing::RotateProbability)
        } else if crate::str_eq(s, "fail-nodes") {
            Ok(Testing::FailNodes)
        } else if crate::str_eq(s, "no-test") {
            Ok(Testing::NoTest)
        } else {
            let mut e = String::new();
            e.append("Invalid test type: ");
            e.append(s);
            Err(e)
        }
    }
}

/// Checks a command-line name of an experiment: `Ok(())` when it names one, otherwise
/// the message "Invalid test type".
pub fn validate_testing(val: &str) -> (r: Result<(), String>)
    ensures
        testing_of_name(val@) is Some <==> r is Ok,
        r matches Err(e) ==> e@ == "Invalid test type"@,
{
    match Testing::from_name(val) {
        Ok(_) => Ok(()),
        Err(_) => {
            let mut e = String::new();
            e.append("Invalid test type");
            Err(e)
        },
    }
}

/// Each kind of experiment is named by its own command-line name, and a name stands
/// for a kind exactly when it is that kind's name: reading a name gives back the kind
/// it names, and no two kinds share a name.
pub proof fn lemma_command_names(t: Testing, s: Seq<char>)
    ensures
        testing_of_name(command_name(t)) == Some(t),
        testing_of_name(s) == Some(t) <==> s == command_name(t),
        testing_of_name(s) is None <==> (forall|u: Testing| s != #[trigger] command_name(u)),
{
    reveal_strlit("active-set-size");
    reveal_strlit("push-fanout");
    reveal_strlit("min-ingress-nodes");
    reveal_strlit("prune-stake-threshold");
    reveal_strlit("origin-rank");
    reveal_strlit("rotate-probability");
    reveal_strlit("fail-nodes");
    reveal_strlit("no-test");
    assert("push-fanout"@[0] != "origin-rank"@[0]);
    assert("active-set-size"@.len() == 15 && "push-fanout"@.len() == 11 && "min-ingress-nodes"@.len() == 17
        && "prune-stake-threshold"@.len() == 21 && "origin-rank"@.len() == 11 && "rotate-probability"@.len() == 18
        && "fail-nodes"@.len() == 10 && "no-test"@.len() == 7);
    match t {
        Testing::ActiveSetSize => {},
        Testing::PushFanout => {},
        Testing::MinIngressNodes => {},
        Testing::PruneStakeThreshold => {},
        Testing::OriginRank => {},
        Testing::RotateProbability => {},
        Testing::FailNodes => {},
        Testing::NoTest => {},
    }
    if testing_of_name(s) is None {
        assert forall|u: Testing| s != #[trigger] command_name(u) by {
            match u {
                Testing::ActiveSetSize => {},
                Testing::PushFanout => {},
                Testing::MinIngressNodes => {},
                Testing::PruneStakeThreshold => {},
                Testing::OriginRank => {},
                Testing::RotateProbability => {},
                Testing::FailNodes => {},
                Testing::NoTest => {},
            }
        }
    } else {
        let u = testing_of_name(s)->0;
        assert(s == command_name(u));
    }
}

/// No two kinds of experiment are shown with the same text.
pub proof fn lemma_shown_names_distinct(t: Testing, u: Testing)
    ensures
        testing_name(t) == testing_name(u) ==> t == u,
{
    reveal_strlit("ActiveSetSize");
    reveal_strlit("PushFanout()");
    reveal_strlit("MinIngressNodes()");
    reveal_strlit("PruneStakeThreshold()");
    reveal_strlit("OriginRank()");
    reveal_strlit("RotateProbability()");
    reveal_strlit("FailNodes()");
    reveal_strlit("NoTest()");
    assert("ActiveSetSize"@.len() == 13 && "PushFanout()"@.len() == 12 && "MinIngressNodes()"@.len() == 17
        && "PruneStakeThreshold()"@.len() == 21 && "OriginRank()"@.len() == 12 && "RotateProbability()"@.len() == 19
        && "FailNodes()"@.len() == 11 && "NoTest()"@.len() == 8);
    assert("PushFanout()"@[0] != "OriginRank()"@[0]);
    match t {
        Testing::ActiveSetSize => {},
        Testing::PushFanout => {},
        Testing::MinIngressNodes => {},
        Testing::PruneStakeThreshold => {},
        Testing::OriginRank => {},
        Testing::RotateProbability => {},
        Testing::FailNodes => {},
        Testing::NoTest => {},
    }
    match u {
        Testing::ActiveSetSize => {},
        Testing::PushFanout => {},
        Testing::MinIngressNodes => {},
        Testing::PruneStakeThreshold => {},
        Testing::OriginRank => {},
        Testing::RotateProbability => {},
        Testing::FailNodes => {},
        Testing::NoTest => {},
    }
}

impl FromStr for Testing {
    type Err = String;

    fn from_str(s: &str) -> (r: Result<Self, Self::Err>)
        ensures
            match testing_of_name(s@) {
                Some(t) => r == Ok::<Testing, String>(t),
                None => r matches Err(e) && e@ == "Invalid test type: "@ + s@,
            },
    {
        Testing::from_name(s)
    }
}

/// The key of a value in a node's table: its origin and an index.
#[derive(Clone, Copy, Debug, PartialEq, Eq, Hash)]
pub struct CrdsKey {
    origin: Pubkey,
    index: usize,
}

impl CrdsKey {
    /// A key for the `index`th value of `origin`.
    pub fn new(origin: Pubkey, index: usize) -> (k: Self)
        ensures
            k.origin_spec() == origin,
    {
        CrdsKey { origin, index }
    }

    /// The origin of the value.
    pub closed spec fn origin_spec(self) -> Pubkey {
        self.origin
    }

    /// The origin of the value.
    pub fn origin(&self) -> (o: Pubkey)
        ensures
            o == self.origin_spec(),
    {
        self.origin
    }
}

/// A value in a node's table.
#[derive(Debug, Default)]
pub struct CrdsEntry {
    _ordinal: u64,
    _num_dups: u8,
}

/// A message between gossip nodes.
#[derive(Clone)]
pub enum Packet {
    Push { from: Pubkey, key: CrdsKey, ordinal: u64 },
    Prune { from: Pubkey, origins: Vec<Pubkey> },
}

/// A gossip node: its identity, stake, table and push active set.
pub struct Node {
    _clock: Instant,
    num_gossip_rounds: usize,
    pubkey: Pubkey,
    stake: u64,
    table: Vec<(CrdsKey, CrdsEntry)>,
    active_set: PushActiveSet,
    received_cache: ReceivedCache,
    _receiver: Receiver<Arc<Packet>>,
}

/// The origins of a table's keys, in order.
pub open spec fn table_origins(t: Seq<(CrdsKey, CrdsEntry)>) -> Seq<Pubkey> {
    t.map_values(|e: (CrdsKey, CrdsEntry)| e.0.origin_spec())
}

/// The peers that a node with key `me` samples its active set from: every other
/// node with a stake or a value in its table.
pub open spec fn is_gossip_peer(
    stakes: Map<Pubkey, u64>,
    table: Seq<(CrdsKey, CrdsEntry)>,
    me: Pubkey,
    x: Pubkey,
) -> bool {
    x != me && (stakes.dom().contains(x) || table_origins(table).contains(x))
}

impl Node {
    /// The node's key.
    pub closed spec fn key(self) -> Pubkey {
        self.pubkey
    }

    /// The node's stake.
    pub closed spec fn stake_spec(self) -> u64 {
        self.stake
    }

    /// The entries of the node's table.
    pub closed spec fn table_spec(self) -> Seq<(CrdsKey, CrdsEntry)> {
        self.table@
    }

    /// The number of gossip rounds the node took part in.
    pub closed spec fn rounds_spec(self) -> usize {
        self.num_gossip_rounds
    }

    /// The node's push active set.
    pub closed spec fn active_set_spec(self) -> PushActiveSet {
        self.active_set
    }

    /// The node's push active set is well formed.
    pub open spec fn wf(self) -> bool {
        self.active_set_spec().wf()
    }

    /// A node with the given key and stake, an empty table and active set, and the
    /// sending half of its channel.
    fn new(pubkey: Pubkey, stake: u64, clock: Instant) -> (r: (Node, Sender<Arc<Packet>>))
        ensures
            r.0.key() == pubkey,
            r.0.stake_spec() == stake,
            r.0.wf(),
            r.0.table_spec().len() == 0,
            r.0.rounds_spec() == 0,
            forall|k: int|
                0 <= k < crate::push_active_set::NUM_PUSH_ACTIVE_SET_ENTRIES ==> #[trigger] r.0.active_set_spec().entries()[k]
                    == Seq::<([u8; 32], Seq<Pubkey>)>::empty(),
    {
        let (sender, receiver) = packet_channel();
        let node = Node {
            _clock: clock,
            num_gossip_rounds: 0,
            pubkey,
            stake,
            table: Vec::new(),
            active_set: PushActiveSet::new(),
            received_cache: ReceivedCache::new(2 * CRDS_UNIQUE_PUBKEY_CAPACITY),
            _receiver: receiver,
        };
        (node, sender)
    }

    /// The node's key.
    pub fn pubkey(&self) -> (k: Pubkey)
        ensures
            k == self.key(),
    {
        self.pubkey
    }

    /// The node's stake.
    pub fn stake(&self) -> (s: u64)
        ensures
            s == self.stake_spec(),
    {
        self.stake
    }

    /// The node's table.
    pub fn table(&self) -> (t: &Vec<(CrdsKey, CrdsEntry)>)
        ensures
            t@ == self.table_spec(),
    {
        &self.table
    }

    /// The number of gossip rounds the node took part in.
    pub fn num_gossip_rounds(&self) -> (n: usize)
        ensures
            n == self.rounds_spec(),
    {
        self.num_gossip_rounds
    }

    /// The node's push active set.
    pub fn active_set(&self) -> (s: &PushActiveSet)
        ensures
            *s == self.active_set_spec(),
    {
        &self.active_set
    }

    /// The peers that the node samples its active set from: every other node with a
    /// stake or a value in its table, each once, in the order first met (staked nodes
    /// first), or sorted by key when `test` is set.
    pub fn gossip_peers(&self, stakes: &PubkeyMap<u64>, test: bool) -> (r: Vec<Pubkey>)
        requires
            stakes.wf(),
        ensures
            listed_peers(stakes@, stakes.key_seq(), self.table_spec(), self.key(), test, r@),
    {
        let mut r: Vec<Pubkey> = Vec::new();
        let ghost keys = stakes.key_seq();
        let ghost origins = table_origins(self.table@);
        let n = stakes.len();
        let mut i: usize = 0;
        assert(keys.take(0) =~= Seq::<Pubkey>::empty());
        while i < n
            invariant
                stakes.wf(),
                keys == stakes.key_seq(),
                n == keys.len(),
                0 <= i <= n,
                r@ == collect_peers(keys.take(i as int), self.key()),
                forall|a: int, b: int| 0 <= a < b < r@.len() ==> #[trigger] r@[a] != #[trigger] r@[b],
            decreases n - i,
        {
            let k = stakes.entry_at(i).0;
            assert(keys[i as int] == k);
            assert(keys.take(i + 1).drop_last() =~= keys.take(i as int));
            push_new_peer(&mut r, k, &self.pubkey);
            i = i + 1;
        }
        assert(keys.take(n as int) =~= keys);
        let m = self.table.len();
        let mut t: usize = 0;
        assert(keys + origins.take(0) =~= keys);
        while t < m
            invariant
                m == self.table@.len(),
                origins == table_origins(self.table@),
                0 <= t <= m,
                r@ == collect_peers(keys + origins.take(t as int), self.key()),
                forall|a: int, b: int| 0 <= a < b < r@.len() ==> #[trigger] r@[a] != #[trigger] r@[b],
            decreases m - t,
        {
            let k = self.table[t].0.origin;
            assert(origins[t as int] == k);
            assert((keys + origins.take(t + 1)).drop_last() =~= keys + origins.take(t as int));
            assert((keys + origins.take(t + 1)).last() == k);
            push_new_peer(&mut r, k, &self.pubkey);
            t = t + 1;
        }
        assert(origins.take(m as int) =~= origins);
        if test {
            let s = sort_vec(r);
            s
        } else {
            r
        }
    }
}

/// The candidates `ks` with `me` and repeats left out, each where it first occurs.
pub open spec fn collect_peers(ks: Seq<Pubkey>, me: Pubkey) -> Seq<Pubkey>
    decreases ks.len(),
{
    if ks.len() == 0 {
        Seq::empty()
    } else {
        let prev = collect_peers(ks.drop_last(), me);
        let k = ks.last();
        if k == me || prev.contains(k) {
            prev
        } else {
            prev.push(k)
        }
    }
}

/// The gossip peers of node `me`: the staked nodes (in the order of `keys`, the keys
/// of `stakes`) and then the origins of its table, without `me` and without repeats.
pub open spec fn gossip_peer_seq(keys: Seq<Pubkey>, table: Seq<(CrdsKey, CrdsEntry)>, me: Pubkey) -> Seq<Pubkey> {
    collect_peers(keys + table_origins(table), me)
}

/// `peers` lists the gossip peers of node `me` as `gossip_peers` gives them: in the
/// order first met, or sorted by key when `test` is set.
pub open spec fn listed_peers(
    stakes: Map<Pubkey, u64>,
    keys: Seq<Pubkey>,
    table: Seq<(CrdsKey, CrdsEntry)>,
    me: Pubkey,
    test: bool,
    peers: Seq<Pubkey>,
) -> bool {
    if test {
        &&& sorted(peers)
        &&& peers.to_multiset() == gossip_peer_seq(keys, table, me).to_multiset()
    } else {
        peers == gossip_peer_seq(keys, table, me)
    }
}

/// The collected candidates hold no repeats and are the candidates other than `me`.
proof fn lemma_collect_peers(ks: Seq<Pubkey>, me: Pubkey)
    ensures
        forall|a: int, b: int|
            0 <= a < b < collect_peers(ks, me).len() ==> #[trigger] collect_peers(ks, me)[a] != #[trigger] collect_peers(ks, me)[b],
        forall|x: Pubkey| #[trigger] collect_peers(ks, me).contains(x) <==> (ks.contains(x) && x != me),
    decreases ks.len(),
{
    if ks.len() > 0 {
        let d = ks.drop_last();
        lemma_collect_peers(d, me);
        let prev = collect_peers(d, me);
        let k = ks.last();
        let r = collect_peers(ks, me);
        assert forall|x: Pubkey| #[trigger] r.contains(x) <==> (ks.contains(x) && x != me) by {
            if ks.contains(x) && x != k {
                let q = choose|q: int| 0 <= q < ks.len() && ks[q] == x;
                assert(d[q] == x);
            }
            if d.contains(x) {
                let q = choose|q: int| 0 <= q < d.len() && d[q] == x;
                assert(ks[q] == x);
            }
            if x == k {
                assert(ks[ks.len() - 1] == x);
            }
            if !(k == me || prev.contains(k)) {
                if r.contains(x) && x != k {
                    let q = choose|q: int| 0 <= q < r.len() && r[q] == x;
                    assert(prev[q] == x);
                }
                if prev.contains(x) {
                    let q = choose|q: int| 0 <= q < prev.len() && prev[q] == x;
                    assert(r[q] == x);
                }
                if x == k {
                    assert(r[r.len() - 1] == x);
                }
            }
        }
    }
}

/// The gossip peers that `gossip_peers` lists are every other node with a stake or a
/// value in the node's table, each once.
pub proof fn lemma_gossip_peers_laws(
    stakes: Map<Pubkey, u64>,
    keys: Seq<Pubkey>,
    table: Seq<(CrdsKey, CrdsEntry)>,
    me: Pubkey,
    test: bool,
    peers: Seq<Pubkey>,
)
    requires
        listed_peers(stakes, keys, table, me, test, peers),
        forall|x: Pubkey| keys.contains(x) <==> stakes.dom().contains(x),
    ensures
        forall|x: Pubkey| #[trigger] peers.contains(x) <==> is_gossip_peer(stakes, table, me, x),
        forall|a: int, b: int| 0 <= a < b < peers.len() ==> #[trigger] peers[a] != #[trigger] peers[b],
        !peers.contains(me),
{
    let all = keys + table_origins(table);
    let g = gossip_peer_seq(keys, table, me);
    lemma_collect_peers(all, me);
    assert forall|x: Pubkey| #[trigger] g.contains(x) <==> is_gossip_peer(stakes, table, me, x) by {
        let o = table_origins(table);
        if all.contains(x) {
            let q = choose|q: int| 0 <= q < all.len() && all[q] == x;
            if q < keys.len() {
                assert(keys[q] == x);
            } else {
                assert(o[q - keys.len()] == x);
            }
        }
        if keys.contains(x) {
            let q = choose|q: int| 0 <= q < keys.len() && keys[q] == x;
            assert(all[q] == x);
        }
        if o.contains(x) {
            let q = choose|q: int| 0 <= q < o.len() && o[q] == x;
            assert(all[keys.len() + q] == x);
        }
    }
    if test {
        peers.to_multiset_ensures();
        g.to_multiset_ensures();
        assert forall|x: Pubkey| #[trigger] peers.contains(x) <==> is_gossip_peer(stakes, table, me, x) by {
            assert(peers.contains(x) <==> peers.to_multiset().count(x) > 0);
            assert(g.contains(x) <==> g.to_multiset().count(x) > 0);
        }
        assert forall|a: int, b: int| 0 <= a < b < peers.len() implies #[trigger] peers[a] != #[trigger] peers[b] by {
            if peers[a] == peers[b] {
                lemma_distinct_count(g, peers[a]);
                lemma_two_count(peers, a, b);
            }
        }
    }
}

impl Node {
    /// One gossip round of the node: it rotates its push active set, offering its
    /// gossip peers (as `gossip_peers` lists them) to the entry of each bucket `k` in
    /// the order of `shuffles[k]`, and keeping at most `active_set_size` targets in
    /// each entry.
    pub fn run_gossip(&mut self, stakes: &PubkeyMap<u64>, active_set_size: usize, test: bool, shuffles: &Vec<Vec<usize>>)
        requires
            old(self).wf(),
            stakes.wf(),
            shuffles@.len() == crate::push_active_set::NUM_PUSH_ACTIVE_SET_ENTRIES,
            forall|k: int, j: int|
                0 <= k < crate::push_active_set::NUM_PUSH_ACTIVE_SET_ENTRIES && 0 <= j < shuffles@[k]@.len()
                    ==> #[trigger] shuffles@[k]@[j] < gossip_peer_seq(stakes.key_seq(), old(self).table_spec(), old(self).key()).len(),
        ensures
            final(self).wf(),
            final(self).key() == old(self).key(),
            final(self).stake_spec() == old(self).stake_spec(),
            final(self).table_spec() == old(self).table_spec(),
            exists|peers: Seq<Pubkey>|
                #[trigger] listed_peers(stakes@, stakes.key_seq(), old(self).table_spec(), old(self).key(), test, peers)
                    && forall|k: int|
                    0 <= k < crate::push_active_set::NUM_PUSH_ACTIVE_SET_ENTRIES ==> #[trigger] final(self).active_set_spec().entries()[k]
                        == pairs_rotated(
                        old(self).active_set_spec().entries()[k],
                        shuffled_nodes(peers, shuffles@[k]@),
                        active_set_size as nat,
                    ),
    {
        let peers = self.gossip_peers(stakes, test);
        proof {
            let g = gossip_peer_seq(stakes.key_seq(), self.table_spec(), self.key());
            if test {
                peers@.to_multiset_ensures();
                g.to_multiset_ensures();
                assert(peers@.len() == g.len());
            }
        }
        self.active_set.rotate(active_set_size, peers.as_slice(), shuffles);
    }
}

/// Appends `k` to the distinct keys `r` unless it is there already or is `me`.
fn push_new_peer(r: &mut Vec<Pubkey>, k: Pubkey, me: &Pubkey)
    requires
        forall|a: int, b: int| 0 <= a < b < old(r)@.len() ==> #[trigger] old(r)@[a] != #[trigger] old(r)@[b],
    ensures
        forall|a: int, b: int| 0 <= a < b < final(r)@.len() ==> #[trigger] final(r)@[a] != #[trigger] final(r)@[b],
        forall|x: Pubkey| #[trigger] final(r)@.contains(x) <==> (old(r)@.contains(x) || (x == k && x != *me)),
        final(r)@ == (if k == *me || old(r)@.contains(k) {
            old(r)@
        } else {
            old(r)@.push(k)
        }),
{
    let ghost r0 = r@;
    if !key_eq(&k, me) && !vec_contains_key(r, &k) {
        r.push(k);
        proof {
            assert(r@[r0.len() as int] == k);
            assert forall|x: Pubkey| #[trigger] r@.contains(x) <==> (r0.contains(x) || (x == k && x != *me)) by {
                if r@.contains(x) {
                    let q = choose|q: int| 0 <= q < r@.len() && #[trigger] r@[q] == x;
                    if q < r0.len() {
                        assert(r0[q] == x);
                    }
                }
                if r0.contains(x) {
                    let q = choose|q: int| 0 <= q < r0.len() && #[trigger] r0[q] == x;
                    assert(r@[q] == x);
                }
            }
        }
    }
}

/// In a sequence without repeats, an element occurs at most once.
proof fn lemma_distinct_count<T>(s: Seq<T>, x: T)
    requires
        forall|i: int, j: int| 0 <= i < j < s.len() ==> #[trigger] s[i] != #[trigger] s[j],
    ensures
        s.to_multiset().count(x) <= 1,
    decreases s.len(),
{
    broadcast use vstd::seq_lib::group_seq_properties;
    broadcast use vstd::multiset::group_multiset_axioms;

    if s.len() > 0 {
        let t = s.drop_last();
        lemma_distinct_count(t, x);
        assert(s =~= t.push(s.last()));
        vstd::seq_lib::to_multiset_build(t, s.last());
        if x == s.last() {
            if t.contains(x) {
                let i = choose|i: int| 0 <= i < t.len() && #[trigger] t[i] == x;
                assert(s[i] == s[s.len() - 1]);
            }
            t.to_multiset_ensures();
        }
    }
}

/// An element at two positions occurs at least twice.
proof fn lemma_two_count<T>(s: Seq<T>, a: int, b: int)
    requires
        0 <= a < b < s.len(),
        s[a] == s[b],
    ensures
        s.to_multiset().count(s[a]) >= 2,
{
    broadcast use vstd::seq_lib::group_seq_properties;
    broadcast use vstd::multiset::group_multiset_axioms;

    vstd::seq_lib::to_multiset_remove(s, b);
    s.to_multiset_ensures();
    assert(s.contains(s[b]));
    let t = s.remove(b);
    assert(t[a] == s[a]);
    t.to_multiset_ensures();
    assert(t.contains(s[a]));
    assert(t.to_multiset().count(s[a]) > 0);
    assert(t.to_multiset() == s.to_multiset().remove(s[b]));
    assert(t.to_multiset().count(s[a]) == s.to_multiset().count(s[a]) - 1);
}


/// Some entry among the first `n` has key `x`.
pub open spec fn in_first<V>(s: Seq<(Pubkey, V)>, n: int, x: Pubkey) -> bool {
    exists|j: int| 0 <= j < n && #[trigger] s[j].0 == x
}

/// The position of the node with key `k` in `nodes`.
pub open spec fn node_index(nodes: Seq<Node>, k: Pubkey) -> int {
    choose|i: int| 0 <= i < nodes.len() && #[trigger] nodes[i].key() == k
}

/// Some node in `nodes` has key `k`.
pub open spec fn has_node(nodes: Seq<Node>, k: Pubkey) -> bool {
    exists|i: int| 0 <= i < nodes.len() && #[trigger] nodes[i].key() == k
}

/// No two nodes share a key, every push active set is well formed, and every push
/// target of every node is itself a node. Freshly made nodes with distinct keys are
/// so (`lemma_fresh_nodes_closed`); rotating from staked peers that are all nodes, and
/// recording prunes, keep every target a node (`lemma_rotation_keeps_targets_nodes`,
/// `lemma_prune_messages_keep_targets`).
pub open spec fn nodes_closed(nodes: Seq<Node>) -> bool {
    &&& forall|i: int, j: int|
        0 <= i < j < nodes.len() ==> #[trigger] nodes[i].key() != #[trigger] nodes[j].key()
    &&& forall|i: int| 0 <= i < nodes.len() ==> (#[trigger] nodes[i]).wf()
    &&& forall|i: int, k: int, j: int|
        0 <= i < nodes.len() && 0 <= k < crate::push_active_set::NUM_PUSH_ACTIVE_SET_ENTRIES && 0 <= j
            < nodes[i].active_set_spec().entries()[k].len() ==> has_node(
            nodes,
            Pubkey(#[trigger] nodes[i].active_set_spec().entries()[k][j].0),
        )
}

/// The first `n` elements of `s`, or all of them if there are fewer.
pub open spec fn take_at_most(s: Seq<Pubkey>, n: nat) -> Seq<Pubkey> {
    if n < s.len() {
        s.take(n as int)
    } else {
        s
    }
}

/// The nodes that node `u` pushes a message from `origin` to: the first `fanout`
/// targets of its active set, in the bucket of the smaller of the two stakes, that
/// have not pruned `origin`.
pub open spec fn push_targets(
    nodes: Seq<Node>,
    stakes: Map<Pubkey, u64>,
    origin: Pubkey,
    fanout: nat,
    u: Pubkey,
) -> Seq<Pubkey> {
    take_at_most(
        unpruned_nodes(
            nodes[node_index(nodes, u)].active_set_spec().entries()[push_bucket(
                stakes,
                u,
                origin,
            ) as int],
            origin,
            false,
        ),
        fanout,
    )
}

/// No node pushes a message to the node it came from: the origin is never among a
/// node's push targets for its own message.
pub proof fn lemma_origin_never_pushed_to(nodes: Seq<Node>, stakes: Map<Pubkey, u64>, origin: Pubkey, fanout: nat, u: Pubkey)
    requires
        nodes_closed(nodes),
        has_node(nodes, u),
    ensures
        !push_targets(nodes, stakes, origin, fanout, u).contains(origin),
{
    let i = node_index(nodes, u);
    assert(0 <= i < nodes.len() && nodes[i].key() == u);
    assert(nodes[i].wf());
    let s = nodes[i].active_set_spec();
    crate::push_active_set::lemma_never_pushed_back_to_origin(s, stakes, u, origin);
    let t = unpruned_nodes(s.entries()[push_bucket(stakes, u, origin) as int], origin, false);
    if push_targets(nodes, stakes, origin, fanout, u).contains(origin) {
        if fanout < t.len() {
            let j = choose|j: int| 0 <= j < t.take(fanout as int).len() && #[trigger] t.take(fanout as int)[j] == origin;
            assert(t[j] == origin);
            assert(t.contains(origin));
        }
    }
}

/// Every push target of the pairs is a node.
pub open spec fn targets_are_nodes(nodes: Seq<Node>, e: EntryPairs) -> bool {
    forall|j: int| 0 <= j < e.len() ==> has_node(nodes, Pubkey(#[trigger] e[j].0))
}

/// Freshly made nodes with distinct keys meet what the spread needs of a cluster: no
/// node has a push target yet.
pub proof fn lemma_fresh_nodes_closed(nodes: Seq<Node>)
    requires
        forall|i: int, j: int| 0 <= i < j < nodes.len() ==> #[trigger] nodes[i].key() != #[trigger] nodes[j].key(),
        forall|i: int| 0 <= i < nodes.len() ==> (#[trigger] nodes[i]).is_fresh(nodes[i].key(), nodes[i].stake_spec()),
    ensures
        nodes_closed(nodes),
{
    assert forall|i: int, k: int, j: int|
        0 <= i < nodes.len() && 0 <= k < crate::push_active_set::NUM_PUSH_ACTIVE_SET_ENTRIES && 0 <= j
            < nodes[i].active_set_spec().entries()[k].len() implies has_node(
        nodes,
        Pubkey(#[trigger] nodes[i].active_set_spec().entries()[k][j].0),
    ) by {
        assert(nodes[i].is_fresh(nodes[i].key(), nodes[i].stake_spec()));
        assert(nodes[i].active_set_spec().entries()[k] == Seq::<([u8; 32], Seq<Pubkey>)>::empty());
    }
}

/// A rotation keeps every push target a node when every staked key and every origin in
/// the rotating node's table is a node: the targets it adds are gossip peers.
pub proof fn lemma_rotation_keeps_targets_nodes(
    nodes: Seq<Node>,
    stakes: Map<Pubkey, u64>,
    keys: Seq<Pubkey>,
    table: Seq<(CrdsKey, CrdsEntry)>,
    me: Pubkey,
    test: bool,
    peers: Seq<Pubkey>,
    e: EntryPairs,
    shuffle: Seq<usize>,
    size: nat,
)
    requires
        listed_peers(stakes, keys, table, me, test, peers),
        forall|x: Pubkey| keys.contains(x) <==> stakes.dom().contains(x),
        forall|x: Pubkey| #[trigger] stakes.dom().contains(x) ==> has_node(nodes, x),
        forall|x: Pubkey| #[trigger] table_origins(table).contains(x) ==> has_node(nodes, x),
        targets_are_nodes(nodes, e),
        forall|j: int| 0 <= j < shuffle.len() ==> #[trigger] shuffle[j] < gossip_peer_seq(keys, table, me).len(),
    ensures
        targets_are_nodes(nodes, pairs_rotated(e, shuffled_nodes(peers, shuffle), size)),
{
    lemma_gossip_peers_laws(stakes, keys, table, me, test, peers);
    let g = gossip_peer_seq(keys, table, me);
    if test {
        peers.to_multiset_ensures();
        g.to_multiset_ensures();
    }
    assert(peers.len() == g.len());
    let cands = shuffled_nodes(peers, shuffle);
    crate::push_active_set::lemma_rotate_laws(e, cands, size);
    let r = pairs_rotated(e, cands, size);
    assert forall|j: int| 0 <= j < r.len() implies has_node(nodes, Pubkey(#[trigger] r[j].0)) by {
        if crate::push_active_set::pairs_contain(e, r[j].0) {
            let i = choose|i: int| 0 <= i < e.len() && #[trigger] e[i].0 == r[j].0;
            assert(has_node(nodes, Pubkey(e[i].0)));
        } else {
            assert(cands.contains(Pubkey(r[j].0)));
            let q = choose|q: int| 0 <= q < cands.len() && cands[q] == Pubkey(r[j].0);
            let x = peers[shuffle[q] as int];
            assert(cands[q] == x);
            assert(peers.contains(x));
            assert(is_gossip_peer(stakes, table, me, x));
        }
    }
}

/// Recording that `node` pruned some origins changes no push target: every bucket
/// keeps its targets, in their order.
proof fn lemma_prunes_keep_targets(
    v: Seq<EntryPairs>,
    stakes: Map<Pubkey, u64>,
    pubkey: Pubkey,
    node: Pubkey,
    origins: Seq<Pubkey>,
)
    requires
        v.len() == crate::push_active_set::NUM_PUSH_ACTIVE_SET_ENTRIES,
    ensures
        ({
            let r = entries_after_prunes(v, stakes, pubkey, node, origins);
            &&& r.len() == v.len()
            &&& forall|k: int| 0 <= k < v.len() ==> (#[trigger] r[k]).len() == v[k].len()
            &&& forall|k: int, j: int| 0 <= k < v.len() && 0 <= j < v[k].len() ==> (#[trigger] r[k][j]).0 == v[k][j].0
        }),
    decreases origins.len(),
{
    if origins.len() > 0 {
        lemma_prunes_keep_targets(v, stakes, pubkey, node, origins.drop_last());
        let prev = entries_after_prunes(v, stakes, pubkey, node, origins.drop_last());
        let o = origins.last();
        if o != pubkey {
            let b = push_bucket(stakes, pubkey, o) as int;
            assert(0 <= b < v.len());
            let r = entries_after_prunes(v, stakes, pubkey, node, origins);
            assert(r == prev.update(b, crate::push_active_set::pairs_after_prune(prev[b], node, o)));
            assert forall|k: int, j: int| 0 <= k < v.len() && 0 <= j < v[k].len() implies (#[trigger] r[k][j]).0 == v[k][j].0 by {
                assert(prev[k][j].0 == v[k][j].0);
            }
        }
    }
}

/// Recording prune messages changes no push target: every bucket keeps its targets,
/// in their order, so a node whose targets are nodes keeps that.
pub proof fn lemma_prune_messages_keep_targets(
    v: Seq<EntryPairs>,
    stakes: Map<Pubkey, u64>,
    key: Pubkey,
    msgs: Seq<(Pubkey, Pubkey, Seq<Pubkey>)>,
)
    requires
        v.len() == crate::push_active_set::NUM_PUSH_ACTIVE_SET_ENTRIES,
    ensures
        ({
            let r = entries_after_messages(v, stakes, key, msgs);
            &&& r.len() == v.len()
            &&& forall|k: int| 0 <= k < v.len() ==> (#[trigger] r[k]).len() == v[k].len()
            &&& forall|k: int, j: int| 0 <= k < v.len() && 0 <= j < v[k].len() ==> (#[trigger] r[k][j]).0 == v[k][j].0
        }),
    decreases msgs.len(),
{
    if msgs.len() > 0 {
        lemma_prune_messages_keep_targets(v, stakes, key, msgs.drop_last());
        let prev = entries_after_messages(v, stakes, key, msgs.drop_last());
        let m = msgs.last();
        if m.1 == key {
            lemma_prunes_keep_targets(prev, stakes, key, m.0, m.2);
            let r = entries_after_messages(v, stakes, key, msgs);
            assert forall|k: int, j: int| 0 <= k < v.len() && 0 <= j < v[k].len() implies (#[trigger] r[k][j]).0 == v[k][j].0 by {
                assert(prev[k][j].0 == v[k][j].0);
                assert(prev[k].len() == v[k].len());
            }
            assert forall|k: int| 0 <= k < v.len() implies (#[trigger] r[k]).len() == v[k].len() by {
                assert(prev[k].len() == v[k].len());
            }
        }
    }
}

/// `path` starts at `origin` and each of its nodes pushes to the next.
pub open spec fn is_push_path(
    nodes: Seq<Node>,
    stakes: Map<Pubkey, u64>,
    origin: Pubkey,
    fanout: nat,
    path: Seq<Pubkey>,
) -> bool {
    &&& path.len() >= 1
    &&& path[0] == origin
    &&& forall|i: int|
        0 <= i < path.len() - 1 ==> #[trigger] push_targets(nodes, stakes, origin, fanout, path[i]).contains(
            path[i + 1],
        )
}

/// A message from `origin` reaches `v` along a path of exactly `k` pushes.
pub open spec fn reaches(
    nodes: Seq<Node>,
    stakes: Map<Pubkey, u64>,
    origin: Pubkey,
    fanout: nat,
    v: Pubkey,
    k: nat,
) -> bool {
    exists|path: Seq<Pubkey>|
        #[trigger] is_push_path(nodes, stakes, origin, fanout, path) && path.len() == k + 1 && path.last() == v
}

/// The number of pushes from each of `us`, added up.
pub open spec fn total_pushes(
    nodes: Seq<Node>,
    stakes: Map<Pubkey, u64>,
    origin: Pubkey,
    fanout: nat,
    us: Seq<Pubkey>,
) -> nat
    decreases us.len(),
{
    if us.len() == 0 {
        0
    } else {
        total_pushes(nodes, stakes, origin, fanout, us.drop_last()) + push_targets(
            nodes,
            stakes,
            origin,
            fanout,
            us.last(),
        ).len()
    }
}

/// The key of each unpruned target is the key of one of the entry's pairs.
proof fn lemma_unpruned_from_pairs(e: EntryPairs, origin: Pubkey, force: bool, x: Pubkey)
    requires
        unpruned_nodes(e, origin, force).contains(x),
    ensures
        exists|j: int| 0 <= j < e.len() && Pubkey(#[trigger] e[j].0) == x,
    decreases e.len(),
{
    let prev = unpruned_nodes(e.drop_last(), origin, force);
    if prev.contains(x) {
        lemma_unpruned_from_pairs(e.drop_last(), origin, force, x);
        let j = choose|j: int| 0 <= j < e.drop_last().len() && Pubkey(#[trigger] e.drop_last()[j].0) == x;
        assert(e[j] == e.drop_last()[j]);
    } else {
        let r = unpruned_nodes(e, origin, force);
        let q = choose|q: int| 0 <= q < r.len() && r[q] == x;
        assert(Pubkey(e[e.len() - 1].0) == x);
    }
}

/// Every node pushed to by a node is a node.
proof fn lemma_push_targets_known(
    nodes: Seq<Node>,
    stakes: Map<Pubkey, u64>,
    origin: Pubkey,
    fanout: nat,
    u: Pubkey,
    x: Pubkey,
)
    requires
        nodes_closed(nodes),
        has_node(nodes, u),
        push_targets(nodes, stakes, origin, fanout, u).contains(x),
    ensures
        has_node(nodes, x),
{
    let i = node_index(nodes, u);
    let k = push_bucket(stakes, u, origin) as int;
    let e = nodes[i].active_set_spec().entries()[k];
    let all = unpruned_nodes(e, origin, false);
    assert(all.contains(x)) by {
        let q = choose|q: int|
            0 <= q < push_targets(nodes, stakes, origin, fanout, u).len() && push_targets(
                nodes,
                stakes,
                origin,
                fanout,
                u,
            )[q] == x;
        if fanout < all.len() {
            assert(all[q] == x);
        }
    }
    lemma_unpruned_from_pairs(e, origin, false, x);
    let j = choose|j: int| 0 <= j < e.len() && Pubkey(#[trigger] e[j].0) == x;
    assert(has_node(nodes, Pubkey(nodes[i].active_set_spec().entries()[k][j].0)));
}

/// The simulation of one message's spread through a cluster: which nodes it reaches,
/// in how many hops, through which peers, and how many messages that takes.
pub struct Cluster {
    gossip_push_fanout: usize,
    visited: PubkeySet,
    queue: VecDeque<Pubkey>,
    distances: PubkeyMap<u64>,
    orders: PubkeyMap<PubkeyMap<u64>>,
    mst: PubkeyMap<PubkeySet>,
    pushes: PubkeyMap<PubkeySet>,
    rmr: RelativeMessageRedundancy,
    prunes: PubkeyMap<PubkeyMap<Vec<Pubkey>>>,
}

impl Cluster {
    /// The number of peers each node pushes a message to.
    pub closed spec fn fanout(self) -> usize {
        self.gossip_push_fanout
    }

    /// The nodes the message reached, in the order it reached them.
    pub closed spec fn visited_keys(self) -> Seq<Pubkey> {
        self.visited.key_seq()
    }

    /// The nodes the message reached.
    pub closed spec fn visited_set(self) -> Set<Pubkey> {
        self.visited@.dom()
    }

    /// For each node, the fewest hops the message took to reach it (`u64::MAX` for a
    /// staked node it did not reach).
    pub closed spec fn distance_map(self) -> Map<Pubkey, u64> {
        self.distances@
    }

    /// The nodes that the last round did not reach: those listed with `u64::MAX` hops.
    pub open spec fn stranded_set(self) -> Set<Pubkey> {
        self.distance_map().dom().filter(|x: Pubkey| self.distance_map()[x] == u64::MAX)
    }

    /// For each node that received the message, each peer it received it from and
    /// the hops it took through that peer.
    pub closed spec fn orders_map(self) -> Map<Pubkey, Map<Pubkey, u64>> {
        Map::new(|k: Pubkey| self.orders@.dom().contains(k), |k: Pubkey| self.orders@[k]@)
    }

    /// For each node, the peers that first received the message from it.
    pub closed spec fn mst_map(self) -> Map<Pubkey, Set<Pubkey>> {
        Map::new(|k: Pubkey| self.mst@.dom().contains(k), |k: Pubkey| self.mst@[k]@.dom())
    }

    /// For each node that forwarded the message, the peers it pushed it to.
    pub closed spec fn pushes_map(self) -> Map<Pubkey, Set<Pubkey>> {
        Map::new(|k: Pubkey| self.pushes@.dom().contains(k), |k: Pubkey| self.pushes@[k]@.dom())
    }

    /// For each pruner, each peer it prunes and the origins it prunes for.
    pub closed spec fn prunes_map(self) -> Map<Pubkey, Map<Pubkey, Seq<Pubkey>>> {
        Map::new(
            |k: Pubkey| self.prunes@.dom().contains(k),
            |k: Pubkey|
                Map::new(
                    |j: Pubkey| self.prunes@[k]@.dom().contains(j),
                    |j: Pubkey| self.prunes@[k]@[j]@,
                ),
        )
    }

    /// The message counts of the last round.
    pub closed spec fn rmr_counts(self) -> RelativeMessageRedundancy {
        self.rmr
    }

    /// Every map is well formed.
    pub closed spec fn wf(self) -> bool {
        &&& self.visited.wf()
        &&& self.distances.wf()
        &&& self.orders.wf()
        &&& inner_wf(self.orders)
        &&& self.mst.wf()
        &&& inner_wf(self.mst)
        &&& self.pushes.wf()
        &&& inner_wf(self.pushes)
        &&& self.prunes.wf()
        &&& inner_wf(self.prunes)
    }

    /// A cluster whose nodes push each message to `push_fanout` peers, with no round
    /// simulated yet.
    pub fn new(push_fanout: usize) -> (c: Self)
        ensures
            c.wf(),
            c.fanout() == push_fanout,
            c.visited_set() == Set::<Pubkey>::empty(),
            c.distance_map() == Map::<Pubkey, u64>::empty(),
            c.prunes_map() == Map::<Pubkey, Map<Pubkey, Seq<Pubkey>>>::empty(),
            c.rmr_counts().messages() == 0,
            c.rmr_counts().receivers() == 0,
    {
        let c = Cluster {
            gossip_push_fanout: push_fanout,
            visited: PubkeyMap::new(),
            queue: VecDeque::new(),
            distances: PubkeyMap::new(),
            orders: PubkeyMap::new(),
            mst: PubkeyMap::new(),
            prunes: PubkeyMap::new(),
            pushes: PubkeyMap::new(),
            rmr: RelativeMessageRedundancy::new(),
        };
        assert(c.prunes_map() =~= Map::<Pubkey, Map<Pubkey, Seq<Pubkey>>>::empty());
        c
    }

    /// Empties every record of the last spread and zeroes its message counts.
    fn clear_maps(&mut self)
        ensures
            final(self).wf(),
            final(self).fanout() == old(self).fanout(),
            final(self).visited_keys() == Seq::<Pubkey>::empty(),
            final(self).queue@ == Seq::<Pubkey>::empty(),
            final(self).distances@ == Map::<Pubkey, u64>::empty(),
            final(self).orders@ == Map::<Pubkey, PubkeyMap<u64>>::empty(),
            final(self).mst@ == Map::<Pubkey, PubkeySet>::empty(),
            final(self).pushes@ == Map::<Pubkey, PubkeySet>::empty(),
            final(self).prunes@ == Map::<Pubkey, PubkeyMap<Vec<Pubkey>>>::empty(),
            final(self).rmr.messages() == 0,
            final(self).rmr.receivers() == 0,
    {
        self.visited.clear();
        self.queue.clear();
        self.distances.clear();
        self.orders.clear();
        self.mst.clear();
        self.prunes.clear();
        self.pushes.clear();
        self.rmr.reset();
    }

    /// Forgets the last round and marks every staked node as not reached.
    fn initialize(&mut self, stakes: &PubkeyMap<u64>)
        requires
            stakes.wf(),
        ensures
            final(self).wf(),
            final(self).fanout() == old(self).fanout(),
            final(self).visited_keys() == Seq::<Pubkey>::empty(),
            final(self).queue@ == Seq::<Pubkey>::empty(),
            final(self).distances@ == Map::new(
                |k: Pubkey| stakes@.dom().contains(k),
                |k: Pubkey| u64::MAX,
            ),
            final(self).orders@ == Map::<Pubkey, PubkeyMap<u64>>::empty(),
            final(self).mst@ == Map::<Pubkey, PubkeySet>::empty(),
            final(self).pushes@ == Map::<Pubkey, PubkeySet>::empty(),
            final(self).prunes@ == Map::<Pubkey, PubkeyMap<Vec<Pubkey>>>::empty(),
            final(self).rmr.messages() == 0,
            final(self).rmr.receivers() == 0,
    {
        self.clear_maps();
        let mut dist: PubkeyMap<u64> = PubkeyMap::new();
        let n = stakes.len();
        let mut i: usize = 0;
        while i < n
            invariant
                stakes.wf(),
                n == stakes.entry_seq().len(),
                0 <= i <= n,
                dist.wf(),
                forall|x: Pubkey| #[trigger] dist@.dom().contains(x) <==> in_first(stakes.entry_seq(), i as int, x),
                forall|x: Pubkey| #[trigger] dist@.dom().contains(x) ==> dist@[x] == u64::MAX,
            decreases n - i,
        {
            let k = stakes.entry_at(i).0;
            dist.insert(k, u64::MAX);
            assert forall|x: Pubkey| #[trigger] in_first(stakes.entry_seq(), i + 1, x)
                <==> (x == k || in_first(stakes.entry_seq(), i as int, x)) by {
                if x != k && in_first(stakes.entry_seq(), i + 1, x) {
                    let j = choose|j: int| 0 <= j < i + 1 && #[trigger] stakes.entry_seq()[j].0 == x;
                    assert(j != i);
                }
                if x == k {
                    assert(stakes.entry_seq()[i as int].0 == x);
                }
            }
            i = i + 1;
        }
        self.distances = dist;
        assert(self.distances@ =~= Map::new(
            |k: Pubkey| stakes@.dom().contains(k),
            |k: Pubkey| u64::MAX,
        )) by {
            assert forall|k: Pubkey| stakes@.dom().contains(k) <==> #[trigger] in_first(stakes.entry_seq(), n as int, k) by {
                crate::key_map::lemma_map_of_dom(stakes.entry_seq(), k);
            }
        }
    }

    /// Whether `dst_node` prunes `src_node` for some origin: `Ok(true)` when it does,
    /// otherwise `Err(())`.
    pub fn prune_exists(&self, dst_node: &Pubkey, src_node: &Pubkey) -> (r: Result<bool, ()>)
        requires
            self.wf(),
        ensures
            r == (if self.prunes_map().dom().contains(*dst_node) && self.prunes_map()[*dst_node].dom().contains(
                *src_node,
            ) && self.prunes_map()[*dst_node][*src_node].len() > 0 {
                Ok::<bool, ()>(true)
            } else {
                Err::<bool, ()>(())
            }),
    {
        if let Some(adjacent_nodes) = self.prunes.get(dst_node) {
            if let Some(nodes) = adjacent_nodes.get(src_node) {
                if nodes.len() > 0 {
                    return Ok(true);
                }
            }
        }
        Err(())
    }

    /// Node `u`, `d` hops from the origin, pushes the message to `w`: `w` records
    /// the push, and is reached at `d + 1` hops unless already reached; a push to a
    /// node already reached costs a prune message as well.
    fn deliver(&mut self, u: Pubkey, d: u64, w: Pubkey)
        requires
            old(self).wf(),
            old(self).prunes@ == Map::<Pubkey, PubkeyMap<Vec<Pubkey>>>::empty(),
            old(self).pushes@.dom().contains(u),
            old(self).rmr.messages() + 2 <= u64::MAX,
            old(self).rmr.receivers() + 1 <= u64::MAX,
            d < u64::MAX,
        ensures
            final(self).wf(),
            final(self).gossip_push_fanout == old(self).gossip_push_fanout,
            final(self).prunes@ == old(self).prunes@,
            final(self).pushes@.dom() == old(self).pushes@.dom(),
            forall|k: Pubkey| #[trigger] old(self).pushes@.dom().contains(k) && k != u ==> final(self).pushes@[k] == old(self).pushes@[k],
            final(self).pushes@[u]@ == old(self).pushes@[u]@.insert(w, ()),
            final(self).orders@.dom() == old(self).orders@.dom().insert(w),
            forall|k: Pubkey| #[trigger] old(self).orders@.dom().contains(k) && k != w ==> final(self).orders@[k] == old(self).orders@[k],
            final(self).orders@[w]@ == inner_after_insert(old(self).orders@, w, u, (d + 1) as u64),
            old(self).visited@.dom().contains(w) ==> {
                &&& final(self).visited == old(self).visited
                &&& final(self).distances == old(self).distances
                &&& final(self).queue@ == old(self).queue@
                &&& final(self).mst == old(self).mst
                &&& final(self).rmr.messages() == old(self).rmr.messages() + 2
                &&& final(self).rmr.receivers() == old(self).rmr.receivers()
            },
            !old(self).visited@.dom().contains(w) ==> {
                &&& final(self).visited.key_seq() == old(self).visited.key_seq().push(w)
                &&& final(self).visited@ == old(self).visited@.insert(w, ())
                &&& final(self).distances@ == old(self).distances@.insert(w, (d + 1) as u64)
                &&& final(self).queue@ == old(self).queue@.push(w)
                &&& final(self).mst@.dom() == old(self).mst@.dom().insert(u)
                &&& forall|k: Pubkey| #[trigger] old(self).mst@.dom().contains(k) && k != u ==> final(self).mst@[k] == old(self).mst@[k]
                &&& final(self).mst@[u]@ == inner_after_insert(old(self).mst@, u, w, ())
                &&& final(self).rmr.messages() == old(self).rmr.messages() + 1
                &&& final(self).rmr.receivers() == old(self).rmr.receivers() + 1
            },
    {
        insert_nested(&mut self.pushes, u, w, ());
        match self.prune_exists(&w, &u) {
            Ok(true) => {
                assert(false);
            },
            _ => {},
        }
        self.rmr.increment_m();
        if !self.visited.contains_key(&w) {
            let ghost ks0 = self.visited.entry_seq();
            self.visited.insert(w, ());
            assert(keys_of(self.visited.entry_seq()) =~= keys_of(ks0).push(w));
            self.distances.insert(w, d + 1);
            self.queue.push_back(w);
            insert_nested(&mut self.mst, u, w, ());
            self.rmr.increment_n();
        } else {
            self.rmr.increment_m();
        }
        insert_nested(&mut self.orders, w, u, d + 1);
    }

    /// The state of the breadth-first spread after the first `p` reached nodes have
    /// forwarded the message.
    #[verifier::opaque]
    spec fn bfs_inv(self, nodes: Seq<Node>, stakes: Map<Pubkey, u64>, origin: Pubkey, p: int) -> bool {
        &&& self.bfs_core(nodes, stakes, origin, p)
        &&& self.bfs_records(nodes, stakes, origin, p)
        &&& self.bfs_tree(nodes, stakes, origin, p)
    }

    /// Which nodes the message reached, in how many hops, and in what order.
    spec fn bfs_core(self, nodes: Seq<Node>, stakes: Map<Pubkey, u64>, origin: Pubkey, p: int) -> bool {
        let ks = self.visited.key_seq();
        let d = self.distances@;
        let f = self.gossip_push_fanout as nat;
        &&& self.wf()
        &&& self.prunes@ == Map::<Pubkey, PubkeyMap<Vec<Pubkey>>>::empty()
        &&& 0 <= p <= ks.len()
        &&& ks.len() >= 1
        &&& ks[0] == origin
        &&& d.dom().contains(origin) && d[origin] == 0
        &&& self.queue@ == ks.skip(p)
        &&& forall|x: Pubkey| #[trigger] self.visited@.dom().contains(x) <==> ks.contains(x)
        &&& forall|i: int| 0 <= i < ks.len() ==> {
            &&& d.dom().contains(#[trigger] ks[i])
            &&& d[ks[i]] < ks.len()
            &&& reaches(nodes, stakes, origin, f, ks[i], d[ks[i]] as nat)
            &&& has_node(nodes, ks[i])
        }
        &&& forall|i: int, j: int| 0 <= i <= j < ks.len() ==> d[#[trigger] ks[i]] <= d[#[trigger] ks[j]]
        &&& p < ks.len() ==> d[ks[ks.len() - 1]] <= d[ks[p]] + 1
        &&& forall|i: int, w: Pubkey|
            0 <= i < p && #[trigger] push_targets(nodes, stakes, origin, f, ks[i]).contains(w) ==> self.visited@.dom().contains(w)
                && d[w] <= d[ks[i]] + 1
        &&& forall|x: Pubkey| !#[trigger] self.visited@.dom().contains(x) ==> (d.dom().contains(x) <==> stakes.dom().contains(x))
        &&& forall|x: Pubkey| !#[trigger] self.visited@.dom().contains(x) && d.dom().contains(x) ==> d[x] == u64::MAX
    }

    /// Which pushes the first `p` reached nodes made.
    spec fn bfs_records(self, nodes: Seq<Node>, stakes: Map<Pubkey, u64>, origin: Pubkey, p: int) -> bool {
        let ks = self.visited.key_seq();
        let d = self.distances@;
        let f = self.gossip_push_fanout as nat;
        &&& forall|x: Pubkey| #[trigger] self.pushes@.dom().contains(x) <==> ks.take(p).contains(x)
        &&& forall|x: Pubkey| #[trigger] self.pushes@.dom().contains(x) ==> self.pushes@[x]@.dom() == push_targets(nodes, stakes, origin, f, x).to_set()
        &&& forall|w: Pubkey, x: Pubkey|
            #![trigger self.orders@[w]@.dom().contains(x)]
            #![trigger self.orders@.dom().contains(w), push_targets(nodes, stakes, origin, f, x)]
            (self.orders@.dom().contains(w) && self.orders@[w]@.dom().contains(x)) <==> (ks.take(p).contains(x)
                && push_targets(nodes, stakes, origin, f, x).contains(w))
        &&& forall|w: Pubkey, x: Pubkey|
            #![trigger self.orders@[w]@[x]]
            self.orders@.dom().contains(w) && self.orders@[w]@.dom().contains(x) ==> self.orders@[w]@[x] == d[x] + 1
        &&& !self.orders@.dom().contains(origin)
    }

    /// Through which push each reached node first got the message, and the message counts.
    spec fn bfs_tree(self, nodes: Seq<Node>, stakes: Map<Pubkey, u64>, origin: Pubkey, p: int) -> bool {
        let ks = self.visited.key_seq();
        let d = self.distances@;
        let f = self.gossip_push_fanout as nat;
        &&& forall|u: Pubkey| #[trigger] self.mst@.dom().contains(u) ==> ks.take(p).contains(u)
        &&& forall|u: Pubkey, w: Pubkey|
            #![trigger self.mst@[u]@.dom().contains(w)]
            self.mst@.dom().contains(u) && self.mst@[u]@.dom().contains(w) ==> {
                &&& push_targets(nodes, stakes, origin, f, u).contains(w)
                &&& self.visited@.dom().contains(w)
                &&& w != origin
                &&& d[w] == d[u] + 1
            }
        &&& forall|w: Pubkey|
            #[trigger] self.visited@.dom().contains(w) && w != origin ==> exists|u: Pubkey|
                self.mst@.dom().contains(u) && #[trigger] self.mst@[u]@.dom().contains(w)
        &&& forall|u1: Pubkey, u2: Pubkey, w: Pubkey|
            #![trigger self.mst@[u1]@.dom().contains(w), self.mst@[u2]@.dom().contains(w)]
            self.mst@.dom().contains(u1) && self.mst@[u1]@.dom().contains(w) && self.mst@.dom().contains(u2)
                && self.mst@[u2]@.dom().contains(w) ==> u1 == u2
        &&& forall|i: int, j: int, w: Pubkey|
            #![trigger self.mst@[ks[j]]@.dom().contains(w), ks[i]]
            0 <= i < j < ks.len() && self.mst@.dom().contains(ks[j]) && self.mst@[ks[j]]@.dom().contains(w)
                ==> !push_targets(nodes, stakes, origin, f, ks[i]).contains(w)
        &&& self.rmr.receivers() == ks.len()
        &&& self.rmr.messages() + ks.len() == 2 * total_pushes(nodes, stakes, origin, f, ks.take(p)) + 1
    }

    /// One step of the breadth-first spread keeps its invariant: the node at position
    /// `p` forwards the message to its push targets.
    /// The state after node `u` (at position `p`, `dd` hops from the origin) pushed
    /// the message to the first `limit` of `ts`, against the state before.
    spec fn step_rel(
        s0: Cluster,
        s1: Cluster,
        nodes: Seq<Node>,
        stakes: Map<Pubkey, u64>,
        origin: Pubkey,
        p: int,
        u: Pubkey,
        dd: u64,
        ts: Seq<Pubkey>,
        limit: int,
    ) -> bool {
        &&& p < s0.visited.key_seq().len()
        &&& u == s0.visited.key_seq()[p]
        &&& dd == s0.distances@[u]
        &&& dd + 1 < u64::MAX
        &&& 0 <= limit <= ts.len()
        &&& ts.take(limit) == push_targets(nodes, stakes, origin, s0.gossip_push_fanout as nat, u)
        &&& limit == push_targets(nodes, stakes, origin, s0.gossip_push_fanout as nat, u).len()
        &&& s1.wf()
        &&& s1.gossip_push_fanout == s0.gossip_push_fanout
        &&& s1.prunes@ == s0.prunes@
        &&& s1.pushes@.dom() == s0.pushes@.dom().insert(u)
        &&& forall|k: Pubkey| #[trigger] s0.pushes@.dom().contains(k) && k != u ==> s1.pushes@[k] == s0.pushes@[k]
        &&& s1.pushes@[u]@.dom() == ts.take(limit).to_set()
        &&& forall|k: Pubkey| #[trigger] s1.orders@.dom().contains(k) <==> (s0.orders@.dom().contains(k) || ts.take(limit).contains(k))
        &&& forall|k: Pubkey, x: Pubkey| #[trigger] s1.orders@.dom().contains(k) ==> (#[trigger] s1.orders@[k]@.dom().contains(x) <==> (
                (s0.orders@.dom().contains(k) && s0.orders@[k]@.dom().contains(x)) || (x == u && ts.take(limit).contains(k))))
        &&& forall|k: Pubkey, x: Pubkey| #[trigger] s1.orders@.dom().contains(k) && #[trigger] s1.orders@[k]@.dom().contains(x) ==>
                s1.orders@[k]@[x] == (if x == u { (dd + 1) as u64 } else { s0.orders@[k]@[x] })
        &&& s1.visited.key_seq().len() >= s0.visited.key_seq().len()
        &&& s1.visited.key_seq().take(s0.visited.key_seq().len() as int) == s0.visited.key_seq()
        &&& forall|i: int| s0.visited.key_seq().len() <= i < s1.visited.key_seq().len() ==> {
                &&& ts.take(limit).contains(#[trigger] s1.visited.key_seq()[i])
                &&& !s0.visited@.dom().contains(s1.visited.key_seq()[i])
                &&& s1.distances@[s1.visited.key_seq()[i]] == dd + 1
            }
        &&& forall|x: Pubkey| #[trigger] s1.visited@.dom().contains(x) <==> (s0.visited@.dom().contains(x) || (ts.take(limit).contains(x)))
        &&& s1.distances@.dom() == s0.distances@.dom().union(s1.visited@.dom())
        &&& forall|x: Pubkey| #[trigger] s0.visited@.dom().contains(x) || !s1.visited@.dom().contains(x) ==> s1.distances@[x] == s0.distances@[x]
        &&& s1.queue@ == s0.visited.key_seq().skip(p + 1) + s1.visited.key_seq().skip(s0.visited.key_seq().len() as int)
        &&& forall|k: Pubkey| #[trigger] s1.mst@.dom().contains(k) && k != u ==> s0.mst@.dom().contains(k) && s1.mst@[k] == s0.mst@[k]
        &&& forall|k: Pubkey| #[trigger] s0.mst@.dom().contains(k) ==> s1.mst@.dom().contains(k)
        &&& forall|w: Pubkey|
                #![trigger s1.mst@[u]@.dom().contains(w)]
                #![trigger s1.visited@.dom().contains(w)]
                (s1.mst@.dom().contains(u) && s1.mst@[u]@.dom().contains(w)) <==> (
                s1.visited@.dom().contains(w) && !s0.visited@.dom().contains(w))
        &&& s1.rmr.messages() + s1.visited.key_seq().len() == s0.rmr.messages() + s0.visited.key_seq().len() + 2 * limit
        &&& s1.rmr.receivers() + s0.visited.key_seq().len() == s0.rmr.receivers() + s1.visited.key_seq().len()
    }

    /// Facts of one step that the parts of the invariant share.
    proof fn lemma_step_facts(
        s0: Cluster,
        s1: Cluster,
        nodes: Seq<Node>,
        stakes: Map<Pubkey, u64>,
        origin: Pubkey,
        p: int,
        u: Pubkey,
        dd: u64,
        ts: Seq<Pubkey>,
        limit: int,
    )
        requires
            nodes_closed(nodes),
            s0.bfs_core(nodes, stakes, origin, p),
            Cluster::step_rel(s0, s1, nodes, stakes, origin, p, u, dd, ts, limit),
        ensures
            ts.take(limit) == push_targets(nodes, stakes, origin, s0.gossip_push_fanout as nat, u),
            s0.visited@.dom().contains(u),
            forall|x: Pubkey| #[trigger] s0.visited@.dom().contains(x) ==> s1.distances@[x] == s0.distances@[x] && s0.distances@.dom().contains(x) && s1.visited@.dom().contains(x),
            forall|x: Pubkey| #[trigger] s1.visited@.dom().contains(x) && !s0.visited@.dom().contains(x) ==> s1.distances@.dom().contains(x) && s1.distances@[x] == dd + 1
                && push_targets(nodes, stakes, origin, s0.gossip_push_fanout as nat, u).contains(x),
            forall|i: int| 0 <= i < s0.visited.key_seq().len() ==> #[trigger] s1.visited.key_seq()[i] == s0.visited.key_seq()[i],
            s1.visited.key_seq().take(p + 1) == s0.visited.key_seq().take(p).push(u),
            !s0.visited.key_seq().take(p).contains(u),
            forall|x: Pubkey| #[trigger] s1.visited.key_seq().take(p + 1).contains(x) <==> (s0.visited.key_seq().take(p).contains(x) || x == u),
            forall|x: Pubkey| #[trigger] s0.visited.key_seq().take(p).contains(x) ==> s0.visited@.dom().contains(x),
            forall|x: Pubkey| #[trigger] s0.visited@.dom().contains(x) ==> s0.distances@[x] <= dd + 1,
            s0.visited@.dom().contains(origin),
    {
        let f = s0.gossip_push_fanout as nat;
        let k0 = s0.visited.key_seq();
        let k1 = s1.visited.key_seq();
        let d0 = s0.distances@;
        let d1 = s1.distances@;
        crate::key_map::lemma_key_seq_distinct(s0.visited);
        assert forall|i: int| 0 <= i < k0.len() implies #[trigger] k1[i] == k0[i] by {
            assert(k1.take(k0.len() as int)[i] == k1[i]);
        }
        assert forall|x: Pubkey| #[trigger] s0.visited@.dom().contains(x) implies d1[x] == d0[x] && d0.dom().contains(x) && s1.visited@.dom().contains(x) by {
            crate::key_map::lemma_key_seq_contains(s0.visited, x);
        }
        assert forall|x: Pubkey| #[trigger] s1.visited@.dom().contains(x) && !s0.visited@.dom().contains(x) implies
            d1.dom().contains(x) && d1[x] == dd + 1 && push_targets(nodes, stakes, origin, f, u).contains(x) by {
            crate::key_map::lemma_key_seq_contains(s1.visited, x);
            crate::key_map::lemma_key_seq_contains(s0.visited, x);
            let i = choose|i: int| 0 <= i < k1.len() && #[trigger] k1[i] == x;
            if i < k0.len() {
                assert(k0[i] == x);
            }
        }
        assert(s0.visited@.dom().contains(u)) by {
            crate::key_map::lemma_key_seq_contains(s0.visited, u);
        }
        assert(s0.visited@.dom().contains(origin)) by {
            crate::key_map::lemma_key_seq_contains(s0.visited, origin);
        }
        assert(k1.take(p + 1) =~= k0.take(p).push(u));
        assert forall|x: Pubkey| #[trigger] k1.take(p + 1).contains(x) <==> (k0.take(p).contains(x) || x == u) by {
            if k1.take(p + 1).contains(x) && x != u {
                let q = choose|q: int| 0 <= q < p + 1 && #[trigger] k1.take(p + 1)[q] == x;
                assert(k0.take(p)[q] == x);
            }
            if k0.take(p).contains(x) {
                let q = choose|q: int| 0 <= q < p && #[trigger] k0.take(p)[q] == x;
                assert(k1.take(p + 1)[q] == x);
            }
            if x == u {
                assert(k1.take(p + 1)[p] == u);
            }
        }
        assert(!k0.take(p).contains(u)) by {
            if k0.take(p).contains(u) {
                let q = choose|q: int| 0 <= q < p && #[trigger] k0.take(p)[q] == u;
                assert(k0[q] == k0[p]);
            }
        }
        assert forall|x: Pubkey| #[trigger] k0.take(p).contains(x) implies s0.visited@.dom().contains(x) by {
            let q = choose|q: int| 0 <= q < p && #[trigger] k0.take(p)[q] == x;
            assert(k0[q] == x);
            crate::key_map::lemma_key_seq_contains(s0.visited, x);
        }
        assert forall|x: Pubkey| #[trigger] s0.visited@.dom().contains(x) implies d0[x] <= dd + 1 by {
            crate::key_map::lemma_key_seq_contains(s0.visited, x);
            let q = choose|q: int| 0 <= q < k0.len() && #[trigger] k0[q] == x;
            assert(d0[k0[q]] <= d0[k0[k0.len() - 1]]);
        }
    }

    /// At the end of the spread, a node reached along a path of `k` pushes was reached
    /// in at most `k` hops.
    proof fn lemma_bfs_complete(
        c: Cluster,
        nodes: Seq<Node>,
        stakes: Map<Pubkey, u64>,
        origin: Pubkey,
        path: Seq<Pubkey>,
    )
        requires
            c.bfs_core(nodes, stakes, origin, c.visited.key_seq().len() as int),
            is_push_path(nodes, stakes, origin, c.gossip_push_fanout as nat, path),
        ensures
            c.visited@.dom().contains(path.last()),
            c.distances@[path.last()] <= path.len() - 1,
        decreases path.len(),
    {
        let ks = c.visited.key_seq();
        let f = c.gossip_push_fanout as nat;
        if path.len() == 1 {
            assert(ks[0] == origin);
            assert(ks.contains(origin));
        } else {
            let q = path.drop_last();
            assert forall|i: int| 0 <= i < q.len() - 1 implies #[trigger] push_targets(nodes, stakes, origin, f, q[i]).contains(
                q[i + 1],
            ) by {
                assert(push_targets(nodes, stakes, origin, f, path[i]).contains(path[i + 1]));
            }
            Cluster::lemma_bfs_complete(c, nodes, stakes, origin, q);
            let u = q.last();
            let m = path.len() - 2;
            assert(push_targets(nodes, stakes, origin, f, path[m]).contains(path[m + 1]));
            assert(path[m] == u && path[m + 1] == path.last());
            assert(ks.contains(u));
            let i = choose|i: int| 0 <= i < ks.len() && ks[i] == u;
            assert(push_targets(nodes, stakes, origin, f, ks[i]).contains(path.last()));
        }
    }

    /// One step keeps which nodes were reached, in how many hops and in what order.
    #[verifier::spinoff_prover]
    proof fn lemma_step_core(
        s0: Cluster,
        s1: Cluster,
        nodes: Seq<Node>,
        stakes: Map<Pubkey, u64>,
        origin: Pubkey,
        p: int,
        u: Pubkey,
        dd: u64,
        ts: Seq<Pubkey>,
        limit: int,
    )
        requires
            nodes_closed(nodes),
            s0.bfs_core(nodes, stakes, origin, p),
            Cluster::step_rel(s0, s1, nodes, stakes, origin, p, u, dd, ts, limit),
        ensures
            s1.bfs_core(nodes, stakes, origin, p + 1),
    {
        Cluster::lemma_step_facts(s0, s1, nodes, stakes, origin, p, u, dd, ts, limit);
        let f = s0.gossip_push_fanout as nat;
        let k0 = s0.visited.key_seq();
        let k1 = s1.visited.key_seq();
        let d0 = s0.distances@;
        let d1 = s1.distances@;
        let g = push_targets(nodes, stakes, origin, f, u);
        assert(reaches(nodes, stakes, origin, f, u, dd as nat));
        assert(has_node(nodes, u));
        assert(k1[0] == origin);
        assert(s1.queue@ =~= k1.skip(p + 1)) by {
            assert(k0.skip(p + 1) + k1.skip(k0.len() as int) =~= k1.skip(p + 1));
        }
        assert forall|x: Pubkey| #[trigger] s1.visited@.dom().contains(x) <==> k1.contains(x) by {
            crate::key_map::lemma_key_seq_contains(s1.visited, x);
        }
        assert forall|i: int| 0 <= i < k1.len() implies {
            &&& d1.dom().contains(#[trigger] k1[i])
            &&& d1[k1[i]] < k1.len()
            &&& reaches(nodes, stakes, origin, f, k1[i], d1[k1[i]] as nat)
            &&& has_node(nodes, k1[i])
        } by {
            if i < k0.len() {
                assert(s0.visited@.dom().contains(k0[i])) by {
                    crate::key_map::lemma_key_seq_contains(s0.visited, k0[i]);
                }
            } else {
                let x = k1[i];
                assert(g.contains(x));
                assert(d1[x] == dd + 1);
                lemma_reaches_step(nodes, stakes, origin, f, u, dd as nat, x);
                lemma_push_targets_known(nodes, stakes, origin, f, u, x);
            }
        }
        assert forall|i: int| 0 <= i < k0.len() implies d1[#[trigger] k1[i]] == d0[k0[i]] by {
            assert(s0.visited@.dom().contains(k0[i])) by {
                crate::key_map::lemma_key_seq_contains(s0.visited, k0[i]);
            }
        }
        assert forall|j: int| k0.len() <= j < k1.len() implies d1[#[trigger] k1[j]] == dd + 1 by {}
        assert forall|i: int, j: int| 0 <= i <= j < k1.len() implies d1[#[trigger] k1[i]] <= d1[#[trigger] k1[j]] by {
            if i < k0.len() {
                assert(d1[k1[i]] == d0[k0[i]]);
                assert(s0.visited@.dom().contains(k0[i])) by {
                    crate::key_map::lemma_key_seq_contains(s0.visited, k0[i]);
                }
            }
            if j < k0.len() {
                assert(d1[k1[j]] == d0[k0[j]]);
                assert(d0[k0[i]] <= d0[k0[j]]);
            }
        }
        if p + 1 < k1.len() {
            if p + 1 < k0.len() {
                assert(d0[k0[p]] <= d0[k0[p + 1]]);
                assert(d1[k1[p + 1]] == d0[k0[p + 1]]);
            }
            if k1.len() - 1 < k0.len() {
                assert(s0.visited@.dom().contains(k0[k1.len() - 1])) by {
                    crate::key_map::lemma_key_seq_contains(s0.visited, k0[k1.len() - 1]);
                }
            }
            assert(d1[k1[k1.len() - 1]] <= dd + 1);
        }
        assert forall|i: int, w: Pubkey|
            0 <= i < p + 1 && #[trigger] push_targets(nodes, stakes, origin, f, k1[i]).contains(w) implies s1.visited@.dom().contains(w)
                && d1[w] <= d1[k1[i]] + 1 by {
            if i < p {
                assert(k1[i] == k0[i]);
                assert(s0.visited@.dom().contains(w) && d0[w] <= d0[k0[i]] + 1);
                assert(s0.visited@.dom().contains(k0[i])) by {
                    crate::key_map::lemma_key_seq_contains(s0.visited, k0[i]);
                }
            } else {
                assert(k1[i] == u);
                assert(g.contains(w));
                assert(d1[u] == d0[u]);
                if s0.visited@.dom().contains(w) {
                    assert(d1[w] == d0[w]);
                    assert(d0[w] <= dd + 1);
                } else {
                    assert(s1.visited@.dom().contains(w));
                    assert(d1[w] == dd + 1);
                }
            }
        }
        assert forall|x: Pubkey| !#[trigger] s1.visited@.dom().contains(x) implies (d1.dom().contains(x) <==> stakes.dom().contains(x)) by {
            assert(!s0.visited@.dom().contains(x));
        }
        assert forall|x: Pubkey| !#[trigger] s1.visited@.dom().contains(x) && d1.dom().contains(x) implies d1[x] == u64::MAX by {
            assert(!s0.visited@.dom().contains(x));
        }
    }

    /// One step keeps the record of which pushes were made.
    proof fn lemma_step_records(
        s0: Cluster,
        s1: Cluster,
        nodes: Seq<Node>,
        stakes: Map<Pubkey, u64>,
        origin: Pubkey,
        p: int,
        u: Pubkey,
        dd: u64,
        ts: Seq<Pubkey>,
        limit: int,
    )
        requires
            nodes_closed(nodes),
            s0.bfs_core(nodes, stakes, origin, p),
            s0.bfs_records(nodes, stakes, origin, p),
            Cluster::step_rel(s0, s1, nodes, stakes, origin, p, u, dd, ts, limit),
        ensures
            s1.bfs_records(nodes, stakes, origin, p + 1),
    {
        Cluster::lemma_step_facts(s0, s1, nodes, stakes, origin, p, u, dd, ts, limit);
        let f = s1.gossip_push_fanout as nat;
        assert(f == s0.gossip_push_fanout as nat);
        let k0 = s0.visited.key_seq();
        let k1 = s1.visited.key_seq();
        let d1 = s1.distances@;
        let g = push_targets(nodes, stakes, origin, f, u);
        assert(!s1.orders@.dom().contains(origin)) by {
            assert(has_node(nodes, k0[p]));
            lemma_origin_never_pushed_to(nodes, stakes, origin, f, u);
        }
        assert forall|x: Pubkey| #[trigger] s1.pushes@.dom().contains(x) <==> k1.take(p + 1).contains(x) by {}
        assert forall|x: Pubkey| #[trigger] s1.pushes@.dom().contains(x) implies s1.pushes@[x]@.dom() == push_targets(nodes, stakes, origin, f, x).to_set() by {
            if x != u {
                assert(s0.pushes@.dom().contains(x));
            }
        }
        assert forall|w: Pubkey, x: Pubkey|
            #![trigger s1.orders@[w]@.dom().contains(x)]
            (s1.orders@.dom().contains(w) && s1.orders@[w]@.dom().contains(x)) implies (k1.take(p + 1).contains(x)
                && push_targets(nodes, stakes, origin, f, x).contains(w)) by {
            if !(x == u && g.contains(w)) {
                assert(s0.orders@.dom().contains(w) && s0.orders@[w]@.dom().contains(x));
                assert(k0.take(p).contains(x) && push_targets(nodes, stakes, origin, s0.gossip_push_fanout as nat, x).contains(w));
            }
        }
        assert forall|w: Pubkey, x: Pubkey|
            #![trigger s1.orders@[w]@.dom().contains(x)]
            (k1.take(p + 1).contains(x) && push_targets(nodes, stakes, origin, f, x).contains(w)) implies
            (s1.orders@.dom().contains(w) && s1.orders@[w]@.dom().contains(x)) by {
            if x == u {
                assert(s1.orders@.dom().contains(w));
                assert(s1.orders@[w]@.dom().contains(x));
            } else {
                assert(k0.take(p).contains(x));
                assert(push_targets(nodes, stakes, origin, s0.gossip_push_fanout as nat, x).contains(w));
                Cluster::lemma_orders_at(s0, nodes, stakes, origin, p, w, x);
                assert(s0.orders@.dom().contains(w) && s0.orders@[w]@.dom().contains(x));
                assert(s1.orders@.dom().contains(w));
                assert(s1.orders@[w]@.dom().contains(x));
            }
        }
        assert forall|w: Pubkey, x: Pubkey|
            #![trigger s1.orders@[w]@[x]]
            s1.orders@.dom().contains(w) && s1.orders@[w]@.dom().contains(x) implies s1.orders@[w]@[x] == d1[x] + 1 by {
            assert(s1.orders@[w]@[x] == (if x == u { (dd + 1) as u64 } else { s0.orders@[w]@[x] }));
            if x != u {
                assert(s0.orders@.dom().contains(w) && s0.orders@[w]@.dom().contains(x));
                assert(k0.take(p).contains(x));
                assert(s0.visited@.dom().contains(x));
                assert(s0.orders@[w]@[x] == s0.distances@[x] + 1);
                assert(d1[x] == s0.distances@[x]);
            } else {
                assert(d1[u] == s0.distances@[u]);
            }
        }
    }

    /// The record of orders at one pair.
    proof fn lemma_orders_at(c: Cluster, nodes: Seq<Node>, stakes: Map<Pubkey, u64>, origin: Pubkey, p: int, w: Pubkey, x: Pubkey)
        requires
            c.bfs_records(nodes, stakes, origin, p),
        ensures
            (c.orders@.dom().contains(w) && c.orders@[w]@.dom().contains(x)) <==> (c.visited.key_seq().take(p).contains(x)
                && push_targets(nodes, stakes, origin, c.gossip_push_fanout as nat, x).contains(w)),
    {
        assert(c.orders@[w]@.dom().contains(x) == c.orders@[w]@.dom().contains(x));
    }

    /// One step keeps the tree of first deliveries and the message counts.
    proof fn lemma_step_tree(
        s0: Cluster,
        s1: Cluster,
        nodes: Seq<Node>,
        stakes: Map<Pubkey, u64>,
        origin: Pubkey,
        p: int,
        u: Pubkey,
        dd: u64,
        ts: Seq<Pubkey>,
        limit: int,
    )
        requires
            nodes_closed(nodes),
            s0.bfs_core(nodes, stakes, origin, p),
            s0.bfs_tree(nodes, stakes, origin, p),
            Cluster::step_rel(s0, s1, nodes, stakes, origin, p, u, dd, ts, limit),
        ensures
            s1.bfs_tree(nodes, stakes, origin, p + 1),
    {
        Cluster::lemma_step_facts(s0, s1, nodes, stakes, origin, p, u, dd, ts, limit);
        let f = s0.gossip_push_fanout as nat;
        let k0 = s0.visited.key_seq();
        let k1 = s1.visited.key_seq();
        let d1 = s1.distances@;
        let g = push_targets(nodes, stakes, origin, f, u);
        assert(!s0.mst@.dom().contains(u));
        assert forall|x: Pubkey| #[trigger] s1.mst@.dom().contains(x) implies k1.take(p + 1).contains(x) by {
            if x != u {
                assert(s0.mst@.dom().contains(x));
            }
        }
        assert forall|x: Pubkey, w: Pubkey|
            #![trigger s1.mst@[x]@.dom().contains(w)]
            s1.mst@.dom().contains(x) && s1.mst@[x]@.dom().contains(w) implies {
                &&& push_targets(nodes, stakes, origin, f, x).contains(w)
                &&& s1.visited@.dom().contains(w)
                &&& w != origin
                &&& d1[w] == d1[x] + 1
            } by {
            if x != u {
                assert(s0.mst@.dom().contains(x) && s0.mst@[x]@.dom().contains(w));
                assert(k0.take(p).contains(x));
            } else {
                assert(s1.visited@.dom().contains(w) && !s0.visited@.dom().contains(w));
            }
        }
        assert forall|w: Pubkey|
            #[trigger] s1.visited@.dom().contains(w) && w != origin implies exists|x: Pubkey|
                s1.mst@.dom().contains(x) && #[trigger] s1.mst@[x]@.dom().contains(w) by {
            if s0.visited@.dom().contains(w) {
                let x = choose|x: Pubkey| s0.mst@.dom().contains(x) && #[trigger] s0.mst@[x]@.dom().contains(w);
                assert(x != u);
                assert(s1.mst@.dom().contains(x));
                assert(s1.mst@[x] == s0.mst@[x]);
            } else {
                assert(s1.mst@.dom().contains(u) && s1.mst@[u]@.dom().contains(w));
            }
        }
        assert forall|u1: Pubkey, u2: Pubkey, w: Pubkey|
            #![trigger s1.mst@[u1]@.dom().contains(w), s1.mst@[u2]@.dom().contains(w)]
            s1.mst@.dom().contains(u1) && s1.mst@[u1]@.dom().contains(w) && s1.mst@.dom().contains(u2)
                && s1.mst@[u2]@.dom().contains(w) implies u1 == u2 by {
            if u1 != u && u2 != u {
                assert(s0.mst@[u1]@.dom().contains(w));
                assert(s0.mst@[u2]@.dom().contains(w));
            } else if u1 == u && u2 != u {
                assert(s0.mst@.dom().contains(u2) && s0.mst@[u2]@.dom().contains(w));
                assert(!s0.visited@.dom().contains(w));
            } else if u2 == u && u1 != u {
                assert(s0.mst@.dom().contains(u1) && s0.mst@[u1]@.dom().contains(w));
                assert(!s0.visited@.dom().contains(w));
            }
        }
        assert forall|i: int, j: int, w: Pubkey|
            #![trigger s1.mst@[k1[j]]@.dom().contains(w), k1[i]]
            0 <= i < j < k1.len() && s1.mst@.dom().contains(k1[j]) && s1.mst@[k1[j]]@.dom().contains(w)
            implies !push_targets(nodes, stakes, origin, f, k1[i]).contains(w) by {
            crate::key_map::lemma_key_seq_distinct(s1.visited);
            assert(k1.take(p + 1).contains(k1[j]));
            let q = choose|q: int| 0 <= q < p + 1 && #[trigger] k1.take(p + 1)[q] == k1[j];
            assert(k1[q] == k1[j]);
            assert(j <= p);
            assert(k1.take(p + 1)[p] == u);
            assert(k1[p] == u);
            assert(k1[i] == k0[i]);
            if k1[j] == u {
                assert(j == p);
                assert(s1.mst@.dom().contains(u) && s1.mst@[u]@.dom().contains(w));
                assert(!s0.visited@.dom().contains(w));
                if push_targets(nodes, stakes, origin, f, k1[i]).contains(w) {
                    assert(push_targets(nodes, stakes, origin, f, k0[i]).contains(w));
                    assert(s0.visited@.dom().contains(w));
                }
            } else {
                assert(j < p);
                assert(k1[j] == k0[j]);
                assert(s0.mst@.dom().contains(k0[j]));
                assert(s1.mst@[k0[j]] == s0.mst@[k0[j]]);
                assert(s0.mst@[k0[j]]@.dom().contains(w));
                assert(!push_targets(nodes, stakes, origin, f, k0[i]).contains(w));
            }
        }
        assert(total_pushes(nodes, stakes, origin, f, k1.take(p + 1)) == total_pushes(nodes, stakes, origin, f, k0.take(p)) + limit) by {
            assert(k1.take(p + 1).drop_last() =~= k0.take(p));
            assert(k1.take(p + 1).last() == u);
        }
    }

    /// One step of the breadth-first spread keeps its invariant: the node at position
    /// `p` forwards the message to its push targets.
    proof fn lemma_bfs_step(
        s0: Cluster,
        s1: Cluster,
        nodes: Seq<Node>,
        stakes: Map<Pubkey, u64>,
        origin: Pubkey,
        p: int,
        u: Pubkey,
        dd: u64,
        ts: Seq<Pubkey>,
        limit: int,
    )
        requires
            nodes_closed(nodes),
            s0.bfs_inv(nodes, stakes, origin, p),
            Cluster::step_rel(s0, s1, nodes, stakes, origin, p, u, dd, ts, limit),
        ensures
            s1.bfs_inv(nodes, stakes, origin, p + 1),
    {
        reveal(Cluster::bfs_inv);
        Cluster::lemma_step_core(s0, s1, nodes, stakes, origin, p, u, dd, ts, limit);
        Cluster::lemma_step_records(s0, s1, nodes, stakes, origin, p, u, dd, ts, limit);
        Cluster::lemma_step_tree(s0, s1, nodes, stakes, origin, p, u, dd, ts, limit);
    }

    /// Forgets the last round and records that the origin holds the message.
    fn start_spread(&mut self, origin_pubkey: &Pubkey, stakes: &PubkeyMap<u64>, nodes: &[Node])
        requires
            old(self).wf(),
            stakes.wf(),
            nodes_closed(nodes@),
            has_node(nodes@, *origin_pubkey),
        ensures
            final(self).bfs_inv(nodes@, stakes@, *origin_pubkey, 0),
            final(self).gossip_push_fanout == old(self).gossip_push_fanout,
            final(self).visited.key_seq().len() == 1,
    {
        let ghost f = self.gossip_push_fanout as nat;
        self.initialize(stakes);
        self.distances.insert(*origin_pubkey, 0);
        self.queue.push_back(*origin_pubkey);
        let ghost v0 = self.visited.entry_seq();
        self.visited.insert(*origin_pubkey, ());
        self.rmr.increment_n();
        proof {
            let ks = self.visited.key_seq();
            assert(ks =~= seq![*origin_pubkey]);
            assert(self.queue@ =~= ks.skip(0));
            lemma_reaches_origin(nodes@, stakes@, *origin_pubkey, f);
            assert forall|x: Pubkey| #[trigger] self.visited@.dom().contains(x) <==> ks.contains(x) by {
                crate::key_map::lemma_key_seq_contains(self.visited, x);
            }
            assert(ks[0] == *origin_pubkey);
            assert(ks.take(0) =~= Seq::<Pubkey>::empty());
            assert(total_pushes(nodes@, stakes@, *origin_pubkey, f, ks.take(0)) == 0);
            assert forall|w: Pubkey|
                #[trigger] self.visited@.dom().contains(w) && w != *origin_pubkey implies exists|u: Pubkey|
                    self.mst@.dom().contains(u) && #[trigger] self.mst@[u]@.dom().contains(w) by {
                assert(ks.contains(w));
            }
            reveal(Cluster::bfs_inv);
            assert(self.bfs_inv(nodes@, stakes@, *origin_pubkey, 0));
        }
    }

    /// Simulates how a message from `origin_pubkey` spreads: breadth first, each node
    /// that receives it for the first time pushes it to the first `fanout` targets of
    /// its push active set that have not pruned the origin. Records for each node the
    /// fewest hops to reach it, which peers delivered it and at how many hops, the
    /// tree of first deliveries, each node's pushes, and the message counts.
    #[verifier::spinoff_prover]
    #[verifier::rlimit(80)]
    pub fn new_mst(&mut self, origin_pubkey: &Pubkey, stakes: &PubkeyMap<u64>, nodes: &[Node])
        requires
            old(self).wf(),
            stakes.wf(),
            nodes_closed(nodes@),
            has_node(nodes@, *origin_pubkey),
            nodes@.len() < 0x4000_0000_0000_0000,
            nodes@.len() * old(self).fanout() <= 0x3fff_ffff_ffff_ffff,
        ensures
            final(self).wf(),
            final(self).fanout() == old(self).fanout(),
            forall|v: Pubkey, k: nat| #[trigger] reaches(nodes@, stakes@, *origin_pubkey, final(self).fanout() as nat, v, k) ==> final(self).visited_set().contains(v)
                && final(self).distance_map()[v] <= k,
            forall|v: Pubkey| #[trigger] final(self).visited_set().contains(v) ==> final(self).distance_map().dom().contains(v) && reaches(
                nodes@,
                stakes@,
                *origin_pubkey,
                final(self).fanout() as nat,
                v,
                final(self).distance_map()[v] as nat,
            ),
            forall|v: Pubkey| !#[trigger] final(self).visited_set().contains(v) ==> (final(self).distance_map().dom().contains(v) <==> stakes@.dom().contains(v)),
            forall|v: Pubkey| !#[trigger] final(self).visited_set().contains(v) && final(self).distance_map().dom().contains(v) ==> final(self).distance_map()[v] == u64::MAX,
            forall|v: Pubkey| #[trigger] final(self).visited_set().contains(v) <==> final(self).visited_keys().contains(v),
            forall|i: int, j: int| 0 <= i < j < final(self).visited_keys().len() ==> #[trigger] final(self).visited_keys()[i] != #[trigger] final(self).visited_keys()[j],
            forall|w: Pubkey, x: Pubkey|
                #![trigger final(self).orders_map()[w].dom().contains(x)]
                #![trigger final(self).orders_map().dom().contains(w), push_targets(nodes@, stakes@, *origin_pubkey, final(self).fanout() as nat, x)]
                (final(self).orders_map().dom().contains(w) && final(self).orders_map()[w].dom().contains(x)) <==> (final(self).visited_set().contains(x)
                    && push_targets(nodes@, stakes@, *origin_pubkey, final(self).fanout() as nat, x).contains(w)),
            forall|w: Pubkey, x: Pubkey|
                #![trigger final(self).orders_map()[w][x]]
                final(self).orders_map().dom().contains(w) && final(self).orders_map()[w].dom().contains(x) ==> final(self).orders_map()[w][x] == final(self).distance_map()[x] + 1,
            !final(self).orders_map().dom().contains(*origin_pubkey),
            forall|x: Pubkey| #[trigger] final(self).pushes_map().dom().contains(x) <==> final(self).visited_set().contains(x),
            forall|x: Pubkey| #[trigger] final(self).pushes_map().dom().contains(x) ==> final(self).pushes_map()[x] == push_targets(nodes@, stakes@, *origin_pubkey, final(self).fanout() as nat, x).to_set(),
            forall|u: Pubkey, w: Pubkey|
                #![trigger final(self).mst_map()[u].contains(w)]
                final(self).mst_map().dom().contains(u) && final(self).mst_map()[u].contains(w) ==> {
                    &&& final(self).visited_set().contains(u)
                    &&& push_targets(nodes@, stakes@, *origin_pubkey, final(self).fanout() as nat, u).contains(w)
                    &&& final(self).visited_set().contains(w)
                    &&& w != *origin_pubkey
                    &&& final(self).distance_map()[w] == final(self).distance_map()[u] + 1
                },
            forall|w: Pubkey|
                #[trigger] final(self).visited_set().contains(w) && w != *origin_pubkey ==> exists|u: Pubkey|
                    final(self).mst_map().dom().contains(u) && #[trigger] final(self).mst_map()[u].contains(w),
            forall|u1: Pubkey, u2: Pubkey, w: Pubkey|
                #![trigger final(self).mst_map()[u1].contains(w), final(self).mst_map()[u2].contains(w)]
                final(self).mst_map().dom().contains(u1) && final(self).mst_map()[u1].contains(w) && final(self).mst_map().dom().contains(u2)
                    && final(self).mst_map()[u2].contains(w) ==> u1 == u2,
            forall|i: int, j: int, w: Pubkey|
                #![trigger final(self).mst_map()[final(self).visited_keys()[j]].contains(w), final(self).visited_keys()[i]]
                0 <= i < j < final(self).visited_keys().len() && final(self).mst_map().dom().contains(final(self).visited_keys()[j])
                    && final(self).mst_map()[final(self).visited_keys()[j]].contains(w) ==> !push_targets(
                    nodes@,
                    stakes@,
                    *origin_pubkey,
                    final(self).fanout() as nat,
                    final(self).visited_keys()[i],
                ).contains(w),
            final(self).rmr_counts().receivers() == final(self).visited_keys().len(),
            final(self).rmr_counts().messages() + final(self).rmr_counts().receivers() == 2 * total_pushes(nodes@, stakes@, *origin_pubkey, final(self).fanout() as nat, final(self).visited_keys()) + 1,
            final(self).prunes_map() == Map::<Pubkey, Map<Pubkey, Seq<Pubkey>>>::empty(),
            final(self).stranded_set() == stakes@.dom().difference(final(self).visited_set()),
    {
        let ghost f = self.gossip_push_fanout as nat;
        self.start_spread(origin_pubkey, stakes, nodes);
        let ghost mut p: int = 0;
        while self.queue.len() > 0
            invariant
                stakes.wf(),
                nodes_closed(nodes@),
                nodes@.len() < 0x4000_0000_0000_0000,
                nodes@.len() * (f as int) <= 0x3fff_ffff_ffff_ffff,
                f == self.gossip_push_fanout as nat,
                self.bfs_inv(nodes@, stakes@, *origin_pubkey, p),
                p <= self.visited.key_seq().len() <= nodes@.len(),
            decreases nodes@.len() - p,
        {
            self.bfs_step(origin_pubkey, stakes, nodes, Ghost(p));
            proof {
                p = p + 1;
            }
        }
        proof {
            Cluster::lemma_bfs_laws(*self, nodes@, stakes@, *origin_pubkey, p);
        }
    }

    /// The node at position `p` of the reached nodes forwards the message to its push
    /// targets.
    #[verifier::rlimit(40)]
    fn bfs_step(&mut self, origin_pubkey: &Pubkey, stakes: &PubkeyMap<u64>, nodes: &[Node], Ghost(p): Ghost<int>)
        requires
            stakes.wf(),
            nodes_closed(nodes@),
            nodes@.len() < 0x4000_0000_0000_0000,
            nodes@.len() * old(self).gossip_push_fanout <= 0x3fff_ffff_ffff_ffff,
            old(self).bfs_inv(nodes@, stakes@, *origin_pubkey, p),
            old(self).queue@.len() > 0,
            old(self).visited.key_seq().len() <= nodes@.len(),
        ensures
            final(self).bfs_inv(nodes@, stakes@, *origin_pubkey, p + 1),
            p + 1 <= final(self).visited.key_seq().len(),
            final(self).gossip_push_fanout == old(self).gossip_push_fanout,
            final(self).visited.key_seq().len() <= nodes@.len(),
    {
        let ghost f = self.gossip_push_fanout as nat;
        proof {
            reveal(Cluster::bfs_inv);
        }
        let ghost s0 = *self;
        let ghost k0 = self.visited.key_seq();
        let u = match self.queue.pop_front() {
            Some(u) => u,
            None => *origin_pubkey,
        };
        assert(k0.skip(p)[0] == k0[p]);
        let dd = match self.distances.get(&u) {
            Some(x) => *x,
            None => 0,
        };
        let idx = find_node(nodes, &u);
        proof {
            lemma_node_index(nodes@, idx as int);
            assert(!k0.take(p).contains(u)) by {
                crate::key_map::lemma_key_seq_distinct(s0.visited);
                if k0.take(p).contains(u) {
                    let q = choose|q: int| 0 <= q < p && #[trigger] k0.take(p)[q] == u;
                    assert(k0[q] == k0[p]);
                }
            }
        }
        self.pushes.insert(u, PubkeyMap::new());
        let never_forced = |_k: &Pubkey| -> (b: bool)
            ensures
                !b,
        { false };
        let ts = nodes[idx].active_set.get_nodes(&u, origin_pubkey, never_forced, stakes);
        proof {
            let e = nodes@[idx as int].active_set_spec().entries()[push_bucket(stakes@, u, *origin_pubkey) as int];
            let force = choose|force: Seq<bool>|
                #[trigger] crate::push_active_set::chosen_nodes(e, *origin_pubkey, force) == ts@ && force.len() == e.len()
                    && forall|i: int|
                    0 <= i < e.len() && e[i].1.contains(*origin_pubkey) ==> never_forced.ensures(
                        (&Pubkey(e[i].0),),
                        #[trigger] force[i],
                    );
            crate::push_active_set::lemma_chosen_uniform(e, *origin_pubkey, force, false);
        }
        let limit = if self.gossip_push_fanout < ts.len() {
            self.gossip_push_fanout
        } else {
            ts.len()
        };
        proof {
            assert(nodes@[idx as int].wf());
            assert(ts@.take(limit as int) == push_targets(nodes@, stakes@, *origin_pubkey, f, u)) by {
                if limit == ts@.len() {
                    assert(ts@.take(limit as int) =~= ts@);
                }
            }
            lemma_total_pushes_bound(nodes@, stakes@, *origin_pubkey, f, k0.take(p));
            assert(k0.take(p).len() == p);
            assert((p + 1) * f <= nodes@.len() * f) by (nonlinear_arith)
                requires
                    p + 1 <= nodes@.len(),
            ;
            assert((p + 1) * f == p * f + f) by (nonlinear_arith);
            assert(limit <= f);
            assert(s0.rmr.messages() + 2 * limit <= u64::MAX);
            assert forall|k: Pubkey| #[trigger] self.orders@.dom().contains(k) implies !self.orders@[k]@.dom().contains(u) by {
                Cluster::lemma_orders_at(s0, nodes@, stakes@, *origin_pubkey, p, k, u);
            }
            assert forall|x: Pubkey| #[trigger] self.visited@.dom().contains(x) implies self.distances@.dom().contains(x) by {
                assert(k0.contains(x));
            }
            if self.mst@.dom().contains(u) {
                assert(k0.take(p).contains(u));
            }
            assert(f >= 1 ==> nodes@.len() <= 0x3fff_ffff_ffff_ffff) by (nonlinear_arith)
                requires
                    nodes@.len() * f <= 0x3fff_ffff_ffff_ffff,
            ;
        }
        let ghost smid = *self;
        self.forward(u, dd, &ts, limit);
        proof {
            assert(smid.queue@ =~= k0.skip(p + 1));
            assert(Cluster::step_rel(s0, *self, nodes@, stakes@, *origin_pubkey, p, u, dd, ts@, limit as int)) by {
                assert(self.pushes@.dom() =~= s0.pushes@.dom().insert(u));
                assert(self.queue@ =~= k0.skip(p + 1) + self.visited.key_seq().skip(k0.len() as int));
                assert forall|k: Pubkey| #[trigger] s0.pushes@.dom().contains(k) && k != u implies self.pushes@[k] == s0.pushes@[k] by {
                    assert(smid.pushes@.dom().contains(k));
                    assert(smid.pushes@[k] == s0.pushes@[k]);
                }
            }
            Cluster::lemma_bfs_step(s0, *self, nodes@, stakes@, *origin_pubkey, p, u, dd, ts@, limit as int);
            crate::key_map::lemma_key_seq_distinct(self.visited);
            lemma_distinct_keys_bound(nodes@, self.visited.key_seq());
        }
    }

    /// The finished spread states what it reached, in how many hops, and through which pushes.
    #[verifier::rlimit(50)]
    #[verifier::spinoff_prover]
    proof fn lemma_bfs_laws(c: Cluster, nodes: Seq<Node>, stakes: Map<Pubkey, u64>, origin: Pubkey, p: int)
        requires
            c.bfs_inv(nodes, stakes, origin, p),
            c.queue@.len() == 0,
            c.visited.key_seq().len() < u64::MAX,
        ensures
            c.wf(),
            forall|v: Pubkey, k: nat| #[trigger] reaches(nodes, stakes, origin, c.fanout() as nat, v, k) ==> c.visited_set().contains(v)
                && c.distance_map()[v] <= k,
            forall|v: Pubkey| #[trigger] c.visited_set().contains(v) ==> c.distance_map().dom().contains(v) && reaches(
                nodes,
                stakes,
                origin,
                c.fanout() as nat,
                v,
                c.distance_map()[v] as nat,
            ),
            forall|v: Pubkey| !#[trigger] c.visited_set().contains(v) ==> (c.distance_map().dom().contains(v) <==> stakes.dom().contains(v)),
            forall|v: Pubkey| !#[trigger] c.visited_set().contains(v) && c.distance_map().dom().contains(v) ==> c.distance_map()[v] == u64::MAX,
            forall|v: Pubkey| #[trigger] c.visited_set().contains(v) <==> c.visited_keys().contains(v),
            forall|i: int, j: int| 0 <= i < j < c.visited_keys().len() ==> #[trigger] c.visited_keys()[i] != #[trigger] c.visited_keys()[j],
            forall|w: Pubkey, x: Pubkey|
                #![trigger c.orders_map()[w].dom().contains(x)]
                #![trigger c.orders_map().dom().contains(w), push_targets(nodes, stakes, origin, c.fanout() as nat, x)]
                (c.orders_map().dom().contains(w) && c.orders_map()[w].dom().contains(x)) <==> (c.visited_set().contains(x)
                    && push_targets(nodes, stakes, origin, c.fanout() as nat, x).contains(w)),
            forall|w: Pubkey, x: Pubkey|
                #![trigger c.orders_map()[w][x]]
                c.orders_map().dom().contains(w) && c.orders_map()[w].dom().contains(x) ==> c.orders_map()[w][x] == c.distance_map()[x] + 1,
            !c.orders_map().dom().contains(origin),
            forall|x: Pubkey| #[trigger] c.pushes_map().dom().contains(x) <==> c.visited_set().contains(x),
            forall|x: Pubkey| #[trigger] c.pushes_map().dom().contains(x) ==> c.pushes_map()[x] == push_targets(nodes, stakes, origin, c.fanout() as nat, x).to_set(),
            forall|u: Pubkey, w: Pubkey|
                #![trigger c.mst_map()[u].contains(w)]
                c.mst_map().dom().contains(u) && c.mst_map()[u].contains(w) ==> {
                    &&& c.visited_set().contains(u)
                    &&& push_targets(nodes, stakes, origin, c.fanout() as nat, u).contains(w)
                    &&& c.visited_set().contains(w)
                    &&& w != origin
                    &&& c.distance_map()[w] == c.distance_map()[u] + 1
                },
            forall|w: Pubkey|
                #[trigger] c.visited_set().contains(w) && w != origin ==> exists|u: Pubkey|
                    c.mst_map().dom().contains(u) && #[trigger] c.mst_map()[u].contains(w),
            forall|u1: Pubkey, u2: Pubkey, w: Pubkey|
                #![trigger c.mst_map()[u1].contains(w), c.mst_map()[u2].contains(w)]
                c.mst_map().dom().contains(u1) && c.mst_map()[u1].contains(w) && c.mst_map().dom().contains(u2)
                    && c.mst_map()[u2].contains(w) ==> u1 == u2,
            forall|i: int, j: int, w: Pubkey|
                #![trigger c.mst_map()[c.visited_keys()[j]].contains(w), c.visited_keys()[i]]
                0 <= i < j < c.visited_keys().len() && c.mst_map().dom().contains(c.visited_keys()[j]) && c.mst_map()[c.visited_keys()[j]].contains(w)
                    ==> !push_targets(nodes, stakes, origin, c.fanout() as nat, c.visited_keys()[i]).contains(w),
            c.rmr_counts().receivers() == c.visited_keys().len(),
            c.rmr_counts().messages() + c.rmr_counts().receivers() == 2 * total_pushes(nodes, stakes, origin, c.fanout() as nat, c.visited_keys()) + 1,
            c.prunes_map() == Map::<Pubkey, Map<Pubkey, Seq<Pubkey>>>::empty(),
            c.stranded_set() == stakes.dom().difference(c.visited_set()),
    {
        reveal(Cluster::bfs_inv);
        assert(c.stranded_set() =~= stakes.dom().difference(c.visited_set())) by {
            let ks0 = c.visited.key_seq();
            assert forall|x: Pubkey| #[trigger] c.visited@.dom().contains(x) implies c.distances@[x] != u64::MAX by {
                assert(ks0.contains(x));
                let i = choose|i: int| 0 <= i < ks0.len() && ks0[i] == x;
                assert(c.distances@[ks0[i]] < ks0.len());
            }
            assert(c.bfs_core(nodes, stakes, origin, p));
            assert forall|x: Pubkey| #[trigger] c.stranded_set().contains(x) <==> stakes.dom().difference(c.visited_set()).contains(x) by {
                if c.visited@.dom().contains(x) {
                    assert(c.distances@[x] != u64::MAX);
                    assert(!c.stranded_set().contains(x));
                } else {
                    assert(c.distance_map().dom().contains(x) <==> stakes.dom().contains(x));
                    if c.distance_map().dom().contains(x) {
                        assert(c.distance_map()[x] == u64::MAX);
                    }
                }
            }
        }
        assert(c.visited.key_seq().skip(p).len() == 0);
        let ks = c.visited.key_seq();
        let f = c.gossip_push_fanout as nat;
        assert(ks.take(ks.len() as int) =~= ks);
        crate::key_map::lemma_key_seq_distinct(c.visited);
        assert forall|v: Pubkey, k: nat| #[trigger] reaches(nodes, stakes, origin, f, v, k) implies c.visited@.dom().contains(v)
            && c.distances@[v] <= k by {
            let path = choose|path: Seq<Pubkey>|
                #[trigger] is_push_path(nodes, stakes, origin, f, path) && path.len() == k + 1 && path.last() == v;
            Cluster::lemma_bfs_complete(c, nodes, stakes, origin, path);
        }
        assert forall|v: Pubkey| #[trigger] c.visited@.dom().contains(v) implies c.distances@.dom().contains(v) && reaches(
            nodes, stakes, origin, f, v, c.distances@[v] as nat) by {
            assert(ks.contains(v));
        }
        assert(c.prunes_map() =~= Map::<Pubkey, Map<Pubkey, Seq<Pubkey>>>::empty());
        assert forall|x: Pubkey| #[trigger] c.pushes_map().dom().contains(x) implies c.pushes_map()[x] == push_targets(nodes, stakes, origin, f, x).to_set() by {
            assert(c.pushes@.dom().contains(x));
        }
        assert forall|u: Pubkey, w: Pubkey|
            #![trigger c.mst_map()[u].contains(w)]
            c.mst_map().dom().contains(u) && c.mst_map()[u].contains(w) implies {
                &&& c.visited_set().contains(u)
                &&& push_targets(nodes, stakes, origin, f, u).contains(w)
                &&& c.visited_set().contains(w)
                &&& w != origin
                &&& c.distance_map()[w] == c.distance_map()[u] + 1
            } by {
            assert(c.mst@.dom().contains(u) && c.mst@[u]@.dom().contains(w));
            assert(ks.take(ks.len() as int).contains(u));
        }
        assert forall|w: Pubkey|
            #[trigger] c.visited_set().contains(w) && w != origin implies exists|u: Pubkey|
                c.mst_map().dom().contains(u) && #[trigger] c.mst_map()[u].contains(w) by {
            let u = choose|u: Pubkey| c.mst@.dom().contains(u) && #[trigger] c.mst@[u]@.dom().contains(w);
            assert(c.mst_map()[u].contains(w));
        }
        assert forall|u1: Pubkey, u2: Pubkey, w: Pubkey|
            #![trigger c.mst_map()[u1].contains(w), c.mst_map()[u2].contains(w)]
            c.mst_map().dom().contains(u1) && c.mst_map()[u1].contains(w) && c.mst_map().dom().contains(u2)
                && c.mst_map()[u2].contains(w) implies u1 == u2 by {
            assert(c.mst@[u1]@.dom().contains(w) && c.mst@[u2]@.dom().contains(w));
        }
        assert forall|i: int, j: int, w: Pubkey|
            #![trigger c.mst_map()[c.visited_keys()[j]].contains(w), c.visited_keys()[i]]
            0 <= i < j < c.visited_keys().len() && c.mst_map().dom().contains(c.visited_keys()[j]) && c.mst_map()[c.visited_keys()[j]].contains(w)
                implies !push_targets(nodes, stakes, origin, f, c.visited_keys()[i]).contains(w) by {
            assert(c.mst@.dom().contains(ks[j]) && c.mst@[ks[j]]@.dom().contains(w));
        }
        assert forall|w: Pubkey, x: Pubkey|
            #![trigger c.orders_map()[w].dom().contains(x)]
            #![trigger c.orders_map().dom().contains(w), push_targets(nodes, stakes, origin, f, x)]
            (c.orders_map().dom().contains(w) && c.orders_map()[w].dom().contains(x)) <==> (c.visited_set().contains(x)
                && push_targets(nodes, stakes, origin, f, x).contains(w)) by {
            Cluster::lemma_orders_at(c, nodes, stakes, origin, ks.len() as int, w, x);
        }
        assert forall|w: Pubkey, x: Pubkey|
            #![trigger c.orders_map()[w][x]]
            c.orders_map().dom().contains(w) && c.orders_map()[w].dom().contains(x) implies c.orders_map()[w][x] == c.distance_map()[x] + 1 by {
            assert(c.orders@[w]@[x] == c.distances@[x] + 1);
        }
    }

    /// Node `u`, `d` hops from the origin and not yet forwarding, pushes the message
    /// to the first `limit` of `ts`, in order.
    fn forward(&mut self, u: Pubkey, d: u64, ts: &Vec<Pubkey>, limit: usize)
        requires
            old(self).wf(),
            old(self).prunes@ == Map::<Pubkey, PubkeyMap<Vec<Pubkey>>>::empty(),
            old(self).pushes@.dom().contains(u),
            old(self).pushes@[u]@ == Map::<Pubkey, ()>::empty(),
            forall|k: Pubkey| #[trigger] old(self).orders@.dom().contains(k) ==> !old(self).orders@[k]@.dom().contains(u),
            !old(self).mst@.dom().contains(u),
            forall|x: Pubkey| #[trigger] old(self).visited@.dom().contains(x) ==> old(self).distances@.dom().contains(x),
            limit <= ts@.len(),
            old(self).rmr.messages() + 2 * limit <= u64::MAX,
            old(self).rmr.receivers() + limit <= u64::MAX,
            d + 1 < u64::MAX,
        ensures
            final(self).wf(),
            final(self).gossip_push_fanout == old(self).gossip_push_fanout,
            final(self).prunes@ == old(self).prunes@,
            final(self).pushes@.dom() == old(self).pushes@.dom(),
            forall|k: Pubkey| #[trigger] old(self).pushes@.dom().contains(k) && k != u ==> final(self).pushes@[k] == old(self).pushes@[k],
            final(self).pushes@[u]@.dom() == ts@.take(limit as int).to_set(),
            forall|k: Pubkey| #[trigger] final(self).orders@.dom().contains(k) <==> (old(self).orders@.dom().contains(k) || ts@.take(limit as int).contains(k)),
            forall|k: Pubkey, x: Pubkey| #[trigger] final(self).orders@.dom().contains(k) ==> (#[trigger] final(self).orders@[k]@.dom().contains(x) <==> (
                (old(self).orders@.dom().contains(k) && old(self).orders@[k]@.dom().contains(x)) || (x == u && ts@.take(limit as int).contains(k)))),
            forall|k: Pubkey, x: Pubkey| #[trigger] final(self).orders@.dom().contains(k) && #[trigger] final(self).orders@[k]@.dom().contains(x) ==>
                final(self).orders@[k]@[x] == (if x == u { (d + 1) as u64 } else { old(self).orders@[k]@[x] }),
            final(self).visited.key_seq().len() >= old(self).visited.key_seq().len(),
            final(self).visited.key_seq().take(old(self).visited.key_seq().len() as int) == old(self).visited.key_seq(),
            forall|i: int| old(self).visited.key_seq().len() <= i < final(self).visited.key_seq().len() ==> {
                &&& ts@.take(limit as int).contains(#[trigger] final(self).visited.key_seq()[i])
                &&& !old(self).visited@.dom().contains(final(self).visited.key_seq()[i])
                &&& final(self).distances@[final(self).visited.key_seq()[i]] == d + 1
            },
            forall|x: Pubkey| ts@.take(limit as int).contains(x) ==> #[trigger] final(self).visited@.dom().contains(x),
            forall|x: Pubkey| #[trigger] final(self).visited@.dom().contains(x) <==> (old(self).visited@.dom().contains(x) || (ts@.take(limit as int).contains(x))),
            final(self).distances@.dom() == old(self).distances@.dom().union(final(self).visited@.dom()),
            forall|x: Pubkey| #[trigger] old(self).visited@.dom().contains(x) || !final(self).visited@.dom().contains(x) ==> final(self).distances@[x] == old(self).distances@[x],
            final(self).queue@ == old(self).queue@ + final(self).visited.key_seq().skip(old(self).visited.key_seq().len() as int),
            forall|k: Pubkey| #[trigger] final(self).mst@.dom().contains(k) && k != u ==> old(self).mst@.dom().contains(k) && final(self).mst@[k] == old(self).mst@[k],
            forall|k: Pubkey| #[trigger] old(self).mst@.dom().contains(k) ==> final(self).mst@.dom().contains(k),
            forall|w: Pubkey|
                #![trigger final(self).mst@[u]@.dom().contains(w)]
                #![trigger final(self).visited@.dom().contains(w)]
                (final(self).mst@.dom().contains(u) && final(self).mst@[u]@.dom().contains(w)) <==> (
                final(self).visited@.dom().contains(w) && !old(self).visited@.dom().contains(w)),
            final(self).rmr.messages() + final(self).visited.key_seq().len() == old(self).rmr.messages() + old(self).visited.key_seq().len() + 2 * limit,
            final(self).rmr.receivers() + old(self).visited.key_seq().len() == old(self).rmr.receivers() + final(self).visited.key_seq().len(),
    {
        let ghost s0 = *self;
        assert(self.distances@.dom() =~= s0.distances@.dom().union(self.visited@.dom()));
        assert(ts@.take(0) =~= Seq::<Pubkey>::empty());
        assert(self.pushes@[u]@.dom() =~= ts@.take(0).to_set());
        let mut j: usize = 0;
        while j < limit
            invariant
                0 <= j <= limit,
                limit <= ts@.len(),
                d + 1 < u64::MAX,
                self.wf(),
                self.gossip_push_fanout == s0.gossip_push_fanout,
                self.prunes@ == s0.prunes@,
                self.prunes@ == Map::<Pubkey, PubkeyMap<Vec<Pubkey>>>::empty(),
                self.pushes@.dom() == s0.pushes@.dom(),
                s0.pushes@.dom().contains(u),
                forall|k: Pubkey| #[trigger] s0.pushes@.dom().contains(k) && k != u ==> self.pushes@[k] == s0.pushes@[k],
                self.pushes@[u]@.dom() == ts@.take(j as int).to_set(),
                forall|k: Pubkey| #[trigger] self.orders@.dom().contains(k) <==> (s0.orders@.dom().contains(k) || ts@.take(j as int).contains(k)),
                forall|k: Pubkey, x: Pubkey| #[trigger] self.orders@.dom().contains(k) ==> (#[trigger] self.orders@[k]@.dom().contains(x) <==> (
                    (s0.orders@.dom().contains(k) && s0.orders@[k]@.dom().contains(x)) || (x == u && ts@.take(j as int).contains(k)))),
                forall|k: Pubkey, x: Pubkey| #[trigger] self.orders@.dom().contains(k) && #[trigger] self.orders@[k]@.dom().contains(x) ==>
                    self.orders@[k]@[x] == (if x == u { (d + 1) as u64 } else { s0.orders@[k]@[x] }),
                forall|k: Pubkey| #[trigger] s0.orders@.dom().contains(k) ==> !s0.orders@[k]@.dom().contains(u),
                self.visited.key_seq().len() >= s0.visited.key_seq().len(),
                self.visited.key_seq().take(s0.visited.key_seq().len() as int) == s0.visited.key_seq(),
                forall|i: int| s0.visited.key_seq().len() <= i < self.visited.key_seq().len() ==> {
                    &&& ts@.take(j as int).contains(#[trigger] self.visited.key_seq()[i])
                    &&& !s0.visited@.dom().contains(self.visited.key_seq()[i])
                    &&& self.distances@[self.visited.key_seq()[i]] == d + 1
                },
                forall|x: Pubkey| #[trigger] self.visited@.dom().contains(x) <==> (s0.visited@.dom().contains(x) || (ts@.take(j as int).contains(x))),
                self.distances@.dom() == s0.distances@.dom().union(self.visited@.dom()),
                forall|x: Pubkey| #[trigger] s0.visited@.dom().contains(x) || !self.visited@.dom().contains(x) ==> self.distances@[x] == s0.distances@[x],
                self.queue@ == s0.queue@ + self.visited.key_seq().skip(s0.visited.key_seq().len() as int),
                !s0.mst@.dom().contains(u),
                forall|k: Pubkey| #[trigger] self.mst@.dom().contains(k) && k != u ==> s0.mst@.dom().contains(k) && self.mst@[k] == s0.mst@[k],
                forall|k: Pubkey| #[trigger] s0.mst@.dom().contains(k) ==> self.mst@.dom().contains(k),
                forall|w: Pubkey|
                    #![trigger self.mst@[u]@.dom().contains(w)]
                    #![trigger self.visited@.dom().contains(w)]
                    (self.mst@.dom().contains(u) && self.mst@[u]@.dom().contains(w)) <==> (
                    self.visited@.dom().contains(w) && !s0.visited@.dom().contains(w)),
                self.rmr.messages() + self.visited.key_seq().len() == s0.rmr.messages() + s0.visited.key_seq().len() + 2 * j,
                self.rmr.receivers() + s0.visited.key_seq().len() == s0.rmr.receivers() + self.visited.key_seq().len(),
                s0.rmr.messages() + 2 * limit <= u64::MAX,
                s0.rmr.receivers() + limit <= u64::MAX,
                self.visited.key_seq().len() - s0.visited.key_seq().len() <= j,
            decreases limit - j,
        {
            let w = ts[j];
            let ghost s1 = *self;
            let ghost tj = ts@.take(j as int);
            let ghost tj1 = ts@.take(j + 1);
            assert(tj1 =~= tj.push(w));
            assert(tj1.to_set() =~= tj.to_set().insert(w)) by {
                tj.lemma_push_to_set_commute(w);
            }
            assert forall|x: Pubkey| tj1.contains(x) <==> (tj.contains(x) || x == w) by {
                if tj1.contains(x) && x != w {
                    let q = choose|q: int| 0 <= q < tj1.len() && tj1[q] == x;
                    assert(tj[q] == x);
                }
                if tj.contains(x) {
                    let q = choose|q: int| 0 <= q < tj.len() && tj[q] == x;
                    assert(tj1[q] == x);
                }
                if x == w {
                    assert(tj1[j as int] == w);
                }
            }
            self.deliver(u, d, w);
            proof {
                let k0 = s0.visited.key_seq();
                let k1 = s1.visited.key_seq();
                let k2 = self.visited.key_seq();
                if !s1.visited@.dom().contains(w) {
                    assert(k2 == k1.push(w));
                    assert(k2.take(k0.len() as int) =~= k1.take(k0.len() as int));
                    assert(k2.skip(k0.len() as int) =~= k1.skip(k0.len() as int).push(w));
                    assert(self.queue@ =~= s0.queue@ + k2.skip(k0.len() as int));
                    assert forall|i: int| k0.len() <= i < k2.len() implies {
                        &&& tj1.contains(#[trigger] k2[i])
                        &&& !s0.visited@.dom().contains(k2[i])
                        &&& self.distances@[k2[i]] == d + 1
                    } by {
                        if i < k1.len() {
                            assert(k2[i] == k1[i]);
                            assert(tj.contains(k1[i]));
                        } else {
                            assert(k2[i] == w);
                        }
                    }
                    assert forall|x: Pubkey| #[trigger] s0.visited@.dom().contains(x) || !self.visited@.dom().contains(x) implies self.distances@[x] == s0.distances@[x] by {
                        if x == w {
                            assert(!s0.visited@.dom().contains(w));
                        }
                    }
                    assert(self.distances@.dom() =~= s0.distances@.dom().union(self.visited@.dom()));
                    assert forall|k: Pubkey| #[trigger] self.mst@.dom().contains(k) && k != u implies s0.mst@.dom().contains(k) && self.mst@[k] == s0.mst@[k] by {
                        assert(s1.mst@.dom().contains(k));
                    }
                    assert(self.mst@.dom().contains(u));
                    assert forall|x: Pubkey|
                        #![trigger self.mst@[u]@.dom().contains(x)]
                        #![trigger self.visited@.dom().contains(x)]
                        (self.mst@.dom().contains(u) && self.mst@[u]@.dom().contains(x)) <==> (
                        self.visited@.dom().contains(x) && !s0.visited@.dom().contains(x)) by {
                        if s1.mst@.dom().contains(u) {
                            assert(self.mst@[u]@ == s1.mst@[u]@.insert(w, ()));
                            if x != w {
                                assert(self.mst@[u]@.dom().contains(x) == s1.mst@[u]@.dom().contains(x));
                                assert(s1.mst@[u]@.dom().contains(x) <==> (s1.visited@.dom().contains(x) && !s0.visited@.dom().contains(x)));
                            }
                        } else {
                            assert(self.mst@[u]@ == Map::<Pubkey, ()>::empty().insert(w, ()));
                            if x != w {
                                assert(!(s1.mst@.dom().contains(u) && s1.mst@[u]@.dom().contains(x)));
                                assert(!(s1.visited@.dom().contains(x) && !s0.visited@.dom().contains(x)));
                            }
                        }
                    }
                } else {
                    assert(tj.contains(w) || s0.visited@.dom().contains(w));
                    assert forall|i: int| k0.len() <= i < k2.len() implies {
                        &&& tj1.contains(#[trigger] k2[i])
                        &&& !s0.visited@.dom().contains(k2[i])
                        &&& self.distances@[k2[i]] == d + 1
                    } by {
                        assert(tj.contains(k1[i]));
                    }
                }
                assert forall|k: Pubkey, x: Pubkey| #[trigger] self.orders@.dom().contains(k) implies (#[trigger] self.orders@[k]@.dom().contains(x) <==> (
                    (s0.orders@.dom().contains(k) && s0.orders@[k]@.dom().contains(x)) || (x == u && tj1.contains(k)))) by {
                    if k != w {
                        assert(s1.orders@.dom().contains(k));
                        assert(self.orders@[k] == s1.orders@[k]);
                    } else if s1.orders@.dom().contains(w) {
                        assert(self.orders@[k]@ == s1.orders@[k]@.insert(u, (d + 1) as u64));
                    } else {
                        assert(self.orders@[k]@ == Map::<Pubkey, u64>::empty().insert(u, (d + 1) as u64));
                        if s0.orders@.dom().contains(k) && s0.orders@[k]@.dom().contains(x) {
                            assert(s1.orders@.dom().contains(k));
                        }
                    }
                }
                assert forall|k: Pubkey, x: Pubkey| #[trigger] self.orders@.dom().contains(k) && #[trigger] self.orders@[k]@.dom().contains(x) implies
                    self.orders@[k]@[x] == (if x == u { (d + 1) as u64 } else { s0.orders@[k]@[x] }) by {
                    if k != w {
                        assert(s1.orders@.dom().contains(k));
                        assert(self.orders@[k] == s1.orders@[k]);
                    } else if s1.orders@.dom().contains(w) {
                        assert(self.orders@[k]@ == s1.orders@[k]@.insert(u, (d + 1) as u64));
                    } else {
                        assert(self.orders@[k]@ == Map::<Pubkey, u64>::empty().insert(u, (d + 1) as u64));
                    }
                }
            }
            j = j + 1;
        }
    }
}


/// The keys of the entries whose hop count is `u64::MAX`, in order.
pub open spec fn stranded_keys(s: Seq<(Pubkey, u64)>) -> Seq<Pubkey>
    decreases s.len(),
{
    if s.len() == 0 {
        Seq::empty()
    } else if s.last().1 == u64::MAX {
        stranded_keys(s.drop_last()).push(s.last().0)
    } else {
        stranded_keys(s.drop_last())
    }
}

/// With distinct keys, the stranded keys have no repeats.
proof fn lemma_stranded_keys_distinct(s: Seq<(Pubkey, u64)>)
    requires
        forall|i: int, j: int| 0 <= i < j < s.len() ==> #[trigger] s[i].0 != #[trigger] s[j].0,
    ensures
        stranded_keys(s).no_duplicates(),
    decreases s.len(),
{
    if s.len() > 0 {
        let t = s.drop_last();
        assert forall|i: int, j: int| 0 <= i < j < t.len() implies #[trigger] t[i].0 != #[trigger] t[j].0 by {
            assert(t[i] == s[i] && t[j] == s[j]);
        }
        lemma_stranded_keys_distinct(t);
        if s.last().1 == u64::MAX {
            let x = s.last().0;
            lemma_stranded_keys_contains(t, x);
            if stranded_keys(t).contains(x) {
                let i = choose|i: int| 0 <= i < t.len() && #[trigger] t[i].0 == x && t[i].1 == u64::MAX;
                assert(s[i].0 == s[s.len() - 1].0);
            }
            let r = stranded_keys(s);
            assert(r == stranded_keys(t).push(x));
            assert forall|a: int, b: int| 0 <= a < r.len() && 0 <= b < r.len() && a != b implies r[a] != r[b] by {
                if a < r.len() - 1 && b < r.len() - 1 {
                    assert(r[a] == stranded_keys(t)[a] && r[b] == stranded_keys(t)[b]);
                } else if a == r.len() - 1 {
                    assert(stranded_keys(t).contains(r[b]));
                } else {
                    assert(stranded_keys(t).contains(r[a]));
                }
            }
        }
    }
}

/// A key is among the stranded keys exactly when some entry gives it `u64::MAX` hops.
proof fn lemma_stranded_keys_contains(s: Seq<(Pubkey, u64)>, x: Pubkey)
    ensures
        stranded_keys(s).contains(x) <==> exists|i: int| 0 <= i < s.len() && #[trigger] s[i].0 == x && s[i].1 == u64::MAX,
    decreases s.len(),
{
    if s.len() > 0 {
        let d = s.drop_last();
        lemma_stranded_keys_contains(d, x);
        let prev = stranded_keys(d);
        let r = stranded_keys(s);
        if r.contains(x) {
            let q = choose|q: int| 0 <= q < r.len() && r[q] == x;
            if q < prev.len() {
                assert(prev[q] == x);
                let i = choose|i: int| 0 <= i < d.len() && #[trigger] d[i].0 == x && d[i].1 == u64::MAX;
                assert(s[i] == d[i]);
            } else {
                assert(s[s.len() - 1].0 == x);
            }
        }
        if exists|i: int| 0 <= i < s.len() && #[trigger] s[i].0 == x && s[i].1 == u64::MAX {
            let i = choose|i: int| 0 <= i < s.len() && #[trigger] s[i].0 == x && s[i].1 == u64::MAX;
            if i < s.len() - 1 {
                assert(d[i] == s[i]);
                let q = choose|q: int| 0 <= q < prev.len() && prev[q] == x;
                assert(r[q] == x);
            } else {
                assert(r[r.len() - 1] == x);
            }
        }
    }
}

impl Cluster {
    /// The hop counts in the order their nodes were first recorded.
    pub closed spec fn distance_entries(self) -> Seq<(Pubkey, u64)> {
        self.distances.entry_seq()
    }

    /// The number of peers that first received the message from `src_node`.
    pub fn get_outbound_degree(&self, src_node: &Pubkey) -> (n: usize)
        requires
            self.wf(),
            self.mst_map().dom().contains(*src_node),
        ensures
            n == self.mst_map()[*src_node].len(),
    {
        match self.mst.get(src_node) {
            Some(adj) => adj.len(),
            None => 0,
        }
    }

    /// The number of peers that `dst_node` prunes, or `Err(())` when it prunes none.
    pub fn get_num_prunes_by_dest(&self, dst_node: &Pubkey) -> (r: Result<usize, ()>)
        requires
            self.wf(),
        ensures
            r == (if self.prunes_map().dom().contains(*dst_node) {
                Ok::<usize, ()>(self.prunes_map()[*dst_node].len() as usize)
            } else {
                Err::<usize, ()>(())
            }),
    {
        match self.prunes.get(dst_node) {
            Some(adj) => {
                let n = adj.len();
                proof {
                    assert(self.prunes_map()[*dst_node].dom() =~= adj@.dom());
                }
                Ok(n)
            },
            None => Err(()),
        }
    }

    /// Whether `dst_node` first received the message from `src_node`, or `Err(())` when
    /// no node first received it from `src_node`.
    pub fn edge_exists(&self, src_node: &Pubkey, dst_node: &Pubkey) -> (r: Result<bool, ()>)
        requires
            self.wf(),
        ensures
            r == (if self.mst_map().dom().contains(*src_node) {
                Ok::<bool, ()>(self.mst_map()[*src_node].contains(*dst_node))
            } else {
                Err::<bool, ()>(())
            }),
    {
        match self.mst.get(src_node) {
            Some(adj) => Ok(adj.contains_key(dst_node)),
            None => Err(()),
        }
    }

    /// Whether `dest_node` received the message from some peer.
    pub fn get_order_key(&self, dest_node: &Pubkey) -> (b: bool)
        ensures
            b == self.orders_map().dom().contains(*dest_node),
    {
        self.orders.contains_key(dest_node)
    }

    /// The number of peers that `dest_node` received the message from.
    pub fn get_num_inbound(&self, dest_node: &Pubkey) -> (n: usize)
        requires
            self.wf(),
            self.orders_map().dom().contains(*dest_node),
        ensures
            n == self.orders_map()[*dest_node].len(),
    {
        match self.orders.get(dest_node) {
            Some(srcs) => {
                let n = srcs.len();
                proof {
                    assert(self.orders_map()[*dest_node] =~= srcs@);
                }
                n
            },
            None => 0,
        }
    }

    /// The hops it took the message to reach `dest_node` through `src_node`, if it
    /// came that way.
    pub fn get_orders_hops(&self, dest_node: &Pubkey, src_node: &Pubkey) -> (r: Option<&u64>)
        requires
            self.wf(),
            self.orders_map().dom().contains(*dest_node),
        ensures
            match r {
                Some(h) => self.orders_map()[*dest_node].dom().contains(*src_node) && *h
                    == self.orders_map()[*dest_node][*src_node],
                None => !self.orders_map()[*dest_node].dom().contains(*src_node),
            },
    {
        match self.orders.get(dest_node) {
            Some(srcs) => srcs.get(src_node),
            None => None,
        }
    }

    /// For each node that received the message, each peer it received it from and the
    /// hops it took through that peer.
    pub fn get_orders(&self) -> (r: &PubkeyMap<PubkeyMap<u64>>)
        ensures
            r@.dom() == self.orders_map().dom(),
            forall|k: Pubkey| #[trigger] r@.dom().contains(k) ==> r@[k]@ == self.orders_map()[k],
    {
        &self.orders
    }

    /// The number of nodes the message reached.
    pub fn get_visited_len(&self) -> (n: usize)
        requires
            self.wf(),
        ensures
            n == self.visited_keys().len(),
            n == self.visited_set().len(),
    {
        proof {
            crate::key_map::lemma_map_of_len(self.visited.entry_seq());
        }
        self.visited.len()
    }

    /// The fewest hops it took the message to reach `pubkey`.
    pub fn get_distance(&self, pubkey: &Pubkey) -> (d: u64)
        requires
            self.wf(),
            self.distance_map().dom().contains(*pubkey),
        ensures
            d == self.distance_map()[*pubkey],
    {
        match self.distances.get(pubkey) {
            Some(d) => *d,
            None => 0,
        }
    }

    /// The number of nodes the message reached and the number of staked nodes it did
    /// not reach; the share reached is the first over the number of staked nodes.
    pub fn coverage(&self, stakes: &PubkeyMap<u64>) -> (r: (usize, usize))
        requires
            self.wf(),
            stakes.wf(),
            self.visited_keys().len() <= stakes@.len(),
        ensures
            r.0 == self.visited_keys().len(),
            r.1 == stakes@.len() - self.visited_keys().len(),
    {
        let v = self.get_visited_len();
        (v, stakes.len() - v)
    }

    /// The staked nodes that the message did not reach, in the order their hop counts
    /// were recorded.
    pub fn stranded_nodes(&self) -> (r: Vec<Pubkey>)
        requires
            self.wf(),
        ensures
            r@ == stranded_keys(self.distance_entries()),
            forall|x: Pubkey|
                #[trigger] r@.contains(x) <==> (self.distance_map().dom().contains(x) && self.distance_map()[x] == u64::MAX),
            r@.no_duplicates(),
            r@.to_set() == self.stranded_set(),
            r@.len() == self.stranded_set().len(),
    {
        let mut r: Vec<Pubkey> = Vec::new();
        let n = self.distances.len();
        let mut i: usize = 0;
        while i < n
            invariant
                n == self.distances.entry_seq().len(),
                0 <= i <= n,
                r@ == stranded_keys(self.distances.entry_seq().take(i as int)),
            decreases n - i,
        {
            let e = self.distances.entry_at(i);
            assert(self.distances.entry_seq().take(i + 1).drop_last() =~= self.distances.entry_seq().take(i as int));
            if e.1 == u64::MAX {
                r.push(e.0);
            }
            i = i + 1;
        }
        proof {
            let s = self.distances.entry_seq();
            assert(s.take(n as int) =~= s);
            assert forall|x: Pubkey|
                #[trigger] r@.contains(x) <==> (self.distance_map().dom().contains(x) && self.distance_map()[x] == u64::MAX) by {
                lemma_stranded_keys_contains(s, x);
                crate::key_map::lemma_map_of_dom(s, x);
                if r@.contains(x) {
                    let i = choose|i: int| 0 <= i < s.len() && #[trigger] s[i].0 == x && s[i].1 == u64::MAX;
                    crate::key_map::lemma_map_of_value(s, i);
                }
                if self.distance_map().dom().contains(x) && self.distance_map()[x] == u64::MAX {
                    let i = choose|i: int| 0 <= i < s.len() && #[trigger] s[i].0 == x;
                    crate::key_map::lemma_map_of_value(s, i);
                }
            }
            crate::key_map::lemma_key_seq_distinct(self.distances);
            assert forall|i: int, j: int| 0 <= i < j < s.len() implies #[trigger] s[i].0 != #[trigger] s[j].0 by {
                assert(self.distances.key_seq()[i] == s[i].0 && self.distances.key_seq()[j] == s[j].0);
            }
            lemma_stranded_keys_distinct(s);
            assert(r@.to_set() =~= self.stranded_set());
            r@.unique_seq_to_set();
        }
        r
    }

    /// After a round in which every node reached is staked, the stranded nodes are as
    /// many as the staked nodes less the nodes reached.
    pub proof fn lemma_stranded_count(c: Cluster, stakes: Map<Pubkey, u64>)
        requires
            c.wf(),
            stakes.dom().finite(),
            c.stranded_set() == stakes.dom().difference(c.visited_set()),
            c.visited_set().subset_of(stakes.dom()),
        ensures
            c.stranded_set().len() == stakes.len() - c.visited_keys().len(),
    {
        crate::key_map::lemma_map_of_len(c.visited.entry_seq());
        assert(c.visited_keys().len() == c.visited.entry_seq().len());
        vstd::set_lib::lemma_set_difference_len(stakes.dom(), c.visited_set());
        assert(stakes.dom().intersect(c.visited_set()) =~= c.visited_set());
    }

    /// For each staked node, the fewest hops it took the message to reach it.
    pub fn get_distances(&self) -> (r: &PubkeyMap<u64>)
        ensures
            r@ == self.distance_map(),
            r.entry_seq() == self.distance_entries(),
    {
        &self.distances
    }

    /// For each pruner, each peer it prunes and the origins it prunes for.
    pub fn get_prunes(&self) -> (r: &PubkeyMap<PubkeyMap<Vec<Pubkey>>>)
        ensures
            r@.dom() == self.prunes_map().dom(),
            forall|k: Pubkey, j: Pubkey|
                #[trigger] r@.dom().contains(k) ==> (#[trigger] r@[k]@.dom().contains(j) <==> self.prunes_map()[k].dom().contains(j))
                    && (r@[k]@.dom().contains(j) ==> r@[k]@[j]@ == self.prunes_map()[k][j]),
    {
        &self.prunes
    }

    /// For each node, the peers that first received the message from it.
    pub fn get_mst(&self) -> (r: &PubkeyMap<PubkeySet>)
        ensures
            r@.dom() == self.mst_map().dom(),
            forall|k: Pubkey| #[trigger] r@.dom().contains(k) ==> r@[k]@.dom() == self.mst_map()[k],
    {
        &self.mst
    }

    /// For each node that forwarded the message, the peers it pushed it to.
    pub fn get_pushes(&self) -> (r: &PubkeyMap<PubkeySet>)
        ensures
            r@.dom() == self.pushes_map().dom(),
            forall|k: Pubkey| #[trigger] r@.dom().contains(k) ==> r@[k]@.dom() == self.pushes_map()[k],
    {
        &self.pushes
    }

    /// The numerator and denominator of `m / (n - 1)` for the last round, of which the
    /// relative message redundancy is one less; an error when at most the origin
    /// received the message.
    pub fn relative_message_redundancy(&self) -> (r: Result<(u64, u64), String>)
        ensures
            self.rmr_counts().receivers() <= 1 <==> r is Err,
            r matches Ok(q) ==> q.0 == self.rmr_counts().messages() && q.1 == self.rmr_counts().receivers() - 1 && q.1 > 0,
            r matches Err(e) ==> e@ == (if self.rmr_counts().receivers() == 0 {
                "Division by zero. n is 0."@
            } else {
                "Division by zero. n is 1."@
            }),
    {
        self.rmr.calculate_rmr()
    }

    /// The message counts of the last round.
    pub fn get_rmr_struct(&self) -> (r: &RelativeMessageRedundancy)
        ensures
            *r == self.rmr_counts(),
    {
        &self.rmr
    }
}

/// The prune messages of one pruner, in order: (pruner, pruned peer, origins).
pub open spec fn pruner_messages(pruner: Pubkey, inner: Seq<(Pubkey, Vec<Pubkey>)>) -> Seq<(Pubkey, Pubkey, Seq<Pubkey>)> {
    inner.map_values(|e: (Pubkey, Vec<Pubkey>)| (pruner, e.0, e.1@))
}

/// All prune messages, pruner by pruner, in order: (pruner, pruned peer, origins).
pub open spec fn prune_messages(outer: Seq<(Pubkey, PubkeyMap<Vec<Pubkey>>)>) -> Seq<(Pubkey, Pubkey, Seq<Pubkey>)>
    decreases outer.len(),
{
    if outer.len() == 0 {
        Seq::empty()
    } else {
        prune_messages(outer.drop_last()) + pruner_messages(outer.last().0, outer.last().1.entry_seq())
    }
}

/// The push active set entries of node `key` after it handles, in order, the prune
/// messages sent to it.
pub open spec fn entries_after_messages(
    v: Seq<EntryPairs>,
    stakes: Map<Pubkey, u64>,
    key: Pubkey,
    msgs: Seq<(Pubkey, Pubkey, Seq<Pubkey>)>,
) -> Seq<EntryPairs>
    decreases msgs.len(),
{
    if msgs.len() == 0 {
        v
    } else {
        let prev = entries_after_messages(v, stakes, key, msgs.drop_last());
        let m = msgs.last();
        if m.1 == key {
            entries_after_prunes(prev, stakes, key, m.0, m.2)
        } else {
            prev
        }
    }
}

/// No two nodes share a key.
pub open spec fn keys_unique(nodes: Seq<Node>) -> bool {
    forall|i: int, j: int| 0 <= i < j < nodes.len() ==> #[trigger] nodes[i].key() != #[trigger] nodes[j].key()
}

/// The position of the node with key `k`, if there is one.
fn position_of(nodes: &Vec<Node>, k: &Pubkey) -> (r: Option<usize>)
    ensures
        match r {
            Some(i) => i < nodes@.len() && nodes@[i as int].key() == *k,
            None => forall|i: int| 0 <= i < nodes@.len() ==> #[trigger] nodes@[i].key() != *k,
        },
{
    let mut i: usize = 0;
    while i < nodes.len()
        invariant
            0 <= i <= nodes@.len(),
            forall|j: int| 0 <= j < i ==> #[trigger] nodes@[j].key() != *k,
        decreases nodes@.len() - i,
    {
        if key_eq(&nodes[i].pubkey, k) {
            return Some(i);
        }
        i = i + 1;
    }
    None
}

impl Node {
    /// The node handles a prune message from `pruner` for `origins`: it stops pushing
    /// messages from those origins to `pruner`.
    pub fn handle_prune(&mut self, pruner: &Pubkey, origins: &[Pubkey], stakes: &PubkeyMap<u64>)
        requires
            old(self).wf(),
            stakes.wf(),
        ensures
            final(self).wf(),
            final(self).key() == old(self).key(),
            final(self).stake_spec() == old(self).stake_spec(),
            final(self).table_spec() == old(self).table_spec(),
            final(self).active_set_spec().entries() == entries_after_prunes(
                old(self).active_set_spec().entries(),
                stakes@,
                old(self).key(),
                *pruner,
                origins@,
            ),
    {
        let me = self.pubkey;
        self.active_set.prune(&me, pruner, origins, stakes);
    }
}

impl Cluster {
    /// The prune messages in the order they are handled: (pruner, pruned peer, origins).
    pub closed spec fn prune_message_seq(self) -> Seq<(Pubkey, Pubkey, Seq<Pubkey>)> {
        prune_messages(self.prunes.entry_seq())
    }

    /// Each pruned peer handles the prune messages sent to it: it stops pushing
    /// messages from the pruned origins to the pruner. Messages to a peer that is not
    /// among `nodes` are dropped.
    pub fn prune_connections(&self, nodes: &mut Vec<Node>, stakes: &PubkeyMap<u64>)
        requires
            self.wf(),
            stakes.wf(),
            keys_unique(old(nodes)@),
            forall|i: int| 0 <= i < old(nodes)@.len() ==> (#[trigger] old(nodes)@[i]).wf(),
        ensures
            final(nodes)@.len() == old(nodes)@.len(),
            forall|i: int|
                0 <= i < final(nodes)@.len() ==> {
                    &&& (#[trigger] final(nodes)@[i]).wf()
                    &&& final(nodes)@[i].key() == old(nodes)@[i].key()
                    &&& final(nodes)@[i].stake_spec() == old(nodes)@[i].stake_spec()
                    &&& final(nodes)@[i].table_spec() == old(nodes)@[i].table_spec()
                    &&& final(nodes)@[i].active_set_spec().entries() == entries_after_messages(
                        old(nodes)@[i].active_set_spec().entries(),
                        stakes@,
                        old(nodes)@[i].key(),
                        self.prune_message_seq(),
                    )
                },
    {
        let ghost start = nodes@;
        let ghost outer = self.prunes.entry_seq();
        let n = self.prunes.len();
        let mut i: usize = 0;
        while i < n
            invariant
                0 <= i <= n,
                n == outer.len(),
                outer == self.prunes.entry_seq(),
                self.wf(),
                stakes.wf(),
                nodes@.len() == start.len(),
                keys_unique(start),
                forall|q: int|
                    0 <= q < nodes@.len() ==> {
                        &&& (#[trigger] nodes@[q]).wf()
                        &&& nodes@[q].key() == start[q].key()
                        &&& nodes@[q].stake_spec() == start[q].stake_spec()
                        &&& nodes@[q].table_spec() == start[q].table_spec()
                        &&& nodes@[q].active_set_spec().entries() == entries_after_messages(
                            start[q].active_set_spec().entries(),
                            stakes@,
                            start[q].key(),
                            prune_messages(outer.take(i as int)),
                        )
                    },
            decreases n - i,
        {
            let entry = self.prunes.entry_at(i);
            let pruner = entry.0;
            let inner = &entry.1;
            proof {
                crate::key_map::lemma_map_of_value(outer, i as int);
                assert(outer.take(i + 1).drop_last() =~= outer.take(i as int));
                assert(self.prunes@.dom().contains(pruner));
                assert(self.prunes@[pruner] == *inner);
                assert(inner.wf());
            }
            let ghost done = prune_messages(outer.take(i as int));
            let ghost inner_seq = inner.entry_seq();
            let m = inner.len();
            let mut j: usize = 0;
            while j < m
                invariant
                    0 <= j <= m,
                    m == inner_seq.len(),
                    inner_seq == inner.entry_seq(),
                    stakes.wf(),
                    nodes@.len() == start.len(),
                    keys_unique(start),
                    forall|q: int|
                        0 <= q < nodes@.len() ==> {
                            &&& (#[trigger] nodes@[q]).wf()
                            &&& nodes@[q].key() == start[q].key()
                            &&& nodes@[q].stake_spec() == start[q].stake_spec()
                            &&& nodes@[q].table_spec() == start[q].table_spec()
                            &&& nodes@[q].active_set_spec().entries() == entries_after_messages(
                                start[q].active_set_spec().entries(),
                                stakes@,
                                start[q].key(),
                                done + pruner_messages(pruner, inner_seq.take(j as int)),
                            )
                        },
                decreases m - j,
            {
                let e = inner.entry_at(j);
                let peer = e.0;
                let ghost before = nodes@;
                let ghost msgs = done + pruner_messages(pruner, inner_seq.take(j as int));
                let ghost msg = (pruner, peer, e.1@);
                proof {
                    assert(done + pruner_messages(pruner, inner_seq.take(j + 1)) =~= msgs.push(msg));
                    assert(msgs.push(msg).drop_last() =~= msgs);
                }
                match position_of(nodes, &peer) {
                    Some(idx) => {
                        nodes[idx].handle_prune(&pruner, e.1.as_slice(), stakes);
                        proof {
                            assert forall|q: int| 0 <= q < nodes@.len() && q != idx implies before[q].key() != peer by {
                                if q < idx {
                                    assert(start[q].key() != start[idx as int].key());
                                } else {
                                    assert(start[idx as int].key() != start[q].key());
                                }
                            }
                        }
                    },
                    None => {},
                }
                j = j + 1;
            }
            proof {
                assert(inner_seq.take(m as int) =~= inner_seq);
            }
            i = i + 1;
        }
        proof {
            assert(outer.take(n as int) =~= outer);
        }
    }
}

/// The prunes of one pruner grouped by peer: each peer that it prunes, with `origin`
/// once for each time the peer occurs, in order.
pub open spec fn group_origins(peers: Seq<Pubkey>, origin: Pubkey) -> Map<Pubkey, Seq<Pubkey>>
    decreases peers.len(),
{
    if peers.len() == 0 {
        Map::empty()
    } else {
        let prev = group_origins(peers.drop_last(), origin);
        let p = peers.last();
        let before = if prev.dom().contains(p) {
            prev[p]
        } else {
            Seq::empty()
        };
        prev.insert(p, before.push(origin))
    }
}

/// Groups the peers that a node prunes: each peer with `origin` once for each time
/// it occurs.
fn group_by_peer(peers: &Vec<Pubkey>, origin: Pubkey) -> (m: PubkeyMap<Vec<Pubkey>>)
    ensures
        m.wf(),
        m@.dom() == group_origins(peers@, origin).dom(),
        forall|k: Pubkey| #[trigger] m@.dom().contains(k) ==> m@[k]@ == group_origins(peers@, origin)[k],
{
    let mut m: PubkeyMap<Vec<Pubkey>> = PubkeyMap::new();
    let mut i: usize = 0;
    while i < peers.len()
        invariant
            0 <= i <= peers@.len(),
            m.wf(),
            m@.dom() == group_origins(peers@.take(i as int), origin).dom(),
            forall|k: Pubkey| #[trigger] m@.dom().contains(k) ==> m@[k]@ == group_origins(peers@.take(i as int), origin)[k],
        decreases peers@.len() - i,
    {
        let p = peers[i];
        let ghost g0 = group_origins(peers@.take(i as int), origin);
        let ghost m0 = m@;
        proof {
            assert(peers@.take(i + 1).drop_last() =~= peers@.take(i as int));
            assert(peers@.take(i + 1).last() == p);
        }
        match m.index_of(&p) {
            Some(idx) => {
                let ghost e0 = m.entry_seq();
                proof {
                    crate::key_map::lemma_map_of_value(e0, idx as int);
                }
                let v = m.value_at_mut(idx);
                v.push(origin);
                proof {
                    crate::key_map::lemma_map_of_update(e0, idx as int, *v);
                }
            },
            None => {
                let mut v: Vec<Pubkey> = Vec::new();
                v.push(origin);
                m.insert(p, v);
                proof {
                    assert(v@ =~= Seq::<Pubkey>::empty().push(origin));
                }
            },
        }
        proof {
            let g1 = group_origins(peers@.take(i + 1), origin);
            assert(m@.dom() =~= g1.dom());
            assert forall|k: Pubkey| #[trigger] m@.dom().contains(k) implies m@[k]@ == g1[k] by {
                if k != p {
                    assert(m0.dom().contains(k));
                }
            }
        }
        i = i + 1;
    }
    assert(peers@.take(peers@.len() as int) =~= peers@);
    m
}

impl Cluster {
    /// Records the prunes each node sends for messages from `origin`: node `i` prunes
    /// the peers in `pruned_peers[i]`, and its prunes, grouped by peer, replace any it
    /// sent before.
    pub fn send_prunes(&mut self, origin: Pubkey, nodes: &Vec<Node>, pruned_peers: &Vec<Vec<Pubkey>>)
        requires
            old(self).wf(),
            pruned_peers@.len() == nodes@.len(),
            keys_unique(nodes@),
        ensures
            final(self).wf(),
            final(self).fanout() == old(self).fanout(),
            final(self).visited_keys() == old(self).visited_keys(),
            final(self).distance_map() == old(self).distance_map(),
            final(self).orders_map() == old(self).orders_map(),
            final(self).mst_map() == old(self).mst_map(),
            final(self).pushes_map() == old(self).pushes_map(),
            final(self).rmr_counts() == old(self).rmr_counts(),
            final(self).prunes_map().dom() == old(self).prunes_map().dom().union(
                Set::new(|k: Pubkey| exists|i: int| 0 <= i < nodes@.len() && #[trigger] nodes@[i].key() == k),
            ),
            forall|i: int|
                0 <= i < nodes@.len() ==> #[trigger] final(self).prunes_map()[nodes@[i].key()] == group_origins(
                    pruned_peers@[i]@,
                    origin,
                ),
            forall|k: Pubkey|
                #[trigger] old(self).prunes_map().dom().contains(k) && (forall|i: int| 0 <= i < nodes@.len() ==> #[trigger] nodes@[i].key() != k)
                    ==> final(self).prunes_map()[k] == old(self).prunes_map()[k],
    {
        let ghost p0 = self.prunes@;
        let ghost s0 = *self;
        let mut i: usize = 0;
        while i < nodes.len()
            invariant
                0 <= i <= nodes@.len(),
                s0.wf(),
                self.gossip_push_fanout == s0.gossip_push_fanout,
                self.visited == s0.visited,
                self.distances == s0.distances,
                self.orders == s0.orders,
                self.mst == s0.mst,
                self.pushes == s0.pushes,
                self.rmr == s0.rmr,
                pruned_peers@.len() == nodes@.len(),
                keys_unique(nodes@),
                self.prunes.wf(),
                inner_wf(self.prunes),
                self.prunes@.dom() == p0.dom().union(Set::new(|k: Pubkey| exists|q: int| 0 <= q < i && #[trigger] nodes@[q].key() == k)),
                forall|q: int|
                    0 <= q < i ==> (#[trigger] self.prunes@[nodes@[q].key()])@.dom() == group_origins(pruned_peers@[q]@, origin).dom()
                        && forall|k: Pubkey| #[trigger] self.prunes@[nodes@[q].key()]@.dom().contains(k) ==> self.prunes@[nodes@[q].key()]@[k]@
                            == group_origins(pruned_peers@[q]@, origin)[k],
                forall|k: Pubkey|
                    #[trigger] p0.dom().contains(k) && (forall|q: int| 0 <= q < i ==> #[trigger] nodes@[q].key() != k)
                        ==> self.prunes@[k] == p0[k],
            decreases nodes@.len() - i,
        {
            let g = group_by_peer(&pruned_peers[i], origin);
            let key = nodes[i].pubkey;
            let ghost before = self.prunes@;
            self.prunes.insert(key, g);
            proof {
                assert forall|q: int| 0 <= q < i implies nodes@[q].key() != key by {
                    assert(nodes@[q].key() != nodes@[i as int].key());
                }
                assert(self.prunes@.dom() =~= p0.dom().union(Set::new(|k: Pubkey| exists|q: int| 0 <= q < i + 1 && #[trigger] nodes@[q].key() == k))) by {
                    assert forall|k: Pubkey| self.prunes@.dom().contains(k) <==> (p0.dom().contains(k) || exists|q: int| 0 <= q < i + 1 && #[trigger] nodes@[q].key() == k) by {
                        if k == key {
                            assert(nodes@[i as int].key() == k);
                        }
                        if exists|q: int| 0 <= q < i + 1 && #[trigger] nodes@[q].key() == k {
                            let q = choose|q: int| 0 <= q < i + 1 && #[trigger] nodes@[q].key() == k;
                            if q < i {
                                assert(Set::new(|k: Pubkey| exists|q: int| 0 <= q < i && #[trigger] nodes@[q].key() == k).contains(k));
                            }
                        }
                        if before.dom().contains(k) && k != key && !p0.dom().contains(k) {
                            assert(Set::new(|k: Pubkey| exists|q: int| 0 <= q < i && #[trigger] nodes@[q].key() == k).contains(k));
                            let q = choose|q: int| 0 <= q < i && #[trigger] nodes@[q].key() == k;
                            assert(0 <= q < i + 1);
                        }
                    }
                }
                assert forall|k: Pubkey|
                    #[trigger] p0.dom().contains(k) && (forall|q: int| 0 <= q < i + 1 ==> #[trigger] nodes@[q].key() != k)
                        implies self.prunes@[k] == p0[k] by {
                    assert(nodes@[i as int].key() != k);
                    assert forall|q: int| 0 <= q < i implies #[trigger] nodes@[q].key() != k by {
                        assert(0 <= q < i + 1);
                    }
                }
            }
            i = i + 1;
        }
        proof {
            assert(self.prunes_map().dom() =~= old(self).prunes_map().dom().union(
                Set::new(|k: Pubkey| exists|i: int| 0 <= i < nodes@.len() && #[trigger] nodes@[i].key() == k),
            ));
            assert forall|i: int| 0 <= i < nodes@.len() implies #[trigger] self.prunes_map()[nodes@[i].key()] == group_origins(
                pruned_peers@[i]@,
                origin,
            ) by {
                assert(self.prunes@.dom().contains(nodes@[i].key())) by {
                    assert(Set::new(|k: Pubkey| exists|q: int| 0 <= q < nodes@.len() && #[trigger] nodes@[q].key() == k).contains(nodes@[i].key()));
                }
                assert(self.prunes_map()[nodes@[i].key()] =~= group_origins(pruned_peers@[i]@, origin));
            }
        }
    }
}

/// What parsing a base58 key text gives: the key's bytes, or `None` when the text is
/// not a key.
pub uninterp spec fn parsed_pubkey(s: Seq<char>) -> Option<[u8; 32]>;

/// Calls `Pubkey::from_str` (solana_sdk): the key that a base58 text encodes, or the
/// parse error. The result is named by `parsed_pubkey`; which error comes out is not
/// stated.
#[verifier::external_body]
fn parse_pubkey(s: &str) -> (r: Result<Pubkey, ParsePubkeyError>)
    ensures
        match r {
            Ok(k) => parsed_pubkey(s@) == Some(k.0),
            Err(_) => parsed_pubkey(s@) is None,
        },
{
    match solana_sdk::pubkey::Pubkey::from_str(s) {
        Ok(k) => Ok(Pubkey(k.to_bytes())),
        Err(e) => Err(e),
    }
}

impl Node {
    /// A node just made: the given key and stake, an empty table, no gossip rounds and
    /// an empty push active set.
    pub open spec fn is_fresh(self, key: Pubkey, stake: u64) -> bool {
        &&& self.key() == key
        &&& self.stake_spec() == stake
        &&& self.wf()
        &&& self.table_spec().len() == 0
        &&& self.rounds_spec() == 0
        &&& forall|k: int|
            0 <= k < crate::push_active_set::NUM_PUSH_ACTIVE_SET_ENTRIES ==> #[trigger] self.active_set_spec().entries()[k]
                == Seq::<([u8; 32], Seq<Pubkey>)>::empty()
    }
}

/// The accounts that become nodes: all of them, or only those with a stake when
/// `filter_zero_staked_nodes` is set.
pub open spec fn kept_accounts(accounts: Seq<(String, u64)>, filter_zero_staked_nodes: bool) -> Seq<(String, u64)>
    decreases accounts.len(),
{
    if accounts.len() == 0 {
        Seq::empty()
    } else {
        let prev = kept_accounts(accounts.drop_last(), filter_zero_staked_nodes);
        if !filter_zero_staked_nodes || accounts.last().1 != 0 {
            prev.push(accounts.last())
        } else {
            prev
        }
    }
}

/// Makes one node per kept account (see `kept_accounts`), in order, keyed by the
/// account's parsed key; fails on the first kept account whose key does not parse.
fn make_gossip_cluster(accounts: &Vec<(String, u64)>, filter_zero_staked_nodes: bool) -> (r: Result<
    Vec<(Node, Sender<Arc<Packet>>)>,
    Error,
>)
    ensures
        ({
            let kept = kept_accounts(accounts@, filter_zero_staked_nodes);
            &&& r is Ok <==> forall|i: int| 0 <= i < kept.len() ==> #[trigger] parsed_pubkey(kept[i].0@) is Some
            &&& r is Err ==> r->Err_0 is ParsePubkeyError
            &&& r matches Ok(v) ==> v@.len() == kept.len() && forall|i: int|
                0 <= i < v@.len() ==> (#[trigger] v@[i]).0.is_fresh(Pubkey(parsed_pubkey(kept[i].0@)->0), kept[i].1)
        }),
{
    let now = instant_now();
    let mut v: Vec<(Node, Sender<Arc<Packet>>)> = Vec::new();
    let mut i: usize = 0;
    while i < accounts.len()
        invariant
            0 <= i <= accounts@.len(),
            ({
                let kept = kept_accounts(accounts@.take(i as int), filter_zero_staked_nodes);
                &&& v@.len() == kept.len()
                &&& forall|q: int| 0 <= q < kept.len() ==> #[trigger] parsed_pubkey(kept[q].0@) is Some
                &&& forall|q: int|
                    0 <= q < v@.len() ==> (#[trigger] v@[q]).0.is_fresh(Pubkey(parsed_pubkey(kept[q].0@)->0), kept[q].1)
            }),
        decreases accounts@.len() - i,
    {
        let ghost kept0 = kept_accounts(accounts@.take(i as int), filter_zero_staked_nodes);
        proof {
            assert(accounts@.take(i + 1).drop_last() =~= accounts@.take(i as int));
            assert(accounts@.take(i + 1).last() == accounts@[i as int]);
        }
        let stake = accounts[i].1;
        if !filter_zero_staked_nodes || stake != 0 {
            match parse_pubkey(accounts[i].0.as_str()) {
                Ok(pubkey) => {
                    let node = Node::new(pubkey, stake, now);
                    v.push(node);
                    proof {
                        let kept1 = kept_accounts(accounts@.take(i + 1), filter_zero_staked_nodes);
                        assert(kept1 == kept0.push(accounts@[i as int]));
                        assert forall|q: int| 0 <= q < v@.len() implies (#[trigger] v@[q]).0.is_fresh(
                            Pubkey(parsed_pubkey(kept1[q].0@)->0),
                            kept1[q].1,
                        ) by {
                            if q < kept0.len() {
                                assert(kept1[q] == kept0[q]);
                            }
                        }
                        assert forall|q: int| 0 <= q < kept1.len() implies #[trigger] parsed_pubkey(kept1[q].0@) is Some by {
                            if q < kept0.len() {
                                assert(kept1[q] == kept0[q]);
                            }
                        }
                    }
                },
                Err(e) => {
                    proof {
                        let kept1 = kept_accounts(accounts@.take(i + 1), filter_zero_staked_nodes);
                        lemma_kept_prefix(accounts@, filter_zero_staked_nodes, i + 1);
                        let kept = kept_accounts(accounts@, filter_zero_staked_nodes);
                        assert(kept1[kept1.len() - 1] == accounts@[i as int]);
                        assert(kept[kept1.len() - 1] == accounts@[i as int]);
                    }
                    return Err(Error::ParsePubkeyError(e));
                },
            }
        }
        i = i + 1;
    }
    proof {
        assert(accounts@.take(accounts@.len() as int) =~= accounts@);
    }
    Ok(v)
}

/// The kept accounts of a prefix are a prefix of the kept accounts.
proof fn lemma_kept_prefix(accounts: Seq<(String, u64)>, filter: bool, k: int)
    requires
        0 <= k <= accounts.len(),
    ensures
        kept_accounts(accounts.take(k), filter).len() <= kept_accounts(accounts, filter).len(),
        forall|q: int|
            0 <= q < kept_accounts(accounts.take(k), filter).len() ==> #[trigger] kept_accounts(accounts.take(k), filter)[q]
                == kept_accounts(accounts, filter)[q],
    decreases accounts.len() - k,
{
    if k < accounts.len() {
        lemma_kept_prefix(accounts, filter, k + 1);
        assert(accounts.take(k + 1).drop_last() =~= accounts.take(k));
        let a = kept_accounts(accounts.take(k), filter);
        let b = kept_accounts(accounts.take(k + 1), filter);
        assert forall|q: int| 0 <= q < a.len() implies #[trigger] a[q] == kept_accounts(accounts, filter)[q] by {
            assert(a[q] == b[q]);
        }
    } else {
        assert(accounts.take(k) =~= accounts);
    }
}

/// Makes one node per account (all of them, or only those with a stake when
/// `filter_zero_staked_nodes` is set), in order, keyed by the account's parsed key,
/// with the sending half of its channel; fails on the first such account whose key
/// does not parse.
pub fn make_gossip_cluster_from_map(accounts: &Vec<(String, u64)>, filter_zero_staked_nodes: bool) -> (r: Result<
    Vec<(Node, Sender<Arc<Packet>>)>,
    Error,
>)
    ensures
        ({
            let kept = kept_accounts(accounts@, filter_zero_staked_nodes);
            &&& r is Ok <==> forall|i: int| 0 <= i < kept.len() ==> #[trigger] parsed_pubkey(kept[i].0@) is Some
            &&& r is Err ==> r->Err_0 is ParsePubkeyError
            &&& r matches Ok(v) ==> v@.len() == kept.len() && forall|i: int|
                0 <= i < v@.len() ==> (#[trigger] v@[i]).0.is_fresh(Pubkey(parsed_pubkey(kept[i].0@)->0), kept[i].1)
        }),
{
    make_gossip_cluster(accounts, filter_zero_staked_nodes)
}

/// Makes one node per account, in the order of `accounts`, with the sending half of
/// its channel.
pub fn make_gossip_cluster_for_tests(accounts: &PubkeyMap<u64>) -> (r: Result<Vec<(Node, Sender<Arc<Packet>>)>, Error>)
    requires
        accounts.wf(),
    ensures
        r matches Ok(v) && v@.len() == accounts.entry_seq().len() && forall|i: int|
            0 <= i < v@.len() ==> (#[trigger] v@[i]).0.is_fresh(accounts.entry_seq()[i].0, accounts.entry_seq()[i].1),
{
    let now = instant_now();
    let mut v: Vec<(Node, Sender<Arc<Packet>>)> = Vec::new();
    let n = accounts.len();
    let mut i: usize = 0;
    while i < n
        invariant
            accounts.wf(),
            n == accounts.entry_seq().len(),
            0 <= i <= n,
            v@.len() == i,
            forall|q: int|
                0 <= q < i ==> (#[trigger] v@[q]).0.is_fresh(accounts.entry_seq()[q].0, accounts.entry_seq()[q].1),
        decreases n - i,
    {
        let e = accounts.entry_at(i);
        let node = Node::new(e.0, e.1, now);
        v.push(node);
        i = i + 1;
    }
    Ok(v)
}

/// The position at which `x` was first reached in the breadth-first spread whose
/// reached nodes are `vk` in order; past the end for a node not reached.
pub open spec fn visit_pos(vk: Seq<Pubkey>, x: Pubkey) -> int {
    if vk.contains(x) {
        choose|i: int| 0 <= i < vk.len() && vk[i] == x
    } else {
        vk.len() as int
    }
}

/// `a` comes before `b` among the peers a node received a message from: it took fewer
/// hops, or as many and it delivered first in the breadth-first spread (it was
/// reached earlier); two peers never reached are ordered by key.
pub open spec fn source_before(hops: Map<Pubkey, u64>, vk: Seq<Pubkey>, a: Pubkey, b: Pubkey) -> bool {
    hops[a] < hops[b] || (hops[a] == hops[b] && (visit_pos(vk, a) < visit_pos(vk, b) || (visit_pos(vk, a) == visit_pos(
        vk,
        b,
    ) && key_le(a, b))))
}

/// A peer a node received a message from, with the hops it took and the position at
/// which it was reached.
pub struct SourceRank {
    pub hops: u64,
    pub pos: usize,
    pub key: Pubkey,
}

impl TotalOrder for SourceRank {
    open spec fn ord_le(self, other: Self) -> bool {
        self.hops < other.hops || (self.hops == other.hops && (self.pos < other.pos || (self.pos == other.pos && key_le(
            self.key,
            other.key,
        ))))
    }

    proof fn lemma_total(a: Self, b: Self) {
        crate::pubkey::lemma_key_le_total(a.key, b.key);
    }

    proof fn lemma_trans(a: Self, b: Self, c: Self) {
        if a.hops == b.hops && b.hops == c.hops && a.pos == b.pos && b.pos == c.pos {
            crate::pubkey::lemma_key_le_trans(a.key, b.key, c.key);
        }
    }

    fn leq(&self, other: &Self) -> (r: bool) {
        self.hops < other.hops || (self.hops == other.hops && (self.pos < other.pos || (self.pos == other.pos
            && crate::pubkey::key_leq(&self.key, &other.key))))
    }
}

/// `r` lists the keys of `hops`, each once, in the order of `source_before`.
pub open spec fn ranked_sources(hops: Map<Pubkey, u64>, vk: Seq<Pubkey>, r: Seq<Pubkey>) -> bool {
    &&& forall|x: Pubkey| #[trigger] r.contains(x) <==> hops.dom().contains(x)
    &&& forall|a: int, b: int| 0 <= a < b < r.len() ==> #[trigger] r[a] != #[trigger] r[b]
    &&& forall|a: int, b: int| 0 <= a < b < r.len() ==> source_before(hops, vk, #[trigger] r[a], #[trigger] r[b])
}

/// The keys of the nodes other than `origin` whose key is in `dom`, in order.
pub open spec fn receiver_keys(nodes: Seq<Node>, origin: Pubkey, dom: Set<Pubkey>) -> Seq<Pubkey>
    decreases nodes.len(),
{
    if nodes.len() == 0 {
        Seq::empty()
    } else {
        let prev = receiver_keys(nodes.drop_last(), origin, dom);
        let k = nodes.last().key();
        if k != origin && dom.contains(k) {
            prev.push(k)
        } else {
            prev
        }
    }
}

/// The peers that sent a message to a node, ranked by `source_before`.
fn rank_sources(srcs: &PubkeyMap<u64>, visited: &PubkeyMap<()>) -> (r: Vec<Pubkey>)
    requires
        srcs.wf(),
        visited.wf(),
    ensures
        ranked_sources(srcs@, visited.key_seq(), r@),
{
    let ghost vk = visited.key_seq();
    let ghost es = srcs.entry_seq();
    let n = srcs.len();
    let mut items: Vec<SourceRank> = Vec::new();
    let mut i: usize = 0;
    while i < n
        invariant
            es == srcs.entry_seq(),
            n == es.len(),
            0 <= i <= n,
            items@.len() == i,
            forall|q: int|
                0 <= q < i ==> (#[trigger] items@[q]).key == es[q].0 && items@[q].hops == es[q].1 && items@[q].pos
                    == visit_pos(vk, es[q].0),
            visited.wf(),
            vk == visited.key_seq(),
        decreases n - i,
    {
        let e = srcs.entry_at(i);
        let pos = match visited.index_of(&e.0) {
            Some(j) => j,
            None => visited.len(),
        };
        proof {
            crate::key_map::lemma_key_seq_distinct(*visited);
            crate::key_map::lemma_map_of_len(visited.entry_seq());
            assert(vk.len() == visited.entry_seq().len());
            if vk.contains(e.0) {
                let w = choose|w: int| 0 <= w < vk.len() && vk[w] == e.0;
                assert(vk[pos as int] == e.0);
                assert(w == pos);
            } else {
                if pos < vk.len() {
                    assert(vk[pos as int] == e.0);
                }
            }
        }
        items.push(SourceRank { hops: e.1, pos, key: e.0 });
        i = i + 1;
    }
    let ghost orig = items@;
    let sorted_items = sort_vec(items);
    let ghost t = sorted_items@;
    proof {
        orig.to_multiset_ensures();
        t.to_multiset_ensures();
        assert forall|a: int| 0 <= a < t.len() implies exists|q: int| 0 <= q < orig.len() && #[trigger] orig[q] == #[trigger] t[a] by {
            assert(t.contains(t[a]));
            assert(t.to_multiset().count(t[a]) > 0);
            assert(orig.contains(t[a]));
        }
        assert forall|q: int, p: int| 0 <= q < p < orig.len() implies #[trigger] orig[q] != #[trigger] orig[p] by {
            assert(es[q].0 != es[p].0);
        }
    }
    let mut r: Vec<Pubkey> = Vec::new();
    let mut j: usize = 0;
    while j < sorted_items.len()
        invariant
            t == sorted_items@,
            0 <= j <= t.len(),
            r@ == t.take(j as int).map_values(|x: SourceRank| x.key),
        decreases t.len() - j,
    {
        r.push(sorted_items[j].key);
        assert(t.take(j + 1).map_values(|x: SourceRank| x.key) =~= t.take(j as int).map_values(|x: SourceRank| x.key).push(
            t[j as int].key,
        ));
        j = j + 1;
    }
    proof {
        assert(t.take(t.len() as int) =~= t);
        let m = srcs@;
        assert forall|a: int| 0 <= a < t.len() implies m.dom().contains((#[trigger] t[a]).key) && t[a].hops == m[t[a].key]
            && t[a].pos == visit_pos(vk, t[a].key) by {
            let q = choose|q: int| 0 <= q < orig.len() && #[trigger] orig[q] == t[a];
            crate::key_map::lemma_map_of_value(es, q);
        }
        assert forall|x: Pubkey| #[trigger] r@.contains(x) <==> m.dom().contains(x) by {
            if r@.contains(x) {
                let a = choose|a: int| 0 <= a < r@.len() && r@[a] == x;
                assert(r@[a] == t[a].key);
            }
            if m.dom().contains(x) {
                crate::key_map::lemma_map_of_dom(es, x);
                let q = choose|q: int| 0 <= q < es.len() && #[trigger] es[q].0 == x;
                assert(orig.contains(orig[q]));
                assert(orig.to_multiset().count(orig[q]) > 0);
                assert(t.contains(orig[q]));
                let a = choose|a: int| 0 <= a < t.len() && t[a] == orig[q];
                assert(r@[a] == x);
            }
        }
        assert forall|a: int, b: int| 0 <= a < b < r@.len() implies #[trigger] r@[a] != #[trigger] r@[b] by {
            if r@[a] == r@[b] {
                let qa = choose|qa: int| 0 <= qa < orig.len() && #[trigger] orig[qa] == t[a];
                let qb = choose|qb: int| 0 <= qb < orig.len() && #[trigger] orig[qb] == t[b];
                if qa != qb {
                    if qa < qb {
                        assert(es[qa].0 != es[qb].0);
                    } else {
                        assert(es[qb].0 != es[qa].0);
                    }
                }
                assert(t[a] == t[b]);
                lemma_distinct_count(orig, t[a]);
                lemma_two_count(t, a, b);
            }
        }
        assert forall|a: int, b: int| 0 <= a < b < r@.len() implies source_before(m, vk, #[trigger] r@[a], #[trigger] r@[b]) by {
            assert(t[a].ord_le(t[b]));
            assert(r@[a] == t[a].key);
            assert(r@[b] == t[b].key);
        }
    }
    r
}

impl Cluster {
    /// For each node other than `origin` that received the message, in the order of
    /// `nodes`: its key and the peers it received the message from, fewest hops first
    /// and, among equal hops, in the order the breadth-first spread delivered them. A
    /// node records the messages in this order, the first one as the one that was not
    /// a duplicate.
    pub fn consume_messages(&self, origin: &Pubkey, nodes: &Vec<Node>) -> (r: Vec<(Pubkey, Vec<Pubkey>)>)
        requires
            self.wf(),
        ensures
            r@.len() == receiver_keys(nodes@, *origin, self.orders_map().dom()).len(),
            forall|j: int|
                0 <= j < r@.len() ==> (#[trigger] r@[j]).0 == receiver_keys(nodes@, *origin, self.orders_map().dom())[j]
                    && ranked_sources(self.orders_map()[r@[j].0], self.visited_keys(), r@[j].1@),
    {
        let mut r: Vec<(Pubkey, Vec<Pubkey>)> = Vec::new();
        let mut i: usize = 0;
        while i < nodes.len()
            invariant
                self.wf(),
                0 <= i <= nodes@.len(),
                r@.len() == receiver_keys(nodes@.take(i as int), *origin, self.orders_map().dom()).len(),
                forall|j: int|
                    0 <= j < r@.len() ==> (#[trigger] r@[j]).0 == receiver_keys(nodes@.take(i as int), *origin, self.orders_map().dom())[j]
                        && ranked_sources(self.orders_map()[r@[j].0], self.visited_keys(), r@[j].1@),
            decreases nodes@.len() - i,
        {
            let key = nodes[i].pubkey;
            proof {
                assert(nodes@.take(i + 1).drop_last() =~= nodes@.take(i as int));
                assert(nodes@.take(i + 1).last() == nodes@[i as int]);
            }
            if !key_eq(&key, origin) {
                match self.orders.get(&key) {
                    Some(srcs) => {
                        proof {
                            assert(srcs.wf());
                        }
                        let ranked = rank_sources(srcs, &self.visited);
                        proof {
                            assert(self.orders_map()[key] =~= srcs@);
                        }
                        r.push((key, ranked));
                    },
                    None => {},
                }
            }
            i = i + 1;
        }
        proof {
            assert(nodes@.take(nodes@.len() as int) =~= nodes@);
        }
        r
    }
}

/// The stakes of the nodes, in order.
pub open spec fn stakes_of(nodes: Seq<Node>) -> Seq<u64> {
    nodes.map_values(|n: Node| n.stake_spec())
}

/// The `n`th largest stake among the nodes (the smallest when there are fewer than `n`
/// nodes), given the stakes sorted from least to most.
pub open spec fn nth_largest(sorted_stakes: Seq<u64>, n: nat) -> u64 {
    if n <= sorted_stakes.len() {
        sorted_stakes[sorted_stakes.len() - n]
    } else {
        sorted_stakes[0]
    }
}

/// How many of the stakes are greater than `s`.
pub open spec fn count_above(t: Seq<u64>, s: u64) -> nat
    decreases t.len(),
{
    if t.len() == 0 {
        0
    } else {
        count_above(t.drop_last(), s) + if t.last() > s {
            1nat
        } else {
            0nat
        }
    }
}

/// How many of the stakes are at least `s`.
pub open spec fn count_at_least(t: Seq<u64>, s: u64) -> nat
    decreases t.len(),
{
    if t.len() == 0 {
        0
    } else {
        count_at_least(t.drop_last(), s) + if t.last() >= s {
            1nat
        } else {
            0nat
        }
    }
}

/// With the first `k` stakes at most `s`, at most the others are greater than `s`.
proof fn lemma_count_above_bound(t: Seq<u64>, s: u64, k: int)
    requires
        0 <= k <= t.len(),
        forall|i: int| 0 <= i < k ==> #[trigger] t[i] <= s,
    ensures
        count_above(t, s) <= t.len() - k,
    decreases t.len(),
{
    if t.len() > 0 {
        let d = t.drop_last();
        if t.len() > k {
            assert forall|i: int| 0 <= i < k implies #[trigger] d[i] <= s by {
                assert(d[i] == t[i]);
            }
            lemma_count_above_bound(d, s, k);
        } else {
            assert forall|i: int| 0 <= i < k - 1 implies #[trigger] d[i] <= s by {
                assert(d[i] == t[i]);
            }
            lemma_count_above_bound(d, s, k - 1);
            assert(t[t.len() - 1] <= s);
        }
    }
}

/// With the stakes from position `k` on at least `s`, at least that many are at least `s`.
proof fn lemma_count_at_least_bound(t: Seq<u64>, s: u64, k: int)
    requires
        0 <= k,
        forall|i: int| k <= i < t.len() ==> #[trigger] t[i] >= s,
    ensures
        count_at_least(t, s) >= t.len() - k,
    decreases t.len(),
{
    if t.len() > 0 {
        let d = t.drop_last();
        assert forall|i: int| k <= i < d.len() implies #[trigger] d[i] >= s by {
            assert(d[i] == t[i]);
        }
        lemma_count_at_least_bound(d, s, k);
        if t.len() > k {
            assert(t[t.len() - 1] >= s);
        }
    }
}

/// The `n`th largest of stakes sorted in increasing order has fewer than `n` stakes
/// above it and at least `n` at or above it; past the number of stakes, it is the
/// least stake.
pub proof fn lemma_nth_largest_rank(t: Seq<u64>, n: nat)
    requires
        forall|a: int, b: int| 0 <= a < b < t.len() ==> #[trigger] t[a] <= #[trigger] t[b],
        t.len() > 0,
        n >= 1,
    ensures
        n <= t.len() ==> count_above(t, nth_largest(t, n)) < n && count_at_least(t, nth_largest(t, n)) >= n,
        n > t.len() ==> forall|i: int| 0 <= i < t.len() ==> nth_largest(t, n) <= #[trigger] t[i],
{
    if n <= t.len() {
        let m = t.len() - n;
        let s = t[m];
        assert(nth_largest(t, n) == s);
        assert forall|i: int| 0 <= i < m + 1 implies #[trigger] t[i] <= s by {
            if i < m {
                assert(t[i] <= t[m]);
            }
        }
        lemma_count_above_bound(t, s, m + 1);
        assert forall|i: int| m <= i < t.len() implies #[trigger] t[i] >= s by {
            if i > m {
                assert(t[m] <= t[i]);
            }
        }
        lemma_count_at_least_bound(t, s, m);
    } else {
        assert forall|i: int| 0 <= i < t.len() implies nth_largest(t, n) <= #[trigger] t[i] by {
            if i > 0 {
                assert(t[0] <= t[i]);
            }
        }
    }
}

/// The first node whose stake is the `n`th largest stake (the smallest stake when
/// there are fewer than `n` nodes); `None` when there are no nodes.
pub fn find_nth_largest_node(n: usize, nodes: &[Node]) -> (r: Option<&Node>)
    requires
        nodes@.len() > 0 ==> n >= 1,
    ensures
        nodes@.len() == 0 <==> r is None,
        r matches Some(node) ==> exists|t: Seq<u64>, i: int|
            #[trigger] sorted(t) && t.to_multiset() == stakes_of(nodes@).to_multiset() && 0 <= i < nodes@.len()
                && *node == #[trigger] nodes@[i] && node.stake_spec() == nth_largest(t, n as nat) && (forall|j: int|
                0 <= j < i ==> #[trigger] nodes@[j].stake_spec() != nth_largest(t, n as nat)) && (forall|a: int, b: int|
                0 <= a < b < t.len() ==> #[trigger] t[a] <= #[trigger] t[b]),
{
    if nodes.len() == 0 {
        return None;
    }
    let ghost st = stakes_of(nodes@);
    let mut v: Vec<u64> = Vec::new();
    let mut i: usize = 0;
    while i < nodes.len()
        invariant
            0 <= i <= nodes@.len(),
            st == stakes_of(nodes@),
            v@ == st.take(i as int),
        decreases nodes@.len() - i,
    {
        v.push(nodes[i].stake);
        assert(st.take(i + 1) =~= st.take(i as int).push(st[i as int]));
        i = i + 1;
    }
    assert(st.take(nodes@.len() as int) =~= st);
    assert(v@ == st);
    let t = sort_vec(v);
    let target = if n <= t.len() {
        t[t.len() - n]
    } else {
        t[0]
    };
    let ghost ti: int = if n <= t@.len() {
        t@.len() - n
    } else {
        0
    };
    proof {
        t@.to_multiset_ensures();
        st.to_multiset_ensures();
        assert(t@[ti] == target);
        assert(t@.contains(target));
        assert(t@.to_multiset().count(target) > 0);
        assert(st.to_multiset().count(target) > 0);
        assert(st.contains(target));
        assert(target == nth_largest(t@, n as nat));
    }
    let mut j: usize = 0;
    while j < nodes.len()
        invariant
            0 <= j <= nodes@.len(),
            st == stakes_of(nodes@),
            st.contains(target),
            sorted(t@),
            t@.to_multiset() == st.to_multiset(),
            target == nth_largest(t@, n as nat),
            forall|q: int| 0 <= q < j ==> #[trigger] nodes@[q].stake_spec() != target,
        decreases nodes@.len() - j,
    {
        if nodes[j].stake == target {
            proof {
                crate::sort::lemma_sorted_u64_increasing(t@);
                assert(sorted(t@) && t@.to_multiset() == stakes_of(nodes@).to_multiset() && 0 <= j < nodes@.len()
                    && nodes@[j as int] == nodes@[j as int]);
            }
            return Some(&nodes[j]);
        }
        j = j + 1;
    }
    proof {
        let q = choose|q: int| 0 <= q < st.len() && st[q] == target;
        assert(nodes@[q].stake_spec() == target);
    }
    None
}

/// Handling prune messages keeps one entry per bucket.
proof fn lemma_messages_keep_len(
    v: Seq<EntryPairs>,
    stakes: Map<Pubkey, u64>,
    key: Pubkey,
    msgs: Seq<(Pubkey, Pubkey, Seq<Pubkey>)>,
)
    requires
        v.len() == crate::push_active_set::NUM_PUSH_ACTIVE_SET_ENTRIES,
    ensures
        entries_after_messages(v, stakes, key, msgs).len() == crate::push_active_set::NUM_PUSH_ACTIVE_SET_ENTRIES,
    decreases msgs.len(),
{
    if msgs.len() > 0 {
        lemma_messages_keep_len(v, stakes, key, msgs.drop_last());
        let m = msgs.last();
        if m.1 == key {
            crate::push_active_set::lemma_prunes_keep_count(
                entries_after_messages(v, stakes, key, msgs.drop_last()),
                stakes,
                key,
                m.0,
                m.2,
            );
        }
    }
}

/// Handling the prune messages of the prefix `msgs.take(k)` and then more never makes
/// a node pushed to again.
proof fn lemma_messages_keep_exclusion(
    v: Seq<EntryPairs>,
    stakes: Map<Pubkey, u64>,
    key: Pubkey,
    msgs: Seq<(Pubkey, Pubkey, Seq<Pubkey>)>,
    k: int,
    b: int,
    origin: Pubkey,
    x: Pubkey,
)
    requires
        v.len() == crate::push_active_set::NUM_PUSH_ACTIVE_SET_ENTRIES,
        0 <= k <= msgs.len(),
        0 <= b < crate::push_active_set::NUM_PUSH_ACTIVE_SET_ENTRIES,
        !unpruned_nodes(entries_after_messages(v, stakes, key, msgs.take(k))[b], origin, false).contains(x),
    ensures
        !unpruned_nodes(entries_after_messages(v, stakes, key, msgs)[b], origin, false).contains(x),
    decreases msgs.len() - k,
{
    if k < msgs.len() {
        let t = msgs.take(k + 1);
        assert(t.drop_last() =~= msgs.take(k));
        let prev = entries_after_messages(v, stakes, key, msgs.take(k));
        lemma_messages_keep_len(v, stakes, key, msgs.take(k));
        let m = t.last();
        if m.1 == key {
            crate::push_active_set::lemma_prunes_keep_exclusion(prev, stakes, key, m.0, m.2, b, origin, x);
        }
        lemma_messages_keep_exclusion(v, stakes, key, msgs, k + 1, b, origin, x);
    } else {
        assert(msgs.take(k) =~= msgs);
    }
}

/// Once node `key` handles a prune message from a pruner for some origins, it no
/// longer pushes messages from any of those origins (other than itself) to the pruner,
/// whatever prune messages it handles after.
pub proof fn lemma_pruned_peer_stops_pushing(
    v: Seq<EntryPairs>,
    stakes: Map<Pubkey, u64>,
    key: Pubkey,
    msgs: Seq<(Pubkey, Pubkey, Seq<Pubkey>)>,
    m: int,
    origin: Pubkey,
)
    requires
        v.len() == crate::push_active_set::NUM_PUSH_ACTIVE_SET_ENTRIES,
        0 <= m < msgs.len(),
        msgs[m].1 == key,
        msgs[m].2.contains(origin),
        origin != key,
    ensures
        !unpruned_nodes(
            entries_after_messages(v, stakes, key, msgs)[push_bucket(stakes, key, origin) as int],
            origin,
            false,
        ).contains(msgs[m].0),
{
    let t = msgs.take(m + 1);
    assert(t.drop_last() =~= msgs.take(m));
    assert(t.last() == msgs[m]);
    let prev = entries_after_messages(v, stakes, key, msgs.take(m));
    lemma_messages_keep_len(v, stakes, key, msgs.take(m));
    crate::push_active_set::lemma_set_prune_excludes(prev, stakes, key, msgs[m].0, msgs[m].2, origin);
    lemma_messages_keep_exclusion(v, stakes, key, msgs, m + 1, push_bucket(stakes, key, origin) as int, origin, msgs[m].0);
}

/// The total stake of the accounts whose node key text is `key`.
pub open spec fn stake_sum(accounts: Seq<(String, u64)>, key: Seq<char>) -> nat
    decreases accounts.len(),
{
    if accounts.len() == 0 {
        0
    } else {
        stake_sum(accounts.drop_last(), key) + if accounts.last().0@ == key {
            accounts.last().1 as nat
        } else {
            0nat
        }
    }
}

/// A prefix of the accounts holds no more stake for a key than all of them.
proof fn lemma_stake_sum_prefix(accounts: Seq<(String, u64)>, k: int, key: Seq<char>)
    requires
        0 <= k <= accounts.len(),
    ensures
        stake_sum(accounts.take(k), key) <= stake_sum(accounts, key),
    decreases accounts.len() - k,
{
    if k < accounts.len() {
        lemma_stake_sum_prefix(accounts, k + 1, key);
        assert(accounts.take(k + 1).drop_last() =~= accounts.take(k));
    } else {
        assert(accounts.take(k) =~= accounts);
    }
}

/// The node key texts of the groups, in order.
pub open spec fn group_keys(groups: Seq<(String, u64)>) -> Seq<Seq<char>> {
    groups.map_values(|g: (String, u64)| g.0@)
}

/// Adds up the activated stake of the vote accounts of each node (given as the node's
/// key text and one account's stake), one entry per node in the order first met; with
/// `filter_zero_staked_nodes` set, nodes whose total is zero are left out.
pub fn aggregate_vote_stakes(accounts: &Vec<(String, u64)>, filter_zero_staked_nodes: bool) -> (r: Vec<(String, u64)>)
    requires
        forall|i: int| 0 <= i < accounts@.len() ==> stake_sum(accounts@, #[trigger] accounts@[i].0@) <= u64::MAX,
    ensures
        forall|i: int, j: int| 0 <= i < j < r@.len() ==> #[trigger] r@[i].0@ != #[trigger] r@[j].0@,
        forall|i: int| 0 <= i < r@.len() ==> (#[trigger] r@[i]).1 == stake_sum(accounts@, r@[i].0@),
        forall|i: int| 0 <= i < r@.len() ==> !filter_zero_staked_nodes || (#[trigger] r@[i]).1 != 0,
        forall|i: int| 0 <= i < r@.len() ==> group_keys(accounts@).contains(#[trigger] r@[i].0@),
        forall|i: int|
            0 <= i < accounts@.len() && (!filter_zero_staked_nodes || stake_sum(accounts@, #[trigger] accounts@[i].0@) != 0)
                ==> group_keys(r@).contains(accounts@[i].0@),
{
    let mut groups: Vec<(String, u64)> = Vec::new();
    let mut i: usize = 0;
    while i < accounts.len()
        invariant
            0 <= i <= accounts@.len(),
            forall|q: int| 0 <= q < accounts@.len() ==> stake_sum(accounts@, #[trigger] accounts@[q].0@) <= u64::MAX,
            forall|a: int, b: int| 0 <= a < b < groups@.len() ==> #[trigger] groups@[a].0@ != #[trigger] groups@[b].0@,
            forall|a: int| 0 <= a < groups@.len() ==> (#[trigger] groups@[a]).1 == stake_sum(accounts@.take(i as int), groups@[a].0@),
            forall|a: int| 0 <= a < groups@.len() ==> group_keys(accounts@.take(i as int)).contains(#[trigger] groups@[a].0@),
            forall|q: int| 0 <= q < i ==> group_keys(groups@).contains(#[trigger] accounts@[q].0@),
        decreases accounts@.len() - i,
    {
        let ghost g0 = groups@;
        let key = &accounts[i].0;
        let stake = accounts[i].1;
        let ghost pre = accounts@.take(i as int);
        let ghost pre1 = accounts@.take(i + 1);
        proof {
            assert(pre1.drop_last() =~= pre);
            assert(pre1.last() == accounts@[i as int]);
            assert(group_keys(pre1) =~= group_keys(pre).push(key@));
        }
        let mut j: usize = 0;
        let mut found: bool = false;
        while j < groups.len() && !found
            invariant
                groups@ == g0,
                0 <= j <= groups@.len(),
                found ==> j < groups@.len() && groups@[j as int].0@ == key@,
                forall|a: int| 0 <= a < j ==> #[trigger] groups@[a].0@ != key@,
            decreases groups@.len() - j + (if found {
                0int
            } else {
                1int
            }),
        {
            if crate::str_eq(groups[j].0.as_str(), key.as_str()) {
                found = true;
            } else {
                j = j + 1;
            }
        }
        if found && j < groups.len() {
            proof {
                lemma_stake_sum_prefix(accounts@, i + 1, key@);
                assert(stake_sum(pre1, key@) == stake_sum(pre, key@) + stake);
                assert(groups@[j as int].1 == stake_sum(pre, key@));
            }
            let total = groups[j].1 + stake;
            let name = groups[j].0.clone();
            groups.set(j, (name, total));
            proof {
                assert forall|a: int| 0 <= a < groups@.len() implies (#[trigger] groups@[a]).1 == stake_sum(pre1, groups@[a].0@) by {
                    if a != j {
                        assert(groups@[a] == g0[a]);
                        assert(g0[a].0@ != key@);
                    }
                }
                assert forall|a: int| 0 <= a < groups@.len() implies group_keys(pre1).contains(#[trigger] groups@[a].0@) by {
                    assert(group_keys(pre).contains(g0[a].0@));
                    let q = choose|q: int| 0 <= q < group_keys(pre).len() && group_keys(pre)[q] == g0[a].0@;
                    assert(group_keys(pre1)[q] == g0[a].0@);
                }
                assert forall|q: int| 0 <= q < i + 1 implies group_keys(groups@).contains(#[trigger] accounts@[q].0@) by {
                    if q < i {
                        assert(group_keys(g0).contains(accounts@[q].0@));
                        let p = choose|p: int| 0 <= p < group_keys(g0).len() && group_keys(g0)[p] == accounts@[q].0@;
                        assert(group_keys(groups@)[p] == accounts@[q].0@);
                    } else {
                        assert(group_keys(groups@)[j as int] == key@);
                    }
                }
            }
        } else {
            proof {
                assert(stake_sum(pre, key@) == 0) by {
                    lemma_stake_sum_absent(pre, key@);
                    assert forall|q: int| 0 <= q < pre.len() implies #[trigger] pre[q].0@ != key@ by {
                        if pre[q].0@ == key@ {
                            assert(group_keys(g0).contains(accounts@[q].0@));
                            let p = choose|p: int| 0 <= p < group_keys(g0).len() && group_keys(g0)[p] == accounts@[q].0@;
                            assert(g0[p].0@ == key@);
                        }
                    }
                }
                assert(stake_sum(pre1, key@) == stake);
            }
            let name = key.clone();
            groups.push((name, stake));
            proof {
                assert forall|a: int| 0 <= a < groups@.len() implies (#[trigger] groups@[a]).1 == stake_sum(pre1, groups@[a].0@) by {
                    if a < g0.len() {
                        assert(groups@[a] == g0[a]);
                        assert(g0[a].0@ != key@);
                    }
                }
                assert forall|a: int| 0 <= a < groups@.len() implies group_keys(pre1).contains(#[trigger] groups@[a].0@) by {
                    if a < g0.len() {
                        assert(group_keys(pre).contains(g0[a].0@));
                        let q = choose|q: int| 0 <= q < group_keys(pre).len() && group_keys(pre)[q] == g0[a].0@;
                        assert(group_keys(pre1)[q] == g0[a].0@);
                    } else {
                        assert(group_keys(pre1)[i as int] == key@);
                    }
                }
                assert forall|q: int| 0 <= q < i + 1 implies group_keys(groups@).contains(#[trigger] accounts@[q].0@) by {
                    if q < i {
                        assert(group_keys(g0).contains(accounts@[q].0@));
                        let p = choose|p: int| 0 <= p < group_keys(g0).len() && group_keys(g0)[p] == accounts@[q].0@;
                        assert(group_keys(groups@)[p] == accounts@[q].0@);
                    } else {
                        assert(group_keys(groups@)[g0.len() as int] == key@);
                    }
                }
            }
        }
        i = i + 1;
    }
    proof {
        assert(accounts@.take(accounts@.len() as int) =~= accounts@);
    }
    let mut r: Vec<(String, u64)> = Vec::new();
    let mut k: usize = 0;
    while k < groups.len()
        invariant
            0 <= k <= groups@.len(),
            forall|a: int, b: int| 0 <= a < b < groups@.len() ==> #[trigger] groups@[a].0@ != #[trigger] groups@[b].0@,
            forall|a: int| 0 <= a < groups@.len() ==> (#[trigger] groups@[a]).1 == stake_sum(accounts@, groups@[a].0@),
            forall|a: int| 0 <= a < groups@.len() ==> group_keys(accounts@).contains(#[trigger] groups@[a].0@),
            forall|q: int| 0 <= q < accounts@.len() ==> group_keys(groups@).contains(#[trigger] accounts@[q].0@),
            forall|a: int| 0 <= a < r@.len() ==> exists|b: int| 0 <= b < k && #[trigger] groups@[b] == #[trigger] r@[a],
            forall|a: int, b: int| 0 <= a < b < r@.len() ==> #[trigger] r@[a].0@ != #[trigger] r@[b].0@,
            forall|a: int| 0 <= a < r@.len() ==> !filter_zero_staked_nodes || (#[trigger] r@[a]).1 != 0,
            forall|b: int| 0 <= b < k && (!filter_zero_staked_nodes || (#[trigger] groups@[b]).1 != 0) ==> group_keys(r@).contains(groups@[b].0@),
        decreases groups@.len() - k,
    {
        let ghost r0 = r@;
        if !filter_zero_staked_nodes || groups[k].1 != 0 {
            let name = groups[k].0.clone();
            r.push((name, groups[k].1));
            proof {
                assert(r@[r0.len() as int].0@ == groups@[k as int].0@);
                assert forall|a: int| 0 <= a < r@.len() implies exists|b: int| 0 <= b < k + 1 && #[trigger] groups@[b] == #[trigger] r@[a] by {
                    if a < r0.len() {
                        assert(r@[a] == r0[a]);
                    } else {
                        assert(groups@[k as int].0@ == r@[a].0@);
                    }
                }
                assert forall|a: int, b: int| 0 <= a < b < r@.len() implies #[trigger] r@[a].0@ != #[trigger] r@[b].0@ by {
                    if b == r0.len() {
                        let c = choose|c: int| 0 <= c < k && #[trigger] groups@[c] == #[trigger] r0[a];
                        assert(groups@[c].0@ != groups@[k as int].0@);
                    } else {
                        assert(r@[a] == r0[a]);
                        assert(r@[b] == r0[b]);
                    }
                }
                assert forall|b: int| 0 <= b < k + 1 && (!filter_zero_staked_nodes || (#[trigger] groups@[b]).1 != 0) implies group_keys(r@).contains(groups@[b].0@) by {
                    if b < k {
                        let p = choose|p: int| 0 <= p < group_keys(r0).len() && group_keys(r0)[p] == groups@[b].0@;
                        assert(group_keys(r@)[p] == groups@[b].0@);
                    } else {
                        assert(group_keys(r@)[r0.len() as int] == groups@[b].0@);
                    }
                }
            }
        }
        k = k + 1;
    }
    proof {
        assert forall|i: int| 0 <= i < r@.len() implies (#[trigger] r@[i]).1 == stake_sum(accounts@, r@[i].0@) && group_keys(accounts@).contains(r@[i].0@) by {
            let b = choose|b: int| 0 <= b < groups@.len() && #[trigger] groups@[b] == #[trigger] r@[i];
            assert(groups@[b] == r@[i]);
        }
        assert forall|i: int|
            0 <= i < accounts@.len() && (!filter_zero_staked_nodes || stake_sum(accounts@, #[trigger] accounts@[i].0@) != 0)
                implies group_keys(r@).contains(accounts@[i].0@) by {
            assert(group_keys(groups@).contains(accounts@[i].0@));
            let p = choose|p: int| 0 <= p < group_keys(groups@).len() && group_keys(groups@)[p] == accounts@[i].0@;
            assert(groups@[p].0@ == accounts@[i].0@);
        }
    }
    r
}

/// With no account of a key, its total is zero.
proof fn lemma_stake_sum_absent(accounts: Seq<(String, u64)>, key: Seq<char>)
    ensures
        (forall|q: int| 0 <= q < accounts.len() ==> #[trigger] accounts[q].0@ != key) ==> stake_sum(accounts, key) == 0,
    decreases accounts.len(),
{
    if accounts.len() > 0 {
        lemma_stake_sum_absent(accounts.drop_last(), key);
        if forall|q: int| 0 <= q < accounts.len() ==> #[trigger] accounts[q].0@ != key {
            assert forall|q: int| 0 <= q < accounts.drop_last().len() implies #[trigger] accounts.drop_last()[q].0@ != key by {
                assert(accounts[q].0@ != key);
            }
            assert(accounts[accounts.len() - 1].0@ != key);
        }
    }
}

/// A push from a node reached in `k` hops reaches its target in `k + 1` hops.
proof fn lemma_reaches_step(
    nodes: Seq<Node>,
    stakes: Map<Pubkey, u64>,
    origin: Pubkey,
    fanout: nat,
    u: Pubkey,
    k: nat,
    x: Pubkey,
)
    requires
        reaches(nodes, stakes, origin, fanout, u, k),
        push_targets(nodes, stakes, origin, fanout, u).contains(x),
    ensures
        reaches(nodes, stakes, origin, fanout, x, k + 1),
{
    let path = choose|path: Seq<Pubkey>|
        #[trigger] is_push_path(nodes, stakes, origin, fanout, path) && path.len() == k + 1 && path.last() == u;
    let q = path.push(x);
    assert forall|i: int| 0 <= i < q.len() - 1 implies #[trigger] push_targets(nodes, stakes, origin, fanout, q[i]).contains(
        q[i + 1],
    ) by {
        if i < path.len() - 1 {
            assert(q[i] == path[i] && q[i + 1] == path[i + 1]);
        } else {
            assert(q[i] == u);
        }
    }
    assert(is_push_path(nodes, stakes, origin, fanout, q));
}

/// The origin is reached in no pushes.
proof fn lemma_reaches_origin(nodes: Seq<Node>, stakes: Map<Pubkey, u64>, origin: Pubkey, fanout: nat)
    ensures
        reaches(nodes, stakes, origin, fanout, origin, 0),
{
    let path = seq![origin];
    assert(is_push_path(nodes, stakes, origin, fanout, path));
}

/// With distinct keys, the node found for a node's key is that node.
proof fn lemma_node_index(nodes: Seq<Node>, i: int)
    requires
        nodes_closed(nodes),
        0 <= i < nodes.len(),
    ensures
        node_index(nodes, nodes[i].key()) == i,
{
    let j = node_index(nodes, nodes[i].key());
    assert(nodes[i].key() == nodes[i].key());
    if j != i {
        if j < i {
            assert(nodes[j].key() != nodes[i].key());
        } else {
            assert(nodes[i].key() != nodes[j].key());
        }
    }
}

/// Each node pushes to at most `fanout` peers.
proof fn lemma_total_pushes_bound(
    nodes: Seq<Node>,
    stakes: Map<Pubkey, u64>,
    origin: Pubkey,
    fanout: nat,
    us: Seq<Pubkey>,
)
    ensures
        total_pushes(nodes, stakes, origin, fanout, us) <= us.len() * fanout,
    decreases us.len(),
{
    if us.len() > 0 {
        lemma_total_pushes_bound(nodes, stakes, origin, fanout, us.drop_last());
        assert(push_targets(nodes, stakes, origin, fanout, us.last()).len() <= fanout);
        assert((us.len() - 1) * fanout + fanout == us.len() * fanout) by (nonlinear_arith);
    }
}

/// Distinct keys that are all keys of nodes are no more than the nodes.
proof fn lemma_distinct_keys_bound(nodes: Seq<Node>, ks: Seq<Pubkey>)
    requires
        forall|i: int, j: int| 0 <= i < j < ks.len() ==> #[trigger] ks[i] != #[trigger] ks[j],
        forall|i: int| 0 <= i < ks.len() ==> has_node(nodes, #[trigger] ks[i]),
    ensures
        ks.len() <= nodes.len(),
{
    let node_keys = nodes.map_values(|n: Node| n.key());
    assert(ks.no_duplicates()) by {
        assert forall|i: int, j: int| 0 <= i < ks.len() && 0 <= j < ks.len() && i != j implies ks[i] != ks[j] by {
            if i < j {
                assert(ks[i] != ks[j]);
            } else {
                assert(ks[j] != ks[i]);
            }
        }
    }
    ks.unique_seq_to_set();
    node_keys.lemma_cardinality_of_set();
    vstd::seq_lib::seq_to_set_is_finite(node_keys);
    assert(ks.to_set().subset_of(node_keys.to_set())) by {
        assert forall|x: Pubkey| ks.to_set().contains(x) implies node_keys.to_set().contains(x) by {
            let i = choose|i: int| 0 <= i < ks.len() && ks[i] == x;
            assert(has_node(nodes, ks[i]));
            let j = choose|j: int| 0 <= j < nodes.len() && #[trigger] nodes[j].key() == ks[i];
            assert(node_keys[j] == x);
        }
    }
    vstd::set_lib::lemma_len_subset(ks.to_set(), node_keys.to_set());
}

/// The position of the node with key `k`.
fn find_node(nodes: &[Node], k: &Pubkey) -> (i: usize)
    requires
        has_node(nodes@, *k),
    ensures
        i < nodes@.len(),
        nodes@[i as int].key() == *k,
{
    let mut i: usize = 0;
    while i < nodes.len()
        invariant
            0 <= i <= nodes@.len(),
            has_node(nodes@, *k),
            forall|j: int| 0 <= j < i ==> #[trigger] nodes@[j].key() != *k,
        decreases nodes@.len() - i,
    {
        if key_eq(&nodes[i].pubkey, k) {
            return i;
        }
        i = i + 1;
    }
    proof {
        let j = choose|j: int| 0 <= j < nodes@.len() && #[trigger] nodes@[j].key() == *k;
        assert(nodes@[j].key() != *k);
    }
    0
}

} // verus!
