use gossip_sim::gossip_stats::{
    Histogram, HopsStat, HopsStatCollection, RelativeMessageRedundancy, StrandedNodeCollection,
};
use gossip_sim::key_map::PubkeyMap;
use gossip_sim::pubkey::Pubkey;

fn key(b: u8) -> Pubkey {
    let mut k = [0u8; 32];
    k[0] = b;
    Pubkey(k)
}

#[test]
fn test_histogram_settings() {
    let mut h = Histogram::default();
    assert_eq!((h.min_stranded(), h.max_stranded(), h.bucket_range(), h.num_buckets()), (0, 0, 0, 0));
    h.set_min_stranded(3);
    h.set_max_stranded(11);
    h.set_bucket_range(4);
    h.set_num_buckets(2);
    assert_eq!(h.min_stranded(), 3);
    assert_eq!(h.max_stranded(), 11);
    assert_eq!(h.bucket_range(), 4);
    assert_eq!(h.num_buckets(), 2);
    assert!(h.entries().is_empty());
}

fn three_rounds() -> (StrandedNodeCollection, PubkeyMap<u64>) {
    let mut stakes: PubkeyMap<u64> = PubkeyMap::new();
    stakes.insert(key(1), 10);
    stakes.insert(key(2), 30);
    stakes.insert(key(3), 20);
    stakes.insert(key(4), 40);
    let mut c = StrandedNodeCollection::new();
    c.insert_nodes(&vec![key(1), key(2)], &stakes);
    c.insert_nodes(&vec![key(1)], &stakes);
    // A node without a stake is left out.
    c.insert_nodes(&vec![key(1), key(3), key(9)], &stakes);
    (c, stakes)
}

#[test]
fn test_stranded_counts() {
    let (mut c, _) = three_rounds();
    assert_eq!(c.stranded_count(), 3);
    assert_eq!(c.get_total_gossip_iterations(), 3);
    assert_eq!(c.get_total_nodes(), 4);
    c.calculate_stats();
    assert_eq!(c.get_total_stranded_iterations(), 5);
    assert_eq!(c.get_stranded_stake_stats(), (60, 30, 10));
    assert_eq!(c.sorted_stranded_counts(), vec![1, 1, 3]);
    assert_eq!(c.sorted_stranded_stakes(), vec![10, 20, 30]);
    assert_eq!(
        c.get_sorted_stranded(),
        vec![(key(1), (10, 3)), (key(2), (30, 1)), (key(3), (20, 1))]
    );
}

#[test]
fn test_stranded_histogram() {
    let (mut c, _) = three_rounds();
    c.build_historgram(2);
    let h = c.get_histogram();
    assert_eq!(h.num_buckets(), 2);
    assert_eq!(h.min_stranded(), 1);
    assert_eq!(h.max_stranded(), 3);
    assert_eq!(h.bucket_range(), 1);
    // Nodes stranded once fall in bucket 0; the one stranded three times is past the
    // last bucket and counts in it.
    assert_eq!(h.entries(), vec![(0, 2), (1, 1)]);
}

#[test]
fn test_hops_stat() {
    let mut hops = vec![0, 3, 1, u64::MAX, 2, 2];
    let stat = HopsStat::new(&mut hops);
    assert_eq!(hops, vec![0, 1, 2, 2, 3, u64::MAX]);
    assert_eq!(stat.mean_parts(), (4, 8));
    assert_eq!(stat.median_parts(), (2, 2));
    assert_eq!(stat.max(), 3);
    assert_eq!(stat.min(), 1);
    let mut odd = vec![5, 1, 9];
    let s = HopsStat::new(&mut odd);
    assert_eq!(s.median_parts(), (5, 5));
    assert_eq!(s.mean_parts(), (3, 15));
    let mut even = vec![4, 1, 7, 2];
    assert_eq!(HopsStat::new(&mut even).median_parts(), (2, 4));
}

#[test]
fn test_hops_stat_collection() {
    let mut c = HopsStatCollection::new();
    c.insert(&mut vec![0, 2, 1, u64::MAX]);
    c.insert(&mut vec![3, 0, 1]);
    assert_eq!(c.get_stat_by_iteration(0).max(), 2);
    assert_eq!(c.get_stat_by_iteration(1).max(), 3);
    c.aggregate_hop_stats();
    // All hop counts of nodes reached: 0, 1, 2, 0, 1, 3; the origin's zeros are left out.
    assert_eq!(c.get_aggregate_hop_stats().mean_parts(), (4, 7));
    assert_eq!(c.get_aggregate_hop_stats().median_parts(), (1, 2));
    c.calc_last_delivery_hop_stats();
    assert_eq!(c.get_last_delivery_hop_stats().mean_parts(), (2, 5));
    assert_eq!(c.get_last_delivery_hop_stats().min(), 2);
}

#[test]
fn test_rmr_counts() {
    let mut r = RelativeMessageRedundancy::new();
    assert_eq!(r.calculate_rmr(), Err("Division by zero. n is 0.".to_string()));
    r.increment_n();
    r.increment_m();
    // Only the origin holds the message: no ratio.
    assert_eq!(r.calculate_rmr(), Err("Division by zero. n is 1.".to_string()));
    r.reset();
    r.increment_n();
    r.increment_n();
    for _ in 0..5 {
        r.increment_m();
    }
    assert_eq!(r.calculate_rmr(), Ok((5, 1)));
    r.reset();
    assert_eq!((r.m(), r.n()), (0, 0));
}

fn parsed(text: &str) -> Pubkey {
    Pubkey(text.parse::<solana_sdk::pubkey::Pubkey>().unwrap().to_bytes())
}

/// The hop counts of a map of distances, in the map's order.
fn hop_values(distances: &PubkeyMap<u64>) -> Vec<u64> {
    (0..distances.len()).map(|i| distances.entry_at(i).1).collect()
}

/// (mean, median, max, min) of a round's statistics.
fn summary(h: &HopsStat) -> (f64, f64, u64, u64) {
    let (count, sum) = h.mean_parts();
    let (lo, hi) = h.median_parts();
    (sum as f64 / count as f64, (lo + hi) as f64 / 2.0, h.max(), h.min())
}

#[test]
fn test_hops() {
    let mut gossip_stats = HopsStatCollection::new();
    let mut distances: PubkeyMap<u64> = PubkeyMap::new();

    // stranded
    distances.insert(parsed("11111113pNDtm61yGF8j2ycAwLEPsuWQXobye5qDR"), u64::MAX);
    distances.insert(parsed("11111114DhpssPJgSi1YU7hCMfYt1BJ334YgsffXm"), u64::MAX);
    distances.insert(parsed("11111114d3RrygbPdAtMuFnDmzsN8T5fYKVQ7FVr7"), u64::MAX);
    distances.insert(parsed("111111152P2r5yt6odmBLPsFCLBrFisJ3aS7LqLAT"), u64::MAX);
    // connected
    distances.insert(parsed("11111113R2cuenjG5nFubqX9Wzuukdin2YfGQVzu5"), 0);
    distances.insert(parsed("11111112D1oxKts8YPdTJRG5FzxTNpMtWmq8hkVx3"), 1);
    distances.insert(parsed("111111131h1vYVSYuKP6AhS86fbRdMw9XHiZAvAaj"), 1);
    distances.insert(parsed("1111111QLbz7JHiBTspS962RLKV8GndWFwiEaqKM"), 2);
    distances.insert(parsed("11111112cMQwSC9qirWGjZM6gLGwW69X22mqwLLGP"), 2);
    distances.insert(parsed("1111111ogCyDbaRMvkdsHB3qfdyFYaG1WtRUAfdh"), 3);
    gossip_stats.insert(&mut hop_values(&distances));
    let hop_stats = summary(gossip_stats.get_stat_by_iteration(0));
    assert_eq!(hop_stats.0, 1.8); //mean
    assert_eq!(hop_stats.1, 2.0); //median
    assert_eq!(hop_stats.2, 3); //max
    assert_eq!(hop_stats.3, 1); //min

    distances.clear();
    // stranded
    distances.insert(parsed("11111113pNDtm61yGF8j2ycAwLEPsuWQXobye5qDR"), u64::MAX);
    distances.insert(parsed("111111152P2r5yt6odmBLPsFCLBrFisJ3aS7LqLAT"), u64::MAX);
    distances.insert(parsed("11111112cMQwSC9qirWGjZM6gLGwW69X22mqwLLGP"), u64::MAX);
    distances.insert(parsed("1111111ogCyDbaRMvkdsHB3qfdyFYaG1WtRUAfdh"), u64::MAX);
    distances.insert(parsed("11111114d3RrygbPdAtMuFnDmzsN8T5fYKVQ7FVr7"), u64::MAX);
    distances.insert(parsed("11111114DhpssPJgSi1YU7hCMfYt1BJ334YgsffXm"), u64::MAX);
    // connected
    distances.insert(parsed("11111113R2cuenjG5nFubqX9Wzuukdin2YfGQVzu5"), 0);
    distances.insert(parsed("11111112D1oxKts8YPdTJRG5FzxTNpMtWmq8hkVx3"), 1);
    distances.insert(parsed("111111131h1vYVSYuKP6AhS86fbRdMw9XHiZAvAaj"), 1);
    distances.insert(parsed("1111111QLbz7JHiBTspS962RLKV8GndWFwiEaqKM"), 2);
    gossip_stats.insert(&mut hop_values(&distances));
    let hop_stats = summary(gossip_stats.get_stat_by_iteration(1));
    assert_eq!(hop_stats.0, 1.3333333333333333); //mean
    assert_eq!(hop_stats.1, 1.0); //median
    assert_eq!(hop_stats.2, 2); //max
    assert_eq!(hop_stats.3, 1); //min

    distances.clear();
    // stranded
    distances.insert(parsed("11111113pNDtm61yGF8j2ycAwLEPsuWQXobye5qDR"), u64::MAX);
    distances.insert(parsed("111111152P2r5yt6odmBLPsFCLBrFisJ3aS7LqLAT"), u64::MAX);
    distances.insert(parsed("11111112cMQwSC9qirWGjZM6gLGwW69X22mqwLLGP"), u64::MAX);
    distances.insert(parsed("11111114d3RrygbPdAtMuFnDmzsN8T5fYKVQ7FVr7"), u64::MAX);
    distances.insert(parsed("11111114DhpssPJgSi1YU7hCMfYt1BJ334YgsffXm"), u64::MAX);
    distances.insert(parsed("111111131h1vYVSYuKP6AhS86fbRdMw9XHiZAvAaj"), u64::MAX);
    distances.insert(parsed("1111111QLbz7JHiBTspS962RLKV8GndWFwiEaqKM"), u64::MAX);
    // connected
    distances.insert(parsed("11111113R2cuenjG5nFubqX9Wzuukdin2YfGQVzu5"), 0);
    distances.insert(parsed("11111112D1oxKts8YPdTJRG5FzxTNpMtWmq8hkVx3"), 1);
    distances.insert(parsed("1111111ogCyDbaRMvkdsHB3qfdyFYaG1WtRUAfdh"), 6);
    gossip_stats.insert(&mut hop_values(&distances));
    let hop_stats = summary(gossip_stats.get_stat_by_iteration(2));
    assert_eq!(hop_stats.0, 3.5); //mean
    assert_eq!(hop_stats.1, 3.5); //median
    assert_eq!(hop_stats.2, 6); //max
    assert_eq!(hop_stats.3, 1); //min

    /* Aggregate Stats */
    gossip_stats.aggregate_hop_stats();
    let agg_hop_stats = summary(gossip_stats.get_aggregate_hop_stats());
    assert_eq!(agg_hop_stats.0, 2.0); //mean
    assert_eq!(agg_hop_stats.1, 1.5); //median
    assert_eq!(agg_hop_stats.2, 6); //max
    assert_eq!(agg_hop_stats.3, 1); //min

    /* LDH Stats */
    gossip_stats.calc_last_delivery_hop_stats();
    let ldh_stats = summary(gossip_stats.get_last_delivery_hop_stats());
    assert_eq!(ldh_stats.0, 3.6666666666666665); //mean
    assert_eq!(ldh_stats.1, 3.0); //median
    assert_eq!(ldh_stats.2, 6); //max
    assert_eq!(ldh_stats.3, 2); //min
}
