use gossip_sim::key_map::PubkeyMap;
use gossip_sim::pubkey::Pubkey;
use gossip_sim::push_active_set::{
    get_stake_bucket, PushActiveSet, PushActiveSetEntry, NUM_PUSH_ACTIVE_SET_ENTRIES,
};
use solana_sdk::native_token::LAMPORTS_PER_SOL;

fn unique_keys(n: usize) -> Vec<Pubkey> {
    (0..n)
        .map(|i| {
            let mut b = [0u8; 32];
            b[0] = 7;
            b[31] = i as u8 + 1;
            Pubkey(b)
        })
        .collect()
}

/// The nodes at the given positions, in that order.
fn pick(nodes: &[Pubkey], idx: &[usize]) -> Vec<Pubkey> {
    idx.iter().map(|&k| nodes[k]).collect()
}

/// A shuffle of `0..n` that starts with `first`, the other positions following in order.
fn shuffle_starting_with(first: &[usize], n: usize) -> Vec<usize> {
    let mut s: Vec<usize> = first.to_vec();
    for k in 0..n {
        if !first.contains(&k) {
            s.push(k);
        }
    }
    s
}

#[test]
fn test_get_stake_bucket() {
    let lamports = LAMPORTS_PER_SOL;
    assert_eq!(get_stake_bucket(None), 0);
    let buckets = [0, 1, 2, 2, 3, 3, 3, 3, 4, 4, 4, 4, 4, 4, 4, 4, 5, 5];
    for (k, bucket) in buckets.into_iter().enumerate() {
        let stake = (k as u64) * lamports;
        assert_eq!(get_stake_bucket(Some(&stake)), bucket);
    }
    for (stake, bucket) in [(4_194_303, 22), (4_194_304, 23), (8_388_607, 23), (8_388_608, 24)] {
        let stake = stake * lamports;
        assert_eq!(get_stake_bucket(Some(&stake)), bucket);
    }
    assert_eq!(get_stake_bucket(Some(&u64::MAX)), NUM_PUSH_ACTIVE_SET_ENTRIES - 1);
}

#[test]
/// The rotations here take shuffles chosen by hand rather than random weighted
/// shuffles, so the stakes, keys and expected targets are this test's own.
fn test_push_active_set() {
    let nodes = unique_keys(20);
    let pubkey = unique_keys(21)[20];
    let mut stakes: PubkeyMap<u64> = PubkeyMap::new();
    for (i, k) in nodes.iter().enumerate() {
        stakes.insert(*k, (i as u64 + 1) * 1_000 * LAMPORTS_PER_SOL);
    }
    stakes.insert(pubkey, 500 * LAMPORTS_PER_SOL);
    let mut active_set = PushActiveSet::new();
    for k in 0..NUM_PUSH_ACTIVE_SET_ENTRIES {
        assert_eq!(active_set.entry(k).len(), 0);
    }
    let first: Vec<Vec<usize>> =
        (0..NUM_PUSH_ACTIVE_SET_ENTRIES).map(|_| shuffle_starting_with(&[19, 13, 5, 18, 16, 0], 20)).collect();
    active_set.rotate(5, &nodes, &first);
    for k in 0..NUM_PUSH_ACTIVE_SET_ENTRIES {
        assert_eq!(active_set.entry(k).len(), 5);
    }
    // Each target has already pruned itself.
    for k in 0..NUM_PUSH_ACTIVE_SET_ENTRIES {
        let entry = active_set.entry(k);
        for node in entry.keys() {
            assert!(entry.pruned_origins(&node).unwrap().contains(&node));
        }
    }
    let other = nodes[5];
    let origin = nodes[17];
    assert_eq!(active_set.get_nodes(&pubkey, &origin, |_| false, &stakes), pick(&nodes, &[13, 5, 18, 16, 0]));
    assert_eq!(active_set.get_nodes(&pubkey, &other, |_| false, &stakes), pick(&nodes, &[13, 18, 16, 0]));
    active_set.prune(&pubkey, &nodes[5], &[origin], &stakes);
    active_set.prune(&pubkey, &nodes[3], &[origin], &stakes);
    active_set.prune(&pubkey, &nodes[16], &[origin], &stakes);
    assert_eq!(active_set.get_nodes(&pubkey, &origin, |_| false, &stakes), pick(&nodes, &[13, 18, 0]));
    assert_eq!(active_set.get_nodes(&pubkey, &other, |_| false, &stakes), pick(&nodes, &[13, 18, 16, 0]));
    let second: Vec<Vec<usize>> =
        (0..NUM_PUSH_ACTIVE_SET_ENTRIES).map(|_| shuffle_starting_with(&[7, 15, 11], 20)).collect();
    active_set.rotate(7, &nodes, &second);
    for k in 0..NUM_PUSH_ACTIVE_SET_ENTRIES {
        assert_eq!(active_set.entry(k).len(), 7);
    }
    assert_eq!(active_set.get_nodes(&pubkey, &origin, |_| false, &stakes), pick(&nodes, &[18, 0, 7, 15, 11]));
    assert_eq!(active_set.get_nodes(&pubkey, &other, |_| false, &stakes), pick(&nodes, &[18, 16, 0, 7, 15, 11]));
    let origins = [origin, other];
    active_set.prune(&pubkey, &nodes[18], &origins, &stakes);
    active_set.prune(&pubkey, &nodes[0], &origins, &stakes);
    active_set.prune(&pubkey, &nodes[15], &origins, &stakes);
    assert_eq!(active_set.get_nodes(&pubkey, &origin, |_| false, &stakes), pick(&nodes, &[7, 11]));
    assert_eq!(active_set.get_nodes(&pubkey, &other, |_| false, &stakes), pick(&nodes, &[16, 7, 11]));
}

#[test]
/// The rotations here take shuffles chosen by hand rather than random weighted
/// shuffles, so the stakes, keys and expected targets are this test's own.
fn test_push_active_set_entry() {
    let nodes = unique_keys(20);
    let mut entry = PushActiveSetEntry::new();
    entry.rotate(5, &nodes, &shuffle_starting_with(&[2, 16, 11, 17, 14, 5], 20));
    assert_eq!(entry.len(), 5);
    let keys = pick(&nodes, &[16, 11, 17, 14, 5]);
    assert_eq!(entry.keys(), keys);
    for origin in &nodes {
        if !keys.contains(origin) {
            assert_eq!(entry.get_nodes(origin, |_| false), keys);
        } else {
            assert_eq!(entry.get_nodes(origin, |_| true), keys);
            let expected: Vec<Pubkey> = keys.iter().copied().filter(|key| key != origin).collect();
            assert_eq!(entry.get_nodes(origin, |_| false), expected);
        }
    }
    // Each target has already pruned itself.
    for node in entry.keys() {
        assert!(entry.pruned_origins(&node).unwrap().contains(&node));
    }
    for origin in &keys {
        assert_eq!(entry.get_nodes(origin, |_| true), keys);
        let expected: Vec<Pubkey> = keys.iter().copied().filter(|node| node != origin).collect();
        assert_eq!(entry.get_nodes(origin, |_| false), expected);
    }
    // Pruning excludes the node from the pushes.
    let origin = nodes[3];
    entry.prune(&nodes[11], &origin);
    entry.prune(&nodes[14], &origin);
    entry.prune(&nodes[19], &origin);
    assert_eq!(entry.get_nodes(&origin, |_| true), keys);
    let expected: Vec<Pubkey> = keys.iter().copied().filter(|&node| node != nodes[11] && node != nodes[14]).collect();
    assert_eq!(entry.get_nodes(&origin, |_| false), expected);
    // Forcing only one of the targets that pruned the origin.
    let forced: Vec<Pubkey> = keys.iter().copied().filter(|&node| node != nodes[14]).collect();
    assert_eq!(entry.get_nodes(&origin, |k| *k == nodes[11]), forced);
    // Rotating adds new nodes.
    entry.rotate(5, &nodes, &shuffle_starting_with(&[11, 7], 20));
    assert_eq!(entry.keys(), pick(&nodes, &[11, 17, 14, 5, 7]));
    entry.rotate(6, &nodes, &shuffle_starting_with(&[1, 13], 20));
    assert_eq!(entry.keys(), pick(&nodes, &[17, 14, 5, 7, 1, 13]));
    entry.rotate(4, &nodes, &shuffle_starting_with(&[2], 20));
    assert_eq!(entry.keys(), pick(&nodes, &[5, 7, 1, 13]));
}
