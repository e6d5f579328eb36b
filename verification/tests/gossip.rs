use gossip_sim::gossip::{
    aggregate_vote_stakes, find_nth_largest_node, make_gossip_cluster_for_tests, make_gossip_cluster_from_map,
    validate_testing, Cluster, Node, Testing,
};
use gossip_sim::key_map::PubkeyMap;
use gossip_sim::pubkey::Pubkey;
use gossip_sim::push_active_set::NUM_PUSH_ACTIVE_SET_ENTRIES;
use gossip_sim::accounts::{parse_accounts, select_accounts};
use gossip_sim::Error;

fn key(b: u8) -> Pubkey {
    let mut k = [0u8; 32];
    k[0] = b;
    k[31] = 9;
    Pubkey(k)
}

fn text(k: &Pubkey) -> String {
    solana_sdk::pubkey::Pubkey::new_from_array(k.0).to_string()
}

/// Four nodes A < B < C < D, each with one SOL, whose active sets are
/// A -> [B, C], B -> [C, D], C -> [D, A], D -> [A, B].
fn four_nodes() -> (Vec<Node>, PubkeyMap<u64>) {
    let mut stakes: PubkeyMap<u64> = PubkeyMap::new();
    for b in 1..=4u8 {
        stakes.insert(key(b), 1_000_000_000);
    }
    let made = make_gossip_cluster_for_tests(&stakes).unwrap();
    let mut nodes: Vec<Node> = made.into_iter().map(|(n, _)| n).collect();
    // Peers are listed by key; each shuffle offers one extra peer first, which the
    // rotation drops again.
    let orders: [[usize; 3]; 4] = [[2, 0, 1], [0, 1, 2], [1, 2, 0], [2, 0, 1]];
    for (node, order) in nodes.iter_mut().zip(orders.iter()) {
        let shuffles: Vec<Vec<usize>> = (0..NUM_PUSH_ACTIVE_SET_ENTRIES).map(|_| order.to_vec()).collect();
        node.run_gossip(&stakes, 2, true, &shuffles);
    }
    (nodes, stakes)
}

#[test]
fn test_gossip_peers_sorted_without_self() {
    let (nodes, stakes) = four_nodes();
    assert_eq!(nodes[0].gossip_peers(&stakes, true), vec![key(2), key(3), key(4)]);
    assert_eq!(nodes[2].gossip_peers(&stakes, false), vec![key(1), key(2), key(4)]);
}

#[test]
fn test_run_gossip_sets_active_sets() {
    let (nodes, stakes) = four_nodes();
    let a = key(1);
    assert_eq!(nodes[0].active_set().get_nodes(&a, &a, |_| false, &stakes), vec![key(2), key(3)]);
    assert_eq!(nodes[0].active_set().get_nodes(&a, &key(2), |_| false, &stakes), vec![key(3)]);
    // A node is never pushed a message it originated.
    assert_eq!(nodes[2].active_set().get_nodes(&key(3), &a, |_| false, &stakes), vec![key(4)]);
    assert_eq!(nodes[2].active_set().get_nodes(&key(3), &a, |_| true, &stakes), vec![key(4), a]);
    // The choice is asked per target: only the origin itself is forced here.
    assert_eq!(nodes[2].active_set().get_nodes(&key(3), &a, |k| *k == a, &stakes), vec![key(4), a]);
    assert_eq!(nodes[2].active_set().get_nodes(&key(3), &a, |k| *k == key(4), &stakes), vec![key(4)]);
}

#[test]
fn test_new_mst_spread() {
    let (nodes, stakes) = four_nodes();
    let (a, b, c, d) = (key(1), key(2), key(3), key(4));
    let mut cluster = Cluster::new(2);
    cluster.new_mst(&a, &stakes, &nodes);
    assert_eq!(cluster.get_visited_len(), 4);
    assert_eq!(cluster.get_distance(&a), 0);
    assert_eq!(cluster.get_distance(&b), 1);
    assert_eq!(cluster.get_distance(&c), 1);
    assert_eq!(cluster.get_distance(&d), 2);
    assert!(!cluster.get_order_key(&a));
    assert_eq!(cluster.get_num_inbound(&b), 2);
    assert_eq!(cluster.get_num_inbound(&c), 2);
    assert_eq!(cluster.get_num_inbound(&d), 2);
    assert_eq!(cluster.get_orders_hops(&b, &a), Some(&1));
    assert_eq!(cluster.get_orders_hops(&b, &d), Some(&3));
    assert_eq!(cluster.get_orders_hops(&c, &b), Some(&2));
    assert_eq!(cluster.get_orders_hops(&d, &c), Some(&2));
    assert_eq!(cluster.get_orders_hops(&d, &a), None);
    assert_eq!(cluster.get_outbound_degree(&a), 2);
    assert_eq!(cluster.get_outbound_degree(&b), 1);
    assert_eq!(cluster.edge_exists(&a, &b), Ok(true));
    assert_eq!(cluster.edge_exists(&a, &c), Ok(true));
    assert_eq!(cluster.edge_exists(&b, &d), Ok(true));
    assert_eq!(cluster.edge_exists(&a, &d), Ok(false));
    assert_eq!(cluster.edge_exists(&c, &d), Err(()));
    assert_eq!(cluster.coverage(&stakes), (4, 0));
    assert!(cluster.stranded_nodes().is_empty());
    // m = 2 pushes from A, 3 messages from B (a push, a prune, a push), 2 from C and
    // 2 from D; n = 4.
    assert_eq!(cluster.relative_message_redundancy(), Ok((9, 3)));
    let m = cluster.get_rmr_struct().m();
    assert_eq!(m, 9);
    assert_eq!(cluster.get_num_prunes_by_dest(&d), Err(()));
}

#[test]
fn test_new_mst_unreached_nodes_are_stranded() {
    let (nodes, mut stakes) = four_nodes();
    let e = key(9);
    stakes.insert(e, 5);
    let mut cluster = Cluster::new(2);
    cluster.new_mst(&key(1), &stakes, &nodes);
    assert_eq!(cluster.get_distance(&e), u64::MAX);
    assert_eq!(cluster.stranded_nodes(), vec![e]);
    assert_eq!(cluster.coverage(&stakes), (4, 1));
}

#[test]
fn test_consume_messages_order() {
    let (nodes, stakes) = four_nodes();
    let (a, b, c, d) = (key(1), key(2), key(3), key(4));
    let mut cluster = Cluster::new(2);
    cluster.new_mst(&a, &stakes, &nodes);
    let records = cluster.consume_messages(&a, &nodes);
    assert_eq!(records.len(), 3);
    assert_eq!(records[0], (b, vec![a, d]));
    assert_eq!(records[1], (c, vec![a, b]));
    // B and C both deliver in two hops; B was reached first, so its delivery comes first.
    assert_eq!(records[2], (d, vec![b, c]));
}

#[test]
fn test_prunes_stop_pushes() {
    let (mut nodes, stakes) = four_nodes();
    let (a, b, c, d) = (key(1), key(2), key(3), key(4));
    let mut cluster = Cluster::new(2);
    cluster.new_mst(&a, &stakes, &nodes);
    // D received the message from C as a duplicate and prunes it.
    let pruned = vec![vec![], vec![], vec![], vec![c, c]];
    cluster.send_prunes(a, &nodes, &pruned);
    assert_eq!(cluster.get_num_prunes_by_dest(&d), Ok(1));
    assert_eq!(cluster.get_num_prunes_by_dest(&a), Ok(0));
    assert_eq!(cluster.prune_exists(&d, &c), Ok(true));
    assert_eq!(cluster.prune_exists(&d, &b), Err(()));
    let prunes = cluster.get_prunes();
    assert_eq!(prunes.get(&d).unwrap().get(&c).unwrap(), &vec![a, a]);
    cluster.prune_connections(&mut nodes, &stakes);
    assert_eq!(nodes[2].active_set().get_nodes(&c, &a, |_| false, &stakes), Vec::<Pubkey>::new());
    assert_eq!(nodes[2].active_set().get_nodes(&c, &b, |_| false, &stakes), vec![d, a]);
    cluster.new_mst(&a, &stakes, &nodes);
    assert_eq!(cluster.get_visited_len(), 4);
    assert_eq!(cluster.get_num_inbound(&d), 1);
    assert_eq!(cluster.relative_message_redundancy(), Ok((7, 3)));
}

#[test]
fn test_nth_largest() {
    let stakes: Vec<u64> = vec![10, 123, 67, 18, 29, 567, 12, 5, 875, 234, 12, 5, 76, 0, 12354, 985];
    let ranks: Vec<usize> = vec![5, 10, 12, 1, 6, 2, 9, 16];
    let res: Vec<u64> = vec![234, 18, 12, 12354, 123, 985, 29, 0];

    let mut accounts: PubkeyMap<u64> = PubkeyMap::new();
    for (i, s) in stakes.iter().enumerate() {
        accounts.insert(key(i as u8 + 1), *s);
    }
    let nodes: Vec<Node> = make_gossip_cluster_for_tests(&accounts).unwrap().into_iter().map(|(n, _)| n).collect();

    for (index, r) in ranks.iter().enumerate() {
        let origin_node = find_nth_largest_node(*r, &nodes[..]).unwrap();
        let stake = origin_node.stake();
        assert_eq!(stake, res[index]);
    }
}

#[test]
fn test_nth_largest_first_of_equal_stakes_and_empty() {
    let mut accounts: PubkeyMap<u64> = PubkeyMap::new();
    accounts.insert(key(1), 7);
    accounts.insert(key(2), 9);
    accounts.insert(key(3), 9);
    let nodes: Vec<Node> = make_gossip_cluster_for_tests(&accounts).unwrap().into_iter().map(|(n, _)| n).collect();
    assert_eq!(find_nth_largest_node(1, &nodes).unwrap().pubkey(), key(2));
    assert_eq!(find_nth_largest_node(2, &nodes).unwrap().pubkey(), key(2));
    assert_eq!(find_nth_largest_node(3, &nodes).unwrap().pubkey(), key(1));
    assert_eq!(find_nth_largest_node(8, &nodes).unwrap().pubkey(), key(1));
    assert!(find_nth_largest_node(1, &[]).is_none());
}

#[test]
fn test_make_gossip_cluster_from_map() {
    let accounts = vec![(text(&key(1)), 5u64), (text(&key(2)), 0u64), (text(&key(3)), 7u64)];
    let nodes = make_gossip_cluster_from_map(&accounts, true).unwrap();
    assert_eq!(nodes.len(), 2);
    assert_eq!(nodes[0].0.pubkey(), key(1));
    assert_eq!(nodes[0].0.stake(), 5);
    assert_eq!(nodes[1].0.pubkey(), key(3));
    assert_eq!(nodes[1].0.table().len(), 0);
    let all = make_gossip_cluster_from_map(&accounts, false).unwrap();
    assert_eq!(all.len(), 3);
    assert_eq!(all[1].0.stake(), 0);
    let bad = vec![(text(&key(1)), 5u64), ("not a key".to_string(), 3u64)];
    assert!(matches!(make_gossip_cluster_from_map(&bad, false), Err(Error::ParsePubkeyError(_))));
    // A zero-staked account that is filtered out is never parsed.
    let skipped = vec![(text(&key(1)), 5u64), ("not a key".to_string(), 0u64)];
    assert_eq!(make_gossip_cluster_from_map(&skipped, true).unwrap().len(), 1);
}

#[test]
fn test_aggregate_vote_stakes() {
    let accounts = vec![("a".to_string(), 5u64), ("b".to_string(), 0u64), ("a".to_string(), 7u64)];
    assert_eq!(aggregate_vote_stakes(&accounts, true), vec![("a".to_string(), 12u64)]);
    assert_eq!(
        aggregate_vote_stakes(&accounts, false),
        vec![("a".to_string(), 12u64), ("b".to_string(), 0u64)]
    );
}

#[test]
fn test_testing_names() {
    assert_eq!(Testing::PushFanout.name(), "PushFanout()");
    assert_eq!(Testing::ActiveSetSize.name(), "ActiveSetSize");
    assert_eq!("origin-rank".parse::<Testing>(), Ok(Testing::OriginRank));
    assert_eq!("no-test".parse::<Testing>(), Ok(Testing::NoTest));
    assert_eq!("foo".parse::<Testing>(), Err("Invalid test type: foo".to_string()));
    assert_eq!("prune-stake-threshold".parse::<Testing>(), Ok(Testing::PruneStakeThreshold));
    assert_eq!("rotate-probability".parse::<Testing>(), Ok(Testing::RotateProbability));
    assert_eq!("fail-nodes".parse::<Testing>(), Ok(Testing::FailNodes));
    assert_eq!(
        "min-stake-threshold".parse::<Testing>(),
        Err("Invalid test type: min-stake-threshold".to_string())
    );
    assert_eq!(Testing::FailNodes.name(), "FailNodes()");
    assert_eq!(validate_testing("min-ingress-nodes"), Ok(()));
    assert_eq!(validate_testing("bar"), Err("Invalid test type".to_string()));
}

#[test]
fn test_parse_accounts() {
    let yaml = b"b: 7\na: 5\nab: 0\n";
    let accounts = parse_accounts(yaml).unwrap();
    assert_eq!(accounts, vec![("a".to_string(), 5), ("ab".to_string(), 0), ("b".to_string(), 7)]);
    assert_eq!(parse_accounts(b"{}").unwrap(), Vec::<(String, u64)>::new());
    assert!(parse_accounts(b"a: not-a-number\n").is_err());
    assert!(parse_accounts(b"- 1\n- 2\n").is_err());
}

#[test]
fn test_select_accounts() {
    let mut accounts: PubkeyMap<u64> = PubkeyMap::new();
    accounts.insert(key(1), 5);
    accounts.insert(key(2), 0);
    accounts.insert(key(3), 7);
    accounts.insert(key(4), 0);
    let nodes: Vec<Node> = make_gossip_cluster_for_tests(&accounts).unwrap().into_iter().map(|(n, _)| n).collect();
    assert_eq!(select_accounts(&nodes, 2, false), vec![(key(1), 5), (key(2), 0)]);
    assert_eq!(select_accounts(&nodes, u64::MAX, false).len(), 4);
    assert_eq!(select_accounts(&nodes, 5, true), vec![(key(2), 0), (key(4), 0)]);
    assert_eq!(select_accounts(&nodes, 1, true), vec![(key(2), 0)]);
}
