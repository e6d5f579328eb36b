use gossip_sim::influx_db::{get_timestamp, get_timestamp_now, InfluxDataPoint, InfluxThread, Tracker};
use gossip_sim::gossip_stats::StrandedNodeCollection;
use gossip_sim::key_map::PubkeyMap;
use gossip_sim::pubkey::Pubkey;
use gossip_sim::{get_influx_url, get_json_rpc_url, API_MAINNET_BETA, API_TESTNET, INFLUX_INTERNAL_METRICS, INFLUX_LOCALHOST};

fn is_timestamp(s: &str) -> bool {
    s.ends_with('\n') && s.len() > 1 && s[..s.len() - 1].chars().all(|c| c.is_ascii_digit())
}

#[test]
fn test_urls() {
    assert_eq!(get_json_rpc_url("m"), API_MAINNET_BETA);
    assert_eq!(get_json_rpc_url("mainnet-beta"), API_MAINNET_BETA);
    assert_eq!(get_json_rpc_url("t"), API_TESTNET);
    assert_eq!(get_json_rpc_url("testnet"), API_TESTNET);
    assert_eq!(get_json_rpc_url("http://127.0.0.1:8899"), "http://127.0.0.1:8899");
    assert_eq!(get_influx_url("i"), INFLUX_INTERNAL_METRICS);
    assert_eq!(get_influx_url("localhost"), INFLUX_LOCALHOST);
    assert_eq!(get_influx_url("l"), "http://localhost:8086");
    assert_eq!(get_influx_url("x"), "x");
}

#[test]
fn test_timestamp() {
    assert!(is_timestamp(&get_timestamp_now()));
    let t = get_timestamp();
    assert!(!t.is_empty() && t.chars().all(|c| c.is_ascii_digit()));
    assert!(t.parse::<u128>().unwrap() > 1_600_000_000_000_000_000);
}

#[test]
fn test_tracker() {
    let mut t = Tracker::default();
    assert!(t.equal());
    t.add_dequeued();
    t.add_dequeued();
    t.add_sent();
    assert_eq!((t.get_dequeued(), t.get_sent()), (2, 1));
    assert!(!t.equal());
    t.add_sent();
    assert!(t.equal());
}

#[test]
fn test_start_and_end_points() {
    let mut p = InfluxDataPoint::default();
    assert_eq!(p.data(), "");
    assert!(!p.is_start());
    p.set_start();
    assert!(p.is_start());
    assert!(!p.last_datapoint());
    let mut q = InfluxDataPoint::default();
    q.set_last_datapoint();
    assert!(q.last_datapoint());
    q.set_last_datapoint();
    assert!(!q.last_datapoint());
}

#[test]
fn test_point_texts() {
    let mut p = InfluxDataPoint::default();
    p.append_timestamp();
    let stamp = p.data();
    assert!(is_timestamp(&stamp));
    let mut q = InfluxDataPoint::default();
    q.create_iteration_point(5, 2);
    let text = q.data();
    assert!(text.starts_with("iteration simulation_iter=2,gossip_iter=5 "));
    assert!(is_timestamp(&text["iteration simulation_iter=2,gossip_iter=5 ".len()..]));
    let mut r = InfluxDataPoint::default();
    r.create_stranded_node_stat_point(3, "1.5", "2", 40, 0);
    assert!(r.data().starts_with("stranded_node_stats count=3,mean=1.5,median=2,max=40,min=0 "));
    let mut s = InfluxDataPoint::default();
    s.create_data_point("0.95", "coverage".to_string());
    assert!(s.data().starts_with("coverage data=0.95 "));
    let mut t = InfluxDataPoint::default();
    t.create_config_point(6, 12, 1, "0.15", 2);
    assert!(t.data().starts_with(
        "config push_fanout=6,active_set_size=12,origin_rank=1,prune_stake_threshold=0.15,min_ingress_nodes=2 "
    ));
    let mut u = InfluxDataPoint::default();
    u.create_hops_stat_point("2.5", "2", 1234567890123);
    assert!(u.data().starts_with("hops_stat mean=2.5,median=2,max=1234567890123 "));
}

#[test]
fn test_histogram_point() {
    let mut stakes: PubkeyMap<u64> = PubkeyMap::new();
    let keys: Vec<Pubkey> = (1..=3u8).map(|b| { let mut k = [0u8; 32]; k[0] = b; Pubkey(k) }).collect();
    for k in &keys {
        stakes.insert(*k, 1);
    }
    let mut c = StrandedNodeCollection::new();
    c.insert_nodes(&keys, &stakes);
    c.insert_nodes(&vec![keys[0]], &stakes);
    c.insert_nodes(&vec![keys[0]], &stakes);
    c.build_historgram(2);
    let mut p = InfluxDataPoint::default();
    p.create_histogram_point("stranded".to_string(), c.get_histogram());
    let text = p.data();
    let lines: Vec<&str> = text.lines().collect();
    assert_eq!(lines.len(), 2);
    assert!(lines[0].starts_with("stranded bucket=1,count=2 "));
    assert!(lines[1].starts_with("stranded bucket=2,count=1 "));
}

#[test]
fn test_influx_loop_decisions() {
    let mut state = InfluxThread::initial_state();
    assert_eq!(state.wait_millis(), 100);
    let mut start = InfluxDataPoint::default();
    start.set_start();
    assert!(!InfluxThread::on_datapoint(&mut state, &start));
    assert_eq!(state.wait_millis(), 1);
    assert_eq!(InfluxThread::after_turn(&mut state, true), (false, false));
    let mut data = InfluxDataPoint::default();
    data.create_iteration_point(0, 0);
    assert!(InfluxThread::on_datapoint(&mut state, &data));
    let mut end = InfluxDataPoint::default();
    end.set_last_datapoint();
    assert!(!InfluxThread::on_datapoint(&mut state, &end));
    assert_eq!(InfluxThread::after_turn(&mut state, false), (true, false));
    assert_eq!(InfluxThread::after_turn(&mut state, false), (false, false));
    assert_eq!(InfluxThread::after_turn(&mut state, true), (false, true));
}
