use gossip_sim::gossip::Testing;
use gossip_sim::simulation::SimulationAction::{
    ConsumeMessages, EmitConfigPoint, EmitRoundPoints, EmitSummaryPoints, Finish, PruneConnections, RecordRoundStats,
    RotateActiveSets, RunCalculations, SendPrunes, SpreadMessage,
};
use gossip_sim::simulation::{
    check_origin_ranks, simulation_settings, SimSettings, SimulationAction, SimulationStep, SweepError,
};

fn actions(rounds: usize, warm_up: usize, reporting: bool) -> Vec<SimulationAction> {
    let mut step = SimulationStep::new(rounds, warm_up, reporting);
    let mut out = Vec::new();
    loop {
        let a = step.next();
        out.push(a);
        if a == Finish {
            break;
        }
    }
    assert!(step.is_done());
    out
}

const ROUND: [SimulationAction; 6] =
    [SpreadMessage, ConsumeMessages, SendPrunes, PruneConnections, RotateActiveSets, RecordRoundStats];

#[test]
fn test_simulation_steps_reporting() {
    let mut expected = vec![EmitConfigPoint];
    expected.extend_from_slice(&ROUND);
    expected.push(EmitRoundPoints(0));
    expected.extend_from_slice(&ROUND);
    expected.push(EmitRoundPoints(1));
    expected.extend_from_slice(&[RunCalculations, EmitSummaryPoints, Finish]);
    assert_eq!(actions(2, 0, true), expected);
}

#[test]
fn test_simulation_steps_quiet_and_empty() {
    let mut expected = Vec::new();
    expected.extend_from_slice(&ROUND);
    expected.extend_from_slice(&[RunCalculations, Finish]);
    assert_eq!(actions(1, 0, false), expected);
    assert_eq!(actions(0, 0, true), vec![Finish]);
    // The settings are reported again on the eleventh round.
    let configs = actions(11, 0, true).iter().filter(|a| **a == EmitConfigPoint).count();
    assert_eq!(configs, 2);
}

#[test]
fn test_simulation_warm_up() {
    // Two warm-up rounds, then one measured round numbered 0.
    let warm = [SpreadMessage, ConsumeMessages, SendPrunes, PruneConnections, RotateActiveSets];
    let mut expected = vec![EmitConfigPoint];
    expected.extend_from_slice(&warm);
    expected.extend_from_slice(&warm);
    expected.extend_from_slice(&ROUND);
    expected.push(EmitRoundPoints(0));
    expected.extend_from_slice(&[RunCalculations, EmitSummaryPoints, Finish]);
    assert_eq!(actions(3, 2, true), expected);
    // With no round past the warm-up, nothing is recorded or summarised.
    let all = actions(2, 2, false);
    assert!(!all.contains(&RecordRoundStats));
    assert!(!all.contains(&RunCalculations));
}

fn base() -> SimSettings {
    SimSettings { active_set_size: 12, push_fanout: 6, min_ingress_nodes: 2, origin_rank: 1 }
}

#[test]
fn test_simulation_settings() {
    let ranks = vec![3, 1, 7];
    assert_eq!(
        simulation_settings(Testing::ActiveSetSize, base(), 4, 2, &ranks),
        SimSettings { active_set_size: 20, ..base() }
    );
    assert_eq!(
        simulation_settings(Testing::PushFanout, base(), 5, 1, &ranks),
        SimSettings { push_fanout: 11, ..base() }
    );
    // A fanout past the active set size raises it.
    assert_eq!(
        simulation_settings(Testing::PushFanout, base(), 5, 2, &ranks),
        SimSettings { push_fanout: 16, active_set_size: 16, ..base() }
    );
    assert_eq!(
        simulation_settings(Testing::MinIngressNodes, base(), 3, 3, &ranks),
        SimSettings { min_ingress_nodes: 11, ..base() }
    );
    assert_eq!(simulation_settings(Testing::OriginRank, base(), 1, 2, &ranks), SimSettings { origin_rank: 7, ..base() });
    assert_eq!(simulation_settings(Testing::RotateProbability, base(), 1, 2, &ranks), base());
    assert_eq!(simulation_settings(Testing::NoTest, base(), 1, 2, &ranks), base());
}

#[test]
fn test_check_origin_ranks() {
    assert_eq!(check_origin_ranks(Testing::OriginRank, 2, 3), Err(SweepError::NotEnoughOriginRanks));
    assert_eq!(check_origin_ranks(Testing::OriginRank, 3, 3), Ok(false));
    assert_eq!(check_origin_ranks(Testing::OriginRank, 4, 3), Ok(true));
    assert_eq!(check_origin_ranks(Testing::PushFanout, 2, 3), Err(SweepError::MultipleOriginRanks));
    assert_eq!(check_origin_ranks(Testing::NoTest, 1, 3), Ok(false));
}
