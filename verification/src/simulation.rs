//! The order of work in one simulation: each gossip round spreads the origin's
//! message, consumes it, sends and applies the prunes, rotates active sets and records
//! the round's statistics; after the last round the statistics are summarised.

use vstd::prelude::*;
use crate::gossip::Testing;

verus! {

/// Where a simulation stands.
#[derive(Clone, Copy, Debug, PartialEq, Eq, Structural)]
pub enum SimulationPhase {
    /// A round is about to start, or all rounds are done.
    RoundStart,
    /// The origin's message is about to spread.
    Spread,
    /// The receivers are about to consume the message.
    Consume,
    /// The prunes are about to be sent.
    Prune,
    /// The prunes are about to be applied to the active sets.
    Connect,
    /// The active sets are about to be rotated.
    Rotate,
    /// The round's statistics are about to be recorded.
    Record,
    /// The round's data points are about to be reported.
    Report,
    /// The summary's data points are about to be reported.
    Summary,
    /// Nothing is left to do.
    Done,
}

/// What the program running a simulation is to do next.
#[derive(Clone, Copy, Debug, PartialEq, Eq, Structural)]
pub enum SimulationAction {
    /// Report the simulation's settings.
    EmitConfigPoint,
    /// Spread the origin's message through the cluster.
    SpreadMessage,
    /// Let every receiver consume the message.
    ConsumeMessages,
    /// Send the prunes that the receivers decided on.
    SendPrunes,
    /// Apply the prunes to the senders' active sets.
    PruneConnections,
    /// Let each node rotate its active set by chance.
    RotateActiveSets,
    /// Record the round's coverage, hops, stranded nodes and message redundancy.
    RecordRoundStats,
    /// Report the data points of the round measured at this position, counted from
    /// the end of the warm-up rounds.
    EmitRoundPoints(usize),
    /// Compute the statistics over all rounds.
    RunCalculations,
    /// Report the statistics over all rounds.
    EmitSummaryPoints,
    /// The simulation is over.
    Finish,
}

/// A simulation's progress: the round it is in, how many rounds it runs, how many of
/// the first rounds only warm the active sets up and are not measured, whether it
/// reports data points, and where in the round it stands.
#[derive(Clone, Copy, Debug, PartialEq, Eq, Structural)]
pub struct SimulationStep {
    pub iteration: usize,
    pub gossip_iterations: usize,
    pub warm_up_rounds: usize,
    pub reporting: bool,
    pub phase: SimulationPhase,
}

/// Whether the settings are reported at the start of round `iteration`: every tenth
/// round, starting with the first, when data points are reported.
pub open spec fn config_due(reporting: bool, iteration: usize) -> bool {
    reporting && iteration % 10 == 0
}

/// The next state and action of a simulation in state `s`.
pub open spec fn next_of(s: SimulationStep) -> (SimulationStep, SimulationAction) {
    match s.phase {
        SimulationPhase::RoundStart => if s.iteration >= s.gossip_iterations {
            if s.gossip_iterations > s.warm_up_rounds {
                (SimulationStep { phase: SimulationPhase::Summary, ..s }, SimulationAction::RunCalculations)
            } else {
                (SimulationStep { phase: SimulationPhase::Done, ..s }, SimulationAction::Finish)
            }
        } else if config_due(s.reporting, s.iteration) {
            (SimulationStep { phase: SimulationPhase::Spread, ..s }, SimulationAction::EmitConfigPoint)
        } else {
            (SimulationStep { phase: SimulationPhase::Consume, ..s }, SimulationAction::SpreadMessage)
        },
        SimulationPhase::Spread => (SimulationStep { phase: SimulationPhase::Consume, ..s }, SimulationAction::SpreadMessage),
        SimulationPhase::Consume => (SimulationStep { phase: SimulationPhase::Prune, ..s }, SimulationAction::ConsumeMessages),
        SimulationPhase::Prune => (SimulationStep { phase: SimulationPhase::Connect, ..s }, SimulationAction::SendPrunes),
        SimulationPhase::Connect => (SimulationStep { phase: SimulationPhase::Rotate, ..s }, SimulationAction::PruneConnections),
        SimulationPhase::Rotate => if s.iteration >= s.warm_up_rounds {
            (SimulationStep { phase: SimulationPhase::Record, ..s }, SimulationAction::RotateActiveSets)
        } else {
            (
                SimulationStep { phase: SimulationPhase::RoundStart, iteration: (s.iteration + 1) as usize, ..s },
                SimulationAction::RotateActiveSets,
            )
        },
        SimulationPhase::Record => if s.reporting {
            (SimulationStep { phase: SimulationPhase::Report, ..s }, SimulationAction::RecordRoundStats)
        } else {
            (
                SimulationStep { phase: SimulationPhase::RoundStart, iteration: (s.iteration + 1) as usize, ..s },
                SimulationAction::RecordRoundStats,
            )
        },
        SimulationPhase::Report => (
            SimulationStep { phase: SimulationPhase::RoundStart, iteration: (s.iteration + 1) as usize, ..s },
            SimulationAction::EmitRoundPoints((s.iteration - s.warm_up_rounds) as usize),
        ),
        SimulationPhase::Summary => if s.reporting {
            (SimulationStep { phase: SimulationPhase::Done, ..s }, SimulationAction::EmitSummaryPoints)
        } else {
            (SimulationStep { phase: SimulationPhase::Done, ..s }, SimulationAction::Finish)
        },
        SimulationPhase::Done => (s, SimulationAction::Finish),
    }
}

/// The state is one a simulation can be in: past the start of a round only while
/// rounds are left, and recording or reporting only past the warm-up rounds.
pub open spec fn step_wf(s: SimulationStep) -> bool {
    &&& s.iteration <= s.gossip_iterations
    &&& (s.phase != SimulationPhase::RoundStart && s.phase != SimulationPhase::Summary && s.phase
        != SimulationPhase::Done) ==> s.iteration < s.gossip_iterations
    &&& (s.phase == SimulationPhase::Record || s.phase == SimulationPhase::Report) ==> s.iteration >= s.warm_up_rounds
}

/// How many steps are left at most before the simulation is done.
pub open spec fn steps_left(s: SimulationStep) -> nat {
    let rounds_left = (s.gossip_iterations - s.iteration) as nat;
    let in_round: nat = match s.phase {
        SimulationPhase::RoundStart => 11,
        SimulationPhase::Spread => 10,
        SimulationPhase::Consume => 9,
        SimulationPhase::Prune => 8,
        SimulationPhase::Connect => 7,
        SimulationPhase::Rotate => 6,
        SimulationPhase::Record => 5,
        SimulationPhase::Report => 4,
        SimulationPhase::Summary => 2,
        SimulationPhase::Done => 0,
    };
    rounds_left * 11 + in_round
}

impl SimulationStep {
    /// A simulation of `gossip_iterations` rounds, the first `warm_up_rounds` of them
    /// not measured, that has not started.
    pub fn new(gossip_iterations: usize, warm_up_rounds: usize, reporting: bool) -> (s: Self)
        ensures
            s == (SimulationStep {
                iteration: 0,
                gossip_iterations,
                warm_up_rounds,
                reporting,
                phase: SimulationPhase::RoundStart,
            }),
            step_wf(s),
    {
        SimulationStep { iteration: 0, gossip_iterations, warm_up_rounds, reporting, phase: SimulationPhase::RoundStart }
    }

    /// Moves the simulation on by one step and says what is to be done in it.
    pub fn next(&mut self) -> (a: SimulationAction)
        requires
            step_wf(*old(self)),
        ensures
            (*final(self), a) == next_of(*old(self)),
            step_wf(*final(self)),
    {
        match self.phase {
            SimulationPhase::RoundStart => {
                if self.iteration >= self.gossip_iterations {
                    if self.gossip_iterations > self.warm_up_rounds {
                        self.phase = SimulationPhase::Summary;
                        SimulationAction::RunCalculations
                    } else {
                        self.phase = SimulationPhase::Done;
                        SimulationAction::Finish
                    }
                } else if self.reporting && self.iteration % 10 == 0 {
                    self.phase = SimulationPhase::Spread;
                    SimulationAction::EmitConfigPoint
                } else {
                    self.phase = SimulationPhase::Consume;
                    SimulationAction::SpreadMessage
                }
            },
            SimulationPhase::Spread => {
                self.phase = SimulationPhase::Consume;
                SimulationAction::SpreadMessage
            },
            SimulationPhase::Consume => {
                self.phase = SimulationPhase::Prune;
                SimulationAction::ConsumeMessages
            },
            SimulationPhase::Prune => {
                self.phase = SimulationPhase::Connect;
                SimulationAction::SendPrunes
            },
            SimulationPhase::Connect => {
                self.phase = SimulationPhase::Rotate;
                SimulationAction::PruneConnections
            },
            SimulationPhase::Rotate => {
                if self.iteration >= self.warm_up_rounds {
                    self.phase = SimulationPhase::Record;
                } else {
                    self.phase = SimulationPhase::RoundStart;
                    self.iteration = self.iteration + 1;
                }
                SimulationAction::RotateActiveSets
            },
            SimulationPhase::Record => {
                if self.reporting {
                    self.phase = SimulationPhase::Report;
                } else {
                    self.phase = SimulationPhase::RoundStart;
                    self.iteration = self.iteration + 1;
                }
                SimulationAction::RecordRoundStats
            },
            SimulationPhase::Report => {
                let measured = self.iteration - self.warm_up_rounds;
                self.phase = SimulationPhase::RoundStart;
                self.iteration = self.iteration + 1;
                SimulationAction::EmitRoundPoints(measured)
            },
            SimulationPhase::Summary => {
                self.phase = SimulationPhase::Done;
                if self.reporting {
                    SimulationAction::EmitSummaryPoints
                } else {
                    SimulationAction::Finish
                }
            },
            SimulationPhase::Done => SimulationAction::Finish,
        }
    }

    /// Whether the simulation is over.
    pub fn is_done(&self) -> (b: bool)
        ensures
            b == (self.phase == SimulationPhase::Done),
    {
        self.phase == SimulationPhase::Done
    }
}

/// A simulation always finishes: each step before the end brings it closer to it.
pub proof fn lemma_simulation_finishes(s: SimulationStep)
    requires
        step_wf(s),
        s.phase != SimulationPhase::Done,
    ensures
        step_wf(next_of(s).0),
        steps_left(next_of(s).0) < steps_left(s),
{
}

/// Each round does its work in one order: once the message has spread, the receivers
/// consume it, the prunes are sent and applied and the active sets rotate; past the
/// warm-up rounds the round's statistics are then recorded, and during them the next
/// round starts at once.
pub proof fn lemma_round_order(s: SimulationStep)
    requires
        step_wf(s),
        s.phase == SimulationPhase::Consume,
    ensures
        ({
            let s1 = next_of(s).0;
            let s2 = next_of(s1).0;
            let s3 = next_of(s2).0;
            let s4 = next_of(s3).0;
            &&& next_of(s).1 == SimulationAction::ConsumeMessages
            &&& next_of(s1).1 == SimulationAction::SendPrunes
            &&& next_of(s2).1 == SimulationAction::PruneConnections
            &&& next_of(s3).1 == SimulationAction::RotateActiveSets
            &&& s.iteration >= s.warm_up_rounds ==> next_of(s4).1 == SimulationAction::RecordRoundStats
                && next_of(s4).0.iteration == (if s.reporting { s.iteration } else { (s.iteration + 1) as usize })
            &&& s.iteration < s.warm_up_rounds ==> s4.phase == SimulationPhase::RoundStart && s4.iteration == s.iteration + 1
        }),
{
}

/// Statistics are recorded and reported only for rounds past the warm-up rounds, and
/// a reported round is numbered from the end of the warm-up.
pub proof fn lemma_measured_after_warm_up(s: SimulationStep)
    requires
        step_wf(s),
    ensures
        next_of(s).1 == SimulationAction::RecordRoundStats ==> s.iteration >= s.warm_up_rounds,
        next_of(s).1 matches SimulationAction::EmitRoundPoints(k) ==> s.iteration >= s.warm_up_rounds && k == s.iteration
            - s.warm_up_rounds,
{
}

/// A round starts with the spread of the message, and the settings are reported
/// first exactly on every tenth round when data points are reported.
pub proof fn lemma_round_start(s: SimulationStep)
    requires
        step_wf(s),
        s.phase == SimulationPhase::RoundStart,
        s.iteration < s.gossip_iterations,
    ensures
        next_of(s).1 == (if config_due(s.reporting, s.iteration) {
            SimulationAction::EmitConfigPoint
        } else {
            SimulationAction::SpreadMessage
        }),
        config_due(s.reporting, s.iteration) ==> next_of(next_of(s).0).1 == SimulationAction::SpreadMessage,
        next_of(s).0.iteration == s.iteration,
{
}

/// The summary is made once, after the last round, exactly when some round was
/// measured.
pub proof fn lemma_summary_after_rounds(s: SimulationStep)
    requires
        step_wf(s),
        s.phase == SimulationPhase::RoundStart,
        s.iteration >= s.gossip_iterations,
    ensures
        next_of(s).1 == (if s.gossip_iterations > s.warm_up_rounds {
            SimulationAction::RunCalculations
        } else {
            SimulationAction::Finish
        }),
        next_of(next_of(s).0).0.phase == SimulationPhase::Done,
{
}

/// The whole-number settings of one simulation that a sweep can change.
#[derive(Clone, Copy, Debug, PartialEq, Eq, Structural)]
pub struct SimSettings {
    pub active_set_size: usize,
    pub push_fanout: usize,
    pub min_ingress_nodes: usize,
    pub origin_rank: usize,
}

/// The settings of simulation `i` of a sweep of kind `test_type` from `base`: the
/// active set size, the push fanout or the least number of ingress nodes grows by
/// `step` per simulation, and a larger push fanout raises the active set size with
/// it; a sweep over origin ranks takes the `i`th rank. Other kinds change none of
/// these settings.
pub open spec fn settings_of(test_type: Testing, base: SimSettings, step: usize, i: usize, origin_ranks: Seq<usize>) -> SimSettings {
    match test_type {
        Testing::ActiveSetSize => SimSettings { active_set_size: (base.active_set_size + i * step) as usize, ..base },
        Testing::PushFanout => {
            let fanout = (base.push_fanout + i * step) as usize;
            SimSettings {
                push_fanout: fanout,
                active_set_size: if fanout > base.active_set_size {
                    fanout
                } else {
                    base.active_set_size
                },
                ..base
            }
        },
        Testing::MinIngressNodes => SimSettings { min_ingress_nodes: (base.min_ingress_nodes + i * step) as usize, ..base },
        Testing::OriginRank => SimSettings { origin_rank: origin_ranks[i as int], ..base },
        _ => base,
    }
}

/// The sweep's next value of a setting does not overflow.
pub open spec fn sweep_fits(test_type: Testing, base: SimSettings, step: usize, i: usize, n_ranks: nat) -> bool {
    &&& test_type == Testing::ActiveSetSize ==> base.active_set_size + i * step <= usize::MAX
    &&& test_type == Testing::PushFanout ==> base.push_fanout + i * step <= usize::MAX
    &&& test_type == Testing::MinIngressNodes ==> base.min_ingress_nodes + i * step <= usize::MAX
    &&& test_type == Testing::OriginRank ==> i < n_ranks
}

/// The settings of simulation `i` of a sweep of kind `test_type` (see `settings_of`).
pub fn simulation_settings(test_type: Testing, base: SimSettings, step: usize, i: usize, origin_ranks: &Vec<usize>) -> (s: SimSettings)
    requires
        sweep_fits(test_type, base, step, i, origin_ranks@.len()),
    ensures
        s == settings_of(test_type, base, step, i, origin_ranks@),
{
    match test_type {
        Testing::ActiveSetSize => {
            assert(i * step <= usize::MAX);
            SimSettings { active_set_size: base.active_set_size + i * step, ..base }
        },
        Testing::PushFanout => {
            assert(i * step <= usize::MAX);
            let fanout = base.push_fanout + i * step;
            let active_set_size = if fanout > base.active_set_size {
                fanout
            } else {
                base.active_set_size
            };
            SimSettings { push_fanout: fanout, active_set_size, ..base }
        },
        Testing::MinIngressNodes => {
            assert(i * step <= usize::MAX);
            SimSettings { min_ingress_nodes: base.min_ingress_nodes + i * step, ..base }
        },
        Testing::OriginRank => SimSettings { origin_rank: origin_ranks[i], ..base },
        _ => base,
    }
}

/// Why the origin ranks given do not fit the sweep.
#[derive(Clone, Copy, Debug, PartialEq, Eq, Structural)]
pub enum SweepError {
    /// A sweep over origin ranks has fewer ranks than simulations.
    NotEnoughOriginRanks,
    /// Another kind of sweep was given more than one origin rank.
    MultipleOriginRanks,
}

/// Checks the number of origin ranks against the sweep: a sweep over origin ranks
/// needs one per simulation, any other kind at most one. On success, whether to warn
/// that a sweep over origin ranks leaves some ranks unused.
pub fn check_origin_ranks(test_type: Testing, n_ranks: usize, num_simulations: usize) -> (r: Result<bool, SweepError>)
    ensures
        r == (if test_type == Testing::OriginRank {
            if n_ranks < num_simulations {
                Err::<bool, SweepError>(SweepError::NotEnoughOriginRanks)
            } else {
                Ok::<bool, SweepError>(n_ranks > num_simulations)
            }
        } else if n_ranks > 1 {
            Err::<bool, SweepError>(SweepError::MultipleOriginRanks)
        } else {
            Ok::<bool, SweepError>(false)
        }),
{
    match test_type {
        Testing::OriginRank => {
            if n_ranks < num_simulations {
                Err(SweepError::NotEnoughOriginRanks)
            } else {
                Ok(n_ranks > num_simulations)
            }
        },
        _ => {
            if n_ranks > 1 {
                Err(SweepError::MultipleOriginRanks)
            } else {
                Ok(false)
            }
        },
    }
}

} // verus!
