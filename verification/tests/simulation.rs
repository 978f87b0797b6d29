use gossip::node::Node;
use gossip::params::{ParamFault, Params};
use gossip::partner::choose_partners;
use gossip::simulation::{
    run_simulation, run_simulation_within, Simulation, SimulationError, SimulationResult, PROPOSAL,
};
use rand::{SeedableRng, XorShiftRng};

fn generator(seed: u32) -> XorShiftRng {
    XorShiftRng::from_seed([seed, 0x1234_5678, 0x9abc_def0, 7])
}

fn start(n: usize, k: usize, voting_steps: usize) -> Simulation {
    Simulation::new(&Params { n, k, voting_steps }).unwrap()
}

fn known_voters(nodes: &[Node]) -> Vec<Vec<usize>> {
    nodes
        .iter()
        .map(|node| match node.votes().get(&PROPOSAL) {
            Some(info) => info.voters.iter().cloned().collect(),
            None => vec![],
        })
        .collect()
}

fn counts(nodes: &[Node]) -> Vec<usize> {
    nodes.iter().map(|node| node.voter_count(PROPOSAL)).collect()
}

#[test]
fn the_proposal_is_number_zero() {
    assert_eq!(PROPOSAL, 0);
}

#[test]
fn new_simulation_has_n_nodes_that_know_nothing() {
    let sim = start(5, 3, 2);
    assert_eq!(sim.params(), Params { n: 5, k: 3, voting_steps: 2 });
    assert_eq!(sim.num_iterations(), 0);
    assert_eq!(sim.num_exchanges(), 0);
    assert_eq!(sim.nodes().len(), 5);
    for (id, node) in sim.nodes().iter().enumerate() {
        assert_eq!(node.id(), id);
        assert_eq!(node.num_nodes(), 5);
        assert!(node.votes().is_empty());
    }
    assert!(!sim.is_converged());
}

#[test]
fn new_simulation_rejects_each_fault() {
    let faults = [
        (Params { n: 3, k: 3, voting_steps: 0 }, ParamFault::ZeroVotingSteps),
        (Params { n: 3, k: 0, voting_steps: 1 }, ParamFault::NoVoters),
        (Params { n: 3, k: 4, voting_steps: 1 }, ParamFault::TooManyVoters),
        (Params { n: 1, k: 1, voting_steps: 1 }, ParamFault::PopulationTooSmall),
        (Params { n: 5, k: 1, voting_steps: 1 }, ParamFault::QuorumOutOfReach),
    ];
    for (params, fault) in faults.iter() {
        match Simulation::new(params) {
            Err(why) => assert_eq!(why, SimulationError::InvalidParameter(*fault)),
            Ok(_) => panic!("accepted {:?}", params),
        }
    }
}

#[test]
fn step_with_three_voters_among_three_nodes() {
    let mut sim = start(3, 3, 1);
    assert_eq!(sim.step(&vec![1, 2, 0]), Ok(()));
    assert_eq!(known_voters(sim.nodes()), vec![vec![0, 1, 2], vec![0, 1, 2], vec![0, 1, 2]]);
    assert_eq!(sim.num_iterations(), 1);
    assert_eq!(sim.num_exchanges(), 6);
    assert!(sim.is_converged());
    assert_eq!(
        sim.result(),
        SimulationResult {
            n: 3,
            k: 3,
            voting_steps: 1,
            num_iterations: 1,
            num_exchanges: 6,
            total_votes_held: 9,
        }
    );
}

#[test]
fn step_where_two_nodes_choose_each_other() {
    let mut sim = start(3, 3, 1);
    assert_eq!(sim.step(&vec![1, 0, 0]), Ok(()));
    assert_eq!(known_voters(sim.nodes()), vec![vec![0, 1, 2], vec![0, 1], vec![0, 2]]);
    assert_eq!(sim.num_exchanges(), 6);
    assert!(sim.is_converged());
    assert_eq!(sim.result().total_votes_held, 7);
}

#[test]
fn steps_follow_the_schedule() {
    let mut sim = start(4, 3, 3);
    assert_eq!(sim.step(&vec![1, 0, 0, 0]), Ok(()));
    assert_eq!(known_voters(sim.nodes()), vec![vec![0], vec![0], vec![0], vec![0]]);
    assert_eq!(sim.num_exchanges(), 4);
    assert!(sim.nodes()[0].has_voted_for(PROPOSAL));
    assert!(!sim.nodes()[1].has_voted_for(PROPOSAL));

    assert_eq!(sim.step(&vec![1, 2, 3, 0]), Ok(()));
    // Node 1 has voted. Contacts 0-1 and 1-2 spread its vote; contacts 2-3
    // and 3-0 are between nodes that know the same.
    assert_eq!(known_voters(sim.nodes()), vec![vec![0, 1], vec![0, 1], vec![0, 1], vec![0]]);
    assert_eq!(sim.num_exchanges(), 6);
    assert!(!sim.is_converged());

    assert_eq!(sim.step(&vec![2, 2, 3, 2]), Ok(()));
    // Node 2 has voted, and every contact is with it.
    assert_eq!(
        known_voters(sim.nodes()),
        vec![vec![0, 1, 2], vec![0, 1, 2], vec![0, 1, 2], vec![0, 1, 2]]
    );
    assert_eq!(sim.num_iterations(), 3);
    assert_eq!(sim.num_exchanges(), 10);
    assert!(sim.is_converged());
    assert_eq!(sim.result().total_votes_held, 12);
}

#[test]
fn steps_after_the_schedule_activate_nobody() {
    let mut sim = start(5, 3, 1);
    assert_eq!(sim.step(&vec![1, 0, 3, 2, 3]), Ok(()));
    assert_eq!(
        known_voters(sim.nodes()),
        vec![vec![0, 1], vec![0, 1], vec![2], vec![2], vec![]]
    );
    assert_eq!(sim.num_exchanges(), 6);
    assert_eq!(sim.step(&vec![1, 0, 3, 2, 3]), Ok(()));
    assert_eq!(
        known_voters(sim.nodes()),
        vec![vec![0, 1], vec![0, 1], vec![2], vec![2], vec![2]]
    );
    assert_eq!(sim.num_exchanges(), 7);
    let voted: Vec<bool> = sim.nodes().iter().map(|node| node.has_voted_for(PROPOSAL)).collect();
    assert_eq!(voted, vec![true, true, true, false, false]);
}

#[test]
fn step_sends_nothing_to_nodes_with_quorum() {
    let mut sim = start(3, 3, 1);
    assert_eq!(sim.step(&vec![1, 0, 0]), Ok(()));
    assert_eq!(sim.step(&vec![1, 2, 1]), Ok(()));
    assert_eq!(known_voters(sim.nodes()), vec![vec![0, 1, 2], vec![0, 1], vec![0, 2]]);
    assert_eq!(sim.num_exchanges(), 6);
    assert_eq!(sim.num_iterations(), 2);
}

#[test]
fn voter_counts_never_fall_and_quorum_stays() {
    let mut rng = generator(21);
    let mut sim = start(30, 16, 4);
    let mut before = counts(sim.nodes());
    let mut had_quorum: Vec<bool> =
        sim.nodes().iter().map(|node| node.has_quorum_for(PROPOSAL)).collect();
    for _ in 0..40 {
        let partners = choose_partners(30, &mut rng).unwrap();
        assert_eq!(sim.step(&partners), Ok(()));
        let after = counts(sim.nodes());
        for id in 0..30 {
            assert!(before[id] <= after[id]);
            assert!(after[id] <= 16);
            let has_quorum = sim.nodes()[id].has_quorum_for(PROPOSAL);
            assert!(!had_quorum[id] || has_quorum);
            had_quorum[id] = has_quorum;
        }
        before = after;
    }
    assert!(sim.is_converged());
}

#[test]
fn run_stops_at_the_cap() {
    let mut rng = generator(22);
    let mut sim = start(3, 3, 1);
    assert_eq!(sim.run(&mut rng, 0), Err(SimulationError::DidNotConverge));
    assert_eq!(sim.num_iterations(), 0);
    assert!(!sim.is_converged());
}

#[test]
fn run_stops_at_the_cap_in_the_middle_of_the_schedule() {
    let mut rng = generator(23);
    let mut sim = start(9, 9, 5);
    assert_eq!(sim.run(&mut rng, 3), Err(SimulationError::DidNotConverge));
    assert_eq!(sim.num_iterations(), 3);
    let voted = sim.nodes().iter().filter(|node| node.has_voted_for(PROPOSAL)).count();
    assert_eq!(voted, 3);
    assert_eq!(sim.run(&mut rng, usize::MAX), Ok(()));
    assert!(sim.is_converged());
    assert!(sim.num_iterations() >= 5);
}

#[test]
fn run_of_a_converged_simulation_does_nothing() {
    let mut rng = generator(24);
    let mut sim = start(3, 3, 1);
    assert_eq!(sim.run(&mut rng, 10), Ok(()));
    let report = sim.result();
    assert_eq!(sim.run(&mut rng, 10), Ok(()));
    assert_eq!(sim.run(&mut rng, 0), Ok(()));
    assert_eq!(sim.result(), report);
}

#[test]
fn three_voters_among_three_nodes_converge_in_one_round() {
    for seed in 1..30 {
        let mut rng = generator(seed);
        let report = run_simulation(&Params { n: 3, k: 3, voting_steps: 1 }, &mut rng).unwrap();
        assert_eq!(report.n, 3);
        assert_eq!(report.k, 3);
        assert_eq!(report.voting_steps, 1);
        assert_eq!(report.num_iterations, 1);
        assert_eq!(report.num_exchanges, 6);
        assert!(report.total_votes_held >= 6);
        assert!(report.total_votes_held <= 9);
    }
}

#[test]
fn three_voters_among_three_nodes_all_hold_quorum_at_the_end() {
    let mut rng = generator(25);
    let mut sim = start(3, 3, 1);
    assert_eq!(sim.run(&mut rng, usize::MAX), Ok(()));
    assert!(sim.num_iterations() >= 1);
    for node in sim.nodes() {
        assert!(node.has_voted_for(PROPOSAL));
        assert!(node.has_quorum_for(PROPOSAL));
    }
}

#[test]
fn one_voter_among_five_nodes_is_rejected() {
    let mut rng = generator(26);
    assert_eq!(
        run_simulation(&Params { n: 5, k: 1, voting_steps: 1 }, &mut rng),
        Err(SimulationError::InvalidParameter(ParamFault::QuorumOutOfReach))
    );
}

#[test]
fn run_simulation_rejects_unusable_parameters() {
    let mut rng = generator(27);
    assert_eq!(
        run_simulation(&Params { n: 4, k: 3, voting_steps: 0 }, &mut rng),
        Err(SimulationError::InvalidParameter(ParamFault::ZeroVotingSteps))
    );
    assert_eq!(
        run_simulation(&Params { n: 4, k: 0, voting_steps: 2 }, &mut rng),
        Err(SimulationError::InvalidParameter(ParamFault::NoVoters))
    );
    assert_eq!(
        run_simulation(&Params { n: 4, k: 5, voting_steps: 2 }, &mut rng),
        Err(SimulationError::InvalidParameter(ParamFault::TooManyVoters))
    );
    assert_eq!(
        run_simulation(&Params { n: 1, k: 1, voting_steps: 2 }, &mut rng),
        Err(SimulationError::InvalidParameter(ParamFault::PopulationTooSmall))
    );
}

#[test]
fn run_simulation_within_no_round_does_not_converge() {
    let mut rng = generator(28);
    assert_eq!(
        run_simulation_within(&Params { n: 4, k: 3, voting_steps: 1 }, &mut rng, 0),
        Err(SimulationError::DidNotConverge)
    );
}

#[test]
fn run_simulation_within_fewer_rounds_than_the_schedule_has() {
    let mut rng = generator(29);
    assert_eq!(
        run_simulation_within(&Params { n: 10, k: 10, voting_steps: 10 }, &mut rng, 3),
        Err(SimulationError::DidNotConverge)
    );
}

#[test]
fn run_simulation_reports_within_its_bounds() {
    let mut rng = generator(30);
    let rows = [(10usize, 6usize, 1usize), (10, 10, 3), (25, 13, 5), (40, 40, 1), (7, 4, 9), (2, 2, 1)];
    for (n, k, voting_steps) in rows.iter().cloned() {
        let report = run_simulation(&Params { n, k, voting_steps }, &mut rng).unwrap();
        assert_eq!((report.n, report.k, report.voting_steps), (n, k, voting_steps));
        assert!(report.num_iterations >= 1);
        assert!(report.num_exchanges <= 2 * n * report.num_iterations);
        assert!(report.total_votes_held >= (n * (n / 2 + 1)) as u128);
        assert!(report.total_votes_held <= (n * k) as u128);
    }
}

#[test]
fn average_votes_held_lies_between_the_least_count_and_k() {
    let mut rng = generator(31);
    let mut sim = start(20, 12, 3);
    assert_eq!(sim.run(&mut rng, usize::MAX), Ok(()));
    let held = counts(sim.nodes());
    let least = *held.iter().min().unwrap();
    let report = sim.result();
    assert_eq!(report.total_votes_held, held.iter().sum::<usize>() as u128);
    let average = report.total_votes_held as f64 / report.n as f64;
    assert!(least as f64 <= average);
    assert!(average <= 12.0);
    if report.total_votes_held == 20 * 12 {
        assert!(held.iter().all(|count| *count == 12));
    }
    assert!(least > 10);
}

#[test]
fn average_votes_held_is_k_where_everybody_knows_every_voter() {
    let mut sim = start(3, 3, 1);
    assert_eq!(sim.step(&vec![1, 2, 0]), Ok(()));
    let report = sim.result();
    assert_eq!(report.total_votes_held as f64 / report.n as f64, 3.0);
}

#[test]
fn the_same_generator_gives_the_same_run() {
    let params = Params { n: 15, k: 9, voting_steps: 2 };
    let one = run_simulation(&params, &mut generator(32)).unwrap();
    let other = run_simulation(&params, &mut generator(32)).unwrap();
    assert_eq!(one, other);
}

#[test]
fn a_generator_runs_on_from_one_row_to_the_next() {
    let params = Params { n: 15, k: 9, voting_steps: 2 };
    let mut shared = generator(33);
    let first = run_simulation(&params, &mut shared).unwrap();
    let second = run_simulation(&params, &mut shared).unwrap();
    let mut fresh = generator(33);
    assert_eq!(run_simulation(&params, &mut fresh).unwrap(), first);
    let again = run_simulation(&params, &mut fresh).unwrap();
    assert_eq!(again, second);
}
