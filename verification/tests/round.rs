use gossip::node::{Node, VoteDiff};
use gossip::round::{activate_voters, commit, exchange};
use gossip::stats::{all_have_quorum, total_votes_held};
use std::collections::{BTreeMap, BTreeSet};

fn ids(items: &[usize]) -> BTreeSet<usize> {
    items.iter().cloned().collect()
}

fn news(entries: &[(usize, &[usize])]) -> VoteDiff {
    let mut diff: VoteDiff = BTreeMap::new();
    for (proposal, voters) in entries {
        diff.insert(*proposal, ids(voters));
    }
    diff
}

fn population(n: usize) -> Vec<Node> {
    (0..n).map(|id| Node::new(id, n)).collect()
}

fn voters_known(nodes: &[Node], proposal: usize) -> Vec<Vec<usize>> {
    nodes
        .iter()
        .map(|node| match node.votes().get(&proposal) {
            Some(info) => info.voters.iter().cloned().collect(),
            None => vec![],
        })
        .collect()
}

fn voted(nodes: &[Node], proposal: usize) -> Vec<bool> {
    nodes.iter().map(|node| node.has_voted_for(proposal)).collect()
}

#[test]
fn activation_takes_the_first_nodes() {
    let mut nodes = population(5);
    activate_voters(&mut nodes, 0, 2);
    assert_eq!(voted(&nodes, 0), vec![true, true, false, false, false]);
    assert_eq!(voters_known(&nodes, 0), vec![vec![0], vec![1], vec![], vec![], vec![]]);
}

#[test]
fn activation_goes_on_where_the_last_one_stopped() {
    let mut nodes = population(5);
    activate_voters(&mut nodes, 0, 2);
    activate_voters(&mut nodes, 0, 2);
    assert_eq!(voted(&nodes, 0), vec![true, true, true, true, false]);
}

#[test]
fn activation_skips_nodes_that_have_voted() {
    let mut nodes = population(5);
    nodes[0].vote_for(0);
    nodes[2].vote_for(0);
    activate_voters(&mut nodes, 0, 2);
    assert_eq!(voted(&nodes, 0), vec![true, true, true, true, false]);
}

#[test]
fn activation_of_more_voters_than_are_left() {
    let mut nodes = population(3);
    nodes[1].vote_for(0);
    activate_voters(&mut nodes, 0, 7);
    assert_eq!(voted(&nodes, 0), vec![true, true, true]);
}

#[test]
fn activation_of_nobody() {
    let mut nodes = population(3);
    activate_voters(&mut nodes, 0, 0);
    assert_eq!(voted(&nodes, 0), vec![false, false, false]);
    assert!(nodes.iter().all(|node| node.votes().is_empty()));
}

#[test]
fn activation_is_by_proposal() {
    let mut nodes = population(3);
    nodes[0].vote_for(1);
    activate_voters(&mut nodes, 0, 1);
    assert_eq!(voted(&nodes, 0), vec![true, false, false]);
    assert_eq!(voted(&nodes, 1), vec![true, false, false]);
}

#[test]
fn activation_does_not_count_votes_known_of_others() {
    let mut nodes = population(3);
    nodes[0].apply_diff(news(&[(0, &[1, 2])]));
    activate_voters(&mut nodes, 0, 1);
    assert_eq!(voted(&nodes, 0), vec![true, false, false]);
    assert_eq!(voters_known(&nodes, 0)[0], vec![0, 1, 2]);
}

#[test]
fn exchange_buffers_both_directions_of_each_contact() {
    let mut nodes = population(3);
    activate_voters(&mut nodes, 0, 3);
    let (updates, exchanges) = exchange(&nodes, &vec![1, 2, 0]);
    let mut expected: BTreeMap<usize, VoteDiff> = BTreeMap::new();
    expected.insert(0, news(&[(0, &[1, 2])]));
    expected.insert(1, news(&[(0, &[0, 2])]));
    expected.insert(2, news(&[(0, &[0, 1])]));
    assert_eq!(updates, expected);
    assert_eq!(exchanges, 6);
    assert_eq!(voters_known(&nodes, 0), vec![vec![0], vec![1], vec![2]]);
}

#[test]
fn exchange_counts_only_the_pushes_with_news() {
    let mut nodes = population(4);
    activate_voters(&mut nodes, 0, 1);
    let (updates, exchanges) = exchange(&nodes, &vec![1, 0, 0, 0]);
    let mut expected: BTreeMap<usize, VoteDiff> = BTreeMap::new();
    expected.insert(1, news(&[(0, &[0])]));
    expected.insert(2, news(&[(0, &[0])]));
    expected.insert(3, news(&[(0, &[0])]));
    assert_eq!(updates, expected);
    assert_eq!(exchanges, 4);
}

#[test]
fn exchange_among_nodes_that_know_nothing() {
    let nodes = population(4);
    let (updates, exchanges) = exchange(&nodes, &vec![1, 2, 3, 0]);
    assert!(updates.is_empty());
    assert_eq!(exchanges, 0);
}

#[test]
fn exchange_goes_by_what_was_known_before_the_round() {
    let mut nodes = population(3);
    nodes[0].vote_for(0);
    // Node 1 meets node 0 and learns of its vote; node 2 meets node 1, which
    // knew nothing before the round, and learns nothing.
    let (updates, exchanges) = exchange(&nodes, &vec![1, 0, 1]);
    let mut expected: BTreeMap<usize, VoteDiff> = BTreeMap::new();
    expected.insert(1, news(&[(0, &[0])]));
    assert_eq!(updates, expected);
    assert_eq!(exchanges, 2);
}

#[test]
fn exchange_sends_nothing_to_a_node_with_quorum() {
    let mut nodes = population(3);
    nodes[0].apply_diff(news(&[(0, &[0, 1])]));
    nodes[1].apply_diff(news(&[(0, &[1, 2])]));
    nodes[2].apply_diff(news(&[(0, &[2])]));
    let (updates, exchanges) = exchange(&nodes, &vec![1, 0, 0]);
    let mut expected: BTreeMap<usize, VoteDiff> = BTreeMap::new();
    expected.insert(2, news(&[(0, &[0, 1])]));
    assert_eq!(updates, expected);
    assert_eq!(exchanges, 1);
}

#[test]
fn exchange_of_an_empty_population() {
    let nodes = population(0);
    let (updates, exchanges) = exchange(&nodes, &vec![]);
    assert!(updates.is_empty());
    assert_eq!(exchanges, 0);
}

#[test]
fn commit_merges_each_diff_into_its_node() {
    let mut nodes = population(3);
    nodes[1].vote_for(0);
    let mut updates: BTreeMap<usize, VoteDiff> = BTreeMap::new();
    updates.insert(0, news(&[(0, &[1, 2])]));
    updates.insert(1, news(&[(0, &[2])]));
    commit(&mut nodes, updates);
    assert_eq!(voters_known(&nodes, 0), vec![vec![1, 2], vec![1, 2], vec![]]);
}

#[test]
fn commit_of_nothing() {
    let mut nodes = population(2);
    nodes[1].vote_for(0);
    commit(&mut nodes, BTreeMap::new());
    assert_eq!(voters_known(&nodes, 0), vec![vec![], vec![1]]);
}

#[test]
fn a_round_is_exchange_then_commit() {
    let mut nodes = population(4);
    activate_voters(&mut nodes, 0, 3);
    let (updates, exchanges) = exchange(&nodes, &vec![3, 0, 1, 2]);
    commit(&mut nodes, updates);
    // Contacts: 0-3, 1-0, 2-1, 3-2. Node 3 has no vote of its own to push.
    assert_eq!(
        voters_known(&nodes, 0),
        vec![vec![0, 1], vec![0, 1, 2], vec![1, 2], vec![0, 2]]
    );
    assert_eq!(exchanges, 6);
}

#[test]
fn all_have_quorum_needs_every_node() {
    let mut nodes = population(3);
    assert!(!all_have_quorum(&nodes, 0));
    nodes[0].apply_diff(news(&[(0, &[0, 1])]));
    nodes[1].apply_diff(news(&[(0, &[0, 1])]));
    assert!(!all_have_quorum(&nodes, 0));
    nodes[2].apply_diff(news(&[(0, &[1, 2])]));
    assert!(all_have_quorum(&nodes, 0));
    assert!(!all_have_quorum(&nodes, 1));
}

#[test]
fn all_have_quorum_of_nobody() {
    assert!(all_have_quorum(&population(0), 0));
}

#[test]
fn total_votes_held_adds_up_the_voter_counts() {
    let mut nodes = population(4);
    assert_eq!(total_votes_held(&nodes, 0), 0);
    nodes[0].apply_diff(news(&[(0, &[0, 1, 2])]));
    nodes[1].apply_diff(news(&[(0, &[1])]));
    nodes[3].apply_diff(news(&[(0, &[0, 3]), (1, &[2])]));
    assert_eq!(total_votes_held(&nodes, 0), 6);
    assert_eq!(total_votes_held(&nodes, 1), 1);
    assert_eq!(total_votes_held(&nodes, 2), 0);
}
