//! What one node knows: for each proposal, who is known to have voted for it.

use crate::quorum::{has_quorum, is_quorum};
use crate::sets::{absorb, lemma_voters_finite};
use std::collections::{BTreeMap, BTreeSet};
use vstd::prelude::*;
use vstd::std_specs::iter::IteratorSpec;

verus! {

/// Voters that a node is about to learn of, by proposal.
pub type VoteDiff = BTreeMap<usize, BTreeSet<usize>>;

/// What is known of one proposal.
#[derive(Debug)]
pub struct VoteInfo {
    /// All nodes known to have voted for the proposal.
    pub voters: BTreeSet<usize>,
}

impl VoteInfo {
    /// A record with no voters.
    pub fn new() -> (info: Self)
        ensures
            info.voters@ == Set::<usize>::empty(),
    {
        VoteInfo { voters: BTreeSet::new() }
    }
}

/// The voters of each proposal, as a diff carries them.
pub open spec fn diff_view(diff: VoteDiff) -> Map<usize, Set<usize>> {
    Map::new(|p: usize| diff@.contains_key(p), |p: usize| diff@[p]@)
}

/// The voters of each proposal, as a node records them.
pub open spec fn votes_view(votes: Map<usize, VoteInfo>) -> Map<usize, Set<usize>> {
    Map::new(|p: usize| votes.contains_key(p), |p: usize| votes[p].voters@)
}

/// The voters recorded for `p`; none where `p` is unknown.
pub open spec fn voters_in(votes: Map<usize, Set<usize>>, p: usize) -> Set<usize> {
    if votes.contains_key(p) {
        votes[p]
    } else {
        Set::empty()
    }
}

/// The union of two records, proposal by proposal.
pub open spec fn merge_votes(known: Map<usize, Set<usize>>, diff: Map<usize, Set<usize>>) -> Map<
    usize,
    Set<usize>,
> {
    Map::new(
        |p: usize| known.contains_key(p) || diff.contains_key(p),
        |p: usize| voters_in(known, p).union(voters_in(diff, p)),
    )
}

/// Whether every voter set of `votes` is finite.
pub open spec fn all_finite(votes: Map<usize, Set<usize>>) -> bool {
    forall|p: usize| votes.contains_key(p) ==> (#[trigger] votes[p]).finite()
}

/// A node as the contracts see it.
#[verifier::ext_equal]
pub struct NodeView {
    pub id: usize,
    pub num_nodes: usize,
    pub votes: Map<usize, Set<usize>>,
}

impl NodeView {
    /// The voters that the node knows of for `p`.
    pub open spec fn voters(self, p: usize) -> Set<usize> {
        voters_in(self.votes, p)
    }

    /// Whether the node's own vote for `p` is recorded.
    pub open spec fn has_voted_for(self, p: usize) -> bool {
        self.voters(p).contains(self.id)
    }

    /// Whether the node knows of a strict majority of voters for `p`.
    pub open spec fn has_quorum_for(self, p: usize) -> bool {
        self.votes.contains_key(p) && is_quorum(self.votes[p].len() as int, self.num_nodes as int)
    }

    /// The node after `voter` is recorded for `p`.
    pub open spec fn with_voter(self, p: usize, voter: usize) -> NodeView {
        NodeView { votes: self.votes.insert(p, self.voters(p).insert(voter)), ..self }
    }

    /// The node after `diff` is merged into its record.
    pub open spec fn with_diff(self, diff: Map<usize, Set<usize>>) -> NodeView {
        NodeView { votes: merge_votes(self.votes, diff), ..self }
    }
}

impl Clone for VoteInfo {
    fn clone(&self) -> (copy: Self)
        ensures
            copy.voters@ == self.voters@,
    {
        VoteInfo { voters: self.voters.clone() }
    }
}

impl Default for VoteInfo {
    fn default() -> (info: Self)
        ensures
            info.voters@ == Set::<usize>::empty(),
    {
        VoteInfo::new()
    }
}

/// Merging an empty diff changes nothing.
pub proof fn lemma_apply_empty_diff(node: NodeView)
    ensures
        node.with_diff(Map::empty()) == node,
{
    let merged = merge_votes(node.votes, Map::empty());
    assert forall|p: usize| merged.contains_key(p) implies #[trigger] merged[p] =~= node.votes[p] by {}
    assert(merged =~= node.votes);
}

/// Merging a diff a second time changes nothing.
pub proof fn lemma_apply_diff_idempotent(node: NodeView, diff: Map<usize, Set<usize>>)
    ensures
        node.with_diff(diff).with_diff(diff) == node.with_diff(diff),
{
    let once = merge_votes(node.votes, diff);
    let twice = merge_votes(once, diff);
    assert forall|p: usize| twice.contains_key(p) implies #[trigger] twice[p] =~= once[p] by {}
    assert(twice =~= once);
}

/// Two diffs may be merged in either order.
pub proof fn lemma_apply_diff_commutes(
    node: NodeView,
    first: Map<usize, Set<usize>>,
    second: Map<usize, Set<usize>>,
)
    ensures
        node.with_diff(first).with_diff(second) == node.with_diff(second).with_diff(first),
{
    let one_way = merge_votes(merge_votes(node.votes, first), second);
    let other_way = merge_votes(merge_votes(node.votes, second), first);
    assert forall|p: usize| one_way.contains_key(p) implies #[trigger] one_way[p]
        =~= other_way[p] by {}
    assert(one_way =~= other_way);
}

/// A merge removes no voter and forgets no proposal, so a quorum once known
/// stays known.
pub proof fn lemma_apply_diff_grows(node: NodeView, diff: Map<usize, Set<usize>>, p: usize)
    requires
        all_finite(node.votes),
        all_finite(diff),
    ensures
        node.voters(p).subset_of(node.with_diff(diff).voters(p)),
        node.voters(p).len() <= node.with_diff(diff).voters(p).len(),
        node.votes.contains_key(p) ==> node.with_diff(diff).votes.contains_key(p),
        node.has_quorum_for(p) ==> node.with_diff(diff).has_quorum_for(p),
        all_finite(node.with_diff(diff).votes),
{
    let after = node.with_diff(diff);
    assert(voters_in(node.votes, p).finite());
    assert(voters_in(diff, p).finite());
    vstd::set_lib::lemma_len_subset(node.voters(p), after.voters(p));
    assert forall|q: usize| after.votes.contains_key(q) implies (#[trigger] after.votes[q]).finite() by {
        assert(voters_in(node.votes, q).finite());
        assert(voters_in(diff, q).finite());
    }
}

/// Adds `voter` to the voters of `vote_id`, which becomes known if it was not.
fn record_voter(votes: &mut BTreeMap<usize, VoteInfo>, vote_id: usize, voter: usize)
    ensures
        votes_view(final(votes)@) == votes_view(old(votes)@).insert(
            vote_id,
            voters_in(votes_view(old(votes)@), vote_id).insert(voter),
        ),
{
    let mut info = match votes.remove(&vote_id) {
        Some(info) => info,
        None => VoteInfo::new(),
    };
    info.voters.insert(voter);
    votes.insert(vote_id, info);
    assert(votes_view(votes@) =~= votes_view(old(votes)@).insert(
        vote_id,
        voters_in(votes_view(old(votes)@), vote_id).insert(voter),
    ));
}

/// Adds the voters of `source` to those of `vote_id`, which becomes known if
/// it was not.
fn record_voters(votes: &mut BTreeMap<usize, VoteInfo>, vote_id: usize, source: &BTreeSet<usize>)
    ensures
        votes_view(final(votes)@) == votes_view(old(votes)@).insert(
            vote_id,
            voters_in(votes_view(old(votes)@), vote_id).union(source@),
        ),
{
    let mut info = match votes.remove(&vote_id) {
        Some(info) => info,
        None => VoteInfo::new(),
    };
    absorb(&mut info.voters, source);
    votes.insert(vote_id, info);
    assert(votes_view(votes@) =~= votes_view(old(votes)@).insert(
        vote_id,
        voters_in(votes_view(old(votes)@), vote_id).union(source@),
    ));
}

/// Merges `diff` into `votes`.
fn merge_into(votes: &mut BTreeMap<usize, VoteInfo>, diff: &VoteDiff)
    ensures
        votes_view(final(votes)@) == merge_votes(votes_view(old(votes)@), diff_view(*diff)),
{
    let ghost before = votes_view(votes@);
    let ghost incoming = diff_view(*diff);
    let ghost entries = diff.iter().remaining();
    for entry in it: diff.iter()
        invariant
            it.seq() == entries,
            entries == diff.iter().remaining(),
            before == votes_view(old(votes)@),
            incoming == diff_view(*diff),
            forall|p: usize| #[trigger]
                votes_view(votes@).contains_key(p) ==> before.contains_key(p)
                    || incoming.contains_key(p),
            forall|p: usize| #[trigger]
                before.contains_key(p) ==> votes_view(votes@).contains_key(p),
            forall|p: usize| #[trigger]
                votes_view(votes@).contains_key(p) ==> voters_in(before, p).subset_of(
                    votes_view(votes@)[p],
                ) && votes_view(votes@)[p].subset_of(
                    voters_in(before, p).union(voters_in(incoming, p)),
                ),
            forall|j: int|
                0 <= j < it.index() ==> votes_view(votes@).contains_key(*(#[trigger] entries[j]).0)
                    && entries[j].1@.subset_of(votes_view(votes@)[*entries[j].0]),
    {
        let (vote_id, voters) = entry;
        proof {
            assert(entry == entries[it.index()]);
            assert(diff@.contains_key(*entries[it.index()].0));
            assert(incoming[*vote_id] == voters@);
        }
        record_voters(votes, *vote_id, voters);
    }
    proof {
        let merged = merge_votes(before, incoming);
        assert forall|p: usize| incoming.contains_key(p) implies votes_view(votes@).contains_key(p)
            && incoming[p].subset_of(votes_view(votes@)[p]) by {
            assert(diff@.contains_key(p));
            assert(entries.contains((&p, &diff@[p])));
            let j = choose|j: int| 0 <= j < entries.len() && entries[j] == (&p, &diff@[p]);
            assert(*entries[j].0 == p);
        }
        assert forall|p: usize| merged.contains_key(p) implies votes_view(votes@).contains_key(p)
            && votes_view(votes@)[p] =~= merged[p] by {}
        assert(votes_view(votes@) =~= merged);
    }
}

/// One member of the population.
#[derive(Debug)]
pub struct Node {
    /// This node's id.
    id: usize,
    /// The size of the population.
    num_nodes: usize,
    /// The voters known for each proposal.
    votes: BTreeMap<usize, VoteInfo>,
}

impl View for Node {
    type V = NodeView;

    closed spec fn view(&self) -> NodeView {
        NodeView { id: self.id, num_nodes: self.num_nodes, votes: votes_view(self.votes@) }
    }
}

impl Clone for Node {
    fn clone(&self) -> (copy: Self)
        ensures
            copy@ == self@,
    {
        proof {
            use_type_invariant(self);
        }
        Node { id: self.id, num_nodes: self.num_nodes, votes: self.votes.clone() }
    }
}

impl Node {
    #[verifier::type_invariant]
    spec fn in_population(self) -> bool {
        self.id < self.num_nodes
    }

    /// A node that knows of no vote.
    pub fn new(id: usize, num_nodes: usize) -> (node: Self)
        requires
            id < num_nodes,
        ensures
            node@ == (NodeView { id, num_nodes, votes: Map::empty() }),
    {
        let node = Node { id, num_nodes, votes: BTreeMap::new() };
        assert(node@.votes =~= Map::empty());
        node
    }

    /// This node's id.
    pub fn id(&self) -> (id: usize)
        ensures
            id == self@.id,
            id < self@.num_nodes,
    {
        proof {
            use_type_invariant(self);
        }
        self.id
    }

    /// The size of the population.
    pub fn num_nodes(&self) -> (n: usize)
        ensures
            n == self@.num_nodes,
            n >= 1,
    {
        proof {
            use_type_invariant(self);
        }
        self.num_nodes
    }

    /// The record itself.
    pub fn votes(&self) -> (votes: &BTreeMap<usize, VoteInfo>)
        ensures
            votes_view(votes@) == self@.votes,
    {
        &self.votes
    }

    /// Every voter set of a node is finite.
    pub proof fn lemma_finite(&self)
        ensures
            all_finite(self@.votes),
    {
        assert forall|p: usize| self@.votes.contains_key(p) implies (#[trigger] self@.votes[p]).finite() by {
            lemma_voters_finite(&self.votes@[p].voters);
        }
    }

    /// Records this node's own vote for `vote_id`.
    pub fn vote_for(&mut self, vote_id: usize)
        ensures
            final(self)@ == old(self)@.with_voter(vote_id, old(self)@.id),
    {
        proof {
            use_type_invariant(&*self);
        }
        let our_id = self.id;
        // The record is taken out, changed and put back; the id and the
        // size of the population stay as they are.
        let mut votes = BTreeMap::new();
        std::mem::swap(&mut self.votes, &mut votes);
        record_voter(&mut votes, vote_id, our_id);
        self.votes = votes;
    }

    /// Merges `diff` into the record: each proposal's new voters join those
    /// already known.
    pub fn apply_diff(&mut self, diff: VoteDiff)
        ensures
            final(self)@ == old(self)@.with_diff(diff_view(diff)),
    {
        proof {
            use_type_invariant(&*self);
        }
        let mut votes = BTreeMap::new();
        std::mem::swap(&mut self.votes, &mut votes);
        merge_into(&mut votes, &diff);
        self.votes = votes;
    }

    /// Whether this node's own vote for `vote_id` is recorded.
    pub fn has_voted_for(&self, vote_id: usize) -> (voted: bool)
        ensures
            voted == self@.has_voted_for(vote_id),
    {
        match self.votes.get(&vote_id) {
            Some(info) => info.voters.contains(&self.id),
            None => false,
        }
    }

    /// Whether this node knows of a quorum for `vote_id`.
    pub fn has_quorum_for(&self, vote_id: usize) -> (held: bool)
        ensures
            held == self@.has_quorum_for(vote_id),
    {
        proof {
            use_type_invariant(self);
        }
        match self.votes.get(&vote_id) {
            Some(info) => {
                proof {
                    lemma_voters_finite(&info.voters);
                }
                has_quorum(info.voters.len(), self.num_nodes)
            },
            None => false,
        }
    }

    /// How many voters this node knows of for `vote_id`.
    pub fn voter_count(&self, vote_id: usize) -> (count: usize)
        ensures
            count == self@.voters(vote_id).len(),
            self@.voters(vote_id).finite(),
    {
        match self.votes.get(&vote_id) {
            Some(info) => {
                proof {
                    lemma_voters_finite(&info.voters);
                }
                info.voters.len()
            },
            None => 0,
        }
    }
}

} // verus!
