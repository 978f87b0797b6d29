//! The engine: a population that votes by a schedule and gossips, round
//! after round, until every node knows of a quorum.

use crate::node::{all_finite, Node, NodeView};
use crate::params::{ParamFault, Params};
use crate::partner::choose_partners;
use crate::round::{
    abstainers_before, activate_voters, activated, after_gossip, commit, contact_gives, exchange,
    exchanges_in, gained, gained_voters, lemma_commit_round, lemma_exchanges_bound, round_updates,
    views_of,
};
use crate::schedule::{
    activated_before, activated_in, construct_voting_schedule, lemma_activated_before,
    schedule_map,
};
use crate::stats::{
    all_have_quorum, all_hold_at_least, all_know_quorum, lemma_votes_held_bounds,
    total_votes_held, votes_held,
};
use std::collections::BTreeMap;
use vstd::prelude::*;

verus! {

/// The one proposal that a run is about.
pub const PROPOSAL: usize = 0;

/// Why a run gave no result.
#[derive(Debug, Clone, Copy, PartialEq, Eq, Structural)]
pub enum SimulationError {
    /// The parameters are unusable.
    InvalidParameter(ParamFault),
    /// The run was given up before every node knew of a quorum: the cap on
    /// its rounds was reached, its exchange counter had no room for another
    /// round, or a node found no partner.
    DidNotConverge,
}

/// What a run that converged has to report.
#[derive(Debug, Clone, Copy, PartialEq, Eq, Structural)]
pub struct SimulationResult {
    /// The size of the population.
    pub n: usize,
    /// How many nodes were to vote.
    pub k: usize,
    /// Over how many rounds they were to vote.
    pub voting_steps: usize,
    /// How many rounds were run.
    pub num_iterations: usize,
    /// How many pushes carried news.
    pub num_exchanges: usize,
    /// How many voters the nodes knew of at the end, added up over the nodes.
    /// Divided by `n` it is the average number of votes that a node held.
    pub total_votes_held: u128,
}

/// Whether `nodes` are the `n` members of one population, in the order of
/// their ids.
pub open spec fn is_population(nodes: Seq<NodeView>, n: usize) -> bool {
    &&& nodes.len() == n
    &&& forall|t: int|
        0 <= t < nodes.len() ==> (#[trigger] nodes[t]).id == t && nodes[t].num_nodes == n
}

/// Whether `node` knows of nothing but the proposal, and for it only of
/// voters among the first `voters` nodes, where these are the nodes that have
/// voted.
pub open spec fn knows_only(node: NodeView, voters: int) -> bool {
    &&& forall|p: usize| #[trigger] node.votes.contains_key(p) ==> p == PROPOSAL
    &&& forall|v: usize| #[trigger] node.voters(PROPOSAL).contains(v) ==> v < voters
    &&& node.has_voted_for(PROPOSAL) <==> node.id < voters
}

/// Whether every node of `after` is the node of `before` in its place with
/// nothing forgotten: no proposal and no voter.
pub open spec fn grown_from(after: Seq<NodeView>, before: Seq<NodeView>) -> bool {
    &&& after.len() == before.len()
    &&& forall|t: int|
        0 <= t < before.len() ==> (#[trigger] after[t]).id == before[t].id && after[t].num_nodes
            == before[t].num_nodes
    &&& forall|t: int, p: usize|
        0 <= t < before.len() ==> (before[t].votes.contains_key(p) ==> after[t].votes.contains_key(
            p,
        )) && (#[trigger] before[t].voters(p)).subset_of(after[t].voters(p))
}

/// Whether no node of `after` knows of fewer voters for any proposal than the
/// node of `before` in its place, and every quorum known in `before` is known
/// in `after`.
pub open spec fn never_less(after: Seq<NodeView>, before: Seq<NodeView>) -> bool {
    &&& after.len() == before.len()
    &&& forall|t: int, p: usize|
        0 <= t < before.len() ==> (#[trigger] before[t].voters(p)).len() <= after[t].voters(p).len()
            && (before[t].has_quorum_for(p) ==> after[t].has_quorum_for(p))
}

/// A run as the contracts see it.
#[verifier::ext_equal]
pub struct SimulationView {
    pub params: Params,
    pub schedule: Map<usize, usize>,
    pub nodes: Seq<NodeView>,
    pub num_iterations: usize,
    pub num_exchanges: usize,
}

impl SimulationView {
    /// A run before its first round: nobody has voted, nothing is known.
    pub open spec fn start(params: Params) -> SimulationView {
        SimulationView {
            params,
            schedule: schedule_map(params.k, params.voting_steps),
            nodes: Seq::new(
                params.n as nat,
                |t: int| NodeView { id: t as usize, num_nodes: params.n, votes: Map::empty() },
            ),
            num_iterations: 0,
            num_exchanges: 0,
        }
    }

    /// How many nodes have voted so far.
    pub open spec fn voters(self) -> int {
        activated_before(self.schedule, self.num_iterations as int)
    }

    /// What holds of a run at all times.
    pub open spec fn wf(self) -> bool {
        &&& self.params.valid()
        &&& self.schedule == schedule_map(self.params.k, self.params.voting_steps)
        &&& is_population(self.nodes, self.params.n)
        &&& forall|t: int|
            0 <= t < self.nodes.len() ==> knows_only(#[trigger] self.nodes[t], self.voters())
        &&& forall|t: int| 0 <= t < self.nodes.len() ==> all_finite((#[trigger] self.nodes[t]).votes)
        &&& self.num_exchanges <= 2 * self.params.n * self.num_iterations
    }

    /// Whether every node knows of a quorum for the proposal.
    pub open spec fn converged(self) -> bool {
        all_know_quorum(self.nodes, PROPOSAL)
    }

    /// Whether a counter has no room for another round.
    pub open spec fn out_of_room(self) -> bool {
        self.num_iterations == usize::MAX || self.num_exchanges + 2 * self.params.n > usize::MAX
    }

    /// The nodes after this round's voters have voted.
    pub open spec fn voting(self) -> Seq<NodeView> {
        activated(self.nodes, PROPOSAL, activated_in(self.schedule, self.num_iterations as int))
    }

    /// The run after a round in which node `i` meets `partners[i]`.
    pub open spec fn after_round(self, partners: Seq<usize>) -> SimulationView {
        SimulationView {
            nodes: after_gossip(self.voting(), partners),
            num_iterations: (self.num_iterations + 1) as usize,
            num_exchanges: (self.num_exchanges + exchanges_in(
                self.voting(),
                partners,
                self.nodes.len() as int,
            )) as usize,
            ..self
        }
    }
}

/// There are `bound` numbers below `bound`.
proof fn lemma_below_len(bound: usize)
    ensures
        Set::new(|v: usize| v < bound).finite(),
        Set::new(|v: usize| v < bound).len() == bound,
    decreases bound,
{
    let below = Set::new(|v: usize| v < bound);
    if bound == 0 {
        assert(below =~= Set::empty());
    } else {
        let fewer = (bound - 1) as usize;
        lemma_below_len(fewer);
        assert(below =~= Set::new(|v: usize| v < fewer).insert(fewer));
    }
}

/// A node that knows only of voters among the first `voters` nodes knows of
/// no more than `voters` of them.
pub proof fn lemma_voter_count(node: NodeView, voters: int)
    requires
        knows_only(node, voters),
        0 <= voters <= usize::MAX,
    ensures
        node.voters(PROPOSAL).finite(),
        node.voters(PROPOSAL).len() <= voters,
{
    let bound = voters as usize;
    lemma_below_len(bound);
    vstd::set_lib::lemma_len_subset(node.voters(PROPOSAL), Set::new(|v: usize| v < bound));
}

/// Voter sets do not shrink and proposals are not forgotten, so a node that
/// knew of a quorum still knows of it.
pub proof fn lemma_growth_keeps_quorum(
    after: Seq<NodeView>,
    before: Seq<NodeView>,
    t: int,
    p: usize,
)
    requires
        grown_from(after, before),
        0 <= t < before.len(),
        all_finite(after[t].votes),
    ensures
        before[t].voters(p).len() <= after[t].voters(p).len(),
        before[t].has_quorum_for(p) ==> after[t].has_quorum_for(p),
{
    assert(before[t].voters(p).subset_of(after[t].voters(p)));
    if after[t].votes.contains_key(p) {
        assert(after[t].votes[p].finite());
        vstd::set_lib::lemma_len_subset(before[t].voters(p), after[t].voters(p));
    } else {
        assert(before[t].voters(p) =~= Set::empty());
    }
}

/// Every population has grown from itself.
pub proof fn lemma_growth_reflexive(nodes: Seq<NodeView>)
    ensures
        grown_from(nodes, nodes),
{
}

/// Where nothing is forgotten, no voter count falls and no quorum is lost.
pub proof fn lemma_growth_never_less(after: Seq<NodeView>, before: Seq<NodeView>)
    requires
        grown_from(after, before),
        forall|t: int| 0 <= t < after.len() ==> all_finite((#[trigger] after[t]).votes),
    ensures
        never_less(after, before),
{
    assert forall|t: int, p: usize| 0 <= t < before.len() implies (#[trigger] before[t].voters(
        p,
    )).len() <= after[t].voters(p).len() && (before[t].has_quorum_for(p)
        ==> after[t].has_quorum_for(p)) by {
        assert(all_finite(after[t].votes));
        lemma_growth_keeps_quorum(after, before, t, p);
    }
}

/// Growth carries over: what grew from what grew from `first` grew from
/// `first`.
pub proof fn lemma_growth_transitive(last: Seq<NodeView>, middle: Seq<NodeView>, first: Seq<NodeView>)
    requires
        grown_from(last, middle),
        grown_from(middle, first),
    ensures
        grown_from(last, first),
{
    assert forall|t: int, p: usize| 0 <= t < first.len() implies (#[trigger] first[t].voters(
        p,
    )).subset_of(last[t].voters(p)) by {
        assert(first[t].voters(p).subset_of(middle[t].voters(p)));
        assert(middle[t].voters(p).subset_of(last[t].voters(p)));
    }
    assert forall|t: int, p: usize|
        0 <= t < first.len() && #[trigger] first[t].votes.contains_key(
            p,
        ) implies last[t].votes.contains_key(p) by {
        assert(first[t].voters(p).subset_of(middle[t].voters(p)));
        assert(middle[t].votes.contains_key(p));
        assert(middle[t].voters(p).subset_of(last[t].voters(p)));
    }
    assert forall|t: int| 0 <= t < first.len() implies (#[trigger] last[t]).id == first[t].id
        && last[t].num_nodes == first[t].num_nodes by {
        assert(middle[t].id == first[t].id);
    }
}

/// Where the nodes that have voted are the first `voters`, the abstainers
/// among the first `upto` nodes are those from `voters` on.
proof fn lemma_abstainers_of_prefix(nodes: Seq<NodeView>, n: usize, voters: int, upto: int)
    requires
        is_population(nodes, n),
        0 <= voters,
        forall|t: int| 0 <= t < nodes.len() ==> knows_only(#[trigger] nodes[t], voters),
        0 <= upto <= n,
    ensures
        abstainers_before(nodes, PROPOSAL, upto) == if upto <= voters {
            0
        } else {
            upto - voters
        },
    decreases upto,
{
    if upto > 0 {
        lemma_abstainers_of_prefix(nodes, n, voters, upto - 1);
        assert(knows_only(nodes[upto - 1], voters));
    }
}

/// Activation keeps the order: after the next `num_voters` abstainers have
/// voted, the nodes that have voted are again the first ones.
proof fn lemma_activation_in_order(nodes: Seq<NodeView>, n: usize, voters: int, num_voters: int)
    requires
        is_population(nodes, n),
        0 <= voters,
        0 <= num_voters,
        forall|t: int| 0 <= t < nodes.len() ==> knows_only(#[trigger] nodes[t], voters),
    ensures
        is_population(activated(nodes, PROPOSAL, num_voters), n),
        forall|t: int|
            0 <= t < nodes.len() ==> knows_only(
                #[trigger] activated(nodes, PROPOSAL, num_voters)[t],
                voters + num_voters,
            ),
        grown_from(activated(nodes, PROPOSAL, num_voters), nodes),
{
    let voting = activated(nodes, PROPOSAL, num_voters);
    assert forall|t: int| 0 <= t < nodes.len() implies knows_only(
        #[trigger] voting[t],
        voters + num_voters,
    ) && voting[t].id == t && voting[t].num_nodes == n && (forall|p: usize|
        (nodes[t].votes.contains_key(p) ==> voting[t].votes.contains_key(p))
            && (#[trigger] nodes[t].voters(p)).subset_of(voting[t].voters(p))) by {
        lemma_abstainers_of_prefix(nodes, n, voters, t);
        assert(knows_only(nodes[t], voters));
        assert(nodes[t].id == t);
    }
}

/// Gossip keeps the order: nobody learns of a voter that has not voted, nor
/// of another proposal, and nobody's own vote appears or disappears.
proof fn lemma_gossip_in_order(nodes: Seq<NodeView>, n: usize, voters: int, partners: Seq<usize>)
    requires
        is_population(nodes, n),
        forall|t: int| 0 <= t < nodes.len() ==> knows_only(#[trigger] nodes[t], voters),
        partners.len() == n,
        forall|i: int| 0 <= i < partners.len() ==> (#[trigger] partners[i]) < n,
    ensures
        is_population(after_gossip(nodes, partners), n),
        forall|t: int|
            0 <= t < nodes.len() ==> knows_only(#[trigger] after_gossip(nodes, partners)[t], voters),
        grown_from(after_gossip(nodes, partners), nodes),
{
    let after = after_gossip(nodes, partners);
    assert forall|t: int| 0 <= t < nodes.len() implies knows_only(#[trigger] after[t], voters)
        && after[t].id == t && after[t].num_nodes == n && (forall|p: usize|
        (nodes[t].votes.contains_key(p) ==> after[t].votes.contains_key(p))
            && (#[trigger] nodes[t].voters(p)).subset_of(after[t].voters(p))) by {
        let news = gained(nodes, partners, n as int, t);
        assert(knows_only(nodes[t], voters));
        assert(nodes[t].id == t);
        assert forall|p: usize, v: usize|
            gained_voters(nodes, partners, n as int, t, p).contains(v) implies p == PROPOSAL && v
            < voters by {
            let i = choose|i: int|
                0 <= i < n && #[trigger] contact_gives(nodes, partners, i, t, p, v);
            assert(partners[i] < n);
            assert(knows_only(nodes[i], voters));
            assert(knows_only(nodes[partners[i] as int], voters));
            if i == t && crate::gossip::push_voters(nodes[partners[i] as int], nodes[i], p).contains(v) {
                assert(nodes[partners[i] as int].votes.contains_key(p));
                assert(nodes[partners[i] as int].voters(PROPOSAL).contains(v));
            } else {
                assert(nodes[i].votes.contains_key(p));
                assert(nodes[i].voters(PROPOSAL).contains(v));
            }
        }
        assert forall|p: usize| #[trigger] after[t].votes.contains_key(p) implies p == PROPOSAL by {
            if !nodes[t].votes.contains_key(p) {
                assert(news.contains_key(p));
                let told = gained_voters(nodes, partners, n as int, t, p);
                assert(!(told =~= Set::empty()));
                let v = choose|v: usize| told.contains(v);
                assert(told.contains(v));
            }
        }
        assert forall|v: usize| #[trigger] after[t].voters(PROPOSAL).contains(v) implies v
            < voters by {
            if !nodes[t].voters(PROPOSAL).contains(v) {
                assert(news.contains_key(PROPOSAL));
                assert(gained_voters(nodes, partners, n as int, t, PROPOSAL).contains(v));
            }
        }
    }
}

/// Only nodes of the population are told anything in a round.
proof fn lemma_round_targets(nodes: Seq<NodeView>, partners: Seq<usize>, t: usize)
    requires
        partners.len() == nodes.len(),
        forall|i: int| 0 <= i < partners.len() ==> (#[trigger] partners[i]) < nodes.len(),
        round_updates(nodes, partners, nodes.len() as int).contains_key(t),
    ensures
        t < nodes.len(),
{
    let news = gained(nodes, partners, nodes.len() as int, t as int);
    assert(!(news.dom() =~= Set::empty()));
    let p = choose|p: usize| news.dom().contains(p);
    assert(news.dom().contains(p));
    let told = gained_voters(nodes, partners, nodes.len() as int, t as int, p);
    assert(!(told =~= Set::empty()));
    let v = choose|v: usize| told.contains(v);
    assert(told.contains(v));
    let i = choose|i: int|
        0 <= i < nodes.len() && #[trigger] contact_gives(nodes, partners, i, t as int, p, v);
    assert(partners[i] < nodes.len());
}

/// A population on its way to a quorum.
#[derive(Debug)]
pub struct Simulation {
    params: Params,
    schedule: BTreeMap<usize, usize>,
    nodes: Vec<Node>,
    num_iterations: usize,
    num_exchanges: usize,
}

impl View for Simulation {
    type V = SimulationView;

    closed spec fn view(&self) -> SimulationView {
        SimulationView {
            params: self.params,
            schedule: self.schedule@,
            nodes: views_of(self.nodes@),
            num_iterations: self.num_iterations,
            num_exchanges: self.num_exchanges,
        }
    }
}

impl Simulation {
    /// Sets up a run: `n` nodes that know nothing, and the schedule by which
    /// `k` of them will vote.
    pub fn new(params: &Params) -> (made: Result<Simulation, SimulationError>)
        ensures
            made is Ok <==> params.valid(),
            made matches Ok(sim) ==> sim@ == SimulationView::start(*params) && sim@.wf(),
            made matches Err(why) ==> params.fault() matches Some(fault) && why
                == SimulationError::InvalidParameter(fault),
    {
        proof {
            params.lemma_valid_iff_faultless();
        }
        match params.validate() {
            Err(fault) => {
                return Err(SimulationError::InvalidParameter(fault));
            },
            Ok(()) => {},
        }
        let schedule = match construct_voting_schedule(params.k, params.voting_steps) {
            Ok(schedule) => schedule,
            Err(fault) => {
                return Err(SimulationError::InvalidParameter(fault));
            },
        };
        let n = params.n;
        let mut nodes: Vec<Node> = Vec::new();
        let mut id: usize = 0;
        while id < n
            invariant
                id <= n,
                nodes@.len() == id,
                forall|t: int|
                    0 <= t < id ==> (#[trigger] nodes@[t])@ == (NodeView {
                        id: t as usize,
                        num_nodes: n,
                        votes: Map::empty(),
                    }),
            decreases n - id,
        {
            nodes.push(Node::new(id, n));
            id += 1;
        }
        let sim = Simulation { params: *params, schedule, nodes, num_iterations: 0, num_exchanges: 0 };
        proof {
            assert(sim@.nodes =~= SimulationView::start(*params).nodes);
            assert(sim@ =~= SimulationView::start(*params));
            assert(sim@.voters() == 0);
        }
        Ok(sim)
    }

    /// The parameters of the run.
    pub fn params(&self) -> (params: Params)
        ensures
            params == self@.params,
    {
        self.params
    }

    /// The nodes, in the order of their ids.
    pub fn nodes(&self) -> (nodes: &Vec<Node>)
        ensures
            views_of(nodes@) == self@.nodes,
    {
        &self.nodes
    }

    /// How many rounds have been run.
    pub fn num_iterations(&self) -> (rounds: usize)
        ensures
            rounds == self@.num_iterations,
    {
        self.num_iterations
    }

    /// How many pushes have carried news.
    pub fn num_exchanges(&self) -> (exchanges: usize)
        ensures
            exchanges == self@.num_exchanges,
    {
        self.num_exchanges
    }

    /// Whether every node knows of a quorum for the proposal.
    pub fn is_converged(&self) -> (converged: bool)
        ensures
            converged == self@.converged(),
    {
        all_have_quorum(&self.nodes, PROPOSAL)
    }

    /// Runs one round, in which node `i` meets `partners[i]`: the voters that
    /// the schedule names for the round vote, every contact is computed on
    /// what the nodes then know, and all that was learned is committed.
    ///
    /// Nothing is changed where a counter has no room for the round.
    pub fn step(&mut self, partners: &Vec<usize>) -> (done: Result<(), SimulationError>)
        requires
            old(self)@.wf(),
            partners@.len() == old(self)@.params.n,
            forall|i: int| 0 <= i < partners@.len() ==> (#[trigger] partners@[i]) < old(self)@.params.n,
        ensures
            final(self)@.wf(),
            grown_from(final(self)@.nodes, old(self)@.nodes),
            never_less(final(self)@.nodes, old(self)@.nodes),
            done is Err <==> old(self)@.out_of_room(),
            done matches Err(why) ==> why == SimulationError::DidNotConverge && final(self)@
                == old(self)@,
            done is Ok ==> final(self)@ == old(self)@.after_round(partners@),
    {
        let n = self.params.n;
        if self.num_iterations == usize::MAX || n > usize::MAX / 2 || self.num_exchanges
            > usize::MAX - 2 * n {
            proof {
                lemma_growth_reflexive(self@.nodes);
                lemma_growth_never_less(self@.nodes, self@.nodes);
            }
            return Err(SimulationError::DidNotConverge);
        }
        let ghost before = self@;
        let ghost voters = before.voters();
        let ghost num_voters = activated_in(before.schedule, before.num_iterations as int);
        proof {
            lemma_activated_before(
                before.params.k,
                before.params.voting_steps,
                before.num_iterations as int,
            );
            lemma_activated_before(
                before.params.k,
                before.params.voting_steps,
                before.num_iterations as int + 1,
            );
            lemma_activation_in_order(before.nodes, n, voters, num_voters);
        }
        match self.schedule.get(&self.num_iterations) {
            Some(scheduled) => {
                activate_voters(&mut self.nodes, PROPOSAL, *scheduled);
            },
            None => {
                proof {
                    assert forall|t: int| 0 <= t < before.nodes.len() implies before.nodes[t]
                        == #[trigger] before.voting()[t] by {
                        crate::round::lemma_abstainers_monotone(before.nodes, PROPOSAL, 0, t);
                    }
                    assert(before.nodes =~= before.voting());
                }
            },
        }
        let ghost voting = before.voting();
        assert(views_of(self.nodes@) == voting);
        let (updates, exchanges) = exchange(&self.nodes, partners);
        proof {
            lemma_exchanges_bound(voting, partners@, n as int);
            lemma_commit_round(voting, partners@);
            lemma_gossip_in_order(voting, n, voters + num_voters, partners@);
            lemma_growth_transitive(after_gossip(voting, partners@), voting, before.nodes);
            assert forall|t: usize| #[trigger] updates@.contains_key(t) implies t < n by {
                assert(crate::gossip::updates_view(updates).contains_key(t));
                lemma_round_targets(voting, partners@, t);
            }
        }
        commit(&mut self.nodes, updates);
        self.num_exchanges += exchanges;
        self.num_iterations += 1;
        proof {
            assert(self@ =~= before.after_round(partners@));
            assert(self@.voters() == voters + num_voters);
            assert(2 * n * before.num_iterations + 2 * n == 2 * n * (before.num_iterations + 1))
                by (nonlinear_arith);
            assert forall|t: int| 0 <= t < self@.nodes.len() implies all_finite(
                (#[trigger] self@.nodes[t]).votes,
            ) by {
                self.nodes@[t].lemma_finite();
            }
            lemma_growth_never_less(self@.nodes, before.nodes);
        }
        Ok(())
    }

    /// Runs rounds until every node knows of a quorum, with partners drawn
    /// from `rng`, and gives up once `max_rounds` rounds have been run in all.
    pub fn run(&mut self, rng: &mut rand::XorShiftRng, max_rounds: usize) -> (done: Result<
        (),
        SimulationError,
    >)
        requires
            old(self)@.wf(),
        ensures
            final(self)@.wf(),
            final(self)@.params == old(self)@.params,
            grown_from(final(self)@.nodes, old(self)@.nodes),
            never_less(final(self)@.nodes, old(self)@.nodes),
            old(self)@.num_iterations <= final(self)@.num_iterations,
            old(self)@.num_iterations < final(self)@.num_iterations ==> final(self)@.num_iterations
                <= max_rounds,
            old(self)@.converged() ==> done is Ok && final(self)@ == old(self)@,
            !old(self)@.converged() && old(self)@.num_iterations >= max_rounds ==> done is Err
                && final(self)@ == old(self)@,
            done is Ok && !old(self)@.converged() ==> old(self)@.num_iterations
                < final(self)@.num_iterations,
            done is Ok ==> final(self)@.converged(),
            done matches Err(why) ==> why == SimulationError::DidNotConverge
                && !final(self)@.converged(),
    {
        let ghost start = self@;
        proof {
            lemma_growth_reflexive(start.nodes);
        }
        while !self.is_converged()
            invariant
                start == old(self)@,
                self@.wf(),
                self@.params == start.params,
                grown_from(self@.nodes, start.nodes),
                start.num_iterations <= self@.num_iterations,
                start.num_iterations < self@.num_iterations ==> self@.num_iterations <= max_rounds,
                self@.num_iterations == start.num_iterations ==> self@ == start,
                start.converged() ==> self@ == start,
            decreases max_rounds - self@.num_iterations,
        {
            if self.num_iterations >= max_rounds {
                proof {
                    lemma_growth_never_less(self@.nodes, start.nodes);
                }
                return Err(SimulationError::DidNotConverge);
            }
            let partners = match choose_partners(self.params.n, rng) {
                Some(partners) => partners,
                None => {
                    proof {
                        lemma_growth_never_less(self@.nodes, start.nodes);
                    }
                    return Err(SimulationError::DidNotConverge);
                },
            };
            let ghost before = self@;
            match self.step(&partners) {
                Ok(()) => {},
                Err(why) => {
                    proof {
                        lemma_growth_never_less(self@.nodes, start.nodes);
                    }
                    return Err(why);
                },
            }
            proof {
                lemma_growth_transitive(self@.nodes, before.nodes, start.nodes);
            }
        }
        proof {
            lemma_growth_never_less(self@.nodes, start.nodes);
        }
        Ok(())
    }

    /// The report on the run as it stands.
    ///
    /// The sum of the votes held lies between `n` times the least number of
    /// voters that a node knows of and `n` times `k`, and it is `n` times `k`
    /// only where every node knows all `k` voters.
    pub fn result(&self) -> (report: SimulationResult)
        requires
            self@.wf(),
        ensures
            report.n == self@.params.n,
            report.k == self@.params.k,
            report.voting_steps == self@.params.voting_steps,
            report.num_iterations == self@.num_iterations,
            report.num_exchanges == self@.num_exchanges,
            report.total_votes_held == votes_held(self@.nodes, PROPOSAL, self@.params.n as int),
            report.total_votes_held <= self@.params.n * self@.params.k,
            forall|least: int| #[trigger]
                all_hold_at_least(self@.nodes, PROPOSAL, least) ==> self@.params.n * least
                    <= report.total_votes_held,
            report.total_votes_held == self@.params.n * self@.params.k ==> forall|t: int|
                0 <= t < self@.nodes.len() ==> (#[trigger] self@.nodes[t]).voters(PROPOSAL).len()
                    == self@.params.k,
            self@.converged() ==> self@.params.n * (self@.params.n / 2 + 1)
                <= report.total_votes_held,
    {
        let total = total_votes_held(&self.nodes, PROPOSAL);
        proof {
            let view = self@;
            let n = view.params.n as int;
            let k = view.params.k as int;
            lemma_activated_before(view.params.k, view.params.voting_steps, view.num_iterations as int);
            assert forall|t: int| 0 <= t < n implies 0 <= (#[trigger] view.nodes[t]).voters(
                PROPOSAL,
            ).len() <= k by {
                lemma_voter_count(view.nodes[t], view.voters());
            }
            lemma_votes_held_bounds(view.nodes, PROPOSAL, n, 0, k);
            assert(k * n == n * k) by (nonlinear_arith);
            assert forall|least: int| #[trigger]
                all_hold_at_least(view.nodes, PROPOSAL, least) implies n * least <= total by {
                lemma_votes_held_bounds(view.nodes, PROPOSAL, n, least, k);
                assert(least * n == n * least) by (nonlinear_arith);
            }
            if view.converged() {
                let least = n / 2 + 1;
                assert forall|t: int| 0 <= t < view.nodes.len() implies least <= (
                #[trigger] view.nodes[t]).voters(PROPOSAL).len() by {
                    assert(view.nodes[t].has_quorum_for(PROPOSAL));
                }
                assert(all_hold_at_least(view.nodes, PROPOSAL, least));
            }
        }
        SimulationResult {
            n: self.params.n,
            k: self.params.k,
            voting_steps: self.params.voting_steps,
            num_iterations: self.num_iterations,
            num_exchanges: self.num_exchanges,
            total_votes_held: total,
        }
    }
}

/// Runs the simulation for `params` until every node knows of a quorum, and
/// reports on it. The run is given up after `max_rounds` rounds.
pub fn run_simulation_within(
    params: &Params,
    rng: &mut rand::XorShiftRng,
    max_rounds: usize,
) -> (outcome: Result<SimulationResult, SimulationError>)
    ensures
        params.fault() matches Some(fault) ==> outcome == Err::<SimulationResult, SimulationError>(
            SimulationError::InvalidParameter(fault),
        ),
        params.valid() && max_rounds == 0 ==> outcome == Err::<SimulationResult, SimulationError>(
            SimulationError::DidNotConverge,
        ),
        outcome matches Err(why) ==> why == SimulationError::DidNotConverge || (
        params.fault() matches Some(fault) && why == SimulationError::InvalidParameter(fault)),
        outcome matches Ok(report) ==> {
            &&& params.valid()
            &&& report.n == params.n
            &&& report.k == params.k
            &&& report.voting_steps == params.voting_steps
            &&& 1 <= report.num_iterations <= max_rounds
            &&& report.num_exchanges <= 2 * params.n * report.num_iterations
            &&& params.n * (params.n / 2 + 1) <= report.total_votes_held <= params.n * params.k
        },
{
    proof {
        params.lemma_valid_iff_faultless();
    }
    let mut sim = match Simulation::new(params) {
        Ok(sim) => sim,
        Err(why) => {
            return Err(why);
        },
    };
    proof {
        assert(!sim@.nodes[0].has_quorum_for(PROPOSAL));
    }
    match sim.run(rng, max_rounds) {
        Ok(()) => {},
        Err(why) => {
            return Err(why);
        },
    }
    Ok(sim.result())
}

/// Runs the simulation for `params` until every node knows of a quorum, and
/// reports on it. Rounds are run for as long as they can be counted.
pub fn run_simulation(params: &Params, rng: &mut rand::XorShiftRng) -> (outcome: Result<
    SimulationResult,
    SimulationError,
>)
    ensures
        params.fault() matches Some(fault) ==> outcome == Err::<SimulationResult, SimulationError>(
            SimulationError::InvalidParameter(fault),
        ),
        outcome matches Err(why) ==> why == SimulationError::DidNotConverge || (
        params.fault() matches Some(fault) && why == SimulationError::InvalidParameter(fault)),
        outcome matches Ok(report) ==> {
            &&& params.valid()
            &&& report.n == params.n
            &&& report.k == params.k
            &&& report.voting_steps == params.voting_steps
            &&& 1 <= report.num_iterations
            &&& report.num_exchanges <= 2 * params.n * report.num_iterations
            &&& params.n * (params.n / 2 + 1) <= report.total_votes_held <= params.n * params.k
        },
{
    run_simulation_within(params, rng, usize::MAX)
}

} // verus!
