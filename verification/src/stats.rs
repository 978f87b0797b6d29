//! What is measured on a population: who knows of a quorum, and how many
//! votes the nodes hold together.

use crate::node::{all_finite, Node, NodeView};
use crate::round::views_of;
use vstd::prelude::*;

verus! {

/// How many voters for `p` the first `upto` nodes know of, added up.
pub open spec fn votes_held(nodes: Seq<NodeView>, p: usize, upto: int) -> int
    decreases upto,
{
    if upto <= 0 {
        0
    } else {
        votes_held(nodes, p, upto - 1) + nodes[upto - 1].voters(p).len()
    }
}

/// Whether every node knows of a quorum for `p`.
pub open spec fn all_know_quorum(nodes: Seq<NodeView>, p: usize) -> bool {
    forall|t: int| 0 <= t < nodes.len() ==> (#[trigger] nodes[t]).has_quorum_for(p)
}

/// Whether every node knows of at least `least` voters for `p`.
pub open spec fn all_hold_at_least(nodes: Seq<NodeView>, p: usize, least: int) -> bool {
    forall|t: int| 0 <= t < nodes.len() ==> least <= (#[trigger] nodes[t]).voters(p).len()
}

/// The sum of the voter counts lies between the number of nodes times the
/// least count and the number of nodes times the largest. It reaches the
/// upper bound only where every node has the largest count.
pub proof fn lemma_votes_held_bounds(
    nodes: Seq<NodeView>,
    p: usize,
    upto: int,
    least: int,
    most: int,
)
    requires
        0 <= upto <= nodes.len(),
        forall|t: int| 0 <= t < upto ==> least <= (#[trigger] nodes[t]).voters(p).len() <= most,
    ensures
        least * upto <= votes_held(nodes, p, upto) <= most * upto,
        votes_held(nodes, p, upto) == most * upto ==> forall|t: int|
            0 <= t < upto ==> (#[trigger] nodes[t]).voters(p).len() == most,
    decreases upto,
{
    if upto > 0 {
        lemma_votes_held_bounds(nodes, p, upto - 1, least, most);
        let count = nodes[upto - 1].voters(p).len() as int;
        assert(least <= count <= most);
        assert(least * upto == least * (upto - 1) + least && most * upto == most * (upto - 1)
            + most) by (nonlinear_arith);
    } else {
        assert(least * 0 == 0 && most * 0 == 0) by (nonlinear_arith);
    }
}

/// Whether every node knows of a quorum for `vote_id`.
pub fn all_have_quorum(nodes: &Vec<Node>, vote_id: usize) -> (all: bool)
    ensures
        all == all_know_quorum(views_of(nodes@), vote_id),
{
    let mut i: usize = 0;
    while i < nodes.len()
        invariant
            i <= nodes@.len(),
            forall|t: int| 0 <= t < i ==> (#[trigger] views_of(nodes@)[t]).has_quorum_for(vote_id),
        decreases nodes@.len() - i,
    {
        if !nodes[i].has_quorum_for(vote_id) {
            assert(!views_of(nodes@)[i as int].has_quorum_for(vote_id));
            return false;
        }
        i += 1;
    }
    true
}

/// How many voters for `vote_id` the nodes know of, added up over the nodes.
pub fn total_votes_held(nodes: &Vec<Node>, vote_id: usize) -> (total: u128)
    ensures
        total == votes_held(views_of(nodes@), vote_id, nodes@.len() as int),
        forall|t: int| 0 <= t < nodes@.len() ==> all_finite((#[trigger] views_of(nodes@)[t]).votes),
{
    let ghost views = views_of(nodes@);
    let mut total: u128 = 0;
    let mut i: usize = 0;
    while i < nodes.len()
        invariant
            views == views_of(nodes@),
            i <= nodes@.len(),
            total == votes_held(views, vote_id, i as int),
            total <= i * usize::MAX,
        decreases nodes@.len() - i,
    {
        let count = nodes[i].voter_count(vote_id);
        assert(count == views[i as int].voters(vote_id).len());
        assert((i + 1) * usize::MAX <= u128::MAX && i * usize::MAX + usize::MAX == (i + 1)
            * usize::MAX) by (nonlinear_arith)
            requires
                i < usize::MAX,
                usize::MAX <= 0xffff_ffff_ffff_ffff,
        ;
        total = total + count as u128;
        i += 1;
    }
    proof {
        assert forall|t: int| 0 <= t < nodes@.len() implies all_finite(
            (#[trigger] views_of(nodes@)[t]).votes,
        ) by {
            nodes@[t].lemma_finite();
        }
    }
    total
}

} // verus!
