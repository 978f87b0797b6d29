//! The exchange between two nodes: what each learns from the other.

use crate::node::{diff_view, merge_votes, Node, NodeView, VoteDiff};
use crate::sets::{absorb, missing_from};
use std::collections::{BTreeMap, BTreeSet};
use vstd::prelude::*;
use vstd::std_specs::iter::IteratorSpec;

verus! {

/// The voters for `p` that `sender` has to tell `receiver`: those that the
/// sender knows and the receiver does not, unless the receiver already knows
/// of a quorum for `p`.
pub open spec fn push_voters(sender: NodeView, receiver: NodeView, p: usize) -> Set<usize> {
    if sender.votes.contains_key(p) && !receiver.has_quorum_for(p) {
        sender.votes[p].difference(receiver.voters(p))
    } else {
        Set::empty()
    }
}

/// Everything that `sender` has to tell `receiver`, with an entry for each
/// proposal on which there is news.
pub open spec fn push_diff(sender: NodeView, receiver: NodeView) -> Map<usize, Set<usize>> {
    Map::new(
        |p: usize| !push_voters(sender, receiver, p).is_empty(),
        |p: usize| push_voters(sender, receiver, p),
    )
}

/// Whether `sent` is what a push from `sender` to `receiver` yields: the whole
/// news, or nothing where there is none.
pub open spec fn is_push(sent: Option<VoteDiff>, sender: NodeView, receiver: NodeView) -> bool {
    match sent {
        Some(diff) => diff_view(diff) == push_diff(sender, receiver) && !push_diff(
            sender,
            receiver,
        ).is_empty(),
        None => push_diff(sender, receiver).is_empty(),
    }
}

/// The diffs buffered for each node.
pub open spec fn updates_view(updates: BTreeMap<usize, VoteDiff>) -> Map<
    usize,
    Map<usize, Set<usize>>,
> {
    Map::new(|t: usize| updates@.contains_key(t), |t: usize| diff_view(updates@[t]))
}

/// What is buffered for `node`; nothing where it has no entry.
pub open spec fn pending_for(updates: Map<usize, Map<usize, Set<usize>>>, node: usize) -> Map<
    usize,
    Set<usize>,
> {
    if updates.contains_key(node) {
        updates[node]
    } else {
        Map::empty()
    }
}

/// The gossip that `n1` sends to `n2`.
///
/// No entry is made for a proposal on which `n2` already knows of a quorum,
/// nor for one on which `n1` knows nothing new.
pub fn compute_push_gossip(n1: &Node, n2: &Node) -> (sent: Option<VoteDiff>)
    ensures
        is_push(sent, n1@, n2@),
        sent matches Some(diff) ==> forall|p: usize| #[trigger]
            diff@.contains_key(p) ==> !n2@.has_quorum_for(p),
{
    let ghost sender = n1@;
    let ghost receiver = n2@;
    let mut diff: VoteDiff = BTreeMap::new();
    let votes = n1.votes();
    let held = n2.votes();
    let ghost entries = votes.iter().remaining();
    for entry in it: votes.iter()
        invariant
            it.seq() == entries,
            entries == votes.iter().remaining(),
            sender == n1@,
            receiver == n2@,
            crate::node::votes_view(votes@) == sender.votes,
            crate::node::votes_view(held@) == receiver.votes,
            forall|p: usize| #[trigger]
                diff@.contains_key(p) ==> push_diff(sender, receiver).contains_key(p) && diff@[p]@
                    == push_voters(sender, receiver, p),
            forall|j: int|
                0 <= j < it.index() && push_diff(sender, receiver).contains_key(
                    *(#[trigger] entries[j]).0,
                ) ==> diff@.contains_key(*entries[j].0),
    {
        let (vote_id, info) = entry;
        proof {
            assert(entry == entries[it.index()]);
            assert(votes@.contains_key(*entries[it.index()].0));
            assert(sender.votes.contains_key(*vote_id));
            assert(sender.votes[*vote_id] == info.voters@);
        }
        if !n2.has_quorum_for(*vote_id) {
            let new_voters = match held.get(vote_id) {
                Some(existing) => {
                    assert(receiver.votes.contains_key(*vote_id));
                    assert(receiver.votes[*vote_id] == existing.voters@);
                    missing_from(&info.voters, &existing.voters)
                },
                None => {
                    assert(!receiver.votes.contains_key(*vote_id));
                    assert(info.voters@.difference(Set::empty()) =~= info.voters@);
                    info.voters.clone()
                },
            };
            if !new_voters.is_empty() {
                diff.insert(*vote_id, new_voters);
            }
        }
    }
    proof {
        let news = push_diff(sender, receiver);
        assert forall|p: usize| news.contains_key(p) implies diff@.contains_key(p) by {
            assert(sender.votes.contains_key(p));
            assert(votes@.contains_key(p));
            assert(entries.contains((&p, &votes@[p])));
            let j = choose|j: int| 0 <= j < entries.len() && entries[j] == (&p, &votes@[p]);
            assert(*entries[j].0 == p);
        }
        assert(diff_view(diff) =~= news);
        assert(diff@.dom() =~= news.dom());
    }
    if !diff.is_empty() {
        Some(diff)
    } else {
        None
    }
}

/// One contact between `n1` and `n2`: first what `n2` sends to `n1`, then what
/// `n1` sends to `n2`. Each is computed on what the two know before the
/// contact.
pub fn compute_push_pull_gossip(n1: &Node, n2: &Node) -> (sent: (
    Option<VoteDiff>,
    Option<VoteDiff>,
))
    ensures
        is_push(sent.0, n2@, n1@),
        is_push(sent.1, n1@, n2@),
{
    (compute_push_gossip(n2, n1), compute_push_gossip(n1, n2))
}

/// Adds the voters of `source` to those that `pending` holds for `vote_id`.
fn buffer_voters(pending: &mut VoteDiff, vote_id: usize, source: &BTreeSet<usize>)
    ensures
        diff_view(*final(pending)) == diff_view(*old(pending)).insert(
            vote_id,
            crate::node::voters_in(diff_view(*old(pending)), vote_id).union(source@),
        ),
{
    let mut voters = match pending.remove(&vote_id) {
        Some(voters) => voters,
        None => BTreeSet::new(),
    };
    absorb(&mut voters, source);
    pending.insert(vote_id, voters);
    assert(diff_view(*pending) =~= diff_view(*old(pending)).insert(
        vote_id,
        crate::node::voters_in(diff_view(*old(pending)), vote_id).union(source@),
    ));
}

/// Merges `diff` into `pending`.
fn merge_diff(pending: &mut VoteDiff, diff: &VoteDiff)
    ensures
        diff_view(*final(pending)) == merge_votes(diff_view(*old(pending)), diff_view(*diff)),
{
    let ghost before = diff_view(*pending);
    let ghost incoming = diff_view(*diff);
    let ghost entries = diff.iter().remaining();
    for entry in it: diff.iter()
        invariant
            it.seq() == entries,
            entries == diff.iter().remaining(),
            before == diff_view(*old(pending)),
            incoming == diff_view(*diff),
            forall|p: usize| #[trigger]
                diff_view(*pending).contains_key(p) ==> before.contains_key(p)
                    || incoming.contains_key(p),
            forall|p: usize| #[trigger]
                before.contains_key(p) ==> diff_view(*pending).contains_key(p),
            forall|p: usize| #[trigger]
                diff_view(*pending).contains_key(p) ==> crate::node::voters_in(before, p).subset_of(
                    diff_view(*pending)[p],
                ) && diff_view(*pending)[p].subset_of(
                    crate::node::voters_in(before, p).union(crate::node::voters_in(incoming, p)),
                ),
            forall|j: int|
                0 <= j < it.index() ==> diff_view(*pending).contains_key(
                    *(#[trigger] entries[j]).0,
                ) && entries[j].1@.subset_of(diff_view(*pending)[*entries[j].0]),
    {
        let (vote_id, voters) = entry;
        proof {
            assert(entry == entries[it.index()]);
            assert(diff@.contains_key(*entries[it.index()].0));
            assert(incoming[*vote_id] == voters@);
        }
        buffer_voters(pending, *vote_id, voters);
    }
    proof {
        let merged = merge_votes(before, incoming);
        assert forall|p: usize| incoming.contains_key(p) implies diff_view(*pending).contains_key(
            p,
        ) && incoming[p].subset_of(diff_view(*pending)[p]) by {
            assert(diff@.contains_key(p));
            assert(entries.contains((&p, &diff@[p])));
            let j = choose|j: int| 0 <= j < entries.len() && entries[j] == (&p, &diff@[p]);
            assert(*entries[j].0 == p);
        }
        assert forall|p: usize| merged.contains_key(p) implies diff_view(*pending).contains_key(p)
            && diff_view(*pending)[p] =~= merged[p] by {}
        assert(diff_view(*pending) =~= merged);
    }
}

/// Buffers `diff` for `node`, merged with what is already buffered for it.
pub fn add_updates(updates: &mut BTreeMap<usize, VoteDiff>, node: usize, diff: VoteDiff)
    ensures
        updates_view(*final(updates)) == updates_view(*old(updates)).insert(
            node,
            merge_votes(pending_for(updates_view(*old(updates)), node), diff_view(diff)),
        ),
{
    let mut pending = match updates.remove(&node) {
        Some(pending) => pending,
        None => BTreeMap::new(),
    };
    assert(diff_view(pending) =~= pending_for(updates_view(*old(updates)), node));
    merge_diff(&mut pending, &diff);
    updates.insert(node, pending);
    assert(updates_view(*updates) =~= updates_view(*old(updates)).insert(
        node,
        merge_votes(pending_for(updates_view(*old(updates)), node), diff_view(diff)),
    ));
}

} // verus!
