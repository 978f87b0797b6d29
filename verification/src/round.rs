//! One round of a run: voters are activated, every node gossips with a
//! partner on what was known before the round, and what was learned is
//! committed to all nodes at once.

use crate::gossip::{
    add_updates, compute_push_pull_gossip, pending_for, push_diff, push_voters, updates_view,
};
use crate::node::{
    diff_view, lemma_apply_empty_diff, merge_votes, voters_in, Node, NodeView, VoteDiff,
};
use std::collections::BTreeMap;
use vstd::prelude::*;

verus! {

/// The nodes as the contracts see them.
pub open spec fn views_of(nodes: Seq<Node>) -> Seq<NodeView> {
    Seq::new(nodes.len(), |i: int| nodes[i]@)
}

/// How many of the first `upto` nodes have not voted for `p`.
pub open spec fn abstainers_before(nodes: Seq<NodeView>, p: usize, upto: int) -> int
    decreases upto,
{
    if upto <= 0 {
        0
    } else {
        abstainers_before(nodes, p, upto - 1) + if nodes[upto - 1].has_voted_for(p) {
            0int
        } else {
            1int
        }
    }
}

/// The nodes after the first `num_voters` of those that have not voted for
/// `p` cast their vote; all of them, where they are fewer.
pub open spec fn activated(nodes: Seq<NodeView>, p: usize, num_voters: int) -> Seq<NodeView> {
    Seq::new(
        nodes.len(),
        |i: int|
            if !nodes[i].has_voted_for(p) && abstainers_before(nodes, p, i) < num_voters {
                nodes[i].with_voter(p, nodes[i].id)
            } else {
                nodes[i]
            },
    )
}

/// Whether contact `i` of a round, in which node `i` meets `partners[i]`,
/// tells node `target` of voter `v` for `p`. Either of the two learns what the
/// other has to push.
pub open spec fn contact_gives(
    nodes: Seq<NodeView>,
    partners: Seq<usize>,
    i: int,
    target: int,
    p: usize,
    v: usize,
) -> bool {
    ||| i == target && push_voters(nodes[partners[i] as int], nodes[i], p).contains(v)
    ||| partners[i] == target && push_voters(nodes[i], nodes[partners[i] as int], p).contains(v)
}

/// The voters for `p` that node `target` is told of in the first `contacts`
/// contacts of a round.
pub open spec fn gained_voters(
    nodes: Seq<NodeView>,
    partners: Seq<usize>,
    contacts: int,
    target: int,
    p: usize,
) -> Set<usize> {
    Set::new(
        |v: usize|
            exists|i: int| 0 <= i < contacts && #[trigger] contact_gives(nodes, partners, i, target, p, v),
    )
}

/// All that node `target` is told in the first `contacts` contacts of a
/// round, with an entry for each proposal on which there is news.
pub open spec fn gained(nodes: Seq<NodeView>, partners: Seq<usize>, contacts: int, target: int) -> Map<
    usize,
    Set<usize>,
> {
    Map::new(
        |p: usize| !gained_voters(nodes, partners, contacts, target, p).is_empty(),
        |p: usize| gained_voters(nodes, partners, contacts, target, p),
    )
}

/// What the first `contacts` contacts of a round buffer, with an entry for
/// each node that is told anything.
pub open spec fn round_updates(nodes: Seq<NodeView>, partners: Seq<usize>, contacts: int) -> Map<
    usize,
    Map<usize, Set<usize>>,
> {
    Map::new(
        |t: usize| !gained(nodes, partners, contacts, t as int).is_empty(),
        |t: usize| gained(nodes, partners, contacts, t as int),
    )
}

/// How many pushes with news the first `contacts` contacts of a round make:
/// up to two for each contact.
pub open spec fn exchanges_in(nodes: Seq<NodeView>, partners: Seq<usize>, contacts: int) -> int
    decreases contacts,
{
    if contacts <= 0 {
        0
    } else {
        let i = contacts - 1;
        exchanges_in(nodes, partners, i) + if push_diff(nodes[partners[i] as int], nodes[i]).is_empty() {
            0int
        } else {
            1int
        } + if push_diff(nodes[i], nodes[partners[i] as int]).is_empty() {
            0int
        } else {
            1int
        }
    }
}

/// The nodes after each has merged what is buffered for it.
pub open spec fn committed(nodes: Seq<NodeView>, updates: Map<usize, Map<usize, Set<usize>>>) -> Seq<
    NodeView,
> {
    Seq::new(nodes.len(), |t: int| nodes[t].with_diff(pending_for(updates, t as usize)))
}

/// The nodes after a round of gossip in which node `i` meets `partners[i]`:
/// each has merged all that its contacts told it, and every contact went by
/// what was known before the round.
pub open spec fn after_gossip(nodes: Seq<NodeView>, partners: Seq<usize>) -> Seq<NodeView> {
    Seq::new(
        nodes.len(),
        |t: int| nodes[t].with_diff(gained(nodes, partners, nodes.len() as int, t)),
    )
}

/// The count of abstainers does not fall as more nodes are counted.
pub proof fn lemma_abstainers_monotone(nodes: Seq<NodeView>, p: usize, from: int, to: int)
    requires
        from <= to,
    ensures
        abstainers_before(nodes, p, from) <= abstainers_before(nodes, p, to),
        0 <= abstainers_before(nodes, p, from),
    decreases to - from,
{
    if from < to {
        lemma_abstainers_monotone(nodes, p, from, to - 1);
    } else {
        lemma_abstainers_nonnegative(nodes, p, from);
    }
}

proof fn lemma_abstainers_nonnegative(nodes: Seq<NodeView>, p: usize, upto: int)
    ensures
        0 <= abstainers_before(nodes, p, upto),
    decreases upto,
{
    if upto > 0 {
        lemma_abstainers_nonnegative(nodes, p, upto - 1);
    }
}

/// Has the first `num_voters` nodes that have not voted for `vote_id` cast
/// their vote, in the order of the nodes.
pub fn activate_voters(nodes: &mut Vec<Node>, vote_id: usize, num_voters: usize)
    ensures
        views_of(final(nodes)@) == activated(views_of(old(nodes)@), vote_id, num_voters as int),
{
    let ghost before = views_of(nodes@);
    let ghost goal = activated(before, vote_id, num_voters as int);
    let mut cast: usize = 0;
    let mut i: usize = 0;
    while i < nodes.len() && cast < num_voters
        invariant
            before == views_of(old(nodes)@),
            goal == activated(before, vote_id, num_voters as int),
            nodes@.len() == before.len(),
            i <= nodes@.len(),
            cast <= num_voters,
            cast == abstainers_before(before, vote_id, i as int),
            forall|j: int| 0 <= j < i ==> (#[trigger] nodes@[j])@ == goal[j],
            forall|j: int| i <= j < nodes@.len() ==> (#[trigger] nodes@[j])@ == before[j],
        decreases nodes@.len() - i,
    {
        assert(nodes@[i as int]@ == before[i as int]);
        if !nodes[i].has_voted_for(vote_id) {
            nodes[i].vote_for(vote_id);
            cast += 1;
        }
        i += 1;
    }
    proof {
        assert forall|j: int| i <= j < nodes@.len() implies (#[trigger] nodes@[j])@ == goal[j] by {
            lemma_abstainers_monotone(before, vote_id, i as int, j);
        }
        assert(views_of(nodes@) =~= goal);
    }
}

/// Whether no entry of `m` is an empty set.
spec fn tight(m: Map<usize, Set<usize>>) -> bool {
    forall|p: usize| m.contains_key(p) ==> !(#[trigger] voters_in(m, p)).is_empty()
}

/// The voters for `p` that `updates` holds for node `t`.
spec fn received(updates: Map<usize, Map<usize, Set<usize>>>, t: usize, p: usize) -> Set<usize> {
    voters_in(pending_for(updates, t), p)
}

/// Whether every entry of `updates` is tight and not empty.
spec fn tight_updates(updates: Map<usize, Map<usize, Set<usize>>>) -> bool {
    forall|t: usize|
        updates.contains_key(t) ==> tight(#[trigger] pending_for(updates, t)) && !pending_for(
            updates,
            t,
        ).is_empty()
}

/// `updates` after `news` is buffered for `target`.
spec fn with_news(
    updates: Map<usize, Map<usize, Set<usize>>>,
    target: usize,
    news: Map<usize, Set<usize>>,
) -> Map<usize, Map<usize, Set<usize>>> {
    if news.is_empty() {
        updates
    } else {
        updates.insert(target, merge_votes(pending_for(updates, target), news))
    }
}

proof fn lemma_tight_equal(a: Map<usize, Set<usize>>, b: Map<usize, Set<usize>>)
    requires
        tight(a),
        tight(b),
        forall|p: usize| #[trigger] voters_in(a, p) == voters_in(b, p),
    ensures
        a == b,
{
    assert forall|p: usize| a.contains_key(p) <==> b.contains_key(p) by {
        assert(voters_in(a, p) == voters_in(b, p));
    }
    assert forall|p: usize| a.contains_key(p) implies a[p] == b[p] by {
        assert(voters_in(a, p) == voters_in(b, p));
    }
    assert(a =~= b);
}

proof fn lemma_tight_updates_equal(
    x: Map<usize, Map<usize, Set<usize>>>,
    y: Map<usize, Map<usize, Set<usize>>>,
)
    requires
        tight_updates(x),
        tight_updates(y),
        forall|t: usize, p: usize| #[trigger] received(x, t, p) == received(y, t, p),
    ensures
        x == y,
{
    assert forall|t: usize| pending_for(x, t) == pending_for(y, t) by {
        let a = pending_for(x, t);
        let b = pending_for(y, t);
        assert(tight(a));
        assert(tight(b));
        assert forall|p: usize| #[trigger] voters_in(a, p) == voters_in(b, p) by {
            assert(received(x, t, p) == received(y, t, p));
        }
        lemma_tight_equal(a, b);
    }
    assert forall|t: usize| x.contains_key(t) <==> y.contains_key(t) by {
        assert(pending_for(x, t) == pending_for(y, t));
        if x.contains_key(t) && !y.contains_key(t) {
            assert(pending_for(y, t) =~= Map::empty());
            assert(pending_for(x, t).dom() =~= Set::empty());
        }
        if y.contains_key(t) && !x.contains_key(t) {
            assert(pending_for(x, t) =~= Map::empty());
            assert(pending_for(y, t).dom() =~= Set::empty());
        }
    }
    assert forall|t: usize| x.contains_key(t) implies x[t] == y[t] by {
        assert(pending_for(x, t) == pending_for(y, t));
    }
    assert(x =~= y);
}

proof fn lemma_push_diff_tight(sender: NodeView, receiver: NodeView)
    ensures
        tight(push_diff(sender, receiver)),
        forall|p: usize| #[trigger]
            voters_in(push_diff(sender, receiver), p) == push_voters(sender, receiver, p),
{
    let news = push_diff(sender, receiver);
    assert forall|p: usize| #[trigger] voters_in(news, p) == push_voters(sender, receiver, p) by {
        if !news.contains_key(p) {
            assert(push_voters(sender, receiver, p) =~= Set::empty());
        }
    }
}

proof fn lemma_with_news(
    updates: Map<usize, Map<usize, Set<usize>>>,
    target: usize,
    news: Map<usize, Set<usize>>,
)
    requires
        tight_updates(updates),
        tight(news),
    ensures
        tight_updates(with_news(updates, target, news)),
        forall|t: usize, p: usize| #[trigger]
            received(with_news(updates, target, news), t, p) == received(updates, t, p).union(
                if t == target {
                    voters_in(news, p)
                } else {
                    Set::empty()
                },
            ),
{
    let after = with_news(updates, target, news);
    let merged = merge_votes(pending_for(updates, target), news);
    assert(tight(pending_for(updates, target))) by {
        if !updates.contains_key(target) {
            assert(pending_for(updates, target) =~= Map::empty());
        }
    }
    assert forall|p: usize| merged.contains_key(p) implies !(#[trigger] voters_in(
        merged,
        p,
    )).is_empty() by {
        if news.contains_key(p) {
            let v = choose|v: usize| voters_in(news, p).contains(v);
            assert(!(voters_in(news, p) =~= Set::empty()));
            assert(voters_in(news, p).contains(v));
            assert(voters_in(merged, p).contains(v));
        } else {
            let held = pending_for(updates, target);
            assert(held.contains_key(p));
            let v = choose|v: usize| voters_in(held, p).contains(v);
            assert(!(voters_in(held, p) =~= Set::empty()));
            assert(voters_in(held, p).contains(v));
            assert(voters_in(merged, p).contains(v));
        }
    }
    assert(tight(merged));
    assert forall|t: usize, p: usize| #[trigger]
        received(after, t, p) == received(updates, t, p).union(
            if t == target {
                voters_in(news, p)
            } else {
                Set::empty()
            },
        ) by {
        if news.is_empty() {
            assert(!news.contains_key(p)) by {
                assert(news.dom() =~= Set::empty());
            }
            assert(received(after, t, p) =~= received(updates, t, p).union(Set::empty()));
        } else if t == target {
            assert(pending_for(after, t) == merged);
            assert(received(after, t, p) =~= received(updates, t, p).union(voters_in(news, p)));
        } else {
            assert(pending_for(after, t) == pending_for(updates, t));
            assert(received(after, t, p) =~= received(updates, t, p).union(Set::empty()));
        }
    }
    assert forall|t: usize| after.contains_key(t) implies tight(#[trigger] pending_for(after, t))
        && !pending_for(after, t).is_empty() by {
        if news.is_empty() {
        } else if t == target {
            assert(pending_for(after, t) == merged);
            let p = choose|p: usize| news.contains_key(p);
            assert(!(news.dom() =~= Set::empty()));
            assert(news.dom().contains(p));
            assert(merged.contains_key(p));
        } else {
            assert(pending_for(after, t) == pending_for(updates, t));
        }
    }
}

proof fn lemma_round_updates_tight(nodes: Seq<NodeView>, partners: Seq<usize>, contacts: int)
    ensures
        tight_updates(round_updates(nodes, partners, contacts)),
        forall|t: usize, p: usize| #[trigger]
            received(round_updates(nodes, partners, contacts), t, p) == gained_voters(
                nodes,
                partners,
                contacts,
                t as int,
                p,
            ),
{
    let updates = round_updates(nodes, partners, contacts);
    assert forall|t: usize, p: usize| #[trigger]
        received(updates, t, p) == gained_voters(nodes, partners, contacts, t as int, p) by {
        let news = gained(nodes, partners, contacts, t as int);
        let told = gained_voters(nodes, partners, contacts, t as int, p);
        if updates.contains_key(t) {
            if !news.contains_key(p) {
                assert(told =~= Set::empty());
            }
        } else {
            assert(news.dom() =~= Set::empty());
            assert(!news.contains_key(p));
            assert(told =~= Set::empty());
        }
    }
    assert forall|t: usize| updates.contains_key(t) implies tight(#[trigger] pending_for(updates, t))
        && !pending_for(updates, t).is_empty() by {
    }
}

proof fn lemma_gained_step(
    nodes: Seq<NodeView>,
    partners: Seq<usize>,
    i: int,
    t: usize,
    p: usize,
)
    requires
        0 <= i,
    ensures
        gained_voters(nodes, partners, i + 1, t as int, p) == gained_voters(
            nodes,
            partners,
            i,
            t as int,
            p,
        ).union(
            if t == i {
                push_voters(nodes[partners[i] as int], nodes[i], p)
            } else {
                Set::empty()
            },
        ).union(
            if t == partners[i] {
                push_voters(nodes[i], nodes[partners[i] as int], p)
            } else {
                Set::empty()
            },
        ),
{
    let more = gained_voters(nodes, partners, i + 1, t as int, p);
    let fewer = gained_voters(nodes, partners, i, t as int, p);
    let ours = if t == i {
        push_voters(nodes[partners[i] as int], nodes[i], p)
    } else {
        Set::empty()
    };
    let theirs = if t == partners[i] {
        push_voters(nodes[i], nodes[partners[i] as int], p)
    } else {
        Set::empty()
    };
    assert forall|v: usize| more.contains(v) <==> fewer.union(ours).union(theirs).contains(v) by {
        if more.contains(v) {
            let j = choose|j: int| 0 <= j < i + 1 && #[trigger] contact_gives(nodes, partners, j, t as int, p, v);
            if j < i {
                assert(fewer.contains(v));
            }
        }
        if fewer.contains(v) {
            let j = choose|j: int| 0 <= j < i && #[trigger] contact_gives(nodes, partners, j, t as int, p, v);
            assert(contact_gives(nodes, partners, j, t as int, p, v));
        }
        if ours.contains(v) || theirs.contains(v) {
            assert(contact_gives(nodes, partners, i, t as int, p, v));
        }
    }
    assert(more =~= fewer.union(ours).union(theirs));
}

/// What a contact adds to the buffer: the news for node `i`, then the news
/// for its partner.
proof fn lemma_round_updates_step(nodes: Seq<NodeView>, partners: Seq<usize>, i: int)
    requires
        0 <= i <= usize::MAX,
    ensures
        round_updates(nodes, partners, i + 1) == with_news(
            with_news(
                round_updates(nodes, partners, i),
                i as usize,
                push_diff(nodes[partners[i] as int], nodes[i]),
            ),
            partners[i],
            push_diff(nodes[i], nodes[partners[i] as int]),
        ),
{
    let before = round_updates(nodes, partners, i);
    let ours = push_diff(nodes[partners[i] as int], nodes[i]);
    let theirs = push_diff(nodes[i], nodes[partners[i] as int]);
    let first = with_news(before, i as usize, ours);
    let second = with_news(first, partners[i], theirs);
    let goal = round_updates(nodes, partners, i + 1);
    lemma_round_updates_tight(nodes, partners, i);
    lemma_round_updates_tight(nodes, partners, i + 1);
    lemma_push_diff_tight(nodes[partners[i] as int], nodes[i]);
    lemma_push_diff_tight(nodes[i], nodes[partners[i] as int]);
    lemma_with_news(before, i as usize, ours);
    lemma_with_news(first, partners[i], theirs);
    assert forall|t: usize, p: usize| #[trigger] received(second, t, p) == received(goal, t, p) by {
        lemma_gained_step(nodes, partners, i, t, p);
        assert(received(first, t, p) == received(before, t, p).union(
            if t == i as usize {
                voters_in(ours, p)
            } else {
                Set::empty()
            },
        ));
        assert(received(second, t, p) == received(first, t, p).union(
            if t == partners[i] {
                voters_in(theirs, p)
            } else {
                Set::empty()
            },
        ));
        assert(received(before, t, p) == gained_voters(nodes, partners, i, t as int, p));
        assert(received(goal, t, p) == gained_voters(nodes, partners, i + 1, t as int, p));
        assert(voters_in(ours, p) == push_voters(nodes[partners[i] as int], nodes[i], p));
        assert(voters_in(theirs, p) == push_voters(nodes[i], nodes[partners[i] as int], p));
    }
    lemma_tight_updates_equal(second, goal);
}

/// Before any contact nothing is buffered.
proof fn lemma_round_updates_start(nodes: Seq<NodeView>, partners: Seq<usize>)
    ensures
        round_updates(nodes, partners, 0) == Map::<usize, Map<usize, Set<usize>>>::empty(),
{
    let start = round_updates(nodes, partners, 0);
    assert forall|t: usize| !start.contains_key(t) by {
        let news = gained(nodes, partners, 0, t as int);
        assert forall|p: usize| !news.contains_key(p) by {
            assert(gained_voters(nodes, partners, 0, t as int, p) =~= Set::empty());
        }
        assert(news.dom() =~= Set::empty());
    }
    assert(start =~= Map::empty());
}

/// A round has at most two pushes with news for each contact.
pub proof fn lemma_exchanges_bound(nodes: Seq<NodeView>, partners: Seq<usize>, contacts: int)
    requires
        0 <= contacts,
    ensures
        0 <= exchanges_in(nodes, partners, contacts) <= 2 * contacts,
    decreases contacts,
{
    if contacts > 0 {
        lemma_exchanges_bound(nodes, partners, contacts - 1);
    }
}

/// Has every node meet its partner and buffers what each of the two learns
/// from the other. Returns the buffer and the number of pushes that carried
/// news.
///
/// No node is changed: every contact goes by what the nodes know now.
pub fn exchange(nodes: &Vec<Node>, partners: &Vec<usize>) -> (buffered: (
    BTreeMap<usize, VoteDiff>,
    usize,
))
    requires
        partners@.len() == nodes@.len(),
        forall|i: int| 0 <= i < partners@.len() ==> (#[trigger] partners@[i]) < nodes@.len(),
        2 * nodes@.len() <= usize::MAX,
    ensures
        updates_view(buffered.0) == round_updates(
            views_of(nodes@),
            partners@,
            nodes@.len() as int,
        ),
        buffered.1 == exchanges_in(views_of(nodes@), partners@, nodes@.len() as int),
{
    let ghost views = views_of(nodes@);
    let mut updates: BTreeMap<usize, VoteDiff> = BTreeMap::new();
    let mut num_exchanges: usize = 0;
    let mut node_id: usize = 0;
    proof {
        lemma_round_updates_start(views, partners@);
        assert(updates_view(updates) =~= Map::empty());
    }
    while node_id < nodes.len()
        invariant
            views == views_of(nodes@),
            partners@.len() == nodes@.len(),
            forall|i: int| 0 <= i < partners@.len() ==> (#[trigger] partners@[i]) < nodes@.len(),
            2 * nodes@.len() <= usize::MAX,
            node_id <= nodes@.len(),
            updates_view(updates) == round_updates(views, partners@, node_id as int),
            num_exchanges == exchanges_in(views, partners@, node_id as int),
        decreases nodes@.len() - node_id,
    {
        let partner_id = partners[node_id];
        let ghost before = updates_view(updates);
        let ghost ours_news = push_diff(views[partner_id as int], views[node_id as int]);
        let ghost theirs_news = push_diff(views[node_id as int], views[partner_id as int]);
        proof {
            lemma_exchanges_bound(views, partners@, node_id as int);
            lemma_round_updates_step(views, partners@, node_id as int);
        }
        let (our_updates, their_updates) = compute_push_pull_gossip(
            &nodes[node_id],
            &nodes[partner_id],
        );
        if let Some(diff) = our_updates {
            add_updates(&mut updates, node_id, diff);
            num_exchanges += 1;
        }
        assert(updates_view(updates) == with_news(before, node_id, ours_news));
        if let Some(diff) = their_updates {
            add_updates(&mut updates, partner_id, diff);
            num_exchanges += 1;
        }
        assert(updates_view(updates) == with_news(
            with_news(before, node_id, ours_news),
            partner_id,
            theirs_news,
        ));
        node_id += 1;
    }
    (updates, num_exchanges)
}

/// Has every node merge what is buffered for it.
pub fn commit(nodes: &mut Vec<Node>, updates: BTreeMap<usize, VoteDiff>)
    requires
        forall|t: usize| #[trigger] updates@.contains_key(t) ==> t < old(nodes)@.len(),
    ensures
        views_of(final(nodes)@) == committed(views_of(old(nodes)@), updates_view(updates)),
{
    let ghost before = views_of(nodes@);
    let ghost goal = committed(before, updates_view(updates));
    let mut updates = updates;
    let ghost buffered = updates_view(updates);
    let mut node_id: usize = 0;
    while node_id < nodes.len()
        invariant
            before == views_of(old(nodes)@),
            goal == committed(before, buffered),
            nodes@.len() == before.len(),
            node_id <= nodes@.len(),
            forall|t: usize|
                node_id <= t ==> pending_for(updates_view(updates), t) == #[trigger] pending_for(
                    buffered,
                    t,
                ),
            forall|j: int| 0 <= j < node_id ==> (#[trigger] nodes@[j])@ == goal[j],
            forall|j: int| node_id <= j < nodes@.len() ==> (#[trigger] nodes@[j])@ == before[j],
        decreases nodes@.len() - node_id,
    {
        let ghost held = updates_view(updates);
        assert(pending_for(held, node_id) == pending_for(buffered, node_id));
        match updates.remove(&node_id) {
            Some(diff) => {
                assert(diff_view(diff) == pending_for(held, node_id));
                nodes[node_id].apply_diff(diff);
            },
            None => {
                assert(pending_for(held, node_id) == Map::<usize, Set<usize>>::empty());
                proof {
                    lemma_apply_empty_diff(before[node_id as int]);
                }
            },
        }
        proof {
            assert forall|t: usize| node_id < t implies pending_for(updates_view(updates), t)
                == #[trigger] pending_for(buffered, t) by {
                assert(pending_for(held, t) == pending_for(buffered, t));
            }
        }
        node_id += 1;
    }
    proof {
        assert(views_of(nodes@) =~= goal);
    }
}

/// Committing what a round buffered leaves each node with all that its
/// contacts told it.
pub proof fn lemma_commit_round(nodes: Seq<NodeView>, partners: Seq<usize>)
    requires
        nodes.len() <= usize::MAX,
    ensures
        committed(nodes, round_updates(nodes, partners, nodes.len() as int)) == after_gossip(
            nodes,
            partners,
        ),
{
    let updates = round_updates(nodes, partners, nodes.len() as int);
    let left = committed(nodes, updates);
    let right = after_gossip(nodes, partners);
    assert forall|t: int| 0 <= t < nodes.len() implies left[t] == right[t] by {
        let news = gained(nodes, partners, nodes.len() as int, t);
        if !updates.contains_key(t as usize) {
            assert(news.dom() =~= Set::empty());
            assert(news =~= Map::empty());
        }
        assert(pending_for(updates, t as usize) == news);
    }
    assert(left =~= right);
}

} // verus!
