//! The choice of a gossip partner, drawn at random.

use rand::Rng;
use vstd::prelude::*;

verus! {

/// The generator that the draws are made with: `rand::XorShiftRng`. Nothing
/// is known of its state.
#[verifier::external_type_specification]
#[verifier::external_body]
pub struct ExXorShiftRng(rand::XorShiftRng);

/// One draw from `0..n`, made with `rand::Rng::gen_range(0, n)`.
///
/// `gen_range` panics unless its lower bound is below its upper bound, hence
/// `n >= 1`. It samples from the half-open range, so the number drawn is below
/// `n`; which one it is depends on the generator, and nothing is said of it.
#[verifier::external_body]
fn draw_below(rng: &mut rand::XorShiftRng, n: usize) -> (drawn: usize)
    requires
        n >= 1,
    ensures
        drawn < n,
{
    rng.gen_range(0, n)
}

/// Decides on one draw: a node takes any partner but itself.
pub fn accept_partner(our_id: usize, drawn: usize) -> (partner: Option<usize>)
    ensures
        partner == if drawn != our_id {
            Some(drawn)
        } else {
            None::<usize>
        },
{
    if drawn != our_id {
        Some(drawn)
    } else {
        None
    }
}

/// Picks a partner for node `our_id` among `n` nodes: draws from `0..n` until
/// the draw is not `our_id`.
///
/// With fewer than two nodes there is no partner. An id outside `0..n` takes
/// the first draw. For an id inside, the rejected draws are counted, and the
/// search is given up when the count can grow no further.
pub fn choose_partner(our_id: usize, n: usize, rng: &mut rand::XorShiftRng) -> (partner: Option<
    usize,
>)
    ensures
        n < 2 ==> partner is None,
        n >= 2 && our_id >= n ==> partner is Some,
        partner matches Some(p) ==> p < n && p != our_id,
{
    if n < 2 {
        return None;
    }
    let mut rejected: usize = 0;
    while rejected < usize::MAX
        invariant
            n >= 2,
            our_id >= n ==> rejected == 0,
        decreases usize::MAX - rejected,
    {
        let drawn = draw_below(rng, n);
        match accept_partner(our_id, drawn) {
            Some(partner) => {
                return Some(partner);
            },
            None => {
                rejected += 1;
            },
        }
    }
    None
}

/// Picks a partner for each of `n` nodes, in the order of their ids.
///
/// Gives none where one of the nodes found no partner.
pub fn choose_partners(n: usize, rng: &mut rand::XorShiftRng) -> (partners: Option<Vec<usize>>)
    ensures
        n == 0 ==> partners is Some,
        n == 1 ==> partners is None,
        partners matches Some(chosen) ==> chosen@.len() == n && forall|i: int|
            0 <= i < n ==> (#[trigger] chosen@[i]) < n && chosen@[i] != i,
{
    let mut chosen: Vec<usize> = Vec::new();
    let mut node_id: usize = 0;
    while node_id < n
        invariant
            node_id <= n,
            n >= 2 || node_id == 0,
            chosen@.len() == node_id,
            forall|i: int| 0 <= i < node_id ==> (#[trigger] chosen@[i]) < n && chosen@[i] != i,
        decreases n - node_id,
    {
        match choose_partner(node_id, n, rng) {
            Some(partner) => {
                chosen.push(partner);
            },
            None => {
                return None;
            },
        }
        node_id += 1;
    }
    Some(chosen)
}

} // verus!
