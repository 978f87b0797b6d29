//! The voting schedule: how many voters cast their vote in each round.

use crate::params::ParamFault;
use std::collections::BTreeMap;
use vstd::prelude::*;

verus! {

/// How many voters round `round` activates, where `k` voters are split over
/// `steps` rounds: each round takes `k / steps`, and the last one takes what
/// is then left.
pub open spec fn scheduled_voters(k: int, steps: int, round: int) -> int {
    if round == steps - 1 {
        k - (steps - 1) * (k / steps)
    } else {
        k / steps
    }
}

/// The schedule for `k` voters over `steps` rounds: an entry for each of the
/// rounds `0` to `steps - 1`.
pub open spec fn schedule_map(k: usize, steps: usize) -> Map<usize, usize> {
    Map::new(
        |round: usize| round < steps,
        |round: usize| scheduled_voters(k as int, steps as int, round as int) as usize,
    )
}

/// How many voters `schedule` activates in round `round`.
pub open spec fn activated_in(schedule: Map<usize, usize>, round: int) -> int {
    if 0 <= round <= usize::MAX && schedule.contains_key(round as usize) {
        schedule[round as usize] as int
    } else {
        0
    }
}

/// How many voters `schedule` activates in the rounds before `rounds`.
pub open spec fn activated_before(schedule: Map<usize, usize>, rounds: int) -> int
    decreases rounds,
{
    if rounds <= 0 {
        0
    } else {
        activated_before(schedule, rounds - 1) + activated_in(schedule, rounds - 1)
    }
}

/// The last round's share is what the others leave of `k`, and no share is
/// larger than `k`.
pub proof fn lemma_scheduled_voters_bounds(k: int, steps: int, round: int)
    requires
        0 <= k,
        1 <= steps,
        0 <= round < steps,
    ensures
        0 <= scheduled_voters(k, steps, round) <= k,
        0 <= (steps - 1) * (k / steps) <= k,
        0 <= round * (k / steps) <= (steps - 1) * (k / steps),
{
    let share = k / steps;
    vstd::arithmetic::div_mod::lemma_fundamental_div_mod(k, steps);
    vstd::arithmetic::div_mod::lemma_div_pos_is_pos(k, steps);
    vstd::arithmetic::div_mod::lemma_mod_bound(k, steps);
    assert(0 <= round * share <= (steps - 1) * share && (steps - 1) * share <= steps * share)
        by (nonlinear_arith)
        requires
            0 <= round <= steps - 1,
            0 <= share,
    ;
}

/// Before round `rounds` the schedule has activated `k / steps` voters for
/// each round past, and all `k` once its rounds are over.
pub proof fn lemma_activated_before(k: usize, steps: usize, rounds: int)
    requires
        1 <= steps,
        0 <= rounds,
    ensures
        activated_before(schedule_map(k, steps), rounds) == if rounds >= steps {
            k as int
        } else {
            rounds * (k as int / steps as int)
        },
        0 <= activated_before(schedule_map(k, steps), rounds) <= k,
    decreases rounds,
{
    let schedule = schedule_map(k, steps);
    let share = k as int / steps as int;
    if rounds < steps {
        lemma_scheduled_voters_bounds(k as int, steps as int, rounds);
    }
    if rounds > 0 {
        lemma_activated_before(k, steps, rounds - 1);
        let last = rounds - 1;
        if last < steps {
            lemma_scheduled_voters_bounds(k as int, steps as int, last);
            assert(schedule.contains_key(last as usize));
            assert(activated_in(schedule, last) == scheduled_voters(k as int, steps as int, last));
            assert(last * share + share == rounds * share) by (nonlinear_arith)
                requires
                    rounds == last + 1,
            ;
        } else {
            assert(activated_in(schedule, last) == 0);
        }
    } else {
        assert(0 * share == 0) by (nonlinear_arith);
    }
}

/// The shares of a schedule add up to `k`.
pub proof fn lemma_schedule_total(k: usize, steps: usize)
    requires
        1 <= steps,
    ensures
        activated_before(schedule_map(k, steps), steps as int) == k,
{
    lemma_activated_before(k, steps, steps as int);
}

/// With a single round, all `k` voters vote in round `0`.
pub proof fn lemma_single_step_schedule(k: usize)
    ensures
        schedule_map(k, 1) == Map::<usize, usize>::empty().insert(0, k),
{
    assert(schedule_map(k, 1) =~= Map::<usize, usize>::empty().insert(0, k));
}

/// Splits `k` voters over `voting_steps` rounds.
///
/// No schedule is made for zero rounds.
pub fn construct_voting_schedule(k: usize, voting_steps: usize) -> (made: Result<
    BTreeMap<usize, usize>,
    ParamFault,
>)
    ensures
        made is Err <==> voting_steps == 0,
        made matches Err(fault) ==> fault == ParamFault::ZeroVotingSteps,
        made matches Ok(schedule) ==> schedule@ == schedule_map(k, voting_steps),
{
    if voting_steps == 0 {
        return Err(ParamFault::ZeroVotingSteps);
    }
    let per_step = k / voting_steps;
    let mut schedule: BTreeMap<usize, usize> = BTreeMap::new();
    let mut i: usize = 0;
    while i < voting_steps
        invariant
            1 <= voting_steps,
            i <= voting_steps,
            per_step == k / voting_steps,
            forall|round: usize| #[trigger] schedule@.contains_key(round) <==> round < i,
            forall|round: usize|
                round < i ==> #[trigger] schedule@[round] == scheduled_voters(
                    k as int,
                    voting_steps as int,
                    round as int,
                ),
        decreases voting_steps - i,
    {
        proof {
            lemma_scheduled_voters_bounds(k as int, voting_steps as int, i as int);
        }
        let num_voters = if i == voting_steps - 1 {
            k - (voting_steps - 1) * per_step
        } else {
            per_step
        };
        schedule.insert(i, num_voters);
        i += 1;
    }
    proof {
        assert forall|round: usize| round < voting_steps implies 0 <= #[trigger] scheduled_voters(
            k as int,
            voting_steps as int,
            round as int,
        ) <= k by {
            lemma_scheduled_voters_bounds(k as int, voting_steps as int, round as int);
        }
        assert(schedule@ =~= schedule_map(k, voting_steps));
    }
    Ok(schedule)
}

} // verus!
