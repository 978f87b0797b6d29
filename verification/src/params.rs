//! The parameters of a run, and what makes them unusable.

use crate::quorum::{has_quorum, is_quorum};
use vstd::prelude::*;

verus! {

/// The parameters of one run.
#[derive(Debug, Clone, Copy, PartialEq, Eq, Structural)]
pub struct Params {
    /// The size of the population.
    pub n: usize,
    /// How many nodes vote in the course of the run.
    pub k: usize,
    /// Over how many rounds the voters cast their votes.
    pub voting_steps: usize,
}

/// Why a run cannot be made with some parameters.
#[derive(Debug, Clone, Copy, PartialEq, Eq, Structural)]
pub enum ParamFault {
    /// `voting_steps` is zero: the voters cannot be split over no round.
    ZeroVotingSteps,
    /// `k` is zero: nobody would vote.
    NoVoters,
    /// `k` is larger than `n`: there are not that many nodes.
    TooManyVoters,
    /// `n` is less than two: a node would have no partner.
    PopulationTooSmall,
    /// `k` voters are no strict majority of `n` nodes: no node could ever
    /// know of a quorum.
    QuorumOutOfReach,
}

impl Params {
    /// The first fault of the parameters, if they have one.
    pub open spec fn fault(self) -> Option<ParamFault> {
        if self.voting_steps == 0 {
            Some(ParamFault::ZeroVotingSteps)
        } else if self.k == 0 {
            Some(ParamFault::NoVoters)
        } else if self.k > self.n {
            Some(ParamFault::TooManyVoters)
        } else if self.n < 2 {
            Some(ParamFault::PopulationTooSmall)
        } else if !is_quorum(self.k as int, self.n as int) {
            Some(ParamFault::QuorumOutOfReach)
        } else {
            None
        }
    }

    /// Whether a run can be made with the parameters.
    pub open spec fn valid(self) -> bool {
        &&& self.voting_steps >= 1
        &&& 1 <= self.k <= self.n
        &&& self.n >= 2
        &&& is_quorum(self.k as int, self.n as int)
    }

    /// Parameters are valid exactly when they have no fault.
    pub proof fn lemma_valid_iff_faultless(self)
        ensures
            self.valid() <==> self.fault() is None,
    {
    }

    /// Checks the parameters, and names the first fault found.
    pub fn validate(&self) -> (checked: Result<(), ParamFault>)
        ensures
            checked is Ok <==> self.valid(),
            checked matches Err(fault) ==> self.fault() == Some(fault),
    {
        if self.voting_steps == 0 {
            Err(ParamFault::ZeroVotingSteps)
        } else if self.k == 0 {
            Err(ParamFault::NoVoters)
        } else if self.k > self.n {
            Err(ParamFault::TooManyVoters)
        } else if self.n < 2 {
            Err(ParamFault::PopulationTooSmall)
        } else if !has_quorum(self.k, self.n) {
            Err(ParamFault::QuorumOutOfReach)
        } else {
            Ok(())
        }
    }
}

} // verus!
