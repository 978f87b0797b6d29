//! A push-pull gossip simulation: a population of nodes spreads knowledge of
//! who voted for a proposal until every node knows of a strict majority.

pub mod gossip;
pub mod node;
pub mod params;
pub mod partner;
pub mod quorum;
pub mod round;
pub mod schedule;
pub mod sets;
pub mod simulation;
pub mod stats;
