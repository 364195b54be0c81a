//! A pooled-staking yield engine.
//!
//! Depositors contribute funds to a shared stake; the engine splits the pool
//! across a weighted validator table, periodically harvests rewards and
//! credits each depositor a weighted share, and lets depositors withdraw
//! through a cooldown-batched unbonding/claim process.
//!
//! The host chain's staking subsystem is an external collaborator: every
//! operation here is a pure transition on an explicit [`state::State`]
//! snapshot that returns the commands (delegate, undelegate, redelegate,
//! withdraw-reward, transfer) the host must execute afterwards.

pub mod contract;
pub mod distribution;
pub mod error;
pub mod fraction;
pub mod laws;
pub mod msg;
pub mod query;
pub mod rebalance;
pub mod state;
pub mod unbonding;
