//! The engine's message surface: plain-value requests, responses, and the
//! commands handed back to the host.

use vstd::prelude::*;

use crate::fraction::Fraction;
use crate::state::{ClaimDetails, Config};

verus! {

/// An amount of a single token denomination.
#[derive(Clone, Debug, PartialEq, Eq)]
pub struct Coin {
    pub denom: String,
    pub amount: u128,
}

/// The block context a transition runs in: the chain height and the block
/// time in seconds.
#[derive(Clone, Debug, PartialEq, Eq)]
pub struct Env {
    pub height: u64,
    pub time: u64,
}

/// Who sent the current message, and the funds attached to it.
#[derive(Clone, Debug, PartialEq, Eq)]
pub struct MessageInfo {
    pub sender: String,
    pub funds: Vec<Coin>,
}

/// A staking command for the host to execute after the transition commits.
#[derive(Clone, Debug, PartialEq, Eq)]
pub enum StakingMsg {
    Delegate { validator: String, amount: Coin },
    Undelegate { validator: String, amount: Coin },
    Redelegate { src_validator: String, dst_validator: String, amount: Coin },
}

/// A reward-distribution command for the host.
#[derive(Clone, Debug, PartialEq, Eq)]
pub enum DistributionMsg {
    WithdrawDelegatorReward { validator: String },
}

/// A token-transfer command for the host.
#[derive(Clone, Debug, PartialEq, Eq)]
pub enum BankMsg {
    Send { to_address: String, amount: Vec<Coin> },
}

/// What instantiation needs: identities, commission rates, the token
/// denomination and the unbonding timings.
#[derive(Clone, Debug, PartialEq, Eq)]
pub struct InstantiateMsg {
    /// Account that is allowed to perform admin operations.
    pub owner: String,
    /// Account which receives commissions.
    pub treasury: String,
    /// Address of the initial validator, which starts with weight 1.
    pub staking_addr: String,
    /// Commission taken from every harvested reward.
    pub restake_commission: Fraction,
    /// Commission taken from every transfer between depositors.
    pub transfer_commission: Fraction,
    /// The single token denomination the pool accounts in.
    pub denom: String,
    /// Unbonding period in seconds; 28 days when absent.
    pub unbonding_period: Option<u64>,
    /// Bound on distinct release timestamps per cooldown window; the minimum
    /// cooldown between batch releases is `unbonding_period / max_entries`.
    /// 7 when absent.
    pub max_entries: Option<u64>,
}

/// Every state-changing request the engine accepts.
#[derive(Clone, Debug, PartialEq, Eq)]
pub enum ExecuteMsg {
    /// Replaces any subset of the configuration; only the owner may call.
    UpdateConfig {
        owner: Option<String>,
        treasury: Option<String>,
        restake_commission: Option<Fraction>,
        transfer_commission: Option<Fraction>,
        unbonding_period: Option<u64>,
    },
    /// Replaces the validator weight table; only the owner may call.
    UpdateValidatorList { new_validator_list: Vec<(String, Fraction)> },
    /// Adds the attached funds to the common staking pool.
    Delegate {},
    /// Queues an undelegation of currently vested stake.
    Undelegate { amount: Coin },
    /// Pays out every unbonding claim that met its deadline.
    Claim {},
    /// Harvests the accumulated reward and restakes it.
    Restake {},
    /// Moves staked tokens to another depositor.
    Transfer { recipient: String, amount: u128, commission_address: Option<String> },
    /// Turns the queued undelegations into one batch of unbonding claims.
    BatchUnbond {},
    /// Undelegates every depositor's vested stake; only the owner may call.
    UndelegateAll {},
    /// Adds (or refreshes) an address on the commission-split allow list.
    UpdateAllowedAddr { address: String, expires: u64 },
    /// Removes an address from the commission-split allow list.
    RemoveAllowedAddr { address: String },
}

/// Every read-only request the engine accepts.
#[derive(Clone, Debug, PartialEq, Eq)]
pub enum QueryMsg {
    /// Returns the current configuration.
    Config {},
    /// Returns the total amount of delegated tokens.
    TotalDelegated {},
    /// Returns information about the sender's delegation.
    Delegated { sender: String },
    /// Returns the reward currently available to claim.
    Reward {},
    /// Returns all current unbonding claims for the sender.
    Claims { sender: String },
    /// Returns the height of the last reward payment.
    LastPaymentBlock {},
    /// Returns the validator weight table.
    ValidatorList {},
    /// Returns one validator's weight.
    ValidatorWeight { validator: String },
    /// Returns the amount the sender has queued for the next batch release.
    PendingClaim { sender: String },
    /// Returns the expiration of an address on the allow list.
    AllowedAddr { address: String },
    /// Returns the allow list.
    AllowedAddrList {},
}

#[derive(Clone, Debug, PartialEq, Eq)]
pub struct ConfigResponse {
    pub config: Config,
}

#[derive(Clone, Debug, PartialEq, Eq)]
pub struct RewardResponse {
    pub rewards: Vec<Coin>,
}

#[derive(Clone, Debug, PartialEq, Eq)]
pub struct ClaimsResponse {
    pub claims: Vec<ClaimDetails>,
}

#[derive(Clone, Debug, PartialEq, Eq)]
pub struct DelegatedResponse {
    pub delegated: Vec<DelegateResponse>,
}

#[derive(Clone, Debug, PartialEq, Eq)]
pub struct DelegateResponse {
    pub start_height: u64,
    pub total_staked: u128,
    pub total_earnings: u128,
}

#[derive(Clone, Debug, PartialEq, Eq)]
pub struct TotalDelegatedResponse {
    pub amount: Coin,
}

#[derive(Clone, Debug, PartialEq, Eq)]
pub struct LastPaymentBlockResponse {
    pub last_payment_block: u64,
}

#[derive(Clone, Debug, PartialEq, Eq)]
pub struct ValidatorsResponse {
    pub validators: Vec<(String, Fraction)>,
}

#[derive(Clone, Debug, PartialEq, Eq)]
pub struct ValidatorWeightResponse {
    pub weight: Fraction,
}

#[derive(Clone, Debug, PartialEq, Eq)]
pub struct PendingClaimResponse {
    pub amount: u128,
}

#[derive(Clone, Debug, PartialEq, Eq)]
pub struct AllowedAddrResponse {
    pub expires: u64,
}

#[derive(Clone, Debug, PartialEq, Eq)]
pub struct AllowedAddrListResponse {
    pub allowed_list: Vec<(String, u64)>,
}

/// Everything a restake hands back to the host: one reward withdrawal per
/// validator, the commission transfer (when a commission is configured), and
/// the delegations that restake the remaining reward.
#[derive(Clone, Debug, PartialEq, Eq)]
pub struct RestakeMsgs {
    pub reward_msgs: Vec<DistributionMsg>,
    pub commission_msgs: Vec<BankMsg>,
    pub delegate_msgs: Vec<StakingMsg>,
}

} // verus!
