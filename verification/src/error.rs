//! The error taxonomy shared by every operation.

use vstd::prelude::*;

verus! {

/// Every failure an operation of this library can report.  All failures are
/// local and synchronous: an operation that returns an error leaves the state
/// exactly as it was.
#[derive(Clone, Debug, PartialEq, Eq)]
pub enum ContractError {
    /// The caller lacks the required role (owner-restricted operation).
    Unauthorized {},
    /// A deposit arrived without exactly one coin of funds.
    NoFunds {},
    /// A withdrawal asked for more than the consolidated, fully vested total.
    NotEnoughToUndelegate { wanted: u128, have: u128 },
    /// A validator weight table whose weights do not sum to exactly 1.
    InvalidValidatorList {},
    /// An undelegation was requested by a depositor with no ledger entry.
    DelegationNotFound {},
    /// An allowed-address expiration lies less than the minimum span ahead.
    ExpirationTooSoon {},
    /// The named commission address is not on the allowed list.
    CommissionAddressNotFound { address: String },
    /// The named commission address is on the allowed list but has expired.
    CommissionAddressExpired { address: String },
    /// The commission address coincides with the transfer recipient.
    CommissionAddressSameAsRecipient {},
    /// A batch release was requested before the cooldown ran out.
    UnbondingCooldownNotExpired { latest_unbonding: u64, min_cooldown: u64 },
    /// Amount arithmetic left the representable range.
    Overflow {},
}

} // verus!
