//! Instantiation, configuration, deposits, transfers and the validator-table
//! update: every operation is a total transition on an explicit state
//! snapshot, and an operation that fails leaves the state untouched.

use vstd::prelude::*;

use crate::error::ContractError;
use crate::fraction::{Fraction, FRACTION_UNIT};
use crate::msg::{BankMsg, Coin, DistributionMsg, Env, InstantiateMsg, MessageInfo, RestakeMsgs, StakingMsg};
use crate::rebalance::{delegate_msgs_for_validators, distribute_msgs_for_validators, split_msgs};
use crate::state::{
    consolidate_details, consolidated_total, find_entry, find_index, fresh_partials, keys_unique,
    lemma_keys_unique_push, lemma_keys_unique_update, pending_upsert_ok, pending_upserted,
    ClaimDetails, Config, Stake, StakeDetails, StakeDetailsV, State, StateV,
};

verus! {

/// 28 days in seconds: the default unbonding period, and the least span an
/// allowed address's expiration must lie ahead.
pub const MIN_EXPIRATION: u64 = 3600 * 24 * 28;

/// Bound on distinct release timestamps per unbonding period when none is
/// configured.
pub const DEFAULT_MAX_ENTRIES: u64 = 7;

/// Sets up the engine: the configuration as given (defaults filled in), an
/// empty ledger, and a validator table holding only the initial validator at
/// weight 1.  The batch-release clock starts far enough in the past that the
/// first batch release is allowed at once.
pub fn instantiate(env: &Env, msg: InstantiateMsg) -> (r: State)
    requires
        msg.restake_commission.atomics <= FRACTION_UNIT,
        msg.transfer_commission.atomics <= FRACTION_UNIT,
        msg.max_entries matches Some(m) ==> m > 0,
        env.time >= MIN_EXPIRATION,
    ensures
        r@ == (StateV {
            config: Config {
                owner: msg.owner,
                treasury: msg.treasury,
                restake_commission: msg.restake_commission,
                transfer_commission: msg.transfer_commission,
                denom: msg.denom,
                unbonding_period: spec_unbonding_period(msg),
                min_unbonding_cooldown: (spec_unbonding_period(msg) as int / spec_max_entries(
                    msg,
                ) as int) as u64,
            },
            total: Coin { denom: msg.denom, amount: 0 },
            last_payment_block: env.height,
            stake_details: Seq::empty(),
            latest_unbonding: (env.time - MIN_EXPIRATION) as u64,
            pending_claims: Seq::empty(),
            unbonding_claims: Seq::empty(),
            validator_list: seq![(msg.staking_addr, Fraction { atomics: FRACTION_UNIT })],
            allowed_addresses: Seq::empty(),
        }),
        r.well_formed(),
{
    let max_entries: u64 = match msg.max_entries {
        Some(m) => m,
        None => DEFAULT_MAX_ENTRIES,
    };
    let unbonding_period: u64 = match msg.unbonding_period {
        Some(u) => u,
        None => MIN_EXPIRATION,
    };
    let min_unbonding_cooldown: u64 = unbonding_period / max_entries;

    let config = Config {
        owner: msg.owner,
        treasury: msg.treasury,
        restake_commission: msg.restake_commission,
        transfer_commission: msg.transfer_commission,
        denom: msg.denom,
        unbonding_period,
        min_unbonding_cooldown,
    };
    let total = Coin { denom: config.denom.clone(), amount: 0 };

    let mut validator_list: Vec<(String, Fraction)> = Vec::new();
    validator_list.push((msg.staking_addr, Fraction::one()));

    let state = State {
        config,
        total,
        last_payment_block: env.height,
        stake_details: Vec::new(),
        latest_unbonding: env.time - MIN_EXPIRATION,
        pending_claims: Vec::new(),
        unbonding_claims: Vec::new(),
        validator_list,
        allowed_addresses: Vec::new(),
    };
    proof {
        let vl = state@.validator_list;
        assert(vl.len() == 1);
        assert(vl.drop_last() =~= Seq::<(String, Fraction)>::empty());
        assert(crate::state::weights_sum(vl.drop_last()) == 0);
        assert(vl.last().1.atomics == FRACTION_UNIT);
        assert(crate::state::weights_sum(vl) == FRACTION_UNIT);
        assert(state@ =~= (StateV {
            config: Config {
                owner: msg.owner,
                treasury: msg.treasury,
                restake_commission: msg.restake_commission,
                transfer_commission: msg.transfer_commission,
                denom: msg.denom,
                unbonding_period: spec_unbonding_period(msg),
                min_unbonding_cooldown: (spec_unbonding_period(msg) as int / spec_max_entries(
                    msg,
                ) as int) as u64,
            },
            total: Coin { denom: msg.denom, amount: 0 },
            last_payment_block: env.height,
            stake_details: Seq::empty(),
            latest_unbonding: (env.time - MIN_EXPIRATION) as u64,
            pending_claims: Seq::empty(),
            unbonding_claims: Seq::empty(),
            validator_list: seq![(msg.staking_addr, Fraction { atomics: FRACTION_UNIT })],
            allowed_addresses: Seq::empty(),
        }));
    }
    state
}

/// The unbonding period instantiation settles on: as given, or 28 days.
pub open spec fn spec_unbonding_period(msg: InstantiateMsg) -> u64 {
    match msg.unbonding_period {
        Some(u) => u,
        None => MIN_EXPIRATION,
    }
}

/// The release-timestamp bound instantiation settles on: as given, or 7.
pub open spec fn spec_max_entries(msg: InstantiateMsg) -> u64 {
    match msg.max_entries {
        Some(m) => m,
        None => DEFAULT_MAX_ENTRIES,
    }
}

/// Replaces any subset of the configuration.  Only the owner may call: any
/// other sender is turned away with the state untouched.  The minimum
/// batch-release cooldown is kept even when the unbonding period changes.
pub fn update_config(
    state: &mut State,
    info: &MessageInfo,
    new_owner: Option<String>,
    treasury: Option<String>,
    new_restake_commission: Option<Fraction>,
    new_transfer_commission: Option<Fraction>,
    new_unbonding_period: Option<u64>,
) -> (r: Result<(), ContractError>)
    requires
        old(state).well_formed(),
        new_restake_commission matches Some(c) ==> c.atomics <= FRACTION_UNIT,
        new_transfer_commission matches Some(c) ==> c.atomics <= FRACTION_UNIT,
    ensures
        r is Ok <==> info.sender@ == old(state)@.config.owner@,
        r is Err ==> *final(state) == *old(state) && r == Err::<(), ContractError>(
            ContractError::Unauthorized {},
        ),
        r is Ok ==> final(state)@ == (StateV {
            config: Config {
                owner: (match new_owner {
                    Some(o) => o,
                    None => old(state)@.config.owner,
                }),
                treasury: (match treasury {
                    Some(t) => t,
                    None => old(state)@.config.treasury,
                }),
                restake_commission: (match new_restake_commission {
                    Some(c) => c,
                    None => old(state)@.config.restake_commission,
                }),
                transfer_commission: (match new_transfer_commission {
                    Some(c) => c,
                    None => old(state)@.config.transfer_commission,
                }),
                denom: old(state)@.config.denom,
                unbonding_period: (match new_unbonding_period {
                    Some(u) => u,
                    None => old(state)@.config.unbonding_period,
                }),
                min_unbonding_cooldown: old(state)@.config.min_unbonding_cooldown,
            },
            ..old(state)@
        }),
        r is Ok ==> final(state).well_formed(),
{
    if !(info.sender == state.config.owner) {
        return Err(ContractError::Unauthorized {});
    }

    match new_owner {
        Some(owner) => {
            state.config.owner = owner;
        },
        None => {},
    }
    match treasury {
        Some(t) => {
            state.config.treasury = t;
        },
        None => {},
    }
    match new_restake_commission {
        Some(c) => {
            state.config.restake_commission = c;
        },
        None => {},
    }
    match new_transfer_commission {
        Some(c) => {
            state.config.transfer_commission = c;
        },
        None => {},
    }
    match new_unbonding_period {
        Some(u) => {
            state.config.unbonding_period = u;
        },
        None => {},
    }
    Ok(())
}

/// The allow list after adding (or refreshing) one address.
pub open spec fn allowed_upserted(
    allowed: Seq<(String, u64)>,
    addr: String,
    expiration: u64,
) -> Seq<(String, u64)> {
    let i = find_index(allowed, addr@);
    if i == -1 {
        allowed.push((addr, expiration))
    } else {
        allowed.update(i, (allowed[i].0, expiration))
    }
}

/// Adds an address to the commission-split allow list, or refreshes its
/// expiration.  Only the owner may call, and the expiration must lie at
/// least 28 days ahead.
pub fn update_allowed_address(
    state: &mut State,
    env: &Env,
    info: &MessageInfo,
    address: String,
    expiration: u64,
) -> (r: Result<(), ContractError>)
    requires
        old(state).well_formed(),
        env.time + MIN_EXPIRATION <= u64::MAX,
    ensures
        r is Ok <==> info.sender@ == old(state)@.config.owner@ && expiration >= env.time
            + MIN_EXPIRATION,
        info.sender@ != old(state)@.config.owner@ ==> r == Err::<(), ContractError>(
            ContractError::Unauthorized {},
        ),
        info.sender@ == old(state)@.config.owner@ && expiration < env.time + MIN_EXPIRATION ==> r
            == Err::<(), ContractError>(ContractError::ExpirationTooSoon {}),
        r is Err ==> *final(state) == *old(state),
        r is Ok ==> final(state)@ == (StateV {
            allowed_addresses: allowed_upserted(old(state)@.allowed_addresses, address, expiration),
            ..old(state)@
        }),
        r is Ok ==> final(state).well_formed(),
{
    if !(info.sender == state.config.owner) {
        return Err(ContractError::Unauthorized {});
    }
    if expiration < env.time + MIN_EXPIRATION {
        return Err(ContractError::ExpirationTooSoon {});
    }
    let ghost addr0 = address;
    match find_entry(&state.allowed_addresses, &address) {
        None => {
            state.allowed_addresses.push((address, expiration));
            proof {
                lemma_keys_unique_push(old(state)@.allowed_addresses, (addr0, expiration));
                assert(state@.allowed_addresses =~= allowed_upserted(
                    old(state)@.allowed_addresses,
                    addr0,
                    expiration,
                ));
            }
        },
        Some(i) => {
            let key = state.allowed_addresses[i].0.clone();
            state.allowed_addresses.set(i, (key, expiration));
            proof {
                lemma_keys_unique_update(
                    old(state)@.allowed_addresses,
                    i as int,
                    (old(state)@.allowed_addresses[i as int].0, expiration),
                );
                assert(state@.allowed_addresses =~= allowed_upserted(
                    old(state)@.allowed_addresses,
                    addr0,
                    expiration,
                ));
            }
        },
    }
    Ok(())
}

/// Keys stay unique when an entry is removed.
proof fn lemma_keys_unique_remove<V>(m: Seq<(String, V)>, i: int)
    requires
        keys_unique(m),
        0 <= i < m.len(),
    ensures
        keys_unique(m.remove(i)),
{
    let p = m.remove(i);
    assert forall|a: int, b: int| 0 <= a < b < p.len() implies (#[trigger] p[a]).0@ != (
    #[trigger] p[b]).0@ by {
        let a0 = if a < i {
            a
        } else {
            a + 1
        };
        let b0 = if b < i {
            b
        } else {
            b + 1
        };
        assert(p[a] == m[a0] && p[b] == m[b0]);
        assert(m[a0].0@ != m[b0].0@);
    }
}

/// Removes an address from the commission-split allow list.  Only the owner
/// may call; removing an address that is not listed is reported.
pub fn remove_allowed_address(state: &mut State, info: &MessageInfo, address: &String) -> (r:
    Result<(), ContractError>)
    requires
        old(state).well_formed(),
    ensures
        r is Ok <==> info.sender@ == old(state)@.config.owner@ && find_index(
            old(state)@.allowed_addresses,
            address@,
        ) >= 0,
        info.sender@ != old(state)@.config.owner@ ==> r == Err::<(), ContractError>(
            ContractError::Unauthorized {},
        ),
        info.sender@ == old(state)@.config.owner@ && find_index(
            old(state)@.allowed_addresses,
            address@,
        ) == -1 ==> r == Err::<(), ContractError>(
            ContractError::CommissionAddressNotFound { address: *address },
        ),
        r is Err ==> *final(state) == *old(state),
        r is Ok ==> final(state)@ == (StateV {
            allowed_addresses: old(state)@.allowed_addresses.remove(
                find_index(old(state)@.allowed_addresses, address@),
            ),
            ..old(state)@
        }),
        r is Ok ==> final(state).well_formed(),
{
    if !(info.sender == state.config.owner) {
        return Err(ContractError::Unauthorized {});
    }
    match find_entry(&state.allowed_addresses, address) {
        None => Err(ContractError::CommissionAddressNotFound { address: address.clone() }),
        Some(i) => {
            state.allowed_addresses.remove(i);
            proof {
                lemma_keys_unique_remove(old(state)@.allowed_addresses, i as int);
            }
            Ok(())
        },
    }
}

/// The ledger after a deposit: one new partial stake on the sender's entry,
/// the entry created at height `h` when absent.
pub open spec fn deposited_ledger(
    ledger: Seq<(String, StakeDetailsV)>,
    sender: String,
    amount: Coin,
    denom: String,
    h: u64,
) -> Seq<(String, StakeDetailsV)> {
    let i = find_index(ledger, sender@);
    let stake = Stake { amount: amount, join_height: h };
    if i == -1 {
        ledger.push(
            (
                sender,
                StakeDetailsV {
                    total: Coin { denom, amount: 0 },
                    partials: seq![stake],
                    earnings: 0,
                    start_height: h,
                },
            ),
        )
    } else {
        ledger.update(
            i,
            (
                ledger[i].0,
                StakeDetailsV {
                    total: ledger[i].1.total,
                    partials: ledger[i].1.partials.push(stake),
                    earnings: ledger[i].1.earnings,
                    start_height: ledger[i].1.start_height,
                },
            ),
        )
    }
}

/// Adds the attached funds to the common staking pool as a new partial
/// stake, and splits the deposit into one delegate command per validator.
/// The deposit only becomes fully weighted at the next restake.  Exactly one
/// coin of funds must be attached.
pub fn delegate(state: &mut State, env: &Env, info: &MessageInfo) -> (r: Result<
    Vec<StakingMsg>,
    ContractError,
>)
    requires
        old(state).well_formed(),
    ensures
        r is Ok <==> info.funds@.len() == 1 && old(state)@.total.amount + info.funds@[0].amount
            <= u128::MAX,
        info.funds@.len() != 1 ==> r == Err::<Vec<StakingMsg>, ContractError>(
            ContractError::NoFunds {},
        ),
        info.funds@.len() == 1 && old(state)@.total.amount + info.funds@[0].amount > u128::MAX
            ==> r == Err::<Vec<StakingMsg>, ContractError>(ContractError::Overflow {}),
        r is Err ==> *final(state) == *old(state),
        r matches Ok(msgs) ==> {
            &&& msgs@ == split_msgs(info.funds@[0], true, old(state)@.validator_list)
            &&& final(state)@ == (StateV {
                total: Coin {
                    denom: old(state)@.total.denom,
                    amount: (old(state)@.total.amount + info.funds@[0].amount) as u128,
                },
                stake_details: deposited_ledger(
                    old(state)@.stake_details,
                    info.sender,
                    info.funds@[0],
                    old(state)@.config.denom,
                    env.height,
                ),
                ..old(state)@
            })
            &&& final(state).well_formed()
        },
{
    if info.funds.len() != 1 {
        return Err(ContractError::NoFunds {});
    }
    let amount = crate::state::clone_coin(&info.funds[0]);

    let new_total: u128 = match state.total.amount.checked_add(amount.amount) {
        Some(t) => t,
        None => {
            return Err(ContractError::Overflow {});
        },
    };

    proof {
        crate::state::lemma_table_entries_bounded(old(state)@.validator_list);
    }
    let msgs = delegate_msgs_for_validators(
        crate::state::clone_coin(&amount),
        true,
        &state.validator_list,
    );

    let stake = Stake { amount, join_height: env.height };
    let ghost sender0 = info.sender;
    proof {
        crate::state::lemma_find_index_view_entries(state.stake_details@, info.sender@);
    }
    match find_entry(&state.stake_details, &info.sender) {
        None => {
            let mut partials: Vec<Stake> = Vec::new();
            partials.push(stake);
            let entry = StakeDetails {
                total: Coin { denom: state.config.denom.clone(), amount: 0 },
                partials,
                earnings: 0,
                start_height: env.height,
            };
            state.stake_details.push((info.sender.clone(), entry));
            proof {
                lemma_keys_unique_push(
                    old(state)@.stake_details,
                    state@.stake_details.last(),
                );
                assert(state@.stake_details =~= deposited_ledger(
                    old(state)@.stake_details,
                    sender0,
                    info.funds@[0],
                    old(state)@.config.denom,
                    env.height,
                ));
            }
        },
        Some(i) => {
            let mut d = crate::state::clone_stake_details(&state.stake_details[i].1);
            d.partials.push(stake);
            let key = state.stake_details[i].0.clone();
            state.stake_details.set(i, (key, d));
            proof {
                lemma_keys_unique_update(
                    old(state)@.stake_details,
                    i as int,
                    state@.stake_details[i as int],
                );
                assert(state@.stake_details =~= deposited_ledger(
                    old(state)@.stake_details,
                    sender0,
                    info.funds@[0],
                    old(state)@.config.denom,
                    env.height,
                ));
            }
        },
    }
    state.total.amount = new_total;
    proof {
        assert(final(state)@ =~= (StateV {
            total: Coin {
                denom: old(state)@.total.denom,
                amount: (old(state)@.total.amount + info.funds@[0].amount) as u128,
            },
            stake_details: deposited_ledger(
                old(state)@.stake_details,
                sender0,
                info.funds@[0],
                old(state)@.config.denom,
                env.height,
            ),
            ..old(state)@
        }));
    }
    Ok(msgs)
}

/// Replaces the validator weight table and emits the redelegation commands
/// that realize the change over the currently staked total.  Only the owner
/// may call; a table whose weights do not sum to exactly 1, or that names a
/// validator twice, is rejected and leaves the stored table unchanged.  The
/// table is stored in the order given; that order carries no meaning but is
/// the order queries report and commands are emitted in.
pub fn update_validator_list(
    state: &mut State,
    info: &MessageInfo,
    new_validator_list: Vec<(String, Fraction)>,
) -> (r: Result<Vec<StakingMsg>, ContractError>)
    requires
        old(state).well_formed(),
    ensures
        r is Ok <==> info.sender@ == old(state)@.config.owner@ && crate::state::weights_sum(
            new_validator_list@,
        ) == FRACTION_UNIT && keys_unique(new_validator_list@),
        info.sender@ != old(state)@.config.owner@ ==> r == Err::<Vec<StakingMsg>, ContractError>(
            ContractError::Unauthorized {},
        ),
        info.sender@ == old(state)@.config.owner@ && (crate::state::weights_sum(
            new_validator_list@,
        ) != FRACTION_UNIT || !keys_unique(new_validator_list@)) ==> r == Err::<
            Vec<StakingMsg>,
            ContractError,
        >(ContractError::InvalidValidatorList {}),
        r is Err ==> *final(state) == *old(state),
        r matches Ok(msgs) ==> {
            &&& msgs@ == crate::rebalance::greedy_msgs(
                old(state)@.total.amount,
                old(state)@.config.denom,
                crate::rebalance::delegate_to_list(old(state)@.validator_list, new_validator_list@),
                crate::rebalance::delegate_from_list(
                    old(state)@.validator_list,
                    new_validator_list@,
                ),
            )
            &&& final(state)@ == (StateV {
                validator_list: new_validator_list@,
                ..old(state)@
            })
            &&& final(state).well_formed()
        },
{
    if !(info.sender == state.config.owner) {
        return Err(ContractError::Unauthorized {});
    }

    let ghost new_table = new_validator_list@;
    let n: usize = new_validator_list.len();

    // the table is a mapping: a duplicate validator id is rejected outright
    let mut i: usize = 0;
    while i < n
        invariant
            i <= n,
            n == new_validator_list.len(),
            new_table == new_validator_list@,
            info.sender@ == old(state)@.config.owner@,
            *state == *old(state),
            keys_unique(new_table.take(i as int)),
        decreases n - i,
    {
        let mut j: usize = 0;
        while j < i
            invariant
                j <= i,
                i < n,
                n == new_validator_list.len(),
                new_table == new_validator_list@,
                info.sender@ == old(state)@.config.owner@,
                *state == *old(state),
                keys_unique(new_table.take(i as int)),
                forall|a: int| 0 <= a < j ==> (#[trigger] new_table[a]).0@ != new_table[
                    i as int
                ].0@,
            decreases i - j,
        {
            if new_validator_list[j].0 == new_validator_list[i].0 {
                proof {
                    assert(new_table[j as int].0@ == new_table[i as int].0@);
                    assert(!keys_unique(new_table));
                }
                return Err(ContractError::InvalidValidatorList {});
            }
            j = j + 1;
        }
        proof {
            assert forall|a: int, b: int| 0 <= a < b < i + 1 implies (#[trigger] new_table.take(
                i + 1,
            )[a]).0@ != (#[trigger] new_table.take(i + 1)[b]).0@ by {
                assert(new_table.take(i + 1)[a] == new_table[a]);
                assert(new_table.take(i + 1)[b] == new_table[b]);
                if b < i as int {
                    assert(new_table.take(i as int)[a] == new_table[a]);
                    assert(new_table.take(i as int)[b] == new_table[b]);
                }
            }
        }
        i = i + 1;
    }
    proof {
        assert(new_table.take(n as int) =~= new_table);
    }

    let mut sum: u128 = 0;
    let mut i: usize = 0;
    while i < n
        invariant
            i <= n,
            n == new_validator_list.len(),
            new_table == new_validator_list@,
            info.sender@ == old(state)@.config.owner@,
            *state == *old(state),
            sum == crate::state::weights_sum(new_table.take(i as int)),
        decreases n - i,
    {
        proof {
            assert(new_table.take(i + 1).drop_last() =~= new_table.take(i as int));
            assert(new_table.take(i + 1).last() == new_table[i as int]);
        }
        match sum.checked_add(new_validator_list[i].1.atomics) {
            Some(t) => {
                sum = t;
            },
            None => {
                proof {
                    crate::state::lemma_weights_sum_take_le(new_table, i + 1);
                }
                return Err(ContractError::InvalidValidatorList {});
            },
        }
        i = i + 1;
    }
    proof {
        assert(new_table.take(n as int) =~= new_table);
    }
    if sum != FRACTION_UNIT {
        return Err(ContractError::InvalidValidatorList {});
    }

    proof {
        crate::state::lemma_table_entries_bounded(old(state)@.validator_list);
        crate::state::lemma_table_entries_bounded(new_table);
        crate::rebalance::lemma_from_list_bounded(
            old(state)@.validator_list,
            new_table,
            FRACTION_UNIT,
        );
        crate::rebalance::lemma_to_list_bounded(
            old(state)@.validator_list,
            new_table,
            FRACTION_UNIT,
        );
        crate::rebalance::lemma_greedy_ok_when_bounded(
            old(state)@.total.amount,
            crate::rebalance::delegate_to_list(old(state)@.validator_list, new_table),
            crate::rebalance::delegate_from_list(old(state)@.validator_list, new_table),
        );
    }
    let old_table = crate::state::clone_table(&state.validator_list);
    let new_table_copy = crate::state::clone_table(&new_validator_list);
    let msgs = match crate::rebalance::compute_redelegate_msgs(
        state.total.amount,
        &state.config.denom,
        old_table,
        new_table_copy,
    ) {
        Ok(msgs) => msgs,
        Err(_) => {
            proof {
                assert(false);
            }
            Vec::new()
        },
    };

    state.validator_list = new_validator_list;
    Ok(msgs)
}

/// How a transfer's amount is split: what the recipient receives, what goes
/// to the treasury, and what goes to the commission address.  With no
/// commission configured everything reaches the recipient; with one, the
/// commission is rounded down from the amount and, when a commission address
/// takes part, split evenly with the treasury (odd unit to the commission
/// address).
pub open spec fn commission_amounts(c: Fraction, amount: u128, has_ca: bool) -> (int, int, int) {
    if c.atomics == 0 {
        (amount as int, 0int, 0int)
    } else {
        let tc = crate::fraction::mul_ratio(
            amount as int,
            c.atomics as int,
            FRACTION_UNIT as int,
        );
        if has_ca {
            (amount - tc, tc / 2, tc - tc / 2)
        } else {
            (amount - tc, tc, 0int)
        }
    }
}

/// The ledger after the commission legs of a transfer: the commission
/// address (when one takes part) and the treasury are credited their splits.
pub open spec fn commissioned_ledger(
    ledger: Seq<(String, StakeDetailsV)>,
    c: Fraction,
    amount: u128,
    commission_address: Option<String>,
    treasury: String,
    denom: String,
    h: u64,
) -> Seq<(String, StakeDetailsV)> {
    if c.atomics == 0 {
        ledger
    } else {
        let split = commission_amounts(c, amount, commission_address is Some);
        let l2 = match commission_address {
            Some(a) => crate::state::credited_ledger(ledger, a, split.2 as u128, denom, h),
            None => ledger,
        };
        crate::state::credited_ledger(l2, treasury, split.1 as u128, denom, h)
    }
}

/// Crediting keeps the ledger's keys unique.
proof fn lemma_credited_keys_unique(
    ledger: Seq<(String, StakeDetailsV)>,
    addr: String,
    amount: u128,
    denom: String,
    h: u64,
)
    requires
        keys_unique(ledger),
    ensures
        keys_unique(crate::state::credited_ledger(ledger, addr, amount, denom, h)),
{
    let i = find_index(ledger, addr@);
    crate::state::lemma_find_index_spec(ledger, addr@);
    let result = crate::state::credited_ledger(ledger, addr, amount, denom, h);
    if i == -1 {
        lemma_keys_unique_push(ledger, result.last());
    } else {
        lemma_keys_unique_update(ledger, i, result[i]);
    }
}

/// Debiting keeps the ledger's keys unique.
proof fn lemma_debited_keys_unique(
    ledger: Seq<(String, StakeDetailsV)>,
    addr: String,
    amount: u128,
    denom: String,
    h: u64,
)
    requires
        keys_unique(ledger),
    ensures
        keys_unique(crate::state::debited_ledger(ledger, addr, amount, denom, h)),
{
    let i = find_index(ledger, addr@);
    crate::state::lemma_find_index_spec(ledger, addr@);
    let result = crate::state::debited_ledger(ledger, addr, amount, denom, h);
    if i == -1 {
        lemma_keys_unique_push(ledger, result.last());
    } else {
        lemma_keys_unique_update(ledger, i, result[i]);
    }
}

/// Takes the commission legs of a transfer out of `amount`: validates the
/// commission address against the allow list, credits it and the treasury
/// with their splits, and hands back the net amount together with both
/// splits.  With no transfer commission configured this changes nothing and
/// the whole amount passes through.
fn deduct_commission(
    ledger: &mut Vec<(String, StakeDetails)>,
    config: &Config,
    allowed_addresses: &Vec<(String, u64)>,
    env: &Env,
    recipient: &String,
    amount: u128,
    commission_address: &Option<String>,
) -> (r: Result<(u128, u128, u128), ContractError>)
    requires
        config.well_formed(),
    ensures
        r is Ok <==> ({
            let split = commission_amounts(
                config.transfer_commission,
                amount,
                commission_address is Some,
            );
            &&& (match commission_address {
                Some(a) => config.transfer_commission.atomics != 0 ==> {
                    &&& find_index(allowed_addresses@, a@) >= 0
                    &&& env.time < allowed_addresses@[find_index(allowed_addresses@, a@)].1
                    &&& recipient@ != a@
                    &&& crate::state::credited_ok(
                        crate::state::view_entries(old(ledger)@),
                        a@,
                        split.2 as u128,
                    )
                },
                None => true,
            })
            &&& config.transfer_commission.atomics != 0 ==> crate::state::credited_ok(
                (match commission_address {
                    Some(a) => crate::state::credited_ledger(
                        crate::state::view_entries(old(ledger)@),
                        *a,
                        split.2 as u128,
                        config.denom,
                        env.height,
                    ),
                    None => crate::state::view_entries(old(ledger)@),
                }),
                config.treasury@,
                split.1 as u128,
            )
        }),
        (match commission_address {
            Some(a) => {
                &&& config.transfer_commission.atomics != 0 && find_index(allowed_addresses@, a@)
                    == -1 ==> r == Err::<(u128, u128, u128), ContractError>(
                    ContractError::CommissionAddressNotFound { address: *a },
                )
                &&& config.transfer_commission.atomics != 0 && find_index(allowed_addresses@, a@)
                    >= 0 && env.time >= allowed_addresses@[find_index(allowed_addresses@, a@)].1
                    ==> r == Err::<(u128, u128, u128), ContractError>(
                    ContractError::CommissionAddressExpired { address: *a },
                )
                &&& config.transfer_commission.atomics != 0 && find_index(allowed_addresses@, a@)
                    >= 0 && env.time < allowed_addresses@[find_index(allowed_addresses@, a@)].1
                    && recipient@ == a@ ==> r == Err::<(u128, u128, u128), ContractError>(
                    ContractError::CommissionAddressSameAsRecipient {},
                )
            },
            None => true,
        }),
        r matches Ok(v) ==> ({
            let split = commission_amounts(
                config.transfer_commission,
                amount,
                commission_address is Some,
            );
            &&& v == (split.0 as u128, split.1 as u128, split.2 as u128)
            &&& crate::state::view_entries(final(ledger)@) == commissioned_ledger(
                crate::state::view_entries(old(ledger)@),
                config.transfer_commission,
                amount,
                (match commission_address {
                    Some(a) => Some(*a),
                    None => None,
                }),
                config.treasury,
                config.denom,
                env.height,
            )
        }),
{
    if config.transfer_commission.is_zero() {
        return Ok((amount, 0, 0));
    }
    proof {
        crate::fraction::lemma_mul_ratio_le_for_small_fraction(
            amount as int,
            config.transfer_commission.atomics as int,
        );
    }
    let total_commission = config.transfer_commission.mul_amount(amount);
    let mut treasury_amount: u128 = total_commission;
    let mut commission_amount: u128 = 0;

    match commission_address {
        Some(ca) => {
            match find_entry(allowed_addresses, ca) {
                None => {
                    return Err(ContractError::CommissionAddressNotFound { address: ca.clone() });
                },
                Some(j) => {
                    let expiration = allowed_addresses[j].1;
                    if env.time >= expiration {
                        return Err(
                            ContractError::CommissionAddressExpired { address: ca.clone() },
                        );
                    }
                },
            }
            if *recipient == *ca {
                return Err(ContractError::CommissionAddressSameAsRecipient {});
            }
            treasury_amount = total_commission / 2;
            commission_amount = total_commission - treasury_amount;
            match crate::state::credit_stake(ledger, ca, commission_amount, &config.denom, env.height) {
                Ok(()) => {},
                Err(e) => {
                    return Err(e);
                },
            }
        },
        None => {},
    }

    match crate::state::credit_stake(ledger, &config.treasury, treasury_amount, &config.denom, env.height) {
        Ok(()) => {},
        Err(e) => {
            return Err(e);
        },
    }
    Ok((amount - total_commission, treasury_amount, commission_amount))
}

/// Moves `amount` of vested stake from the sender to the recipient, taking
/// the configured transfer commission on the way: the commission goes to the
/// treasury, or is split evenly between the treasury and an allowed
/// commission address when one is named.  Positions are created at the
/// current height for parties not yet in the ledger.
pub fn transfer(
    state: &mut State,
    env: &Env,
    sender: &String,
    recipient: &String,
    amount: u128,
    commission_address: &Option<String>,
) -> (r: Result<(), ContractError>)
    requires
        old(state).well_formed(),
    ensures
        r is Err ==> *final(state) == *old(state),
        !crate::state::debited_ok(old(state)@.stake_details, sender@, amount) ==> r == Err::<
            (),
            ContractError,
        >(ContractError::Overflow {}),
        ({
            let l0 = old(state)@.stake_details;
            let c = old(state)@.config.transfer_commission;
            let l1 = crate::state::debited_ledger(
                l0,
                *sender,
                amount,
                old(state)@.config.denom,
                env.height,
            );
            let split = commission_amounts(c, amount, commission_address is Some);
            &&& r is Ok <==> ({
                let l2 = (match commission_address {
                    Some(a) => crate::state::credited_ledger(
                        l1,
                        *a,
                        split.2 as u128,
                        old(state)@.config.denom,
                        env.height,
                    ),
                    None => l1,
                });
                let l3 = commissioned_ledger(
                    l1,
                    c,
                    amount,
                    (match commission_address {
                        Some(a) => Some(*a),
                        None => None,
                    }),
                    old(state)@.config.treasury,
                    old(state)@.config.denom,
                    env.height,
                );
                &&& crate::state::debited_ok(l0, sender@, amount)
                &&& (match commission_address {
                    Some(a) => c.atomics != 0 ==> {
                        &&& find_index(old(state)@.allowed_addresses, a@) >= 0
                        &&& env.time < old(state)@.allowed_addresses[find_index(
                            old(state)@.allowed_addresses,
                            a@,
                        )].1
                        &&& recipient@ != a@
                        &&& crate::state::credited_ok(l1, a@, split.2 as u128)
                    },
                    None => true,
                })
                &&& c.atomics != 0 ==> crate::state::credited_ok(
                    l2,
                    old(state)@.config.treasury@,
                    split.1 as u128,
                )
                &&& crate::state::credited_ok(l3, recipient@, split.0 as u128)
            })
            &&& (match commission_address {
                Some(a) => {
                    &&& crate::state::debited_ok(l0, sender@, amount) && c.atomics != 0
                        && find_index(old(state)@.allowed_addresses, a@) == -1 ==> r == Err::<
                        (),
                        ContractError,
                    >(ContractError::CommissionAddressNotFound { address: *a })
                    &&& crate::state::debited_ok(l0, sender@, amount) && c.atomics != 0
                        && find_index(old(state)@.allowed_addresses, a@) >= 0 && env.time
                        >= old(state)@.allowed_addresses[find_index(
                        old(state)@.allowed_addresses,
                        a@,
                    )].1 ==> r == Err::<(), ContractError>(
                        ContractError::CommissionAddressExpired { address: *a },
                    )
                    &&& crate::state::debited_ok(l0, sender@, amount) && c.atomics != 0
                        && find_index(old(state)@.allowed_addresses, a@) >= 0 && env.time
                        < old(state)@.allowed_addresses[find_index(
                        old(state)@.allowed_addresses,
                        a@,
                    )].1 && recipient@ == a@ ==> r == Err::<(), ContractError>(
                        ContractError::CommissionAddressSameAsRecipient {},
                    )
                },
                None => true,
            })
            &&& r is Ok ==> ({
                let l3 = commissioned_ledger(
                    l1,
                    c,
                    amount,
                    (match commission_address {
                        Some(a) => Some(*a),
                        None => None,
                    }),
                    old(state)@.config.treasury,
                    old(state)@.config.denom,
                    env.height,
                );
                &&& final(state)@ == (StateV {
                    stake_details: crate::state::credited_ledger(
                        l3,
                        *recipient,
                        split.0 as u128,
                        old(state)@.config.denom,
                        env.height,
                    ),
                    ..old(state)@
                })
                &&& final(state).well_formed()
            })
        }),
{
    let mut ledger = crate::state::clone_ledger(&state.stake_details);

    match crate::state::debit_stake(&mut ledger, sender, amount, &state.config.denom, env.height) {
        Ok(()) => {},
        Err(e) => {
            return Err(e);
        },
    }

    let net: u128 = match deduct_commission(
        &mut ledger,
        &state.config,
        &state.allowed_addresses,
        env,
        recipient,
        amount,
        commission_address,
    ) {
        Ok((net, _treasury_amount, _commission_amount)) => net,
        Err(e) => {
            return Err(e);
        },
    };

    match crate::state::credit_stake(&mut ledger, recipient, net, &state.config.denom, env.height) {
        Ok(()) => {},
        Err(e) => {
            return Err(e);
        },
    }

    proof {
        let l0 = old(state)@.stake_details;
        let denom = old(state)@.config.denom;
        let l1 = crate::state::debited_ledger(l0, *sender, amount, denom, env.height);
        let c = old(state)@.config.transfer_commission;
        lemma_debited_keys_unique(l0, *sender, amount, denom, env.height);
        if c.atomics != 0 {
            let split = commission_amounts(c, amount, commission_address is Some);
            match commission_address {
                Some(a) => {
                    lemma_credited_keys_unique(l1, *a, split.2 as u128, denom, env.height);
                    lemma_credited_keys_unique(
                        crate::state::credited_ledger(l1, *a, split.2 as u128, denom, env.height),
                        old(state)@.config.treasury,
                        split.1 as u128,
                        denom,
                        env.height,
                    );
                },
                None => {
                    lemma_credited_keys_unique(
                        l1,
                        old(state)@.config.treasury,
                        split.1 as u128,
                        denom,
                        env.height,
                    );
                },
            }
        }
        let l3 = commissioned_ledger(
            l1,
            c,
            amount,
            (match commission_address {
                Some(a) => Some(*a),
                None => None,
            }),
            old(state)@.config.treasury,
            denom,
            env.height,
        );
        lemma_credited_keys_unique(
            l3,
            *recipient,
            commission_amounts(c, amount, commission_address is Some).0 as u128,
            denom,
            env.height,
        );
    }
    state.stake_details = ledger;
    Ok(())
}

/// A depositor's position as stored, or a fresh empty position first seen at
/// `start_height` when none is stored.
pub fn unwrap_stake_details(
    stake_details: Option<StakeDetails>,
    denom: String,
    start_height: u64,
) -> (r: StakeDetails)
    ensures
        stake_details matches Some(d) ==> r == d,
        stake_details is None ==> r@ == (StakeDetailsV {
            total: Coin { denom: denom, amount: 0 },
            partials: Seq::empty(),
            earnings: 0,
            start_height,
        }),
{
    match stake_details {
        Some(d) => d,
        None => StakeDetails {
            total: Coin { denom, amount: 0 },
            partials: Vec::new(),
            earnings: 0,
            start_height,
        },
    }
}

} // verus!
