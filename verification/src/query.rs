//! The read-only queries: each one reports a part of the state exactly.

use vstd::prelude::*;

use crate::msg::{
    AllowedAddrListResponse, AllowedAddrResponse, ClaimsResponse, Coin, ConfigResponse,
    DelegateResponse, DelegatedResponse, LastPaymentBlockResponse, PendingClaimResponse,
    RewardResponse, TotalDelegatedResponse, ValidatorWeightResponse, ValidatorsResponse,
};
use crate::state::{
    clone_claims, clone_coin, clone_config, find_entry, find_index, Config, Stake, State,
};

verus! {

/// The current configuration.
pub fn config(state: &State) -> (r: ConfigResponse)
    ensures
        r.config == state.config,
{
    ConfigResponse { config: clone_config(&state.config) }
}

/// The sum of all partial-stake amounts, vested or not.
pub open spec fn partials_sum(partials: Seq<Stake>) -> int
    decreases partials.len(),
{
    if partials.len() == 0 {
        0
    } else {
        partials_sum(partials.drop_last()) + partials.last().amount.amount as int
    }
}

/// One depositor's position: the staked amount (vested total plus every
/// partial), the cumulative earnings and the first-deposit height.  A
/// depositor without a ledger entry has no position.
pub fn delegated(state: &State, sender: &String) -> (r: DelegatedResponse)
    requires
        find_index(state.stake_details@, sender@) >= 0 ==> {
            let d = state.stake_details@[find_index(state.stake_details@, sender@)].1;
            d.total.amount + partials_sum(d.partials@) <= u128::MAX
        },
    ensures
        find_index(state.stake_details@, sender@) == -1 ==> r.delegated@ == Seq::<
            DelegateResponse,
        >::empty(),
        find_index(state.stake_details@, sender@) >= 0 ==> {
            let d = state.stake_details@[find_index(state.stake_details@, sender@)].1;
            r.delegated@ == seq![
                DelegateResponse {
                    start_height: d.start_height,
                    total_staked: (d.total.amount + partials_sum(d.partials@)) as u128,
                    total_earnings: d.earnings,
                },
            ]
        },
{
    match find_entry(&state.stake_details, sender) {
        None => DelegatedResponse { delegated: Vec::new() },
        Some(i) => {
            let d = &state.stake_details[i].1;
            let ghost all = d.partials@;
            let mut partial_stakes: u128 = 0;
            let n: usize = d.partials.len();
            let mut k: usize = 0;
            while k < n
                invariant
                    k <= n,
                    n == d.partials.len(),
                    all == d.partials@,
                    d.total.amount + partials_sum(all) <= u128::MAX,
                    partial_stakes == partials_sum(all.take(k as int)),
                decreases n - k,
            {
                proof {
                    assert(all.take(k + 1).drop_last() =~= all.take(k as int));
                    assert(all.take(k + 1).last() == all[k as int]);
                    lemma_partials_sum_take_le(all, k + 1);
                }
                partial_stakes = partial_stakes + d.partials[k].amount.amount;
                k = k + 1;
            }
            proof {
                assert(all.take(n as int) =~= all);
            }
            let mut delegated: Vec<DelegateResponse> = Vec::new();
            delegated.push(
                DelegateResponse {
                    start_height: d.start_height,
                    total_staked: d.total.amount + partial_stakes,
                    total_earnings: d.earnings,
                },
            );
            DelegatedResponse { delegated }
        },
    }
}

/// A prefix of the partials never sums to more than all of them.
proof fn lemma_partials_sum_take_le(partials: Seq<Stake>, i: int)
    requires
        0 <= i <= partials.len(),
    ensures
        partials_sum(partials.take(i)) <= partials_sum(partials),
    decreases partials.len(),
{
    if i == partials.len() {
        assert(partials.take(i) =~= partials);
    } else {
        assert(partials.drop_last().take(i) =~= partials.take(i));
        lemma_partials_sum_take_le(partials.drop_last(), i);
    }
}

/// The aggregate amount of staked and earned tokens.
pub fn total(state: &State) -> (r: TotalDelegatedResponse)
    ensures
        r.amount == state.total,
{
    TotalDelegatedResponse { amount: clone_coin(&state.total) }
}

/// The sum of the amounts of the coins carrying the given denomination.
pub open spec fn denom_sum(coins: Seq<Coin>, denom: Seq<char>) -> int
    decreases coins.len(),
{
    if coins.len() == 0 {
        0
    } else {
        denom_sum(coins.drop_last(), denom) + if coins.last().denom@ == denom {
            coins.last().amount as int
        } else {
            0
        }
    }
}

proof fn lemma_denom_sum_take_le(coins: Seq<Coin>, denom: Seq<char>, i: int)
    requires
        0 <= i <= coins.len(),
    ensures
        denom_sum(coins.take(i), denom) <= denom_sum(coins, denom),
    decreases coins.len(),
{
    if i == coins.len() {
        assert(coins.take(i) =~= coins);
    } else {
        assert(coins.drop_last().take(i) =~= coins.take(i));
        lemma_denom_sum_take_le(coins.drop_last(), denom, i);
    }
}

/// The reward available to restake: the accumulated rewards the host
/// reported, folded into one coin of the configured denomination.  Rewards
/// in any other denomination are ignored.
pub fn reward(rewards: &Vec<Coin>, config: &Config) -> (r: RewardResponse)
    requires
        denom_sum(rewards@, config.denom@) <= u128::MAX,
    ensures
        r.rewards@ == seq![
            Coin { denom: config.denom, amount: denom_sum(rewards@, config.denom@) as u128 },
        ],
{
    let ghost all = rewards@;
    let mut amount: u128 = 0;
    let n: usize = rewards.len();
    let mut i: usize = 0;
    while i < n
        invariant
            i <= n,
            n == rewards.len(),
            all == rewards@,
            denom_sum(all, config.denom@) <= u128::MAX,
            amount == denom_sum(all.take(i as int), config.denom@),
        decreases n - i,
    {
        proof {
            assert(all.take(i + 1).drop_last() =~= all.take(i as int));
            assert(all.take(i + 1).last() == all[i as int]);
            lemma_denom_sum_take_le(all, config.denom@, i + 1);
        }
        if rewards[i].denom == config.denom {
            amount = amount + rewards[i].amount;
        }
        i = i + 1;
    }
    proof {
        assert(all.take(n as int) =~= all);
    }
    let mut rewards_out: Vec<Coin> = Vec::new();
    rewards_out.push(Coin { denom: config.denom.clone(), amount });
    RewardResponse { rewards: rewards_out }
}

/// The amount the sender has queued for the next batch release; zero when
/// nothing is queued.
pub fn pending_claim(state: &State, sender: &String) -> (r: PendingClaimResponse)
    ensures
        find_index(state.pending_claims@, sender@) == -1 ==> r.amount == 0,
        find_index(state.pending_claims@, sender@) >= 0 ==> r.amount == state.pending_claims@[
            find_index(state.pending_claims@, sender@)
        ].1,
{
    match find_entry(&state.pending_claims, sender) {
        None => PendingClaimResponse { amount: 0 },
        Some(i) => PendingClaimResponse { amount: state.pending_claims[i].1 },
    }
}

/// All current unbonding claims of the sender, in the order they were made.
pub fn claims(state: &State, sender: &String) -> (r: ClaimsResponse)
    ensures
        find_index(state.unbonding_claims@, sender@) == -1 ==> r.claims@ == Seq::<
            crate::state::ClaimDetails,
        >::empty(),
        find_index(state.unbonding_claims@, sender@) >= 0 ==> r.claims@ == state.unbonding_claims@[
            find_index(state.unbonding_claims@, sender@)
        ].1@,
{
    match find_entry(&state.unbonding_claims, sender) {
        None => ClaimsResponse { claims: Vec::new() },
        Some(i) => ClaimsResponse { claims: clone_claims(&state.unbonding_claims[i].1) },
    }
}

/// The height of the most recent reward payment.
pub fn last_payment_block(state: &State) -> (r: LastPaymentBlockResponse)
    ensures
        r.last_payment_block == state.last_payment_block,
{
    LastPaymentBlockResponse { last_payment_block: state.last_payment_block }
}

/// The whole validator weight table, in its stored order (the order the
/// last table update supplied).
pub fn validator_list(state: &State) -> (r: ValidatorsResponse)
    ensures
        r.validators@ == state.validator_list@,
{
    let ghost all = state.validator_list@;
    let mut validators: Vec<(String, crate::fraction::Fraction)> = Vec::new();
    let n: usize = state.validator_list.len();
    let mut i: usize = 0;
    while i < n
        invariant
            i <= n,
            n == state.validator_list.len(),
            all == state.validator_list@,
            validators@ =~= all.take(i as int),
        decreases n - i,
    {
        let entry = &state.validator_list[i];
        validators.push((entry.0.clone(), entry.1));
        i = i + 1;
    }
    proof {
        assert(all.take(n as int) =~= all);
    }
    ValidatorsResponse { validators }
}

/// One validator's weight, when the validator is in the table.
pub fn validator(state: &State, addr: &String) -> (r: Option<ValidatorWeightResponse>)
    ensures
        find_index(state.validator_list@, addr@) == -1 ==> r is None,
        find_index(state.validator_list@, addr@) >= 0 ==> r == Some(
            ValidatorWeightResponse {
                weight: state.validator_list@[find_index(state.validator_list@, addr@)].1,
            },
        ),
{
    match find_entry(&state.validator_list, addr) {
        None => None,
        Some(i) => Some(ValidatorWeightResponse { weight: state.validator_list[i].1 }),
    }
}

/// The expiration of an address on the commission-split allow list, when the
/// address is on it.
pub fn allowed_addr(state: &State, address: &String) -> (r: Option<AllowedAddrResponse>)
    ensures
        find_index(state.allowed_addresses@, address@) == -1 ==> r is None,
        find_index(state.allowed_addresses@, address@) >= 0 ==> r == Some(
            AllowedAddrResponse {
                expires: state.allowed_addresses@[find_index(state.allowed_addresses@, address@)].1,
            },
        ),
{
    match find_entry(&state.allowed_addresses, address) {
        None => None,
        Some(i) => Some(AllowedAddrResponse { expires: state.allowed_addresses[i].1 }),
    }
}

/// The whole commission-split allow list.
pub fn allowed_addr_list(state: &State) -> (r: AllowedAddrListResponse)
    ensures
        r.allowed_list@ == state.allowed_addresses@,
{
    let ghost all = state.allowed_addresses@;
    let mut allowed_list: Vec<(String, u64)> = Vec::new();
    let n: usize = state.allowed_addresses.len();
    let mut i: usize = 0;
    while i < n
        invariant
            i <= n,
            n == state.allowed_addresses.len(),
            all == state.allowed_addresses@,
            allowed_list@ =~= all.take(i as int),
        decreases n - i,
    {
        let entry = &state.allowed_addresses[i];
        allowed_list.push((entry.0.clone(), entry.1));
        i = i + 1;
    }
    proof {
        assert(all.take(n as int) =~= all);
    }
    AllowedAddrListResponse { allowed_list }
}

} // verus!
