//! The unbonding claim queue: undelegations accumulate per depositor as
//! pending claims, a cooldown-gated batch release turns them into unbonding
//! claims under a shared release time, and a claim call pays out whatever
//! has matured.

use vstd::prelude::*;

use crate::error::ContractError;
use crate::msg::{BankMsg, Coin, Env, MessageInfo, StakingMsg};
use crate::rebalance::{delegate_msgs_for_validators, split_msgs};
use crate::state::{
    all_consolidated_ok, consolidate_details, consolidated_total, find_entry, find_index,
    fresh_partials, keys_unique,
    lemma_keys_unique_push, lemma_keys_unique_update, pending_upsert_ok, pending_upserted,
    ClaimDetails, Config, StakeDetails, StakeDetailsV, State, StateV,
};

verus! {

/// Lets a batch release proceed only when the minimum cooldown has fully
/// elapsed since the previous one.
pub fn check_unbonding_cooldown(state: &State, config: &Config, env: &Env) -> (r: Result<
    (),
    ContractError,
>)
    ensures
        r is Ok <==> state.latest_unbonding + config.min_unbonding_cooldown <= env.time,
        state.latest_unbonding + config.min_unbonding_cooldown > u64::MAX ==> r == Err::<
            (),
            ContractError,
        >(ContractError::Overflow {}),
        state.latest_unbonding + config.min_unbonding_cooldown <= u64::MAX && env.time
            < state.latest_unbonding + config.min_unbonding_cooldown ==> r == Err::<
            (),
            ContractError,
        >(
            ContractError::UnbondingCooldownNotExpired {
                latest_unbonding: state.latest_unbonding,
                min_cooldown: config.min_unbonding_cooldown,
            },
        ),
{
    match state.latest_unbonding.checked_add(config.min_unbonding_cooldown) {
        Some(deadline) => {
            if env.time >= deadline {
                Ok(())
            } else {
                Err(
                    ContractError::UnbondingCooldownNotExpired {
                        latest_unbonding: state.latest_unbonding,
                        min_cooldown: config.min_unbonding_cooldown,
                    },
                )
            }
        },
        None => Err(ContractError::Overflow {}),
    }
}

/// Queues an undelegation: consolidates the sender's position, shrinks the
/// vested total by the amount, and adds the amount to the sender's pending
/// claim for the next batch release.  No staking command is emitted yet.
/// Stake that has not vested into the total cannot be undelegated.
pub fn queue_undelegate(state: &mut State, info: &MessageInfo, amount: Coin) -> (r: Result<
    (),
    ContractError,
>)
    requires
        old(state).well_formed(),
    ensures
        find_index(old(state)@.stake_details, info.sender@) == -1 ==> r == Err::<
            (),
            ContractError,
        >(ContractError::DelegationNotFound {}),
        find_index(old(state)@.stake_details, info.sender@) >= 0 ==> {
            let di = find_index(old(state)@.stake_details, info.sender@);
            let d = old(state)@.stake_details[di].1;
            let ct = consolidated_total(d, old(state)@.last_payment_block);
            &&& ct > u128::MAX ==> r == Err::<(), ContractError>(ContractError::Overflow {})
            &&& ct <= u128::MAX && amount.amount > ct ==> r == Err::<(), ContractError>(
                ContractError::NotEnoughToUndelegate { wanted: amount.amount, have: ct as u128 },
            )
            &&& ct <= u128::MAX && amount.amount <= ct && !pending_upsert_ok(
                old(state)@.pending_claims,
                info.sender@,
                amount.amount,
            ) ==> r == Err::<(), ContractError>(ContractError::Overflow {})
            &&& ct <= u128::MAX && amount.amount <= ct && pending_upsert_ok(
                old(state)@.pending_claims,
                info.sender@,
                amount.amount,
            ) ==> r is Ok && final(state)@ == (StateV {
                stake_details: old(state)@.stake_details.update(
                    di,
                    (
                        old(state)@.stake_details[di].0,
                        StakeDetailsV {
                            total: Coin {
                                denom: d.total.denom,
                                amount: (ct - amount.amount) as u128,
                            },
                            partials: fresh_partials(d.partials, old(state)@.last_payment_block),
                            earnings: d.earnings,
                            start_height: d.start_height,
                        },
                    ),
                ),
                pending_claims: pending_upserted(
                    old(state)@.pending_claims,
                    info.sender,
                    amount.amount,
                ),
                ..old(state)@
            }) && final(state).well_formed()
        },
        r is Err ==> *final(state) == *old(state),
{
    proof {
        crate::state::lemma_find_index_view_entries(state.stake_details@, info.sender@);
    }
    let i: usize = match find_entry(&state.stake_details, &info.sender) {
        None => {
            return Err(ContractError::DelegationNotFound {});
        },
        Some(i) => i,
    };
    proof {
        assert(old(state)@.stake_details[i as int] == (
            state.stake_details@[i as int].0,
            state.stake_details@[i as int].1@,
        ));
    }
    let mut d = crate::state::clone_stake_details(&state.stake_details[i].1);
    proof {
        assert(i as int == find_index(old(state)@.stake_details, info.sender@));
        assert(d@ == old(state)@.stake_details[i as int].1);
    }
    match d.consolidate_partials(state.last_payment_block) {
        Ok(()) => {},
        Err(e) => {
            return Err(e);
        },
    }
    proof {
        assert(d@ == crate::state::consolidate_details(
            old(state)@.stake_details[i as int].1,
            old(state)@.last_payment_block,
        ));
    }
    let reduced: u128 = match d.total.amount.checked_sub(amount.amount) {
        Some(t) => t,
        None => {
            return Err(
                ContractError::NotEnoughToUndelegate {
                    wanted: amount.amount,
                    have: d.total.amount,
                },
            );
        },
    };
    d.total.amount = reduced;
    proof {
        let dd = old(state)@.stake_details[i as int].1;
        let lpb = old(state)@.last_payment_block;
        crate::state::lemma_vested_amount_nonneg(dd.partials, lpb);
    }

    match crate::state::upsert_pending(&mut state.pending_claims, &info.sender, amount.amount) {
        Ok(()) => {},
        Err(e) => {
            return Err(e);
        },
    }

    let key = state.stake_details[i].0.clone();
    state.stake_details.set(i, (key, d));
    proof {
        lemma_keys_unique_update(
            old(state)@.stake_details,
            i as int,
            state@.stake_details[i as int],
        );
        let di = find_index(old(state)@.stake_details, info.sender@);
        let dd = old(state)@.stake_details[di].1;
        let ct = consolidated_total(dd, old(state)@.last_payment_block);
        let target = old(state)@.stake_details.update(
            di,
            (
                old(state)@.stake_details[di].0,
                StakeDetailsV {
                    total: Coin { denom: dd.total.denom, amount: (ct - amount.amount) as u128 },
                    partials: fresh_partials(dd.partials, old(state)@.last_payment_block),
                    earnings: dd.earnings,
                    start_height: dd.start_height,
                },
            ),
        );
        assert(state@.stake_details.len() == target.len());
        assert forall|k: int| 0 <= k < target.len() implies state@.stake_details[k] == target[k] by {
            assert(state@.stake_details[k] == (
                state.stake_details@[k].0,
                state.stake_details@[k].1@,
            ));
            if k != di {
                assert(state.stake_details@[k] == old(state).stake_details@[k]);
                assert(old(state)@.stake_details[k] == (
                    old(state).stake_details@[k].0,
                    old(state).stake_details@[k].1@,
                ));
            } else {
                assert(state.stake_details@[k].0@ == old(state).stake_details@[k].0@);
                assert(state.stake_details@[k].1@.total.denom == dd.total.denom);
                assert(state.stake_details@[k].1@.total.amount == (ct - amount.amount) as u128);
                assert(state.stake_details@[k].1@.partials == fresh_partials(
                    dd.partials,
                    old(state)@.last_payment_block,
                ));
                assert(state.stake_details@[k].1@.earnings == dd.earnings);
                assert(state.stake_details@[k].1@.start_height == dd.start_height);
            }
        }
        assert(state@.stake_details =~= target);
        let pi = find_index(old(state)@.pending_claims, info.sender@);
        crate::state::lemma_find_index_spec(old(state)@.pending_claims, info.sender@);
        if pi == -1 {
            crate::state::lemma_keys_unique_push(
                old(state)@.pending_claims,
                (info.sender, amount.amount),
            );
        } else {
            lemma_keys_unique_update(
                old(state)@.pending_claims,
                pi,
                state@.pending_claims[pi],
            );
        }
    }
    Ok(())
}

/// The sum of the claim amounts whose release time has passed.
pub open spec fn matured_amount(claims: Seq<ClaimDetails>, now: u64) -> int
    decreases claims.len(),
{
    if claims.len() == 0 {
        0
    } else {
        matured_amount(claims.drop_last(), now) + if claims.last().release_timestamp <= now {
            claims.last().amount.amount as int
        } else {
            0
        }
    }
}

/// The claims whose release time has not yet passed, in order.
pub open spec fn unmatured_claims(claims: Seq<ClaimDetails>, now: u64) -> Seq<ClaimDetails>
    decreases claims.len(),
{
    if claims.len() == 0 {
        Seq::empty()
    } else {
        let rest = unmatured_claims(claims.drop_last(), now);
        if claims.last().release_timestamp > now {
            rest.push(claims.last())
        } else {
            rest
        }
    }
}

proof fn lemma_matured_amount_take_le(claims: Seq<ClaimDetails>, now: u64, i: int)
    requires
        0 <= i <= claims.len(),
    ensures
        matured_amount(claims.take(i), now) <= matured_amount(claims, now),
    decreases claims.len(),
{
    if i == claims.len() {
        assert(claims.take(i) =~= claims);
    } else {
        assert(claims.drop_last().take(i) =~= claims.take(i));
        lemma_matured_amount_take_le(claims.drop_last(), now, i);
    }
}

/// The sender's unbonding claims after a claim call at `now`: only the
/// not-yet-matured ones remain.
pub open spec fn claimed_store(
    store: Seq<(String, Seq<ClaimDetails>)>,
    sender: String,
    now: u64,
) -> Seq<(String, Seq<ClaimDetails>)> {
    let i = find_index(store, sender@);
    if i == -1 {
        store.push((sender, Seq::empty()))
    } else {
        store.update(i, (store[i].0, unmatured_claims(store[i].1, now)))
    }
}

/// Pays out every unbonding claim of the sender that met its deadline, in
/// one transfer, and keeps the unmatured claims.  Claiming with nothing
/// matured is a successful no-op that pays nothing and changes no claim.
pub fn claim(state: &mut State, env: &Env, info: &MessageInfo) -> (r: Result<
    Vec<BankMsg>,
    ContractError,
>)
    requires
        old(state).well_formed(),
    ensures
        ({
            let ci = find_index(old(state)@.unbonding_claims, info.sender@);
            let cl = if ci == -1 {
                Seq::<ClaimDetails>::empty()
            } else {
                old(state)@.unbonding_claims[ci].1
            };
            let paid = matured_amount(cl, env.time);
            &&& r is Ok <==> paid <= u128::MAX
            &&& paid > u128::MAX ==> r == Err::<Vec<BankMsg>, ContractError>(
                ContractError::Overflow {},
            )
            &&& r is Err ==> *final(state) == *old(state)
            &&& r matches Ok(msgs) ==> {
                &&& final(state)@ == (StateV {
                    unbonding_claims: claimed_store(
                        old(state)@.unbonding_claims,
                        info.sender,
                        env.time,
                    ),
                    ..old(state)@
                })
                &&& final(state).well_formed()
                &&& paid == 0 ==> msgs@ == Seq::<BankMsg>::empty()
                &&& paid > 0 ==> msgs@.len() == 1 && (msgs@[0] matches BankMsg::Send {
                    to_address,
                    amount,
                } && to_address@ == info.sender@ && amount@ == seq![
                    Coin { denom: old(state)@.config.denom, amount: paid as u128 },
                ])
            }
        }),
{
    proof {
        crate::state::lemma_find_index_view_entries(state.unbonding_claims@, info.sender@);
    }
    let found = find_entry(&state.unbonding_claims, &info.sender);

    let mut claim_amount: u128 = 0;
    let mut unexpired: Vec<ClaimDetails> = Vec::new();
    match found {
        None => {},
        Some(ci) => {
            proof {
                assert(old(state)@.unbonding_claims[ci as int] == (
                    state.unbonding_claims@[ci as int].0,
                    state.unbonding_claims@[ci as int].1@,
                ));
            }
            let list = &state.unbonding_claims[ci].1;
            let ghost all = list@;
            let n: usize = list.len();
            let mut k: usize = 0;
            while k < n
                invariant
                    k <= n,
                    n == list.len(),
                    all == list@,
                    ci as int == find_index(old(state)@.unbonding_claims, info.sender@),
                    0 <= ci < old(state)@.unbonding_claims.len(),
                    all == old(state)@.unbonding_claims[ci as int].1,
                    *state == *old(state),
                    claim_amount == matured_amount(all.take(k as int), env.time),
                    unexpired@ == unmatured_claims(all.take(k as int), env.time),
                decreases n - k,
            {
                proof {
                    assert(all.take(k + 1).drop_last() =~= all.take(k as int));
                    assert(all.take(k + 1).last() == all[k as int]);
                }
                let c = &list[k];
                if c.release_timestamp <= env.time {
                    match claim_amount.checked_add(c.amount.amount) {
                        Some(t) => {
                            claim_amount = t;
                        },
                        None => {
                            proof {
                                lemma_matured_amount_take_le(all, env.time, k + 1);
                            }
                            return Err(ContractError::Overflow {});
                        },
                    }
                } else {
                    unexpired.push(crate::state::clone_claim(c));
                }
                k = k + 1;
            }
            proof {
                assert(all.take(n as int) =~= all);
            }
        },
    }

    let ghost sender0 = info.sender;
    match found {
        None => {
            state.unbonding_claims.push((info.sender.clone(), unexpired));
            proof {
                lemma_keys_unique_push(
                    old(state)@.unbonding_claims,
                    state@.unbonding_claims.last(),
                );
                assert(state@.unbonding_claims =~= claimed_store(
                    old(state)@.unbonding_claims,
                    sender0,
                    env.time,
                ));
            }
        },
        Some(ci) => {
            let key = state.unbonding_claims[ci].0.clone();
            state.unbonding_claims.set(ci, (key, unexpired));
            proof {
                lemma_keys_unique_update(
                    old(state)@.unbonding_claims,
                    ci as int,
                    state@.unbonding_claims[ci as int],
                );
                assert(state@.unbonding_claims =~= claimed_store(
                    old(state)@.unbonding_claims,
                    sender0,
                    env.time,
                ));
            }
        },
    }

    let mut msgs: Vec<BankMsg> = Vec::new();
    if claim_amount != 0 {
        let mut coins: Vec<Coin> = Vec::new();
        coins.push(Coin { denom: state.config.denom.clone(), amount: claim_amount });
        msgs.push(BankMsg::Send { to_address: info.sender.clone(), amount: coins });
    }
    Ok(msgs)
}

/// The sum of every depositor's queued pending amount.
pub open spec fn pending_total(pending: Seq<(String, u128)>) -> int
    decreases pending.len(),
{
    if pending.len() == 0 {
        0
    } else {
        pending_total(pending.drop_last()) + pending.last().1 as int
    }
}

proof fn lemma_pending_total_take_le(pending: Seq<(String, u128)>, i: int)
    requires
        0 <= i <= pending.len(),
    ensures
        pending_total(pending.take(i)) <= pending_total(pending),
    decreases pending.len(),
{
    if i == pending.len() {
        assert(pending.take(i) =~= pending);
    } else {
        assert(pending.drop_last().take(i) =~= pending.take(i));
        lemma_pending_total_take_le(pending.drop_last(), i);
    }
}

/// The claim store after one batch release: each depositor with a pending
/// amount gains one claim over it, all sharing the release time, in pending
/// order.
pub open spec fn claims_after_batch(
    store: Seq<(String, Seq<ClaimDetails>)>,
    pending: Seq<(String, u128)>,
    release: u64,
    denom: String,
) -> Seq<(String, Seq<ClaimDetails>)>
    decreases pending.len(),
{
    if pending.len() == 0 {
        store
    } else {
        let claim = ClaimDetails {
            release_timestamp: release,
            amount: Coin { denom, amount: pending[0].1 },
        };
        claims_after_batch(
            crate::state::claim_pushed(store, pending[0].0, claim),
            pending.drop_first(),
            release,
            denom,
        )
    }
}

/// Pushing a claim keeps the store's keys unique.
proof fn lemma_claim_pushed_keys_unique(
    store: Seq<(String, Seq<ClaimDetails>)>,
    addr: String,
    claim: ClaimDetails,
)
    requires
        keys_unique(store),
    ensures
        keys_unique(crate::state::claim_pushed(store, addr, claim)),
{
    let i = find_index(store, addr@);
    crate::state::lemma_find_index_spec(store, addr@);
    if i == -1 {
        lemma_keys_unique_push(store, (addr, seq![claim]));
    } else {
        lemma_keys_unique_update(store, i, (store[i].0, store[i].1.push(claim)));
    }
}

/// Turns every queued pending amount into one unbonding claim per depositor,
/// all sharing one release time, clears the queue, and emits the aggregated
/// undelegate commands split over the validator table.  Gated by the
/// minimum cooldown since the previous batch release.
pub fn batch_unbond(state: &mut State, env: &Env) -> (r: Result<Vec<StakingMsg>, ContractError>)
    requires
        old(state).well_formed(),
    ensures
        old(state)@.latest_unbonding + old(state)@.config.min_unbonding_cooldown <= u64::MAX
            && env.time < old(state)@.latest_unbonding
            + old(state)@.config.min_unbonding_cooldown ==> r == Err::<
            Vec<StakingMsg>,
            ContractError,
        >(
            ContractError::UnbondingCooldownNotExpired {
                latest_unbonding: old(state)@.latest_unbonding,
                min_cooldown: old(state)@.config.min_unbonding_cooldown,
            },
        ),
        r is Ok <==> {
            &&& old(state)@.latest_unbonding + old(state)@.config.min_unbonding_cooldown
                <= env.time
            &&& env.time + old(state)@.config.unbonding_period <= u64::MAX
            &&& pending_total(old(state)@.pending_claims) <= u128::MAX
            &&& pending_total(old(state)@.pending_claims) <= old(state)@.total.amount
        },
        r is Err ==> *final(state) == *old(state),
        r matches Ok(msgs) ==> {
            let release = (env.time + old(state)@.config.unbonding_period) as u64;
            let unbond = pending_total(old(state)@.pending_claims);
            &&& msgs@ == split_msgs(
                Coin { denom: old(state)@.config.denom, amount: unbond as u128 },
                false,
                old(state)@.validator_list,
            )
            &&& final(state)@ == (StateV {
                latest_unbonding: env.time,
                pending_claims: Seq::empty(),
                unbonding_claims: claims_after_batch(
                    old(state)@.unbonding_claims,
                    old(state)@.pending_claims,
                    release,
                    old(state)@.config.denom,
                ),
                total: Coin {
                    denom: old(state)@.total.denom,
                    amount: (old(state)@.total.amount - unbond) as u128,
                },
                ..old(state)@
            })
            &&& final(state).well_formed()
        },
{
    match check_unbonding_cooldown(state, &state.config, env) {
        Ok(()) => {},
        Err(e) => {
            return Err(e);
        },
    }

    let release: u64 = match env.time.checked_add(state.config.unbonding_period) {
        Some(t) => t,
        None => {
            return Err(ContractError::Overflow {});
        },
    };

    let ghost pending0 = state.pending_claims@;
    let n: usize = state.pending_claims.len();
    let mut unbond_amount: u128 = 0;
    let mut i: usize = 0;
    while i < n
        invariant
            i <= n,
            n == state.pending_claims.len(),
            pending0 == state.pending_claims@,
            *state == *old(state),
            old(state)@.latest_unbonding + old(state)@.config.min_unbonding_cooldown <= env.time,
            unbond_amount == pending_total(pending0.take(i as int)),
        decreases n - i,
    {
        proof {
            assert(pending0.take(i + 1).drop_last() =~= pending0.take(i as int));
            assert(pending0.take(i + 1).last() == pending0[i as int]);
        }
        match unbond_amount.checked_add(state.pending_claims[i].1) {
            Some(t) => {
                unbond_amount = t;
            },
            None => {
                proof {
                    lemma_pending_total_take_le(pending0, i + 1);
                }
                return Err(ContractError::Overflow {});
            },
        }
        i = i + 1;
    }
    proof {
        assert(pending0.take(n as int) =~= pending0);
    }

    let new_total: u128 = match state.total.amount.checked_sub(unbond_amount) {
        Some(t) => t,
        None => {
            return Err(ContractError::Overflow {});
        },
    };

    let ghost denom0 = state.config.denom;
    let mut i: usize = 0;
    while i < n
        invariant
            i <= n,
            n == state.pending_claims.len(),
            pending0 == state.pending_claims@,
            denom0 == state.config.denom,
            state.config == old(state).config,
            old(state)@.latest_unbonding + old(state)@.config.min_unbonding_cooldown <= env.time,
            state.stake_details@ == old(state).stake_details@,
            state.validator_list@ == old(state).validator_list@,
            state.allowed_addresses@ == old(state).allowed_addresses@,
            state.total == old(state).total,
            state.latest_unbonding == old(state).latest_unbonding,
            state.last_payment_block == old(state).last_payment_block,
            keys_unique(state@.unbonding_claims),
            claims_after_batch(
                state@.unbonding_claims,
                pending0.skip(i as int),
                release,
                denom0,
            ) == claims_after_batch(old(state)@.unbonding_claims, pending0, release, denom0),
        decreases n - i,
    {
        let ghost store_before = state@.unbonding_claims;
        let addr = state.pending_claims[i].0.clone();
        let amount = state.pending_claims[i].1;
        let claim = ClaimDetails {
            release_timestamp: release,
            amount: Coin { denom: state.config.denom.clone(), amount },
        };
        let ghost gclaim = claim;
        crate::state::push_claim_for(&mut state.unbonding_claims, &addr, claim);
        proof {
            assert(pending0.skip(i as int)[0] == pending0[i as int]);
            assert(pending0.skip(i as int).drop_first() =~= pending0.skip(i + 1));
            assert(state@.unbonding_claims == crate::state::claim_pushed(
                store_before,
                pending0[i as int].0,
                gclaim,
            ));
            lemma_claim_pushed_keys_unique(store_before, pending0[i as int].0, gclaim);
        }
        i = i + 1;
    }
    proof {
        assert(pending0.skip(n as int) =~= Seq::<(String, u128)>::empty());
    }

    state.pending_claims = Vec::new();
    state.latest_unbonding = env.time;
    state.total.amount = new_total;

    proof {
        assert(state.validator_list@ == old(state)@.validator_list);
        crate::state::lemma_table_entries_bounded(state.validator_list@);
    }
    let undelegate_msgs = delegate_msgs_for_validators(
        Coin { denom: state.config.denom.clone(), amount: unbond_amount },
        false,
        &state.validator_list,
    );
    proof {
        assert(state@.pending_claims =~= Seq::<(String, u128)>::empty());
        lemma_pending_total_nonneg(pending0);
        assert(state@ =~= (StateV {
            latest_unbonding: env.time,
            pending_claims: Seq::empty(),
            unbonding_claims: claims_after_batch(
                old(state)@.unbonding_claims,
                pending0,
                release,
                denom0,
            ),
            total: Coin {
                denom: old(state)@.total.denom,
                amount: (old(state)@.total.amount - pending_total(pending0)) as u128,
            },
            ..old(state)@
        }));
    }
    Ok(undelegate_msgs)
}

proof fn lemma_pending_total_nonneg(pending: Seq<(String, u128)>)
    ensures
        0 <= pending_total(pending),
    decreases pending.len(),
{
    if pending.len() > 0 {
        lemma_pending_total_nonneg(pending.drop_last());
    }
}

/// One planned payout per depositor: the key with the full consolidated
/// total, in ledger order.
pub open spec fn claim_plan(ledger: Seq<(String, StakeDetailsV)>, boundary: u64) -> Seq<
    (String, u128),
>
    decreases ledger.len(),
{
    if ledger.len() == 0 {
        Seq::empty()
    } else {
        claim_plan(ledger.drop_last(), boundary).push(
            (ledger.last().0, consolidated_total(ledger.last().1, boundary) as u128),
        )
    }
}

proof fn lemma_claim_plan_len(ledger: Seq<(String, StakeDetailsV)>, boundary: u64)
    ensures
        claim_plan(ledger, boundary).len() == ledger.len(),
    decreases ledger.len(),
{
    if ledger.len() > 0 {
        lemma_claim_plan_len(ledger.drop_last(), boundary);
    }
}

proof fn lemma_claim_plan_take(ledger: Seq<(String, StakeDetailsV)>, boundary: u64, i: int)
    requires
        0 <= i <= ledger.len(),
    ensures
        claim_plan(ledger.take(i), boundary) =~= claim_plan(ledger, boundary).take(i),
    decreases ledger.len(),
{
    lemma_claim_plan_len(ledger, boundary);
    if i == ledger.len() {
        assert(ledger.take(i) =~= ledger);
        assert(claim_plan(ledger, boundary).take(i) =~= claim_plan(ledger, boundary));
    } else {
        lemma_claim_plan_len(ledger.drop_last(), boundary);
        assert(ledger.drop_last().take(i) =~= ledger.take(i));
        lemma_claim_plan_take(ledger.drop_last(), boundary, i);
        assert(claim_plan(ledger, boundary).take(i) =~= claim_plan(
            ledger.drop_last(),
            boundary,
        ).take(i));
    }
}

/// The ledger after a full undelegation: every position is consolidated and
/// its vested total moved out; positions left with no partial stake are
/// deleted, the rest stay with a zeroed total.
pub open spec fn zeroed_ledger(ledger: Seq<(String, StakeDetailsV)>, boundary: u64) -> Seq<
    (String, StakeDetailsV),
>
    decreases ledger.len(),
{
    if ledger.len() == 0 {
        Seq::empty()
    } else {
        let rest = zeroed_ledger(ledger.drop_last(), boundary);
        let cd = consolidate_details(ledger.last().1, boundary);
        if cd.partials.len() == 0 {
            rest
        } else {
            rest.push(
                (
                    ledger.last().0,
                    StakeDetailsV {
                        total: Coin { denom: cd.total.denom, amount: 0 },
                        partials: cd.partials,
                        earnings: cd.earnings,
                        start_height: cd.start_height,
                    },
                ),
            )
        }
    }
}

/// Zeroing keeps only keys the ledger already had, each at most once.
proof fn lemma_zeroed_ledger_keys_unique(ledger: Seq<(String, StakeDetailsV)>, boundary: u64)
    requires
        keys_unique(ledger),
    ensures
        keys_unique(zeroed_ledger(ledger, boundary)),
        forall|j: int|
            0 <= j < zeroed_ledger(ledger, boundary).len() ==> exists|i: int|
                0 <= i < ledger.len() && ledger[i].0@ == (#[trigger] zeroed_ledger(
                    ledger,
                    boundary,
                )[j]).0@,
    decreases ledger.len(),
{
    if ledger.len() > 0 {
        let dl = ledger.drop_last();
        assert(forall|a: int, b: int|
            0 <= a < b < dl.len() ==> (#[trigger] dl[a]).0@ != (#[trigger] dl[b]).0@);
        lemma_zeroed_ledger_keys_unique(dl, boundary);
        let rest = zeroed_ledger(dl, boundary);
        let result = zeroed_ledger(ledger, boundary);
        let cd = consolidate_details(ledger.last().1, boundary);
        if cd.partials.len() == 0 {
            assert forall|j: int| 0 <= j < result.len() implies exists|i: int|
                0 <= i < ledger.len() && ledger[i].0@ == (#[trigger] result[j]).0@ by {
                let i0 = choose|i: int| 0 <= i < dl.len() && dl[i].0@ == rest[j].0@;
                assert(ledger[i0].0@ == result[j].0@);
            }
        } else {
            crate::state::lemma_find_index_spec(rest, ledger.last().0@);
            if find_index(rest, ledger.last().0@) >= 0 {
                let fi = find_index(rest, ledger.last().0@);
                let i0 = choose|i: int| 0 <= i < dl.len() && dl[i].0@ == rest[fi].0@;
                assert(ledger.last() == ledger[ledger.len() - 1]);
                assert(ledger[i0].0@ == ledger.last().0@);
                assert(ledger[i0].0@ != ledger[ledger.len() - 1].0@);
                assert(false);
            }
            assert(find_index(rest, ledger.last().0@) == -1);
            assert(result.last().0@ == ledger.last().0@);
            lemma_keys_unique_push(rest, result.last());
            assert forall|j: int| 0 <= j < result.len() implies exists|i: int|
                0 <= i < ledger.len() && ledger[i].0@ == (#[trigger] result[j]).0@ by {
                if j < rest.len() {
                    assert(result[j] == rest[j]);
                    let i0 = choose|i: int| 0 <= i < dl.len() && dl[i].0@ == rest[j].0@;
                    assert(ledger[i0].0@ == result[j].0@);
                } else {
                    assert(ledger[ledger.len() - 1].0@ == result[j].0@);
                }
            }
        }
    }
}

/// Undelegates every depositor's vested stake at once: each position is
/// consolidated, its total becomes one unbonding claim under a shared
/// release time, and the aggregate is undelegated proportionally across the
/// validator table.  Only the owner may call.
pub fn undelegate_all(state: &mut State, env: &Env, info: &MessageInfo) -> (r: Result<
    Vec<StakingMsg>,
    ContractError,
>)
    requires
        old(state).well_formed(),
    ensures
        info.sender@ != old(state)@.config.owner@ ==> r == Err::<Vec<StakingMsg>, ContractError>(
            ContractError::Unauthorized {},
        ),
        r is Ok <==> {
            &&& info.sender@ == old(state)@.config.owner@
            &&& env.time + old(state)@.config.unbonding_period <= u64::MAX
            &&& all_consolidated_ok(old(state)@.stake_details, old(state)@.last_payment_block)
            &&& pending_total(
                claim_plan(old(state)@.stake_details, old(state)@.last_payment_block),
            ) <= u128::MAX
            &&& pending_total(
                claim_plan(old(state)@.stake_details, old(state)@.last_payment_block),
            ) <= old(state)@.total.amount
        },
        r is Err ==> *final(state) == *old(state),
        r matches Ok(msgs) ==> {
            let lpb = old(state)@.last_payment_block;
            let release = (env.time + old(state)@.config.unbonding_period) as u64;
            let plan = claim_plan(old(state)@.stake_details, lpb);
            let unbond = pending_total(plan);
            &&& msgs@ == split_msgs(
                Coin { denom: old(state)@.config.denom, amount: unbond as u128 },
                false,
                old(state)@.validator_list,
            )
            &&& final(state)@ == (StateV {
                stake_details: zeroed_ledger(old(state)@.stake_details, lpb),
                unbonding_claims: claims_after_batch(
                    old(state)@.unbonding_claims,
                    plan,
                    release,
                    old(state)@.config.denom,
                ),
                total: Coin {
                    denom: old(state)@.total.denom,
                    amount: (old(state)@.total.amount - unbond) as u128,
                },
                ..old(state)@
            })
            &&& final(state).well_formed()
        },
{
    if !(info.sender == state.config.owner) {
        return Err(ContractError::Unauthorized {});
    }
    let release: u64 = match env.time.checked_add(state.config.unbonding_period) {
        Some(t) => t,
        None => {
            return Err(ContractError::Overflow {});
        },
    };

    let ghost ledger0 = old(state)@.stake_details;
    let ghost lpb0 = old(state)@.last_payment_block;
    let n: usize = state.stake_details.len();
    let mut new_ledger: Vec<(String, StakeDetails)> = Vec::new();
    let mut plan: Vec<(String, u128)> = Vec::new();
    let mut total_staked: u128 = 0;
    let mut i: usize = 0;
    while i < n
        invariant
            i <= n,
            n == state.stake_details.len(),
            *state == *old(state),
            ledger0 == state@.stake_details,
            lpb0 == state@.last_payment_block,
            info.sender@ == old(state)@.config.owner@,
            env.time + old(state)@.config.unbonding_period <= u64::MAX,
            crate::state::view_entries(new_ledger@) == zeroed_ledger(ledger0.take(i as int), lpb0),
            plan@ == claim_plan(ledger0.take(i as int), lpb0),
            total_staked == pending_total(claim_plan(ledger0.take(i as int), lpb0)),
            forall|k: int|
                0 <= k < i ==> consolidated_total((#[trigger] ledger0[k]).1, lpb0) <= u128::MAX,
        decreases n - i,
    {
        proof {
            assert(ledger0.take(i + 1).drop_last() =~= ledger0.take(i as int));
            assert(ledger0.take(i + 1).last() == ledger0[i as int]);
            assert(ledger0[i as int] == (
                state.stake_details@[i as int].0,
                state.stake_details@[i as int].1@,
            ));
            let base = claim_plan(ledger0.take(i as int), lpb0);
            let p1 = claim_plan(ledger0.take(i + 1), lpb0);
            assert(p1 == base.push(
                (ledger0[i as int].0, consolidated_total(ledger0[i as int].1, lpb0) as u128),
            ));
            assert(p1.drop_last() =~= base);
            assert(pending_total(p1) == pending_total(base) + p1.last().1);
        }
        let mut d = crate::state::clone_stake_details(&state.stake_details[i].1);
        match d.consolidate_partials(state.last_payment_block) {
            Ok(()) => {},
            Err(e) => {
                proof {
                    assert(consolidated_total(ledger0[i as int].1, lpb0) > u128::MAX);
                    assert(!all_consolidated_ok(ledger0, lpb0));
                }
                return Err(e);
            },
        }
        let claim_amount = d.total.amount;
        let key = state.stake_details[i].0.clone();
        plan.push((key, claim_amount));
        match total_staked.checked_add(claim_amount) {
            Some(t) => {
                total_staked = t;
            },
            None => {
                proof {
                    lemma_claim_plan_len(ledger0, lpb0);
                    lemma_claim_plan_take(ledger0, lpb0, i + 1);
                    crate::state::lemma_vested_amount_nonneg(ledger0[i as int].1.partials, lpb0);
                    lemma_pending_total_take_le(
                        claim_plan(ledger0, lpb0),
                        i + 1,
                    );
                }
                return Err(ContractError::Overflow {});
            },
        }
        if d.partials.len() > 0 {
            d.total.amount = 0;
            let key2 = state.stake_details[i].0.clone();
            new_ledger.push((key2, d));
            proof {
                crate::state::lemma_vested_amount_nonneg(ledger0[i as int].1.partials, lpb0);
                assert(crate::state::view_entries(new_ledger@) =~= zeroed_ledger(
                    ledger0.take(i + 1),
                    lpb0,
                ));
            }
        } else {
            proof {
                crate::state::lemma_vested_amount_nonneg(ledger0[i as int].1.partials, lpb0);
                assert(crate::state::view_entries(new_ledger@) =~= zeroed_ledger(
                    ledger0.take(i + 1),
                    lpb0,
                ));
            }
        }
        i = i + 1;
    }
    proof {
        assert(ledger0.take(n as int) =~= ledger0);
    }

    let new_total: u128 = match state.total.amount.checked_sub(total_staked) {
        Some(t) => t,
        None => {
            return Err(ContractError::Overflow {});
        },
    };

    let ghost plan0 = plan@;
    let ghost denom0 = state.config.denom;
    proof {
        assert(plan0.skip(0) =~= plan0);
    }
    let np: usize = plan.len();
    let mut k: usize = 0;
    while k < np
        invariant
            k <= np,
            np == plan.len(),
            plan0 == plan@,
            denom0 == state.config.denom,
            state.config == old(state).config,
            state.stake_details@ == old(state).stake_details@,
            state.validator_list@ == old(state).validator_list@,
            state.allowed_addresses@ == old(state).allowed_addresses@,
            state.pending_claims@ == old(state).pending_claims@,
            state.total == old(state).total,
            state.latest_unbonding == old(state).latest_unbonding,
            state.last_payment_block == old(state).last_payment_block,
            keys_unique(state@.unbonding_claims),
            claims_after_batch(state@.unbonding_claims, plan0.skip(k as int), release, denom0)
                == claims_after_batch(old(state)@.unbonding_claims, plan0, release, denom0),
        decreases np - k,
    {
        let ghost store_before = state@.unbonding_claims;
        let addr = plan[k].0.clone();
        let amount = plan[k].1;
        let claim = ClaimDetails {
            release_timestamp: release,
            amount: Coin { denom: state.config.denom.clone(), amount },
        };
        let ghost gclaim = claim;
        crate::state::push_claim_for(&mut state.unbonding_claims, &addr, claim);
        proof {
            assert(plan0.skip(k as int)[0] == plan0[k as int]);
            assert(plan0.skip(k as int).drop_first() =~= plan0.skip(k + 1));
            assert(state@.unbonding_claims == crate::state::claim_pushed(
                store_before,
                plan0[k as int].0,
                gclaim,
            ));
            lemma_claim_pushed_keys_unique(store_before, plan0[k as int].0, gclaim);
        }
        k = k + 1;
    }
    proof {
        assert(plan0.skip(np as int) =~= Seq::<(String, u128)>::empty());
    }

    state.stake_details = new_ledger;
    state.total.amount = new_total;

    proof {
        assert(state.validator_list@ == old(state)@.validator_list);
        crate::state::lemma_table_entries_bounded(state.validator_list@);
    }
    let undelegate_msgs = delegate_msgs_for_validators(
        Coin { denom: state.config.denom.clone(), amount: total_staked },
        false,
        &state.validator_list,
    );
    proof {
        lemma_zeroed_ledger_keys_unique(ledger0, lpb0);
        lemma_pending_total_nonneg(plan0);
        assert(state@ =~= (StateV {
            stake_details: zeroed_ledger(ledger0, lpb0),
            unbonding_claims: claims_after_batch(
                old(state)@.unbonding_claims,
                plan0,
                release,
                denom0,
            ),
            total: Coin {
                denom: old(state)@.total.denom,
                amount: (old(state)@.total.amount - pending_total(plan0)) as u128,
            },
            ..old(state)@
        }));
    }
    Ok(undelegate_msgs)
}

} // verus!
