//! The weighted reward distribution run on each restake: every position is
//! consolidated, assigned a weight (the vested total at full weight, partial
//! stakes at the fraction of the payment period that passed before they
//! joined), and credited its rounded-down share of the net reward.

use vstd::prelude::*;

use crate::fraction::{checked_mul_ratio, Fraction, FRACTION_UNIT};
use crate::msg::{BankMsg, Coin, DistributionMsg, Env, RestakeMsgs, StakingMsg};
use crate::rebalance::{delegate_msgs_for_validators, distribute_msgs_for_validators, split_msgs};
use crate::state::{
    all_consolidated_ok, consolidate_details, consolidated_total, fresh_partials, Stake,
    StakeDetails, StakeDetailsV, State, StateV,
};


verus! {

/// The weight one partial stake contributes, in atomic units: its amount
/// scaled by the fraction of the elapsed payment period that passed before
/// it joined (so stakes that joined later in the period weigh more per unit
/// deposited), rounded down to whole units, in atomics.
pub open spec fn partial_weight(p: Stake, lpb: u64, height: u64) -> int {
    let psw = ((p.join_height - lpb) * (FRACTION_UNIT as int)) / (height - lpb);
    let units = (p.amount.amount * psw) / (FRACTION_UNIT as int);
    units * (FRACTION_UNIT as int)
}

/// Whether computing one partial's weight stays in range: the stake joined
/// after the last payment, and every intermediate fits in a `u128`.
pub open spec fn partial_weight_ok(p: Stake, lpb: u64, height: u64) -> bool {
    let psw = ((p.join_height - lpb) * (FRACTION_UNIT as int)) / (height - lpb);
    let units = (p.amount.amount * psw) / (FRACTION_UNIT as int);
    &&& lpb < p.join_height
    &&& psw <= u128::MAX
    &&& units <= u128::MAX
    &&& units * (FRACTION_UNIT as int) <= u128::MAX
}

/// The combined weight of a list of partial stakes, in atomic units.
pub open spec fn partials_weight(partials: Seq<Stake>, lpb: u64, height: u64) -> int
    decreases partials.len(),
{
    if partials.len() == 0 {
        0
    } else {
        partials_weight(partials.drop_last(), lpb, height) + partial_weight(
            partials.last(),
            lpb,
            height,
        )
    }
}

/// A depositor's reward weight, in atomic units: the fully vested total at
/// full weight, plus every partial stake at its fractional weight.
pub open spec fn account_weight(d: StakeDetailsV, lpb: u64, height: u64) -> int {
    d.total.amount * (FRACTION_UNIT as int) + partials_weight(d.partials, lpb, height)
}

/// The ledger with every position consolidated at `boundary`.
pub open spec fn consolidated_ledger(
    ledger: Seq<(String, StakeDetailsV)>,
    boundary: u64,
) -> Seq<(String, StakeDetailsV)> {
    ledger.map_values(|e: (String, StakeDetailsV)| (e.0, consolidate_details(e.1, boundary)))
}

/// The sum of every depositor's reward weight, in atomic units.
pub open spec fn weights_total_ledger(
    ledger: Seq<(String, StakeDetailsV)>,
    lpb: u64,
    height: u64,
) -> int
    decreases ledger.len(),
{
    if ledger.len() == 0 {
        0
    } else {
        weights_total_ledger(ledger.drop_last(), lpb, height) + account_weight(
            ledger.last().1,
            lpb,
            height,
        )
    }
}

/// One depositor's reward share in whole units: the net reward scaled by the
/// depositor's weight ratio, truncated once.
pub open spec fn reward_share(w: int, sum: int, net: u128) -> int {
    ((net as int) * w) / sum
}

/// The sum of all reward shares actually credited in one restake.
pub open spec fn shares_sum(
    ledger: Seq<(String, StakeDetailsV)>,
    lpb: u64,
    height: u64,
    sum: int,
    net: u128,
) -> int
    decreases ledger.len(),
{
    if ledger.len() == 0 {
        0
    } else {
        shares_sum(ledger.drop_last(), lpb, height, sum, net) + reward_share(
            account_weight(ledger.last().1, lpb, height),
            sum,
            net,
        )
    }
}

/// A consolidated ledger with every position credited its reward share.
pub open spec fn credited_shares_ledger(
    ledger: Seq<(String, StakeDetailsV)>,
    lpb: u64,
    height: u64,
    sum: int,
    net: u128,
) -> Seq<(String, StakeDetailsV)> {
    ledger.map_values(
        |e: (String, StakeDetailsV)|
            (
                e.0,
                StakeDetailsV {
                    total: Coin {
                        denom: e.1.total.denom,
                        amount: (e.1.total.amount + reward_share(
                            account_weight(e.1, lpb, height),
                            sum,
                            net,
                        )) as u128,
                    },
                    partials: e.1.partials,
                    earnings: (e.1.earnings + reward_share(
                        account_weight(e.1, lpb, height),
                        sum,
                        net,
                    )) as u128,
                    start_height: e.1.start_height,
                },
            ),
    )
}

/// The reward left to distribute once the restake commission is taken.
pub open spec fn spec_net_reward(c: Fraction, amount: u128) -> u128 {
    if c.atomics == 0 {
        amount
    } else {
        (amount - crate::fraction::mul_ratio(
            amount as int,
            c.atomics as int,
            FRACTION_UNIT as int,
        )) as u128
    }
}

/// Whether a restake's whole computation stays in range: every consolidation
/// and weight fits, the weight sum fits and is positive when anyone is
/// staked, and every credit fits.
pub open spec fn restake_fits(s: StateV, height: u64, net: u128) -> bool {
    let lpb = s.last_payment_block;
    let cons = consolidated_ledger(s.stake_details, lpb);
    let sum = weights_total_ledger(cons, lpb, height);
    &&& all_consolidated_ok(s.stake_details, lpb)
    &&& forall|i: int, j: int|
        0 <= i < cons.len() && 0 <= j < (#[trigger] cons[i]).1.partials.len()
            ==> partial_weight_ok(#[trigger] cons[i].1.partials[j], lpb, height)
    &&& forall|i: int|
        0 <= i < cons.len() ==> account_weight((#[trigger] cons[i]).1, lpb, height) <= u128::MAX
    &&& sum <= u128::MAX
    &&& sum > 0 ==> forall|i: int|
        0 <= i < cons.len() ==> {
            let share = reward_share(
                account_weight((#[trigger] cons[i]).1, lpb, height),
                sum,
                net,
            );
            (cons[i]).1.total.amount + share <= u128::MAX && (cons[i]).1.earnings + share
                <= u128::MAX
        }
    &&& sum > 0 ==> s.total.amount + shares_sum(cons, lpb, height, sum, net) <= u128::MAX
}

proof fn lemma_partial_weight_nonneg(p: Stake, lpb: u64, height: u64)
    requires
        lpb < p.join_height,
        lpb < height,
    ensures
        0 <= partial_weight(p, lpb, height),
{
    let unit = FRACTION_UNIT as int;
    let num = (p.join_height - lpb) * unit;
    vstd::arithmetic::mul::lemma_mul_nonnegative(p.join_height - lpb, unit);
    let psw = num / (height - lpb);
    vstd::arithmetic::div_mod::lemma_div_pos_is_pos(num, height - lpb);
    let prod = p.amount.amount * psw;
    vstd::arithmetic::mul::lemma_mul_nonnegative(p.amount.amount as int, psw);
    vstd::arithmetic::div_mod::lemma_div_pos_is_pos(prod, unit);
    let units = prod / unit;
    vstd::arithmetic::mul::lemma_mul_nonnegative(units, unit);
}

pub proof fn lemma_partials_weight_nonneg(partials: Seq<Stake>, lpb: u64, height: u64)
    requires
        lpb < height,
        forall|j: int| 0 <= j < partials.len() ==> lpb < (#[trigger] partials[j]).join_height,
    ensures
        0 <= partials_weight(partials, lpb, height),
    decreases partials.len(),
{
    if partials.len() > 0 {
        assert(forall|j: int|
            0 <= j < partials.drop_last().len() ==> lpb < (
            #[trigger] partials.drop_last()[j]).join_height);
        lemma_partials_weight_nonneg(partials.drop_last(), lpb, height);
        lemma_partial_weight_nonneg(partials.last(), lpb, height);
    }
}

proof fn lemma_partials_weight_take_le(partials: Seq<Stake>, lpb: u64, height: u64, i: int)
    requires
        0 <= i <= partials.len(),
        lpb < height,
        forall|j: int| 0 <= j < partials.len() ==> lpb < (#[trigger] partials[j]).join_height,
    ensures
        partials_weight(partials.take(i), lpb, height) <= partials_weight(partials, lpb, height),
    decreases partials.len(),
{
    if i == partials.len() {
        assert(partials.take(i) =~= partials);
    } else {
        assert(partials.drop_last().take(i) =~= partials.take(i));
        assert(forall|j: int|
            0 <= j < partials.drop_last().len() ==> lpb < (
            #[trigger] partials.drop_last()[j]).join_height);
        lemma_partials_weight_take_le(partials.drop_last(), lpb, height, i);
        lemma_partial_weight_nonneg(partials.last(), lpb, height);
    }
}

/// Every partial a consolidation keeps joined after the boundary.
pub proof fn lemma_fresh_partials_fresh(partials: Seq<Stake>, boundary: u64)
    ensures
        forall|j: int|
            0 <= j < fresh_partials(partials, boundary).len() ==> boundary < (
            #[trigger] fresh_partials(partials, boundary)[j]).join_height,
    decreases partials.len(),
{
    if partials.len() > 0 {
        lemma_fresh_partials_fresh(partials.drop_last(), boundary);
        let rest = fresh_partials(partials.drop_last(), boundary);
        let result = fresh_partials(partials, boundary);
        assert forall|j: int| 0 <= j < result.len() implies boundary < (
        #[trigger] result[j]).join_height by {
            if j < rest.len() {
                assert(result[j] == rest[j]);
            }
        }
    }
}

proof fn lemma_weights_total_nonneg(ledger: Seq<(String, StakeDetailsV)>, lpb: u64, height: u64)
    requires
        lpb < height,
        forall|i: int, j: int|
            0 <= i < ledger.len() && 0 <= j < (#[trigger] ledger[i]).1.partials.len() ==> lpb < (
            #[trigger] ledger[i].1.partials[j]).join_height,
    ensures
        0 <= weights_total_ledger(ledger, lpb, height),
    decreases ledger.len(),
{
    if ledger.len() > 0 {
        let dl = ledger.drop_last();
        assert(forall|i: int, j: int|
            0 <= i < dl.len() && 0 <= j < (#[trigger] dl[i]).1.partials.len() ==> lpb < (
            #[trigger] dl[i].1.partials[j]).join_height);
        lemma_weights_total_nonneg(dl, lpb, height);
        assert(ledger.last() == ledger[ledger.len() - 1]);
        lemma_partials_weight_nonneg(ledger.last().1.partials, lpb, height);
        assert(0 <= ledger.last().1.total.amount * (FRACTION_UNIT as int)) by (nonlinear_arith)
            requires
                0 <= ledger.last().1.total.amount,
        ;
    }
}

proof fn lemma_weights_total_take_le(
    ledger: Seq<(String, StakeDetailsV)>,
    lpb: u64,
    height: u64,
    i: int,
)
    requires
        0 <= i <= ledger.len(),
        lpb < height,
        forall|i: int, j: int|
            0 <= i < ledger.len() && 0 <= j < (#[trigger] ledger[i]).1.partials.len() ==> lpb < (
            #[trigger] ledger[i].1.partials[j]).join_height,
    ensures
        weights_total_ledger(ledger.take(i), lpb, height) <= weights_total_ledger(
            ledger,
            lpb,
            height,
        ),
    decreases ledger.len(),
{
    if i == ledger.len() {
        assert(ledger.take(i) =~= ledger);
    } else {
        let dl = ledger.drop_last();
        assert(dl.take(i) =~= ledger.take(i));
        assert(forall|a: int, j: int|
            0 <= a < dl.len() && 0 <= j < (#[trigger] dl[a]).1.partials.len() ==> lpb < (
            #[trigger] dl[a].1.partials[j]).join_height);
        lemma_weights_total_take_le(dl, lpb, height, i);
        assert(ledger.last() == ledger[ledger.len() - 1]);
        lemma_partials_weight_nonneg(ledger.last().1.partials, lpb, height);
        assert(0 <= ledger.last().1.total.amount * (FRACTION_UNIT as int)) by (nonlinear_arith)
            requires
                0 <= ledger.last().1.total.amount,
        ;
    }
}

/// Each depositor's weight is bounded by the sum of all of them.
pub proof fn lemma_account_weight_le_total(
    ledger: Seq<(String, StakeDetailsV)>,
    lpb: u64,
    height: u64,
    i: int,
)
    requires
        0 <= i < ledger.len(),
        lpb < height,
        forall|i: int, j: int|
            0 <= i < ledger.len() && 0 <= j < (#[trigger] ledger[i]).1.partials.len() ==> lpb < (
            #[trigger] ledger[i].1.partials[j]).join_height,
    ensures
        account_weight(ledger[i].1, lpb, height) <= weights_total_ledger(ledger, lpb, height),
    decreases ledger.len(),
{
    let dl = ledger.drop_last();
    assert(forall|a: int, j: int|
        0 <= a < dl.len() && 0 <= j < (#[trigger] dl[a]).1.partials.len() ==> lpb < (
        #[trigger] dl[a].1.partials[j]).join_height);
    lemma_weights_total_nonneg(dl, lpb, height);
    if i < ledger.len() - 1 {
        lemma_account_weight_le_total(dl, lpb, height, i);
        assert(dl[i] == ledger[i]);
        assert(ledger.last() == ledger[ledger.len() - 1]);
        lemma_partials_weight_nonneg(ledger.last().1.partials, lpb, height);
        assert(0 <= ledger.last().1.total.amount * (FRACTION_UNIT as int)) by (nonlinear_arith)
            requires
                0 <= ledger.last().1.total.amount,
        ;
    } else {
        assert(ledger.last() == ledger[i]);
    }
}

pub proof fn lemma_reward_share_bounds(w: int, sum: int, net: u128)
    requires
        0 < sum,
        0 <= w <= sum,
    ensures
        0 <= reward_share(w, sum, net) <= net,
{
    vstd::arithmetic::mul::lemma_mul_nonnegative(net as int, w);
    vstd::arithmetic::div_mod::lemma_div_pos_is_pos((net as int) * w, sum);
    vstd::arithmetic::mul::lemma_mul_inequality(w, sum, net as int);
    assert((net as int) * w == w * (net as int)) by (nonlinear_arith);
    assert((net as int) * sum == sum * (net as int)) by (nonlinear_arith);
    vstd::arithmetic::div_mod::lemma_div_is_ordered((net as int) * w, (net as int) * sum, sum);
    vstd::arithmetic::div_mod::lemma_div_multiples_vanish(net as int, sum);
}

pub proof fn lemma_shares_sum_nonneg(
    ledger: Seq<(String, StakeDetailsV)>,
    lpb: u64,
    height: u64,
    sum: int,
    net: u128,
)
    requires
        lpb < height,
        0 < sum,
        forall|i: int, j: int|
            0 <= i < ledger.len() && 0 <= j < (#[trigger] ledger[i]).1.partials.len() ==> lpb < (
            #[trigger] ledger[i].1.partials[j]).join_height,
        forall|i: int|
            0 <= i < ledger.len() ==> account_weight((#[trigger] ledger[i]).1, lpb, height) <= sum,
    ensures
        0 <= shares_sum(ledger, lpb, height, sum, net),
    decreases ledger.len(),
{
    if ledger.len() > 0 {
        let dl = ledger.drop_last();
        assert(forall|a: int, j: int|
            0 <= a < dl.len() && 0 <= j < (#[trigger] dl[a]).1.partials.len() ==> lpb < (
            #[trigger] dl[a].1.partials[j]).join_height);
        assert(forall|a: int|
            0 <= a < dl.len() ==> account_weight((#[trigger] dl[a]).1, lpb, height) <= sum);
        lemma_shares_sum_nonneg(dl, lpb, height, sum, net);
        assert(ledger.last() == ledger[ledger.len() - 1]);
        lemma_partials_weight_nonneg(ledger.last().1.partials, lpb, height);
        assert(0 <= ledger.last().1.total.amount * (FRACTION_UNIT as int)) by (nonlinear_arith)
            requires
                0 <= ledger.last().1.total.amount,
        ;
        lemma_reward_share_bounds(account_weight(ledger.last().1, lpb, height), sum, net);
    }
}

proof fn lemma_shares_sum_take_le(
    ledger: Seq<(String, StakeDetailsV)>,
    lpb: u64,
    height: u64,
    sum: int,
    net: u128,
    i: int,
)
    requires
        0 <= i <= ledger.len(),
        lpb < height,
        0 < sum,
        forall|i: int, j: int|
            0 <= i < ledger.len() && 0 <= j < (#[trigger] ledger[i]).1.partials.len() ==> lpb < (
            #[trigger] ledger[i].1.partials[j]).join_height,
        forall|i: int|
            0 <= i < ledger.len() ==> account_weight((#[trigger] ledger[i]).1, lpb, height) <= sum,
    ensures
        shares_sum(ledger.take(i), lpb, height, sum, net) <= shares_sum(
            ledger,
            lpb,
            height,
            sum,
            net,
        ),
    decreases ledger.len(),
{
    if i == ledger.len() {
        assert(ledger.take(i) =~= ledger);
    } else {
        let dl = ledger.drop_last();
        assert(dl.take(i) =~= ledger.take(i));
        assert(forall|a: int, j: int|
            0 <= a < dl.len() && 0 <= j < (#[trigger] dl[a]).1.partials.len() ==> lpb < (
            #[trigger] dl[a].1.partials[j]).join_height);
        assert(forall|a: int|
            0 <= a < dl.len() ==> account_weight((#[trigger] dl[a]).1, lpb, height) <= sum);
        lemma_shares_sum_take_le(dl, lpb, height, sum, net, i);
        assert(ledger.last() == ledger[ledger.len() - 1]);
        lemma_partials_weight_nonneg(ledger.last().1.partials, lpb, height);
        assert(0 <= ledger.last().1.total.amount * (FRACTION_UNIT as int)) by (nonlinear_arith)
            requires
                0 <= ledger.last().1.total.amount,
        ;
        lemma_reward_share_bounds(account_weight(ledger.last().1, lpb, height), sum, net);
    }
}

/// Distributes a harvested reward and restakes it: every position is
/// consolidated, the configured commission is sent to the treasury, and the
/// remaining reward is credited to depositors in proportion to their
/// weights, each share rounded down to whole units (the truncation residue
/// is simply never credited).  Hands back one reward-withdraw command per
/// validator, the commission transfer, and the delegations restaking the
/// net reward.  A zero reward is a successful no-op, and so is a round in
/// which every depositor's weight is zero: with no one to credit, nothing
/// is distributed and nothing changes.
pub fn restake(state: &mut State, env: &Env, reward: Coin) -> (r: RestakeMsgs)
    requires
        old(state).well_formed(),
        env.height > old(state)@.last_payment_block,
        reward.amount > 0 ==> restake_fits(
            old(state)@,
            env.height,
            spec_net_reward(old(state)@.config.restake_commission, reward.amount),
        ),
    ensures
        reward.amount == 0 ==> *final(state) == *old(state) && r.reward_msgs@ == Seq::<
            DistributionMsg,
        >::empty() && r.commission_msgs@ == Seq::<BankMsg>::empty() && r.delegate_msgs@ == Seq::<
            StakingMsg,
        >::empty(),
        reward.amount > 0 ==> ({
            let lpb = old(state)@.last_payment_block;
            let c = old(state)@.config.restake_commission;
            let net = spec_net_reward(c, reward.amount);
            let cons = consolidated_ledger(old(state)@.stake_details, lpb);
            let sum = weights_total_ledger(cons, lpb, env.height);
            let credited = shares_sum(cons, lpb, env.height, sum, net);
            &&& cons.len() > 0 && sum == 0 ==> *final(state) == *old(state) && r.reward_msgs@
                == Seq::<DistributionMsg>::empty() && r.commission_msgs@ == Seq::<
                BankMsg,
            >::empty() && r.delegate_msgs@ == Seq::<StakingMsg>::empty()
            &&& cons.len() == 0 || sum > 0 ==> final(state)@ == (StateV {
                stake_details: credited_shares_ledger(cons, lpb, env.height, sum, net),
                last_payment_block: env.height,
                total: Coin {
                    denom: old(state)@.total.denom,
                    amount: (old(state)@.total.amount + credited) as u128,
                },
                ..old(state)@
            })
            &&& final(state).well_formed()
            &&& cons.len() == 0 || sum > 0 ==> {
                &&& r.reward_msgs@ == crate::rebalance::withdraw_msgs(old(state)@.validator_list)
                &&& c.atomics == 0 ==> r.commission_msgs@ == Seq::<BankMsg>::empty()
                &&& c.atomics != 0 ==> r.commission_msgs@.len() == 1 && (
                r.commission_msgs@[0] matches BankMsg::Send { to_address, amount } && to_address@
                    == old(state)@.config.treasury@ && amount@ == seq![
                    Coin { denom: reward.denom, amount: (reward.amount - net) as u128 },
                ])
                &&& r.delegate_msgs@ == split_msgs(
                    Coin { denom: reward.denom, amount: net },
                    true,
                    old(state)@.validator_list,
                )
            }
        }),
{
    if reward.amount == 0 {
        return RestakeMsgs {
            reward_msgs: Vec::new(),
            commission_msgs: Vec::new(),
            delegate_msgs: Vec::new(),
        };
    }

    let mut commission_msgs: Vec<BankMsg> = Vec::new();
    let net: u128 = if state.config.restake_commission.is_zero() {
        reward.amount
    } else {
        proof {
            crate::fraction::lemma_mul_ratio_le_for_small_fraction(
                reward.amount as int,
                state.config.restake_commission.atomics as int,
            );
        }
        let commission_amount = state.config.restake_commission.mul_amount(reward.amount);
        let mut coins: Vec<Coin> = Vec::new();
        coins.push(Coin { denom: reward.denom.clone(), amount: commission_amount });
        commission_msgs.push(
            BankMsg::Send { to_address: state.config.treasury.clone(), amount: coins },
        );
        reward.amount - commission_amount
    };

    let reward_msgs = distribute_msgs_for_validators(&state.validator_list);

    let ghost ledger0 = old(state)@.stake_details;
    let ghost lpb0 = old(state)@.last_payment_block;
    let ghost cons = consolidated_ledger(ledger0, lpb0);
    let ghost net0 = net;
    let height = env.height;
    let lpb = state.last_payment_block;

    let n: usize = state.stake_details.len();
    let mut new_ledger: Vec<(String, StakeDetails)> = Vec::new();
    let mut weights: Vec<u128> = Vec::new();
    let mut sum_of_weights: u128 = 0;
    let mut i: usize = 0;
    while i < n
        invariant
            i <= n,
            n == state.stake_details.len(),
            *state == *old(state),
            ledger0 == state@.stake_details,
            lpb0 == state@.last_payment_block,
            lpb == lpb0,
            height == env.height,
            lpb0 < height,
            cons == consolidated_ledger(ledger0, lpb0),
            net0 == net,
            restake_fits(old(state)@, env.height, net0),
            crate::state::view_entries(new_ledger@) =~= cons.take(i as int),
            weights@.len() == i,
            forall|j: int|
                0 <= j < i ==> weights@[j] == account_weight(
                    (#[trigger] cons[j]).1,
                    lpb0,
                    height,
                ) as u128,
            sum_of_weights == weights_total_ledger(cons.take(i as int), lpb0, height),
        decreases n - i,
    {
        proof {
            assert(cons.take(i + 1).drop_last() =~= cons.take(i as int));
            assert(cons.take(i + 1).last() == cons[i as int]);
            assert(cons[i as int] == (ledger0[i as int].0, consolidate_details(
                ledger0[i as int].1,
                lpb0,
            )));
            assert(ledger0[i as int] == (
                state.stake_details@[i as int].0,
                state.stake_details@[i as int].1@,
            ));
        }
        let mut d = crate::state::clone_stake_details(&state.stake_details[i].1);
        match d.consolidate_partials(lpb) {
            Ok(()) => {},
            Err(_) => {
                proof {
                    assert(consolidated_total(ledger0[i as int].1, lpb0) <= u128::MAX);
                    assert(false);
                }
            },
        }
        proof {
            assert(d@ == cons[i as int].1);
            assert(account_weight(cons[i as int].1, lpb0, height) <= u128::MAX);
            lemma_partials_weight_nonneg(d@.partials, lpb0, height);
        }
        let w0: u128 = match d.total.amount.checked_mul(FRACTION_UNIT) {
            Some(w0) => w0,
            None => {
                proof {
                    assert(false);
                }
                0
            },
        };
        let ghost dpartials = d.partials@;
        let np: usize = d.partials.len();
        let mut w: u128 = w0;
        let mut j: usize = 0;
        while j < np
            invariant
                j <= np,
                np == d.partials.len(),
                dpartials == d.partials@,
                lpb == lpb0,
                height == env.height,
                lpb0 < height,
                d@.total.amount * (FRACTION_UNIT as int) == w0,
                forall|k: int|
                    0 <= k < dpartials.len() ==> partial_weight_ok(
                        #[trigger] dpartials[k],
                        lpb0,
                        height,
                    ),
                account_weight(d@, lpb0, height) <= u128::MAX,
                w == d@.total.amount * (FRACTION_UNIT as int) + partials_weight(
                    dpartials.take(j as int),
                    lpb0,
                    height,
                ),
            decreases np - j,
        {
            proof {
                assert(dpartials.take(j + 1).drop_last() =~= dpartials.take(j as int));
                assert(dpartials.take(j + 1).last() == dpartials[j as int]);
                assert(partial_weight_ok(dpartials[j as int], lpb0, height));
                lemma_partials_weight_take_le(dpartials, lpb0, height, j + 1);
                lemma_partials_weight_nonneg(dpartials.take(j as int), lpb0, height);
            }
            let p = &d.partials[j];
            let join_diff: u64 = p.join_height - lpb;
            let range: u64 = height - lpb;
            let psw: u128 = match crate::fraction::checked_mul_ratio(
                join_diff as u128,
                FRACTION_UNIT,
                range as u128,
            ) {
                Some(v) => v,
                None => {
                    proof {
                        assert(false);
                    }
                    0
                },
            };
            let units: u128 = match crate::fraction::checked_mul_ratio(
                p.amount.amount,
                psw,
                FRACTION_UNIT,
            ) {
                Some(v) => v,
                None => {
                    proof {
                        assert(false);
                    }
                    0
                },
            };
            let piece: u128 = match units.checked_mul(FRACTION_UNIT) {
                Some(v) => v,
                None => {
                    proof {
                        assert(false);
                    }
                    0
                },
            };
            w = match w.checked_add(piece) {
                Some(v) => v,
                None => {
                    proof {
                        assert(false);
                    }
                    0
                },
            };
            j = j + 1;
        }
        proof {
            assert(dpartials.take(np as int) =~= dpartials);
            assert(w == account_weight(cons[i as int].1, lpb0, height));
            lemma_weights_total_take_le_from_fits(cons, lpb0, height, i + 1);
        }
        sum_of_weights = match sum_of_weights.checked_add(w) {
            Some(v) => v,
            None => {
                proof {
                    assert(false);
                }
                0
            },
        };
        let key = state.stake_details[i].0.clone();
        let ghost pre = new_ledger@;
        new_ledger.push((key, d));
        weights.push(w);
        proof {
            assert forall|k: int| 0 <= k < new_ledger@.len() implies crate::state::view_entries(
                new_ledger@,
            )[k] == cons.take(i + 1)[k] by {
                assert(crate::state::view_entries(new_ledger@)[k] == (
                    new_ledger@[k].0,
                    new_ledger@[k].1@,
                ));
                if k < i as int {
                    assert(new_ledger@[k] == pre[k]);
                    assert(crate::state::view_entries(pre)[k] == (pre[k].0, pre[k].1@));
                }
            }
            assert(crate::state::view_entries(pre).len() == pre.len());
            assert(crate::state::view_entries(new_ledger@) =~= cons.take(i + 1));
        }
        i = i + 1;
    }
    proof {
        assert(cons.take(n as int) =~= cons);
    }
    let ghost sum0 = sum_of_weights;

    if n > 0 && sum_of_weights == 0 {
        // every depositor has weight zero: there is no one to credit, so the
        // reward round is a successful no-op
        return RestakeMsgs {
            reward_msgs: Vec::new(),
            commission_msgs: Vec::new(),
            delegate_msgs: Vec::new(),
        };
    }

    let mut sum_of_rewards: u128 = 0;
    let mut i: usize = 0;
    while i < n
        invariant
            i <= n,
            n == new_ledger.len(),
            n == cons.len(),
            lpb0 < height,
            height == env.height,
            cons == consolidated_ledger(ledger0, lpb0),
            net0 == net,
            restake_fits(old(state)@, env.height, net0),
            ledger0 == old(state)@.stake_details,
            lpb0 == old(state)@.last_payment_block,
            *state == *old(state),
            sum0 == weights_total_ledger(cons, lpb0, height),
            sum_of_weights == sum0,
            n > 0 ==> sum0 > 0,
            weights@.len() == n,
            forall|j: int|
                0 <= j < n ==> weights@[j] == account_weight(
                    (#[trigger] cons[j]).1,
                    lpb0,
                    height,
                ) as u128,
            forall|j: int|
                i <= j < n ==> crate::state::view_entries(new_ledger@)[j] == #[trigger] cons[j],
            forall|j: int|
                0 <= j < i ==> crate::state::view_entries(new_ledger@)[j]
                    == #[trigger] credited_shares_ledger(cons, lpb0, height, sum0 as int, net0)[j],
            sum_of_rewards == shares_sum(cons.take(i as int), lpb0, height, sum0 as int, net0),
        decreases n - i,
    {
        proof {
            assert(cons.take(i + 1).drop_last() =~= cons.take(i as int));
            assert(cons.take(i + 1).last() == cons[i as int]);
            assert(cons[i as int] == (ledger0[i as int].0, consolidate_details(
                ledger0[i as int].1,
                lpb0,
            )));
            lemma_fits_partials_fresh(cons, lpb0, height);
            lemma_partials_weight_nonneg(cons[i as int].1.partials, lpb0, height);
            vstd::arithmetic::mul::lemma_mul_nonnegative(
                cons[i as int].1.total.amount as int,
                FRACTION_UNIT as int,
            );
            lemma_account_weight_le_total(cons, lpb0, height, i as int);
            lemma_reward_share_bounds(
                account_weight(cons[i as int].1, lpb0, height),
                sum0 as int,
                net0,
            );
            assert(crate::state::view_entries(new_ledger@)[i as int] == (
                new_ledger@[i as int].0,
                new_ledger@[i as int].1@,
            ));
        }
        let w: u128 = weights[i];
        let share: u128 = match crate::fraction::checked_mul_ratio(net, w, sum_of_weights) {
            Some(v) => v,
            None => {
                proof {
                    assert(false);
                }
                0
            },
        };
        proof {
            assert(share == reward_share(
                account_weight(cons[i as int].1, lpb0, height),
                sum0 as int,
                net0,
            ));
        }
        let mut d = crate::state::clone_stake_details(&new_ledger[i].1);
        d.total.amount = match d.total.amount.checked_add(share) {
            Some(v) => v,
            None => {
                proof {
                    assert(false);
                }
                0
            },
        };
        d.earnings = match d.earnings.checked_add(share) {
            Some(v) => v,
            None => {
                proof {
                    assert(false);
                }
                0
            },
        };
        let key = new_ledger[i].0.clone();
        let ghost pre = new_ledger@;
        new_ledger.set(i, (key, d));
        sum_of_rewards = match sum_of_rewards.checked_add(share) {
            Some(v) => v,
            None => {
                proof {
                    lemma_fits_partials_fresh(cons, lpb0, height);
                    lemma_fits_weights_bounded(cons, lpb0, height, sum0 as int);
                    lemma_shares_sum_take_le(cons, lpb0, height, sum0 as int, net0, i + 1);
                    lemma_shares_sum_nonneg(cons, lpb0, height, sum0 as int, net0);
                    assert(false);
                }
                0
            },
        };
        proof {
            assert forall|j: int| 0 <= j < n implies crate::state::view_entries(new_ledger@)[j]
                == (if j <= i as int {
                #[trigger] credited_shares_ledger(cons, lpb0, height, sum0 as int, net0)[j]
            } else {
                cons[j]
            }) by {
                assert(crate::state::view_entries(new_ledger@)[j] == (
                    new_ledger@[j].0,
                    new_ledger@[j].1@,
                ));
                if j != i as int {
                    assert(new_ledger@[j] == pre[j]);
                    assert(crate::state::view_entries(pre)[j] == (pre[j].0, pre[j].1@));
                }
            }
        }
        i = i + 1;
    }
    proof {
        assert(cons.take(n as int) =~= cons);
    }

    state.stake_details = new_ledger;
    state.last_payment_block = height;
    proof {
        lemma_fits_partials_fresh(cons, lpb0, height);
        lemma_fits_weights_bounded(cons, lpb0, height, sum0 as int);
        if n > 0 {
            lemma_shares_sum_nonneg(cons, lpb0, height, sum0 as int, net0);
        }
    }
    state.total.amount = state.total.amount + sum_of_rewards;

    proof {
        assert(state.validator_list@ == old(state)@.validator_list);
        crate::state::lemma_table_entries_bounded(state.validator_list@);
    }
    let delegate_msgs = delegate_msgs_for_validators(
        Coin { denom: reward.denom.clone(), amount: net },
        true,
        &state.validator_list,
    );

    proof {
        let credited = credited_shares_ledger(cons, lpb0, height, sum0 as int, net0);
        assert(state@.stake_details =~= credited);
        assert forall|a: int, b: int| 0 <= a < b < credited.len() implies (
        #[trigger] credited[a]).0@ != (#[trigger] credited[b]).0@ by {
            assert(credited[a].0 == cons[a].0 && credited[b].0 == cons[b].0);
            assert(cons[a].0 == ledger0[a].0 && cons[b].0 == ledger0[b].0);
            assert(ledger0[a].0@ != ledger0[b].0@);
        }
        assert(state@ =~= (StateV {
            stake_details: credited_shares_ledger(cons, lpb0, height, sum0 as int, net0),
            last_payment_block: env.height,
            total: Coin {
                denom: old(state)@.total.denom,
                amount: (old(state)@.total.amount + shares_sum(
                    cons,
                    lpb0,
                    height,
                    sum0 as int,
                    net0,
                )) as u128,
            },
            ..old(state)@
        }));
    }
    RestakeMsgs { reward_msgs, commission_msgs, delegate_msgs }
}

/// In a state that fits, every consolidated partial joined after the
/// boundary.
proof fn lemma_fits_partials_fresh(cons: Seq<(String, StakeDetailsV)>, lpb: u64, height: u64)
    requires
        forall|i: int, j: int|
            0 <= i < cons.len() && 0 <= j < (#[trigger] cons[i]).1.partials.len()
                ==> partial_weight_ok(#[trigger] cons[i].1.partials[j], lpb, height),
    ensures
        forall|i: int, j: int|
            0 <= i < cons.len() && 0 <= j < (#[trigger] cons[i]).1.partials.len() ==> lpb < (
            #[trigger] cons[i].1.partials[j]).join_height,
{
}

/// In a state that fits, every weight is bounded by the weight sum.
proof fn lemma_fits_weights_bounded(
    cons: Seq<(String, StakeDetailsV)>,
    lpb: u64,
    height: u64,
    sum: int,
)
    requires
        lpb < height,
        sum == weights_total_ledger(cons, lpb, height),
        forall|i: int, j: int|
            0 <= i < cons.len() && 0 <= j < (#[trigger] cons[i]).1.partials.len() ==> lpb < (
            #[trigger] cons[i].1.partials[j]).join_height,
    ensures
        forall|i: int|
            0 <= i < cons.len() ==> account_weight((#[trigger] cons[i]).1, lpb, height) <= sum,
{
    assert forall|i: int| 0 <= i < cons.len() implies account_weight(
        (#[trigger] cons[i]).1,
        lpb,
        height,
    ) <= sum by {
        lemma_account_weight_le_total(cons, lpb, height, i);
    }
}

/// The prefix of the weight sum used while it is being accumulated.
proof fn lemma_weights_total_take_le_from_fits(
    cons: Seq<(String, StakeDetailsV)>,
    lpb: u64,
    height: u64,
    i: int,
)
    requires
        0 <= i <= cons.len(),
        lpb < height,
        forall|a: int, j: int|
            0 <= a < cons.len() && 0 <= j < (#[trigger] cons[a]).1.partials.len()
                ==> partial_weight_ok(#[trigger] cons[a].1.partials[j], lpb, height),
    ensures
        weights_total_ledger(cons.take(i), lpb, height) <= weights_total_ledger(
            cons,
            lpb,
            height,
        ),
{
    lemma_fits_partials_fresh(cons, lpb, height);
    lemma_weights_total_take_le(cons, lpb, height, i);
}

} // verus!
