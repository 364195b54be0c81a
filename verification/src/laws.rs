//! Engine-wide laws: properties that relate several operations, proved once
//! and for all over the same spec functions the operations' contracts use.

use vstd::arithmetic::div_mod::{
    lemma_div_denominator, lemma_div_multiples_vanish, lemma_fundamental_div_mod,
    lemma_mod_division_less_than_divisor,
};
use vstd::prelude::*;

use crate::distribution::{
    account_weight, consolidated_ledger, credited_shares_ledger, lemma_account_weight_le_total,
    lemma_fresh_partials_fresh, lemma_partials_weight_nonneg, lemma_reward_share_bounds,
    lemma_shares_sum_nonneg, reward_share, shares_sum, weights_total_ledger,
};
use crate::query::partials_sum;
use crate::unbonding::{
    claim_plan, claims_after_batch, matured_amount, pending_total, unmatured_claims, zeroed_ledger,
};
use crate::fraction::FRACTION_UNIT;
use crate::msg::Coin;
use crate::contract::deposited_ledger;
use crate::state::{
    all_consolidated_ok, consolidate_details, consolidated_total, find_index, fresh_partials,
    lemma_find_index_spec, vested_amount, ClaimDetails, Stake, StakeDetailsV, StateV,
};

verus! {

proof fn lemma_all_fresh_vested_zero(partials: Seq<Stake>, boundary: u64)
    requires
        forall|j: int| 0 <= j < partials.len() ==> boundary < (#[trigger] partials[j]).join_height,
    ensures
        vested_amount(partials, boundary) == 0,
    decreases partials.len(),
{
    if partials.len() > 0 {
        assert(forall|j: int|
            0 <= j < partials.drop_last().len() ==> boundary < (
            #[trigger] partials.drop_last()[j]).join_height);
        lemma_all_fresh_vested_zero(partials.drop_last(), boundary);
        assert(partials.last() == partials[partials.len() - 1]);
    }
}

proof fn lemma_all_fresh_kept(partials: Seq<Stake>, boundary: u64)
    requires
        forall|j: int| 0 <= j < partials.len() ==> boundary < (#[trigger] partials[j]).join_height,
    ensures
        fresh_partials(partials, boundary) =~= partials,
    decreases partials.len(),
{
    if partials.len() > 0 {
        assert(forall|j: int|
            0 <= j < partials.drop_last().len() ==> boundary < (
            #[trigger] partials.drop_last()[j]).join_height);
        lemma_all_fresh_kept(partials.drop_last(), boundary);
        assert(partials.last() == partials[partials.len() - 1]);
    }
}

/// Consolidation is idempotent: consolidating a position a second time with
/// no deposit in between changes neither the vested total nor the remaining
/// partials.
pub proof fn lemma_consolidate_idempotent(d: StakeDetailsV, boundary: u64)
    requires
        consolidated_total(d, boundary) <= u128::MAX,
        0 <= consolidated_total(d, boundary),
    ensures
        consolidate_details(consolidate_details(d, boundary), boundary) == consolidate_details(
            d,
            boundary,
        ),
{
    let cd = consolidate_details(d, boundary);
    lemma_fresh_partials_fresh(d.partials, boundary);
    lemma_all_fresh_vested_zero(cd.partials, boundary);
    lemma_all_fresh_kept(cd.partials, boundary);
    assert(consolidate_details(cd, boundary) =~= cd);
}

/// A deposit made after the last reward payment has not vested: before the
/// next restake, the depositor's consolidated total is still zero, so an
/// immediate undelegation of any positive amount must be refused for lack of
/// vested stake.
pub proof fn lemma_fresh_deposit_not_vested(
    ledger: Seq<(String, StakeDetailsV)>,
    sender: String,
    amount: Coin,
    denom: String,
    height: u64,
    last_payment_block: u64,
)
    requires
        find_index(ledger, sender@) == -1,
        last_payment_block < height,
        amount.amount > 0,
    ensures
        ({
            let l1 = deposited_ledger(ledger, sender, amount, denom, height);
            let di = find_index(l1, sender@);
            &&& 0 <= di < l1.len()
            &&& consolidated_total(l1[di].1, last_payment_block) == 0
            &&& consolidated_total(l1[di].1, last_payment_block) < amount.amount
        }),
{
    let l1 = deposited_ledger(ledger, sender, amount, denom, height);
    lemma_find_index_spec(ledger, sender@);
    lemma_find_index_spec(l1, sender@);
    let di = find_index(l1, sender@);
    if di == -1 {
        assert(l1[l1.len() - 1].0@ == sender@);
        assert(false);
    }
    let entry = l1[di].1;
    if di < ledger.len() {
        assert(l1[di] == ledger[di]);
        assert(false);
    }
    let stake = Stake { amount: amount, join_height: height };
    assert(entry.partials == seq![stake]);
    assert(entry.partials.drop_last() =~= Seq::<Stake>::empty());
    assert(entry.partials.last() == stake);
    assert(vested_amount(entry.partials.drop_last(), last_payment_block) == 0);
    assert(vested_amount(entry.partials, last_payment_block) == 0);
}

/// Claims that have not reached their release time survive a claim call
/// untouched, and pay out nothing: claiming with nothing matured is a no-op.
pub proof fn lemma_claim_before_release_keeps_claims(claims: Seq<ClaimDetails>, now: u64)
    requires
        forall|j: int| 0 <= j < claims.len() ==> now < (#[trigger] claims[j]).release_timestamp,
    ensures
        unmatured_claims(claims, now) =~= claims,
        matured_amount(claims, now) == 0,
    decreases claims.len(),
{
    if claims.len() > 0 {
        assert(forall|j: int|
            0 <= j < claims.drop_last().len() ==> now < (
            #[trigger] claims.drop_last()[j]).release_timestamp);
        lemma_claim_before_release_keeps_claims(claims.drop_last(), now);
        assert(claims.last() == claims[claims.len() - 1]);
    }
}

proof fn lemma_equal_ledger_shares_sum(
    ledger: Seq<(String, StakeDetailsV)>,
    lpb: u64,
    height: u64,
    sum: int,
    net: u128,
    share: int,
)
    requires
        forall|i: int|
            0 <= i < ledger.len() ==> reward_share(
                account_weight((#[trigger] ledger[i]).1, lpb, height),
                sum,
                net,
            ) == share,
    ensures
        shares_sum(ledger, lpb, height, sum, net) == ledger.len() * share,
    decreases ledger.len(),
{
    if ledger.len() == 0 {
        assert(0int * share == 0) by (nonlinear_arith);
    } else {
        let dl = ledger.drop_last();
        assert(forall|i: int|
            0 <= i < dl.len() ==> reward_share(
                account_weight((#[trigger] dl[i]).1, lpb, height),
                sum,
                net,
            ) == share);
        lemma_equal_ledger_shares_sum(dl, lpb, height, sum, net, share);
        assert(ledger.last() == ledger[ledger.len() - 1]);
        assert(ledger.len() * share == dl.len() * share + share) by (nonlinear_arith)
            requires
                ledger.len() == dl.len() + 1,
        ;
    }
}

proof fn lemma_equal_weights_total(
    ledger: Seq<(String, StakeDetailsV)>,
    lpb: u64,
    height: u64,
    w: int,
)
    requires
        forall|i: int|
            0 <= i < ledger.len() ==> account_weight((#[trigger] ledger[i]).1, lpb, height) == w,
    ensures
        weights_total_ledger(ledger, lpb, height) == ledger.len() * w,
    decreases ledger.len(),
{
    if ledger.len() == 0 {
        assert(0int * w == 0) by (nonlinear_arith);
    } else {
        let dl = ledger.drop_last();
        assert(forall|i: int|
            0 <= i < dl.len() ==> account_weight((#[trigger] dl[i]).1, lpb, height) == w);
        lemma_equal_weights_total(dl, lpb, height, w);
        assert(ledger.last() == ledger[ledger.len() - 1]);
        assert(ledger.len() * w == dl.len() * w + w) by (nonlinear_arith)
            requires
                ledger.len() == dl.len() + 1,
        ;
    }
}

/// When a restake splits a net reward among depositors who all hold the same
/// fully vested stake and nothing partial, every share is the same, and the
/// shares add up to the reward minus less than one unit per depositor: the
/// only loss is the rounding residue.
pub proof fn lemma_equal_stakes_equal_shares(
    ledger: Seq<(String, StakeDetailsV)>,
    lpb: u64,
    height: u64,
    stake: u128,
    net: u128,
)
    requires
        lpb < height,
        ledger.len() > 0,
        stake > 0,
        forall|i: int|
            0 <= i < ledger.len() ==> (#[trigger] ledger[i]).1.total.amount == stake && ledger[
                i
            ].1.partials.len() == 0,
    ensures
        ({
            let cons = consolidated_ledger(ledger, lpb);
            let sum = weights_total_ledger(cons, lpb, height);
            &&& forall|i: int, j: int|
                0 <= i < ledger.len() && 0 <= j < ledger.len() ==> reward_share(
                    account_weight((#[trigger] cons[i]).1, lpb, height),
                    sum,
                    net,
                ) == reward_share(account_weight((#[trigger] cons[j]).1, lpb, height), sum, net)
            &&& shares_sum(cons, lpb, height, sum, net) == net - ((net as int) % (
            ledger.len() as int))
            &&& net - shares_sum(cons, lpb, height, sum, net) <= ledger.len() - 1
            &&& shares_sum(cons, lpb, height, sum, net) <= net
        }),
{
    let unit = FRACTION_UNIT as int;
    let n = ledger.len() as int;
    let cons = consolidated_ledger(ledger, lpb);
    let w = stake * unit;

    assert forall|i: int| 0 <= i < cons.len() implies account_weight(
        (#[trigger] cons[i]).1,
        lpb,
        height,
    ) == w by {
        assert(cons[i] == (ledger[i].0, consolidate_details(ledger[i].1, lpb)));
        assert(vested_amount(ledger[i].1.partials, lpb) == 0);
        assert(fresh_partials(ledger[i].1.partials, lpb) =~= Seq::<Stake>::empty());
        assert(cons[i].1.partials.len() == 0);
        assert(cons[i].1.total.amount == stake);
    }
    let sum = weights_total_ledger(cons, lpb, height);
    lemma_equal_weights_total(cons, lpb, height, w);
    assert(sum == n * w);
    vstd::arithmetic::mul::lemma_mul_strictly_positive(stake as int, unit);
    assert(0 < w);
    vstd::arithmetic::mul::lemma_mul_strictly_positive(n, w);
    assert(0 < sum);

    // Each share is exactly the reward divided by n, rounded down.
    let share = reward_share(w, sum, net);
    assert(share == (net as int) / n) by {
        assert(sum == w * n) by (nonlinear_arith)
            requires
                sum == n * w,
        ;
        vstd::arithmetic::mul::lemma_mul_nonnegative(net as int, w);
        lemma_div_denominator((net as int) * w, w, n);
        lemma_div_multiples_vanish(net as int, w);
        assert((net as int) * w == w * (net as int)) by (nonlinear_arith);
        assert(((net as int) * w) / w == net as int);
    }

    assert forall|i: int, j: int| 0 <= i < ledger.len() && 0 <= j < ledger.len() implies
        reward_share(account_weight((#[trigger] cons[i]).1, lpb, height), sum, net)
        == reward_share(account_weight((#[trigger] cons[j]).1, lpb, height), sum, net) by {
        assert(account_weight(cons[i].1, lpb, height) == w);
        assert(account_weight(cons[j].1, lpb, height) == w);
    }

    assert forall|i: int| 0 <= i < cons.len() implies reward_share(
        account_weight((#[trigger] cons[i]).1, lpb, height),
        sum,
        net,
    ) == share by {
        assert(account_weight(cons[i].1, lpb, height) == w);
    }
    lemma_equal_ledger_shares_sum(cons, lpb, height, sum, net, share);
    assert(cons.len() == ledger.len());

    lemma_fundamental_div_mod(net as int, n);
    lemma_mod_division_less_than_divisor(net as int, n);
    assert(n * ((net as int) / n) == ((net as int) / n) * n) by (nonlinear_arith);
    assert(shares_sum(cons, lpb, height, sum, net) == n * share) by {
        assert(cons.len() as int == n);
    }
    assert(n * share == net - ((net as int) % n));
}


/// The whole amount one position holds: the vested total plus every partial.
pub open spec fn position_amount(d: StakeDetailsV) -> int {
    d.total.amount + partials_sum(d.partials)
}

/// The whole amount the ledger holds, over every depositor.
pub open spec fn ledger_amount(ledger: Seq<(String, StakeDetailsV)>) -> int
    decreases ledger.len(),
{
    if ledger.len() == 0 {
        0
    } else {
        ledger_amount(ledger.drop_last()) + position_amount(ledger.last().1)
    }
}

/// The running-total invariant of the data model: the stored total equals
/// everything the ledger holds plus everything queued for the next batch
/// release.  Operations that change neither the total, the ledger nor the
/// pending queue (claiming, configuration, allow-list and weight-table
/// updates) keep it by definition; the lemmas below show every operation
/// that does change them keeps it too.
pub open spec fn total_consistent(s: StateV) -> bool {
    s.total.amount == ledger_amount(s.stake_details) + pending_total(s.pending_claims)
}

proof fn lemma_ledger_amount_push(ledger: Seq<(String, StakeDetailsV)>, e: (String, StakeDetailsV))
    ensures
        ledger_amount(ledger.push(e)) == ledger_amount(ledger) + position_amount(e.1),
{
    assert(ledger.push(e).drop_last() =~= ledger);
    assert(ledger.push(e).last() == e);
}

proof fn lemma_ledger_amount_update(
    ledger: Seq<(String, StakeDetailsV)>,
    i: int,
    e: (String, StakeDetailsV),
)
    requires
        0 <= i < ledger.len(),
    ensures
        ledger_amount(ledger.update(i, e)) == ledger_amount(ledger) - position_amount(
            ledger[i].1,
        ) + position_amount(e.1),
    decreases ledger.len(),
{
    let u = ledger.update(i, e);
    if i == ledger.len() - 1 {
        assert(u.drop_last() =~= ledger.drop_last());
        assert(u.last() == e);
        assert(ledger.last() == ledger[i]);
    } else {
        assert(u.drop_last() =~= ledger.drop_last().update(i, e));
        assert(u.last() == ledger.last());
        assert(ledger.drop_last()[i] == ledger[i]);
        lemma_ledger_amount_update(ledger.drop_last(), i, e);
    }
}

proof fn lemma_pending_total_push(pending: Seq<(String, u128)>, e: (String, u128))
    ensures
        pending_total(pending.push(e)) == pending_total(pending) + e.1,
{
    assert(pending.push(e).drop_last() =~= pending);
    assert(pending.push(e).last() == e);
}

proof fn lemma_pending_total_update(pending: Seq<(String, u128)>, i: int, e: (String, u128))
    requires
        0 <= i < pending.len(),
    ensures
        pending_total(pending.update(i, e)) == pending_total(pending) - pending[i].1 + e.1,
    decreases pending.len(),
{
    let u = pending.update(i, e);
    if i == pending.len() - 1 {
        assert(u.drop_last() =~= pending.drop_last());
        assert(u.last() == e);
        assert(pending.last() == pending[i]);
    } else {
        assert(u.drop_last() =~= pending.drop_last().update(i, e));
        assert(u.last() == pending.last());
        assert(pending.drop_last()[i] == pending[i]);
        lemma_pending_total_update(pending.drop_last(), i, e);
    }
}

/// Consolidation moves amounts between the two sides of a position without
/// creating or destroying any: the vested part plus the kept partials equal
/// the original partials.
proof fn lemma_vested_plus_fresh(partials: Seq<Stake>, boundary: u64)
    ensures
        vested_amount(partials, boundary) + partials_sum(fresh_partials(partials, boundary))
            == partials_sum(partials),
    decreases partials.len(),
{
    if partials.len() > 0 {
        lemma_vested_plus_fresh(partials.drop_last(), boundary);
        let rest = fresh_partials(partials.drop_last(), boundary);
        if partials.last().join_height > boundary {
            assert(rest.push(partials.last()).drop_last() =~= rest);
            assert(rest.push(partials.last()).last() == partials.last());
        }
    }
}

proof fn lemma_partials_sum_nonneg(partials: Seq<Stake>)
    ensures
        0 <= partials_sum(partials),
    decreases partials.len(),
{
    if partials.len() > 0 {
        lemma_partials_sum_nonneg(partials.drop_last());
    }
}

/// A consolidated position holds exactly what it held before.
proof fn lemma_position_consolidate(d: StakeDetailsV, boundary: u64)
    requires
        consolidated_total(d, boundary) <= u128::MAX,
    ensures
        position_amount(consolidate_details(d, boundary)) == position_amount(d),
{
    crate::state::lemma_vested_amount_nonneg(d.partials, boundary);
    lemma_vested_plus_fresh(d.partials, boundary);
}

proof fn lemma_pending_sum_upsert(pending: Seq<(String, u128)>, addr: String, amount: u128)
    requires
        crate::state::pending_upsert_ok(pending, addr@, amount),
    ensures
        pending_total(crate::state::pending_upserted(pending, addr, amount)) == pending_total(
            pending,
        ) + amount,
{
    let i = find_index(pending, addr@);
    lemma_find_index_spec(pending, addr@);
    if i == -1 {
        lemma_pending_total_push(pending, (addr, amount));
    } else {
        lemma_pending_total_update(pending, i, (pending[i].0, (pending[i].1 + amount) as u128));
    }
}

/// Crediting an address grows the ledger's holdings by exactly the amount.
proof fn lemma_credited_sum(
    ledger: Seq<(String, StakeDetailsV)>,
    addr: String,
    amount: u128,
    denom: String,
    h: u64,
)
    requires
        crate::state::credited_ok(ledger, addr@, amount),
    ensures
        ledger_amount(crate::state::credited_ledger(ledger, addr, amount, denom, h))
            == ledger_amount(ledger) + amount,
{
    let i = find_index(ledger, addr@);
    lemma_find_index_spec(ledger, addr@);
    let result = crate::state::credited_ledger(ledger, addr, amount, denom, h);
    if i == -1 {
        lemma_ledger_amount_push(ledger, result.last());
        assert(partials_sum(Seq::<Stake>::empty()) == 0);
    } else {
        lemma_ledger_amount_update(ledger, i, result[i]);
    }
}

/// Debiting an address shrinks the ledger's holdings by exactly the amount.
proof fn lemma_debited_sum(
    ledger: Seq<(String, StakeDetailsV)>,
    addr: String,
    amount: u128,
    denom: String,
    h: u64,
)
    requires
        crate::state::debited_ok(ledger, addr@, amount),
    ensures
        ledger_amount(crate::state::debited_ledger(ledger, addr, amount, denom, h))
            == ledger_amount(ledger) - amount,
{
    let i = find_index(ledger, addr@);
    lemma_find_index_spec(ledger, addr@);
    let result = crate::state::debited_ledger(ledger, addr, amount, denom, h);
    if i == -1 {
        lemma_ledger_amount_push(ledger, result.last());
        assert(partials_sum(Seq::<Stake>::empty()) == 0);
    } else {
        lemma_ledger_amount_update(ledger, i, result[i]);
    }
}

proof fn lemma_deposited_sum(
    ledger: Seq<(String, StakeDetailsV)>,
    sender: String,
    amount: Coin,
    denom: String,
    h: u64,
)
    ensures
        ledger_amount(deposited_ledger(ledger, sender, amount, denom, h)) == ledger_amount(ledger)
            + amount.amount,
{
    let i = find_index(ledger, sender@);
    lemma_find_index_spec(ledger, sender@);
    let result = deposited_ledger(ledger, sender, amount, denom, h);
    let stake = Stake { amount: amount, join_height: h };
    if i == -1 {
        lemma_ledger_amount_push(ledger, result.last());
        assert(seq![stake].drop_last() =~= Seq::<Stake>::empty());
        assert(partials_sum(Seq::<Stake>::empty()) == 0);
        assert(partials_sum(seq![stake]) == amount.amount);
    } else {
        lemma_ledger_amount_update(ledger, i, result[i]);
        assert(ledger[i].1.partials.push(stake).drop_last() =~= ledger[i].1.partials);
        assert(ledger[i].1.partials.push(stake).last() == stake);
    }
}

/// A deposit keeps the running total consistent: the amount enters the
/// total and the ledger together.
pub proof fn lemma_deposit_keeps_total_consistent(s: StateV, sender: String, amount: Coin, h: u64)
    requires
        total_consistent(s),
        s.total.amount + amount.amount <= u128::MAX,
    ensures
        total_consistent(
            StateV {
                total: Coin {
                    denom: s.total.denom,
                    amount: (s.total.amount + amount.amount) as u128,
                },
                stake_details: deposited_ledger(
                    s.stake_details,
                    sender,
                    amount,
                    s.config.denom,
                    h,
                ),
                ..s
            },
        ),
{
    lemma_deposited_sum(s.stake_details, sender, amount, s.config.denom, h);
}

/// An empty engine is consistent: nothing stored, nothing counted.
pub proof fn lemma_empty_state_total_consistent(s: StateV)
    requires
        s.total.amount == 0,
        s.stake_details == Seq::<(String, StakeDetailsV)>::empty(),
        s.pending_claims == Seq::<(String, u128)>::empty(),
    ensures
        total_consistent(s),
{
}


proof fn lemma_pending_sum_nonneg(pending: Seq<(String, u128)>)
    ensures
        0 <= pending_total(pending),
    decreases pending.len(),
{
    if pending.len() > 0 {
        lemma_pending_sum_nonneg(pending.drop_last());
    }
}

/// Queueing an undelegation keeps the running total consistent: the amount
/// leaves the position's vested total and enters the pending queue.
pub proof fn lemma_queue_undelegate_keeps_total_consistent(
    s: StateV,
    sender: String,
    amount: Coin,
)
    requires
        total_consistent(s),
        find_index(s.stake_details, sender@) >= 0,
        ({
            let di = find_index(s.stake_details, sender@);
            let d = s.stake_details[di].1;
            let ct = consolidated_total(d, s.last_payment_block);
            ct <= u128::MAX && amount.amount <= ct
        }),
        crate::state::pending_upsert_ok(s.pending_claims, sender@, amount.amount),
    ensures
        ({
            let di = find_index(s.stake_details, sender@);
            let d = s.stake_details[di].1;
            let ct = consolidated_total(d, s.last_payment_block);
            total_consistent(
                StateV {
                    stake_details: s.stake_details.update(
                        di,
                        (
                            s.stake_details[di].0,
                            StakeDetailsV {
                                total: Coin {
                                    denom: d.total.denom,
                                    amount: (ct - amount.amount) as u128,
                                },
                                partials: fresh_partials(d.partials, s.last_payment_block),
                                earnings: d.earnings,
                                start_height: d.start_height,
                            },
                        ),
                    ),
                    pending_claims: crate::state::pending_upserted(
                        s.pending_claims,
                        sender,
                        amount.amount,
                    ),
                    ..s
                },
            )
        }),
{
    let di = find_index(s.stake_details, sender@);
    lemma_find_index_spec(s.stake_details, sender@);
    let d = s.stake_details[di].1;
    let b = s.last_payment_block;
    crate::state::lemma_vested_amount_nonneg(d.partials, b);
    lemma_vested_plus_fresh(d.partials, b);
    lemma_ledger_amount_update(
        s.stake_details,
        di,
        (
            s.stake_details[di].0,
            StakeDetailsV {
                total: Coin {
                    denom: d.total.denom,
                    amount: (consolidated_total(d, b) - amount.amount) as u128,
                },
                partials: fresh_partials(d.partials, b),
                earnings: d.earnings,
                start_height: d.start_height,
            },
        ),
    );
    lemma_pending_sum_upsert(s.pending_claims, sender, amount.amount);
}

/// A batch release keeps the running total consistent: the pending queue
/// empties and the total drops by exactly what was pending.
pub proof fn lemma_batch_release_keeps_total_consistent(s: StateV, release_time: u64, new_unbonding: Seq<(String, Seq<ClaimDetails>)>)
    requires
        total_consistent(s),
        pending_total(s.pending_claims) <= s.total.amount,
    ensures
        total_consistent(
            StateV {
                latest_unbonding: release_time,
                pending_claims: Seq::empty(),
                unbonding_claims: new_unbonding,
                total: Coin {
                    denom: s.total.denom,
                    amount: (s.total.amount - pending_total(s.pending_claims)) as u128,
                },
                ..s
            },
        ),
{
    lemma_pending_sum_nonneg(s.pending_claims);
    assert(pending_total(Seq::<(String, u128)>::empty()) == 0);
}

/// A transfer keeps the running total consistent: what leaves the sender is
/// exactly what the recipient, the treasury and the commission address gain
/// together.
pub proof fn lemma_transfer_keeps_total_consistent(
    s: StateV,
    sender: String,
    recipient: String,
    amount: u128,
    commission_address: Option<String>,
    h: u64,
)
    requires
        total_consistent(s),
        s.config.well_formed(),
        crate::state::debited_ok(s.stake_details, sender@, amount),
        ({
            let c = s.config.transfer_commission;
            let l1 = crate::state::debited_ledger(s.stake_details, sender, amount, s.config.denom, h);
            let split = crate::contract::commission_amounts(c, amount, commission_address is Some);
            let l2 = (match commission_address {
                Some(a) => crate::state::credited_ledger(l1, a, split.2 as u128, s.config.denom, h),
                None => l1,
            });
            let l3 = crate::contract::commissioned_ledger(
                l1,
                c,
                amount,
                commission_address,
                s.config.treasury,
                s.config.denom,
                h,
            );
            &&& (match commission_address {
                Some(a) => c.atomics != 0 ==> crate::state::credited_ok(l1, a@, split.2 as u128),
                None => true,
            })
            &&& c.atomics != 0 ==> crate::state::credited_ok(l2, s.config.treasury@, split.1 as u128)
            &&& crate::state::credited_ok(l3, recipient@, split.0 as u128)
        }),
    ensures
        ({
            let c = s.config.transfer_commission;
            let l1 = crate::state::debited_ledger(s.stake_details, sender, amount, s.config.denom, h);
            let l3 = crate::contract::commissioned_ledger(
                l1,
                c,
                amount,
                commission_address,
                s.config.treasury,
                s.config.denom,
                h,
            );
            let split = crate::contract::commission_amounts(c, amount, commission_address is Some);
            total_consistent(
                StateV {
                    stake_details: crate::state::credited_ledger(
                        l3,
                        recipient,
                        split.0 as u128,
                        s.config.denom,
                        h,
                    ),
                    ..s
                },
            )
        }),
{
    let c = s.config.transfer_commission;
    let denom = s.config.denom;
    let l1 = crate::state::debited_ledger(s.stake_details, sender, amount, denom, h);
    let split = crate::contract::commission_amounts(c, amount, commission_address is Some);
    lemma_debited_sum(s.stake_details, sender, amount, denom, h);
    if c.atomics != 0 {
        crate::fraction::lemma_mul_ratio_le_for_small_fraction(amount as int, c.atomics as int);
        let tc = crate::fraction::mul_ratio(amount as int, c.atomics as int, FRACTION_UNIT as int);
        vstd::arithmetic::mul::lemma_mul_nonnegative(amount as int, c.atomics as int);
        vstd::arithmetic::div_mod::lemma_div_pos_is_pos(
            amount as int * c.atomics as int,
            FRACTION_UNIT as int,
        );
        match commission_address {
            Some(a) => {
                let l2 = crate::state::credited_ledger(l1, a, split.2 as u128, denom, h);
                lemma_credited_sum(l1, a, split.2 as u128, denom, h);
                lemma_credited_sum(l2, s.config.treasury, split.1 as u128, denom, h);
            },
            None => {
                lemma_credited_sum(l1, s.config.treasury, split.1 as u128, denom, h);
            },
        }
    }
    let l3 = crate::contract::commissioned_ledger(
        l1,
        c,
        amount,
        commission_address,
        s.config.treasury,
        denom,
        h,
    );
    lemma_credited_sum(l3, recipient, split.0 as u128, denom, h);
}


proof fn lemma_consolidated_ledger_amount(ledger: Seq<(String, StakeDetailsV)>, boundary: u64)
    requires
        all_consolidated_ok(ledger, boundary),
    ensures
        ledger_amount(consolidated_ledger(ledger, boundary)) == ledger_amount(ledger),
    decreases ledger.len(),
{
    if ledger.len() > 0 {
        let dl = ledger.drop_last();
        assert(forall|i: int|
            0 <= i < dl.len() ==> consolidated_total((#[trigger] dl[i]).1, boundary)
                <= u128::MAX);
        lemma_consolidated_ledger_amount(dl, boundary);
        assert(consolidated_ledger(ledger, boundary).drop_last() =~= consolidated_ledger(
            dl,
            boundary,
        ));
        assert(ledger.last() == ledger[ledger.len() - 1]);
        assert(consolidated_ledger(ledger, boundary).last() == (
            ledger.last().0,
            consolidate_details(ledger.last().1, boundary),
        ));
        lemma_position_consolidate(ledger.last().1, boundary);
    }
}

proof fn lemma_credited_shares_amount(
    cons: Seq<(String, StakeDetailsV)>,
    lpb: u64,
    height: u64,
    sum: int,
    net: u128,
)
    requires
        lpb < height,
        0 < sum,
        forall|i: int, j: int|
            0 <= i < cons.len() && 0 <= j < (#[trigger] cons[i]).1.partials.len() ==> lpb < (
            #[trigger] cons[i].1.partials[j]).join_height,
        forall|i: int|
            0 <= i < cons.len() ==> account_weight((#[trigger] cons[i]).1, lpb, height) <= sum,
        forall|i: int|
            0 <= i < cons.len() ==> (#[trigger] cons[i]).1.total.amount + reward_share(
                account_weight(cons[i].1, lpb, height),
                sum,
                net,
            ) <= u128::MAX,
    ensures
        ledger_amount(credited_shares_ledger(cons, lpb, height, sum, net)) == ledger_amount(cons)
            + shares_sum(cons, lpb, height, sum, net),
    decreases cons.len(),
{
    if cons.len() > 0 {
        let dl = cons.drop_last();
        assert(forall|i: int, j: int|
            0 <= i < dl.len() && 0 <= j < (#[trigger] dl[i]).1.partials.len() ==> lpb < (
            #[trigger] dl[i].1.partials[j]).join_height);
        assert(forall|i: int|
            0 <= i < dl.len() ==> account_weight((#[trigger] dl[i]).1, lpb, height) <= sum);
        assert(forall|i: int|
            0 <= i < dl.len() ==> (#[trigger] dl[i]).1.total.amount + reward_share(
                account_weight(dl[i].1, lpb, height),
                sum,
                net,
            ) <= u128::MAX);
        lemma_credited_shares_amount(dl, lpb, height, sum, net);
        assert(credited_shares_ledger(cons, lpb, height, sum, net).drop_last()
            =~= credited_shares_ledger(dl, lpb, height, sum, net));
        assert(cons.last() == cons[cons.len() - 1]);
        lemma_partials_weight_nonneg(cons.last().1.partials, lpb, height);
        vstd::arithmetic::mul::lemma_mul_nonnegative(
            cons.last().1.total.amount as int,
            FRACTION_UNIT as int,
        );
        lemma_reward_share_bounds(account_weight(cons.last().1, lpb, height), sum, net);
    }
}

/// A restake keeps the running total consistent: the credited shares enter
/// the total and the depositors' positions together, and consolidation
/// itself moves nothing in or out.
pub proof fn lemma_restake_keeps_total_consistent(s: StateV, height: u64, net: u128)
    requires
        total_consistent(s),
        s.last_payment_block < height,
        all_consolidated_ok(s.stake_details, s.last_payment_block),
        ({
            let lpb = s.last_payment_block;
            let cons = consolidated_ledger(s.stake_details, lpb);
            let sum = weights_total_ledger(cons, lpb, height);
            &&& sum > 0
            &&& forall|i: int|
                0 <= i < cons.len() ==> (#[trigger] cons[i]).1.total.amount + reward_share(
                    account_weight(cons[i].1, lpb, height),
                    sum,
                    net,
                ) <= u128::MAX
            &&& s.total.amount + shares_sum(cons, lpb, height, sum, net) <= u128::MAX
        }),
    ensures
        ({
            let lpb = s.last_payment_block;
            let cons = consolidated_ledger(s.stake_details, lpb);
            let sum = weights_total_ledger(cons, lpb, height);
            total_consistent(
                StateV {
                    stake_details: credited_shares_ledger(cons, lpb, height, sum, net),
                    last_payment_block: height,
                    total: Coin {
                        denom: s.total.denom,
                        amount: (s.total.amount + shares_sum(cons, lpb, height, sum, net)) as u128,
                    },
                    ..s
                },
            )
        }),
{
    let lpb = s.last_payment_block;
    let cons = consolidated_ledger(s.stake_details, lpb);
    let sum = weights_total_ledger(cons, lpb, height);
    lemma_consolidated_ledger_amount(s.stake_details, lpb);
    assert forall|i: int, j: int|
        0 <= i < cons.len() && 0 <= j < (#[trigger] cons[i]).1.partials.len() implies lpb < (
    #[trigger] cons[i].1.partials[j]).join_height by {
        assert(cons[i] == (s.stake_details[i].0, consolidate_details(s.stake_details[i].1, lpb)));
        lemma_fresh_partials_fresh(s.stake_details[i].1.partials, lpb);
    }
    assert forall|i: int| 0 <= i < cons.len() implies account_weight(
        (#[trigger] cons[i]).1,
        lpb,
        height,
    ) <= sum by {
        lemma_account_weight_le_total(cons, lpb, height, i);
    }
    lemma_credited_shares_amount(cons, lpb, height, sum, net);
    lemma_shares_sum_nonneg(cons, lpb, height, sum, net);
}

proof fn lemma_zeroed_plan_sum(ledger: Seq<(String, StakeDetailsV)>, boundary: u64)
    requires
        all_consolidated_ok(ledger, boundary),
    ensures
        ledger_amount(zeroed_ledger(ledger, boundary)) + pending_total(
            claim_plan(ledger, boundary),
        ) == ledger_amount(ledger),
    decreases ledger.len(),
{
    if ledger.len() > 0 {
        let dl = ledger.drop_last();
        assert(forall|i: int|
            0 <= i < dl.len() ==> consolidated_total((#[trigger] dl[i]).1, boundary)
                <= u128::MAX);
        lemma_zeroed_plan_sum(dl, boundary);
        assert(ledger.last() == ledger[ledger.len() - 1]);
        crate::state::lemma_vested_amount_nonneg(ledger.last().1.partials, boundary);
        lemma_vested_plus_fresh(ledger.last().1.partials, boundary);
        let ct = consolidated_total(ledger.last().1, boundary);
        lemma_pending_total_push(
            claim_plan(dl, boundary),
            (ledger.last().0, ct as u128),
        );
        let cd = consolidate_details(ledger.last().1, boundary);
        if cd.partials.len() == 0 {
            assert(partials_sum(cd.partials) == 0);
        } else {
            lemma_ledger_amount_push(
                zeroed_ledger(dl, boundary),
                (
                    ledger.last().0,
                    StakeDetailsV {
                        total: Coin { denom: cd.total.denom, amount: 0 },
                        partials: cd.partials,
                        earnings: cd.earnings,
                        start_height: cd.start_height,
                    },
                ),
            );
        }
    }
}

/// A full undelegation keeps the running total consistent: every position's
/// consolidated total leaves the ledger and the running total together, and
/// only the unvested partials stay behind.
pub proof fn lemma_undelegate_all_keeps_total_consistent(s: StateV, release: u64)
    requires
        total_consistent(s),
        all_consolidated_ok(s.stake_details, s.last_payment_block),
        pending_total(claim_plan(s.stake_details, s.last_payment_block)) <= s.total.amount,
    ensures
        ({
            let lpb = s.last_payment_block;
            let plan = claim_plan(s.stake_details, lpb);
            total_consistent(
                StateV {
                    stake_details: zeroed_ledger(s.stake_details, lpb),
                    unbonding_claims: claims_after_batch(
                        s.unbonding_claims,
                        plan,
                        release,
                        s.config.denom,
                    ),
                    total: Coin {
                        denom: s.total.denom,
                        amount: (s.total.amount - pending_total(plan)) as u128,
                    },
                    ..s
                },
            )
        }),
{
    lemma_zeroed_plan_sum(s.stake_details, s.last_payment_block);
    lemma_pending_sum_nonneg(claim_plan(s.stake_details, s.last_payment_block));
}

} // verus!
