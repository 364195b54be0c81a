//! The validator-allocation rebalancer: proportional command splitting over
//! the weight table, and the greedy redelegation diff that realizes a
//! change of target weights with one command per drained bucket.

use vstd::arithmetic::div_mod::{
    lemma_div_multiples_vanish, lemma_fundamental_div_mod, lemma_fundamental_div_mod_converse,
    lemma_mod_division_less_than_divisor,
};
use vstd::arithmetic::mul::{lemma_mul_inequality, lemma_mul_is_distributive_add};
use vstd::prelude::*;

use crate::error::ContractError;
use crate::fraction::{checked_mul_ratio, mul_ratio, Fraction, FRACTION_UNIT};
use crate::msg::{Coin, DistributionMsg, StakingMsg};
use crate::state::find_index;

verus! {

/// The whole-unit amount a weight assigns out of `amount`: the product
/// scaled down by the weight, rounded down.
pub open spec fn split_amount(amount: u128, weight: Fraction) -> int {
    mul_ratio(amount as int, weight.atomics as int, FRACTION_UNIT as int)
}

/// One delegate (or undelegate) command per validator, each for that
/// validator's weighted share of `amount`.
pub open spec fn split_msgs(amount: Coin, delegate: bool, table: Seq<(String, Fraction)>) -> Seq<
    StakingMsg,
>
    decreases table.len(),
{
    if table.len() == 0 {
        Seq::empty()
    } else {
        let share = Coin {
            denom: amount.denom,
            amount: split_amount(amount.amount, table.last().1) as u128,
        };
        let msg = if delegate {
            StakingMsg::Delegate { validator: table.last().0, amount: share }
        } else {
            StakingMsg::Undelegate { validator: table.last().0, amount: share }
        };
        split_msgs(amount, delegate, table.drop_last()).push(msg)
    }
}

/// The sum of the weighted shares that `split_msgs` hands out.
pub open spec fn split_total(amount: u128, table: Seq<(String, Fraction)>) -> int
    decreases table.len(),
{
    if table.len() == 0 {
        0
    } else {
        split_total(amount, table.drop_last()) + split_amount(amount, table.last().1)
    }
}

/// One reward-withdraw command per validator.
pub open spec fn withdraw_msgs(table: Seq<(String, Fraction)>) -> Seq<DistributionMsg>
    decreases table.len(),
{
    if table.len() == 0 {
        Seq::empty()
    } else {
        withdraw_msgs(table.drop_last()).push(
            DistributionMsg::WithdrawDelegatorReward { validator: table.last().0 },
        )
    }
}

/// For every validator in the weight table, the command that delegates (or
/// undelegates) its weighted share of `amount`, rounded down to whole units.
/// The commands come in the table's stored order, which carries no meaning.
pub fn delegate_msgs_for_validators(
    amount: Coin,
    delegate: bool,
    validator_list: &Vec<(String, Fraction)>,
) -> (r: Vec<StakingMsg>)
    requires
        forall|i: int|
            0 <= i < validator_list@.len() ==> (#[trigger] validator_list@[i]).1.atomics
                <= FRACTION_UNIT,
    ensures
        r@ == split_msgs(amount, delegate, validator_list@),
{
    let ghost table = validator_list@;
    let mut msgs: Vec<StakingMsg> = Vec::new();
    let n: usize = validator_list.len();
    let mut i: usize = 0;
    while i < n
        invariant
            i <= n,
            n == validator_list.len(),
            table == validator_list@,
            forall|k: int| 0 <= k < n ==> (#[trigger] table[k]).1.atomics <= FRACTION_UNIT,
            msgs@ == split_msgs(amount, delegate, table.take(i as int)),
        decreases n - i,
    {
        proof {
            assert(table.take(i + 1).drop_last() =~= table.take(i as int));
            assert(table.take(i + 1).last() == table[i as int]);
        }
        let entry = &validator_list[i];
        let stake_amount = entry.1.mul_amount(amount.amount);
        let share = Coin { denom: amount.denom.clone(), amount: stake_amount };
        let msg = if delegate {
            StakingMsg::Delegate { validator: entry.0.clone(), amount: share }
        } else {
            StakingMsg::Undelegate { validator: entry.0.clone(), amount: share }
        };
        msgs.push(msg);
        i = i + 1;
    }
    proof {
        assert(table.take(n as int) =~= table);
    }
    msgs
}

/// One reward-withdraw command per validator in the table.
pub fn distribute_msgs_for_validators(validator_list: &Vec<(String, Fraction)>) -> (r: Vec<
    DistributionMsg,
>)
    ensures
        r@ == withdraw_msgs(validator_list@),
{
    let ghost table = validator_list@;
    let mut msgs: Vec<DistributionMsg> = Vec::new();
    let n: usize = validator_list.len();
    let mut i: usize = 0;
    while i < n
        invariant
            i <= n,
            n == validator_list.len(),
            table == validator_list@,
            msgs@ == withdraw_msgs(table.take(i as int)),
        decreases n - i,
    {
        proof {
            assert(table.take(i + 1).drop_last() =~= table.take(i as int));
            assert(table.take(i + 1).last() == table[i as int]);
        }
        msgs.push(
            DistributionMsg::WithdrawDelegatorReward { validator: validator_list[i].0.clone() },
        );
        i = i + 1;
    }
    proof {
        assert(table.take(n as int) =~= table);
    }
    msgs
}

/// Rounding down on each leg never hands out more than the whole sum of two
/// nonnegative numerators would.
proof fn lemma_floor_sum(x: int, y: int, d: int)
    requires
        d > 0,
        x >= 0,
        y >= 0,
    ensures
        x / d + y / d <= (x + y) / d,
{
    lemma_fundamental_div_mod(x, d);
    lemma_fundamental_div_mod(y, d);
    lemma_mod_division_less_than_divisor(x, d);
    lemma_mod_division_less_than_divisor(y, d);
    let q = x / d + y / d;
    let r = x % d + y % d;
    assert(x + y == q * d + r) by (nonlinear_arith)
        requires
            x == d * (x / d) + x % d,
            y == d * (y / d) + y % d,
            q == x / d + y / d,
            r == x % d + y % d,
    ;
    if r < d {
        lemma_fundamental_div_mod_converse(x + y, d, q, r);
    } else {
        assert(x + y == (q + 1) * d + (r - d)) by (nonlinear_arith)
            requires
                x + y == q * d + r,
        ;
        lemma_fundamental_div_mod_converse(x + y, d, q + 1, r - d);
    }
}

/// Splitting an amount over a weight table whose weights sum to exactly 1
/// hands out at most the amount itself: each leg is rounded down, and the
/// truncation residue is simply not delegated.
pub proof fn lemma_split_total_le_amount(amount: u128, table: Seq<(String, Fraction)>)
    ensures
        split_total(amount, table) <= mul_ratio(
            amount as int,
            crate::state::weights_sum(table),
            FRACTION_UNIT as int,
        ),
        crate::state::weights_sum(table) == FRACTION_UNIT ==> split_total(amount, table)
            <= amount,
    decreases table.len(),
{
    let unit = FRACTION_UNIT as int;
    if table.len() == 0 {
        lemma_div_multiples_vanish(0, unit);
    } else {
        let rest = table.drop_last();
        let w = table.last().1.atomics as int;
        let ws_rest = crate::state::weights_sum(rest);
        lemma_split_total_le_amount(amount, rest);
        crate::state::lemma_weights_sum_nonneg(rest);
        lemma_mul_inequality(0, ws_rest, amount as int);
        assert(amount * ws_rest == ws_rest * amount) by (nonlinear_arith);
        assert(0 * ws_rest == 0) by (nonlinear_arith);
        assert(amount as int * ws_rest >= 0) by {
            assert(0 <= amount as int * ws_rest) by (nonlinear_arith)
                requires 0 <= amount as int && 0 <= ws_rest;
        }
        lemma_floor_sum(amount as int * ws_rest, amount as int * w, unit);
        lemma_mul_is_distributive_add(amount as int, ws_rest, w);
    }
    if crate::state::weights_sum(table) == FRACTION_UNIT {
        lemma_div_multiples_vanish(amount as int, unit);
        assert(amount as int * unit == unit * amount as int) by (nonlinear_arith);
    }
}

/// The validators whose weight shrinks or disappears when `old` is replaced
/// by `new`, each with the absolute weight decrease, in `old` order.
pub open spec fn delegate_from_list(
    old: Seq<(String, Fraction)>,
    new: Seq<(String, Fraction)>,
) -> Seq<(String, Fraction)>
    decreases old.len(),
{
    if old.len() == 0 {
        Seq::empty()
    } else {
        let rest = delegate_from_list(old.drop_last(), new);
        let (v, w) = old.last();
        let ni = find_index(new, v@);
        if ni >= 0 {
            let nw = new[ni].1;
            if w.atomics > nw.atomics {
                rest.push((v, Fraction { atomics: (w.atomics - nw.atomics) as u128 }))
            } else {
                rest
            }
        } else {
            rest.push((v, w))
        }
    }
}

/// The validators of `old` whose weight grows in `new`, each with the
/// absolute weight increase, in `old` order.
pub open spec fn delegate_to_common(
    old: Seq<(String, Fraction)>,
    new: Seq<(String, Fraction)>,
) -> Seq<(String, Fraction)>
    decreases old.len(),
{
    if old.len() == 0 {
        Seq::empty()
    } else {
        let rest = delegate_to_common(old.drop_last(), new);
        let (v, w) = old.last();
        let ni = find_index(new, v@);
        if ni >= 0 && new[ni].1.atomics > w.atomics {
            rest.push((v, Fraction { atomics: (new[ni].1.atomics - w.atomics) as u128 }))
        } else {
            rest
        }
    }
}

/// The validators that appear only in `new`, with their full weight, in
/// `new` order.
pub open spec fn delegate_to_fresh(
    old: Seq<(String, Fraction)>,
    new: Seq<(String, Fraction)>,
) -> Seq<(String, Fraction)>
    decreases new.len(),
{
    if new.len() == 0 {
        Seq::empty()
    } else {
        let rest = delegate_to_fresh(old, new.drop_last());
        if find_index(old, new.last().0@) == -1 {
            rest.push(new.last())
        } else {
            rest
        }
    }
}

/// All the weight-gaining buckets: grown validators first (in `old` order),
/// then brand-new validators (in `new` order).
pub open spec fn delegate_to_list(
    old: Seq<(String, Fraction)>,
    new: Seq<(String, Fraction)>,
) -> Seq<(String, Fraction)> {
    delegate_to_common(old, new) + delegate_to_fresh(old, new)
}

/// The command moving `delta`'s share of the total stake from one validator
/// to another.
pub open spec fn redelegate_cmd(
    total: u128,
    denom: String,
    src: String,
    dst: String,
    delta: Fraction,
) -> StakingMsg {
    StakingMsg::Redelegate {
        src_validator: src,
        dst_validator: dst,
        amount: Coin { denom: denom, amount: split_amount(total, delta) as u128 },
    }
}

/// The greedy matching of weight-losing buckets against weight-gaining
/// buckets, draining earlier entries first: whichever of the two current
/// buckets is smaller is consumed whole, and one redelegate command realizes
/// the consumed delta.
pub open spec fn greedy_msgs(
    total: u128,
    denom: String,
    to: Seq<(String, Fraction)>,
    from: Seq<(String, Fraction)>,
) -> Seq<StakingMsg>
    decreases to.len() + from.len(),
{
    if to.len() == 0 || from.len() == 0 {
        Seq::empty()
    } else {
        let (tv, td) = to[0];
        let (fv, fd) = from[0];
        if fd.atomics == 0 {
            greedy_msgs(total, denom, to, from.drop_first())
        } else if td.atomics > fd.atomics {
            seq![redelegate_cmd(total, denom, fv, tv, fd)] + greedy_msgs(
                total,
                denom,
                to.update(0, (tv, Fraction { atomics: (td.atomics - fd.atomics) as u128 })),
                from.drop_first(),
            )
        } else if td.atomics < fd.atomics {
            seq![redelegate_cmd(total, denom, fv, tv, td)] + greedy_msgs(
                total,
                denom,
                to.drop_first(),
                from.update(0, (fv, Fraction { atomics: (fd.atomics - td.atomics) as u128 })),
            )
        } else {
            seq![redelegate_cmd(total, denom, fv, tv, td)] + greedy_msgs(
                total,
                denom,
                to.drop_first(),
                from.drop_first(),
            )
        }
    }
}

/// Whether every command the greedy matching emits carries an amount that
/// fits in a `u128`.
pub open spec fn greedy_ok(
    total: u128,
    to: Seq<(String, Fraction)>,
    from: Seq<(String, Fraction)>,
) -> bool
    decreases to.len() + from.len(),
{
    if to.len() == 0 || from.len() == 0 {
        true
    } else {
        let (tv, td) = to[0];
        let (fv, fd) = from[0];
        if fd.atomics == 0 {
            greedy_ok(total, to, from.drop_first())
        } else if td.atomics > fd.atomics {
            split_amount(total, fd) <= u128::MAX && greedy_ok(
                total,
                to.update(0, (tv, Fraction { atomics: (td.atomics - fd.atomics) as u128 })),
                from.drop_first(),
            )
        } else if td.atomics < fd.atomics {
            split_amount(total, td) <= u128::MAX && greedy_ok(
                total,
                to.drop_first(),
                from.update(0, (fv, Fraction { atomics: (fd.atomics - td.atomics) as u128 })),
            )
        } else {
            split_amount(total, td) <= u128::MAX && greedy_ok(
                total,
                to.drop_first(),
                from.drop_first(),
            )
        }
    }
}

/// When every bucket's delta is a genuine fraction (at most 1), every amount
/// the greedy matching emits fits.
pub proof fn lemma_greedy_ok_when_bounded(
    total: u128,
    to: Seq<(String, Fraction)>,
    from: Seq<(String, Fraction)>,
)
    requires
        forall|i: int| 0 <= i < to.len() ==> (#[trigger] to[i]).1.atomics <= FRACTION_UNIT,
        forall|i: int| 0 <= i < from.len() ==> (#[trigger] from[i]).1.atomics <= FRACTION_UNIT,
    ensures
        greedy_ok(total, to, from),
    decreases to.len() + from.len(),
{
    if to.len() == 0 || from.len() == 0 {
    } else {
        let (tv, td) = to[0];
        let (fv, fd) = from[0];
        crate::fraction::lemma_mul_ratio_le_for_small_fraction(total as int, td.atomics as int);
        crate::fraction::lemma_mul_ratio_le_for_small_fraction(total as int, fd.atomics as int);
        if fd.atomics == 0 {
            lemma_greedy_ok_when_bounded(total, to, from.drop_first());
        } else if td.atomics > fd.atomics {
            lemma_greedy_ok_when_bounded(
                total,
                to.update(0, (tv, Fraction { atomics: (td.atomics - fd.atomics) as u128 })),
                from.drop_first(),
            );
        } else if td.atomics < fd.atomics {
            lemma_greedy_ok_when_bounded(
                total,
                to.drop_first(),
                from.update(0, (fv, Fraction { atomics: (fd.atomics - td.atomics) as u128 })),
            );
        } else {
            lemma_greedy_ok_when_bounded(total, to.drop_first(), from.drop_first());
        }
    }
}

/// Every decrease bucket is bounded by the old weight it shrinks from.
pub proof fn lemma_from_list_bounded(
    old: Seq<(String, Fraction)>,
    new: Seq<(String, Fraction)>,
    bound: u128,
)
    requires
        forall|i: int| 0 <= i < old.len() ==> (#[trigger] old[i]).1.atomics <= bound,
    ensures
        forall|i: int|
            0 <= i < delegate_from_list(old, new).len() ==> (#[trigger] delegate_from_list(
                old,
                new,
            )[i]).1.atomics <= bound,
    decreases old.len(),
{
    if old.len() > 0 {
        assert(forall|i: int|
            0 <= i < old.drop_last().len() ==> (#[trigger] old.drop_last()[i]).1.atomics <= bound);
        lemma_from_list_bounded(old.drop_last(), new, bound);
        let rest = delegate_from_list(old.drop_last(), new);
        let result = delegate_from_list(old, new);
        assert(old.last() == old[old.len() - 1]);
        assert forall|i: int| 0 <= i < result.len() implies (#[trigger] result[i]).1.atomics
            <= bound by {
            if i < rest.len() {
                assert(result[i] == rest[i]);
            }
        }
    }
}

/// Every increase bucket is bounded by the new weight it grows to.
pub proof fn lemma_to_list_bounded(
    old: Seq<(String, Fraction)>,
    new: Seq<(String, Fraction)>,
    bound: u128,
)
    requires
        forall|i: int| 0 <= i < new.len() ==> (#[trigger] new[i]).1.atomics <= bound,
    ensures
        forall|i: int|
            0 <= i < delegate_to_list(old, new).len() ==> (#[trigger] delegate_to_list(
                old,
                new,
            )[i]).1.atomics <= bound,
{
    lemma_to_common_bounded(old, new, bound);
    lemma_to_fresh_bounded(old, new, bound);
    assert forall|i: int| 0 <= i < delegate_to_list(old, new).len() implies (
    #[trigger] delegate_to_list(old, new)[i]).1.atomics <= bound by {
        let common = delegate_to_common(old, new);
        if i < common.len() {
            assert(delegate_to_list(old, new)[i] == common[i]);
        } else {
            assert(delegate_to_list(old, new)[i] == delegate_to_fresh(old, new)[i - common.len()]);
        }
    }
}

proof fn lemma_to_common_bounded(
    old: Seq<(String, Fraction)>,
    new: Seq<(String, Fraction)>,
    bound: u128,
)
    requires
        forall|i: int| 0 <= i < new.len() ==> (#[trigger] new[i]).1.atomics <= bound,
    ensures
        forall|i: int|
            0 <= i < delegate_to_common(old, new).len() ==> (#[trigger] delegate_to_common(
                old,
                new,
            )[i]).1.atomics <= bound,
    decreases old.len(),
{
    if old.len() > 0 {
        lemma_to_common_bounded(old.drop_last(), new, bound);
        let rest = delegate_to_common(old.drop_last(), new);
        let result = delegate_to_common(old, new);
        let (v, w) = old.last();
        let ni = find_index(new, v@);
        if ni >= 0 {
            crate::state::lemma_find_index_spec(new, v@);
            assert(new[ni] == new[ni]);
        }
        assert forall|i: int| 0 <= i < result.len() implies (#[trigger] result[i]).1.atomics
            <= bound by {
            if i < rest.len() {
                assert(result[i] == rest[i]);
            }
        }
    }
}

proof fn lemma_to_fresh_bounded(
    old: Seq<(String, Fraction)>,
    new: Seq<(String, Fraction)>,
    bound: u128,
)
    requires
        forall|i: int| 0 <= i < new.len() ==> (#[trigger] new[i]).1.atomics <= bound,
    ensures
        forall|i: int|
            0 <= i < delegate_to_fresh(old, new).len() ==> (#[trigger] delegate_to_fresh(
                old,
                new,
            )[i]).1.atomics <= bound,
    decreases new.len(),
{
    if new.len() > 0 {
        assert(forall|i: int|
            0 <= i < new.drop_last().len() ==> (#[trigger] new.drop_last()[i]).1.atomics <= bound);
        lemma_to_fresh_bounded(old, new.drop_last(), bound);
        let rest = delegate_to_fresh(old, new.drop_last());
        let result = delegate_to_fresh(old, new);
        assert(new.last() == new[new.len() - 1]);
        assert forall|i: int| 0 <= i < result.len() implies (#[trigger] result[i]).1.atomics
            <= bound by {
            if i < rest.len() {
                assert(result[i] == rest[i]);
            }
        }
    }
}

/// The minimal set of redelegation commands that realizes the change from
/// the `old` weight table to the `new` one over `total_delegated` staked
/// units: weight-losing validators are greedily drained into weight-gaining
/// ones, earlier entries first.  Fails only when a command's amount would
/// not fit in a `u128`.
pub fn compute_redelegate_msgs(
    total_delegated: u128,
    denom: &String,
    old_validator_list: Vec<(String, Fraction)>,
    new_validator_list: Vec<(String, Fraction)>,
) -> (r: Result<Vec<StakingMsg>, ContractError>)
    ensures
        r is Ok <==> greedy_ok(
            total_delegated,
            delegate_to_list(old_validator_list@, new_validator_list@),
            delegate_from_list(old_validator_list@, new_validator_list@),
        ),
        r matches Ok(msgs) ==> msgs@ == greedy_msgs(
            total_delegated,
            *denom,
            delegate_to_list(old_validator_list@, new_validator_list@),
            delegate_from_list(old_validator_list@, new_validator_list@),
        ),
        r is Err ==> r == Err::<Vec<StakingMsg>, ContractError>(ContractError::Overflow {}),
{
    let ghost old_table = old_validator_list@;
    let ghost new_table = new_validator_list@;

    let mut delegate_from: Vec<(String, Fraction)> = Vec::new();
    let mut delegate_to: Vec<(String, Fraction)> = Vec::new();

    let n_old: usize = old_validator_list.len();
    let mut i: usize = 0;
    while i < n_old
        invariant
            i <= n_old,
            n_old == old_validator_list.len(),
            old_table == old_validator_list@,
            new_table == new_validator_list@,
            delegate_from@ == delegate_from_list(old_table.take(i as int), new_table),
            delegate_to@ == delegate_to_common(old_table.take(i as int), new_table),
        decreases n_old - i,
    {
        proof {
            assert(old_table.take(i + 1).drop_last() =~= old_table.take(i as int));
            assert(old_table.take(i + 1).last() == old_table[i as int]);
        }
        let entry = &old_validator_list[i];
        match crate::state::find_entry(&new_validator_list, &entry.0) {
            Some(j) => {
                let nw = new_validator_list[j].1;
                if entry.1.gt(&nw) {
                    delegate_from.push(
                        (entry.0.clone(), Fraction { atomics: entry.1.atomics - nw.atomics }),
                    );
                } else if entry.1.lt(&nw) {
                    delegate_to.push(
                        (entry.0.clone(), Fraction { atomics: nw.atomics - entry.1.atomics }),
                    );
                }
            },
            None => {
                delegate_from.push((entry.0.clone(), entry.1));
            },
        }
        i = i + 1;
    }
    proof {
        assert(old_table.take(n_old as int) =~= old_table);
    }

    let n_new: usize = new_validator_list.len();
    let mut i: usize = 0;
    while i < n_new
        invariant
            i <= n_new,
            n_new == new_validator_list.len(),
            old_table == old_validator_list@,
            new_table == new_validator_list@,
            delegate_from@ == delegate_from_list(old_table, new_table),
            delegate_to@ == delegate_to_common(old_table, new_table) + delegate_to_fresh(
                old_table,
                new_table.take(i as int),
            ),
        decreases n_new - i,
    {
        proof {
            assert(new_table.take(i + 1).drop_last() =~= new_table.take(i as int));
            assert(new_table.take(i + 1).last() == new_table[i as int]);
        }
        let entry = &new_validator_list[i];
        match crate::state::find_entry(&old_validator_list, &entry.0) {
            Some(_) => {},
            None => {
                delegate_to.push((entry.0.clone(), entry.1));
            },
        }
        i = i + 1;
    }
    proof {
        assert(new_table.take(n_new as int) =~= new_table);
        assert(delegate_to@ == delegate_to_list(old_table, new_table));
    }

    let ghost to0 = delegate_to@;
    let ghost from0 = delegate_from@;
    proof {
        assert(to0 == delegate_to_list(old_table, new_table));
        assert(from0 == delegate_from_list(old_table, new_table));
    }

    let mut msgs: Vec<StakingMsg> = Vec::new();
    let mut ti: usize = 0;
    let mut fi: usize = 0;
    let n_to: usize = delegate_to.len();
    let n_from: usize = delegate_from.len();
    proof {
        assert(delegate_to@.skip(0) =~= to0);
        assert(delegate_from@.skip(0) =~= from0);
        assert(msgs@ + greedy_msgs(total_delegated, *denom, to0, from0) =~= greedy_msgs(
            total_delegated,
            *denom,
            to0,
            from0,
        ));
    }
    while ti < n_to && fi < n_from
        invariant
            ti <= n_to,
            fi <= n_from,
            n_to == delegate_to.len(),
            n_from == delegate_from.len(),
            to0 == delegate_to_list(old_validator_list@, new_validator_list@),
            from0 == delegate_from_list(old_validator_list@, new_validator_list@),
            msgs@ + greedy_msgs(
                total_delegated,
                *denom,
                delegate_to@.skip(ti as int),
                delegate_from@.skip(fi as int),
            ) == greedy_msgs(total_delegated, *denom, to0, from0),
            greedy_ok(total_delegated, delegate_to@.skip(ti as int), delegate_from@.skip(fi as int))
                == greedy_ok(total_delegated, to0, from0),
        decreases n_to - ti + n_from - fi,
    {
        let ghost to_rest = delegate_to@.skip(ti as int);
        let ghost from_rest = delegate_from@.skip(fi as int);
        let ghost msgs0 = msgs@;
        proof {
            assert(to_rest[0] == delegate_to@[ti as int]);
            assert(from_rest[0] == delegate_from@[fi as int]);
            assert(to_rest.len() > 0 && from_rest.len() > 0);
        }
        let td = delegate_to[ti].1;
        let fd = delegate_from[fi].1;
        if fd.is_zero() {
            proof {
                assert(from_rest.drop_first() =~= delegate_from@.skip(fi + 1));
            }
            fi = fi + 1;
        } else if td.gt(&fd) {
            match checked_mul_ratio(total_delegated, fd.atomics, FRACTION_UNIT) {
                Some(amount) => {
                    let msg = StakingMsg::Redelegate {
                        src_validator: delegate_from[fi].0.clone(),
                        dst_validator: delegate_to[ti].0.clone(),
                        amount: Coin { denom: denom.clone(), amount },
                    };
                    let ghost gm = msg;
                    msgs.push(msg);
                    let reduced = (
                        delegate_to[ti].0.clone(),
                        Fraction { atomics: td.atomics - fd.atomics },
                    );
                    delegate_to.set(ti, reduced);
                    fi = fi + 1;
                    proof {
                        assert(gm == redelegate_cmd(
                            total_delegated,
                            *denom,
                            from_rest[0].0,
                            to_rest[0].0,
                            fd,
                        ));
                        assert(delegate_to@.skip(ti as int) =~= to_rest.update(
                            0,
                            (to_rest[0].0, Fraction { atomics: (td.atomics - fd.atomics) as u128 }),
                        ));
                        assert(from_rest.drop_first() =~= delegate_from@.skip(fi as int));
                        let tail = greedy_msgs(
                            total_delegated,
                            *denom,
                            delegate_to@.skip(ti as int),
                            delegate_from@.skip(fi as int),
                        );
                        assert(greedy_msgs(total_delegated, *denom, to_rest, from_rest) == seq![gm]
                            + tail);
                        assert(msgs0.push(gm) + tail =~= msgs0 + (seq![gm] + tail));
                    }
                },
                None => {
                    proof {
                        assert(!greedy_ok(total_delegated, to_rest, from_rest));
                    }
                    return Err(ContractError::Overflow {});
                },
            }
        } else if td.lt(&fd) {
            match checked_mul_ratio(total_delegated, td.atomics, FRACTION_UNIT) {
                Some(amount) => {
                    let msg = StakingMsg::Redelegate {
                        src_validator: delegate_from[fi].0.clone(),
                        dst_validator: delegate_to[ti].0.clone(),
                        amount: Coin { denom: denom.clone(), amount },
                    };
                    let ghost gm = msg;
                    msgs.push(msg);
                    let reduced = (
                        delegate_from[fi].0.clone(),
                        Fraction { atomics: fd.atomics - td.atomics },
                    );
                    delegate_from.set(fi, reduced);
                    ti = ti + 1;
                    proof {
                        assert(gm == redelegate_cmd(
                            total_delegated,
                            *denom,
                            from_rest[0].0,
                            to_rest[0].0,
                            td,
                        ));
                        assert(delegate_from@.skip(fi as int) =~= from_rest.update(
                            0,
                            (
                                from_rest[0].0,
                                Fraction { atomics: (fd.atomics - td.atomics) as u128 },
                            ),
                        ));
                        assert(to_rest.drop_first() =~= delegate_to@.skip(ti as int));
                        let tail = greedy_msgs(
                            total_delegated,
                            *denom,
                            delegate_to@.skip(ti as int),
                            delegate_from@.skip(fi as int),
                        );
                        assert(greedy_msgs(total_delegated, *denom, to_rest, from_rest) == seq![gm]
                            + tail);
                        assert(msgs0.push(gm) + tail =~= msgs0 + (seq![gm] + tail));
                    }
                },
                None => {
                    proof {
                        assert(!greedy_ok(total_delegated, to_rest, from_rest));
                    }
                    return Err(ContractError::Overflow {});
                },
            }
        } else {
            match checked_mul_ratio(total_delegated, td.atomics, FRACTION_UNIT) {
                Some(amount) => {
                    let msg = StakingMsg::Redelegate {
                        src_validator: delegate_from[fi].0.clone(),
                        dst_validator: delegate_to[ti].0.clone(),
                        amount: Coin { denom: denom.clone(), amount },
                    };
                    let ghost gm = msg;
                    msgs.push(msg);
                    ti = ti + 1;
                    fi = fi + 1;
                    proof {
                        assert(gm == redelegate_cmd(
                            total_delegated,
                            *denom,
                            from_rest[0].0,
                            to_rest[0].0,
                            td,
                        ));
                        assert(to_rest.drop_first() =~= delegate_to@.skip(ti as int));
                        assert(from_rest.drop_first() =~= delegate_from@.skip(fi as int));
                        let tail = greedy_msgs(
                            total_delegated,
                            *denom,
                            delegate_to@.skip(ti as int),
                            delegate_from@.skip(fi as int),
                        );
                        assert(greedy_msgs(total_delegated, *denom, to_rest, from_rest) == seq![gm]
                            + tail);
                        assert(msgs0.push(gm) + tail =~= msgs0 + (seq![gm] + tail));
                    }
                },
                None => {
                    proof {
                        assert(!greedy_ok(total_delegated, to_rest, from_rest));
                    }
                    return Err(ContractError::Overflow {});
                },
            }
        }
    }
    proof {
        assert(greedy_msgs(
            total_delegated,
            *denom,
            delegate_to@.skip(ti as int),
            delegate_from@.skip(fi as int),
        ) =~= Seq::<StakingMsg>::empty());
        assert(msgs@ =~= msgs@ + Seq::<StakingMsg>::empty());
    }
    Ok(msgs)
}

} // verus!
