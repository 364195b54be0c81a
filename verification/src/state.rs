//! The engine's data model: the configuration, the per-depositor stake
//! ledger with partial-stake consolidation, the keyed stores, and the
//! mathematical view every contract is stated over.

use vstd::prelude::*;

use crate::error::ContractError;
use crate::fraction::{Fraction, FRACTION_UNIT};
use crate::msg::Coin;

verus! {

/// The engine's configuration.  Mutated only by an owner-authorized update.
#[derive(Clone, Debug, PartialEq, Eq)]
pub struct Config {
    /// Account that is allowed to perform admin operations.
    pub owner: String,
    /// Account which receives commissions.
    pub treasury: String,
    /// Commission taken from every harvested reward; a fraction in [0, 1].
    pub restake_commission: Fraction,
    /// Commission taken from transfers between depositors; a fraction in [0, 1].
    pub transfer_commission: Fraction,
    /// The single token denomination the pool accounts in.
    pub denom: String,
    /// Unbonding period in seconds.
    pub unbonding_period: u64,
    /// Minimum seconds between two batch releases.
    pub min_unbonding_cooldown: u64,
}

impl Config {
    /// Both commissions are genuine fractions, no greater than 1.
    pub open spec fn well_formed(self) -> bool {
        self.restake_commission.atomics <= FRACTION_UNIT
            && self.transfer_commission.atomics <= FRACTION_UNIT
    }
}

/// A partial stake: a deposit that has not yet vested into the fully
/// weighted total because it arrived after the last reward payment.
#[derive(Clone, Debug, PartialEq, Eq)]
pub struct Stake {
    pub amount: Coin,
    pub join_height: u64,
}

/// One depositor's position: the fully vested total, the still-partial
/// deposits, the cumulative earnings and the height of the first deposit.
#[derive(Clone, Debug, PartialEq, Eq)]
pub struct StakeDetails {
    pub total: Coin,
    pub partials: Vec<Stake>,
    pub earnings: u128,
    pub start_height: u64,
}

/// A matured or maturing right to receive previously undelegated funds once
/// `release_timestamp` (seconds) has passed.
#[derive(Clone, Debug, PartialEq, Eq)]
pub struct ClaimDetails {
    pub release_timestamp: u64,
    pub amount: Coin,
}

/// The mathematical value of a depositor's position: the same fields, with
/// the partial list as a sequence.
#[verifier::ext_equal]
pub ghost struct StakeDetailsV {
    pub total: Coin,
    pub partials: Seq<Stake>,
    pub earnings: u128,
    pub start_height: u64,
}

impl View for StakeDetails {
    type V = StakeDetailsV;

    open spec fn view(&self) -> StakeDetailsV {
        StakeDetailsV {
            total: self.total,
            partials: self.partials@,
            earnings: self.earnings,
            start_height: self.start_height,
        }
    }
}

/// A keyed store as its mathematical value: each entry's value replaced by
/// its view.
pub open spec fn view_entries<T: View>(entries: Seq<(String, T)>) -> Seq<(String, T::V)> {
    entries.map_values(|e: (String, T)| (e.0, e.1@))
}

/// Viewing the entries changes no key, so it finds the same index.
pub proof fn lemma_find_index_view_entries<T: View>(entries: Seq<(String, T)>, key: Seq<char>)
    ensures
        find_index(view_entries(entries), key) == find_index(entries, key),
    decreases entries.len(),
{
    if entries.len() > 0 {
        assert(view_entries(entries)[0].0 == entries[0].0);
        assert(view_entries(entries).drop_first() =~= view_entries(entries.drop_first()));
        lemma_find_index_view_entries(entries.drop_first(), key);
    }
}

/// The sum of the partial amounts that joined no later than `boundary`, and
/// therefore vest on the next consolidation.
pub open spec fn vested_amount(partials: Seq<Stake>, boundary: u64) -> int
    decreases partials.len(),
{
    if partials.len() == 0 {
        0
    } else {
        vested_amount(partials.drop_last(), boundary) + if partials.last().join_height
            <= boundary {
            partials.last().amount.amount as int
        } else {
            0
        }
    }
}

/// The partials that joined after `boundary`, in order: exactly those a
/// consolidation at `boundary` keeps.
pub open spec fn fresh_partials(partials: Seq<Stake>, boundary: u64) -> Seq<Stake>
    decreases partials.len(),
{
    if partials.len() == 0 {
        Seq::empty()
    } else {
        let rest = fresh_partials(partials.drop_last(), boundary);
        if partials.last().join_height > boundary {
            rest.push(partials.last())
        } else {
            rest
        }
    }
}

/// The authoritative vested total a consolidation at `boundary` produces.
pub open spec fn consolidated_total(details: StakeDetailsV, boundary: u64) -> int {
    details.total.amount + vested_amount(details.partials, boundary)
}

/// A depositor's position after consolidation at `boundary`: the eligible
/// partials folded into the total, the rest kept, everything else unchanged.
/// Meaningful when the consolidated total fits in a `u128`.
pub open spec fn consolidate_details(details: StakeDetailsV, boundary: u64) -> StakeDetailsV {
    StakeDetailsV {
        total: Coin {
            denom: details.total.denom,
            amount: consolidated_total(details, boundary) as u128,
        },
        partials: fresh_partials(details.partials, boundary),
        earnings: details.earnings,
        start_height: details.start_height,
    }
}

/// Every position's consolidated total fits in a `u128`.
pub open spec fn all_consolidated_ok(ledger: Seq<(String, StakeDetailsV)>, boundary: u64) -> bool {
    forall|i: int|
        0 <= i < ledger.len() ==> consolidated_total((#[trigger] ledger[i]).1, boundary)
            <= u128::MAX
}

pub proof fn lemma_vested_amount_nonneg(partials: Seq<Stake>, boundary: u64)
    ensures
        0 <= vested_amount(partials, boundary),
    decreases partials.len(),
{
    if partials.len() > 0 {
        lemma_vested_amount_nonneg(partials.drop_last(), boundary);
    }
}

/// A prefix never vests more than the whole sequence.
pub proof fn lemma_vested_amount_take_le(partials: Seq<Stake>, boundary: u64, i: int)
    requires
        0 <= i <= partials.len(),
    ensures
        vested_amount(partials.take(i), boundary) <= vested_amount(partials, boundary),
    decreases partials.len(),
{
    if i == partials.len() {
        assert(partials.take(i) =~= partials);
    } else {
        assert(partials.drop_last().take(i) =~= partials.take(i));
        lemma_vested_amount_take_le(partials.drop_last(), boundary, i);
    }
}

impl StakeDetails {
    /// Folds every partial stake that joined no later than
    /// `last_payment_block` into the vested total, keeping the rest partial.
    /// Running it twice in a row changes nothing the second time.
    pub fn consolidate_partials(&mut self, last_payment_block: u64) -> (r: Result<
        (),
        ContractError,
    >)
        ensures
            r is Ok <==> consolidated_total(old(self)@, last_payment_block) <= u128::MAX,
            r is Ok ==> final(self)@ == consolidate_details(old(self)@, last_payment_block),
            r is Err ==> *final(self) == *old(self) && r == Err::<(), ContractError>(
                ContractError::Overflow {},
            ),
    {
        let ghost all = self.partials@;
        let mut new_total: u128 = self.total.amount;
        let mut fresh: Vec<Stake> = Vec::new();
        let n: usize = self.partials.len();
        let mut i: usize = 0;
        while i < n
            invariant
                i <= n,
                n == self.partials.len(),
                *self == *old(self),
                all == self.partials@,
                new_total == old(self).total.amount + vested_amount(
                    all.take(i as int),
                    last_payment_block,
                ),
                fresh@ == fresh_partials(all.take(i as int), last_payment_block),
            decreases n - i,
        {
            proof {
                assert(all.take(i + 1).drop_last() =~= all.take(i as int));
                assert(all.take(i + 1).last() == all[i as int]);
            }
            let p = &self.partials[i];
            if p.join_height <= last_payment_block {
                match new_total.checked_add(p.amount.amount) {
                    Some(t) => {
                        new_total = t;
                    },
                    None => {
                        proof {
                            lemma_vested_amount_take_le(all, last_payment_block, i + 1);
                        }
                        return Err(ContractError::Overflow {});
                    },
                }
            } else {
                let kept = Stake {
                    amount: Coin { denom: p.amount.denom.clone(), amount: p.amount.amount },
                    join_height: p.join_height,
                };
                fresh.push(kept);
            }
            i = i + 1;
        }
        proof {
            assert(all.take(n as int) =~= all);
        }
        self.total.amount = new_total;
        self.partials = fresh;
        Ok(())
    }
}

/// An exact copy of a coin.
pub fn clone_coin(c: &Coin) -> (r: Coin)
    ensures
        r == *c,
{
    Coin { denom: c.denom.clone(), amount: c.amount }
}

/// An exact copy of a partial stake.
pub fn clone_stake(s: &Stake) -> (r: Stake)
    ensures
        r == *s,
{
    Stake { amount: clone_coin(&s.amount), join_height: s.join_height }
}

/// A copy of a depositor's position with the same mathematical value.
pub fn clone_stake_details(d: &StakeDetails) -> (r: StakeDetails)
    ensures
        r@ == d@,
{
    let mut partials: Vec<Stake> = Vec::new();
    let n: usize = d.partials.len();
    let mut i: usize = 0;
    while i < n
        invariant
            i <= n,
            n == d.partials.len(),
            partials@ =~= d.partials@.take(i as int),
        decreases n - i,
    {
        partials.push(clone_stake(&d.partials[i]));
        i = i + 1;
    }
    proof {
        assert(d.partials@.take(n as int) =~= d.partials@);
    }
    StakeDetails {
        total: clone_coin(&d.total),
        partials,
        earnings: d.earnings,
        start_height: d.start_height,
    }
}

/// An exact copy of an unbonding claim.
pub fn clone_claim(c: &ClaimDetails) -> (r: ClaimDetails)
    ensures
        r == *c,
{
    ClaimDetails { release_timestamp: c.release_timestamp, amount: clone_coin(&c.amount) }
}

/// An exact copy of a claim list.
pub fn clone_claims(claims: &Vec<ClaimDetails>) -> (r: Vec<ClaimDetails>)
    ensures
        r@ == claims@,
{
    let mut out: Vec<ClaimDetails> = Vec::new();
    let n: usize = claims.len();
    let mut i: usize = 0;
    while i < n
        invariant
            i <= n,
            n == claims.len(),
            out@ =~= claims@.take(i as int),
        decreases n - i,
    {
        out.push(clone_claim(&claims[i]));
        i = i + 1;
    }
    proof {
        assert(claims@.take(n as int) =~= claims@);
    }
    out
}

/// An exact copy of the configuration.
pub fn clone_config(c: &Config) -> (r: Config)
    ensures
        r == *c,
{
    Config {
        owner: c.owner.clone(),
        treasury: c.treasury.clone(),
        restake_commission: c.restake_commission,
        transfer_commission: c.transfer_commission,
        denom: c.denom.clone(),
        unbonding_period: c.unbonding_period,
        min_unbonding_cooldown: c.min_unbonding_cooldown,
    }
}

/// The index of the first entry whose key is `key`, or -1 when no entry has
/// that key.
pub open spec fn find_index<V>(entries: Seq<(String, V)>, key: Seq<char>) -> int
    decreases entries.len(),
{
    if entries.len() == 0 {
        -1
    } else if entries[0].0@ == key {
        0
    } else {
        let rest = find_index(entries.drop_first(), key);
        if rest == -1 {
            -1
        } else {
            rest + 1
        }
    }
}

/// What `find_index` finds: a match at the returned index with no earlier
/// match, or no match anywhere.
pub proof fn lemma_find_index_spec<V>(entries: Seq<(String, V)>, key: Seq<char>)
    ensures
        -1 <= find_index(entries, key) < entries.len(),
        find_index(entries, key) == -1 ==> forall|j: int|
            0 <= j < entries.len() ==> (#[trigger] entries[j]).0@ != key,
        find_index(entries, key) >= 0 ==> {
            &&& find_index(entries, key) < entries.len()
            &&& entries[find_index(entries, key)].0@ == key
            &&& forall|j: int|
                0 <= j < find_index(entries, key) ==> (#[trigger] entries[j]).0@ != key
        },
    decreases entries.len(),
{
    if entries.len() > 0 && entries[0].0@ != key {
        let rest = entries.drop_first();
        lemma_find_index_spec(rest, key);
        let r = find_index(rest, key);
        if r == -1 {
            assert forall|j: int| 0 <= j < entries.len() implies (#[trigger] entries[j]).0@
                != key by {
                if j >= 1 {
                    assert(entries[j] == rest[j - 1]);
                }
            }
        } else {
            assert(0 <= r < rest.len());
            assert(entries[r + 1] == rest[r]);
            assert forall|j: int| 0 <= j < r + 1 implies (#[trigger] entries[j]).0@ != key by {
                if j >= 1 {
                    assert(entries[j] == rest[j - 1]);
                }
            }
        }
    }
}

/// Linear search for a key in an association list.
pub fn find_entry<V>(entries: &Vec<(String, V)>, key: &String) -> (r: Option<usize>)
    ensures
        match r {
            Some(i) => i < entries.len() && i == find_index(entries@, key@),
            None => find_index(entries@, key@) == -1,
        },
{
    let n: usize = entries.len();
    let mut i: usize = 0;
    while i < n
        invariant
            i <= n,
            n == entries.len(),
            forall|j: int| 0 <= j < i ==> (#[trigger] entries@[j]).0@ != key@,
        decreases n - i,
    {
        if entries[i].0 == *key {
            proof {
                lemma_find_index_spec(entries@, key@);
            }
            return Some(i);
        }
        i = i + 1;
    }
    proof {
        lemma_find_index_spec(entries@, key@);
    }
    None
}

/// No two entries share a key.
pub open spec fn keys_unique<V>(entries: Seq<(String, V)>) -> bool {
    forall|i: int, j: int|
        0 <= i < j < entries.len() ==> (#[trigger] entries[i]).0@ != (#[trigger] entries[j]).0@
}

/// Appending an entry under a key the store does not hold keeps the keys
/// unique.
pub proof fn lemma_keys_unique_push<V>(m: Seq<(String, V)>, entry: (String, V))
    requires
        keys_unique(m),
        find_index(m, entry.0@) == -1,
    ensures
        keys_unique(m.push(entry)),
{
    lemma_find_index_spec(m, entry.0@);
    let p = m.push(entry);
    assert forall|i: int, j: int| 0 <= i < j < p.len() implies (#[trigger] p[i]).0@ != (
    #[trigger] p[j]).0@ by {
        if j < m.len() {
            assert(p[i] == m[i] && p[j] == m[j]);
        } else {
            assert(p[i] == m[i] && p[j] == entry);
        }
    }
}

/// Replacing an entry's value, key kept, keeps the keys unique.
pub proof fn lemma_keys_unique_update<V>(m: Seq<(String, V)>, i: int, entry: (String, V))
    requires
        keys_unique(m),
        0 <= i < m.len(),
        entry.0@ == m[i].0@,
    ensures
        keys_unique(m.update(i, entry)),
{
    let p = m.update(i, entry);
    assert forall|a: int, b: int| 0 <= a < b < p.len() implies (#[trigger] p[a]).0@ != (
    #[trigger] p[b]).0@ by {
        assert(m[a].0@ != m[b].0@);
    }
}

/// The ledger after crediting `amount` to `addr`: the existing entry's total
/// grows by the amount; a depositor without an entry gets a fresh one whose
/// total is the amount, first seen at height `h`.
pub open spec fn credited_ledger(
    ledger: Seq<(String, StakeDetailsV)>,
    addr: String,
    amount: u128,
    denom: String,
    h: u64,
) -> Seq<(String, StakeDetailsV)> {
    let i = find_index(ledger, addr@);
    if i == -1 {
        ledger.push(
            (
                addr,
                StakeDetailsV {
                    total: Coin { denom, amount },
                    partials: Seq::empty(),
                    earnings: 0,
                    start_height: h,
                },
            ),
        )
    } else {
        ledger.update(
            i,
            (
                ledger[i].0,
                StakeDetailsV {
                    total: Coin {
                        denom: ledger[i].1.total.denom,
                        amount: (ledger[i].1.total.amount + amount) as u128,
                    },
                    partials: ledger[i].1.partials,
                    earnings: ledger[i].1.earnings,
                    start_height: ledger[i].1.start_height,
                },
            ),
        )
    }
}

/// Whether crediting fits: an existing total must not overflow.
pub open spec fn credited_ok(
    ledger: Seq<(String, StakeDetailsV)>,
    addr: Seq<char>,
    amount: u128,
) -> bool {
    find_index(ledger, addr) >= 0 ==> ledger[find_index(ledger, addr)].1.total.amount + amount
        <= u128::MAX
}

/// The ledger after debiting `amount` from `addr`'s vested total.  A
/// depositor without an entry gets a fresh zeroed one (which only a
/// zero-amount debit allows).
pub open spec fn debited_ledger(
    ledger: Seq<(String, StakeDetailsV)>,
    addr: String,
    amount: u128,
    denom: String,
    h: u64,
) -> Seq<(String, StakeDetailsV)> {
    let i = find_index(ledger, addr@);
    if i == -1 {
        ledger.push(
            (
                addr,
                StakeDetailsV {
                    total: Coin { denom, amount: 0 },
                    partials: Seq::empty(),
                    earnings: 0,
                    start_height: h,
                },
            ),
        )
    } else {
        ledger.update(
            i,
            (
                ledger[i].0,
                StakeDetailsV {
                    total: Coin {
                        denom: ledger[i].1.total.denom,
                        amount: (ledger[i].1.total.amount - amount) as u128,
                    },
                    partials: ledger[i].1.partials,
                    earnings: ledger[i].1.earnings,
                    start_height: ledger[i].1.start_height,
                },
            ),
        )
    }
}

/// Whether debiting fits: the vested total must cover the amount, and a
/// missing entry covers only zero.
pub open spec fn debited_ok(
    ledger: Seq<(String, StakeDetailsV)>,
    addr: Seq<char>,
    amount: u128,
) -> bool {
    if find_index(ledger, addr) == -1 {
        amount == 0
    } else {
        amount <= ledger[find_index(ledger, addr)].1.total.amount
    }
}

/// Credits `amount` to `addr`'s vested total, creating the entry when
/// absent.  Fails only when the new total would not fit.
pub fn credit_stake(
    details: &mut Vec<(String, StakeDetails)>,
    addr: &String,
    amount: u128,
    denom: &String,
    start_height: u64,
) -> (r: Result<(), ContractError>)
    ensures
        r is Ok <==> credited_ok(view_entries(old(details)@), addr@, amount),
        r is Ok ==> view_entries(final(details)@) == credited_ledger(
            view_entries(old(details)@),
            *addr,
            amount,
            *denom,
            start_height,
        ),
        r is Err ==> *final(details) == *old(details) && r == Err::<(), ContractError>(
            ContractError::Overflow {},
        ),
{
    proof {
        lemma_find_index_view_entries(details@, addr@);
    }
    match find_entry(details, addr) {
        None => {
            let entry = StakeDetails {
                total: Coin { denom: denom.clone(), amount },
                partials: Vec::new(),
                earnings: 0,
                start_height,
            };
            details.push((addr.clone(), entry));
            proof {
                assert(view_entries(details@) =~= credited_ledger(
                    view_entries(old(details)@),
                    *addr,
                    amount,
                    *denom,
                    start_height,
                ));
            }
            Ok(())
        },
        Some(i) => {
            let cur = details[i].1.total.amount;
            match cur.checked_add(amount) {
                Some(t) => {
                    let mut new_details = clone_stake_details(&details[i].1);
                    new_details.total.amount = t;
                    let key = details[i].0.clone();
                    details.set(i, (key, new_details));
                    proof {
                        assert(view_entries(details@) =~= credited_ledger(
                            view_entries(old(details)@),
                            *addr,
                            amount,
                            *denom,
                            start_height,
                        ));
                    }
                    Ok(())
                },
                None => Err(ContractError::Overflow {}),
            }
        },
    }
}

/// Debits `amount` from `addr`'s vested total, creating a zeroed entry when
/// absent.  Fails when the vested total does not cover the amount.
pub fn debit_stake(
    details: &mut Vec<(String, StakeDetails)>,
    addr: &String,
    amount: u128,
    denom: &String,
    start_height: u64,
) -> (r: Result<(), ContractError>)
    ensures
        r is Ok <==> debited_ok(view_entries(old(details)@), addr@, amount),
        r is Ok ==> view_entries(final(details)@) == debited_ledger(
            view_entries(old(details)@),
            *addr,
            amount,
            *denom,
            start_height,
        ),
        r is Err ==> *final(details) == *old(details) && r == Err::<(), ContractError>(
            ContractError::Overflow {},
        ),
{
    proof {
        lemma_find_index_view_entries(details@, addr@);
    }
    match find_entry(details, addr) {
        None => {
            if amount != 0 {
                return Err(ContractError::Overflow {});
            }
            let entry = StakeDetails {
                total: Coin { denom: denom.clone(), amount: 0 },
                partials: Vec::new(),
                earnings: 0,
                start_height,
            };
            details.push((addr.clone(), entry));
            proof {
                assert(view_entries(details@) =~= debited_ledger(
                    view_entries(old(details)@),
                    *addr,
                    amount,
                    *denom,
                    start_height,
                ));
            }
            Ok(())
        },
        Some(i) => {
            let cur = details[i].1.total.amount;
            match cur.checked_sub(amount) {
                Some(t) => {
                    let mut new_details = clone_stake_details(&details[i].1);
                    new_details.total.amount = t;
                    let key = details[i].0.clone();
                    details.set(i, (key, new_details));
                    proof {
                        assert(view_entries(details@) =~= debited_ledger(
                            view_entries(old(details)@),
                            *addr,
                            amount,
                            *denom,
                            start_height,
                        ));
                    }
                    Ok(())
                },
                None => Err(ContractError::Overflow {}),
            }
        },
    }
}

/// A copy of the ledger with the same mathematical value.
pub fn clone_ledger(details: &Vec<(String, StakeDetails)>) -> (r: Vec<(String, StakeDetails)>)
    ensures
        view_entries(r@) == view_entries(details@),
{
    let mut out: Vec<(String, StakeDetails)> = Vec::new();
    let n: usize = details.len();
    let mut i: usize = 0;
    while i < n
        invariant
            i <= n,
            n == details.len(),
            view_entries(out@) =~= view_entries(details@).take(i as int),
        decreases n - i,
    {
        let ghost out_pre = out@;
        out.push((details[i].0.clone(), clone_stake_details(&details[i].1)));
        proof {
            assert(view_entries(out_pre).len() == out_pre.len());
            assert(out_pre.len() == i as int);
            assert(out@ == out_pre.push((details@[i as int].0, out@.last().1)));
            assert(out@.len() == i + 1);
            assert forall|j: int| 0 <= j < out@.len() implies view_entries(out@)[j]
                == view_entries(details@).take(i + 1)[j] by {
                assert(view_entries(out@)[j] == (out@[j].0, out@[j].1@));
                assert(view_entries(details@)[j] == (details@[j].0, details@[j].1@));
                if j < i as int {
                    assert(out@[j] == out_pre[j]);
                    assert(view_entries(out_pre)[j] == (out_pre[j].0, out_pre[j].1@));
                    assert(view_entries(out_pre)[j] == view_entries(details@).take(i as int)[j]);
                }
            }
            assert(view_entries(out@) =~= view_entries(details@).take(i + 1));
        }
        i = i + 1;
    }
    proof {
        assert(view_entries(details@).take(n as int) =~= view_entries(details@));
    }
    out
}

/// The pending-claim store after queueing `amount` more for `addr`.
pub open spec fn pending_upserted(
    pending: Seq<(String, u128)>,
    addr: String,
    amount: u128,
) -> Seq<(String, u128)> {
    let i = find_index(pending, addr@);
    if i == -1 {
        pending.push((addr, amount))
    } else {
        pending.update(i, (pending[i].0, (pending[i].1 + amount) as u128))
    }
}

/// Whether queueing fits: an existing pending amount must not overflow.
pub open spec fn pending_upsert_ok(
    pending: Seq<(String, u128)>,
    addr: Seq<char>,
    amount: u128,
) -> bool {
    find_index(pending, addr) >= 0 ==> pending[find_index(pending, addr)].1 + amount <= u128::MAX
}

/// Adds `amount` to `addr`'s pending claim, creating it when absent.
pub fn upsert_pending(pending: &mut Vec<(String, u128)>, addr: &String, amount: u128) -> (r: Result<
    (),
    ContractError,
>)
    ensures
        r is Ok <==> pending_upsert_ok(old(pending)@, addr@, amount),
        r is Ok ==> final(pending)@ == pending_upserted(old(pending)@, *addr, amount),
        r is Err ==> *final(pending) == *old(pending) && r == Err::<(), ContractError>(
            ContractError::Overflow {},
        ),
{
    match find_entry(pending, addr) {
        None => {
            pending.push((addr.clone(), amount));
            proof {
                assert(pending@ =~= pending_upserted(old(pending)@, *addr, amount));
            }
            Ok(())
        },
        Some(i) => {
            match pending[i].1.checked_add(amount) {
                Some(t) => {
                    let key = pending[i].0.clone();
                    pending.set(i, (key, t));
                    proof {
                        assert(pending@ =~= pending_upserted(old(pending)@, *addr, amount));
                    }
                    Ok(())
                },
                None => Err(ContractError::Overflow {}),
            }
        },
    }
}

/// The claim store after appending one claim to `addr`'s list, creating the
/// list when absent.
pub open spec fn claim_pushed(
    store: Seq<(String, Seq<ClaimDetails>)>,
    addr: String,
    claim: ClaimDetails,
) -> Seq<(String, Seq<ClaimDetails>)> {
    let i = find_index(store, addr@);
    if i == -1 {
        store.push((addr, seq![claim]))
    } else {
        store.update(i, (store[i].0, store[i].1.push(claim)))
    }
}

/// Appends one unbonding claim to `addr`'s list, creating it when absent.
pub fn push_claim_for(
    store: &mut Vec<(String, Vec<ClaimDetails>)>,
    addr: &String,
    claim: ClaimDetails,
)
    ensures
        view_entries(final(store)@) == claim_pushed(view_entries(old(store)@), *addr, claim),
{
    proof {
        lemma_find_index_view_entries(store@, addr@);
    }
    let ghost gc = claim;
    match find_entry(store, addr) {
        None => {
            let mut list: Vec<ClaimDetails> = Vec::new();
            list.push(claim);
            store.push((addr.clone(), list));
            proof {
                assert(view_entries(store@) =~= claim_pushed(
                    view_entries(old(store)@),
                    *addr,
                    gc,
                ));
            }
        },
        Some(i) => {
            let mut list = clone_claims(&store[i].1);
            list.push(claim);
            let key = store[i].0.clone();
            store.set(i, (key, list));
            proof {
                assert(view_entries(store@) =~= claim_pushed(
                    view_entries(old(store)@),
                    *addr,
                    gc,
                ));
            }
        },
    }
}

/// The sum of the weights in a validator table, in atomic units.
pub open spec fn weights_sum(entries: Seq<(String, Fraction)>) -> int
    decreases entries.len(),
{
    if entries.len() == 0 {
        0
    } else {
        weights_sum(entries.drop_last()) + entries.last().1.atomics as int
    }
}

pub proof fn lemma_weights_sum_nonneg(entries: Seq<(String, Fraction)>)
    ensures
        0 <= weights_sum(entries),
    decreases entries.len(),
{
    if entries.len() > 0 {
        lemma_weights_sum_nonneg(entries.drop_last());
    }
}

/// A prefix of the table never weighs more than the whole of it.
pub proof fn lemma_weights_sum_take_le(entries: Seq<(String, Fraction)>, i: int)
    requires
        0 <= i <= entries.len(),
    ensures
        weights_sum(entries.take(i)) <= weights_sum(entries),
    decreases entries.len(),
{
    if i == entries.len() {
        assert(entries.take(i) =~= entries);
    } else {
        assert(entries.drop_last().take(i) =~= entries.take(i));
        lemma_weights_sum_take_le(entries.drop_last(), i);
    }
}

/// An exact copy of a validator weight table.
pub fn clone_table(table: &Vec<(String, Fraction)>) -> (r: Vec<(String, Fraction)>)
    ensures
        r@ == table@,
{
    let mut out: Vec<(String, Fraction)> = Vec::new();
    let n: usize = table.len();
    let mut i: usize = 0;
    while i < n
        invariant
            i <= n,
            n == table.len(),
            out@ =~= table@.take(i as int),
        decreases n - i,
    {
        out.push((table[i].0.clone(), table[i].1));
        i = i + 1;
    }
    proof {
        assert(table@.take(n as int) =~= table@);
    }
    out
}

/// In a table whose weights sum to 1, every weight is a genuine fraction.
pub proof fn lemma_table_entries_bounded(entries: Seq<(String, Fraction)>)
    requires
        weights_sum(entries) == FRACTION_UNIT,
    ensures
        forall|i: int|
            0 <= i < entries.len() ==> (#[trigger] entries[i]).1.atomics <= FRACTION_UNIT,
{
    assert forall|i: int| 0 <= i < entries.len() implies (#[trigger] entries[i]).1.atomics
        <= FRACTION_UNIT by {
        lemma_weight_le_sum(entries, i);
    }
}

/// Every single weight is bounded by the sum of all of them.
pub proof fn lemma_weight_le_sum(entries: Seq<(String, Fraction)>, i: int)
    requires
        0 <= i < entries.len(),
    ensures
        entries[i].1.atomics as int <= weights_sum(entries),
    decreases entries.len(),
{
    lemma_weights_sum_nonneg(entries.drop_last());
    if i < entries.len() - 1 {
        lemma_weight_le_sum(entries.drop_last(), i);
        assert(entries.drop_last()[i] == entries[i]);
        assert(weights_sum(entries) >= weights_sum(entries.drop_last()));
    }
}

/// The whole engine state: one consistent snapshot, passed explicitly into
/// every operation.
#[derive(Clone, Debug, PartialEq, Eq)]
pub struct State {
    pub config: Config,
    /// Running total of all depositors' staked and earned amount.
    pub total: Coin,
    /// Height of the most recent reward payment (restake).
    pub last_payment_block: u64,
    /// Per-depositor ledger.
    pub stake_details: Vec<(String, StakeDetails)>,
    /// Time (seconds) of the most recent batch release.
    pub latest_unbonding: u64,
    /// Per-depositor amount queued for the next batch release.
    pub pending_claims: Vec<(String, u128)>,
    /// Per-depositor unbonding claims.
    pub unbonding_claims: Vec<(String, Vec<ClaimDetails>)>,
    /// Validator weight table; the weights sum to exactly 1.
    pub validator_list: Vec<(String, Fraction)>,
    /// Addresses allowed to receive a commission split, with the time
    /// (seconds) their allowance expires.
    pub allowed_addresses: Vec<(String, u64)>,
}

/// The mathematical value of the whole engine state.
#[verifier::ext_equal]
pub ghost struct StateV {
    pub config: Config,
    pub total: Coin,
    pub last_payment_block: u64,
    pub stake_details: Seq<(String, StakeDetailsV)>,
    pub latest_unbonding: u64,
    pub pending_claims: Seq<(String, u128)>,
    pub unbonding_claims: Seq<(String, Seq<ClaimDetails>)>,
    pub validator_list: Seq<(String, Fraction)>,
    pub allowed_addresses: Seq<(String, u64)>,
}

impl View for State {
    type V = StateV;

    open spec fn view(&self) -> StateV {
        StateV {
            config: self.config,
            total: self.total,
            last_payment_block: self.last_payment_block,
            stake_details: view_entries(self.stake_details@),
            latest_unbonding: self.latest_unbonding,
            pending_claims: self.pending_claims@,
            unbonding_claims: view_entries(self.unbonding_claims@),
            validator_list: self.validator_list@,
            allowed_addresses: self.allowed_addresses@,
        }
    }
}

impl StateV {
    /// The invariant every operation preserves: commissions are fractions in
    /// [0, 1], validator weights sum to exactly 1, and each keyed store holds
    /// at most one entry per key.
    pub open spec fn well_formed(self) -> bool {
        &&& self.config.well_formed()
        &&& weights_sum(self.validator_list) == FRACTION_UNIT
        &&& keys_unique(self.validator_list)
        &&& keys_unique(self.stake_details)
        &&& keys_unique(self.pending_claims)
        &&& keys_unique(self.unbonding_claims)
        &&& keys_unique(self.allowed_addresses)
    }
}

impl State {
    /// The state's mathematical value satisfies the engine invariant.
    pub open spec fn well_formed(self) -> bool {
        self@.well_formed()
    }
}

} // verus!
