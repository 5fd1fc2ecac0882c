//! Liquidation of an under-collateralised borrower.
use crate::earnings::{credit_of, credited, lemma_no_share, share_fits, share_of};
use crate::ledger::Balance;
use crate::math::{token_value, value_of, RATIO_ONE};
use crate::ops::{same_but_pool, saturating_sub, settled, with_totals};
use crate::risk::{lemma_total_monotone, sum_value, Weight};
use crate::types::{account_wf, asset_wf, LendError, LendingContract};
use vstd::arithmetic::div_mod::{lemma_div_is_ordered, lemma_div_multiples_vanish};
use vstd::prelude::*;

verus! {

/// What a liquidation moves: the debt paid off, in units of the repaid
/// asset, and the collateral handed to the liquidator, in its own units.
#[derive(Clone, Copy, Debug, PartialEq, Eq, Structural)]
pub struct Liquidation {
    pub repaid: u64,
    pub seized: u64,
}

/// The payment, in units of the owed asset, that would take all of one
/// collateral: the debt scaled by that collateral's share of all collateral.
pub open spec fn max_repay(borrowed: int, collateral_value: int, total_collateral: int) -> int {
    (borrowed * collateral_value) / total_collateral
}

/// Collateral seized for a payment of `repaid` out of `max` that would take
/// all `held`: the same share of `held`, times the reward multiplier, and
/// never more than `held`.
pub open spec fn seized_amount(held: int, repaid: int, max: int, multiplier: int) -> int {
    let s = ((held * repaid) / max * multiplier) / (RATIO_ONE as int);
    if s > held {
        held
    } else {
        s
    }
}

/// The amounts of a liquidation: the payment clamped to `max_repay`, and the
/// collateral it seizes. `None` where the collateral is worth nothing or the
/// product `borrowed * collateral_value` does not fit in a `u128`.
pub open spec fn liquidation_amounts(
    borrowed: int,
    held: int,
    collateral_value: int,
    total_collateral: int,
    requested: int,
    multiplier: int,
) -> Option<Liquidation> {
    let max = max_repay(borrowed, collateral_value, total_collateral);
    if borrowed * collateral_value > u128::MAX {
        None
    } else if total_collateral == 0 || max == 0 {
        None
    } else {
        let repaid = if requested > max {
            max
        } else {
            requested
        };
        Some(Liquidation { repaid: repaid as u64, seized: seized_amount(held, repaid, max, multiplier) as u64 })
    }
}

pub fn cal_liquidation(
    borrowed: u64,
    held: u64,
    collateral_value: u128,
    total_collateral: u128,
    requested: u64,
    multiplier: u64,
) -> (r: Option<Liquidation>)
    requires
        collateral_value <= total_collateral,
        multiplier <= 3 * RATIO_ONE,
    ensures
        r == liquidation_amounts(
            borrowed as int,
            held as int,
            collateral_value as int,
            total_collateral as int,
            requested as int,
            multiplier as int,
        ),
        r matches Some(l) ==> l.repaid <= requested && l.repaid <= borrowed && l.seized <= held,
{
    let product = match (borrowed as u128).checked_mul(collateral_value) {
        Some(p) => p,
        None => {
            return None;
        },
    };
    if total_collateral == 0 {
        return None;
    }
    proof {
        assert((borrowed as int) * (collateral_value as int) <= (borrowed as int) * (total_collateral as int)) by (nonlinear_arith)
            requires collateral_value <= total_collateral, borrowed >= 0;
        assert((borrowed as int) * (total_collateral as int) == (total_collateral as int) * (borrowed as int)) by (nonlinear_arith);
        lemma_div_is_ordered((borrowed as int) * (collateral_value as int), (borrowed as int) * (total_collateral as int), total_collateral as int);
        lemma_div_multiples_vanish(borrowed as int, total_collateral as int);
    }
    let max: u128 = product / total_collateral;
    if max == 0 {
        return None;
    }
    let repaid: u64 = if (requested as u128) > max {
        max as u64
    } else {
        requested
    };
    proof {
        assert((held as int) * (repaid as int) <= (held as int) * (max as int)) by (nonlinear_arith)
            requires repaid <= max, held >= 0;
        assert((held as int) * (max as int) == (max as int) * (held as int)) by (nonlinear_arith);
        lemma_div_is_ordered((held as int) * (repaid as int), (held as int) * (max as int), max as int);
        lemma_div_multiples_vanish(held as int, max as int);
        assert((held as int) * (repaid as int) <= (u64::MAX as int) * (u64::MAX as int)) by (nonlinear_arith)
            requires held <= u64::MAX, repaid <= u64::MAX;
        assert(0 <= (held as int) * (repaid as int)) by (nonlinear_arith)
            requires held >= 0, repaid >= 0;
        lemma_div_is_ordered(0, (held as int) * (repaid as int), max as int);
    }
    let share: u128 = (held as u128) * (repaid as u128) / max;
    proof {
        assert(share * multiplier <= (u64::MAX as int) * (3 * RATIO_ONE)) by (nonlinear_arith)
            requires share <= u64::MAX, multiplier <= 3 * RATIO_ONE;
    }
    let s: u128 = share * (multiplier as u128) / (RATIO_ONE as u128);
    let seized: u64 = if s > held as u128 {
        held
    } else {
        s as u64
    };
    Some(Liquidation { repaid, seized })
}

impl LendingContract {
    /// Reward multiplier for seizing collateral `c`: its collateral factor
    /// plus the liquidation threshold plus the liquidator's bonus.
    pub open spec fn reward_multiplier(&self, c: int) -> int {
        self.assets[c].collateral_factor + self.liquidation_threshold + self.liquidate_earnings
    }

    pub open spec fn liquidation_check(
        &self,
        liquidator: Seq<u8>,
        id: Seq<u8>,
        r: int,
        c: int,
        amount: int,
        prices: Seq<u64>,
    ) -> Result<Liquidation, LendError> {
        let wc = self.weighted_collateral(id, prices);
        let debt = self.debt_value(id, prices);
        let cv = self.collateral_value(id, prices);
        if id == liquidator {
            Err(LendError::SelfLiquidation)
        } else if !self.has_user(id) {
            Err(LendError::UnknownUser)
        } else if r >= self.assets.len() || c >= self.assets.len() {
            Err(LendError::UnknownAsset)
        } else if !self.has_pool(r) {
            Err(LendError::UnknownPool)
        } else if amount == 0 {
            Err(LendError::ZeroAmount)
        } else if self.borrowed(id, r) == 0 {
            Err(LendError::NoDebt)
        } else if self.supplied(id, c) == 0 {
            Err(LendError::NoSupply)
        } else if !self.prices_ok(prices) {
            Err(LendError::MissingPrice)
        } else if wc > u128::MAX || debt > u128::MAX || cv > u128::MAX {
            Err(LendError::Overflow)
        } else if debt <= wc {
            Err(LendError::NotLiquidatable)
        } else if amount > self.borrowed(id, r) {
            Err(LendError::RepayExceedsDebt)
        } else {
            match liquidation_amounts(
                self.borrowed(id, r),
                self.supplied(id, c),
                value_of(self.supplied(id, c), prices[c] as int, self.assets[c].decimals as nat),
                cv,
                amount,
                self.reward_multiplier(c),
            ) {
                Some(l) => {
                    let realised = settled(l.repaid as int, self.interest_owed(id, r));
                    if !self.earnings_fit(r, realised) {
                        Err(LendError::Overflow)
                    } else if settle_moved(*self, id, r, l.repaid as int, realised, Balance::Supplied, liquidator, c) + l.seized
                        > u64::MAX {
                        Err(LendError::Overflow)
                    } else {
                        Ok(l)
                    }
                },
                None => if self.borrowed(id, r) * value_of(self.supplied(id, c), prices[c] as int, self.assets[c].decimals as nat) > u128::MAX {
                    Err(LendError::Overflow)
                } else {
                    Err(LendError::NothingToSeize)
                },
            }
        }
    }

    /// Whether `liquidate1` would go ahead now, and with which amounts.
    pub fn validate_liquidation(
        &self,
        liquidator: &Vec<u8>,
        user: &Vec<u8>,
        repay_token: usize,
        target_collateral: usize,
        repay_amount: u64,
        prices: &Vec<u64>,
    ) -> (r: Result<Liquidation, LendError>)
        requires
            self.wf(),
        ensures
            r == self.liquidation_check(liquidator@, user@, repay_token as int, target_collateral as int, repay_amount as int, prices@),
            r matches Ok(l) ==> l.repaid <= repay_amount && l.repaid <= self.borrowed(user@, repay_token as int)
                && l.seized <= self.supplied(user@, target_collateral as int),
    {
        if crate::types::same_bytes(liquidator, user) {
            return Err(LendError::SelfLiquidation);
        }
        let u = match self.find_user(user) {
            Some(u) => u,
            None => {
                return Err(LendError::UnknownUser);
            },
        };
        if repay_token >= self.assets.len() || target_collateral >= self.assets.len() {
            return Err(LendError::UnknownAsset);
        }
        if self.pool[repay_token].is_none() {
            return Err(LendError::UnknownPool);
        }
        if repay_amount == 0 {
            return Err(LendError::ZeroAmount);
        }
        proof {
            assert(account_wf(self.users[u as int], self.assets.len() as nat));
            assert(asset_wf(self.assets[target_collateral as int]));
            self.lemma_account_totals_nonneg(user@, prices@);
        }
        let borrowed = self.users[u].borrows[repay_token];
        let held = self.users[u].supplies[target_collateral];
        if borrowed == 0 {
            return Err(LendError::NoDebt);
        }
        if held == 0 {
            return Err(LendError::NoSupply);
        }
        if prices.len() != self.assets.len() {
            return Err(LendError::MissingPrice);
        }
        let wc = sum_value(&self.users[u].supplies, &self.assets, prices, Weight::FactorPlus(self.liquidation_threshold));
        let debt = sum_value(&self.users[u].borrows, &self.assets, prices, Weight::Plain);
        let cv = sum_value(&self.users[u].supplies, &self.assets, prices, Weight::Plain);
        let (wc, debt, cv) = match (wc, debt, cv) {
            (Some(w), Some(d), Some(v)) => (w, d, v),
            _ => {
                return Err(LendError::Overflow);
            },
        };
        if debt <= wc {
            return Err(LendError::NotLiquidatable);
        }
        if repay_amount > borrowed {
            return Err(LendError::RepayExceedsDebt);
        }
        let c = &self.assets[target_collateral];
        let cv_c = token_value(held, prices[target_collateral], c.decimals);
        proof {
            let amounts = self.users[u as int].supplies@;
            let t = target_collateral as int;
            lemma_total_monotone(amounts, self.assets@, prices@, Weight::Plain, t as nat, t as nat);
            lemma_total_monotone(amounts, self.assets@, prices@, Weight::Plain, (t + 1) as nat, self.assets.len() as nat);
            assert(cv_c <= cv);
        }
        let multiplier: u64 = c.collateral_factor + self.liquidation_threshold + self.liquidate_earnings;
        match cal_liquidation(borrowed, held, cv_c, cv, repay_amount, multiplier) {
            Some(l) => {
                let owed_interest = self.users[u].interest[repay_token];
                let realised: u64 = if l.repaid >= owed_interest {
                    owed_interest
                } else {
                    l.repaid
                };
                if !self.earnings_fit_exec(repay_token, realised) {
                    return Err(LendError::Overflow);
                }
                let (x, known): (u64, bool) = match self.find_user(liquidator) {
                    Some(v) => {
                        proof {
                            assert(account_wf(self.users[v as int], self.assets.len() as nat));
                        }
                        (self.users[v].supplies[target_collateral], true)
                    },
                    None => (0, false),
                };
                let after: u64 = if target_collateral == repay_token {
                    let reward = self.scaled_reward_exec(repay_token, realised);
                    let total = self.cal_token_amount(repay_token);
                    if reward == 0 || total == 0 {
                        proof {
                            lemma_no_share(x as int, reward as int, total as int);
                        }
                        x
                    } else {
                        proof {
                            if known {
                                let v = self.user_index(liquidator@);
                                assert(share_fits(reward as int, self.users[v].supplies[repay_token as int] as int, total as int));
                            } else {
                                assert(reward * 0 == 0) by (nonlinear_arith);
                                assert(share_of(reward as int, 0, total as int) == 0);
                            }
                        }
                        credit_of(reward, x, total)
                    }
                } else {
                    x
                };
                if after > u64::MAX - l.seized {
                    Err(LendError::Overflow)
                } else {
                    Ok(l)
                }
            },
            None => {
                if (borrowed as u128).checked_mul(cv_c).is_none() {
                    Err(LendError::Overflow)
                } else {
                    Err(LendError::NothingToSeize)
                }
            },
        }
    }

    /// Liquidate part of `user`'s position: `caller` pays `repay_amount` of
    /// asset `repay_token` (clamped to what takes all of the named
    /// collateral) into the pool, which settles `user`'s interest and debt as
    /// a repayment does; the seized collateral moves from `user`'s supply to
    /// the liquidator's. Allowed only while `user`'s health factor is below 1,
    /// and refused with `Overflow` where the liquidator's credit or an
    /// earnings share would not fit. A borrower cannot liquidate itself: its
    /// seized collateral would come straight back, so such a call is a
    /// repayment, which `repay` already offers.
    pub fn liquidate1(
        &mut self,
        caller: &Vec<u8>,
        user: &Vec<u8>,
        repay_token: usize,
        target_collateral: usize,
        repay_amount: u64,
        prices: &Vec<u64>,
    ) -> (r: Result<Liquidation, LendError>)
        requires
            old(self).wf(),
        ensures
            final(self).wf(),
            r == old(self).liquidation_check(caller@, user@, repay_token as int, target_collateral as int, repay_amount as int, prices@),
            r is Err ==> *final(self) == *old(self),
            r matches Ok(l) ==> old(self).liquidatable(user@, prices@)
                && liquidation_effect(*old(self), *final(self), caller@, user@, repay_token as int, target_collateral as int, l),
    {
        let l = match self.validate_liquidation(caller, user, repay_token, target_collateral, repay_amount, prices) {
            Ok(l) => l,
            Err(e) => {
                return Err(e);
            },
        };
        let u = match self.find_user(user) {
            Some(u) => u,
            None => {
                return Err(LendError::UnknownUser);
            },
        };
        let ghost s0 = *self;
        proof {
            assert(account_wf(self.users[u as int], self.assets.len() as nat));
        }
        let owed = self.users[u].borrows[repay_token];
        let owed_interest = self.users[u].interest[repay_token];
        let realised: u64 = if l.repaid >= owed_interest {
            owed_interest
        } else {
            l.repaid
        };
        self.settle_debt(u, repay_token, l.repaid, realised, owed, owed_interest);
        let ghost s1 = *self;
        proof {
            assert(account_wf(self.users[u as int], self.assets.len() as nat));
            LendingContract::lemma_same_owners(&s0, &s1, user@);
            s0.lemma_scaled_reward_bounds(repay_token as int, realised as int);
            assert(s0.users[u as int].owner@ == user@);
            let hc = s0.balance(Balance::Supplied, user@, target_collateral as int);
            assert(hc == s0.supplied(user@, target_collateral as int));
            assert(0 <= hc <= u64::MAX);
            assert(s1.balance(Balance::Supplied, user@, target_collateral as int) == if target_collateral != repay_token {
                hc
            } else {
                credited(hc, s0.scaled_reward(repay_token as int, realised as int), s0.total_supplied(repay_token as int))
            });
            crate::earnings::lemma_credited_grows(
                s0.balance(Balance::Supplied, user@, target_collateral as int),
                s0.scaled_reward(repay_token as int, realised as int),
                s0.total_supplied(repay_token as int),
            );
            assert(s1.balance(Balance::Supplied, user@, target_collateral as int) >= l.seized);
        }
        let held = self.users[u].supplies[target_collateral];
        self.set_balance(u, Balance::Supplied, target_collateral, held - l.seized);
        let ghost s2 = *self;
        let v = self.ensure_user(caller);
        let ghost s3 = *self;
        proof {
            assert(account_wf(self.users[v as int], self.assets.len() as nat));
        }
        let got = self.users[v].supplies[target_collateral];
        proof {
            assert(s3.balance(Balance::Supplied, caller@, target_collateral as int) == got);
        }
        proof {
            assert(s1.balance(Balance::Supplied, caller@, target_collateral as int) == got);
        }
        let credit: u64 = got + l.seized;
        self.set_balance(v, Balance::Supplied, target_collateral, credit);
        proof {
            assert(s2.balance(Balance::Supplied, caller@, target_collateral as int) == got);
            assert forall|k: Balance, id: Seq<u8>, b: int| 0 <= b < s0.assets.len() implies
                #[trigger] self.balance(k, id, b) == seize_moved(
                    settle_moved(s0, user@, repay_token as int, l.repaid as int, settled(l.repaid as int, s0.interest_owed(user@, repay_token as int)), k, id, b),
                    caller@, user@, target_collateral as int, l.seized as int, k, id, b,
                ) by {
                let x1 = s1.balance(k, id, b);
                let x2 = s2.balance(k, id, b);
            }
        }
        Ok(l)
    }
}

/// What a successful liquidation `l` by `liquidator` of `borrower` does: the
/// borrower's debt in `r` is settled as by a repayment of `l.repaid`, and
/// `l.seized` of collateral `c` moves from the borrower to the liquidator.
pub open spec fn liquidation_effect(
    s0: LendingContract,
    s1: LendingContract,
    liquidator: Seq<u8>,
    borrower: Seq<u8>,
    r: int,
    c: int,
    l: Liquidation,
) -> bool {
    let realised = settled(l.repaid as int, s0.interest_owed(borrower, r));
    let p = s0.pool_of(r);
    &&& same_but_pool(s0, s1, r)
    &&& s1.has_user(liquidator)
    &&& s1.pool[r] == Some(with_totals(p, p.amount as int, saturating_sub(p.used_amount as int, l.repaid as int)))
    &&& forall|k: Balance, id: Seq<u8>, b: int| 0 <= b < s0.assets.len() ==>
        #[trigger] s1.balance(k, id, b) == seize_moved(
            settle_moved(s0, borrower, r, l.repaid as int, realised, k, id, b),
            liquidator, borrower, c, l.seized as int, k, id, b,
        )
}

/// Balance `k` of `id` in asset `b` after the debt of `borrower` in asset `r`
/// was settled by a payment of `repaid` realising `realised` interest.
pub open spec fn settle_moved(
    s: LendingContract,
    borrower: Seq<u8>,
    r: int,
    repaid: int,
    realised: int,
    k: Balance,
    id: Seq<u8>,
    b: int,
) -> int {
    if b != r {
        s.balance(k, id, b)
    } else if k == Balance::Supplied {
        credited(s.balance(k, id, b), s.scaled_reward(r, realised), s.total_supplied(r))
    } else if id != borrower {
        s.balance(k, id, b)
    } else if k == Balance::Borrowed {
        s.balance(k, id, b) - repaid
    } else {
        s.balance(k, id, b) - realised
    }
}

/// A balance `x` (balance `k` of `id` in asset `b`) after `seized` of asset
/// `c` moved from `borrower`'s supply to `liquidator`'s.
pub open spec fn seize_moved(
    x: int,
    liquidator: Seq<u8>,
    borrower: Seq<u8>,
    c: int,
    seized: int,
    k: Balance,
    id: Seq<u8>,
    b: int,
) -> int {
    if k != Balance::Supplied || b != c {
        x
    } else if id == borrower {
        x - seized
    } else if id == liquidator {
        x + seized
    } else {
        x
    }
}

} // verus!
