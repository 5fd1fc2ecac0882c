//! The user-facing operations: supply, withdraw, borrow, repay, liquidate.
//!
//! Each operation checks and commits in one synchronous step. A host that
//! moves tokens first calls the matching `validate_*` function, performs the
//! transfer, then calls the operation, which checks again against the ledger
//! as it then stands: a transfer that raced with another operation is
//! refused here (and refunded by the host) instead of breaking an invariant.
use crate::ledger::{balance_seq, same_owners, Balance};
use crate::math::{token_value, value_of, RATIO_ONE};
use crate::risk::{lemma_total_monotone, margin_of, max_borrow_value, sum_value, total_value, Weight};
use crate::earnings::credited;
use crate::types::{account_wf, asset_wf, pool_wf, LendError, LendingContract, Pool};
use vstd::prelude::*;

verus! {

/// `s2` is `s1` but for the user balances and the pool of asset `a`.
pub open spec fn same_but_pool(s1: LendingContract, s2: LendingContract, a: int) -> bool {
    &&& s1.admin == s2.admin
    &&& s1.assets == s2.assets
    &&& s1.pool.len() == s2.pool.len()
    &&& forall|b: int| 0 <= b < s1.pool.len() && b != a ==> #[trigger] s2.pool[b] == s1.pool[b]
    &&& s1.liquidate_earnings == s2.liquidate_earnings
    &&& s1.liquidation_threshold == s2.liquidation_threshold
    &&& s1.safety_vault_percentage == s2.safety_vault_percentage
    &&& s1.owner_earnings == s2.owner_earnings
    &&& s1.last_time == s2.last_time
}

/// Interest realised by a payment of `amount` against `owed` interest.
pub open spec fn settled(amount: int, owed: int) -> int {
    if amount >= owed {
        owed
    } else {
        amount
    }
}

pub open spec fn saturating_sub(x: int, y: int) -> int {
    if x >= y {
        x - y
    } else {
        0
    }
}

/// What a successful supply of `amount` of asset `a` by `id` does: the
/// supply of `id` and the pool's total grow by `amount`; nothing else changes.
pub open spec fn supply_effect(s0: LendingContract, s1: LendingContract, id: Seq<u8>, a: int, amount: int) -> bool {
    &&& s0.has_pool(a)
    &&& 0 < amount
    &&& s0.pool_of(a).amount + amount <= s0.pool_of(a).maximum_token
    &&& same_but_pool(s0, s1, a)
    &&& s1.pool[a] == Some(with_totals(s0.pool_of(a), s0.pool_of(a).amount + amount, s0.pool_of(a).used_amount as int))
    &&& s1.has_user(id)
    &&& forall|k: Balance, id2: Seq<u8>, b: int| 0 <= b < s0.assets.len() ==>
        #[trigger] s1.balance(k, id2, b) == s0.balance(k, id2, b) + if k == Balance::Supplied && id2 == id && b == a {
            amount
        } else {
            0
        }
}

/// What a successful withdrawal of `amount` of asset `a` by `id` does: the
/// supply of `id` and the pool's total shrink by `amount`; nothing else changes.
pub open spec fn withdraw_effect(s0: LendingContract, s1: LendingContract, id: Seq<u8>, a: int, amount: int) -> bool {
    &&& same_but_pool(s0, s1, a)
    &&& same_owners(s0, s1)
    &&& s1.pool[a] == Some(with_totals(s0.pool_of(a), s0.pool_of(a).amount - amount, s0.pool_of(a).used_amount as int))
    &&& forall|k: Balance, id2: Seq<u8>, b: int| 0 <= b < s0.assets.len() ==>
        #[trigger] s1.balance(k, id2, b) == s0.balance(k, id2, b) - if k == Balance::Supplied && id2 == id && b == a {
            amount
        } else {
            0
        }
}

/// Value of an asset's supply held back by open debt: the debt's value over
/// the asset's collateral factor.
pub open spec fn withdraw_lock(debt: int, factor: int) -> int {
    if debt == 0 {
        0
    } else {
        (debt * RATIO_ONE) / factor
    }
}

/// The pool `p` keeps its reserve after `amount` leaves it: what stays
/// unlent is at least the share `reserve` of the pool's current supply.
pub open spec fn keeps_reserve(p: Pool, amount: int, reserve: int) -> bool {
    &&& p.amount - p.used_amount >= amount
    &&& (p.amount - p.used_amount - amount) * RATIO_ONE >= reserve * p.amount
}

/// The pool `p` with new totals.
pub open spec fn with_totals(p: Pool, amount: int, used: int) -> Pool {
    Pool { amount: amount as u64, used_amount: used as u64, ..p }
}

impl LendingContract {
    /// Replace the supplied and lent-out totals of the pool of `a`.
    pub(crate) fn set_pool_totals(&mut self, a: usize, amount: u64, used: u64)
        requires
            old(self).wf(),
            old(self).has_pool(a as int),
            used <= amount <= old(self).pool_of(a as int).maximum_token,
        ensures
            final(self).wf(),
            same_but_pool(*old(self), *final(self), a as int),
            final(self).users == old(self).users,
            final(self).pool[a as int] == Some(with_totals(old(self).pool_of(a as int), amount as int, used as int)),
            forall|k: Balance, id: Seq<u8>, b: int| #[trigger] final(self).balance(k, id, b) == old(self).balance(k, id, b),
    {
        let ghost prev = *self;
        let mut slot: Option<Pool> = None;
        std::mem::swap(&mut self.pool[a], &mut slot);
        match slot {
            Some(mut p) => {
                p.amount = amount;
                p.used_amount = used;
                self.pool.set(a, Some(p));
            },
            None => {},
        }
        proof {
            assert(self.pool[a as int] == Some(with_totals(prev.pool_of(a as int), amount as int, used as int)));
            assert forall|b: int| 0 <= b < self.pool.len() && (#[trigger] self.pool[b]).is_some() implies pool_wf(self.pool[b].unwrap(), self.assets.len() as nat) by {
                if b != a {
                    assert(self.pool[b] == prev.pool[b]);
                }
            }
            assert forall|k: Balance, id: Seq<u8>, b: int| #[trigger] self.balance(k, id, b) == prev.balance(k, id, b) by {
                assert(self.users == prev.users);
            }
        }
    }

    pub open spec fn supply_check(&self, id: Seq<u8>, a: int, amount: int) -> Result<(), LendError> {
        if amount == 0 {
            Err(LendError::ZeroAmount)
        } else if !self.has_pool(a) {
            Err(LendError::UnknownPool)
        } else if self.pool_of(a).maximum_token - self.pool_of(a).amount < amount {
            Err(LendError::CapacityExceeded)
        } else if self.supplied(id, a) + amount > u64::MAX {
            Err(LendError::Overflow)
        } else {
            Ok(())
        }
    }

    /// Whether `supply` would accept `amount` of asset `asset` from `caller` now.
    pub fn validate_supply(&self, caller: &Vec<u8>, asset: usize, amount: u64) -> (r: Result<(), LendError>)
        requires
            self.wf(),
        ensures
            r == self.supply_check(caller@, asset as int, amount as int),
    {
        if amount == 0 {
            return Err(LendError::ZeroAmount);
        }
        if asset >= self.pool.len() || self.pool[asset].is_none() {
            return Err(LendError::UnknownPool);
        }
        let (total, cap) = match &self.pool[asset] {
            Some(p) => (p.amount, p.maximum_token),
            None => (0, 0),
        };
        proof {
            assert(pool_wf(self.pool_of(asset as int), self.assets.len() as nat));
        }
        if cap - total < amount {
            return Err(LendError::CapacityExceeded);
        }
        let held: u64 = match self.find_user(caller) {
            Some(u) => {
                proof {
                    assert(crate::types::account_wf(self.users[u as int], self.assets.len() as nat));
                }
                self.users[u].supplies[asset]
            },
            None => 0,
        };
        if held > u64::MAX - amount {
            return Err(LendError::Overflow);
        }
        Ok(())
    }

    /// Credit `amount` of asset `asset`, already moved into the pool, to
    /// `caller`'s supply and to the pool's total.
    pub fn supply(&mut self, caller: &Vec<u8>, asset: usize, amount: u64) -> (r: Result<(), LendError>)
        requires
            old(self).wf(),
        ensures
            final(self).wf(),
            r == old(self).supply_check(caller@, asset as int, amount as int),
            r is Err ==> *final(self) == *old(self),
            r is Ok ==> supply_effect(*old(self), *final(self), caller@, asset as int, amount as int),
    {
        match self.validate_supply(caller, asset, amount) {
            Err(e) => {
                return Err(e);
            },
            Ok(()) => {},
        }
        let ghost s0 = *self;
        let u = self.ensure_user(caller);
        proof {
            assert(crate::types::account_wf(self.users[u as int], self.assets.len() as nat));
            assert(self.balance(Balance::Supplied, caller@, asset as int) == s0.balance(Balance::Supplied, caller@, asset as int));
        }
        let held = self.users[u].supplies[asset];
        self.set_balance(u, Balance::Supplied, asset, held + amount);
        let (total, used) = match &self.pool[asset] {
            Some(p) => (p.amount, p.used_amount),
            None => (0, 0),
        };
        proof {
            assert(pool_wf(self.pool_of(asset as int), self.assets.len() as nat));
        }
        self.set_pool_totals(asset, total + amount, used);
        Ok(())
    }

    /// `id` has supplied some asset that the pool of `a` accepts as collateral.
    pub open spec fn accepts_collateral_of(&self, id: Seq<u8>, a: int) -> bool {
        exists|i: int|
            0 <= i < self.pool_of(a).collateral.len() && #[trigger] self.supplied(id, self.pool_of(a).collateral[i] as int) > 0
    }

    /// The assets that the pool of `asset` accepts as collateral and of which
    /// `caller` holds a positive supply.
    pub fn check_user_collateral(&self, caller: &Vec<u8>, asset: usize) -> (r: Vec<usize>)
        requires
            self.wf(),
            self.has_pool(asset as int),
        ensures
            forall|i: int| 0 <= i < r.len() ==> self.pool_of(asset as int).collateral@.contains(#[trigger] r[i])
                && self.supplied(caller@, r[i] as int) > 0,
            forall|i: int| 0 <= i < self.pool_of(asset as int).collateral.len()
                && #[trigger] self.supplied(caller@, self.pool_of(asset as int).collateral[i] as int) > 0
                ==> r@.contains(self.pool_of(asset as int).collateral[i]),
            r.len() > 0 <==> self.accepts_collateral_of(caller@, asset as int),
            r@ == self.pool_of(asset as int).collateral@.filter(|c: usize| self.supplied(caller@, c as int) > 0),
    {
        let mut r: Vec<usize> = Vec::new();
        let u = match self.find_user(caller) {
            Some(u) => u,
            None => {
                proof {
                    let pred = |c: usize| self.supplied(caller@, c as int) > 0;
                    let f = self.pool_of(asset as int).collateral@.filter(pred);
                    if f.len() > 0 {
                        self.pool_of(asset as int).collateral@.lemma_filter_pred(pred, 0);
                    }
                    assert(r@ =~= f);
                }
                return r;
            },
        };
        let coll = match &self.pool[asset] {
            Some(p) => &p.collateral,
            None => {
                return r;
            },
        };
        proof {
            assert(pool_wf(self.pool_of(asset as int), self.assets.len() as nat));
            assert(account_wf(self.users[u as int], self.assets.len() as nat));
        }
        let mut i: usize = 0;
        while i < coll.len()
            invariant
                self.wf(),
                self.has_pool(asset as int),
                coll@ == self.pool_of(asset as int).collateral@,
                u < self.users.len(),
                u as int == self.user_index(caller@),
                self.has_user(caller@),
                account_wf(self.users[u as int], self.assets.len() as nat),
                pool_wf(self.pool_of(asset as int), self.assets.len() as nat),
                i <= coll.len(),
                forall|j: int| 0 <= j < r.len() ==> #[trigger] coll@.contains(r[j]) && self.supplied(caller@, r[j] as int) > 0,
                forall|j: int| 0 <= j < i && #[trigger] self.supplied(caller@, coll[j] as int) > 0 ==> r@.contains(coll[j]),
                r@ == coll@.take(i as int).filter(|c: usize| self.supplied(caller@, c as int) > 0),
            decreases coll.len() - i,
        {
            let c = coll[i];
            proof {
                reveal(Seq::filter);
                assert(coll@.take(i + 1).drop_last() =~= coll@.take(i as int));
                assert(coll@.take(i + 1).last() == c);
            }
            proof {
                assert(c < self.assets.len());
            }
            if self.users[u].supplies[c] > 0 {
                proof {
                    assert(coll@.contains(c)) by {
                        assert(coll@[i as int] == c);
                    }
                }
                let ghost r0 = r@;
                r.push(c);
                proof {
                    assert(r@.last() == c);
                    assert forall|j: int| 0 <= j < i && #[trigger] self.supplied(caller@, coll[j] as int) > 0 implies r@.contains(coll[j]) by {
                        assert(r0.contains(coll[j]));
                        let k = choose|k: int| 0 <= k < r0.len() && r0[k] == coll[j];
                        assert(r@[k] == coll[j]);
                    }
                }
            }
            i = i + 1;
        }
        proof {
            assert(coll@.take(i as int) =~= coll@);
            if r.len() > 0 {
                assert(coll@.contains(r[0]));
                let j = choose|j: int| 0 <= j < coll.len() && coll@[j] == r[0];
                assert(self.supplied(caller@, coll[j] as int) > 0);
            }
            if self.accepts_collateral_of(caller@, asset as int) {
                let j = choose|j: int|
                    0 <= j < self.pool_of(asset as int).collateral.len() && #[trigger] self.supplied(caller@, self.pool_of(asset as int).collateral[j] as int) > 0;
                assert(r@.contains(coll[j]));
            }
        }
        r
    }

    /// What `id` owes after borrowing `amount` more of asset `a`, in value.
    pub open spec fn debt_after_borrow(&self, id: Seq<u8>, a: int, amount: int, prices: Seq<u64>) -> int {
        total_value(
            self.borrows_of(id).update(a, (self.borrowed(id, a) + amount) as u64),
            self.assets@,
            prices,
            Weight::Plain,
            self.assets.len() as nat,
        )
    }

    pub open spec fn borrow_check(&self, id: Seq<u8>, a: int, amount: int, prices: Seq<u64>) -> Result<(), LendError> {
        let power = self.borrowing_power(id, prices);
        let debt = self.debt_value(id, prices);
        let wc = self.weighted_collateral(id, prices);
        if amount == 0 {
            Err(LendError::ZeroAmount)
        } else if !self.has_pool(a) {
            Err(LendError::UnknownPool)
        } else if !self.prices_ok(prices) {
            Err(LendError::MissingPrice)
        } else if !self.accepts_collateral_of(id, a) {
            Err(LendError::NoCollateral)
        } else if power > u128::MAX || debt > u128::MAX {
            Err(LendError::Overflow)
        } else if value_of(amount, prices[a] as int, self.assets[a].decimals as nat) > max_borrow_value(power, debt) {
            Err(LendError::BorrowLimitExceeded)
        } else if self.pool_of(a).used_amount + amount > self.pool_of(a).amount {
            Err(LendError::InsufficientLiquidity)
        } else if self.borrowed(id, a) + amount > u64::MAX {
            Err(LendError::Overflow)
        } else if self.debt_after_borrow(id, a, amount, prices) > u128::MAX || wc > u128::MAX {
            Err(LendError::Overflow)
        } else if self.debt_after_borrow(id, a, amount, prices) > wc {
            Err(LendError::BorrowLimitExceeded)
        } else {
            Ok(())
        }
    }

    /// Whether `borrow` would lend `amount` of asset `asset` to `caller` now,
    /// at the given prices (one per asset).
    pub fn validate_borrow(&self, caller: &Vec<u8>, asset: usize, amount: u64, prices: &Vec<u64>) -> (r: Result<(), LendError>)
        requires
            self.wf(),
        ensures
            r == self.borrow_check(caller@, asset as int, amount as int, prices@),
    {
        if amount == 0 {
            return Err(LendError::ZeroAmount);
        }
        if asset >= self.pool.len() || self.pool[asset].is_none() {
            return Err(LendError::UnknownPool);
        }
        if prices.len() != self.assets.len() {
            return Err(LendError::MissingPrice);
        }
        let accepted = self.check_user_collateral(caller, asset);
        if accepted.len() == 0 {
            return Err(LendError::NoCollateral);
        }
        proof {
            assert(self.supplied(caller@, accepted[0] as int) > 0);
        }
        let u = match self.find_user(caller) {
            Some(u) => u,
            None => {
                return Err(LendError::NoCollateral);
            },
        };
        proof {
            self.lemma_account_totals_nonneg(caller@, prices@);
            assert(account_wf(self.users[u as int], self.assets.len() as nat));
            assert(pool_wf(self.pool_of(asset as int), self.assets.len() as nat));
            assert(asset_wf(self.assets[asset as int]));
        }
        let power = match sum_value(&self.users[u].supplies, &self.assets, prices, Weight::Factor) {
            Some(v) => v,
            None => {
                return Err(LendError::Overflow);
            },
        };
        let debt = match sum_value(&self.users[u].borrows, &self.assets, prices, Weight::Plain) {
            Some(v) => v,
            None => {
                return Err(LendError::Overflow);
            },
        };
        let wanted = token_value(amount, prices[asset], self.assets[asset].decimals);
        if wanted > margin_of(power, debt) {
            return Err(LendError::BorrowLimitExceeded);
        }
        let (total, used) = match &self.pool[asset] {
            Some(p) => (p.amount, p.used_amount),
            None => (0, 0),
        };
        if used > total || amount > total - used {
            return Err(LendError::InsufficientLiquidity);
        }
        let owed = self.users[u].borrows[asset];
        if owed > u64::MAX - amount {
            return Err(LendError::Overflow);
        }
        let mut after: Vec<u64> = self.users[u].borrows.clone();
        proof {
            assert(after@ =~= self.users[u as int].borrows@) by {
                assert forall|i: int| 0 <= i < after.len() implies after@[i] == self.users[u as int].borrows@[i] by {
                    assert(vstd::pervasive::cloned(self.users[u as int].borrows@[i], after@[i]));
                }
            }
        }
        after.set(asset, owed + amount);
        proof {
            assert(self.borrowed(caller@, asset as int) == owed);
            assert(after@ == self.borrows_of(caller@).update(asset as int, (self.borrowed(caller@, asset as int) + amount) as u64));
            assert(self.users[u as int].supplies@ == self.supplies_of(caller@));
            lemma_total_monotone(after@, self.assets@, prices@, Weight::Plain, 0, self.assets.len() as nat);
        }
        let new_debt = sum_value(&after, &self.assets, prices, Weight::Plain);
        let wc = sum_value(&self.users[u].supplies, &self.assets, prices, Weight::FactorPlus(self.liquidation_threshold));
        match (new_debt, wc) {
            (Some(d), Some(w)) => {
                if d > w {
                    Err(LendError::BorrowLimitExceeded)
                } else {
                    Ok(())
                }
            },
            _ => Err(LendError::Overflow),
        }
    }

    /// Lend `amount` of asset `asset` to `caller`, whose tokens the host moves
    /// out of the pool once this succeeds. A borrow that would leave the
    /// health factor below 1 is refused.
    pub fn borrow(&mut self, caller: &Vec<u8>, asset: usize, amount: u64, prices: &Vec<u64>) -> (r: Result<(), LendError>)
        requires
            old(self).wf(),
        ensures
            final(self).wf(),
            r == old(self).borrow_check(caller@, asset as int, amount as int, prices@),
            r is Err ==> *final(self) == *old(self),
            r is Ok ==> {
                &&& same_but_pool(*old(self), *final(self), asset as int)
                &&& final(self).pool[asset as int] == Some(with_totals(
                    old(self).pool_of(asset as int),
                    old(self).pool_of(asset as int).amount as int,
                    old(self).pool_of(asset as int).used_amount + amount,
                ))
                &&& forall|k: Balance, id: Seq<u8>, b: int| 0 <= b < old(self).assets.len() ==>
                    #[trigger] final(self).balance(k, id, b) == old(self).balance(k, id, b) + if k == Balance::Borrowed && id == caller@ && b == asset {
                        amount as int
                    } else {
                        0
                    }
                &&& !final(self).liquidatable(caller@, prices@)
            },
    {
        match self.validate_borrow(caller, asset, amount, prices) {
            Err(e) => {
                return Err(e);
            },
            Ok(()) => {},
        }
        let ghost s0 = *self;
        let u = match self.find_user(caller) {
            Some(u) => u,
            None => {
                return Err(LendError::NoCollateral);
            },
        };
        proof {
            assert(account_wf(self.users[u as int], self.assets.len() as nat));
            assert(pool_wf(self.pool_of(asset as int), self.assets.len() as nat));
        }
        let owed = self.users[u].borrows[asset];
        self.set_balance(u, Balance::Borrowed, asset, owed + amount);
        proof {
            assert(balance_seq(self.users[u as int], Balance::Borrowed) == s0.users[u as int].borrows@.update(asset as int, (owed + amount) as u64));
            assert(balance_seq(self.users[u as int], Balance::Supplied) == s0.users[u as int].supplies@);
        }
        let ghost s_mid = *self;
        let (total, used) = match &self.pool[asset] {
            Some(p) => (p.amount, p.used_amount),
            None => (0, 0),
        };
        self.set_pool_totals(asset, total, used + amount);
        proof {
            let s1 = *self;
            assert(s1.users == s_mid.users);
            LendingContract::lemma_same_owners(&s0, &s1, caller@);
            assert(s1.borrows_of(caller@) =~= s0.borrows_of(caller@).update(asset as int, (owed + amount) as u64));
            assert(s1.supplies_of(caller@) =~= s0.supplies_of(caller@));
        }
        Ok(())
    }

    pub open spec fn repay_check(&self, id: Seq<u8>, a: int, amount: int) -> Result<(), LendError> {
        if amount == 0 {
            Err(LendError::ZeroAmount)
        } else if !self.has_pool(a) {
            Err(LendError::UnknownPool)
        } else if self.borrowed(id, a) == 0 {
            Err(LendError::NoDebt)
        } else if amount > self.borrowed(id, a) {
            Err(LendError::RepayExceedsDebt)
        } else if !self.earnings_fit(a, settled(amount, self.interest_owed(id, a))) {
            Err(LendError::Overflow)
        } else {
            Ok(())
        }
    }

    /// Whether `repay` would accept `amount` of asset `asset` from `caller` now.
    pub fn validate_repay(&self, caller: &Vec<u8>, asset: usize, amount: u64) -> (r: Result<(), LendError>)
        requires
            self.wf(),
        ensures
            r == self.repay_check(caller@, asset as int, amount as int),
    {
        if amount == 0 {
            return Err(LendError::ZeroAmount);
        }
        if asset >= self.pool.len() || self.pool[asset].is_none() {
            return Err(LendError::UnknownPool);
        }
        let u = match self.find_user(caller) {
            Some(u) => u,
            None => {
                return Err(LendError::NoDebt);
            },
        };
        proof {
            assert(account_wf(self.users[u as int], self.assets.len() as nat));
        }
        let owed = self.users[u].borrows[asset];
        if owed == 0 {
            return Err(LendError::NoDebt);
        }
        if amount > owed {
            return Err(LendError::RepayExceedsDebt);
        }
        let owed_interest = self.users[u].interest[asset];
        let realised: u64 = if amount >= owed_interest {
            owed_interest
        } else {
            amount
        };
        if !self.earnings_fit_exec(asset, realised) {
            return Err(LendError::Overflow);
        }
        Ok(())
    }

    /// Pay back `amount` of asset `asset`, already moved into the pool, off
    /// `caller`'s debt. The payment first settles interest owed, which is
    /// distributed to the suppliers; the whole payment reduces the debt and
    /// the pool's lent-out total (the latter saturating at zero).
    pub fn repay(&mut self, caller: &Vec<u8>, asset: usize, amount: u64) -> (r: Result<(), LendError>)
        requires
            old(self).wf(),
        ensures
            final(self).wf(),
            r == old(self).repay_check(caller@, asset as int, amount as int),
            r is Err ==> *final(self) == *old(self),
            r is Ok ==> {
                let realised = settled(amount as int, old(self).interest_owed(caller@, asset as int));
                let p = old(self).pool_of(asset as int);
                &&& same_but_pool(*old(self), *final(self), asset as int)
                &&& same_owners(*old(self), *final(self))
                &&& final(self).pool[asset as int] == Some(with_totals(p, p.amount as int, saturating_sub(p.used_amount as int, amount as int)))
                &&& forall|k: Balance, id: Seq<u8>, b: int| 0 <= b < old(self).assets.len() ==>
                    #[trigger] final(self).balance(k, id, b) == if b != asset {
                        old(self).balance(k, id, b)
                    } else if k == Balance::Supplied {
                        credited(
                            old(self).balance(k, id, b),
                            old(self).scaled_reward(asset as int, realised),
                            old(self).total_supplied(asset as int),
                        )
                    } else if id != caller@ {
                        old(self).balance(k, id, b)
                    } else if k == Balance::Borrowed {
                        old(self).balance(k, id, b) - amount
                    } else {
                        old(self).balance(k, id, b) - realised
                    }
            },
    {
        match self.validate_repay(caller, asset, amount) {
            Err(e) => {
                return Err(e);
            },
            Ok(()) => {},
        }
        let u = match self.find_user(caller) {
            Some(u) => u,
            None => {
                return Err(LendError::NoDebt);
            },
        };
        proof {
            assert(account_wf(self.users[u as int], self.assets.len() as nat));
            assert(pool_wf(self.pool_of(asset as int), self.assets.len() as nat));
        }
        let owed = self.users[u].borrows[asset];
        let owed_interest = self.users[u].interest[asset];
        let realised: u64 = if amount >= owed_interest {
            owed_interest
        } else {
            amount
        };
        self.settle_debt(u, asset, amount, realised, owed, owed_interest);
        Ok(())
    }

    /// Distribute `realised` interest of asset `a`, then lower the debt of the
    /// account at `u` by `amount`, its interest owed by `realised`, and the
    /// pool's lent-out total by `amount` (saturating at zero).
    pub(crate) fn settle_debt(&mut self, u: usize, a: usize, amount: u64, realised: u64, owed: u64, owed_interest: u64)
        requires
            old(self).wf(),
            u < old(self).users.len(),
            old(self).has_pool(a as int),
            owed == old(self).users[u as int].borrows[a as int],
            owed_interest == old(self).users[u as int].interest[a as int],
            amount <= owed,
            realised <= owed_interest,
            old(self).earnings_fit(a as int, realised as int),
        ensures
            final(self).wf(),
            same_but_pool(*old(self), *final(self), a as int),
            same_owners(*old(self), *final(self)),
            ({
                let p = old(self).pool_of(a as int);
                final(self).pool[a as int] == Some(with_totals(p, p.amount as int, saturating_sub(p.used_amount as int, amount as int)))
            }),
            forall|k: Balance, id: Seq<u8>, b: int| 0 <= b < old(self).assets.len() ==>
                #[trigger] final(self).balance(k, id, b) == if b != a {
                    old(self).balance(k, id, b)
                } else if k == Balance::Supplied {
                    credited(
                        old(self).balance(k, id, b),
                        old(self).scaled_reward(a as int, realised as int),
                        old(self).total_supplied(a as int),
                    )
                } else if id != old(self).users[u as int].owner@ {
                    old(self).balance(k, id, b)
                } else if k == Balance::Borrowed {
                    old(self).balance(k, id, b) - amount
                } else {
                    old(self).balance(k, id, b) - realised
                },
    {
        let ghost s0 = *self;
        proof {
            assert(pool_wf(self.pool_of(a as int), self.assets.len() as nat));
            s0.lemma_index_of(u as int);
        }
        let _ = self.distribute_earnings(a, realised);
        let ghost s1 = *self;
        self.set_balance(u, Balance::Interest, a, owed_interest - realised);
        let ghost s2 = *self;
        self.set_balance(u, Balance::Borrowed, a, owed - amount);
        let (total, used) = match &self.pool[a] {
            Some(p) => (p.amount, p.used_amount),
            None => (0, 0),
        };
        let left: u64 = if used >= amount {
            used - amount
        } else {
            0
        };
        self.set_pool_totals(a, total, left);
        proof {
            assert(s1.users[u as int].owner@ == s0.users[u as int].owner@);
            assert(s2.users[u as int].owner@ == s0.users[u as int].owner@);
            assert forall|k: Balance, id: Seq<u8>, b: int| 0 <= b < s0.assets.len() implies
                #[trigger] self.balance(k, id, b) == if b != a {
                    s0.balance(k, id, b)
                } else if k == Balance::Supplied {
                    credited(s0.balance(k, id, b), s0.scaled_reward(a as int, realised as int), s0.total_supplied(a as int))
                } else if id != s0.users[u as int].owner@ {
                    s0.balance(k, id, b)
                } else if k == Balance::Borrowed {
                    s0.balance(k, id, b) - amount
                } else {
                    s0.balance(k, id, b) - realised
                } by {
                let b1 = s1.balance(k, id, b);
                let b2 = s2.balance(k, id, b);
                if id == s0.users[u as int].owner@ {
                    assert(s0.balance(k, id, b) == balance_seq(s0.users[u as int], k)[b]);
                }
            }
        }
    }

    pub open spec fn withdraw_check(&self, id: Seq<u8>, a: int, amount: int, prices: Seq<u64>) -> Result<(), LendError> {
        let held = self.supplied(id, a);
        let debt = self.debt_value(id, prices);
        let factor = self.assets[a].collateral_factor as int;
        if amount == 0 {
            Err(LendError::ZeroAmount)
        } else if !self.has_pool(a) {
            Err(LendError::UnknownPool)
        } else if held == 0 {
            Err(LendError::NoSupply)
        } else if !self.prices_ok(prices) {
            Err(LendError::MissingPrice)
        } else if amount > held {
            Err(LendError::WithdrawLimitExceeded)
        } else if debt > u128::MAX || debt * RATIO_ONE > u128::MAX {
            Err(LendError::Overflow)
        } else if debt > 0 && factor == 0 {
            Err(LendError::WithdrawLimitExceeded)
        } else if value_of(amount, prices[a] as int, self.assets[a].decimals as nat) + withdraw_lock(debt, factor)
            > value_of(held, prices[a] as int, self.assets[a].decimals as nat) {
            Err(LendError::WithdrawLimitExceeded)
        } else if !keeps_reserve(self.pool_of(a), amount, self.safety_vault_percentage as int) {
            Err(LendError::ReserveRequired)
        } else {
            Ok(())
        }
    }

    /// Whether `withdraw` would pay out `amount` of asset `asset` to `caller`
    /// now, at the given prices (one per asset).
    pub fn validate_withdraw(&self, caller: &Vec<u8>, asset: usize, amount: u64, prices: &Vec<u64>) -> (r: Result<(), LendError>)
        requires
            self.wf(),
        ensures
            r == self.withdraw_check(caller@, asset as int, amount as int, prices@),
    {
        if amount == 0 {
            return Err(LendError::ZeroAmount);
        }
        if asset >= self.pool.len() || self.pool[asset].is_none() {
            return Err(LendError::UnknownPool);
        }
        let u = match self.find_user(caller) {
            Some(u) => u,
            None => {
                return Err(LendError::NoSupply);
            },
        };
        proof {
            assert(account_wf(self.users[u as int], self.assets.len() as nat));
            assert(pool_wf(self.pool_of(asset as int), self.assets.len() as nat));
            assert(asset_wf(self.assets[asset as int]));
            self.lemma_account_totals_nonneg(caller@, prices@);
        }
        let held = self.users[u].supplies[asset];
        if held == 0 {
            return Err(LendError::NoSupply);
        }
        if prices.len() != self.assets.len() {
            return Err(LendError::MissingPrice);
        }
        if amount > held {
            return Err(LendError::WithdrawLimitExceeded);
        }
        let debt = match sum_value(&self.users[u].borrows, &self.assets, prices, Weight::Plain) {
            Some(v) => v,
            None => {
                return Err(LendError::Overflow);
            },
        };
        let scaled_debt = match debt.checked_mul(RATIO_ONE as u128) {
            Some(v) => v,
            None => {
                return Err(LendError::Overflow);
            },
        };
        let factor = self.assets[asset].collateral_factor;
        if debt > 0 && factor == 0 {
            return Err(LendError::WithdrawLimitExceeded);
        }
        let lock: u128 = if debt == 0 {
            0
        } else {
            scaled_debt / (factor as u128)
        };
        let decimals = self.assets[asset].decimals;
        let held_value = token_value(held, prices[asset], decimals);
        let wanted = token_value(amount, prices[asset], decimals);
        if lock > held_value || wanted > held_value - lock {
            return Err(LendError::WithdrawLimitExceeded);
        }
        let (total, used) = match &self.pool[asset] {
            Some(p) => (p.amount, p.used_amount),
            None => (0, 0),
        };
        if total - used < amount {
            return Err(LendError::ReserveRequired);
        }
        let free = (total - used - amount) as u128;
        proof {
            assert(free * RATIO_ONE <= (u64::MAX as int) * (RATIO_ONE as int)) by (nonlinear_arith)
                requires free <= u64::MAX;
            assert((self.safety_vault_percentage as int) * (total as int) <= (RATIO_ONE as int) * (u64::MAX as int)) by (nonlinear_arith)
                requires self.safety_vault_percentage <= RATIO_ONE, total <= u64::MAX;
        }
        if free * (RATIO_ONE as u128) < (self.safety_vault_percentage as u128) * (total as u128) {
            return Err(LendError::ReserveRequired);
        }
        Ok(())
    }

    /// Pay out `amount` of asset `asset` from `caller`'s supply; the host moves
    /// the tokens once this succeeds. The value that stays must cover what the
    /// caller's debt locks, and the pool must keep its reserve.
    pub fn withdraw(&mut self, caller: &Vec<u8>, asset: usize, amount: u64, prices: &Vec<u64>) -> (r: Result<(), LendError>)
        requires
            old(self).wf(),
        ensures
            final(self).wf(),
            r == old(self).withdraw_check(caller@, asset as int, amount as int, prices@),
            r is Err ==> *final(self) == *old(self),
            r is Ok ==> withdraw_effect(*old(self), *final(self), caller@, asset as int, amount as int),
    {
        match self.validate_withdraw(caller, asset, amount, prices) {
            Err(e) => {
                return Err(e);
            },
            Ok(()) => {},
        }
        let u = match self.find_user(caller) {
            Some(u) => u,
            None => {
                return Err(LendError::NoSupply);
            },
        };
        proof {
            assert(account_wf(self.users[u as int], self.assets.len() as nat));
            assert(pool_wf(self.pool_of(asset as int), self.assets.len() as nat));
        }
        let held = self.users[u].supplies[asset];
        self.set_balance(u, Balance::Supplied, asset, held - amount);
        let (total, used) = match &self.pool[asset] {
            Some(p) => (p.amount, p.used_amount),
            None => (0, 0),
        };
        self.set_pool_totals(asset, total - amount, used);
        Ok(())
    }

    /// Open an account for `principal`, with zero balances.
    pub fn register_user(&mut self, principal: &Vec<u8>) -> (r: Result<(), LendError>)
        requires
            old(self).wf(),
        ensures
            final(self).wf(),
            r == (if old(self).has_user(principal@) {
                Err(LendError::UserExists)
            } else {
                Ok(())
            }),
            r is Err ==> *final(self) == *old(self),
            r is Ok ==> {
                &&& final(self).has_user(principal@)
                &&& final(self).assets == old(self).assets
                &&& final(self).pool == old(self).pool
                &&& forall|k: Balance, id: Seq<u8>, b: int| 0 <= b < old(self).assets.len() ==>
                    #[trigger] final(self).balance(k, id, b) == old(self).balance(k, id, b)
            },
    {
        if self.find_user(principal).is_some() {
            return Err(LendError::UserExists);
        }
        self.ensure_user(principal);
        Ok(())
    }

    /// The liquidation threshold, scaled by `RATIO_ONE`.
    pub fn get_liquidation_threshold(&self) -> (r: u64)
        ensures
            r == self.liquidation_threshold,
    {
        self.liquidation_threshold
    }

    /// The decimal precision of `asset`.
    pub fn get_token_decimals(&self, asset: usize) -> (r: Option<u32>)
        ensures
            r == (if asset < self.assets.len() {
                Some(self.assets[asset as int].decimals)
            } else {
                None::<u32>
            }),
    {
        if asset < self.assets.len() {
            Some(self.assets[asset].decimals)
        } else {
            None
        }
    }

    /// The interest rate parameter of `asset`, scaled by `RATIO_ONE`.
    pub fn cal_earning(&self, asset: usize) -> (r: Option<u64>)
        ensures
            r == (if asset < self.assets.len() {
                Some(self.assets[asset as int].interest_rate)
            } else {
                None::<u64>
            }),
    {
        if asset < self.assets.len() {
            Some(self.assets[asset].interest_rate)
        } else {
            None
        }
    }

    pub open spec fn cancel_borrow_check(&self, id: Seq<u8>, a: int, amount: int) -> Result<(), LendError> {
        if !self.has_pool(a) {
            Err(LendError::UnknownPool)
        } else if amount > self.borrowed(id, a) {
            Err(LendError::RepayExceedsDebt)
        } else {
            Ok(())
        }
    }

    /// Take back a borrow of `amount` of asset `asset` whose tokens never left
    /// the pool: `caller`'s debt and the pool's lent-out total (saturating at
    /// zero) shrink by `amount`; nothing else changes.
    pub fn cancel_borrow(&mut self, caller: &Vec<u8>, asset: usize, amount: u64) -> (r: Result<(), LendError>)
        requires
            old(self).wf(),
        ensures
            final(self).wf(),
            r == old(self).cancel_borrow_check(caller@, asset as int, amount as int),
            r is Err ==> *final(self) == *old(self),
            r is Ok ==> {
                let p = old(self).pool_of(asset as int);
                &&& same_but_pool(*old(self), *final(self), asset as int)
                &&& same_owners(*old(self), *final(self))
                &&& final(self).pool[asset as int] == Some(with_totals(p, p.amount as int, saturating_sub(p.used_amount as int, amount as int)))
                &&& forall|k: Balance, id: Seq<u8>, b: int| 0 <= b < old(self).assets.len() ==>
                    #[trigger] final(self).balance(k, id, b) == old(self).balance(k, id, b) - if k == Balance::Borrowed && id == caller@ && b == asset {
                        amount as int
                    } else {
                        0
                    }
            },
    {
        if asset >= self.pool.len() || self.pool[asset].is_none() {
            return Err(LendError::UnknownPool);
        }
        let u = match self.find_user(caller) {
            Some(u) => u,
            None => {
                if amount > 0 {
                    return Err(LendError::RepayExceedsDebt);
                }
                let p = match &self.pool[asset] {
                    Some(p) => (p.amount, p.used_amount),
                    None => (0, 0),
                };
                proof {
                    assert(pool_wf(self.pool_of(asset as int), self.assets.len() as nat));
                }
                self.set_pool_totals(asset, p.0, p.1);
                return Ok(());
            },
        };
        proof {
            assert(account_wf(self.users[u as int], self.assets.len() as nat));
        }
        let owed = self.users[u].borrows[asset];
        if amount > owed {
            return Err(LendError::RepayExceedsDebt);
        }
        let owed_interest = self.users[u].interest[asset];
        let ghost s0 = *self;
        proof {
            s0.lemma_index_of(u as int);
            let rate = s0.assets[asset as int].interest_rate as int;
            let keep = s0.keep_ratio();
            assert(0 * rate * keep == 0) by (nonlinear_arith);
            assert(s0.scaled_reward(asset as int, 0) == 0);
        }
        self.settle_debt(u, asset, amount, 0, owed, owed_interest);
        proof {
            assert forall|k: Balance, id: Seq<u8>, b: int| 0 <= b < s0.assets.len() implies
                #[trigger] self.balance(k, id, b) == s0.balance(k, id, b) - if k == Balance::Borrowed && id == caller@ && b == asset {
                    amount as int
                } else {
                    0
                } by {
                crate::earnings::lemma_no_share(s0.balance(k, id, b), 0, s0.total_supplied(asset as int));
            }
        }
        Ok(())
    }
}

} // verus!
