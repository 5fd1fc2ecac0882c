//! Collateral valuation, health factor and borrowing limits.
use crate::math::{mul_ratio, scaled, token_value, value_of, BORROW_MARGIN, RATIO_ONE};
use crate::types::{asset_wf, AssetConfig, LendError, LendingContract};
use vstd::arithmetic::div_mod::lemma_div_is_ordered;
use vstd::prelude::*;

verus! {

/// How each holding counts in a total: at market value, weighted by its
/// asset's collateral factor, or by that factor plus an extra ratio.
#[derive(Clone, Copy, Debug, PartialEq, Eq, Structural)]
pub enum Weight {
    Plain,
    Factor,
    FactorPlus(u64),
}

pub open spec fn weight_ok(w: Weight) -> bool {
    match w {
        Weight::FactorPlus(x) => x <= RATIO_ONE,
        _ => true,
    }
}

/// Value of one holding under the weighting `w`.
pub open spec fn term_value(amount: u64, c: AssetConfig, price: u64, w: Weight) -> int {
    let v = value_of(amount as int, price as int, c.decimals as nat);
    match w {
        Weight::Plain => v,
        Weight::Factor => scaled(v, c.collateral_factor as int),
        Weight::FactorPlus(x) => scaled(v, c.collateral_factor + x),
    }
}

/// Sum of the first `n` holdings under the weighting `w`.
pub open spec fn total_value(
    amounts: Seq<u64>,
    assets: Seq<AssetConfig>,
    prices: Seq<u64>,
    w: Weight,
    n: nat,
) -> int
    decreases n,
{
    if n == 0 {
        0
    } else {
        total_value(amounts, assets, prices, w, (n - 1) as nat) + term_value(
            amounts[n - 1],
            assets[n - 1],
            prices[n - 1],
            w,
        )
    }
}

/// What a borrower may still borrow, in value: the free borrowing power
/// times the safety margin, and nothing once debt reaches that power.
pub open spec fn max_borrow_value(power: int, debt: int) -> int {
    if power > debt {
        scaled(power - debt, BORROW_MARGIN as int)
    } else {
        0
    }
}

pub proof fn lemma_term_nonneg(amount: u64, c: AssetConfig, price: u64, w: Weight)
    requires
        c.decimals <= crate::math::MAX_DECIMALS,
    ensures
        term_value(amount, c, price, w) >= 0,
{
    crate::math::lemma_pow10_pos(c.decimals as nat);
    let p = (amount as int) * (price as int);
    assert(p >= 0) by (nonlinear_arith)
        requires
            p == (amount as int) * (price as int),
            amount >= 0,
            price >= 0,
    ;
    let d = crate::math::pow10(c.decimals as nat) as int;
    lemma_div_is_ordered(0, p, d);
    let v = value_of(amount as int, price as int, c.decimals as nat);
    let r: int = match w {
        Weight::Plain => RATIO_ONE as int,
        Weight::Factor => c.collateral_factor as int,
        Weight::FactorPlus(x) => c.collateral_factor + x,
    };
    assert(v * r >= 0) by (nonlinear_arith)
        requires
            v >= 0,
            r >= 0,
    ;
    lemma_div_is_ordered(0, v * r, RATIO_ONE as int);
}

/// Totals only grow as more holdings are counted.
pub proof fn lemma_total_monotone(
    amounts: Seq<u64>,
    assets: Seq<AssetConfig>,
    prices: Seq<u64>,
    w: Weight,
    i: nat,
    n: nat,
)
    requires
        i <= n <= assets.len(),
        forall|a: int| 0 <= a < assets.len() ==> asset_wf(#[trigger] assets[a]),
    ensures
        0 <= total_value(amounts, assets, prices, w, i) <= total_value(amounts, assets, prices, w, n),
    decreases n,
{
    if n > 0 {
        assert(asset_wf(assets[n - 1]));
        lemma_term_nonneg(amounts[n - 1], assets[n - 1], prices[n - 1], w);
        if i < n {
            lemma_total_monotone(amounts, assets, prices, w, i, (n - 1) as nat);
        } else {
            lemma_total_monotone(amounts, assets, prices, w, (n - 1) as nat, (n - 1) as nat);
        }
    }
}

/// The total of `amounts` under the weighting `w`, or `None` where it does
/// not fit in a `u128`.
pub fn sum_value(amounts: &Vec<u64>, assets: &Vec<AssetConfig>, prices: &Vec<u64>, w: Weight) -> (r:
    Option<u128>)
    requires
        amounts.len() == assets.len(),
        prices.len() == assets.len(),
        forall|a: int| 0 <= a < assets.len() ==> asset_wf(#[trigger] assets[a]),
        weight_ok(w),
    ensures
        r == (if total_value(amounts@, assets@, prices@, w, assets.len() as nat) <= u128::MAX {
            Some(total_value(amounts@, assets@, prices@, w, assets.len() as nat) as u128)
        } else {
            None::<u128>
        }),
{
    let n = assets.len();
    let mut acc: u128 = 0;
    let mut i: usize = 0;
    while i < n
        invariant
            n == assets.len(),
            amounts.len() == n,
            prices.len() == n,
            forall|a: int| 0 <= a < assets.len() ==> asset_wf(#[trigger] assets[a]),
            weight_ok(w),
            i <= n,
            acc == total_value(amounts@, assets@, prices@, w, i as nat),
        decreases n - i,
    {
        proof {
            lemma_total_monotone(amounts@, assets@, prices@, w, (i + 1) as nat, n as nat);
            assert(asset_wf(assets[i as int]));
        }
        let c = &assets[i];
        let v = token_value(amounts[i], prices[i], c.decimals);
        let t = match w {
            Weight::Plain => Some(v),
            Weight::Factor => mul_ratio(v, c.collateral_factor),
            Weight::FactorPlus(x) => mul_ratio(v, c.collateral_factor + x),
        };
        match t {
            Some(t) => {
                match acc.checked_add(t) {
                    Some(s) => {
                        acc = s;
                    },
                    None => {
                        return None;
                    },
                }
            },
            None => {
                proof {
                    lemma_total_monotone(amounts@, assets@, prices@, w, i as nat, i as nat);
                }
                return None;
            },
        }
        i = i + 1;
    }
    Some(acc)
}

impl LendingContract {
    /// The supplied amounts of `id`, one per asset (all zero without an account).
    pub open spec fn supplies_of(&self, id: Seq<u8>) -> Seq<u64> {
        if self.has_user(id) {
            self.users[self.user_index(id)].supplies@
        } else {
            Seq::new(self.assets.len() as nat, |i: int| 0u64)
        }
    }

    /// The borrowed amounts of `id`, one per asset (all zero without an account).
    pub open spec fn borrows_of(&self, id: Seq<u8>) -> Seq<u64> {
        if self.has_user(id) {
            self.users[self.user_index(id)].borrows@
        } else {
            Seq::new(self.assets.len() as nat, |i: int| 0u64)
        }
    }

    pub open spec fn supply_total(&self, id: Seq<u8>, prices: Seq<u64>, w: Weight) -> int {
        total_value(self.supplies_of(id), self.assets@, prices, w, self.assets.len() as nat)
    }

    /// Market value of everything that `id` supplied.
    pub open spec fn collateral_value(&self, id: Seq<u8>, prices: Seq<u64>) -> int {
        self.supply_total(id, prices, Weight::Plain)
    }

    /// Supplied value weighted by collateral factors: the borrowing power.
    pub open spec fn borrowing_power(&self, id: Seq<u8>, prices: Seq<u64>) -> int {
        self.supply_total(id, prices, Weight::Factor)
    }

    /// Supplied value weighted by collateral factor plus liquidation threshold:
    /// the numerator of the health factor.
    pub open spec fn weighted_collateral(&self, id: Seq<u8>, prices: Seq<u64>) -> int {
        self.supply_total(id, prices, Weight::FactorPlus(self.liquidation_threshold))
    }

    /// Market value of everything that `id` owes.
    pub open spec fn debt_value(&self, id: Seq<u8>, prices: Seq<u64>) -> int {
        total_value(self.borrows_of(id), self.assets@, prices, Weight::Plain, self.assets.len() as nat)
    }

    /// The health factor is below 1: the debt exceeds the weighted collateral.
    pub open spec fn liquidatable(&self, id: Seq<u8>, prices: Seq<u64>) -> bool {
        self.debt_value(id, prices) > self.weighted_collateral(id, prices)
    }

    pub open spec fn prices_ok(&self, prices: Seq<u64>) -> bool {
        prices.len() == self.assets.len()
    }

    /// Outcome of a valuation query over `id`'s account.
    pub open spec fn value_query(&self, id: Seq<u8>, prices: Seq<u64>, total: int) -> Result<u128, LendError> {
        if !self.has_user(id) {
            Err(LendError::UnknownUser)
        } else if !self.prices_ok(prices) {
            Err(LendError::MissingPrice)
        } else if total > u128::MAX {
            Err(LendError::Overflow)
        } else {
            Ok(total as u128)
        }
    }

    fn account_total(&self, id: &Vec<u8>, prices: &Vec<u64>, borrows: bool, w: Weight) -> (r: Result<u128, LendError>)
        requires
            self.wf(),
            weight_ok(w),
        ensures
            r == self.value_query(
                id@,
                prices@,
                total_value(
                    if borrows { self.borrows_of(id@) } else { self.supplies_of(id@) },
                    self.assets@,
                    prices@,
                    w,
                    self.assets.len() as nat,
                ),
            ),
    {
        let u = match self.find_user(id) {
            Some(u) => u,
            None => {
                return Err(LendError::UnknownUser);
            },
        };
        if prices.len() != self.assets.len() {
            return Err(LendError::MissingPrice);
        }
        proof {
            assert(crate::types::account_wf(self.users[u as int], self.assets.len() as nat));
        }
        let amounts = if borrows {
            &self.users[u].borrows
        } else {
            &self.users[u].supplies
        };
        match sum_value(amounts, &self.assets, prices, w) {
            Some(v) => Ok(v),
            None => Err(LendError::Overflow),
        }
    }

    /// Every total over an account is non-negative.
    pub proof fn lemma_account_totals_nonneg(&self, id: Seq<u8>, prices: Seq<u64>)
        requires
            self.wf(),
        ensures
            self.collateral_value(id, prices) >= 0,
            self.borrowing_power(id, prices) >= 0,
            self.weighted_collateral(id, prices) >= 0,
            self.debt_value(id, prices) >= 0,
    {
        let n = self.assets.len() as nat;
        lemma_total_monotone(self.supplies_of(id), self.assets@, prices, Weight::Plain, 0, n);
        lemma_total_monotone(self.supplies_of(id), self.assets@, prices, Weight::Factor, 0, n);
        lemma_total_monotone(self.supplies_of(id), self.assets@, prices, Weight::FactorPlus(self.liquidation_threshold), 0, n);
        lemma_total_monotone(self.borrows_of(id), self.assets@, prices, Weight::Plain, 0, n);
    }

    /// Market value of what `user` supplied.
    pub fn cal_collateral_value(&self, user: &Vec<u8>, prices: &Vec<u64>) -> (r: Result<u128, LendError>)
        requires
            self.wf(),
        ensures
            r == self.value_query(user@, prices@, self.collateral_value(user@, prices@)),
    {
        self.account_total(user, prices, false, Weight::Plain)
    }

    /// Market value of what `user` owes.
    pub fn cal_borrow_value(&self, user: &Vec<u8>, prices: &Vec<u64>) -> (r: Result<u128, LendError>)
        requires
            self.wf(),
        ensures
            r == self.value_query(user@, prices@, self.debt_value(user@, prices@)),
    {
        self.account_total(user, prices, true, Weight::Plain)
    }

    /// What `user` supplied, weighted by collateral factor plus liquidation threshold.
    pub fn cal_collateral_with_factor(&self, user: &Vec<u8>, prices: &Vec<u64>) -> (r: Result<u128, LendError>)
        requires
            self.wf(),
        ensures
            r == self.value_query(user@, prices@, self.weighted_collateral(user@, prices@)),
    {
        self.account_total(user, prices, false, Weight::FactorPlus(self.liquidation_threshold))
    }

    /// Borrowing power of `user`: supplied value weighted by collateral factor.
    pub fn cal_borrowing_power(&self, user: &Vec<u8>, prices: &Vec<u64>) -> (r: Result<u128, LendError>)
        requires
            self.wf(),
        ensures
            r == self.value_query(user@, prices@, self.borrowing_power(user@, prices@)),
    {
        self.account_total(user, prices, false, Weight::Factor)
    }

    /// The health factor of `user`, scaled by `RATIO_ONE`: weighted collateral
    /// over debt. `None` for a user without debt, who is always healthy.
    pub fn cal_health_factor(&self, user: &Vec<u8>, prices: &Vec<u64>) -> (r: Result<Option<u128>, LendError>)
        requires
            self.wf(),
        ensures
            ({
                let wc = self.weighted_collateral(user@, prices@);
                let debt = self.debt_value(user@, prices@);
                r == (if !self.has_user(user@) {
                    Err(LendError::UnknownUser)
                } else if !self.prices_ok(prices@) {
                    Err(LendError::MissingPrice)
                } else if wc > u128::MAX || debt > u128::MAX || wc * RATIO_ONE > u128::MAX {
                    Err(LendError::Overflow)
                } else if debt == 0 {
                    Ok(None)
                } else {
                    Ok(Some(((wc * RATIO_ONE) / debt) as u128))
                })
            }),
    {
        proof {
            self.lemma_account_totals_nonneg(user@, prices@);
        }
        let wc = match self.cal_collateral_with_factor(user, prices) {
            Ok(v) => v,
            Err(e) => {
                return Err(e);
            },
        };
        let debt = match self.cal_borrow_value(user, prices) {
            Ok(v) => v,
            Err(e) => {
                return Err(e);
            },
        };
        let scaled_wc = match wc.checked_mul(RATIO_ONE as u128) {
            Some(x) => x,
            None => {
                return Err(LendError::Overflow);
            },
        };
        if debt == 0 {
            Ok(None)
        } else {
            Ok(Some(scaled_wc / debt))
        }
    }

    /// The largest value that `user` may borrow now: the safety margin of
    /// what the borrowing power leaves above the debt. The borrowing power
    /// weights each supply by its asset's collateral factor, so 1,000 of value
    /// in an asset of factor 0.8 allows 0.98 * 800 = 784; the liquidation
    /// threshold enters only the health factor.
    pub fn max_borrow_amount(&self, user: &Vec<u8>, prices: &Vec<u64>) -> (r: Result<u128, LendError>)
        requires
            self.wf(),
        ensures
            ({
                let power = self.borrowing_power(user@, prices@);
                let debt = self.debt_value(user@, prices@);
                r == (if !self.has_user(user@) {
                    Err(LendError::UnknownUser)
                } else if !self.prices_ok(prices@) {
                    Err(LendError::MissingPrice)
                } else if power > u128::MAX || debt > u128::MAX {
                    Err(LendError::Overflow)
                } else {
                    Ok(max_borrow_value(power, debt) as u128)
                })
            }),
    {
        proof {
            self.lemma_account_totals_nonneg(user@, prices@);
        }
        let power = match self.cal_borrowing_power(user, prices) {
            Ok(v) => v,
            Err(e) => {
                return Err(e);
            },
        };
        let debt = match self.cal_borrow_value(user, prices) {
            Ok(v) => v,
            Err(e) => {
                return Err(e);
            },
        };
        Ok(margin_of(power, debt))
    }
}

/// `max_borrow_value(power, debt)`.
pub fn margin_of(power: u128, debt: u128) -> (r: u128)
    ensures
        r == max_borrow_value(power as int, debt as int),
{
    if power > debt {
        let free = power - debt;
        proof {
            assert(free * BORROW_MARGIN <= free * RATIO_ONE) by (nonlinear_arith)
                requires free >= 0;
            vstd::arithmetic::div_mod::lemma_div_multiples_vanish(free as int, RATIO_ONE as int);
            lemma_div_is_ordered(free * BORROW_MARGIN, free * RATIO_ONE, RATIO_ONE as int);
            assert(free * RATIO_ONE == RATIO_ONE * free) by (nonlinear_arith);
        }
        match mul_ratio(free, BORROW_MARGIN) {
            Some(m) => m,
            None => 0,
        }
    } else {
        0
    }
}

} // verus!
