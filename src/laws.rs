//! Properties of the ledger that hold across operations.
use crate::ledger::Balance;
use crate::liquidation::{liquidation_effect, Liquidation};
use crate::math::{value_of, RATIO_ONE};
use crate::ops::{keeps_reserve, supply_effect, withdraw_effect, withdraw_lock};
use crate::types::{pool_wf, AssetConfig, LendError, LendingContract};
use vstd::prelude::*;

verus! {

/// In every well-formed ledger, and so after every operation, each pool has
/// lent out at most what was supplied to it, and holds at most its capacity.
pub proof fn lemma_pool_bounds(s: &LendingContract, a: int)
    requires
        s.wf(),
        s.has_pool(a),
    ensures
        s.pool_of(a).used_amount <= s.pool_of(a).amount <= s.pool_of(a).maximum_token,
{
    assert(pool_wf(s.pool_of(a), s.assets.len() as nat));
}

/// No balance of any user in any asset is ever negative.
pub proof fn lemma_balances_nonneg(s: &LendingContract, k: Balance, id: Seq<u8>, b: int)
    requires
        s.wf(),
        0 <= b < s.assets.len(),
    ensures
        s.balance(k, id, b) >= 0,
{
}

/// A borrower whose health factor is at least 1 cannot be liquidated.
pub proof fn lemma_healthy_not_liquidatable(
    s: &LendingContract,
    liquidator: Seq<u8>,
    borrower: Seq<u8>,
    r: int,
    c: int,
    amount: int,
    prices: Seq<u64>,
)
    requires
        s.wf(),
        !s.liquidatable(borrower, prices),
    ensures
        s.liquidation_check(liquidator, borrower, r, c, amount, prices) is Err,
{
}

/// Supplying `x` of an asset and then withdrawing `x` of it restores every
/// balance, and the pools, to what they were.
pub proof fn lemma_supply_withdraw_round_trip(
    s0: &LendingContract,
    s1: &LendingContract,
    s2: &LendingContract,
    id: Seq<u8>,
    a: int,
    x: int,
)
    requires
        s0.wf(),
        s1.wf(),
        supply_effect(*s0, *s1, id, a, x),
        withdraw_effect(*s1, *s2, id, a, x),
    ensures
        forall|k: Balance, id2: Seq<u8>, b: int| 0 <= b < s0.assets.len() ==>
            #[trigger] s2.balance(k, id2, b) == s0.balance(k, id2, b),
        s2.pool@ == s0.pool@,
{
    assert forall|k: Balance, id2: Seq<u8>, b: int| 0 <= b < s0.assets.len() implies
        #[trigger] s2.balance(k, id2, b) == s0.balance(k, id2, b) by {
        let m = s1.balance(k, id2, b);
    }
    assert(s2.pool@ =~= s0.pool@) by {
        assert forall|b: int| 0 <= b < s0.pool.len() implies #[trigger] s2.pool[b] == s0.pool[b] by {
            if b == a {
                assert(s0.pool[a] == Some(s0.pool_of(a)));
            }
        }
    }
}

/// Right after supplying `x` of an asset, withdrawing that `x` is accepted
/// when what the user's debt locks still leaves `x` free and the pool keeps
/// its reserve.
pub proof fn lemma_withdraw_after_supply_accepted(
    s0: &LendingContract,
    s1: &LendingContract,
    id: Seq<u8>,
    a: int,
    x: int,
    prices: Seq<u64>,
)
    requires
        s0.wf(),
        s1.wf(),
        supply_effect(*s0, *s1, id, a, x),
        s1.prices_ok(prices),
        ({
            let debt = s1.debt_value(id, prices);
            let factor = s1.assets[a].collateral_factor as int;
            let price = prices[a] as int;
            let decimals = s1.assets[a].decimals as nat;
            &&& debt * RATIO_ONE <= u128::MAX
            &&& debt > 0 ==> factor > 0
            &&& value_of(x, price, decimals) + withdraw_lock(debt, factor) <= value_of(s1.supplied(id, a), price, decimals)
        }),
        keeps_reserve(s1.pool_of(a), x, s1.safety_vault_percentage as int),
    ensures
        s1.withdraw_check(id, a, x, prices) == Ok::<(), LendError>(()),
{
    let held = s1.supplied(id, a);
    assert(s1.balance(Balance::Supplied, id, a) == s0.balance(Balance::Supplied, id, a) + x);
    assert(s0.balance(Balance::Supplied, id, a) >= 0);
    assert(held >= x);
    let p = prices[a] as int;
    let d = crate::math::pow10(s1.assets[a].decimals as nat) as int;
    crate::math::lemma_pow10_pos(s1.assets[a].decimals as nat);
    assert(x * p <= held * p) by (nonlinear_arith)
        requires x <= held, p >= 0;
    vstd::arithmetic::div_mod::lemma_div_is_ordered(x * p, held * p, d);
    assert(value_of(x, p, s1.assets[a].decimals as nat) <= value_of(held, p, s1.assets[a].decimals as nat));
    s1.lemma_account_totals_nonneg(id, prices);
}

/// Once an asset is registered, registering its token again is refused.
pub proof fn lemma_register_twice_refused(
    s0: &LendingContract,
    s1: &LendingContract,
    c: AssetConfig,
    caller: Seq<u8>,
    decimals: int,
    factor: int,
    rate: int,
)
    requires
        s1.assets@ == s0.assets@.push(c),
    ensures
        s1.register_check(caller, c.token_id@, decimals, factor, rate) == if s1.is_admin(caller) {
            Err::<usize, LendError>(LendError::AssetExists)
        } else {
            Err(LendError::NotAdmin)
        },
{
    assert(s1.assets[s0.assets.len() as int] == c);
}

/// A liquidation moves collateral without creating it: where the collateral
/// differs from the repaid asset (whose settled interest is shared among its
/// suppliers), the liquidator gains exactly what the borrower loses.
pub proof fn lemma_liquidation_conserves(
    s0: &LendingContract,
    s1: &LendingContract,
    liquidator: Seq<u8>,
    borrower: Seq<u8>,
    r: int,
    c: int,
    l: Liquidation,
)
    requires
        liquidation_effect(*s0, *s1, liquidator, borrower, r, c, l),
        0 <= c < s0.assets.len(),
        c != r,
        liquidator != borrower,
    ensures
        s1.balance(Balance::Supplied, liquidator, c) == s0.balance(Balance::Supplied, liquidator, c) + l.seized,
        s1.balance(Balance::Supplied, borrower, c) == s0.balance(Balance::Supplied, borrower, c) - l.seized,
        s1.balance(Balance::Supplied, liquidator, c) + s1.balance(Balance::Supplied, borrower, c)
            == s0.balance(Balance::Supplied, liquidator, c) + s0.balance(Balance::Supplied, borrower, c),
{
    let x = s1.balance(Balance::Supplied, liquidator, c);
    let y = s1.balance(Balance::Supplied, borrower, c);
}

} // verus!
