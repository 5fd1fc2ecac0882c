//! Fixed-point arithmetic shared by the valuation and interest models.
use vstd::arithmetic::div_mod::{lemma_div_is_ordered, lemma_fundamental_div_mod, lemma_hoist_over_denominator};
use vstd::prelude::*;

verus! {

/// The integer that stands for the ratio 1.0.
pub const RATIO_ONE: u64 = 1_000_000;

/// Utilisation at which the interest curve bends (0.7).
pub const OPTIMAL_UTILIZATION: u64 = 700_000;

/// Slope of the interest curve up to the bend (0.02).
pub const SLOPE_LOW: u64 = 20_000;

/// Slope parameter of the interest curve beyond the bend (0.4).
pub const SLOPE_HIGH: u64 = 400_000;

/// Share of the free borrowing power that a single borrow may use (0.98).
pub const BORROW_MARGIN: u64 = 980_000;

/// Number of accrual periods in a year.
pub const DAYS_PER_YEAR: u64 = 365;

/// Largest decimal precision whose scale `10^decimals` fits in a `u128`.
pub const MAX_DECIMALS: u32 = 38;

pub open spec fn pow10(n: nat) -> nat
    decreases n,
{
    if n == 0 {
        1
    } else {
        10 * pow10((n - 1) as nat)
    }
}

pub proof fn lemma_pow10_monotone(i: nat, j: nat)
    requires
        i <= j,
    ensures
        pow10(i) <= pow10(j),
        pow10(i) >= 1,
    decreases j,
{
    if j > i {
        lemma_pow10_monotone(i, (j - 1) as nat);
    } else if i > 0 {
        lemma_pow10_monotone((i - 1) as nat, (i - 1) as nat);
    }
}

pub proof fn lemma_pow10_pos(n: nat)
    ensures
        pow10(n) >= 1,
{
    lemma_pow10_monotone(n, n);
}

proof fn lemma_pow10_fits()
    ensures
        pow10(MAX_DECIMALS as nat) <= u128::MAX,
{
    reveal_with_fuel(pow10, 39);
}

/// `10^n` as an integer.
pub fn pow10_exec(n: u32) -> (r: u128)
    requires
        n <= MAX_DECIMALS,
    ensures
        r == pow10(n as nat),
{
    let mut r: u128 = 1;
    let mut i: u32 = 0;
    while i < n
        invariant
            i <= n <= MAX_DECIMALS,
            r == pow10(i as nat),
        decreases n - i,
    {
        proof {
            lemma_pow10_monotone((i + 1) as nat, MAX_DECIMALS as nat);
            lemma_pow10_fits();
        }
        r = r * 10;
        i = i + 1;
    }
    r
}

/// Decimal places of a price: a price is value units per whole token, and
/// one dollar is `10^PRICE_DECIMALS` value units.
pub const PRICE_DECIMALS: u32 = 8;

/// A feed's price `mantissa * 10^expo` dollars in value units, rounded down.
pub open spec fn feed_price(mantissa: int, expo: int) -> int {
    let shift = expo + PRICE_DECIMALS;
    if shift >= 0 {
        mantissa * pow10(shift as nat)
    } else {
        mantissa / (pow10((-shift) as nat) as int)
    }
}

/// The price of a feed quote as value units per whole token: `None` for a
/// negative quote or one too large for a `u64`.
pub fn price_from_feed(mantissa: i64, expo: i32) -> (r: Option<u64>)
    ensures
        r == (if mantissa < 0 || feed_price(mantissa as int, expo as int) > u64::MAX {
            None::<u64>
        } else {
            Some(feed_price(mantissa as int, expo as int) as u64)
        }),
{
    if mantissa < 0 {
        return None;
    }
    let m: u128 = mantissa as u128;
    let shift: i64 = expo as i64 + PRICE_DECIMALS as i64;
    if shift >= 0 {
        if shift > MAX_DECIMALS as i64 {
            if mantissa == 0 {
                proof {
                    let pw = pow10(shift as nat) as int;
                    assert(0 * pw == 0) by (nonlinear_arith);
                }
                return Some(0);
            }
            proof {
                lemma_pow10_monotone(20, shift as nat);
                reveal_with_fuel(pow10, 21);
                assert(mantissa * pow10(shift as nat) >= pow10(shift as nat)) by (nonlinear_arith)
                    requires mantissa >= 1;
            }
            return None;
        }
        let p = pow10_exec(shift as u32);
        match m.checked_mul(p) {
            Some(v) => if v > u64::MAX as u128 {
                None
            } else {
                Some(v as u64)
            },
            None => None,
        }
    } else {
        let down: i64 = -shift;
        if down > MAX_DECIMALS as i64 {
            proof {
                lemma_pow10_monotone(19, down as nat);
                reveal_with_fuel(pow10, 20);
                vstd::arithmetic::div_mod::lemma_basic_div(mantissa as int, pow10(down as nat) as int);
            }
            return Some(0);
        }
        proof {
            lemma_pow10_pos(down as nat);
            lemma_div_is_ordered_by_denominator_nat(mantissa as int, down as nat);
        }
        Some((m / pow10_exec(down as u32)) as u64)
    }
}

proof fn lemma_div_is_ordered_by_denominator_nat(x: int, n: nat)
    requires
        0 <= x,
        pow10(n) >= 1,
    ensures
        x / (pow10(n) as int) <= x,
{
    vstd::arithmetic::div_mod::lemma_div_is_ordered_by_denominator(x, 1, pow10(n) as int);
}

/// Value of `amount` smallest units of a token with `decimals` decimal places
/// at `price` value units per whole token, rounded down.
pub open spec fn value_of(amount: int, price: int, decimals: nat) -> int {
    (amount * price) / (pow10(decimals) as int)
}

/// `x` scaled by the ratio `ratio / RATIO_ONE`, rounded down.
pub open spec fn scaled(x: int, ratio: int) -> int {
    (x * ratio) / (RATIO_ONE as int)
}

pub fn token_value(amount: u64, price: u64, decimals: u32) -> (r: u128)
    requires
        decimals <= MAX_DECIMALS,
    ensures
        r == value_of(amount as int, price as int, decimals as nat),
{
    let d = pow10_exec(decimals);
    proof {
        lemma_pow10_monotone(0, decimals as nat);
        assert((amount as int) * (price as int) <= (u64::MAX as int) * (u64::MAX as int)) by (nonlinear_arith);
        assert(0 <= (amount as int) * (price as int)) by (nonlinear_arith);
    }
    let p: u128 = (amount as u128) * (price as u128);
    p / d
}

/// `x * ratio / RATIO_ONE` rounded down, or `None` where that does not fit.
pub fn mul_ratio(x: u128, ratio: u64) -> (r: Option<u128>)
    ensures
        scaled(x as int, ratio as int) >= 0,
        r == (if scaled(x as int, ratio as int) <= u128::MAX {
            Some(scaled(x as int, ratio as int) as u128)
        } else {
            None::<u128>
        }),
{
    let one: u128 = RATIO_ONE as u128;
    let q: u128 = x / one;
    let rem: u128 = x % one;
    let ghost xi = x as int;
    let ghost ri = ratio as int;
    proof {
        lemma_fundamental_div_mod(xi, RATIO_ONE as int);
        assert(rem * ri <= (RATIO_ONE as int) * (u64::MAX as int)) by (nonlinear_arith)
            requires rem < RATIO_ONE, 0 <= ri <= u64::MAX;
        assert(0 <= rem * ri) by (nonlinear_arith) requires 0 <= rem, 0 <= ri;
        // x * ratio == (q * ratio) * ONE + rem * ratio
        assert(xi * ri == (q * ri) * (RATIO_ONE as int) + rem * ri) by (nonlinear_arith)
            requires xi == (RATIO_ONE as int) * q + rem;
        lemma_hoist_over_denominator(rem * ri, q * ri, RATIO_ONE as nat);
        assert(0 <= q * ri) by (nonlinear_arith) requires 0 <= q, 0 <= ri;
        lemma_div_is_ordered(0, rem * ri, RATIO_ONE as int);
    }
    let lo: u128 = rem * (ratio as u128) / one;
    match q.checked_mul(ratio as u128) {
        Some(hi) => hi.checked_add(lo),
        None => None,
    }
}

/// Fraction of a pool's supply that is lent out, scaled by `RATIO_ONE`
/// (0 for an empty pool).
pub open spec fn utilization(borrowed: int, supplied: int) -> int {
    if supplied <= 0 {
        0
    } else {
        (borrowed * RATIO_ONE) / supplied
    }
}

/// Yearly borrow rate at utilisation `u` over the base rate `base`, both
/// scaled by `RATIO_ONE`: linear up to the bend, steeper beyond it.
pub open spec fn borrow_rate(base: int, u: int) -> int {
    if u <= OPTIMAL_UTILIZATION {
        base + (u * SLOPE_LOW) / (OPTIMAL_UTILIZATION as int)
    } else {
        base + SLOPE_LOW + (u * SLOPE_HIGH * RATIO_ONE) / ((OPTIMAL_UTILIZATION as int) * (
        RATIO_ONE - OPTIMAL_UTILIZATION))
    }
}

/// The yearly borrow rate of a pool holding `supplied` with `borrowed` lent
/// out, for an asset whose base rate is `base`.
pub fn pool_rate(base: u64, borrowed: u64, supplied: u64) -> (r: u128)
    ensures
        r == borrow_rate(base as int, utilization(borrowed as int, supplied as int)),
{
    let u: u128 = if supplied == 0 {
        0
    } else {
        proof {
            assert((borrowed as int) * (RATIO_ONE as int) <= (u64::MAX as int) * (RATIO_ONE as int))
                by (nonlinear_arith) requires borrowed <= u64::MAX;
            assert(0 <= (borrowed as int) * (RATIO_ONE as int)) by (nonlinear_arith) requires borrowed >= 0;
            lemma_div_is_ordered((borrowed as int) * (RATIO_ONE as int), (u64::MAX as int) * (RATIO_ONE as int), supplied as int);
            lemma_div_is_ordered((u64::MAX as int) * (RATIO_ONE as int), (u64::MAX as int) * (RATIO_ONE as int), 1);
            vstd::arithmetic::div_mod::lemma_div_is_ordered_by_denominator((u64::MAX as int) * (RATIO_ONE as int), 1, supplied as int);
        }
        (borrowed as u128) * (RATIO_ONE as u128) / (supplied as u128)
    };
    assert(u <= (u64::MAX as int) * (RATIO_ONE as int));
    if u <= OPTIMAL_UTILIZATION as u128 {
        proof {
            lemma_div_is_ordered(u * SLOPE_LOW, (OPTIMAL_UTILIZATION as int) * SLOPE_LOW, OPTIMAL_UTILIZATION as int);
        }
        (base as u128) + u * (SLOPE_LOW as u128) / (OPTIMAL_UTILIZATION as u128)
    } else {
        let d: u128 = (OPTIMAL_UTILIZATION as u128) * ((RATIO_ONE - OPTIMAL_UTILIZATION) as u128);
        proof {
            assert(u * SLOPE_HIGH * RATIO_ONE <= (u64::MAX as int) * (RATIO_ONE as int) * SLOPE_HIGH * RATIO_ONE)
                by (nonlinear_arith) requires 0 <= u <= (u64::MAX as int) * (RATIO_ONE as int);
            lemma_div_is_ordered(u * SLOPE_HIGH * RATIO_ONE, (u64::MAX as int) * (RATIO_ONE as int) * SLOPE_HIGH * RATIO_ONE, d as int);
            assert(0 <= u * SLOPE_HIGH * RATIO_ONE) by (nonlinear_arith) requires 0 <= u;
            lemma_div_is_ordered(0, u * SLOPE_HIGH * RATIO_ONE, d as int);
        }
        (base as u128) + (SLOPE_LOW as u128) + u * (SLOPE_HIGH as u128) * (RATIO_ONE as u128) / d
    }
}

/// A debt after one day at the yearly rate `rate`: `amount * (1 + rate / 365)`,
/// rounded down.
pub open spec fn accrued(amount: int, rate: int) -> int {
    amount + (amount * rate) / ((DAYS_PER_YEAR * RATIO_ONE) as int)
}

/// `accrued(amount, rate)`, saturated at the largest amount.
pub open spec fn accrued_capped(amount: int, rate: int) -> int {
    if accrued(amount, rate) <= u64::MAX {
        accrued(amount, rate)
    } else {
        u64::MAX as int
    }
}

pub fn accrue_day(amount: u64, rate: u128) -> (r: u64)
    ensures
        r == accrued_capped(amount as int, rate as int),
{
    let d: u128 = 365_000_000;
    assert(d == DAYS_PER_YEAR * RATIO_ONE);
    let a: u128 = amount as u128;
    match a.checked_mul(rate) {
        Some(p) => {
            let extra: u128 = p / d;
            if extra > (u64::MAX - amount) as u128 {
                u64::MAX
            } else {
                amount + (extra as u64)
            }
        },
        None => {
            proof {
                // the product overflows, so the extra interest exceeds u64::MAX
                assert((amount as int) * (rate as int) > u128::MAX);
                lemma_div_is_ordered(u128::MAX as int, (amount as int) * (rate as int), d as int);
                assert((u128::MAX as int) / 365_000_000 > u64::MAX);
            }
            u64::MAX
        },
    }
}

} // verus!
