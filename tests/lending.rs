use lending::admin::{AssetParameter, PoolConfig};
use lending::liquidation::Liquidation;
use lending::math::{accrue_day, pool_rate, price_from_feed, token_value, RATIO_ONE};
use lending::subaccount::generate_random_subaccount;
use lending::types::{LendError, LendingContract};

const UNIT: u64 = 1_000_000; // one whole token at 6 decimals
const DOLLAR: u64 = 100_000_000; // price of $1 per whole token
const DAY: u64 = 86_400_000_000_000;

fn admin() -> Vec<u8> {
    b"admin".to_vec()
}

fn asset(name: &str, factor: u64) -> AssetParameter {
    AssetParameter {
        name: name.to_string(),
        token_id: name.as_bytes().to_vec(),
        price_id: format!("{name}-feed"),
        decimals: 6,
        collaterals: Some(factor),
        interest_rate: Some(20_000),
    }
}

/// USDC (index 0) and DAI (index 1), both with factor 0.8 and a pool of
/// capacity 1,000,000 tokens; the DAI pool accepts USDC as collateral.
fn market() -> LendingContract {
    let mut c = LendingContract::new(admin(), 0);
    assert_eq!(c.update_contract_assets(&admin(), asset("USDC", 800_000)), Ok(0));
    assert_eq!(c.update_contract_assets(&admin(), asset("DAI", 800_000)), Ok(1));
    let usdc = PoolConfig { name: "usdc".to_string(), token: 0, collateral: vec![1], maximum_token: 1_000_000 * UNIT };
    let dai = PoolConfig { name: "dai".to_string(), token: 1, collateral: vec![0], maximum_token: 1_000_000 * UNIT };
    assert_eq!(c.create_pool(&admin(), usdc), Ok(()));
    assert_eq!(c.create_pool(&admin(), dai), Ok(()));
    c
}

fn supplied(c: &LendingContract, user: &[u8], asset: usize) -> u64 {
    let u = c.find_user(&user.to_vec()).expect("account");
    c.users[u].supplies[asset]
}

fn borrowed(c: &LendingContract, user: &[u8], asset: usize) -> u64 {
    let u = c.find_user(&user.to_vec()).expect("account");
    c.users[u].borrows[asset]
}

fn pool_totals(c: &LendingContract, asset: usize) -> (u64, u64, u64) {
    let p = c.pool[asset].as_ref().expect("pool");
    (p.amount, p.used_amount, p.maximum_token)
}

fn assert_pools_bounded(c: &LendingContract) {
    for p in c.pool.iter().flatten() {
        assert!(p.used_amount <= p.amount && p.amount <= p.maximum_token);
    }
}

fn one_dollar() -> Vec<u64> {
    vec![DOLLAR, DOLLAR]
}

/// Alice supplies 1,000 USDC; Bob supplies 10,000 DAI of liquidity.
fn funded() -> LendingContract {
    let mut c = market();
    assert_eq!(c.supply(&b"alice".to_vec(), 0, 1_000 * UNIT), Ok(()));
    assert_eq!(c.supply(&b"bob".to_vec(), 1, 10_000 * UNIT), Ok(()));
    c
}

#[test]
fn supply_records_pool_and_account() {
    let mut c = market();
    assert_eq!(c.supply(&b"alice".to_vec(), 0, 1_000 * UNIT), Ok(()));
    assert_eq!(pool_totals(&c, 0).0, 1_000 * UNIT);
    assert_eq!(supplied(&c, b"alice", 0), 1_000 * UNIT);
    assert!(c.is_authenticated(&b"alice".to_vec()));
    assert!(!c.is_authenticated(&b"carol".to_vec()));
}

#[test]
fn max_borrow_keeps_a_margin() {
    let mut c = funded();
    let alice = b"alice".to_vec();
    // 0.98 * 0.8 * 1000 = 784 dollars
    assert_eq!(c.max_borrow_amount(&alice, &one_dollar()), Ok(784 * DOLLAR as u128));
    assert_eq!(c.borrow(&alice, 1, 785 * UNIT, &one_dollar()), Err(LendError::BorrowLimitExceeded));
    assert_eq!(borrowed(&c, b"alice", 1), 0);
    assert_eq!(c.borrow(&alice, 1, 784 * UNIT, &one_dollar()), Ok(()));
    assert_eq!(borrowed(&c, b"alice", 1), 784 * UNIT);
    assert_eq!(pool_totals(&c, 1).1, 784 * UNIT);
    assert_pools_bounded(&c);
}

#[test]
fn rate_below_the_bend() {
    // 50% utilisation, base 0.02: 0.02 + (0.5 / 0.7) * 0.02 = 0.034285...
    assert_eq!(pool_rate(20_000, 500, 1_000), 34_285);
    // one day at that rate: 1000 * (1 + 0.034285 / 365)
    assert_eq!(accrue_day(1_000 * UNIT, 34_285), 1_000 * UNIT + 93_931);
}

#[test]
fn accrual_job_compounds_debts() {
    let mut c = market();
    assert_eq!(c.supply(&b"alice".to_vec(), 0, 2_000 * UNIT), Ok(()));
    assert_eq!(c.supply(&b"bob".to_vec(), 1, 2_000 * UNIT), Ok(()));
    assert_eq!(c.borrow(&b"alice".to_vec(), 1, 1_000 * UNIT, &one_dollar()), Ok(()));
    assert_eq!(c.cal_interest(1), 34_285);
    assert_eq!(c.update_interest_amount(&admin(), DAY - 1), Err(LendError::TooEarly));
    assert_eq!(c.update_interest_amount(&admin(), DAY), Ok(()));
    assert_eq!(borrowed(&c, b"alice", 1), 1_000 * UNIT + 93_931);
    assert_eq!(c.last_time, DAY);
    assert_eq!(c.update_interest_amount(&admin(), DAY + 1), Err(LendError::TooEarly));
}

#[test]
fn rate_above_the_bend() {
    // 80% utilisation: 0.02 + 0.02 + (0.8 / 0.7 / 0.3) * 0.4 = 1.563809...
    assert_eq!(pool_rate(20_000, 800, 1_000), 40_000 + 1_523_809);
    assert_eq!(pool_rate(20_000, 0, 0), 20_000);
}

#[test]
fn liquidation_moves_seized_collateral() {
    let mut c = funded();
    let alice = b"alice".to_vec();
    let carol = b"carol".to_vec();
    assert_eq!(c.borrow(&alice, 1, 784 * UNIT, &one_dollar()), Ok(()));
    assert_eq!(c.liquidate1(&carol, &alice, 1, 0, 100 * UNIT, &one_dollar()), Err(LendError::NotLiquidatable));
    // USDC falls to $0.90: weighted collateral 900 * 0.85 = 765 < 784
    let fallen = vec![90 * DOLLAR / 100, DOLLAR];
    assert_eq!(c.cal_health_factor(&alice, &fallen), Ok(Some(975_765)));
    let l = c.liquidate1(&carol, &alice, 1, 0, 100 * UNIT, &fallen);
    // seized = (1000 * 100 / 784) * (0.8 + 0.05 + 0.05)
    assert_eq!(l, Ok(Liquidation { repaid: 100 * UNIT, seized: 114_795_918 }));
    assert_eq!(supplied(&c, b"carol", 0), 114_795_918);
    assert_eq!(supplied(&c, b"alice", 0), 1_000 * UNIT - 114_795_918);
    assert_eq!(supplied(&c, b"alice", 0) + supplied(&c, b"carol", 0), 1_000 * UNIT);
    assert_eq!(borrowed(&c, b"alice", 1), 684 * UNIT);
    assert_eq!(pool_totals(&c, 1).1, 684 * UNIT);
    assert_pools_bounded(&c);
    // back at $1 the borrower is healthy again, and a second attempt fails
    assert_eq!(c.liquidate1(&carol, &alice, 1, 0, 100 * UNIT, &one_dollar()), Err(LendError::NotLiquidatable));
}

#[test]
fn liquidation_clamps_the_payment() {
    let mut c = funded();
    let alice = b"alice".to_vec();
    assert_eq!(c.supply(&alice, 1, 500 * UNIT), Ok(()));
    assert_eq!(c.borrow(&alice, 1, 900 * UNIT, &one_dollar()), Ok(()));
    // USDC worthless: nothing of it can be seized
    let prices = vec![0, DOLLAR];
    assert_eq!(
        c.liquidate1(&b"carol".to_vec(), &alice, 1, 0, 100 * UNIT, &prices),
        Err(LendError::NothingToSeize)
    );
    // USDC at $0.50: collateral 500 + 500 = 1000, weighted 850 < 900 of debt
    let prices = vec![DOLLAR / 2, DOLLAR];
    // the USDC share 500/1000 of a 900 debt caps the payment at 450
    let l = c.liquidate1(&b"carol".to_vec(), &alice, 1, 0, 800 * UNIT, &prices).unwrap();
    assert_eq!(l.repaid, 450 * UNIT);
    // (1000 * 450 / 450) * 0.9
    assert_eq!(l.seized, 900 * UNIT);
}

#[test]
fn supply_then_withdraw_restores_balances() {
    let mut c = funded();
    let alice = b"alice".to_vec();
    let before = supplied(&c, b"alice", 0);
    let pool_before = pool_totals(&c, 0);
    assert_eq!(c.supply(&alice, 0, 500 * UNIT), Ok(()));
    assert_eq!(supplied(&c, b"alice", 0), before + 500 * UNIT);
    assert_eq!(c.withdraw(&alice, 0, 500 * UNIT, &one_dollar()), Ok(()));
    assert_eq!(supplied(&c, b"alice", 0), before);
    assert_eq!(pool_totals(&c, 0), pool_before);
}

#[test]
fn registering_an_asset_twice_fails_without_change() {
    let mut c = market();
    let n = c.assets.len();
    assert_eq!(c.update_contract_assets(&admin(), asset("USDC", 500_000)), Err(LendError::AssetExists));
    assert_eq!(c.assets.len(), n);
    assert_eq!(c.assets[0].collateral_factor, 800_000);
    assert_eq!(c.find_asset(&b"USDC".to_vec()), Some(0));
    assert_eq!(c.find_asset(&b"BTC".to_vec()), None);
}

#[test]
fn borrow_that_would_break_health_is_refused() {
    let mut c = funded();
    let alice = b"alice".to_vec();
    assert_eq!(c.borrow(&alice, 1, 700 * UNIT, &one_dollar()), Ok(()));
    // free power (800 - 700) * 0.98 = 98
    assert_eq!(c.borrow(&alice, 1, 99 * UNIT, &one_dollar()), Err(LendError::BorrowLimitExceeded));
    assert_eq!(c.borrow(&alice, 1, 98 * UNIT, &one_dollar()), Ok(()));
    let hf = c.cal_health_factor(&alice, &one_dollar()).unwrap().unwrap();
    assert!(hf >= RATIO_ONE as u128);
}

#[test]
fn valuations_of_an_account() {
    let c = funded();
    let alice = b"alice".to_vec();
    assert_eq!(c.cal_collateral_value(&alice, &one_dollar()), Ok(1_000 * DOLLAR as u128));
    assert_eq!(c.cal_borrowing_power(&alice, &one_dollar()), Ok(800 * DOLLAR as u128));
    assert_eq!(c.cal_collateral_with_factor(&alice, &one_dollar()), Ok(850 * DOLLAR as u128));
    assert_eq!(c.cal_borrow_value(&alice, &one_dollar()), Ok(0));
    assert_eq!(c.cal_health_factor(&alice, &one_dollar()), Ok(None));
    assert_eq!(c.cal_collateral_value(&b"nobody".to_vec(), &one_dollar()), Err(LendError::UnknownUser));
    assert_eq!(c.cal_collateral_value(&alice, &vec![DOLLAR]), Err(LendError::MissingPrice));
    assert_eq!(token_value(1_500_000, 200_000_000, 6), 300_000_000);
    assert_eq!(c.cal_token_amount(0), 1_000 * UNIT as u128);
}

#[test]
fn repay_reduces_debt_and_pool() {
    let mut c = funded();
    let alice = b"alice".to_vec();
    assert_eq!(c.repay(&alice, 1, 10 * UNIT), Err(LendError::NoDebt));
    assert_eq!(c.borrow(&alice, 1, 500 * UNIT, &one_dollar()), Ok(()));
    assert_eq!(c.repay(&alice, 1, 0), Err(LendError::ZeroAmount));
    assert_eq!(c.repay(&alice, 1, 501 * UNIT), Err(LendError::RepayExceedsDebt));
    assert_eq!(c.repay(&alice, 1, 200 * UNIT), Ok(()));
    assert_eq!(borrowed(&c, b"alice", 1), 300 * UNIT);
    assert_eq!(pool_totals(&c, 1).1, 300 * UNIT);
}

#[test]
fn earnings_are_shared_by_supply() {
    let mut c = market();
    assert_eq!(c.supply(&b"alice".to_vec(), 0, 1_000 * UNIT), Ok(()));
    assert_eq!(c.supply(&b"bob".to_vec(), 0, 3_000 * UNIT), Ok(()));
    // rate 0.02 * (1 - 0.05 - 0.1) = 0.017 of 1,000,000 units = 17,000
    c.distribute_earnings(0, 1_000_000);
    assert_eq!(supplied(&c, b"alice", 0), 1_000 * UNIT + 4_250);
    assert_eq!(supplied(&c, b"bob", 0), 3_000 * UNIT + 12_750);
}

#[test]
fn supply_errors() {
    let mut c = market();
    let alice = b"alice".to_vec();
    assert_eq!(c.supply(&alice, 0, 0), Err(LendError::ZeroAmount));
    assert_eq!(c.supply(&alice, 5, 10), Err(LendError::UnknownPool));
    assert_eq!(c.supply(&alice, 0, 1_000_001 * UNIT), Err(LendError::CapacityExceeded));
    assert_eq!(c.supply(&alice, 0, 1_000_000 * UNIT), Ok(()));
    assert_eq!(c.supply(&alice, 0, 1), Err(LendError::CapacityExceeded));
}

#[test]
fn borrow_errors() {
    let mut c = funded();
    let alice = b"alice".to_vec();
    let bob = b"bob".to_vec();
    assert_eq!(c.borrow(&alice, 1, 0, &one_dollar()), Err(LendError::ZeroAmount));
    assert_eq!(c.borrow(&alice, 9, 1, &one_dollar()), Err(LendError::UnknownPool));
    assert_eq!(c.borrow(&alice, 1, 1, &vec![DOLLAR]), Err(LendError::MissingPrice));
    // Bob's DAI is not accepted by the DAI pool
    assert_eq!(c.borrow(&bob, 1, 1, &one_dollar()), Err(LendError::NoCollateral));
    // the USDC pool holds 1,000; Bob borrows against DAI more than it holds
    assert_eq!(c.borrow(&bob, 0, 1_001 * UNIT, &one_dollar()), Err(LendError::InsufficientLiquidity));
}

#[test]
fn withdraw_errors() {
    let mut c = funded();
    let alice = b"alice".to_vec();
    assert_eq!(c.withdraw(&alice, 0, 0, &one_dollar()), Err(LendError::ZeroAmount));
    assert_eq!(c.withdraw(&alice, 7, 1, &one_dollar()), Err(LendError::UnknownPool));
    assert_eq!(c.withdraw(&b"carol".to_vec(), 0, 1, &one_dollar()), Err(LendError::NoSupply));
    assert_eq!(c.withdraw(&alice, 0, 1, &vec![]), Err(LendError::MissingPrice));
    assert_eq!(c.withdraw(&alice, 0, 1_001 * UNIT, &one_dollar()), Err(LendError::WithdrawLimitExceeded));
    assert_eq!(c.borrow(&alice, 1, 400 * UNIT, &one_dollar()), Ok(()));
    // 400 of debt locks 400 / 0.8 = 500 of the 1,000 supplied
    assert_eq!(c.withdraw(&alice, 0, 501 * UNIT, &one_dollar()), Err(LendError::WithdrawLimitExceeded));
    assert_eq!(c.withdraw(&alice, 0, 500 * UNIT, &one_dollar()), Ok(()));
    // Bob's DAI pool lent out 400 of 10,000; the reserve keeps 5% of 10,000
    assert_eq!(c.withdraw(&b"bob".to_vec(), 1, 9_101 * UNIT, &one_dollar()), Err(LendError::ReserveRequired));
    assert_eq!(c.withdraw(&b"bob".to_vec(), 1, 9_100 * UNIT, &one_dollar()), Ok(()));
}

#[test]
fn liquidation_errors() {
    let mut c = funded();
    let alice = b"alice".to_vec();
    let carol = b"carol".to_vec();
    assert_eq!(c.liquidate1(&alice, &alice, 1, 0, 1, &one_dollar()), Err(LendError::SelfLiquidation));
    assert_eq!(c.liquidate1(&carol, &b"zed".to_vec(), 1, 0, 1, &one_dollar()), Err(LendError::UnknownUser));
    assert_eq!(c.liquidate1(&carol, &alice, 4, 0, 1, &one_dollar()), Err(LendError::UnknownAsset));
    assert_eq!(c.liquidate1(&carol, &alice, 1, 0, 0, &one_dollar()), Err(LendError::ZeroAmount));
    assert_eq!(c.liquidate1(&carol, &alice, 1, 0, 1, &one_dollar()), Err(LendError::NoDebt));
    assert_eq!(c.borrow(&alice, 1, 784 * UNIT, &one_dollar()), Ok(()));
    assert_eq!(c.liquidate1(&carol, &alice, 1, 1, 1, &one_dollar()), Err(LendError::NoSupply));
    assert_eq!(c.liquidate1(&carol, &alice, 1, 0, 1, &vec![DOLLAR]), Err(LendError::MissingPrice));
    let fallen = vec![DOLLAR / 2, DOLLAR];
    assert_eq!(c.liquidate1(&carol, &alice, 1, 0, 785 * UNIT, &fallen), Err(LendError::RepayExceedsDebt));
}

#[test]
fn admin_errors_and_edits() {
    let mut c = market();
    let eve = b"eve".to_vec();
    assert_eq!(c.update_contract_assets(&eve, asset("BTC", 1)), Err(LendError::NotAdmin));
    assert_eq!(c.update_contract_assets(&admin(), asset("BTC", RATIO_ONE + 1)), Err(LendError::InvalidParameter));
    let deep = AssetParameter { decimals: 39, ..asset("ETH", 1) };
    assert_eq!(c.update_contract_assets(&admin(), deep), Err(LendError::InvalidParameter));
    assert_eq!(c.edit_contract_assets(&admin(), 9, None, None, None), Err(LendError::UnknownAsset));
    assert_eq!(c.edit_contract_assets(&admin(), 0, Some("usd".to_string()), Some(700_000), None), Ok(()));
    assert_eq!(c.assets[0].name, "usd");
    assert_eq!(c.assets[0].collateral_factor, 700_000);
    assert_eq!(c.assets[0].interest_rate, 20_000);
    let again = PoolConfig { name: "x".to_string(), token: 0, collateral: vec![], maximum_token: 1 };
    assert_eq!(c.create_pool(&admin(), again), Err(LendError::PoolExists));
    assert_eq!(c.update_contract_assets(&admin(), asset("BTC", 1)), Ok(2));
    let bad = PoolConfig { name: "btc".to_string(), token: 2, collateral: vec![7], maximum_token: 1 };
    assert_eq!(c.create_pool(&admin(), bad), Err(LendError::UnknownAsset));
    assert_eq!(c.update_pool_collateral(&admin(), 1, 0), Err(LendError::CollateralExists));
    assert_eq!(c.update_pool_collateral(&admin(), 2, 0), Err(LendError::UnknownPool));
    assert_eq!(c.update_pool_collateral(&admin(), 1, 2), Ok(()));
    assert_eq!(c.pool[1].as_ref().unwrap().collateral, vec![0, 2]);
    assert_eq!(c.remove_pool_collateral(&admin(), 1, 0), Ok(()));
    assert_eq!(c.pool[1].as_ref().unwrap().collateral, vec![2]);
    assert_eq!(c.remove_pool_collateral(&admin(), 1, 0), Err(LendError::CollateralAbsent));
    assert_eq!(c.edit_contract_liquidation(&admin(), RATIO_ONE + 1), Err(LendError::InvalidParameter));
    assert_eq!(c.edit_contract_liquidation(&admin(), 100_000), Ok(()));
    assert_eq!(c.get_liquidation_threshold(), 100_000);
    assert_eq!(c.get_token_decimals(1), Some(6));
    assert_eq!(c.cal_earning(1), Some(20_000));
}

#[test]
fn capacity_rules() {
    let mut c = funded();
    assert_eq!(c.increase_maximum_token(&admin(), 0, 1_000_000 * UNIT), Err(LendError::InvalidCapacity));
    assert_eq!(c.increase_maximum_token(&admin(), 0, 2_000_000 * UNIT), Ok(()));
    assert_eq!(pool_totals(&c, 0).2, 2_000_000 * UNIT);
    // 1,000 is supplied: the capacity may not fall below it
    assert_eq!(c.decrease_maximum_token(&admin(), 0, 999 * UNIT), Err(LendError::InvalidCapacity));
    assert_eq!(c.decrease_maximum_token(&admin(), 0, 1_000 * UNIT), Ok(()));
    assert_eq!(c.supply(&b"alice".to_vec(), 0, 1), Err(LendError::CapacityExceeded));
    // keeping the capacity, or even setting a larger one, stays at or above the supply
    assert_eq!(c.decrease_maximum_token(&admin(), 0, 1_000 * UNIT), Ok(()));
    assert_eq!(c.decrease_maximum_token(&admin(), 0, 1_500 * UNIT), Ok(()));
    assert_eq!(pool_totals(&c, 0).2, 1_500 * UNIT);
    assert_eq!(c.increase_maximum_token(&b"eve".to_vec(), 0, 1), Err(LendError::NotAdmin));
    assert_eq!(c.decrease_maximum_token(&admin(), 5, 1), Err(LendError::UnknownPool));
}

#[test]
fn admin_handover_and_users() {
    let mut c = market();
    assert_eq!(c.set_admin(&b"eve".to_vec(), b"eve".to_vec()), Err(LendError::NotAdmin));
    assert_eq!(c.set_admin(&admin(), b"new".to_vec()), Ok(()));
    assert_eq!(c.get_admin(), b"new".to_vec());
    assert_eq!(c.update_interest_amount(&admin(), DAY), Err(LendError::NotAdmin));
    assert_eq!(c.register_user(&b"dan".to_vec()), Ok(()));
    assert!(c.is_authenticated(&b"dan".to_vec()));
    assert_eq!(c.register_user(&b"dan".to_vec()), Err(LendError::UserExists));
}

#[test]
fn subaccount_is_the_digest_of_the_seed() {
    let caller = b"aaaaa-aa".to_vec();
    let now: u64 = 1_700_000_000_123_456_789;
    let mut seed = caller.clone();
    seed.extend_from_slice(&now.to_be_bytes());
    seed.extend_from_slice(&(now % 1_000_000).to_be_bytes());
    let expected = <sha2::Sha256 as sha2::Digest>::digest(&seed).to_vec();
    let sub = generate_random_subaccount(&caller, now);
    assert_eq!(sub.len(), 32);
    assert_eq!(sub, expected);
    assert_ne!(sub, seed);
    assert_ne!(generate_random_subaccount(&caller, now + 1), sub);
}

#[test]
fn feed_quotes_become_prices() {
    // $0.12345678 and $5, at eight decimals
    assert_eq!(price_from_feed(12_345_678, -8), Some(12_345_678));
    assert_eq!(price_from_feed(5, 0), Some(5 * DOLLAR));
    assert_eq!(price_from_feed(6_512_345_678_901, -10), Some(65_123_456_789));
    assert_eq!(price_from_feed(1_000, -12), Some(0));
    assert_eq!(price_from_feed(-1, -8), None);
    assert_eq!(price_from_feed(1, 30), None);
    assert_eq!(price_from_feed(0, 40), Some(0));
    assert_eq!(price_from_feed(7, -60), Some(0));
}

#[test]
fn defaults_are_empty() {
    let a = lending::types::AssetConfig::default();
    assert!(a.name.is_empty() && a.token_id.is_empty() && a.decimals == 0 && a.collateral_factor == 0);
    let p = lending::types::Pool::default();
    assert_eq!((p.amount, p.used_amount, p.maximum_token), (0, 0, 0));
    assert!(p.collateral.is_empty());
}

#[test]
fn earnings_that_overflow_are_refused() {
    let mut c = LendingContract::new(admin(), 0);
    assert_eq!(c.update_contract_assets(&admin(), asset("USDC", 800_000)), Ok(0));
    let pool = PoolConfig { name: "usdc".to_string(), token: 0, collateral: vec![], maximum_token: u64::MAX };
    assert_eq!(c.create_pool(&admin(), pool), Ok(()));
    assert_eq!(c.supply(&b"alice".to_vec(), 0, u64::MAX / 2), Ok(()));
    assert_eq!(c.distribute_earnings(0, u64::MAX), Err(LendError::Overflow));
    assert_eq!(supplied(&c, b"alice", 0), u64::MAX / 2);
    assert_eq!(c.distribute_earnings(0, 0), Ok(()));
    assert_eq!(supplied(&c, b"alice", 0), u64::MAX / 2);
}

#[test]
fn cancelled_borrow_restores_the_ledger() {
    let mut c = funded();
    let alice = b"alice".to_vec();
    assert_eq!(c.borrow(&alice, 1, 300 * UNIT, &one_dollar()), Ok(()));
    assert_eq!(c.cancel_borrow(&alice, 1, 301 * UNIT), Err(LendError::RepayExceedsDebt));
    assert_eq!(c.cancel_borrow(&alice, 1, 300 * UNIT), Ok(()));
    assert_eq!(borrowed(&c, b"alice", 1), 0);
    assert_eq!(pool_totals(&c, 1).1, 0);
    assert_eq!(supplied(&c, b"bob", 1), 10_000 * UNIT);
}

#[test]
fn accepted_collateral_follows_pool_order() {
    let mut c = market();
    let alice = b"alice".to_vec();
    assert_eq!(c.update_contract_assets(&admin(), asset("BTC", 700_000)), Ok(2));
    let btc = PoolConfig { name: "btc".to_string(), token: 2, collateral: vec![], maximum_token: 1_000 * UNIT };
    assert_eq!(c.create_pool(&admin(), btc), Ok(()));
    assert_eq!(c.update_pool_collateral(&admin(), 1, 2), Ok(()));
    assert_eq!(c.supply(&alice, 2, 5 * UNIT), Ok(()));
    assert_eq!(c.check_user_collateral(&alice, 1), vec![2]);
    assert_eq!(c.supply(&alice, 0, 5 * UNIT), Ok(()));
    assert_eq!(c.check_user_collateral(&alice, 1), vec![0, 2]);
}
