//! Operations reserved to the administrator: the asset registry, pool
//! configuration and protocol parameters.
use crate::ledger::{balance_seq, Balance};
use crate::math::{MAX_DECIMALS, RATIO_ONE};
use crate::types::{same_config, account_wf, asset_wf, pool_wf, same_bytes, AssetConfig, LendError, LendingContract, Pool};
use vstd::prelude::*;

verus! {

/// The parameters of an asset to register. A missing collateral factor or
/// interest rate counts as 0.
#[derive(Clone, Debug)]
pub struct AssetParameter {
    pub name: String,
    pub token_id: Vec<u8>,
    pub price_id: String,
    pub decimals: u32,
    pub collaterals: Option<u64>,
    pub interest_rate: Option<u64>,
}

/// The parameters of a pool to create for the asset at `token`.
#[derive(Clone, Debug)]
pub struct PoolConfig {
    pub name: String,
    pub token: usize,
    pub collateral: Vec<usize>,
    pub maximum_token: u64,
}

pub open spec fn or_zero(x: Option<u64>) -> u64 {
    match x {
        Some(v) => v,
        None => 0,
    }
}

/// Whether every entry of `v` is below `n`.
pub fn all_below(v: &Vec<usize>, n: usize) -> (r: bool)
    ensures
        r == forall|i: int| 0 <= i < v.len() ==> #[trigger] v[i] < n,
{
    let mut i: usize = 0;
    while i < v.len()
        invariant
            i <= v.len(),
            forall|j: int| 0 <= j < i ==> #[trigger] v[j] < n,
        decreases v.len() - i,
    {
        if v[i] >= n {
            return false;
        }
        i = i + 1;
    }
    true
}

/// Whether `v` holds `x`.
pub fn contains_index(v: &Vec<usize>, x: usize) -> (r: bool)
    ensures
        r == v@.contains(x),
{
    let mut i: usize = 0;
    while i < v.len()
        invariant
            i <= v.len(),
            forall|j: int| 0 <= j < i ==> #[trigger] v[j] != x,
        decreases v.len() - i,
    {
        if v[i] == x {
            proof {
                assert(v@[i as int] == x);
            }
            return true;
        }
        i = i + 1;
    }
    false
}

/// `v` without any `x`, in the same order.
pub fn without(v: &Vec<usize>, x: usize) -> (r: Vec<usize>)
    ensures
        r@ == v@.filter(|y: usize| y != x),
        forall|y: usize| #[trigger] r@.contains(y) <==> v@.contains(y) && y != x,
{
    let mut kept: Vec<usize> = Vec::new();
    let mut i: usize = 0;
    while i < v.len()
        invariant
            i <= v.len(),
            forall|y: usize| #[trigger] kept@.contains(y) <==> v@.take(i as int).contains(y) && y != x,
            kept@ == v@.take(i as int).filter(|y: usize| y != x),
        decreases v.len() - i,
    {
        let y = v[i];
        let ghost t0 = v@.take(i as int);
        let ghost t1 = v@.take(i + 1);
        proof {
            assert(t1 =~= t0.push(y));
            reveal(Seq::filter);
            assert(t1.drop_last() =~= t0);
        }
        if y != x {
            let ghost k0 = kept@;
            kept.push(y);
            proof {
                assert(t1[t0.len() as int] == y);
                assert(kept@[kept.len() - 1] == y);
                assert forall|z: usize| #[trigger] kept@.contains(z) <==> t1.contains(z) && z != x by {
                    if kept@.contains(z) && z != y {
                        let k = choose|k: int| 0 <= k < kept.len() && kept@[k] == z;
                        assert(k0[k] == z);
                    }
                    if k0.contains(z) {
                        let k = choose|k: int| 0 <= k < k0.len() && k0[k] == z;
                        assert(kept@[k] == z);
                    }
                    if t1.contains(z) && z != x && z != y {
                        let k = choose|k: int| 0 <= k < t1.len() && t1[k] == z;
                        assert(t0[k] == z);
                    }
                    if t0.contains(z) {
                        let k = choose|k: int| 0 <= k < t0.len() && t0[k] == z;
                        assert(t1[k] == z);
                    }
                    assert(kept@[kept.len() - 1] == y);
                }
            }
        } else {
            proof {
                assert forall|z: usize| #[trigger] kept@.contains(z) <==> t1.contains(z) && z != x by {
                    if t1.contains(z) && z != x {
                        let k = choose|k: int| 0 <= k < t1.len() && t1[k] == z;
                        assert(t0[k] == z);
                    }
                    if t0.contains(z) {
                        let k = choose|k: int| 0 <= k < t0.len() && t0[k] == z;
                        assert(t1[k] == z);
                    }
                }
            }
        }
        i = i + 1;
    }
    proof {
        assert(v@.take(i as int) =~= v@);
    }
    kept
}

impl LendingContract {
    pub open spec fn has_token(&self, token_id: Seq<u8>) -> bool {
        exists|i: int| 0 <= i < self.assets.len() && #[trigger] self.assets[i].token_id@ == token_id
    }

    pub open spec fn register_check(&self, caller: Seq<u8>, token_id: Seq<u8>, decimals: int, factor: int, rate: int) -> Result<usize, LendError> {
        if !self.is_admin(caller) {
            Err(LendError::NotAdmin)
        } else if self.has_token(token_id) {
            Err(LendError::AssetExists)
        } else if decimals > MAX_DECIMALS || factor > RATIO_ONE || rate > RATIO_ONE {
            Err(LendError::InvalidParameter)
        } else if self.assets.len() >= usize::MAX {
            Err(LendError::Overflow)
        } else {
            Ok(self.assets.len() as usize)
        }
    }

    /// Register a new asset, without a pool; it gets the next index.
    pub fn update_contract_assets(&mut self, caller: &Vec<u8>, config: AssetParameter) -> (r: Result<usize, LendError>)
        requires
            old(self).wf(),
        ensures
            final(self).wf(),
            r == old(self).register_check(caller@, config.token_id@, config.decimals as int, or_zero(config.collaterals) as int, or_zero(config.interest_rate) as int),
            r is Err ==> *final(self) == *old(self),
            r is Ok ==> {
                &&& same_config(*old(self), *final(self))
                &&& final(self).assets@ == old(self).assets@.push(AssetConfig {
                    name: config.name,
                    token_id: config.token_id,
                    price_id: config.price_id,
                    decimals: config.decimals,
                    collateral_factor: or_zero(config.collaterals),
                    interest_rate: or_zero(config.interest_rate),
                })
                &&& final(self).pool@ == old(self).pool@.push(None)
                &&& final(self).users.len() == old(self).users.len()
                &&& forall|k: Balance, id: Seq<u8>, b: int| 0 <= b < old(self).assets.len() ==>
                    #[trigger] final(self).balance(k, id, b) == old(self).balance(k, id, b)
                &&& forall|k: Balance, id: Seq<u8>| #[trigger] final(self).balance(k, id, old(self).assets.len() as int) == 0
            },
    {
        if !same_bytes(&self.admin, caller) {
            return Err(LendError::NotAdmin);
        }
        match self.find_asset(&config.token_id) {
            Some(_) => {
                return Err(LendError::AssetExists);
            },
            None => {},
        }
        let factor = match config.collaterals {
            Some(v) => v,
            None => 0,
        };
        let rate = match config.interest_rate {
            Some(v) => v,
            None => 0,
        };
        if config.decimals > MAX_DECIMALS || factor > RATIO_ONE || rate > RATIO_ONE {
            return Err(LendError::InvalidParameter);
        }
        if self.assets.len() >= usize::MAX {
            return Err(LendError::Overflow);
        }
        let ghost s0 = *self;
        let index = self.assets.len();
        let mut i: usize = 0;
        while i < self.users.len()
            invariant
                s0.wf(),
                self.assets == s0.assets,
                self.pool == s0.pool,
                self.admin == s0.admin,
                self.liquidate_earnings == s0.liquidate_earnings,
                self.liquidation_threshold == s0.liquidation_threshold,
                self.safety_vault_percentage == s0.safety_vault_percentage,
                self.owner_earnings == s0.owner_earnings,
                self.last_time == s0.last_time,
                self.users.len() == s0.users.len(),
                i <= self.users.len(),
                forall|j: int| 0 <= j < self.users.len() ==> (#[trigger] self.users[j]).owner == s0.users[j].owner,
                forall|j: int, k: Balance| 0 <= j < self.users.len() ==> #[trigger] balance_seq(self.users[j], k) == if j < i {
                    balance_seq(s0.users[j], k).push(0)
                } else {
                    balance_seq(s0.users[j], k)
                },
            decreases self.users.len() - i,
        {
            let ghost prev = *self;
            proof {
                let a = balance_seq(prev.users[i as int], Balance::Supplied);
                let b = balance_seq(prev.users[i as int], Balance::Borrowed);
                let c = balance_seq(prev.users[i as int], Balance::Interest);
            }
            self.users[i].supplies.push(0);
            self.users[i].borrows.push(0);
            self.users[i].interest.push(0);
            proof {
                assert forall|j: int, k: Balance| 0 <= j < self.users.len() implies #[trigger] balance_seq(self.users[j], k) == if j < i + 1 {
                    balance_seq(s0.users[j], k).push(0)
                } else {
                    balance_seq(s0.users[j], k)
                } by {
                    let p = balance_seq(prev.users[j], k);
                    if j != i {
                        assert(self.users[j] == prev.users[j]);
                    }
                }
            }
            i = i + 1;
        }
        let asset = AssetConfig {
            name: config.name,
            token_id: config.token_id,
            price_id: config.price_id,
            decimals: config.decimals,
            collateral_factor: factor,
            interest_rate: rate,
        };
        self.assets.push(asset);
        self.pool.push(None);
        proof {
            let n = self.assets.len();
            assert forall|j: int| 0 <= j < self.users.len() implies account_wf(#[trigger] self.users[j], n as nat) by {
                assert(account_wf(s0.users[j], s0.assets.len() as nat));
                let x = balance_seq(self.users[j], Balance::Supplied);
                let y = balance_seq(self.users[j], Balance::Borrowed);
                let z = balance_seq(self.users[j], Balance::Interest);
            }
            assert forall|a: int| 0 <= a < n implies asset_wf(#[trigger] self.assets[a]) by {
                if a < n - 1 {
                    assert(self.assets[a] == s0.assets[a]);
                }
            }
            assert forall|x: int, y: int|
                #![trigger self.assets[x], self.assets[y]]
                0 <= x < n && 0 <= y < n && x != y implies self.assets[x].token_id@ != self.assets[y].token_id@ by {
                if x < n - 1 && y < n - 1 {
                    assert(s0.assets[x].token_id@ != s0.assets[y].token_id@);
                } else if x < n - 1 {
                    assert(s0.assets[x].token_id@ != config.token_id@);
                } else {
                    assert(s0.assets[y].token_id@ != config.token_id@);
                }
            }
            assert forall|a: int| 0 <= a < self.pool.len() && (#[trigger] self.pool[a]).is_some() implies pool_wf(self.pool[a].unwrap(), n as nat) by {
                assert(self.pool[a] == s0.pool[a]);
                assert(pool_wf(s0.pool[a].unwrap(), s0.assets.len() as nat));
            }
            assert forall|x: int, y: int|
                #![trigger self.users[x], self.users[y]]
                0 <= x < self.users.len() && 0 <= y < self.users.len() && x != y implies self.users[x].owner@ != self.users[y].owner@ by {
                assert(s0.users[x].owner@ != s0.users[y].owner@);
            }
            assert(self.wf());
            assert(crate::ledger::same_owners(s0, *self));
            assert forall|k: Balance, id: Seq<u8>, b: int| 0 <= b < s0.assets.len() implies
                #[trigger] self.balance(k, id, b) == s0.balance(k, id, b) by {
                LendingContract::lemma_same_owners(&s0, self, id);
                if s0.has_user(id) {
                    let j = s0.user_index(id);
                    let x = balance_seq(self.users[j], k);
                }
            }
            assert forall|k: Balance, id: Seq<u8>| #[trigger] self.balance(k, id, s0.assets.len() as int) == 0 by {
                LendingContract::lemma_same_owners(&s0, self, id);
                if s0.has_user(id) {
                    let j = s0.user_index(id);
                    let x = balance_seq(self.users[j], k);
                    assert(account_wf(s0.users[j], s0.assets.len() as nat));
                }
            }
        }
        Ok(index)
    }

    pub open spec fn edit_asset_check(&self, caller: Seq<u8>, a: int, factor: Option<u64>, rate: Option<u64>) -> Result<(), LendError> {
        if !self.is_admin(caller) {
            Err(LendError::NotAdmin)
        } else if a >= self.assets.len() {
            Err(LendError::UnknownAsset)
        } else if factor matches Some(f) && f > RATIO_ONE {
            Err(LendError::InvalidParameter)
        } else if rate matches Some(x) && x > RATIO_ONE {
            Err(LendError::InvalidParameter)
        } else {
            Ok(())
        }
    }

    /// Change the name, collateral factor or interest rate of an asset; a
    /// `None` leaves that field as it is.
    pub fn edit_contract_assets(
        &mut self,
        caller: &Vec<u8>,
        asset: usize,
        name: Option<String>,
        collaterals_factor: Option<u64>,
        interest_rate: Option<u64>,
    ) -> (r: Result<(), LendError>)
        requires
            old(self).wf(),
        ensures
            final(self).wf(),
            r == old(self).edit_asset_check(caller@, asset as int, collaterals_factor, interest_rate),
            r is Err ==> *final(self) == *old(self),
            r is Ok ==> {
                let c = old(self).assets[asset as int];
                &&& same_config(*old(self), *final(self))
                &&& final(self).assets@ == old(self).assets@.update(asset as int, AssetConfig {
                    name: match name { Some(n) => n, None => c.name },
                    collateral_factor: match collaterals_factor { Some(f) => f, None => c.collateral_factor },
                    interest_rate: match interest_rate { Some(x) => x, None => c.interest_rate },
                    ..c
                })
                &&& final(self).users == old(self).users
                &&& final(self).pool == old(self).pool
            },
    {
        if !same_bytes(&self.admin, caller) {
            return Err(LendError::NotAdmin);
        }
        if asset >= self.assets.len() {
            return Err(LendError::UnknownAsset);
        }
        match collaterals_factor {
            Some(f) => if f > RATIO_ONE {
                return Err(LendError::InvalidParameter);
            },
            None => {},
        }
        match interest_rate {
            Some(x) => if x > RATIO_ONE {
                return Err(LendError::InvalidParameter);
            },
            None => {},
        }
        let ghost s0 = *self;
        match name {
            Some(n) => {
                self.assets[asset].name = n;
            },
            None => {},
        }
        match collaterals_factor {
            Some(f) => {
                self.assets[asset].collateral_factor = f;
            },
            None => {},
        }
        match interest_rate {
            Some(x) => {
                self.assets[asset].interest_rate = x;
            },
            None => {},
        }
        proof {
            let n = self.assets.len();
            assert forall|a: int| 0 <= a < n implies asset_wf(#[trigger] self.assets[a]) by {
                if a != asset {
                    assert(self.assets[a] == s0.assets[a]);
                }
            }
            assert forall|x: int, y: int|
                #![trigger self.assets[x], self.assets[y]]
                0 <= x < n && 0 <= y < n && x != y implies self.assets[x].token_id@ != self.assets[y].token_id@ by {
                assert(s0.assets[x].token_id@ != s0.assets[y].token_id@);
            }
        }
        Ok(())
    }

    /// Take the pool of `a` out of the ledger, leaving none there.
    fn take_pool(&mut self, a: usize) -> (p: Pool)
        requires
            old(self).wf(),
            old(self).has_pool(a as int),
        ensures
            final(self).wf(),
            p == old(self).pool_of(a as int),
            pool_wf(p, old(self).assets.len() as nat),
            final(self).pool@ == old(self).pool@.update(a as int, None),
            final(self).assets == old(self).assets,
            final(self).users == old(self).users,
            final(self).admin == old(self).admin,
            final(self).liquidate_earnings == old(self).liquidate_earnings,
            final(self).liquidation_threshold == old(self).liquidation_threshold,
            final(self).safety_vault_percentage == old(self).safety_vault_percentage,
            final(self).owner_earnings == old(self).owner_earnings,
            final(self).last_time == old(self).last_time,
    {
        proof {
            assert(pool_wf(self.pool_of(a as int), self.assets.len() as nat));
        }
        let ghost s0 = *self;
        let mut slot: Option<Pool> = None;
        std::mem::swap(&mut self.pool[a], &mut slot);
        proof {
            assert(self.pool@ =~= s0.pool@.update(a as int, None));
            assert forall|b: int| 0 <= b < self.pool.len() && (#[trigger] self.pool[b]).is_some() implies pool_wf(self.pool[b].unwrap(), self.assets.len() as nat) by {
                assert(self.pool[b] == s0.pool[b]);
            }
        }
        match slot {
            Some(p) => p,
            None => Pool { name: String::new(), collateral: Vec::new(), amount: 0, used_amount: 0, maximum_token: 0 },
        }
    }

    /// Make `p` the pool of asset `a`.
    fn put_pool(&mut self, a: usize, p: Pool)
        requires
            old(self).wf(),
            a < old(self).pool.len(),
            pool_wf(p, old(self).assets.len() as nat),
        ensures
            final(self).wf(),
            final(self).pool@ == old(self).pool@.update(a as int, Some(p)),
            final(self).assets == old(self).assets,
            final(self).users == old(self).users,
            final(self).admin == old(self).admin,
            final(self).liquidate_earnings == old(self).liquidate_earnings,
            final(self).liquidation_threshold == old(self).liquidation_threshold,
            final(self).safety_vault_percentage == old(self).safety_vault_percentage,
            final(self).owner_earnings == old(self).owner_earnings,
            final(self).last_time == old(self).last_time,
    {
        let ghost s0 = *self;
        self.pool.set(a, Some(p));
        proof {
            assert forall|b: int| 0 <= b < self.pool.len() && (#[trigger] self.pool[b]).is_some() implies pool_wf(self.pool[b].unwrap(), self.assets.len() as nat) by {
                if b != a {
                    assert(self.pool[b] == s0.pool[b]);
                }
            }
        }
    }

    pub open spec fn create_pool_check(&self, caller: Seq<u8>, token: int, collateral: Seq<usize>) -> Result<(), LendError> {
        if !self.is_admin(caller) {
            Err(LendError::NotAdmin)
        } else if token >= self.assets.len() {
            Err(LendError::UnknownAsset)
        } else if self.has_pool(token) {
            Err(LendError::PoolExists)
        } else if exists|i: int| 0 <= i < collateral.len() && #[trigger] collateral[i] >= self.assets.len() {
            Err(LendError::UnknownAsset)
        } else {
            Ok(())
        }
    }

    /// Open the pool of a registered asset, empty, with the given capacity
    /// and accepted collateral.
    pub fn create_pool(&mut self, caller: &Vec<u8>, pool_config: PoolConfig) -> (r: Result<(), LendError>)
        requires
            old(self).wf(),
        ensures
            final(self).wf(),
            r == old(self).create_pool_check(caller@, pool_config.token as int, pool_config.collateral@),
            r is Err ==> *final(self) == *old(self),
            r is Ok ==> {
                &&& same_config(*old(self), *final(self))
                &&& final(self).pool@ == old(self).pool@.update(pool_config.token as int, Some(Pool {
                    name: pool_config.name,
                    collateral: pool_config.collateral,
                    amount: 0,
                    used_amount: 0,
                    maximum_token: pool_config.maximum_token,
                }))
                &&& final(self).assets == old(self).assets
                &&& final(self).users == old(self).users
            },
    {
        if !same_bytes(&self.admin, caller) {
            return Err(LendError::NotAdmin);
        }
        let token = pool_config.token;
        if token >= self.assets.len() {
            return Err(LendError::UnknownAsset);
        }
        if self.pool[token].is_some() {
            return Err(LendError::PoolExists);
        }
        if !all_below(&pool_config.collateral, self.assets.len()) {
            return Err(LendError::UnknownAsset);
        }
        let p = Pool {
            name: pool_config.name,
            collateral: pool_config.collateral,
            amount: 0,
            used_amount: 0,
            maximum_token: pool_config.maximum_token,
        };
        self.put_pool(token, p);
        Ok(())
    }

    pub open spec fn collateral_check(&self, caller: Seq<u8>, a: int, c: int, adding: bool) -> Result<(), LendError> {
        if !self.is_admin(caller) {
            Err(LendError::NotAdmin)
        } else if a >= self.assets.len() || c >= self.assets.len() {
            Err(LendError::UnknownAsset)
        } else if !self.has_pool(a) {
            Err(LendError::UnknownPool)
        } else if adding && self.pool_of(a).collateral@.contains(c as usize) {
            Err(LendError::CollateralExists)
        } else if !adding && !self.pool_of(a).collateral@.contains(c as usize) {
            Err(LendError::CollateralAbsent)
        } else {
            Ok(())
        }
    }

    /// Let the pool of `asset` accept `collateral` as collateral.
    pub fn update_pool_collateral(&mut self, caller: &Vec<u8>, asset: usize, collateral: usize) -> (r: Result<(), LendError>)
        requires
            old(self).wf(),
        ensures
            final(self).wf(),
            r == old(self).collateral_check(caller@, asset as int, collateral as int, true),
            r is Err ==> *final(self) == *old(self),
            r is Ok ==> {
                &&& same_config(*old(self), *final(self))
                &&& final(self).pool@ == old(self).pool@.update(asset as int, Some(Pool {
                    collateral: final(self).pool_of(asset as int).collateral,
                    ..old(self).pool_of(asset as int)
                }))
                &&& final(self).pool_of(asset as int).collateral@ == old(self).pool_of(asset as int).collateral@.push(collateral)
                &&& final(self).assets == old(self).assets
                &&& final(self).users == old(self).users
            },
    {
        if !same_bytes(&self.admin, caller) {
            return Err(LendError::NotAdmin);
        }
        if asset >= self.assets.len() || collateral >= self.assets.len() {
            return Err(LendError::UnknownAsset);
        }
        if self.pool[asset].is_none() {
            return Err(LendError::UnknownPool);
        }
        let present = match &self.pool[asset] {
            Some(p) => contains_index(&p.collateral, collateral),
            None => false,
        };
        if present {
            return Err(LendError::CollateralExists);
        }
        let mut p = self.take_pool(asset);
        p.collateral.push(collateral);
        proof {
            assert forall|j: int| 0 <= j < p.collateral.len() implies #[trigger] p.collateral[j] < self.assets.len() by {
                if j < p.collateral.len() - 1 {
                    assert(old(self).pool_of(asset as int).collateral[j] == p.collateral[j]);
                }
            }
        }
        self.put_pool(asset, p);
        Ok(())
    }

    /// Stop the pool of `asset` from accepting `collateral` as collateral.
    pub fn remove_pool_collateral(&mut self, caller: &Vec<u8>, asset: usize, collateral: usize) -> (r: Result<(), LendError>)
        requires
            old(self).wf(),
        ensures
            final(self).wf(),
            r == old(self).collateral_check(caller@, asset as int, collateral as int, false),
            r is Err ==> *final(self) == *old(self),
            r is Ok ==> {
                &&& same_config(*old(self), *final(self))
                &&& final(self).pool@ == old(self).pool@.update(asset as int, Some(Pool {
                    collateral: final(self).pool_of(asset as int).collateral,
                    ..old(self).pool_of(asset as int)
                }))
                &&& final(self).pool_of(asset as int).collateral@ == old(self).pool_of(asset as int).collateral@.filter(|y: usize| y != collateral)
                &&& forall|x: usize| #[trigger] final(self).pool_of(asset as int).collateral@.contains(x)
                    <==> old(self).pool_of(asset as int).collateral@.contains(x) && x != collateral
                &&& final(self).assets == old(self).assets
                &&& final(self).users == old(self).users
            },
    {
        if !same_bytes(&self.admin, caller) {
            return Err(LendError::NotAdmin);
        }
        if asset >= self.assets.len() || collateral >= self.assets.len() {
            return Err(LendError::UnknownAsset);
        }
        if self.pool[asset].is_none() {
            return Err(LendError::UnknownPool);
        }
        let found = match &self.pool[asset] {
            Some(p) => contains_index(&p.collateral, collateral),
            None => false,
        };
        if !found {
            return Err(LendError::CollateralAbsent);
        }
        let mut p = self.take_pool(asset);
        let kept = without(&p.collateral, collateral);
        proof {
            assert forall|j: int| 0 <= j < kept.len() implies #[trigger] kept[j] < self.assets.len() by {
                assert(kept@.contains(kept[j]));
                let k = choose|k: int| 0 <= k < p.collateral.len() && p.collateral@[k] == kept[j];
            }
        }
        p.collateral = kept;
        self.put_pool(asset, p);
        Ok(())
    }

    pub open spec fn capacity_check(&self, caller: Seq<u8>, a: int, maximum: int, raising: bool) -> Result<(), LendError> {
        if !self.is_admin(caller) {
            Err(LendError::NotAdmin)
        } else if !self.has_pool(a) {
            Err(LendError::UnknownPool)
        } else if raising && maximum <= self.pool_of(a).maximum_token {
            Err(LendError::InvalidCapacity)
        } else if !raising && maximum < self.pool_of(a).amount {
            Err(LendError::InvalidCapacity)
        } else {
            Ok(())
        }
    }

    fn set_capacity(&mut self, caller: &Vec<u8>, asset: usize, maximum_token: u64, raising: bool) -> (r: Result<(), LendError>)
        requires
            old(self).wf(),
        ensures
            final(self).wf(),
            r == old(self).capacity_check(caller@, asset as int, maximum_token as int, raising),
            r is Err ==> *final(self) == *old(self),
            r is Ok ==> {
                &&& same_config(*old(self), *final(self))
                &&& final(self).pool@ == old(self).pool@.update(asset as int, Some(Pool {
                    maximum_token: maximum_token,
                    ..old(self).pool_of(asset as int)
                }))
                &&& final(self).assets == old(self).assets
                &&& final(self).users == old(self).users
            },
    {
        if !same_bytes(&self.admin, caller) {
            return Err(LendError::NotAdmin);
        }
        if asset >= self.pool.len() || self.pool[asset].is_none() {
            return Err(LendError::UnknownPool);
        }
        let ok = match &self.pool[asset] {
            Some(p) => if raising {
                maximum_token > p.maximum_token
            } else {
                maximum_token >= p.amount
            },
            None => false,
        };
        if !ok {
            return Err(LendError::InvalidCapacity);
        }
        let mut p = self.take_pool(asset);
        p.maximum_token = maximum_token;
        self.put_pool(asset, p);
        Ok(())
    }

    /// Raise the capacity of the pool of `asset` to `maximum_token`.
    pub fn increase_maximum_token(&mut self, caller: &Vec<u8>, asset: usize, maximum_token: u64) -> (r: Result<(), LendError>)
        requires
            old(self).wf(),
        ensures
            final(self).wf(),
            r == old(self).capacity_check(caller@, asset as int, maximum_token as int, true),
            r is Err ==> *final(self) == *old(self),
            r is Ok ==> {
                &&& same_config(*old(self), *final(self))
                &&& final(self).pool@ == old(self).pool@.update(asset as int, Some(Pool {
                    maximum_token: maximum_token,
                    ..old(self).pool_of(asset as int)
                }))
                &&& final(self).assets == old(self).assets
                &&& final(self).users == old(self).users
            },
    {
        self.set_capacity(caller, asset, maximum_token, true)
    }

    /// Set the capacity of the pool of `asset` to `maximum_token`, which may
    /// not fall below what the pool holds.
    pub fn decrease_maximum_token(&mut self, caller: &Vec<u8>, asset: usize, maximum_token: u64) -> (r: Result<(), LendError>)
        requires
            old(self).wf(),
        ensures
            final(self).wf(),
            r == old(self).capacity_check(caller@, asset as int, maximum_token as int, false),
            r is Err ==> *final(self) == *old(self),
            r is Ok ==> {
                &&& same_config(*old(self), *final(self))
                &&& final(self).pool@ == old(self).pool@.update(asset as int, Some(Pool {
                    maximum_token: maximum_token,
                    ..old(self).pool_of(asset as int)
                }))
                &&& final(self).assets == old(self).assets
                &&& final(self).users == old(self).users
            },
    {
        self.set_capacity(caller, asset, maximum_token, false)
    }

    /// Set the liquidation threshold.
    pub fn edit_contract_liquidation(&mut self, caller: &Vec<u8>, liquidation: u64) -> (r: Result<(), LendError>)
        requires
            old(self).wf(),
        ensures
            final(self).wf(),
            r == (if !old(self).is_admin(caller@) {
                Err(LendError::NotAdmin)
            } else if liquidation > RATIO_ONE {
                Err(LendError::InvalidParameter)
            } else {
                Ok(())
            }),
            r is Err ==> *final(self) == *old(self),
            r is Ok ==> *final(self) == (LendingContract { liquidation_threshold: liquidation, ..*old(self) }),
    {
        if !same_bytes(&self.admin, caller) {
            return Err(LendError::NotAdmin);
        }
        if liquidation > RATIO_ONE {
            return Err(LendError::InvalidParameter);
        }
        self.liquidation_threshold = liquidation;
        Ok(())
    }

    /// Hand the administration to `new_admin`; only the administrator may.
    pub fn set_admin(&mut self, caller: &Vec<u8>, new_admin: Vec<u8>) -> (r: Result<(), LendError>)
        requires
            old(self).wf(),
        ensures
            final(self).wf(),
            r == (if old(self).is_admin(caller@) {
                Ok(())
            } else {
                Err(LendError::NotAdmin)
            }),
            r is Err ==> *final(self) == *old(self),
            r is Ok ==> *final(self) == (LendingContract { admin: new_admin, ..*old(self) }),
    {
        if !same_bytes(&self.admin, caller) {
            return Err(LendError::NotAdmin);
        }
        self.admin = new_admin;
        Ok(())
    }
}

} // verus!
