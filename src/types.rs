//! The ledger's data: asset registry, pools, user accounts and global state.
use crate::math::{MAX_DECIMALS, RATIO_ONE};
use vstd::prelude::*;

verus! {

/// Why an operation was refused. No refused operation changes the ledger.
#[derive(Clone, Copy, Debug, PartialEq, Eq, Structural)]
pub enum LendError {
    NotAdmin,
    AssetExists,
    UnknownAsset,
    InvalidParameter,
    PoolExists,
    UnknownPool,
    CollateralExists,
    CollateralAbsent,
    InvalidCapacity,
    ZeroAmount,
    CapacityExceeded,
    NoCollateral,
    MissingPrice,
    BorrowLimitExceeded,
    InsufficientLiquidity,
    NoDebt,
    RepayExceedsDebt,
    NoSupply,
    WithdrawLimitExceeded,
    ReserveRequired,
    UnknownUser,
    NotLiquidatable,
    NothingToSeize,
    TooEarly,
    UserExists,
    SelfLiquidation,
    Overflow,
}

/// Parameters of one registered asset. `collateral_factor` and
/// `interest_rate` are ratios scaled by `RATIO_ONE`.
#[derive(Clone, Debug)]
pub struct AssetConfig {
    pub name: String,
    pub token_id: Vec<u8>,
    pub price_id: String,
    pub decimals: u32,
    pub collateral_factor: u64,
    pub interest_rate: u64,
}

/// The pool of one asset: what was supplied to it, what is lent out, its
/// capacity, and the assets it accepts as collateral (by asset index).
#[derive(Clone, Debug)]
pub struct Pool {
    pub name: String,
    pub collateral: Vec<usize>,
    pub amount: u64,
    pub used_amount: u64,
    pub maximum_token: u64,
}

/// One user's balances, each indexed by asset: supplied (principal and
/// earnings), borrowed (principal and accrued interest), interest owed.
#[derive(Clone, Debug)]
pub struct UserAccounts {
    pub owner: Vec<u8>,
    pub supplies: Vec<u64>,
    pub borrows: Vec<u64>,
    pub interest: Vec<u64>,
}

/// The whole ledger. `pool[a]` is the pool of asset `a`, if one was created.
/// The ratios are scaled by `RATIO_ONE`; `last_time` is in nanoseconds.
#[derive(Clone, Debug)]
pub struct LendingContract {
    pub admin: Vec<u8>,
    pub assets: Vec<AssetConfig>,
    pub users: Vec<UserAccounts>,
    pub pool: Vec<Option<Pool>>,
    pub liquidate_earnings: u64,
    pub liquidation_threshold: u64,
    pub safety_vault_percentage: u64,
    pub owner_earnings: u64,
    pub last_time: u64,
}

/// A pair of tokens, as a swap venue names them.
#[derive(Clone, Debug)]
pub struct TokenPair {
    pub token1: Vec<u8>,
    pub token2: Vec<u8>,
}

/// Where a pair is swapped, and in which direction.
#[derive(Clone, Debug)]
pub struct PoolDirection {
    pub swap_pool: Vec<u8>,
    pub direction: bool,
}

impl Default for AssetConfig {
    /// An unnamed asset without token, feed, decimals or rates.
    fn default() -> (r: Self)
        ensures
            r.name@.len() == 0,
            r.token_id@.len() == 0,
            r.price_id@.len() == 0,
            r.decimals == 0,
            r.collateral_factor == 0,
            r.interest_rate == 0,
    {
        AssetConfig {
            name: String::new(),
            token_id: Vec::new(),
            price_id: String::new(),
            decimals: 0,
            collateral_factor: 0,
            interest_rate: 0,
        }
    }
}

impl Default for Pool {
    /// An empty pool of no capacity that accepts no collateral.
    fn default() -> (r: Self)
        ensures
            r.name@.len() == 0,
            r.collateral@.len() == 0,
            r.amount == 0,
            r.used_amount == 0,
            r.maximum_token == 0,
    {
        Pool { name: String::new(), collateral: Vec::new(), amount: 0, used_amount: 0, maximum_token: 0 }
    }
}

/// Both ledgers have the same administrator, protocol ratios and accrual time.
pub open spec fn same_config(s1: LendingContract, s2: LendingContract) -> bool {
    &&& s1.admin == s2.admin
    &&& s1.liquidate_earnings == s2.liquidate_earnings
    &&& s1.liquidation_threshold == s2.liquidation_threshold
    &&& s1.safety_vault_percentage == s2.safety_vault_percentage
    &&& s1.owner_earnings == s2.owner_earnings
    &&& s1.last_time == s2.last_time
}

pub open spec fn asset_wf(c: AssetConfig) -> bool {
    &&& c.decimals <= MAX_DECIMALS
    &&& c.collateral_factor <= RATIO_ONE
    &&& c.interest_rate <= RATIO_ONE
}

/// The pool invariant: lent out <= supplied <= capacity.
pub open spec fn pool_wf(p: Pool, n_assets: nat) -> bool {
    &&& p.used_amount <= p.amount <= p.maximum_token
    &&& forall|i: int| 0 <= i < p.collateral.len() ==> #[trigger] p.collateral[i] < n_assets
}

pub open spec fn account_wf(u: UserAccounts, n_assets: nat) -> bool {
    &&& u.supplies.len() == n_assets
    &&& u.borrows.len() == n_assets
    &&& u.interest.len() == n_assets
}

impl LendingContract {
    pub open spec fn wf(&self) -> bool {
        &&& self.pool.len() == self.assets.len()
        &&& forall|a: int| 0 <= a < self.assets.len() ==> asset_wf(#[trigger] self.assets[a])
        &&& forall|i: int, j: int|
            #![trigger self.assets[i], self.assets[j]]
            0 <= i < self.assets.len() && 0 <= j < self.assets.len() && i != j
                ==> self.assets[i].token_id@ != self.assets[j].token_id@
        &&& forall|a: int|
            0 <= a < self.pool.len() && (#[trigger] self.pool[a]).is_some()
                ==> pool_wf(self.pool[a].unwrap(), self.assets.len() as nat)
        &&& forall|u: int| 0 <= u < self.users.len() ==> account_wf(#[trigger] self.users[u], self.assets.len() as nat)
        &&& forall|i: int, j: int|
            #![trigger self.users[i], self.users[j]]
            0 <= i < self.users.len() && 0 <= j < self.users.len() && i != j
                ==> self.users[i].owner@ != self.users[j].owner@
        &&& self.liquidation_threshold <= RATIO_ONE
        &&& self.liquidate_earnings <= RATIO_ONE
        &&& self.safety_vault_percentage <= RATIO_ONE
        &&& self.owner_earnings <= RATIO_ONE
    }

    pub open spec fn has_user(&self, id: Seq<u8>) -> bool {
        exists|i: int| 0 <= i < self.users.len() && #[trigger] self.users[i].owner@ == id
    }

    /// Position of `id`'s account in `users`, or -1 where it has none.
    pub open spec fn user_index(&self, id: Seq<u8>) -> int {
        if self.has_user(id) {
            choose|i: int| 0 <= i < self.users.len() && #[trigger] self.users[i].owner@ == id
        } else {
            -1
        }
    }

    /// What `id` has supplied of asset `a` (0 without an account).
    pub open spec fn supplied(&self, id: Seq<u8>, a: int) -> int {
        if self.has_user(id) {
            self.users[self.user_index(id)].supplies[a] as int
        } else {
            0
        }
    }

    /// What `id` owes of asset `a` (0 without an account).
    pub open spec fn borrowed(&self, id: Seq<u8>, a: int) -> int {
        if self.has_user(id) {
            self.users[self.user_index(id)].borrows[a] as int
        } else {
            0
        }
    }

    /// The interest that `id` owes on asset `a` (0 without an account).
    pub open spec fn interest_owed(&self, id: Seq<u8>, a: int) -> int {
        if self.has_user(id) {
            self.users[self.user_index(id)].interest[a] as int
        } else {
            0
        }
    }

    pub open spec fn has_pool(&self, a: int) -> bool {
        0 <= a < self.pool.len() && self.pool[a].is_some()
    }

    pub open spec fn pool_of(&self, a: int) -> Pool {
        self.pool[a].unwrap()
    }

    pub open spec fn is_admin(&self, id: Seq<u8>) -> bool {
        self.admin@ == id
    }

    /// A ledger with no assets, pools or users, administered by `admin`.
    pub fn new(admin: Vec<u8>, now: u64) -> (r: Self)
        ensures
            r.wf(),
            r.admin@ == admin@,
            r.assets.len() == 0,
            r.users.len() == 0,
            r.last_time == now,
            r.liquidate_earnings == 50_000,
            r.liquidation_threshold == 50_000,
            r.safety_vault_percentage == 50_000,
            r.owner_earnings == 100_000,
    {
        LendingContract {
            admin,
            assets: Vec::new(),
            users: Vec::new(),
            pool: Vec::new(),
            liquidate_earnings: 50_000,
            liquidation_threshold: 50_000,
            safety_vault_percentage: 50_000,
            owner_earnings: 100_000,
            last_time: now,
        }
    }

    /// Position of the asset whose token id is `token_id`.
    pub fn find_asset(&self, token_id: &Vec<u8>) -> (r: Option<usize>)
        ensures
            match r {
                Some(i) => i < self.assets.len() && self.assets[i as int].token_id@ == token_id@,
                None => forall|i: int| 0 <= i < self.assets.len() ==> #[trigger] self.assets[i].token_id@ != token_id@,
            },
    {
        let mut i: usize = 0;
        while i < self.assets.len()
            invariant
                i <= self.assets.len(),
                forall|j: int| 0 <= j < i ==> #[trigger] self.assets[j].token_id@ != token_id@,
            decreases self.assets.len() - i,
        {
            if same_bytes(&self.assets[i].token_id, token_id) {
                return Some(i);
            }
            i = i + 1;
        }
        None
    }

    /// Position of `id`'s account.
    pub fn find_user(&self, id: &Vec<u8>) -> (r: Option<usize>)
        requires
            self.wf(),
        ensures
            match r {
                Some(i) => self.has_user(id@) && i as int == self.user_index(id@) && i < self.users.len(),
                None => !self.has_user(id@),
            },
    {
        let mut i: usize = 0;
        while i < self.users.len()
            invariant
                self.wf(),
                i <= self.users.len(),
                forall|j: int| 0 <= j < i ==> #[trigger] self.users[j].owner@ != id@,
            decreases self.users.len() - i,
        {
            if same_bytes(&self.users[i].owner, id) {
                proof {
                    assert(self.users[i as int].owner@ == id@);
                    assert(self.has_user(id@));
                    let k = self.user_index(id@);
                    assert(0 <= k < self.users.len());
                    assert(self.users[k].owner@ == id@);
                    if k != i as int {
                        assert(self.users[i as int].owner@ != self.users[k].owner@);
                    }
                }
                return Some(i);
            }
            i = i + 1;
        }
        None
    }

    /// Whether `id` has an account.
    pub fn is_authenticated(&self, id: &Vec<u8>) -> (r: bool)
        requires
            self.wf(),
        ensures
            r == self.has_user(id@),
    {
        self.find_user(id).is_some()
    }

    pub fn get_admin(&self) -> (r: Vec<u8>)
        ensures
            r@ == self.admin@,
    {
        self.admin.clone()
    }
}

/// Whether two byte strings are equal.
pub fn same_bytes(a: &Vec<u8>, b: &Vec<u8>) -> (r: bool)
    ensures
        r == (a@ == b@),
{
    if a.len() != b.len() {
        return false;
    }
    let mut i: usize = 0;
    while i < a.len()
        invariant
            a.len() == b.len(),
            i <= a.len(),
            forall|j: int| 0 <= j < i ==> a@[j] == b@[j],
        decreases a.len() - i,
    {
        if a[i] != b[i] {
            return false;
        }
        i = i + 1;
    }
    assert(a@ =~= b@);
    true
}

/// `n` zeros.
pub fn zeros(n: usize) -> (r: Vec<u64>)
    ensures
        r@ == Seq::new(n as nat, |i: int| 0u64),
{
    let mut r: Vec<u64> = Vec::new();
    let mut i: usize = 0;
    while i < n
        invariant
            i <= n,
            r@ == Seq::new(i as nat, |k: int| 0u64),
        decreases n - i,
    {
        r.push(0);
        i = i + 1;
        assert(r@ =~= Seq::new(i as nat, |k: int| 0u64));
    }
    r
}

} // verus!
