//! Pro-rata distribution of realised interest to an asset's suppliers.
use crate::ledger::{balance_seq, same_shape, Balance};
use crate::math::RATIO_ONE;
use crate::types::{account_wf, LendError, LendingContract, UserAccounts};
use vstd::prelude::*;

verus! {

/// Sum of what the first `n` users supplied of asset `a`.
pub open spec fn supplied_sum(users: Seq<UserAccounts>, a: int, n: nat) -> int
    decreases n,
{
    if n == 0 {
        0
    } else {
        supplied_sum(users, a, (n - 1) as nat) + users[n - 1].supplies[a] as int
    }
}

proof fn lemma_supplied_sum_bound(users: Seq<UserAccounts>, a: int, n: nat)
    requires
        n <= users.len(),
    ensures
        0 <= supplied_sum(users, a, n) <= n * (u64::MAX as int),
    decreases n,
{
    if n > 0 {
        lemma_supplied_sum_bound(users, a, (n - 1) as nat);
    }
}

/// The scale of a scaled reward: a reward times `RATIO_ONE` squared.
pub const REWARD_SCALE: u128 = 1_000_000_000_000;

/// The share of a supply of `held`, out of a total supply of `total`, in a
/// reward whose value times `REWARD_SCALE` is `reward`, rounded down once.
pub open spec fn share_of(reward: int, held: int, total: int) -> int {
    if total > 0 {
        (reward * held) / (REWARD_SCALE * total)
    } else {
        0
    }
}

/// A supply of `held` after receiving its share.
pub open spec fn credited(held: int, reward: int, total: int) -> int {
    held + share_of(reward, held, total)
}

/// The share of `held` can be computed and credited without overflow.
pub open spec fn share_fits(reward: int, held: int, total: int) -> bool {
    &&& reward * held <= u128::MAX
    &&& credited(held, reward, total) <= u64::MAX
}

/// A credit never lowers a supply.
pub proof fn lemma_credited_grows(held: int, reward: int, total: int)
    requires
        0 <= held,
        reward >= 0,
    ensures
        held <= credited(held, reward, total),
{
    if total > 0 {
        assert(reward * held >= 0) by (nonlinear_arith)
            requires reward >= 0, held >= 0;
        assert(REWARD_SCALE * total > 0) by (nonlinear_arith)
            requires total > 0;
        vstd::arithmetic::div_mod::lemma_div_is_ordered(0, reward * held, REWARD_SCALE * total);
    }
}

/// Without a reward or without suppliers nobody is credited anything.
pub proof fn lemma_no_share(held: int, reward: int, total: int)
    requires
        reward == 0 || total <= 0,
    ensures
        credited(held, reward, total) == held,
{
    if total > 0 {
        assert(reward * held == 0) by (nonlinear_arith)
            requires reward == 0;
        assert(REWARD_SCALE * total > 0) by (nonlinear_arith)
            requires total > 0;
    }
}

/// `credited(held, reward, total)`.
pub fn credit_of(reward: u128, held: u64, total: u128) -> (r: u64)
    requires
        share_fits(reward as int, held as int, total as int),
        total > 0 ==> REWARD_SCALE * total <= u128::MAX,
    ensures
        r == credited(held as int, reward as int, total as int),
{
    if total == 0 {
        return held;
    }
    let d: u128 = REWARD_SCALE * total;
    let share: u128 = reward * (held as u128) / d;
    (held as u128 + share) as u64
}

impl LendingContract {
    /// What the reserve and the owner leave to suppliers, scaled by `RATIO_ONE`.
    pub open spec fn keep_ratio(&self) -> int {
        if self.safety_vault_percentage + self.owner_earnings <= RATIO_ONE {
            RATIO_ONE - self.safety_vault_percentage - self.owner_earnings
        } else {
            0
        }
    }

    /// The suppliers' part of `amount` of realised interest of asset `a`
    /// (the amount times the asset's interest rate times what the reserve and
    /// the owner leave), times `REWARD_SCALE`.
    pub open spec fn scaled_reward(&self, a: int, amount: int) -> int {
        amount * (self.assets[a].interest_rate as int) * self.keep_ratio()
    }

    pub proof fn lemma_scaled_reward_bounds(&self, a: int, amount: int)
        requires
            self.wf(),
            0 <= a < self.assets.len(),
            0 <= amount <= u64::MAX,
        ensures
            0 <= self.scaled_reward(a, amount) <= (u64::MAX as int) * (RATIO_ONE as int) * (RATIO_ONE as int),
    {
        let rate = self.assets[a].interest_rate as int;
        let keep = self.keep_ratio();
        assert(crate::types::asset_wf(self.assets[a]));
        assert(0 <= amount * rate * keep <= (u64::MAX as int) * (RATIO_ONE as int) * (RATIO_ONE as int)) by (nonlinear_arith)
            requires 0 <= amount <= u64::MAX, 0 <= rate <= RATIO_ONE, 0 <= keep <= RATIO_ONE;
    }

    /// Every supplier's share of `amount` of realised interest of asset `a`
    /// can be computed and credited without overflow.
    pub open spec fn earnings_fit(&self, a: int, amount: int) -> bool {
        let reward = self.scaled_reward(a, amount);
        let total = self.total_supplied(a);
        reward == 0 || total == 0 || (REWARD_SCALE * total <= u128::MAX && forall|u: int|
            0 <= u < self.users.len() ==> share_fits(reward, (#[trigger] self.users[u]).supplies[a] as int, total))
    }

    /// Everything supplied of asset `a`, over all users.
    pub open spec fn total_supplied(&self, a: int) -> int {
        supplied_sum(self.users@, a, self.users.len() as nat)
    }

    /// `scaled_reward(asset, amount)`.
    pub fn scaled_reward_exec(&self, asset: usize, amount: u64) -> (r: u128)
        requires
            self.wf(),
            asset < self.assets.len(),
        ensures
            r == self.scaled_reward(asset as int, amount as int),
    {
        proof {
            self.lemma_scaled_reward_bounds(asset as int, amount as int);
            assert(crate::types::asset_wf(self.assets[asset as int]));
        }
        let keep: u64 = if self.safety_vault_percentage <= RATIO_ONE - self.owner_earnings {
            RATIO_ONE - self.safety_vault_percentage - self.owner_earnings
        } else {
            0
        };
        let rate = self.assets[asset].interest_rate as u128;
        proof {
            assert((amount as int) * (rate as int) <= (u64::MAX as int) * (RATIO_ONE as int)) by (nonlinear_arith)
                requires amount <= u64::MAX, rate <= RATIO_ONE;
            assert((amount as int) * (rate as int) >= 0) by (nonlinear_arith)
                requires amount >= 0, rate >= 0;
        }
        (amount as u128) * rate * (keep as u128)
    }

    /// Whether `earnings_fit(asset, amount)` holds.
    pub fn earnings_fit_exec(&self, asset: usize, amount: u64) -> (r: bool)
        requires
            self.wf(),
            asset < self.assets.len(),
        ensures
            r == self.earnings_fit(asset as int, amount as int),
    {
        let reward = self.scaled_reward_exec(asset, amount);
        let total = self.cal_token_amount(asset);
        if reward == 0 || total == 0 {
            return true;
        }
        let d: u128 = match REWARD_SCALE.checked_mul(total) {
            Some(d) => d,
            None => {
                return false;
            },
        };
        let mut i: usize = 0;
        while i < self.users.len()
            invariant
                self.wf(),
                asset < self.assets.len(),
                reward == self.scaled_reward(asset as int, amount as int),
                total == self.total_supplied(asset as int),
                total > 0,
                reward > 0,
                d == REWARD_SCALE * total,
                i <= self.users.len(),
                forall|u: int| 0 <= u < i ==> share_fits(reward as int, (#[trigger] self.users[u]).supplies[asset as int] as int, total as int),
            decreases self.users.len() - i,
        {
            proof {
                assert(account_wf(self.users[i as int], self.assets.len() as nat));
            }
            let held = self.users[i].supplies[asset];
            let ghost hi = self.users[i as int];
            let p = match reward.checked_mul(held as u128) {
                Some(p) => p,
                None => {
                    proof {
                        assert(!share_fits(reward as int, hi.supplies[asset as int] as int, total as int));
                    }
                    return false;
                },
            };
            let share = p / d;
            match (held as u128).checked_add(share) {
                Some(x) => {
                    if x > u64::MAX as u128 {
                        proof {
                            assert(!share_fits(reward as int, hi.supplies[asset as int] as int, total as int));
                        }
                        return false;
                    }
                },
                None => {
                    proof {
                        assert(!share_fits(reward as int, hi.supplies[asset as int] as int, total as int));
                    }
                    return false;
                },
            }
            i = i + 1;
        }
        true
    }

    /// Sum of what every user supplied of `asset`.
    pub fn cal_token_amount(&self, asset: usize) -> (r: u128)
        requires
            self.wf(),
            asset < self.assets.len(),
        ensures
            r == self.total_supplied(asset as int),
    {
        let mut total: u128 = 0;
        let mut i: usize = 0;
        while i < self.users.len()
            invariant
                self.wf(),
                asset < self.assets.len(),
                i <= self.users.len(),
                total == supplied_sum(self.users@, asset as int, i as nat),
            decreases self.users.len() - i,
        {
            proof {
                lemma_supplied_sum_bound(self.users@, asset as int, (i + 1) as nat);
                assert((i + 1) * (u64::MAX as int) <= (usize::MAX as int) * (u64::MAX as int)) by (nonlinear_arith)
                    requires i + 1 <= usize::MAX;
                assert(account_wf(self.users[i as int], self.assets.len() as nat));
            }
            total = total + self.users[i].supplies[asset] as u128;
            i = i + 1;
        }
        total
    }

    /// Credit every supplier of `asset` with its share of the suppliers' part
    /// of `amount` of realised interest, in proportion to its supply and
    /// rounded down once. Refused, with no change, where a share would not fit.
    pub fn distribute_earnings(&mut self, asset: usize, amount: u64) -> (r: Result<(), LendError>)
        requires
            old(self).wf(),
            asset < old(self).assets.len(),
        ensures
            final(self).wf(),
            r == (if old(self).earnings_fit(asset as int, amount as int) {
                Ok::<(), LendError>(())
            } else {
                Err(LendError::Overflow)
            }),
            r is Err ==> *final(self) == *old(self),
            same_shape(*old(self), *final(self)),
            forall|k: Balance, id: Seq<u8>, b: int| 0 <= b < old(self).assets.len() && r is Ok ==>
                #[trigger] final(self).balance(k, id, b) == if k == Balance::Supplied && b == asset {
                    credited(
                        old(self).balance(k, id, b),
                        old(self).scaled_reward(asset as int, amount as int),
                        old(self).total_supplied(asset as int),
                    )
                } else {
                    old(self).balance(k, id, b)
                },
    {
        if !self.earnings_fit_exec(asset, amount) {
            return Err(LendError::Overflow);
        }
        let ghost s0 = *self;
        let reward = self.scaled_reward_exec(asset, amount);
        let total = self.cal_token_amount(asset);
        if reward == 0 || total == 0 {
            proof {
                assert forall|k: Balance, id: Seq<u8>, b: int| 0 <= b < s0.assets.len() implies
                    #[trigger] self.balance(k, id, b) == if k == Balance::Supplied && b == asset {
                        credited(s0.balance(k, id, b), reward as int, total as int)
                    } else {
                        s0.balance(k, id, b)
                    } by {
                    lemma_no_share(s0.balance(k, id, b), reward as int, total as int);
                }
            }
            return Ok(());
        }
        let mut i: usize = 0;
        while i < self.users.len()
            invariant
                s0.wf(),
                asset < s0.assets.len(),
                s0.earnings_fit(asset as int, amount as int),
                reward > 0,
                total > 0,
                total == s0.total_supplied(asset as int),
                reward == s0.scaled_reward(asset as int, amount as int),
                i <= self.users.len(),
                same_shape(s0, *self),
                forall|j: int| 0 <= j < self.users.len() ==> account_wf(#[trigger] self.users[j], self.assets.len() as nat),
                forall|j: int, k: Balance| 0 <= j < self.users.len() ==> #[trigger] balance_seq(self.users[j], k) == if k == Balance::Supplied && j < i {
                    balance_seq(s0.users[j], k).update(asset as int, credited(s0.users[j].supplies[asset as int] as int, reward as int, total as int) as u64)
                } else {
                    balance_seq(s0.users[j], k)
                },
            decreases self.users.len() - i,
        {
            proof {
                assert(account_wf(self.users[i as int], self.assets.len() as nat));
                assert(balance_seq(self.users[i as int], Balance::Supplied) == balance_seq(s0.users[i as int], Balance::Supplied));
                assert(share_fits(reward as int, s0.users[i as int].supplies[asset as int] as int, total as int));
            }
            let held: u64 = self.users[i].supplies[asset];
            let next = credit_of(reward, held, total);
            let ghost prev = *self;
            self.users[i].supplies[asset] = next;
            proof {
                assert forall|j: int| 0 <= j < self.users.len() && j != i implies #[trigger] self.users[j] == prev.users[j] by {}
                assert forall|j: int, k: Balance| 0 <= j < self.users.len() implies #[trigger] balance_seq(self.users[j], k) == if k == Balance::Supplied && j < i + 1 {
                    balance_seq(s0.users[j], k).update(asset as int, credited(s0.users[j].supplies[asset as int] as int, reward as int, total as int) as u64)
                } else {
                    balance_seq(s0.users[j], k)
                } by {
                    let p = balance_seq(prev.users[j], k);
                    if j != i {
                        assert(self.users[j] == prev.users[j]);
                    }
                }
            }
            i = i + 1;
        }
        proof {
            assert forall|i: int, j: int|
                #![trigger self.users[i], self.users[j]]
                0 <= i < self.users.len() && 0 <= j < self.users.len() && i != j
                implies self.users[i].owner@ != self.users[j].owner@ by {
                assert(s0.users[i].owner@ != s0.users[j].owner@);
            }
            assert(self.wf());
            assert forall|k: Balance, id: Seq<u8>, b: int| 0 <= b < s0.assets.len() implies
                #[trigger] self.balance(k, id, b) == if k == Balance::Supplied && b == asset {
                    credited(s0.balance(k, id, b), reward as int, total as int)
                } else {
                    s0.balance(k, id, b)
                } by {
                LendingContract::lemma_same_owners(&s0, self, id);
                if s0.has_user(id) {
                    let j = s0.user_index(id);
                    assert(balance_seq(self.users[j], k) == if k == Balance::Supplied {
                        balance_seq(s0.users[j], k).update(asset as int, credited(s0.users[j].supplies[asset as int] as int, reward as int, total as int) as u64)
                    } else {
                        balance_seq(s0.users[j], k)
                    });
                    assert(account_wf(s0.users[j], s0.assets.len() as nat));
                } else {
                    lemma_no_share(0, 0, 0);
                    assert(share_of(reward as int, 0, total as int) == 0) by {
                        assert(reward * 0 == 0) by (nonlinear_arith);
                    }
                }
            }
        }
        Ok(())
    }
}

} // verus!
