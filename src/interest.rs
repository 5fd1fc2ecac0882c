//! The daily accrual of interest on every open debt.
use crate::ledger::{balance_seq, same_owners, Balance};
use crate::math::{accrue_day, accrued_capped, borrow_rate, pool_rate, utilization};
use crate::types::{account_wf, same_bytes, LendError, LendingContract, UserAccounts};
use vstd::prelude::*;

verus! {

/// Shortest time between two accruals, in nanoseconds (one day).
pub const ACCRUAL_PERIOD: u64 = 86_400_000_000_000;

/// Every debt of `u` accrued one day at the rate given for its asset.
pub fn accrue_account(u: &mut UserAccounts, rates: &Vec<u128>)
    requires
        old(u).borrows.len() == rates.len(),
    ensures
        final(u).owner == old(u).owner,
        final(u).supplies == old(u).supplies,
        final(u).interest == old(u).interest,
        final(u).borrows.len() == rates.len(),
        forall|b: int| 0 <= b < rates.len() ==> #[trigger] final(u).borrows[b] == accrued_capped(old(u).borrows[b] as int, rates[b] as int),
{
    let ghost b0 = u.borrows@;
    let mut a: usize = 0;
    while a < rates.len()
        invariant
            u.owner == old(u).owner,
            u.supplies == old(u).supplies,
            u.interest == old(u).interest,
            b0 == old(u).borrows@,
            u.borrows.len() == rates.len(),
            a <= rates.len(),
            forall|b: int| 0 <= b < rates.len() ==> #[trigger] u.borrows[b] == if b < a {
                accrued_capped(b0[b] as int, rates[b] as int) as u64
            } else {
                b0[b]
            },
        decreases rates.len() - a,
    {
        let next = accrue_day(u.borrows[a], rates[a]);
        u.borrows[a] = next;
        a = a + 1;
    }
}

impl LendingContract {
    /// Yearly borrow rate of asset `a` at its pool's utilisation (an asset
    /// without a pool pays its base rate).
    pub open spec fn accrual_rate(&self, a: int) -> int {
        let u = if self.has_pool(a) {
            utilization(self.pool_of(a).used_amount as int, self.pool_of(a).amount as int)
        } else {
            0
        };
        borrow_rate(self.assets[a].interest_rate as int, u)
    }

    /// The current yearly borrow rate of `asset`, scaled by `RATIO_ONE`.
    pub fn cal_interest(&self, asset: usize) -> (r: u128)
        requires
            self.wf(),
            asset < self.assets.len(),
        ensures
            r == self.accrual_rate(asset as int),
    {
        let base = self.assets[asset].interest_rate;
        match &self.pool[asset] {
            Some(p) => pool_rate(base, p.used_amount, p.amount),
            None => pool_rate(base, 0, 0),
        }
    }

    /// The current rate of every asset, by asset index.
    pub fn accrual_rates(&self) -> (r: Vec<u128>)
        requires
            self.wf(),
        ensures
            r.len() == self.assets.len(),
            forall|a: int| 0 <= a < r.len() ==> #[trigger] r[a] == self.accrual_rate(a),
    {
        let mut r: Vec<u128> = Vec::new();
        let mut a: usize = 0;
        while a < self.assets.len()
            invariant
                self.wf(),
                a <= self.assets.len(),
                r.len() == a,
                forall|b: int| 0 <= b < a ==> #[trigger] r[b] == self.accrual_rate(b),
            decreases self.assets.len() - a,
        {
            r.push(self.cal_interest(a));
            a = a + 1;
        }
        r
    }

    pub open spec fn accrual_check(&self, caller: Seq<u8>, now: int) -> Result<(), LendError> {
        if !self.is_admin(caller) {
            Err(LendError::NotAdmin)
        } else if now < self.last_time + ACCRUAL_PERIOD {
            Err(LendError::TooEarly)
        } else {
            Ok(())
        }
    }

    /// The daily job: grow every user's every debt by one day of interest at
    /// its asset's current rate (saturating at the largest amount), at most
    /// once per `ACCRUAL_PERIOD`; `now` is the time in nanoseconds.
    pub fn update_interest_amount(&mut self, caller: &Vec<u8>, now: u64) -> (r: Result<(), LendError>)
        requires
            old(self).wf(),
        ensures
            final(self).wf(),
            r == old(self).accrual_check(caller@, now as int),
            r is Err ==> *final(self) == *old(self),
            r is Ok ==> {
                &&& final(self).last_time == now
                &&& final(self).assets == old(self).assets
                &&& final(self).pool == old(self).pool
                &&& final(self).admin == old(self).admin
                &&& same_owners(*old(self), *final(self))
                &&& forall|k: Balance, id: Seq<u8>, b: int| 0 <= b < old(self).assets.len() ==>
                    #[trigger] final(self).balance(k, id, b) == if k == Balance::Borrowed {
                        accrued_capped(old(self).balance(k, id, b), old(self).accrual_rate(b))
                    } else {
                        old(self).balance(k, id, b)
                    }
            },
    {
        if !same_bytes(&self.admin, caller) {
            return Err(LendError::NotAdmin);
        }
        if now < self.last_time || now - self.last_time < ACCRUAL_PERIOD {
            return Err(LendError::TooEarly);
        }
        let ghost s0 = *self;
        let rates = self.accrual_rates();
        let mut i: usize = 0;
        while i < self.users.len()
            invariant
                s0.wf(),
                rates.len() == s0.assets.len(),
                forall|a: int| 0 <= a < rates.len() ==> #[trigger] rates[a] == s0.accrual_rate(a),
                self.assets == s0.assets,
                self.pool == s0.pool,
                self.admin == s0.admin,
                self.liquidate_earnings == s0.liquidate_earnings,
                self.liquidation_threshold == s0.liquidation_threshold,
                self.safety_vault_percentage == s0.safety_vault_percentage,
                self.owner_earnings == s0.owner_earnings,
                self.last_time == s0.last_time,
                self.users.len() == s0.users.len(),
                i <= self.users.len(),
                forall|j: int| 0 <= j < self.users.len() ==> (#[trigger] self.users[j]).owner == s0.users[j].owner,
                forall|j: int, k: Balance| 0 <= j < self.users.len() ==> #[trigger] balance_seq(self.users[j], k) == if j < i && k == Balance::Borrowed {
                    Seq::new(rates.len() as nat, |b: int| accrued_capped(s0.users[j].borrows[b] as int, rates[b] as int) as u64)
                } else {
                    balance_seq(s0.users[j], k)
                },
            decreases self.users.len() - i,
        {
            let ghost prev = *self;
            proof {
                assert(account_wf(s0.users[i as int], s0.assets.len() as nat));
                let x = balance_seq(prev.users[i as int], Balance::Borrowed);
            }
            accrue_account(&mut self.users[i], &rates);
            proof {
                assert forall|j: int, k: Balance| 0 <= j < self.users.len() implies #[trigger] balance_seq(self.users[j], k) == if j < i + 1 && k == Balance::Borrowed {
                    Seq::new(rates.len() as nat, |b: int| accrued_capped(s0.users[j].borrows[b] as int, rates[b] as int) as u64)
                } else {
                    balance_seq(s0.users[j], k)
                } by {
                    let p = balance_seq(prev.users[j], k);
                    if j != i {
                        assert(self.users[j] == prev.users[j]);
                    } else if k == Balance::Borrowed {
                        assert(self.users[j].borrows@ =~= Seq::new(rates.len() as nat, |b: int| accrued_capped(s0.users[j].borrows[b] as int, rates[b] as int) as u64));
                    }
                }
            }
            i = i + 1;
        }
        self.last_time = now;
        proof {
            assert forall|j: int| 0 <= j < self.users.len() implies account_wf(#[trigger] self.users[j], self.assets.len() as nat) by {
                assert(account_wf(s0.users[j], s0.assets.len() as nat));
                let x = balance_seq(self.users[j], Balance::Supplied);
                let y = balance_seq(self.users[j], Balance::Borrowed);
                let z = balance_seq(self.users[j], Balance::Interest);
            }
            assert forall|x: int, y: int|
                #![trigger self.users[x], self.users[y]]
                0 <= x < self.users.len() && 0 <= y < self.users.len() && x != y implies self.users[x].owner@ != self.users[y].owner@ by {
                assert(s0.users[x].owner@ != s0.users[y].owner@);
            }
            assert(self.wf());
            assert(same_owners(s0, *self));
            assert forall|k: Balance, id: Seq<u8>, b: int| 0 <= b < s0.assets.len() implies
                #[trigger] self.balance(k, id, b) == if k == Balance::Borrowed {
                    accrued_capped(s0.balance(k, id, b), s0.accrual_rate(b))
                } else {
                    s0.balance(k, id, b)
                } by {
                LendingContract::lemma_same_owners(&s0, self, id);
                if s0.has_user(id) {
                    let j = s0.user_index(id);
                    let x = balance_seq(self.users[j], k);
                    assert(account_wf(s0.users[j], s0.assets.len() as nat));
                } else {
                    assert(crate::math::accrued(0, s0.accrual_rate(b)) == 0);
                }
            }
        }
        Ok(())
    }
}

} // verus!
