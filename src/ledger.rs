//! Balance-level updates of the ledger, shared by every operation.
use crate::types::{account_wf, zeros, LendingContract, UserAccounts};
use vstd::prelude::*;

verus! {

/// Which of a user's three balances.
#[derive(Clone, Copy, Debug, PartialEq, Eq, Structural)]
pub enum Balance {
    Supplied,
    Borrowed,
    Interest,
}

pub open spec fn balance_seq(u: UserAccounts, k: Balance) -> Seq<u64> {
    match k {
        Balance::Supplied => u.supplies@,
        Balance::Borrowed => u.borrows@,
        Balance::Interest => u.interest@,
    }
}

/// Everything but the users' balances is the same in both ledgers, and the
/// same users exist in the same places.
pub open spec fn same_shape(s1: LendingContract, s2: LendingContract) -> bool {
    &&& s1.admin == s2.admin
    &&& s1.assets == s2.assets
    &&& s1.pool == s2.pool
    &&& s1.liquidate_earnings == s2.liquidate_earnings
    &&& s1.liquidation_threshold == s2.liquidation_threshold
    &&& s1.safety_vault_percentage == s2.safety_vault_percentage
    &&& s1.owner_earnings == s2.owner_earnings
    &&& s1.last_time == s2.last_time
    &&& same_owners(s1, s2)
}

/// The same users exist in both ledgers, in the same places.
pub open spec fn same_owners(s1: LendingContract, s2: LendingContract) -> bool {
    &&& s1.users.len() == s2.users.len()
    &&& forall|i: int| 0 <= i < s1.users.len() ==> (#[trigger] s1.users[i]).owner@ == s2.users[i].owner@
}

impl LendingContract {
    /// Balance `k` of `id` in asset `a` (0 without an account).
    pub open spec fn balance(&self, k: Balance, id: Seq<u8>, a: int) -> int {
        if self.has_user(id) {
            balance_seq(self.users[self.user_index(id)], k)[a] as int
        } else {
            0
        }
    }

    /// In a well-formed ledger an account found at `i` is the one of its owner.
    pub proof fn lemma_index_of(&self, i: int)
        requires
            self.wf(),
            0 <= i < self.users.len(),
        ensures
            self.has_user(self.users[i].owner@),
            self.user_index(self.users[i].owner@) == i,
    {
        let id = self.users[i].owner@;
        assert(self.users[i].owner@ == id);
        let k = self.user_index(id);
        if k != i {
            assert(self.users[i].owner@ != self.users[k].owner@);
        }
    }

    /// Two ledgers with the same owners in the same places find every user
    /// at the same place.
    pub proof fn lemma_same_owners(s1: &LendingContract, s2: &LendingContract, id: Seq<u8>)
        requires
            s1.wf(),
            s2.wf(),
            same_owners(*s1, *s2),
        ensures
            s1.has_user(id) == s2.has_user(id),
            s1.user_index(id) == s2.user_index(id),
    {
        if s1.has_user(id) {
            let i = s1.user_index(id);
            assert(s1.users[i].owner@ == s2.users[i].owner@);
            s1.lemma_index_of(i);
            s2.lemma_index_of(i);
        }
        if s2.has_user(id) {
            let i = s2.user_index(id);
            assert(s1.users[i].owner@ == s2.users[i].owner@);
        }
    }

    /// Set balance `k` of the account at `u` in asset `a` to `v`.
    pub(crate) fn set_balance(&mut self, u: usize, k: Balance, a: usize, v: u64)
        requires
            old(self).wf(),
            u < old(self).users.len(),
            a < old(self).assets.len(),
        ensures
            final(self).wf(),
            same_shape(*old(self), *final(self)),
            forall|i: int| 0 <= i < old(self).users.len() && i != u ==> #[trigger] final(self).users[i] == old(self).users[i],
            forall|k2: Balance| #[trigger] balance_seq(final(self).users[u as int], k2) == if k2 == k {
                balance_seq(old(self).users[u as int], k2).update(a as int, v)
            } else {
                balance_seq(old(self).users[u as int], k2)
            },
            forall|k2: Balance, id: Seq<u8>, b: int| 0 <= b < old(self).assets.len() ==> #[trigger] final(self).balance(k2, id, b) == if k2 == k && id == old(self).users[u as int].owner@ && b == a {
                v as int
            } else {
                old(self).balance(k2, id, b)
            },
    {
        proof {
            assert(account_wf(self.users[u as int], self.assets.len() as nat));
        }
        match k {
            Balance::Supplied => {
                self.users[u].supplies[a] = v;
            },
            Balance::Borrowed => {
                self.users[u].borrows[a] = v;
            },
            Balance::Interest => {
                self.users[u].interest[a] = v;
            },
        }
        proof {
            assert forall|i: int| 0 <= i < self.users.len() implies account_wf(#[trigger] self.users[i], self.assets.len() as nat) by {
                if i != u {
                    assert(self.users[i] == old(self).users[i]);
                }
            }
            assert forall|i: int| 0 <= i < old(self).users.len() implies (#[trigger] old(self).users[i]).owner@ == self.users[i].owner@ by {
                if i != u {
                    assert(self.users[i] == old(self).users[i]);
                }
            }
            assert(same_shape(*old(self), *self));
            assert forall|i: int, j: int|
                0 <= i < self.users.len() && 0 <= j < self.users.len() && i != j
                implies #[trigger] self.users[i].owner@ != #[trigger] self.users[j].owner@ by {
                let ow = old(self).users;
                assert(ow.len() == self.users.len());
                assert(old(self).wf());
                assert(ow[i].owner@ != ow[j].owner@);
                assert(ow[i].owner@ == self.users[i].owner@);
                assert(ow[j].owner@ == self.users[j].owner@);
            }
            assert forall|k2: Balance, id: Seq<u8>, b: int| 0 <= b < old(self).assets.len() implies #[trigger] self.balance(k2, id, b) == if k2 == k && id == old(self).users[u as int].owner@ && b == a {
                v as int
            } else {
                old(self).balance(k2, id, b)
            } by {
                assert(self.wf());
                old(self).lemma_index_of(u as int);
                Self::lemma_same_owners(old(self), self, id);
                if self.has_user(id) {
                    let i = self.user_index(id);
                    if i == u {
                        assert(self.users[i].owner@ == id);
                        assert(old(self).user_index(id) == u);
                        assert(balance_seq(self.users[u as int], k2) == if k2 == k {
                            balance_seq(old(self).users[u as int], k2).update(a as int, v)
                        } else {
                            balance_seq(old(self).users[u as int], k2)
                        });
                    } else {
                        assert(self.users[i] == old(self).users[i]);
                        assert(old(self).users[u as int].owner@ != id) by {
                            old(self).lemma_index_of(u as int);
                        }
                    }
                }
            }
        }
    }

    /// Position of `id`'s account, opened with zero balances if it has none.
    pub(crate) fn ensure_user(&mut self, id: &Vec<u8>) -> (u: usize)
        requires
            old(self).wf(),
        ensures
            final(self).wf(),
            u < final(self).users.len(),
            final(self).has_user(id@),
            final(self).user_index(id@) == u,
            final(self).users[u as int].owner@ == id@,
            final(self).admin == old(self).admin,
            final(self).assets == old(self).assets,
            final(self).pool == old(self).pool,
            final(self).liquidate_earnings == old(self).liquidate_earnings,
            final(self).liquidation_threshold == old(self).liquidation_threshold,
            final(self).safety_vault_percentage == old(self).safety_vault_percentage,
            final(self).owner_earnings == old(self).owner_earnings,
            final(self).last_time == old(self).last_time,
            forall|k: Balance, id2: Seq<u8>, b: int| 0 <= b < old(self).assets.len() ==>
                #[trigger] final(self).balance(k, id2, b) == old(self).balance(k, id2, b),
            forall|id2: Seq<u8>| #[trigger] old(self).has_user(id2) ==> final(self).has_user(id2),
            old(self).has_user(id@) ==> *final(self) == *old(self),
    {
        match self.find_user(id) {
            Some(u) => u,
            None => {
                let n = self.assets.len();
                let acct = UserAccounts { owner: id.clone(), supplies: zeros(n), borrows: zeros(n), interest: zeros(n) };
                let ghost prev = *self;
                self.users.push(acct);
                let u = self.users.len() - 1;
                proof {
                    assert(self.users[u as int].owner@ == id@);
                    assert forall|i: int| 0 <= i < self.users.len() implies account_wf(#[trigger] self.users[i], self.assets.len() as nat) by {
                        if i < u {
                            assert(self.users[i] == prev.users[i]);
                        }
                    }
                    assert forall|i: int, j: int|
                        0 <= i < self.users.len() && 0 <= j < self.users.len() && i != j
                        implies #[trigger] self.users[i].owner@ != #[trigger] self.users[j].owner@ by {
                        if i < u && j < u {
                            assert(prev.users[i].owner@ != prev.users[j].owner@);
                        } else if i < u {
                            assert(prev.users[i].owner@ != id@);
                        } else {
                            assert(prev.users[j].owner@ != id@);
                        }
                    }
                    assert(self.wf());
                    self.lemma_index_of(u as int);
                    assert forall|id2: Seq<u8>| #[trigger] prev.has_user(id2) implies self.has_user(id2) by {
                        let i = prev.user_index(id2);
                        assert(self.users[i] == prev.users[i]);
                    }
                    assert forall|k: Balance, id2: Seq<u8>, b: int| 0 <= b < prev.assets.len() implies
                        #[trigger] self.balance(k, id2, b) == prev.balance(k, id2, b) by {
                        if prev.has_user(id2) {
                            let i = prev.user_index(id2);
                            assert(self.users[i] == prev.users[i]);
                            self.lemma_index_of(i);
                        } else if self.has_user(id2) {
                            let i = self.user_index(id2);
                            if i != u {
                                assert(self.users[i] == prev.users[i]);
                            }
                        }
                    }
                }
                u
            },
        }
    }
}

} // verus!
