//! The ledger view: token balances by account, the sole source of voting weight.

use vstd::prelude::*;
use crate::GovError;

verus! {

/// Balance of `acc` in a list of `(account, amount)` entries; an account
/// without an entry holds nothing.
pub open spec fn balance_in(s: Seq<(u64, u64)>, acc: u64) -> nat
    decreases s.len(),
{
    if s.len() == 0 {
        0
    } else if s.last().0 == acc {
        s.last().1 as nat
    } else {
        balance_in(s.drop_last(), acc)
    }
}

/// Sum of all amounts in a list of `(account, amount)` entries.
pub open spec fn total_of(s: Seq<(u64, u64)>) -> nat
    decreases s.len(),
{
    if s.len() == 0 {
        0
    } else {
        total_of(s.drop_last()) + s.last().1 as nat
    }
}

pub open spec fn keys_unique(s: Seq<(u64, u64)>) -> bool {
    forall|i: int, j: int| 0 <= i < j < s.len() ==> s[i].0 != s[j].0
}

proof fn lemma_balance_absent(s: Seq<(u64, u64)>, acc: u64)
    requires
        forall|j: int| 0 <= j < s.len() ==> s[j].0 != acc,
    ensures
        balance_in(s, acc) == 0,
    decreases s.len(),
{
    if s.len() > 0 {
        lemma_balance_absent(s.drop_last(), acc);
    }
}

proof fn lemma_balance_at(s: Seq<(u64, u64)>, i: int)
    requires
        keys_unique(s),
        0 <= i < s.len(),
    ensures
        balance_in(s, s[i].0) == s[i].1,
    decreases s.len(),
{
    if i < s.len() - 1 {
        lemma_balance_at(s.drop_last(), i);
    }
}

proof fn lemma_update(s: Seq<(u64, u64)>, i: int, v: u64)
    requires
        keys_unique(s),
        0 <= i < s.len(),
    ensures
        keys_unique(s.update(i, (s[i].0, v))),
        total_of(s.update(i, (s[i].0, v))) == total_of(s) - s[i].1 + v,
        forall|a: u64|
            #[trigger] balance_in(s.update(i, (s[i].0, v)), a) == if a == s[i].0 {
                v as nat
            } else {
                balance_in(s, a)
            },
    decreases s.len(),
{
    let t = s.update(i, (s[i].0, v));
    if i < s.len() - 1 {
        lemma_update(s.drop_last(), i, v);
        assert(t.drop_last() =~= s.drop_last().update(i, (s[i].0, v)));
        assert forall|a: u64| #[trigger] balance_in(t, a) == if a == s[i].0 {
            v as nat
        } else {
            balance_in(s, a)
        } by {
            assert(s.last().0 != s[i].0);
            assert(t.last() == s.last());
            assert(balance_in(s.drop_last().update(i, (s[i].0, v)), a) == if a == s[i].0 {
                v as nat
            } else {
                balance_in(s.drop_last(), a)
            });
        }
    } else {
        assert(t.drop_last() =~= s.drop_last());
        assert forall|a: u64| a == s[i].0 implies balance_in(s.drop_last(), a) == balance_in(
            s.drop_last(),
            a,
        ) by {}
    }
}

/// Token balances by account: the only source of voting weight.
pub struct Ledger {
    pub entries: Vec<(u64, u64)>,
}

impl Ledger {
    /// Each account has at most one entry, and the total supply is representable.
    pub open spec fn wf(&self) -> bool {
        &&& keys_unique(self.entries@)
        &&& total_of(self.entries@) <= u64::MAX
    }

    pub open spec fn balance(&self, acc: u64) -> nat {
        balance_in(self.entries@, acc)
    }

    pub open spec fn supply(&self) -> nat {
        total_of(self.entries@)
    }

    pub fn new() -> (r: Ledger)
        ensures
            r.wf(),
            r.entries@ == Seq::<(u64, u64)>::empty(),
    {
        Ledger { entries: Vec::new() }
    }

    fn find(&self, acc: u64) -> (r: Option<usize>)
        ensures
            match r {
                Some(i) => i < self.entries@.len() && self.entries@[i as int].0 == acc,
                None => forall|j: int| 0 <= j < self.entries@.len() ==> self.entries@[j].0 != acc,
            },
    {
        let mut i: usize = 0;
        while i < self.entries.len()
            invariant
                i <= self.entries@.len(),
                forall|j: int| 0 <= j < i ==> self.entries@[j].0 != acc,
            decreases self.entries@.len() - i,
        {
            if self.entries[i].0 == acc {
                return Some(i);
            }
            i = i + 1;
        }
        None
    }

    pub fn balance_of(&self, acc: u64) -> (r: u64)
        requires
            self.wf(),
        ensures
            r == self.balance(acc),
    {
        match self.find(acc) {
            Some(i) => {
                proof {
                    lemma_balance_at(self.entries@, i as int);
                }
                self.entries[i].1
            },
            None => {
                proof {
                    lemma_balance_absent(self.entries@, acc);
                }
                0
            },
        }
    }

    pub fn total_supply(&self) -> (r: u64)
        requires
            self.wf(),
        ensures
            r == self.supply(),
    {
        let mut sum: u64 = 0;
        let mut i: usize = 0;
        while i < self.entries.len()
            invariant
                self.wf(),
                i <= self.entries@.len(),
                sum == total_of(self.entries@.take(i as int)),
            decreases self.entries@.len() - i,
        {
            proof {
                let s = self.entries@;
                assert(s.take(i + 1).drop_last() =~= s.take(i as int));
                lemma_total_prefix(s, i + 1);
            }
            sum = sum + self.entries[i].1;
            i = i + 1;
        }
        assert(self.entries@.take(i as int) =~= self.entries@);
        sum
    }

    /// Sets the balance of `acc` to `v`, adding an entry when it has none.
    fn set_balance(&mut self, acc: u64, v: u64)
        requires
            old(self).wf(),
            old(self).supply() - old(self).balance(acc) + v <= u64::MAX,
        ensures
            final(self).wf(),
            final(self).supply() == old(self).supply() - old(self).balance(acc) + v,
            forall|a: u64|
                #[trigger] balance_in(final(self).entries@, a) == if a == acc {
                    v as nat
                } else {
                    old(self).balance(a)
                },
    {
        match self.find(acc) {
            Some(i) => {
                proof {
                    lemma_balance_at(self.entries@, i as int);
                    lemma_update(self.entries@, i as int, v);
                }
                self.entries.set(i, (acc, v));
            },
            None => {
                proof {
                    lemma_balance_absent(self.entries@, acc);
                }
                self.entries.push((acc, v));
                proof {
                    assert(self.entries@.drop_last() =~= old(self).entries@);
                }
            },
        }
    }

    /// Adds newly minted tokens to `acc`; refuses when the total supply would overflow.
    pub fn mint(&mut self, acc: u64, amount: u64) -> (r: Result<(), GovError>)
        requires
            old(self).wf(),
        ensures
            final(self).wf(),
            r is Ok <==> old(self).supply() + amount <= u64::MAX,
            r is Ok ==> final(self).supply() == old(self).supply() + amount,
            r is Ok ==> forall|a: u64|
                #[trigger] balance_in(final(self).entries@, a) == old(self).balance(a) + if a == acc {
                    amount as nat
                } else {
                    0
                },
            r is Err ==> final(self).entries@ == old(self).entries@,
            r is Err ==> r == Err::<(), GovError>(GovError::SupplyOverflow),
    {
        let total = self.total_supply();
        if amount > u64::MAX - total {
            return Err(GovError::SupplyOverflow);
        }
        let b = self.balance_of(acc);
        proof {
            lemma_balance_le_total(self.entries@, acc);
        }
        self.set_balance(acc, b + amount);
        Ok(())
    }

    /// Moves `amount` from `from` to `to`; refuses when `from` holds less.
    pub fn transfer(&mut self, from: u64, to: u64, amount: u64) -> (r: Result<(), GovError>)
        requires
            old(self).wf(),
        ensures
            final(self).wf(),
            r is Ok <==> amount <= old(self).balance(from),
            final(self).supply() == old(self).supply(),
            r is Ok ==> forall|a: u64|
                #[trigger] balance_in(final(self).entries@, a) == old(self).balance(a) - (if a == from {
                    amount as int
                } else {
                    0
                }) + (if a == to {
                    amount as int
                } else {
                    0
                }),
            r is Err ==> final(self).entries@ == old(self).entries@,
            r is Err ==> r == Err::<(), GovError>(GovError::InsufficientFunds),
    {
        let fb = self.balance_of(from);
        if fb < amount {
            return Err(GovError::InsufficientFunds);
        }
        if from == to {
            return Ok(());
        }
        self.set_balance(from, fb - amount);
        let tb = self.balance_of(to);
        proof {
            lemma_balance_le_total(self.entries@, to);
        }
        self.set_balance(to, tb + amount);
        Ok(())
    }
}

pub proof fn lemma_total_prefix(s: Seq<(u64, u64)>, n: int)
    requires
        0 < n <= s.len(),
    ensures
        total_of(s.take(n)) == total_of(s.take(n - 1)) + s[n - 1].1,
        total_of(s.take(n)) <= total_of(s),
    decreases s.len(),
{
    assert(s.take(n).drop_last() =~= s.take(n - 1));
    if n < s.len() {
        lemma_total_prefix(s.drop_last(), n);
        assert(s.drop_last().take(n) =~= s.take(n));
        assert(s.drop_last().take(n - 1) =~= s.take(n - 1));
    } else {
        assert(s.take(n) =~= s);
    }
}

pub proof fn lemma_balance_le_total(s: Seq<(u64, u64)>, acc: u64)
    ensures
        balance_in(s, acc) <= total_of(s),
    decreases s.len(),
{
    if s.len() > 0 {
        lemma_balance_le_total(s.drop_last(), acc);
    }
}

} // verus!
