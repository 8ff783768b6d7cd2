//! The owned ledger: every participant's account, keyed by account id.
//!
//! Orders refer to their owner by id; all balance mutation goes through the
//! ledger's lookup, so several resting orders can settle against the same
//! entry without shared handles.

use vstd::prelude::*;
use crate::account::{Account, AccountType};
use crate::currency::Currency;
use crate::errors::BookError;

verus! {

/// All accounts of a session. Ids are dense: the account with id `i` sits at
/// position `i`.
#[derive(Debug)]
pub struct Ledger {
    pub accounts: Vec<Account>,
}

impl Ledger {
    /// Every account sits at the position its id names.
    pub open spec fn wf(self) -> bool {
        forall|i: int|
            0 <= i < self.accounts@.len() ==> (#[trigger] self.accounts@[i]).account_id == i
    }

    /// Whether an account with this id exists.
    pub open spec fn has(self, id: u64) -> bool {
        id < self.accounts@.len()
    }

    /// The balance of account `id` in `c`.
    pub open spec fn bal(self, id: u64, c: Currency) -> u64 {
        self.accounts@[id as int].balance_spec(c)
    }

    /// How many accounts exist.
    pub open spec fn count(self) -> int {
        self.accounts@.len() as int
    }

    /// An empty ledger.
    pub fn new() -> (r: Ledger)
        ensures
            r.wf(),
            r.count() == 0,
    {
        Ledger { accounts: Vec::new() }
    }

    /// Creates a fresh account and returns its id. Existing accounts are
    /// untouched.
    pub fn open_account(&mut self, acc_type: AccountType) -> (id: u64)
        requires
            old(self).wf(),
            old(self).count() < u64::MAX,
        ensures
            final(self).wf(),
            id == old(self).count(),
            final(self).count() == old(self).count() + 1,
            final(self).has(id),
            forall|c: Currency| final(self).bal(id, c) == 0,
            forall|i: u64, c: Currency|
                old(self).has(i) ==> #[trigger] final(self).bal(i, c) == old(self).bal(i, c),
    {
        let id = self.accounts.len() as u64;
        let account = Account::new(id, acc_type);
        self.accounts.push(account);
        id
    }

    /// Adds `amount` to account `id`'s balance in `currency`; every other
    /// account and currency is untouched.
    pub fn deposit(&mut self, id: u64, currency: Currency, amount: u64)
        requires
            old(self).wf(),
            old(self).has(id),
            old(self).bal(id, currency) + amount <= u64::MAX,
        ensures
            final(self).wf(),
            final(self).count() == old(self).count(),
            final(self).bal(id, currency) == old(self).bal(id, currency) + amount,
            forall|i: u64, c: Currency|
                old(self).has(i) && !(i == id && c == currency) ==> #[trigger] final(self).bal(
                    i,
                    c,
                ) == old(self).bal(i, c),
    {
        let n = self.accounts.len();
        assert(id < n as u64);
        let idx = id as usize;
        let mut account = self.accounts.remove(idx);
        account.deposit(currency, amount);
        self.accounts.insert(idx, account);
        proof {
            assert(self.accounts@ =~= old(self).accounts@.update(
                id as int,
                self.accounts@[id as int],
            ));
        }
    }

    /// Subtracts `amount` from account `id`'s balance in `currency`, or
    /// refuses with `InsufficientFunds` — changing nothing — when the balance
    /// does not cover it.
    pub fn withdraw(&mut self, id: u64, currency: Currency, amount: u64) -> (r: Result<
        (),
        BookError,
    >)
        requires
            old(self).wf(),
            old(self).has(id),
        ensures
            final(self).wf(),
            final(self).count() == old(self).count(),
            r is Ok <==> old(self).bal(id, currency) >= amount,
            r is Ok ==> final(self).bal(id, currency) == old(self).bal(id, currency) - amount,
            r is Err ==> *final(self) == *old(self) && r == Err::<(), BookError>(
                BookError::InsufficientFunds,
            ),
            forall|i: u64, c: Currency|
                old(self).has(i) && !(i == id && c == currency) ==> #[trigger] final(self).bal(
                    i,
                    c,
                ) == old(self).bal(i, c),
    {
        let n = self.accounts.len();
        assert(id < n as u64);
        let idx = id as usize;
        let balance = self.accounts[idx].balance(currency);
        if balance < amount {
            return Err(BookError::InsufficientFunds);
        }
        let mut account = self.accounts.remove(idx);
        let res = account.withdraw(currency, amount);
        self.accounts.insert(idx, account);
        proof {
            assert(self.accounts@ =~= old(self).accounts@.update(
                id as int,
                self.accounts@[id as int],
            ));
        }
        res
    }

    /// The balance of account `id` in `currency`.
    pub fn balance(&self, id: u64, currency: Currency) -> (r: u64)
        requires
            self.has(id),
        ensures
            r == self.bal(id, currency),
    {
        let n = self.accounts.len();
        assert(id < n as u64);
        self.accounts[id as usize].balance(currency)
    }
}

} // verus!
