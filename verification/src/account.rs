//! Per-participant ledger entries: balances over the currency set, with
//! deposit and withdraw primitives and fund-sufficiency checks.

use vstd::prelude::*;
use crate::currency::Currency;
use crate::errors::BookError;

verus! {

/// Whether a ledger entry belongs to an individual participant or to the
/// book itself (escrow).
#[derive(PartialEq, Eq, Structural, Copy, Clone, Debug)]
pub enum AccountType {
    Individual,
    Orderbook,
}

/// One participant's balances. Balances start at zero for every currency and
/// can never go negative: a withdrawal that would overdraw is refused whole.
#[derive(Debug)]
pub struct Account {
    pub account_id: u64,
    pub account_type: AccountType,
    pub usd: u64,
    pub osmo: u64,
}

/// One balance-changing call, for stating laws about call sequences.
#[derive(Copy, Clone, Debug)]
pub enum LedgerOp {
    Deposit { currency: Currency, amount: u64 },
    Withdraw { currency: Currency, amount: u64 },
}

/// The balance in `c` after one operation, starting from balance `b`:
/// a deposit always adds; a withdrawal subtracts only when covered, and
/// leaves the balance unchanged when it is not.
pub open spec fn op_step(b: int, op: LedgerOp, c: Currency) -> int {
    match op {
        LedgerOp::Deposit { currency, amount } => if currency == c {
            b + amount
        } else {
            b
        },
        LedgerOp::Withdraw { currency, amount } => if currency == c && b >= amount {
            b - amount
        } else {
            b
        },
    }
}

/// The balance in `c` after a whole sequence of operations, first to last.
pub open spec fn balance_after_ops(b: int, ops: Seq<LedgerOp>, c: Currency) -> int
    decreases ops.len(),
{
    if ops.len() == 0 {
        b
    } else {
        balance_after_ops(op_step(b, ops[0], c), ops.drop_first(), c)
    }
}

/// The sum of all amounts deposited into `c` by `ops`.
pub open spec fn deposits_total(ops: Seq<LedgerOp>, c: Currency) -> int
    decreases ops.len(),
{
    if ops.len() == 0 {
        0
    } else {
        (match ops[0] {
            LedgerOp::Deposit { currency, amount } => if currency == c {
                amount as int
            } else {
                0
            },
            LedgerOp::Withdraw { .. } => 0,
        }) + deposits_total(ops.drop_first(), c)
    }
}

/// The sum of all amounts that withdrawals from `c` in `ops` actually take,
/// starting from balance `b`: a withdrawal counts only when the balance at
/// its turn covers it.
pub open spec fn withdrawals_total(b: int, ops: Seq<LedgerOp>, c: Currency) -> int
    decreases ops.len(),
{
    if ops.len() == 0 {
        0
    } else {
        (match ops[0] {
            LedgerOp::Withdraw { currency, amount } => if currency == c && b >= amount {
                amount as int
            } else {
                0
            },
            LedgerOp::Deposit { .. } => 0,
        }) + withdrawals_total(op_step(b, ops[0], c), ops.drop_first(), c)
    }
}

/// Conservation: after any sequence of deposit and withdraw operations the
/// balance equals the starting balance plus everything deposited minus
/// everything successfully withdrawn, and it never goes negative.
pub proof fn lemma_account_conservation(b: int, ops: Seq<LedgerOp>, c: Currency)
    requires
        b >= 0,
    ensures
        balance_after_ops(b, ops, c) == b + deposits_total(ops, c) - withdrawals_total(b, ops, c),
        balance_after_ops(b, ops, c) >= 0,
    decreases ops.len(),
{
    if ops.len() > 0 {
        lemma_account_conservation(op_step(b, ops[0], c), ops.drop_first(), c);
    }
}

impl Account {
    /// The balance held in `currency`.
    pub open spec fn balance_spec(self, currency: Currency) -> u64 {
        match currency {
            Currency::USD => self.usd,
            Currency::OSMO => self.osmo,
        }
    }

    /// A fresh entry with every balance at zero.
    pub fn new(acc_id: u64, acc_type: AccountType) -> (r: Account)
        ensures
            r.account_id == acc_id,
            r.account_type == acc_type,
            forall|c: Currency| r.balance_spec(c) == 0,
    {
        Account { account_id: acc_id, account_type: acc_type, usd: 0, osmo: 0 }
    }

    /// Adds `amount` to the balance for `currency`; never fails.
    pub fn deposit(&mut self, currency: Currency, amount: u64)
        requires
            old(self).balance_spec(currency) + amount <= u64::MAX,
        ensures
            final(self).balance_spec(currency) == old(self).balance_spec(currency) + amount,
            forall|c: Currency| c != currency ==> final(self).balance_spec(c) == old(
                self,
            ).balance_spec(c),
            forall|c: Currency|
                final(self).balance_spec(c) == op_step(
                    old(self).balance_spec(c) as int,
                    LedgerOp::Deposit { currency, amount },
                    c,
                ),
            final(self).account_id == old(self).account_id,
            final(self).account_type == old(self).account_type,
    {
        match currency {
            Currency::USD => {
                self.usd = self.usd + amount;
            },
            Currency::OSMO => {
                self.osmo = self.osmo + amount;
            },
        }
    }

    /// Subtracts `amount` from the balance for `currency`, or refuses with
    /// `InsufficientFunds` — leaving the balance untouched — when the balance
    /// does not cover it.
    pub fn withdraw(&mut self, currency: Currency, amount: u64) -> (r: Result<(), BookError>)
        ensures
            r is Ok <==> old(self).balance_spec(currency) >= amount,
            r is Ok ==> final(self).balance_spec(currency) == old(self).balance_spec(currency)
                - amount,
            r is Err ==> *final(self) == *old(self) && r == Err::<(), BookError>(
                BookError::InsufficientFunds,
            ),
            forall|c: Currency| c != currency ==> final(self).balance_spec(c) == old(
                self,
            ).balance_spec(c),
            forall|c: Currency|
                final(self).balance_spec(c) == op_step(
                    old(self).balance_spec(c) as int,
                    LedgerOp::Withdraw { currency, amount },
                    c,
                ),
            final(self).account_id == old(self).account_id,
            final(self).account_type == old(self).account_type,
    {
        let balance = self.balance(currency);
        if balance < amount {
            return Err(BookError::InsufficientFunds);
        }
        match currency {
            Currency::USD => {
                self.usd = self.usd - amount;
            },
            Currency::OSMO => {
                self.osmo = self.osmo - amount;
            },
        }
        Ok(())
    }

    /// The current balance for `currency`; zero if never deposited.
    pub fn balance(&self, currency: Currency) -> (r: u64)
        ensures
            r == self.balance_spec(currency),
    {
        match currency {
            Currency::USD => self.usd,
            Currency::OSMO => self.osmo,
        }
    }
}

} // verus!
