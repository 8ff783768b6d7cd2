use orderbook::account::{Account, AccountType};
use orderbook::currency::Currency;
use orderbook::errors::BookError;
use orderbook::ledger::Ledger;

#[test]
fn test_deposit_withdraw_balance() {
    let mut account = Account::new(7, AccountType::Individual);
    assert_eq!(account.balance(Currency::USD), 0);
    assert_eq!(account.balance(Currency::OSMO), 0);

    account.deposit(Currency::USD, 250);
    account.deposit(Currency::USD, 50);
    account.deposit(Currency::OSMO, 10);
    assert_eq!(account.balance(Currency::USD), 300);
    assert_eq!(account.balance(Currency::OSMO), 10);

    assert!(account.withdraw(Currency::USD, 100).is_ok());
    assert_eq!(account.balance(Currency::USD), 200);
}

#[test]
fn test_conservation_over_call_sequence() {
    // The balance always equals deposits minus successful withdrawals, and a
    // failed withdrawal leaves it untouched.
    let mut account = Account::new(0, AccountType::Individual);
    account.deposit(Currency::USD, 100);
    account.deposit(Currency::USD, 40);
    assert!(account.withdraw(Currency::USD, 30).is_ok());

    // 100 + 40 - 30
    assert_eq!(account.balance(Currency::USD), 110);

    // An overdraw fails whole: no partial subtraction.
    let refused = account.withdraw(Currency::USD, 111);
    assert_eq!(refused.unwrap_err(), BookError::InsufficientFunds);
    assert_eq!(account.balance(Currency::USD), 110);

    // The other currency was never touched.
    assert_eq!(account.balance(Currency::OSMO), 0);

    assert!(account.withdraw(Currency::USD, 110).is_ok());
    assert_eq!(account.balance(Currency::USD), 0);
}

#[test]
fn test_balance_at_extremes() {
    let mut account = Account::new(0, AccountType::Individual);
    account.deposit(Currency::USD, u64::MAX);
    assert_eq!(account.balance(Currency::USD), u64::MAX);
    assert!(account.withdraw(Currency::USD, u64::MAX).is_ok());
    assert_eq!(account.balance(Currency::USD), 0);
}

#[test]
fn test_insufficient_funds_message() {
    let mut account = Account::new(0, AccountType::Individual);
    let refused = account.withdraw(Currency::OSMO, 1);
    assert_eq!(refused.unwrap_err().message(), "Insufficient funds");
}

#[test]
fn test_ledger_routes_by_account_id() {
    let mut ledger = Ledger::new();
    let alice = ledger.open_account(AccountType::Individual);
    let bob = ledger.open_account(AccountType::Individual);
    let escrow = ledger.open_account(AccountType::Orderbook);
    assert_eq!(alice, 0);
    assert_eq!(bob, 1);
    assert_eq!(escrow, 2);

    ledger.deposit(alice, Currency::USD, 500);
    ledger.deposit(bob, Currency::USD, 70);
    assert_eq!(ledger.balance(alice, Currency::USD), 500);
    assert_eq!(ledger.balance(bob, Currency::USD), 70);
    assert_eq!(ledger.balance(escrow, Currency::USD), 0);

    assert!(ledger.withdraw(bob, Currency::USD, 70).is_ok());
    assert_eq!(ledger.balance(bob, Currency::USD), 0);
    assert_eq!(ledger.balance(alice, Currency::USD), 500);

    let refused = ledger.withdraw(bob, Currency::USD, 1);
    assert_eq!(refused.unwrap_err(), BookError::InsufficientFunds);
    assert_eq!(ledger.balance(bob, Currency::USD), 0);
}
