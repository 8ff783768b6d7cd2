use orderbook::account::AccountType;
use orderbook::currency::Currency;
use orderbook::ledger::Ledger;
use orderbook::order::{Order, OrderDirection, OrderType};

#[test]
fn test_fill_order_bid() {
    let mut ledger = Ledger::new();
    let owner = ledger.open_account(AccountType::Individual);
    let mut order = Order::new(0, 5, 0, owner, OrderType::Limit, OrderDirection::Bid, 100);

    // All of the input is consumed, so the remaining input quantity should be 0.
    assert_eq!(order.fill_order(&mut ledger, 50), 0);

    // There is still 50 left to fill, so the order quantity should be 50.
    assert_eq!(order.quantity(), 50);

    // Fill another 50 units.
    assert_eq!(order.fill_order(&mut ledger, 50), 0);

    // There is no more quantity left to fill, so the order quantity should be 0.
    assert_eq!(order.quantity(), 0);

    // Attempting to fill another 50 should be unsuccessful and just return the full input amount.
    assert_eq!(order.fill_order(&mut ledger, 50), 50);

    // Sanity check that the order quantity is still 0.
    assert_eq!(order.quantity(), 0);

    // Sanity check that the owner's balance is 100.
    assert_eq!(ledger.balance(owner, Currency::OSMO), 100);
}

#[test]
fn test_fill_order_ask() {
    let mut ledger = Ledger::new();
    let owner = ledger.open_account(AccountType::Individual);
    let mut order = Order::new(0, 5, 0, owner, OrderType::Limit, OrderDirection::Ask, 100);

    // All of the input is consumed, so the remaining input quantity should be 0.
    assert_eq!(order.fill_order(&mut ledger, 50), 0);

    // There is still 50 left to fill, so the order quantity should be 50.
    assert_eq!(order.quantity(), 50);

    // Fill another 50 units.
    assert_eq!(order.fill_order(&mut ledger, 50), 0);

    // There is no more quantity left to fill, so the order quantity should be 0.
    assert_eq!(order.quantity(), 0);

    // Attempting to fill another 50 should be unsuccessful and just return the full input amount.
    assert_eq!(order.fill_order(&mut ledger, 50), 50);

    // Sanity check that the order quantity is still 0.
    assert_eq!(order.quantity(), 0);

    // Sanity check that the owner's balance is 500 USD since 100 OSMO was sold at tick 5 (5 USD per OSMO).
    assert_eq!(ledger.balance(owner, Currency::USD), 500);
}

#[test]
fn test_settlement_legs() {
    // A bid debits counter asset at price-per-unit and is credited the traded
    // asset; an ask is the mirror image.
    let mut ledger = Ledger::new();
    let buyer = ledger.open_account(AccountType::Individual);
    let seller = ledger.open_account(AccountType::Individual);
    ledger.deposit(buyer, Currency::USD, 1000);
    ledger.deposit(seller, Currency::OSMO, 100);

    let bid = Order::new(0, 7, 0, buyer, OrderType::Limit, OrderDirection::Bid, 100);
    let ask = Order::new(1, 7, 0, seller, OrderType::Limit, OrderDirection::Ask, 100);

    assert!(bid.withdraw_deposited_assets(&mut ledger, 30, 7).is_ok());
    assert_eq!(ledger.balance(buyer, Currency::USD), 1000 - 30 * 7);
    bid.distribute_filled_assets(&mut ledger, 30, 7);
    assert_eq!(ledger.balance(buyer, Currency::OSMO), 30);

    assert!(ask.withdraw_deposited_assets(&mut ledger, 30, 7).is_ok());
    assert_eq!(ledger.balance(seller, Currency::OSMO), 70);
    ask.distribute_filled_assets(&mut ledger, 30, 7);
    assert_eq!(ledger.balance(seller, Currency::USD), 30 * 7);

    // An uncovered debit is refused without any change.
    assert!(bid.withdraw_deposited_assets(&mut ledger, 1000, 7).is_err());
    assert_eq!(ledger.balance(buyer, Currency::USD), 1000 - 30 * 7);
}
