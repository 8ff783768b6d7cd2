use orderbook::account::AccountType;
use orderbook::ledger::Ledger;
use orderbook::order::{Order, OrderDirection, OrderType};
use orderbook::tick::Tick;

// Helper for placing orders on a tick (manual placement to avoid testing
// co-dependency). Each order gets its own freshly opened ledger account.
fn place_orders(ledger: &mut Ledger, tick: &mut Tick, num_orders: u64, quantity_per_order: u64) {
    for i in 0..num_orders {
        let owner = ledger.open_account(AccountType::Individual);
        let order = Order::new(
            i,
            tick.tick_id,
            0,
            owner,
            OrderType::Market,
            OrderDirection::Bid,
            quantity_per_order,
        );
        tick.orders.push_back(order);
        tick.total_orders += quantity_per_order;
    }
}

#[test]
fn test_fill_tick() {
    // Place 10 orders of 10 quantity each on tick 0
    let mut ledger = Ledger::new();
    let mut tick = Tick::new(0);
    place_orders(&mut ledger, &mut tick, 10, 10);

    // Fill 55 quantity on the tick. Since the whole input is consumed, the
    // remaining quantity should be 0.
    assert_eq!(tick.fill_tick(&mut ledger, 55), 0);

    // Check that the five filled orders were removed from the tick.
    // The partially filled order should still be there.
    assert_eq!(tick.orders.len(), 5);

    // Strict FIFO: the head order carries the partial fill of 55 % 10.
    assert_eq!(tick.orders[0].quantity, 5);

    // The aggregate counter tracks the drained quantity.
    assert_eq!(tick.total_orders, 45);

    // Fill the remaining 50 quantity on the tick.
    // Since there is only 45 quantity left on the tick, this fills the whole tick and overflows 5 units.
    assert_eq!(tick.fill_tick(&mut ledger, 50), 5);

    // The tick should have zero orders remaining.
    assert_eq!(tick.orders.len(), 0);
    assert_eq!(tick.total_orders, 0);
}

#[test]
fn test_fill_tick_shared_owner() {
    // The same account may stand behind several resting orders at once; a
    // fill on any of them must be immediately visible on the one ledger
    // entry.
    let mut ledger = Ledger::new();
    let owner = ledger.open_account(AccountType::Individual);
    let mut tick = Tick::new(4);
    for i in 0..3u64 {
        let order = Order::new(i, 4, 0, owner, OrderType::Limit, OrderDirection::Ask, 10);
        tick.place_limit(order).unwrap();
    }
    assert_eq!(tick.total_orders, 30);

    // Draining 25 settles 25 units at price 4 into the single shared entry.
    assert_eq!(tick.fill_tick(&mut ledger, 25), 0);
    assert_eq!(ledger.balance(owner, orderbook::currency::Currency::USD), 25 * 4);
    assert_eq!(tick.orders.len(), 1);
    assert_eq!(tick.orders[0].quantity, 5);
}

#[test]
fn test_place_limit() {
    let mut ledger = Ledger::new();
    let owner = ledger.open_account(AccountType::Individual);
    let mut tick = Tick::new(0);
    let order = Order::new(0, tick.tick_id, 0, owner, OrderType::Limit, OrderDirection::Bid, 100);

    // Place limit on tick
    let result = tick.place_limit(order);

    // Check that result returned was not an error
    assert_eq!(result.is_err(), false);

    // Check that the tick's queue was correctly updated
    assert_eq!(tick.orders.len(), 1);
    assert_eq!(tick.total_orders, 100);
}

#[test]
fn test_place_limit_error() {
    let mut ledger = Ledger::new();
    let owner = ledger.open_account(AccountType::Individual);
    let mut tick = Tick::new(0);

    // Attempt to place market order
    let order = Order::new(0, tick.tick_id, 0, owner, OrderType::Market, OrderDirection::Bid, 100);

    // Assert that correct error is returned
    let result = tick.place_limit(order);
    assert_eq!(result.unwrap_err().message(), "Order is not a limit order");

    // Assert that tick's queue was not updated
    assert_eq!(tick.orders.len(), 0);
}
