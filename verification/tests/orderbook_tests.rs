use orderbook::account::AccountType;
use orderbook::currency::Currency;
use orderbook::errors::BookError;
use orderbook::ledger::Ledger;
use orderbook::order::{Order, OrderDirection, OrderType};
use orderbook::orderbook::Orderbook;
use orderbook::tick::Tick;

const BASE_OSMO_AMT: u64 = 10000;
const BASE_USD_AMT: u64 = 100000;

// Test helper that creates a specified number of orders of equal quantity on
// the passed-in tick, each with its own freshly opened account, keeping the
// price index sorted and the aggregate counters exact.
fn create_limit_orders(
    book: &mut Orderbook,
    ledger: &mut Ledger,
    tick_id: u64,
    num_orders: u64,
    quantity: u64,
    order_direction: OrderDirection,
) {
    for i in 0..num_orders {
        let owner = ledger.open_account(AccountType::Individual);
        let order = Order::new(i, tick_id, 0, owner, OrderType::Limit, order_direction, quantity);

        let mut pos = book.ticks.len();
        let mut found = false;
        for j in 0..book.ticks.len() {
            if book.ticks[j].tick_id == tick_id {
                pos = j;
                found = true;
                break;
            }
            if book.ticks[j].tick_id > tick_id {
                pos = j;
                break;
            }
        }
        if !found {
            book.ticks.insert(pos, Tick::new(tick_id));
        }
        book.ticks[pos].orders.push_back(order);
        book.ticks[pos].total_orders += quantity;
    }
}

fn has_level(book: &Orderbook, t: u64) -> bool {
    book.ticks.iter().any(|level| level.tick_id == t)
}

fn level_total(book: &Orderbook, t: u64) -> u64 {
    book.ticks
        .iter()
        .find(|level| level.tick_id == t)
        .map(|level| level.total_orders)
        .unwrap()
}

// Helper that funds an account with 100000 USD and 10000 OSMO
fn fund_account(ledger: &mut Ledger, owner: u64) {
    ledger.deposit(owner, Currency::USD, BASE_USD_AMT);
    ledger.deposit(owner, Currency::OSMO, BASE_OSMO_AMT);
}

#[test]
fn test_run_market_bid() {
    let mut ledger = Ledger::new();
    let mut book = Orderbook::new(0);

    // set next ask tick on book to tick 10
    book.next_ask_tick = Some(10);

    // create orders on tick 10 (next ask tick)
    create_limit_orders(&mut book, &mut ledger, 10, 3, 100, OrderDirection::Ask);

    // create orders on ticks 13, 14, and 21 to add more depth on the ask side
    create_limit_orders(&mut book, &mut ledger, 13, 3, 100, OrderDirection::Ask);
    create_limit_orders(&mut book, &mut ledger, 14, 3, 100, OrderDirection::Ask);
    create_limit_orders(&mut book, &mut ledger, 21, 3, 100, OrderDirection::Ask);

    // run a sweep for 1000 quantity
    // since market depth is 1200 (four ticks with 300 each), this should fill up to tick 21
    let aggressor = ledger.open_account(AccountType::Individual);
    let order = Order::new(13, 0, 0, aggressor, OrderType::Market, OrderDirection::Ask, 1000);

    fund_account(&mut ledger, aggressor);

    // System under test
    book.run_market_bid(&mut ledger, &order, u64::MAX, 1000).unwrap();

    // ticks 10, 13, and 14 should all be emptied and removed from the book
    assert!(!has_level(&book, 10));
    assert!(!has_level(&book, 13));
    assert!(!has_level(&book, 14));

    // tick 21 should still be in the book and have 200 quantity left
    assert!(has_level(&book, 21));
    assert_eq!(level_total(&book, 21), 200);

    // next ask tick should be updated to 21
    assert_eq!(book.next_ask_tick, Some(21));

    // We expect the USD balance to be equal to the quantity filled at each tick times the prices at each tick
    assert_eq!(
        ledger.balance(aggressor, Currency::USD),
        BASE_USD_AMT + 300 * (10 + 13 + 14) + 100 * 21
    );
}

#[test]
fn test_run_market_bid_with_end_tick() {
    let mut ledger = Ledger::new();
    let mut book = Orderbook::new(0);

    // set next ask tick on book to tick 10
    book.next_ask_tick = Some(10);

    // create orders on tick 10 (next ask tick)
    create_limit_orders(&mut book, &mut ledger, 10, 3, 100, OrderDirection::Ask);

    // create orders on ticks 13, 14, and 21 to add more depth on the ask side
    create_limit_orders(&mut book, &mut ledger, 13, 3, 100, OrderDirection::Ask);
    create_limit_orders(&mut book, &mut ledger, 14, 3, 100, OrderDirection::Ask);
    create_limit_orders(&mut book, &mut ledger, 21, 3, 100, OrderDirection::Ask);

    // run a sweep for 1000 quantity bounded at tick 21
    // this should fill only the levels strictly below the bound
    let aggressor = ledger.open_account(AccountType::Individual);
    let order = Order::new(13, 0, 0, aggressor, OrderType::Market, OrderDirection::Ask, 1000);

    fund_account(&mut ledger, aggressor);

    // System under test
    book.run_market_bid(&mut ledger, &order, 21, 1000).unwrap();

    // ticks 10, 13, and 14 should all be emptied and removed from the book
    assert!(!has_level(&book, 10));
    assert!(!has_level(&book, 13));
    assert!(!has_level(&book, 14));

    // tick 21 should still be in the book and remain untouched, as we stopped filling before processing it
    assert!(has_level(&book, 21));
    assert_eq!(level_total(&book, 21), 300);

    // next ask tick should be updated to 21
    assert_eq!(book.next_ask_tick, Some(21));

    // We expect the USD balance to be equal to the quantity filled at each tick times the prices at each tick
    assert_eq!(
        ledger.balance(aggressor, Currency::USD),
        BASE_USD_AMT + 300 * (10 + 13 + 14)
    );
}

#[test]
fn test_run_market_ask() {
    let mut ledger = Ledger::new();
    let mut book = Orderbook::new(0);

    // set next bid tick on book to tick 21
    book.next_bid_tick = Some(21);

    // create orders on ticks 10, 13, 14, and 21 (latter is next bid tick)
    create_limit_orders(&mut book, &mut ledger, 10, 3, 100, OrderDirection::Bid);
    create_limit_orders(&mut book, &mut ledger, 13, 3, 100, OrderDirection::Bid);
    create_limit_orders(&mut book, &mut ledger, 14, 3, 100, OrderDirection::Bid);
    create_limit_orders(&mut book, &mut ledger, 21, 3, 100, OrderDirection::Bid);

    // run a sweep for 1000 quantity
    // since market depth is 1200 (four ticks with 300 each), this should fill down to tick 10
    let aggressor = ledger.open_account(AccountType::Individual);
    let order = Order::new(13, 0, 0, aggressor, OrderType::Market, OrderDirection::Bid, 1000);

    fund_account(&mut ledger, aggressor);

    // System under test
    book.run_market_ask(&mut ledger, &order, u64::MIN, 1000).unwrap();

    // ticks 13, 14 and 21 should all be emptied and removed from the book
    assert!(!has_level(&book, 13));
    assert!(!has_level(&book, 14));
    assert!(!has_level(&book, 21));

    // tick 10 should still be in the book and have 200 quantity left
    assert!(has_level(&book, 10));
    assert_eq!(level_total(&book, 10), 200);

    // next bid tick should be updated to 10
    assert_eq!(book.next_bid_tick, Some(10));

    // We expect the OSMO balance to be equal to the quantity filled on each tick
    assert_eq!(
        ledger.balance(aggressor, Currency::OSMO),
        BASE_OSMO_AMT + 300 * 3 + 100 * 1
    );
}

#[test]
fn test_run_market_ask_with_end_tick() {
    let mut ledger = Ledger::new();
    let mut book = Orderbook::new(0);

    // set next bid tick on book to tick 21
    book.next_bid_tick = Some(21);

    // create orders on ticks 10, 13, 14, and 21 (latter is next bid tick)
    create_limit_orders(&mut book, &mut ledger, 10, 3, 100, OrderDirection::Bid);
    create_limit_orders(&mut book, &mut ledger, 13, 3, 100, OrderDirection::Bid);
    create_limit_orders(&mut book, &mut ledger, 14, 3, 100, OrderDirection::Bid);
    create_limit_orders(&mut book, &mut ledger, 21, 3, 100, OrderDirection::Bid);

    // run a sweep for 1000 quantity bounded at tick 13
    // this should fill only the levels strictly above the bound
    let aggressor = ledger.open_account(AccountType::Individual);
    let order = Order::new(13, 0, 0, aggressor, OrderType::Market, OrderDirection::Bid, 1000);

    fund_account(&mut ledger, aggressor);

    // System under test
    book.run_market_ask(&mut ledger, &order, 13, 1000).unwrap();

    // ticks 14 and 21 should be emptied and removed from the book
    assert!(!has_level(&book, 14));
    assert!(!has_level(&book, 21));

    // ticks 10 and 13 should still be untouched
    assert!(has_level(&book, 10));
    assert!(has_level(&book, 13));
    assert_eq!(level_total(&book, 10), 300);
    assert_eq!(level_total(&book, 13), 300);

    // next bid tick should be updated to 13
    assert_eq!(book.next_bid_tick, Some(13));

    // We expect the OSMO balance to be equal to the quantity filled on each tick
    assert_eq!(ledger.balance(aggressor, Currency::OSMO), BASE_OSMO_AMT + 300 * 2);
}

#[test]
fn test_limit_rest_escrows_collateral() {
    let mut ledger = Ledger::new();
    let mut book = Orderbook::new(0);
    let buyer = ledger.open_account(AccountType::Individual);
    ledger.deposit(buyer, Currency::USD, 5000);

    let mut order = Order::new(0, 12, 0, buyer, OrderType::Limit, OrderDirection::Bid, 100);
    book.handle_order(&mut ledger, &mut order).unwrap();

    // The full collateral (100 units at price 12) left the owner when the
    // order was queued.
    assert_eq!(ledger.balance(buyer, Currency::USD), 5000 - 100 * 12);
    assert!(has_level(&book, 12));
    assert_eq!(level_total(&book, 12), 100);
    assert_eq!(book.next_bid_tick, Some(12));
    assert_eq!(book.next_ask_tick, None);
}

#[test]
fn test_crossing_limit_bid() {
    // A bid priced at or above the best ask consumes ask liquidity up to its
    // own price before the remainder rests at its own price.
    let mut ledger = Ledger::new();
    let mut book = Orderbook::new(0);

    let mut sellers = Vec::new();
    for i in 0..3u64 {
        let seller = ledger.open_account(AccountType::Individual);
        ledger.deposit(seller, Currency::OSMO, 100);
        let mut ask = Order::new(i, 10, 0, seller, OrderType::Limit, OrderDirection::Ask, 100);
        book.handle_order(&mut ledger, &mut ask).unwrap();
        // The seller's whole stock is escrowed while the ask rests.
        assert_eq!(ledger.balance(seller, Currency::OSMO), 0);
        sellers.push(seller);
    }
    assert_eq!(book.next_ask_tick, Some(10));

    let buyer = ledger.open_account(AccountType::Individual);
    ledger.deposit(buyer, Currency::USD, 10000);
    let mut bid = Order::new(3, 11, 0, buyer, OrderType::Limit, OrderDirection::Bid, 400);
    book.handle_order(&mut ledger, &mut bid).unwrap();

    // 300 units crossed at the asks' own price of 10; the remaining 100 rest
    // at the bid's own price of 11 with their collateral escrowed.
    assert_eq!(ledger.balance(buyer, Currency::OSMO), 300);
    assert_eq!(ledger.balance(buyer, Currency::USD), 10000 - 300 * 10 - 100 * 11);
    assert_eq!(bid.quantity(), 100);

    // Each seller was settled at the resting price.
    assert_eq!(ledger.balance(sellers[0], Currency::USD), 100 * 10);

    // The emptied ask level is pruned; the remainder rests at 11.
    assert!(!has_level(&book, 10));
    assert!(has_level(&book, 11));
    assert_eq!(level_total(&book, 11), 100);
    assert_eq!(book.next_bid_tick, Some(11));
    // The ask side ran out, so its cursor is back at the sentinel.
    assert_eq!(book.next_ask_tick, None);
}

#[test]
fn test_crossing_limit_ask() {
    // An ask priced at or below the best bid consumes bid liquidity first.
    let mut ledger = Ledger::new();
    let mut book = Orderbook::new(0);

    let buyer = ledger.open_account(AccountType::Individual);
    ledger.deposit(buyer, Currency::USD, 800);
    let mut bid = Order::new(0, 8, 0, buyer, OrderType::Limit, OrderDirection::Bid, 100);
    book.handle_order(&mut ledger, &mut bid).unwrap();
    assert_eq!(ledger.balance(buyer, Currency::USD), 0);

    let seller = ledger.open_account(AccountType::Individual);
    ledger.deposit(seller, Currency::OSMO, 50);
    let mut ask = Order::new(1, 5, 0, seller, OrderType::Limit, OrderDirection::Ask, 30);
    book.handle_order(&mut ledger, &mut ask).unwrap();

    // The ask crossed fully at the bid's resting price of 8.
    assert_eq!(ledger.balance(seller, Currency::OSMO), 20);
    assert_eq!(ledger.balance(seller, Currency::USD), 30 * 8);
    assert_eq!(ledger.balance(buyer, Currency::OSMO), 30);

    // Nothing rests at 5, and the bid level keeps its remainder.
    assert!(!has_level(&book, 5));
    assert_eq!(level_total(&book, 8), 70);
    assert_eq!(book.next_bid_tick, Some(8));
}

#[test]
fn test_crossing_limit_bid_at_equal_price() {
    // A bid priced exactly at the best ask crosses, but the bound is
    // exclusive: nothing strictly below its price is available, so the whole
    // order rests at that same price.
    let mut ledger = Ledger::new();
    let mut book = Orderbook::new(0);

    let seller = ledger.open_account(AccountType::Individual);
    ledger.deposit(seller, Currency::OSMO, 300);
    let mut ask = Order::new(0, 10, 0, seller, OrderType::Limit, OrderDirection::Ask, 300);
    book.handle_order(&mut ledger, &mut ask).unwrap();

    let buyer = ledger.open_account(AccountType::Individual);
    ledger.deposit(buyer, Currency::USD, 2000);
    let mut bid = Order::new(1, 10, 0, buyer, OrderType::Limit, OrderDirection::Bid, 100);
    book.handle_order(&mut ledger, &mut bid).unwrap();

    // Nothing traded; the bid rests whole at 10, sharing the level with the
    // resting asks.
    assert_eq!(ledger.balance(buyer, Currency::OSMO), 0);
    assert_eq!(ledger.balance(buyer, Currency::USD), 2000 - 100 * 10);
    assert_eq!(level_total(&book, 10), 400);
    assert_eq!(book.next_bid_tick, Some(10));
    assert_eq!(book.next_ask_tick, Some(10));
}

#[test]
fn test_cursor_sentinel_after_exact_fill() {
    // A market order that drains the last ask level exactly leaves the ask
    // cursor at the no-liquidity sentinel, not at the pruned price.
    let mut ledger = Ledger::new();
    let mut book = Orderbook::new(0);

    let seller = ledger.open_account(AccountType::Individual);
    ledger.deposit(seller, Currency::OSMO, 100);
    let mut ask = Order::new(0, 10, 0, seller, OrderType::Limit, OrderDirection::Ask, 100);
    book.handle_order(&mut ledger, &mut ask).unwrap();

    let buyer = ledger.open_account(AccountType::Individual);
    ledger.deposit(buyer, Currency::USD, 1000);
    let mut market = Order::new(1, 0, 0, buyer, OrderType::Market, OrderDirection::Bid, 100);
    book.handle_order(&mut ledger, &mut market).unwrap();

    assert_eq!(ledger.balance(buyer, Currency::OSMO), 100);
    assert_eq!(ledger.balance(buyer, Currency::USD), 0);
    assert_eq!(ledger.balance(seller, Currency::USD), 1000);
    assert_eq!(book.ticks.len(), 0);
    assert_eq!(book.next_ask_tick, None);
}

#[test]
fn test_cursor_advances_past_exactly_drained_level() {
    // When the budget runs out exactly at a level boundary, the cursor moves
    // on to the cheapest level still resting liquidity.
    let mut ledger = Ledger::new();
    let mut book = Orderbook::new(0);
    book.next_ask_tick = Some(10);
    create_limit_orders(&mut book, &mut ledger, 10, 1, 100, OrderDirection::Ask);
    create_limit_orders(&mut book, &mut ledger, 20, 1, 100, OrderDirection::Ask);

    let buyer = ledger.open_account(AccountType::Individual);
    ledger.deposit(buyer, Currency::USD, 1000);
    let mut market = Order::new(2, 0, 0, buyer, OrderType::Market, OrderDirection::Bid, 100);
    book.handle_order(&mut ledger, &mut market).unwrap();

    assert!(!has_level(&book, 10));
    assert!(has_level(&book, 20));
    assert_eq!(book.next_ask_tick, Some(20));
}

#[test]
fn test_cursor_names_a_resting_level_at_the_bound() {
    // A sweep stopped by its terminal bound leaves the cursor on the first
    // level actually resting liquidity, even when no level sits at the bound
    // itself.
    let mut ledger = Ledger::new();
    let mut book = Orderbook::new(0);

    for i in 0..2u64 {
        let seller = ledger.open_account(AccountType::Individual);
        ledger.deposit(seller, Currency::OSMO, 300);
        let price = if i == 0 { 10 } else { 25 };
        let mut ask = Order::new(i, price, 0, seller, OrderType::Limit, OrderDirection::Ask, 300);
        book.handle_order(&mut ledger, &mut ask).unwrap();
    }
    assert_eq!(book.next_ask_tick, Some(10));

    let buyer = ledger.open_account(AccountType::Individual);
    ledger.deposit(buyer, Currency::USD, 10000);
    let mut bid = Order::new(2, 15, 0, buyer, OrderType::Limit, OrderDirection::Bid, 600);
    book.handle_order(&mut ledger, &mut bid).unwrap();

    // 300 crossed at 10; the rest rests at 15; the ask cursor names the level
    // at 25, the cheapest ask still standing.
    assert_eq!(ledger.balance(buyer, Currency::OSMO), 300);
    assert_eq!(ledger.balance(buyer, Currency::USD), 10000 - 300 * 10 - 300 * 15);
    assert!(!has_level(&book, 10));
    assert_eq!(level_total(&book, 15), 300);
    assert_eq!(book.next_ask_tick, Some(25));
    assert_eq!(book.next_bid_tick, Some(15));
}

#[test]
fn test_market_order_insufficient_funds_changes_nothing() {
    // Check-then-commit: an aggressor who cannot pay for the sweep leaves the
    // book and every balance exactly as they were.
    let mut ledger = Ledger::new();
    let mut book = Orderbook::new(0);

    let seller = ledger.open_account(AccountType::Individual);
    ledger.deposit(seller, Currency::OSMO, 100);
    let mut ask = Order::new(0, 10, 0, seller, OrderType::Limit, OrderDirection::Ask, 100);
    book.handle_order(&mut ledger, &mut ask).unwrap();

    let buyer = ledger.open_account(AccountType::Individual);
    ledger.deposit(buyer, Currency::USD, 500);
    let mut market = Order::new(1, 0, 0, buyer, OrderType::Market, OrderDirection::Bid, 100);
    let refused = book.handle_order(&mut ledger, &mut market);
    assert_eq!(refused.unwrap_err(), BookError::InsufficientFunds);

    assert_eq!(ledger.balance(buyer, Currency::USD), 500);
    assert_eq!(ledger.balance(buyer, Currency::OSMO), 0);
    assert_eq!(ledger.balance(seller, Currency::USD), 0);
    assert!(has_level(&book, 10));
    assert_eq!(level_total(&book, 10), 100);
    assert_eq!(book.next_ask_tick, Some(10));
}

#[test]
fn test_market_order_on_empty_book() {
    // Running out of liquidity is not an error: the unfilled remainder is
    // silently dropped.
    let mut ledger = Ledger::new();
    let mut book = Orderbook::new(0);
    let buyer = ledger.open_account(AccountType::Individual);
    ledger.deposit(buyer, Currency::USD, 1000);

    let mut market = Order::new(0, 0, 0, buyer, OrderType::Market, OrderDirection::Bid, 50);
    book.handle_order(&mut ledger, &mut market).unwrap();

    assert_eq!(ledger.balance(buyer, Currency::USD), 1000);
    assert_eq!(ledger.balance(buyer, Currency::OSMO), 0);
    assert_eq!(book.ticks.len(), 0);
}

#[test]
fn test_limit_escrow_insufficient_funds() {
    let mut ledger = Ledger::new();
    let mut book = Orderbook::new(0);
    let buyer = ledger.open_account(AccountType::Individual);
    ledger.deposit(buyer, Currency::USD, 500);

    // Resting 100 at price 10 needs 1000 of collateral.
    let mut order = Order::new(0, 10, 0, buyer, OrderType::Limit, OrderDirection::Bid, 100);
    let refused = book.handle_order(&mut ledger, &mut order);
    assert_eq!(refused.unwrap_err(), BookError::InsufficientFunds);
    assert_eq!(ledger.balance(buyer, Currency::USD), 500);
    assert_eq!(book.ticks.len(), 0);
}

#[test]
fn test_sweep_cost_beyond_u64_is_insufficient() {
    // A sweep whose cost cannot even be represented can never be paid for:
    // it is refused as InsufficientFunds with nothing changed.
    let mut ledger = Ledger::new();
    let mut book = Orderbook::new(0);

    let seller = ledger.open_account(AccountType::Individual);
    let huge_q: u64 = 10_000_000_000;
    let huge_t: u64 = 10_000_000_000; // cost would be 10^20 > u64::MAX
    let ask = Order::new(0, huge_t, 0, seller, OrderType::Limit, OrderDirection::Ask, huge_q);
    let mut level = Tick::new(huge_t);
    level.orders.push_back(ask);
    level.total_orders = huge_q;
    book.ticks.push(level);
    book.next_ask_tick = Some(huge_t);

    let buyer = ledger.open_account(AccountType::Individual);
    ledger.deposit(buyer, Currency::USD, u64::MAX);
    let mut market = Order::new(1, 0, 0, buyer, OrderType::Market, OrderDirection::Bid, huge_q);
    let refused = book.handle_order(&mut ledger, &mut market);
    assert_eq!(refused.unwrap_err(), BookError::InsufficientFunds);
    assert_eq!(ledger.balance(buyer, Currency::USD), u64::MAX);
    assert_eq!(level_total(&book, huge_t), huge_q);
}

#[test]
fn test_place_limit_rejects_market_order() {
    let mut ledger = Ledger::new();
    let mut book = Orderbook::new(0);
    let owner = ledger.open_account(AccountType::Individual);
    ledger.deposit(owner, Currency::USD, 1000);

    let order = Order::new(0, 10, 0, owner, OrderType::Market, OrderDirection::Bid, 10);
    let refused = book.run_place_limit(&mut ledger, &order);
    assert_eq!(refused.unwrap_err(), BookError::InvalidOrderType);
    assert_eq!(ledger.balance(owner, Currency::USD), 1000);
    assert_eq!(book.ticks.len(), 0);
}
