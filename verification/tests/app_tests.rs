use orderbook::app::App;
use orderbook::currency::Currency;

#[test]
fn test_app_defaults() {
    let app = App::new();
    assert!(app.running);
    assert_eq!(app.counter, 0);
    assert_eq!(app.updates.len(), 1);
    assert_eq!(app.positions, vec![0]);
    assert_eq!(app.command_line, "");
    assert_eq!(app.session_book.ticks.len(), 0);
    assert_eq!(app.ledger.balance(app.user_account, Currency::USD), 0);
}

#[test]
fn test_app_quit() {
    let mut app = App::new();
    app.tick();
    app.quit();
    assert!(!app.running);
}

#[test]
fn test_app_counter_saturates() {
    let mut app = App::new();
    app.decrement_counter();
    assert_eq!(app.counter, 0);
    app.increment_counter();
    app.increment_counter();
    assert_eq!(app.counter, 2);
    app.decrement_counter();
    assert_eq!(app.counter, 1);
    for _ in 0..300 {
        app.increment_counter();
    }
    assert_eq!(app.counter, u8::MAX);
}
