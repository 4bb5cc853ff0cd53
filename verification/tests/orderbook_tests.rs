use lobster::orderbook::OrderBook;
use lobster::orderbook::Price;
use lobster::orderbook::Quantity;
use lobster::Fill;

#[test]
fn add_then_remove() {
    let mut book = OrderBook::default();
    book.buy(0, 4, 23);
    assert!(book.remove(0));
    assert!(!book.remove(0));
}

#[test]
fn orderbook_multiple_fills_with_cancel() {
    let mut book = OrderBook::default();
    book.sell(0, 2, 5);
    book.sell(1, 3, 6);
    book.sell(2, 4, 7);
    book.remove(0);
    let fills = book.buy(3, 6, 7);

    assert_eq!(
        fills,
        vec![Fill::new(1, 3, 6, true), Fill::new(2, 3, 7, false)]
    );
}

#[test]
fn orderbook_fire_for_order_that_was_filled_exactly() {
    let mut book = OrderBook::default();
    book.sell(0, 2, 23);
    let fills = book.buy(1, 2, 23);
    assert_eq!(fills, vec![Fill::new(0, 2, 23, true)]);
    let fills = book.buy(2, 2, 23);
    assert_eq!(fills, vec![]);

    let mut book = OrderBook::default();
    book.buy(0, 2, 23);
    let fills = book.sell(1, 2, 23);
    assert_eq!(fills, vec![Fill::new(0, 2, 23, true)]);
    let fills = book.sell(2, 2, 23);
    assert_eq!(fills, vec![]);
}

#[test]
fn orderbook_fire_for_order_that_was_filled_excessively() {
    let mut book = OrderBook::default();
    book.sell(0, 1, 23);
    let fills = book.buy(1, 2, 23);
    assert_eq!(fills, vec![Fill::new(0, 1, 23, true)]);
    let fills = book.buy(2, 1, 23);
    assert_eq!(fills, vec![]);

    let mut book = OrderBook::default();
    book.buy(0, 1, 23);
    let fills = book.sell(1, 2, 23);
    assert_eq!(fills, vec![Fill::new(0, 1, 23, true)]);
    let fills = book.sell(2, 1, 23);
    assert_eq!(fills, vec![]);
}

#[test]
fn orderbook_trade_twice_with_resting_order() {
    let mut book = OrderBook::default();
    book.sell(0, 2, 23);
    let fills = book.buy(1, 1, 23);
    assert_eq!(fills, vec![Fill::new(0, 1, 23, false)]);
    let fills = book.buy(2, 1, 23);
    assert_eq!(fills, vec![Fill::new(0, 1, 23, true)]);

    let mut book = OrderBook::default();
    book.buy(0, 2, 23);
    let fills = book.sell(1, 1, 23);
    assert_eq!(fills, vec![Fill::new(0, 1, 23, false)]);
    let fills = book.sell(2, 1, 23);
    assert_eq!(fills, vec![Fill::new(0, 1, 23, true)]);
}

#[test]
fn test_quantity_limits() {
    let mut book = OrderBook::default();
    book.buy(0, Quantity::MAX, 23);
    let fills = book.sell(1, Quantity::MAX, 23);
    assert_eq!(fills, vec![Fill::new(0, Quantity::MAX, 23, true)]);

    let mut book = OrderBook::default();
    book.sell(0, Quantity::MAX, 23);
    let fills = book.buy(1, Quantity::MAX, 23);
    assert_eq!(fills, vec![Fill::new(0, Quantity::MAX, 23, true)]);
}

#[test]
fn trade_twice_with_resting_order_price_limits() {
    let mut book = OrderBook::default();
    book.sell(0, 2, Price::MIN);
    let fills = book.buy(1, 1, Price::MIN);
    assert_eq!(fills, vec![Fill::new(0, 1, Price::MIN as u64, false)]);
    let fills = book.buy(2, 1, Price::MIN);
    assert_eq!(fills, vec![Fill::new(0, 1, Price::MIN as u64, true)]);

    let mut book = OrderBook::default();
    book.buy(0, 2, Price::MIN);
    let fills = book.sell(1, 1, Price::MIN);
    assert_eq!(fills, vec![Fill::new(0, 1, Price::MIN as u64, false)]);
    let fills = book.sell(2, 1, Price::MIN);
    assert_eq!(fills, vec![Fill::new(0, 1, Price::MIN as u64, true)]);

    let mut book = OrderBook::default();
    book.sell(0, 2, Price::MAX);
    let fills = book.buy(1, 1, Price::MAX);
    assert_eq!(fills, vec![Fill::new(0, 1, Price::MAX as u64, false)]);
    let fills = book.buy(2, 1, Price::MAX);
    assert_eq!(fills, vec![Fill::new(0, 1, Price::MAX as u64, true)]);

    let mut book = OrderBook::default();
    book.buy(0, 2, Price::MAX);
    let fills = book.sell(1, 1, Price::MAX);
    assert_eq!(fills, vec![Fill::new(0, 1, Price::MAX as u64, false)]);
    let fills = book.sell(2, 1, Price::MAX);
    assert_eq!(fills, vec![Fill::new(0, 1, Price::MAX as u64, true)]);
}
