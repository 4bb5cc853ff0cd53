use lobster::Fill;
use lobster::SimpleOrder;
use lobster::VecBook;

type MyBook = VecBook<SimpleOrder>;
type MyOrder = SimpleOrder;

#[test]
fn partial_fill() {
    let mut book = MyBook::default();
    book.sell(MyOrder::new(0, 2, 5));
    let mut fills = book.buy(MyOrder::new(1, 1, 5));
    assert_eq!(fills.next(), Some(Fill::partial(0, 1, 5)));
    assert_eq!(fills.next(), None);
}

#[test]
fn complete_fill() {
    let mut book = MyBook::default();
    book.sell(MyOrder::new(0, 2, 5));
    let mut fills = book.buy(MyOrder::new(1, 2, 5));
    assert_eq!(fills.next(), Some(Fill::full(0, 2, 5)));
    assert_eq!(fills.next(), None);
}

#[test]
fn order_with_zero_quantity() {
    let mut book = MyBook::default();
    book.sell(MyOrder::new(0, 2, 5));
    let mut fills = book.buy(MyOrder::new(1, 0, 5));
    assert_eq!(fills.next(), None);
}

#[test]
fn overfill_match_with_resting() {
    let mut book = MyBook::default();
    book.sell(MyOrder::new(0, 2, 5));
    let mut fills = book.buy(MyOrder::new(1, 3, 5));
    assert_eq!(fills.next(), Some(Fill::full(0, 2, 5)));
    assert_eq!(fills.next(), None);
    drop(fills);
    let mut fills = book.sell(MyOrder::new(2, 4, 5));
    assert_eq!(fills.next(), Some(Fill::full(1, 1, 5)));
    assert_eq!(fills.next(), None);
}

#[test]
fn add_order_then_remove_twice() {
    let mut book = MyBook::default();
    let order_id: u64 = 1;
    let order = MyOrder::new(order_id, 1, 2);
    let fills = book.buy(order).into_vec();
    assert!(fills.is_empty());
    assert_eq!(book.len(), 1);
    assert_eq!(book.remove(order_id), Some(order));
    assert_eq!(book.len(), 0);
    assert_eq!(book.remove(order_id), None);
}

#[test]
fn test_multiple_fills_with_cancel() {
    let mut book = MyBook::default();
    book.sell(MyOrder::new(0, 2, 5));
    book.sell(MyOrder::new(1, 3, 6));
    book.sell(MyOrder::new(2, 4, 7));
    book.remove(0);
    let mut fills = book.buy(MyOrder::new(3, 6, 6));
    assert_eq!(fills.next(), Some(Fill::full(1, 3, 6)));
    assert_eq!(fills.next(), None);

    let mut book = MyBook::default();
    book.buy(MyOrder::new(0, 4, 5));
    book.buy(MyOrder::new(1, 3, 6));
    book.buy(MyOrder::new(2, 2, 7));
    book.remove(0);
    let mut fills = book.sell(MyOrder::new(3, 6, 6));
    assert_eq!(fills.next(), Some(Fill::full(2, 2, 7)));
    assert_eq!(fills.next(), Some(Fill::full(1, 3, 6)));
    assert_eq!(fills.next(), None);
}

#[test]
fn test_fire_for_order_that_was_filled_exactly() {
    let mut book = MyBook::default();
    book.sell(MyOrder::new(0, 2, 23));
    let mut fills = book.buy(MyOrder::new(1, 2, 23));
    assert_eq!(fills.next(), Some(Fill::full(0, 2, 23)));
    assert_eq!(fills.next(), None);
    drop(fills);
    let mut fills = book.buy(MyOrder::new(2, 2, 23));
    assert_eq!(fills.next(), None);

    let mut book = MyBook::default();
    book.buy(MyOrder::new(0, 2, 23));
    let mut fills = book.sell(MyOrder::new(1, 2, 23));
    assert_eq!(fills.next(), Some(Fill::full(0, 2, 23)));
    assert_eq!(fills.next(), None);
    drop(fills);
    let mut fills = book.sell(MyOrder::new(2, 2, 23));
    assert_eq!(fills.next(), None);
}

#[test]
fn test_fire_for_order_that_was_filled_excessively() {
    let mut book = MyBook::default();
    book.sell(MyOrder::new(0, 1, 23));
    let mut fills = book.buy(MyOrder::new(1, 2, 23));
    assert_eq!(fills.next(), Some(Fill::full(0, 1, 23)));
    assert_eq!(fills.next(), None);
    drop(fills);
    let mut fills = book.buy(MyOrder::new(2, 1, 23));
    assert_eq!(fills.next(), None);

    let mut book = MyBook::default();
    book.buy(MyOrder::new(0, 1, 23));
    let mut fills = book.sell(MyOrder::new(1, 2, 23));
    assert_eq!(fills.next(), Some(Fill::full(0, 1, 23)));
    assert_eq!(fills.next(), None);
    drop(fills);
    let mut fills = book.sell(MyOrder::new(2, 1, 23));
    assert_eq!(fills.next(), None);
}

#[test]
fn test_trade_twice_with_resting_order() {
    let mut book = MyBook::default();
    book.sell(MyOrder::new(0, 2, 23));
    let mut fills = book.buy(MyOrder::new(1, 1, 23));
    assert_eq!(fills.next(), Some(Fill::partial(0, 1, 23)));
    assert_eq!(fills.next(), None);
    drop(fills);
    let mut fills = book.buy(MyOrder::new(2, 1, 23));
    assert_eq!(fills.next(), Some(Fill::full(0, 1, 23)));
    assert_eq!(fills.next(), None);

    let mut book = MyBook::default();
    book.buy(MyOrder::new(0, 2, 23));
    let mut fills = book.sell(MyOrder::new(1, 1, 23));
    assert_eq!(fills.next(), Some(Fill::partial(0, 1, 23)));
    assert_eq!(fills.next(), None);
    drop(fills);
    let mut fills = book.sell(MyOrder::new(2, 1, 23));
    assert_eq!(fills.next(), Some(Fill::full(0, 1, 23)));
    assert_eq!(fills.next(), None);
}

#[test]
fn test_queue_priority() {
    let mut book = MyBook::default();
    book.sell(MyOrder::new(0, 1, 23));
    book.sell(MyOrder::new(1, 1, 23));
    book.sell(MyOrder::new(2, 1, 23));
    let mut fills = book.buy(MyOrder::new(3, 3, 23));

    assert_eq!(fills.next(), Some(Fill::full(0, 1, 23)));
    assert_eq!(fills.next(), Some(Fill::full(1, 1, 23)));
    assert_eq!(fills.next(), Some(Fill::full(2, 1, 23)));

    let mut book = MyBook::default();
    book.buy(MyOrder::new(0, 1, 23));
    book.buy(MyOrder::new(1, 1, 23));
    book.buy(MyOrder::new(2, 1, 23));
    let mut fills = book.sell(MyOrder::new(3, 3, 23));

    assert_eq!(fills.next(), Some(Fill::full(0, 1, 23)));
    assert_eq!(fills.next(), Some(Fill::full(1, 1, 23)));
    assert_eq!(fills.next(), Some(Fill::full(2, 1, 23)));
}

#[test]
fn test_modify_order() {
    let mut book = MyBook::default();
    book.sell(MyOrder::new(0, 2, 23));
    assert_eq!(book.modify(0, 0), false);
    assert_eq!(book.modify(0, 1), true);
    assert_eq!(book.modify(0, 1), false);
}
