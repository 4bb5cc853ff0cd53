use lobster::orderbook;
use lobster::Fill;
use lobster::Order;
use lobster::OrderBook;
use lobster::SimpleOrder;
use lobster::VecBook;

type MyBook = VecBook<SimpleOrder>;
type MyOrder = SimpleOrder;

#[test]
fn resting_buy_leaves_book_unchanged_on_zero_quantity() {
    let mut book = MyBook::default();
    book.sell(MyOrder::new(0, 2, 5));
    let fills = book.buy(MyOrder::new(1, 0, 5)).into_vec();
    assert!(fills.is_empty());
    assert_eq!(book.len(), 1);
    assert_eq!(book.best_ask(), Some(MyOrder::new(0, 2, 5)));
    assert_eq!(book.best_bid(), None);
}

#[test]
fn partial_fill_shrinks_the_maker_in_place() {
    let mut book = MyBook::default();
    book.sell(MyOrder::new(0, 2, 5));
    book.buy(MyOrder::new(1, 1, 5));
    assert_eq!(book.len(), 1);
    assert_eq!(book.best_ask(), Some(MyOrder::new(0, 1, 5)));
    let mut fills = book.buy(MyOrder::new(2, 1, 5));
    assert_eq!(fills.next(), Some(Fill::full(0, 1, 5)));
    assert!(book.is_empty());
}

#[test]
fn partial_crosser_rests_with_exact_remainder() {
    let mut book = MyBook::default();
    book.sell(MyOrder::new(0, 2, 5));
    book.sell(MyOrder::new(1, 3, 6));
    book.sell(MyOrder::new(2, 4, 7));
    book.remove(0);
    book.buy(MyOrder::new(3, 6, 6));
    // 3 of 6 traded against id 1; the rest sits as a bid at the limit
    assert_eq!(book.best_bid(), Some(MyOrder::new(3, 3, 6)));
    assert_eq!(book.best_ask(), Some(MyOrder::new(2, 4, 7)));
    assert_eq!(book.len(), 2);
}

#[test]
fn traded_quantity_never_exceeds_either_side() {
    let mut book = MyBook::default();
    book.sell(MyOrder::new(0, 3, 5));
    book.sell(MyOrder::new(1, 4, 6));
    let fills = book.buy(MyOrder::new(2, 5, 6)).into_vec();
    let traded: u64 = fills.iter().map(|f| f.quantity).sum();
    assert_eq!(traded, 5);
    assert_eq!(fills, vec![Fill::full(0, 3, 5), Fill::partial(1, 2, 6)]);
    // the submitted 5 split exactly into 5 traded and 0 resting
    assert_eq!(book.best_bid(), None);
    // the makers kept exactly what was not traded
    assert_eq!(book.asks(), vec![MyOrder::new(1, 2, 6)]);
}

#[test]
fn price_improvement_goes_to_the_taker() {
    let mut book = MyBook::default();
    book.sell(MyOrder::new(0, 1, 3));
    // the taker would pay up to 9 but trades at the maker's price
    let fills = book.buy(MyOrder::new(1, 1, 9)).into_vec();
    assert_eq!(fills, vec![Fill::full(0, 1, 3)]);
}

#[test]
fn bids_and_asks_iterate_best_first() {
    let mut book = MyBook::default();
    book.buy(MyOrder::new(0, 1, 4));
    book.buy(MyOrder::new(1, 1, 6));
    book.buy(MyOrder::new(2, 1, 5));
    book.sell(MyOrder::new(3, 1, 9));
    book.sell(MyOrder::new(4, 1, 7));
    book.sell(MyOrder::new(5, 1, 8));
    let bid_ids: Vec<u64> = book.bids().iter().map(|o| o.id()).collect();
    let ask_ids: Vec<u64> = book.asks().iter().map(|o| o.id()).collect();
    assert_eq!(bid_ids, vec![1, 2, 0]);
    assert_eq!(ask_ids, vec![4, 5, 3]);
}

#[test]
fn same_price_arrivals_rest_behind_earlier_ones() {
    let mut book = MyBook::default();
    book.buy(MyOrder::new(0, 1, 5));
    book.buy(MyOrder::new(1, 2, 5));
    book.buy(MyOrder::new(2, 3, 5));
    let ids: Vec<u64> = book.bids().iter().map(|o| o.id()).collect();
    assert_eq!(ids, vec![0, 1, 2]);
}

#[test]
fn modify_unknown_id_is_rejected() {
    let mut book = MyBook::default();
    book.sell(MyOrder::new(0, 2, 23));
    assert_eq!(book.modify(7, 1), false);
    assert_eq!(book.modify(0, 2), false);
    assert_eq!(book.modify(0, 3), false);
    assert_eq!(book.best_ask(), Some(MyOrder::new(0, 2, 23)));
}

#[test]
fn matching_after_modify_uses_the_reduced_quantity() {
    let mut book = MyBook::default();
    book.sell(MyOrder::new(0, 5, 23));
    assert!(book.modify(0, 2));
    let fills = book.buy(MyOrder::new(1, 5, 23)).into_vec();
    assert_eq!(fills, vec![Fill::full(0, 2, 23)]);
    assert_eq!(book.best_bid(), Some(MyOrder::new(1, 3, 23)));
}

#[test]
fn vecbook_handles_extreme_prices() {
    let mut book = MyBook::default();
    book.sell(MyOrder::new(0, 2, u64::MAX));
    book.buy(MyOrder::new(1, 2, 0));
    assert_eq!(book.len(), 2);
    let fills = book.buy(MyOrder::new(2, 2, u64::MAX)).into_vec();
    assert_eq!(fills, vec![Fill::full(0, 2, u64::MAX)]);
    let fills = book.sell(MyOrder::new(3, 3, 0)).into_vec();
    assert_eq!(fills, vec![Fill::full(1, 2, 0)]);
    assert_eq!(book.asks(), vec![MyOrder::new(3, 1, 0)]);
}

#[test]
fn trait_calls_reach_the_same_book() {
    fn submit<B: OrderBook<SimpleOrder>>(book: &mut B) -> Vec<Fill> {
        book.sell(SimpleOrder::new(0, 2, 5));
        book.buy(SimpleOrder::new(1, 1, 5)).into_vec()
    }
    let mut book = MyBook::default();
    let fills = submit(&mut book);
    assert_eq!(fills, vec![Fill::partial(0, 1, 5)]);
    assert_eq!(book.len(), 1);
}

#[test]
fn dense_book_matches_levels_in_arrival_order() {
    let mut book = orderbook::OrderBook::default();
    book.sell(0, 1, 23);
    book.sell(1, 1, 23);
    book.sell(2, 1, 23);
    let fills = book.buy(3, 3, 23);
    assert_eq!(
        fills,
        vec![
            Fill::full(0, 1, 23),
            Fill::full(1, 1, 23),
            Fill::full(2, 1, 23),
        ]
    );
    assert!(book.is_empty());
}

#[test]
fn dense_book_zero_quantity_is_a_no_op() {
    let mut book = orderbook::OrderBook::default();
    book.sell(0, 2, 5);
    let fills = book.buy(1, 0, 5);
    assert!(fills.is_empty());
    assert_eq!(book.len(), 1);
}

#[test]
fn dense_book_sweeps_across_levels() {
    let mut book = orderbook::OrderBook::default();
    book.buy(0, 2, 10);
    book.buy(1, 3, 8);
    book.buy(2, 4, 9);
    let fills = book.sell(3, 7, 9);
    assert_eq!(fills, vec![Fill::full(0, 2, 10), Fill::full(2, 4, 9)]);
    // one unit of the seller rests at 9; the bid at 8 was not crossable
    assert_eq!(book.len(), 2);
}

#[test]
fn dense_book_modify_validates_and_shrinks_in_place() {
    let mut book = orderbook::OrderBook::default();
    book.sell(0, 5, 23);
    assert_eq!(book.modify(0, 0), false);
    assert_eq!(book.modify(0, 5), false);
    assert_eq!(book.modify(7, 1), false);
    assert_eq!(book.modify(0, 2), true);
    let fills = book.buy(1, 5, 23);
    assert_eq!(fills, vec![Fill::full(0, 2, 23)]);
    assert_eq!(book.len(), 1);
}

#[test]
fn dense_book_counts_both_sides() {
    let mut book = orderbook::OrderBook::default();
    assert!(book.is_empty());
    book.buy(0, 1, 4);
    book.sell(1, 1, 9);
    assert_eq!(book.len(), 2);
    assert!(!book.remove(5));
    assert!(book.remove(1));
    assert_eq!(book.len(), 1);
}
