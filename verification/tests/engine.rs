use order_book::order::{Condition, Order, OrderType, Side};
use order_book::order_book::{EngineError, OrderBook};

fn order(
    order_no: usize,
    price: usize,
    qty: usize,
    side: Side,
    order_type: OrderType,
    condition: Condition,
) -> Order {
    Order { order_no, price, qty, side, order_type, condition }
}

fn limit(order_no: usize, price: usize, qty: usize, side: Side) -> Order {
    order(order_no, price, qty, side, OrderType::Limit, Condition::Funari)
}

fn market(order_no: usize, qty: usize, side: Side) -> Order {
    order(order_no, 0, qty, side, OrderType::Market, Condition::Funari)
}

#[test]
fn partial_fill_leaves_remainder_resting() {
    // resting Ask-Limit {order_no:1, price:100, qty:10}; incoming
    // Bid-Limit {order_no:2, price:100, qty:4} -> trade 4 @ 100;
    // resting order left at qty 6, still order_no 1
    let mut ob = OrderBook::new("AAPL".to_string());
    ob.continous_matches(limit(1, 100, 10, Side::Ask));
    ob.continous_matches(limit(2, 100, 4, Side::Bid));
    let rest = ob.get_order(1).expect("resting order must survive");
    assert_eq!(rest.qty, 6);
    assert_eq!(rest.price, 100);
    assert!(ob.get_order(2).is_none());
    assert_eq!(ob.best_price(Side::Ask), Some(100));
    assert_eq!(ob.best_price(Side::Bid), None);
    assert_eq!(ob.quote(Side::Ask), Some((100, 6u128)));
}

#[test]
fn market_order_consumes_resting_limit() {
    // resting Ask-Limit {1, 100, 5}; incoming Bid-Market {2, qty 5}
    // -> trade 5 @ 100; both consumed, book empty
    let mut ob = OrderBook::new("AAPL".to_string());
    ob.continous_matches(limit(1, 100, 5, Side::Ask));
    ob.continous_matches(market(2, 5, Side::Bid));
    assert!(ob.get_order(1).is_none());
    assert!(ob.get_order(2).is_none());
    assert_eq!(ob.best_price(Side::Ask), None);
    assert_eq!(ob.best_price(Side::Bid), None);
    assert_eq!(ob.quote(Side::Ask), None);
}

#[test]
fn spread_prevents_trade() {
    // Bid-Limit at 99 resting, incoming Ask-Limit at 100 -> no trade;
    // the incoming order rests in the ask-limit book
    let mut ob = OrderBook::new("AAPL".to_string());
    ob.continous_matches(limit(1, 99, 5, Side::Bid));
    ob.continous_matches(limit(2, 100, 5, Side::Ask));
    assert_eq!(ob.get_order(1).unwrap().qty, 5);
    assert_eq!(ob.get_order(2).unwrap().qty, 5);
    assert_eq!(ob.best_price(Side::Bid), Some(99));
    assert_eq!(ob.best_price(Side::Ask), Some(100));
}

#[test]
fn price_time_priority_at_one_level() {
    // two asks at one price: the lower order number trades strictly first
    let mut ob = OrderBook::new("AAPL".to_string());
    ob.continous_matches(limit(1, 100, 3, Side::Ask));
    ob.continous_matches(limit(2, 100, 3, Side::Ask));
    ob.continous_matches(limit(3, 100, 4, Side::Bid));
    assert!(ob.get_order(1).is_none());
    assert_eq!(ob.get_order(2).unwrap().qty, 2);
}

#[test]
fn price_priority_before_time_priority() {
    // a better-priced later ask still trades before an earlier worse one
    let mut ob = OrderBook::new("AAPL".to_string());
    ob.continous_matches(limit(1, 101, 5, Side::Ask));
    ob.continous_matches(limit(2, 100, 5, Side::Ask));
    ob.continous_matches(limit(3, 101, 5, Side::Bid));
    assert!(ob.get_order(2).is_none(), "the cheaper ask trades first");
    assert_eq!(ob.get_order(1).unwrap().qty, 5);
    assert!(ob.get_order(3).is_none());
}

#[test]
fn resting_market_orders_have_top_priority() {
    // a resting market ask beats any resting limit ask, and trades at the
    // incoming limit's price
    let mut ob = OrderBook::new("AAPL".to_string());
    ob.continous_matches(limit(1, 99, 5, Side::Ask));
    ob.write(market(2, 5, Side::Ask));
    ob.continous_matches(limit(3, 100, 5, Side::Bid));
    assert!(ob.get_order(2).is_none(), "the market ask trades first");
    assert_eq!(ob.get_order(1).unwrap().qty, 5);
}

#[test]
fn ioc_remainder_is_discarded() {
    // an IOC order's unmatched remainder never rests in any book
    let mut ob = OrderBook::new("AAPL".to_string());
    ob.continous_matches(limit(1, 100, 4, Side::Ask));
    ob.continous_matches(order(2, 100, 10, Side::Bid, OrderType::Limit, Condition::IOC));
    assert!(ob.get_order(1).is_none(), "the resting ask is consumed");
    assert!(ob.get_order(2).is_none(), "the IOC remainder is discarded");
    assert_eq!(ob.best_price(Side::Bid), None);
}

#[test]
fn ioc_with_no_match_changes_nothing() {
    let mut ob = OrderBook::new("AAPL".to_string());
    ob.continous_matches(limit(1, 101, 5, Side::Ask));
    ob.continous_matches(order(2, 100, 5, Side::Bid, OrderType::Limit, Condition::IOC));
    assert_eq!(ob.get_order(1).unwrap().qty, 5);
    assert!(ob.get_order(2).is_none());
}

#[test]
fn quantity_is_conserved_across_a_crossing_pass() {
    // traded quantity leaves both sides in equal measure: 3 + 4 resting,
    // incoming 5 -> 2 remain resting, incoming fully filled
    let mut ob = OrderBook::new("AAPL".to_string());
    ob.continous_matches(limit(1, 100, 3, Side::Ask));
    ob.continous_matches(limit(2, 101, 4, Side::Ask));
    ob.continous_matches(limit(3, 101, 5, Side::Bid));
    assert!(ob.get_order(1).is_none());
    assert_eq!(ob.get_order(2).unwrap().qty, 2);
    assert!(ob.get_order(3).is_none());
}

#[test]
fn amend_qty_keeps_queue_position() {
    // amending only qty at an unchanged price keeps the order ahead of a
    // later order at the same price
    let mut ob = OrderBook::new("AAPL".to_string());
    ob.continous_matches(limit(1, 100, 5, Side::Ask));
    ob.continous_matches(limit(2, 100, 5, Side::Ask));
    assert_eq!(ob.amend(limit(1, 100, 2, Side::Ask)), Ok(()));
    ob.continous_matches(market(3, 2, Side::Bid));
    assert!(ob.get_order(1).is_none(), "order 1 kept its place and traded first");
    assert_eq!(ob.get_order(2).unwrap().qty, 5);
}

#[test]
fn amend_price_loses_time_priority() {
    // amending the price re-enters the order at the back of its new level
    let mut ob = OrderBook::new("AAPL".to_string());
    ob.continous_matches(limit(1, 100, 5, Side::Ask));
    ob.continous_matches(limit(2, 100, 5, Side::Ask));
    assert_eq!(ob.amend(limit(1, 101, 5, Side::Ask)), Ok(()));
    ob.continous_matches(market(3, 5, Side::Bid));
    assert!(ob.get_order(2).is_none(), "order 2 now has the best price");
    assert_eq!(ob.get_order(1).unwrap().qty, 5);
    assert_eq!(ob.get_order(1).unwrap().price, 101);
}

#[test]
fn amend_price_can_trade_immediately() {
    // a repriced order may cross at once instead of resting
    let mut ob = OrderBook::new("AAPL".to_string());
    ob.continous_matches(limit(1, 102, 5, Side::Ask));
    ob.continous_matches(limit(2, 100, 5, Side::Bid));
    assert_eq!(ob.amend(limit(1, 100, 5, Side::Ask)), Ok(()));
    assert!(ob.get_order(1).is_none());
    assert!(ob.get_order(2).is_none());
}

#[test]
fn amend_unknown_order_reports_an_error() {
    let mut ob = OrderBook::new("AAPL".to_string());
    assert_eq!(ob.amend(limit(7, 100, 5, Side::Ask)), Err(EngineError::UnknownOrder));
    assert_eq!(ob.best_price(Side::Ask), None);
}

#[test]
fn cancel_removes_and_is_idempotent() {
    let mut ob = OrderBook::new("AAPL".to_string());
    ob.continous_matches(limit(1, 100, 5, Side::Ask));
    ob.cancel(limit(1, 100, 5, Side::Ask));
    assert!(ob.get_order(1).is_none());
    assert_eq!(ob.best_price(Side::Ask), None);
    // cancelling again, or an unknown order, is a harmless no-op
    ob.cancel(limit(1, 100, 5, Side::Ask));
    ob.cancel(limit(9, 50, 1, Side::Bid));
    assert!(ob.get_order(9).is_none());
}

#[test]
fn cancel_uses_the_stored_order_state() {
    // cancel looks the order up by number; stale fields on the request do
    // not matter
    let mut ob = OrderBook::new("AAPL".to_string());
    ob.continous_matches(limit(1, 100, 5, Side::Ask));
    ob.cancel(limit(1, 55, 1, Side::Bid));
    assert!(ob.get_order(1).is_none());
    assert_eq!(ob.best_price(Side::Ask), None);
}

#[test]
fn registry_and_books_stay_consistent_over_a_session() {
    let mut ob = OrderBook::new("AAPL".to_string());
    ob.continous_matches(limit(1, 100, 10, Side::Ask));
    ob.continous_matches(limit(2, 101, 10, Side::Ask));
    ob.continous_matches(limit(3, 99, 10, Side::Bid));
    ob.continous_matches(limit(4, 100, 4, Side::Bid));
    assert_eq!(ob.get_order(1).unwrap().qty, 6);
    assert_eq!(ob.amend(limit(3, 98, 10, Side::Bid)), Ok(()));
    ob.cancel(limit(2, 101, 10, Side::Ask));
    assert_eq!(ob.best_price(Side::Ask), Some(100));
    assert_eq!(ob.best_price(Side::Bid), Some(98));
    assert_eq!(ob.quote(Side::Ask), Some((100, 6u128)));
    assert_eq!(ob.quote(Side::Bid), Some((98, 10u128)));
    ob.continous_matches(market(5, 6, Side::Bid));
    assert!(ob.get_order(1).is_none());
    assert_eq!(ob.best_price(Side::Ask), None);
    assert_eq!(ob.best_price(Side::Bid), Some(98));
}

#[test]
fn conditions_are_stored_with_the_order() {
    let mut ob = OrderBook::new("AAPL".to_string());
    ob.continous_matches(order(1, 100, 5, Side::Ask, OrderType::Limit, Condition::OnOpen));
    ob.continous_matches(order(2, 90, 5, Side::Bid, OrderType::Limit, Condition::OnClose));
    assert_eq!(ob.get_order(1).unwrap().condition, Condition::OnOpen);
    assert_eq!(ob.get_order(2).unwrap().condition, Condition::OnClose);
}
