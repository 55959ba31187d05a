use order_book::key::{key_of, key_less, Key};
use order_book::merge::merge;
use order_book::order::{Condition, Order, OrderType, Side};
use order_book::order_book::{try_trade, OrderBook};

fn mk(
    order_no: usize,
    price: usize,
    side: Side,
    order_type: OrderType,
) -> Order {
    Order { order_no, price, qty: 1, side, order_type, condition: Condition::Funari }
}

#[test]
fn toggle_flips_the_side() {
    assert_eq!(Side::Bid.toggle(), Side::Ask);
    assert_eq!(Side::Ask.toggle(), Side::Bid);
}

#[test]
fn keys_encode_side_and_type() {
    assert_eq!(key_of(&mk(7, 100, Side::Ask, OrderType::Limit)), Key::LimitAsc(100, 7));
    assert_eq!(key_of(&mk(8, 100, Side::Bid, OrderType::Limit)), Key::LimitDesc(100, 8));
    assert_eq!(key_of(&mk(9, 100, Side::Bid, OrderType::Market)), Key::Market(9));
}

#[test]
fn key_order_is_price_then_arrival() {
    // market keys come first; asks ascend by price, bids descend; ties
    // break by arrival
    assert!(key_less(&Key::Market(5), &Key::LimitAsc(1, 1)));
    assert!(key_less(&Key::Market(1), &Key::Market(2)));
    assert!(key_less(&Key::LimitAsc(99, 2), &Key::LimitAsc(100, 1)));
    assert!(key_less(&Key::LimitAsc(99, 1), &Key::LimitAsc(99, 2)));
    assert!(key_less(&Key::LimitDesc(101, 2), &Key::LimitDesc(100, 1)));
    assert!(key_less(&Key::LimitDesc(100, 1), &Key::LimitDesc(100, 2)));
    assert!(!key_less(&Key::LimitAsc(99, 1), &Key::LimitAsc(99, 1)));
}

#[test]
fn try_trade_prices_each_pairing() {
    // resting market vs incoming limit: the incoming limit's price
    let r = try_trade(
        &mk(1, 0, Side::Ask, OrderType::Market),
        &mk(2, 100, Side::Bid, OrderType::Limit),
    );
    assert_eq!(r, Some(100));
    // resting limit vs incoming market: the resting limit's price
    let r = try_trade(
        &mk(1, 101, Side::Ask, OrderType::Limit),
        &mk(2, 0, Side::Bid, OrderType::Market),
    );
    assert_eq!(r, Some(101));
    // two limits: tradable iff the bid reaches the ask, at the ask's price
    let r = try_trade(
        &mk(1, 100, Side::Ask, OrderType::Limit),
        &mk(2, 102, Side::Bid, OrderType::Limit),
    );
    assert_eq!(r, Some(100), "the ask side's quote sets the price");
    let r = try_trade(
        &mk(1, 102, Side::Bid, OrderType::Limit),
        &mk(2, 100, Side::Ask, OrderType::Limit),
    );
    assert_eq!(r, Some(100), "also when the bid is the resting side");
    let r = try_trade(
        &mk(1, 99, Side::Bid, OrderType::Limit),
        &mk(2, 100, Side::Ask, OrderType::Limit),
    );
    assert_eq!(r, None, "99 >= 100 fails: a spread");
}

#[test]
fn index_partitions_by_side_and_type() {
    assert_eq!(OrderBook::index(&mk(1, 9, Side::Bid, OrderType::Limit)), OrderBook::bid_index());
    assert_eq!(OrderBook::index(&mk(1, 9, Side::Ask, OrderType::Limit)), OrderBook::ask_index());
    assert_eq!(
        OrderBook::index(&mk(1, 9, Side::Bid, OrderType::Market)),
        OrderBook::bid_market_index()
    );
    assert_eq!(
        OrderBook::index(&mk(1, 9, Side::Ask, OrderType::Market)),
        OrderBook::ask_market_index()
    );
}

#[test]
fn merge_interleaves_sorted_inputs() {
    assert_eq!(merge(vec![1, 3, 5], vec![2, 3, 6]), vec![1, 2, 3, 3, 5, 6]);
    assert_eq!(merge(vec![], vec![4, 7]), vec![4, 7]);
    assert_eq!(merge(vec![4, 7], vec![]), vec![4, 7]);
    assert_eq!(merge(vec![2, 2], vec![2]), vec![2, 2, 2]);
    let longer = merge(vec![1, 2, 9, 10], vec![5]);
    assert_eq!(longer, vec![1, 2, 5, 9, 10]);
}
