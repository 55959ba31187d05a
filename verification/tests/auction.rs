use order_book::order::{Condition, Order, OrderType, Side};
use order_book::order_book::OrderBook;

fn limit(order_no: usize, price: usize, qty: usize, side: Side) -> Order {
    Order {
        order_no,
        price,
        qty,
        side,
        order_type: OrderType::Limit,
        condition: Condition::OnOpen,
    }
}

fn market(order_no: usize, qty: usize, side: Side) -> Order {
    Order {
        order_no,
        price: 0,
        qty,
        side,
        order_type: OrderType::Market,
        condition: Condition::OnOpen,
    }
}

#[test]
fn auction_maximizes_executable_volume() {
    // bids {5@101, 5@100} and asks {5@99, 5@100}: at 99 the executable
    // volume is min(10, 5) = 5, at 100 it is min(10, 10) = 10, at 101 it
    // is min(5, 10) = 5 -> the equilibrium price is 100
    let mut ob = OrderBook::new("AAPL".to_string());
    ob.write(limit(1, 101, 5, Side::Bid));
    ob.write(limit(2, 100, 5, Side::Bid));
    ob.write(limit(3, 99, 5, Side::Ask));
    ob.write(limit(4, 100, 5, Side::Ask));
    assert_eq!(ob.call_auction(), Some(100));
}

#[test]
fn auction_needs_limit_orders_on_both_sides() {
    let mut ob = OrderBook::new("AAPL".to_string());
    assert_eq!(ob.call_auction(), None);
    ob.write(limit(1, 100, 5, Side::Bid));
    assert_eq!(ob.call_auction(), None);
    ob.write(market(2, 5, Side::Ask));
    assert_eq!(ob.call_auction(), None, "market interest alone cannot set a price");
    ob.write(limit(3, 100, 5, Side::Ask));
    assert_eq!(ob.call_auction(), Some(100));
}

#[test]
fn auction_counts_market_quantity_at_every_price() {
    // a market bid is satisfiable at any price, so it lifts the whole bid
    // curve: without it the heaviest price is 100, with it 101 wins
    let mut ob = OrderBook::new("AAPL".to_string());
    ob.write(limit(1, 100, 5, Side::Bid));
    ob.write(limit(2, 100, 5, Side::Ask));
    ob.write(limit(3, 101, 5, Side::Ask));
    assert_eq!(ob.call_auction(), Some(100));
    ob.write(market(4, 5, Side::Bid));
    // volumes: at 100 min(10, 5) = 5, at 101 min(5+5, 10) = 10
    assert_eq!(ob.call_auction(), Some(101));
}

#[test]
fn auction_tie_breaks_to_the_highest_price() {
    // one bid at 101, one ask at 99, equal quantity: every price in the
    // span clears the same volume, and the engine reports the highest
    let mut ob = OrderBook::new("AAPL".to_string());
    ob.write(limit(1, 101, 5, Side::Bid));
    ob.write(limit(2, 99, 5, Side::Ask));
    assert_eq!(ob.call_auction(), Some(101));
}
