//! Order value types: side, order type, time-in-force condition, and the
//! order record itself.

use vstd::prelude::*;

verus! {

/// Which side of the market an order stands on.
#[derive(Clone, Copy, PartialEq, Eq, Structural, Debug)]
pub enum Side {
    Bid,
    Ask,
}

/// Whether an order carries a limit price or trades at any price.
#[derive(Clone, Copy, PartialEq, Eq, Structural, Debug)]
pub enum OrderType {
    Limit,
    Market,
}

/// Time-in-force / participation condition.  Only `IOC` (immediate or
/// cancel) affects the continuous crossing engine; the others are stored
/// as data and their enforcement is a caller concern.
#[derive(Clone, Copy, PartialEq, Eq, Structural, Debug)]
pub enum Condition {
    OnOpen,
    OnClose,
    Funari,
    IOC,
}

/// One order.  `order_no` is assigned by the caller, is unique per
/// instrument, and doubles as the arrival-sequence tiebreaker.  `price` is
/// ignored for market orders.  `qty` is the remaining quantity and is
/// decremented in place as the order trades.
#[derive(Clone, Copy, PartialEq, Eq, Structural, Debug)]
pub struct Order {
    pub order_no: usize,
    pub price: usize,
    pub qty: usize,
    pub side: Side,
    pub order_type: OrderType,
    pub condition: Condition,
}

impl Side {
    /// The opposite side of the market.
    pub open spec fn spec_toggle(self) -> Side {
        match self {
            Side::Bid => Side::Ask,
            Side::Ask => Side::Bid,
        }
    }

    /// Returns the opposite side: crossing always targets the books of
    /// the side facing the incoming order.
    pub fn toggle(&self) -> (r: Side)
        ensures
            r == self.spec_toggle(),
    {
        match self {
            Side::Bid => Side::Ask,
            Side::Ask => Side::Bid,
        }
    }
}

/// Two orders that agree on everything but the remaining quantity.
/// Crossing only ever decrements `qty`; every other field is immutable
/// while an order rests.
pub open spec fn same_but_qty(a: Order, b: Order) -> bool {
    &&& a.order_no == b.order_no
    &&& a.price == b.price
    &&& a.side == b.side
    &&& a.order_type == b.order_type
    &&& a.condition == b.condition
}

} // verus!
