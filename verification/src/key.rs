//! Priority keys: the per-order sort key encoding price rank and arrival
//! rank, side-aware.
//!
//! A book stores keys of a single variant.  `Market` keys order by arrival
//! alone and take priority ahead of every limit key; `LimitAsc` keys (ask
//! books) order by ascending price, `LimitDesc` keys (bid books) by
//! descending price, with ties broken by ascending order number
//! (first-arrived-first-served).  The order across limit variants never
//! arises in a book and is fixed only to make the comparator total.

use vstd::prelude::*;
use crate::order::{Order, OrderType, Side};

verus! {

/// A priority key.  Fields are `(order_no)` for `Market` and
/// `(price, order_no)` for the limit variants.
#[derive(Clone, Copy, PartialEq, Eq, Structural, Debug)]
pub enum Key {
    Market(usize),
    LimitAsc(usize, usize),
    LimitDesc(usize, usize),
}

/// The strict total order on keys.  `Market` before any limit key;
/// within `LimitAsc` ascending price, within `LimitDesc` descending
/// price, ties by ascending order number; `LimitAsc` before `LimitDesc`
/// (arbitrary, never exercised inside one book).
pub open spec fn key_lt(a: Key, b: Key) -> bool {
    match (a, b) {
        (Key::Market(n1), Key::Market(n2)) => n1 < n2,
        (Key::Market(_), _) => true,
        (_, Key::Market(_)) => false,
        (Key::LimitAsc(p1, n1), Key::LimitAsc(p2, n2)) => p1 < p2 || (p1 == p2 && n1 < n2),
        (Key::LimitAsc(_, _), Key::LimitDesc(_, _)) => true,
        (Key::LimitDesc(_, _), Key::LimitAsc(_, _)) => false,
        (Key::LimitDesc(p1, n1), Key::LimitDesc(p2, n2)) => p1 > p2 || (p1 == p2 && n1 < n2),
    }
}

/// `key_lt` is a strict total order: irreflexive, antisymmetric,
/// transitive, and total.
pub proof fn lemma_key_lt_strict_total_order(a: Key, b: Key, c: Key)
    ensures
        !key_lt(a, a),
        !(key_lt(a, b) && key_lt(b, a)),
        key_lt(a, b) && key_lt(b, c) ==> key_lt(a, c),
        key_lt(a, b) || key_lt(b, a) || a == b,
{
}

/// Executable comparator for `key_lt`.
pub fn key_less(a: &Key, b: &Key) -> (r: bool)
    ensures
        r == key_lt(*a, *b),
{
    match (a, b) {
        (Key::Market(n1), Key::Market(n2)) => n1 < n2,
        (Key::Market(_), _) => true,
        (_, Key::Market(_)) => false,
        (Key::LimitAsc(p1, n1), Key::LimitAsc(p2, n2)) => p1 < p2 || (p1 == p2 && n1 < n2),
        (Key::LimitAsc(_, _), Key::LimitDesc(_, _)) => true,
        (Key::LimitDesc(_, _), Key::LimitAsc(_, _)) => false,
        (Key::LimitDesc(p1, n1), Key::LimitDesc(p2, n2)) => p1 > p2 || (p1 == p2 && n1 < n2),
    }
}

/// The priority key under which an order rests: market orders key by
/// arrival alone, bid limits by descending price, ask limits by ascending
/// price.
pub open spec fn spec_key_of(o: Order) -> Key {
    match (o.side, o.order_type) {
        (_, OrderType::Market) => Key::Market(o.order_no),
        (Side::Bid, OrderType::Limit) => Key::LimitDesc(o.price, o.order_no),
        (Side::Ask, OrderType::Limit) => Key::LimitAsc(o.price, o.order_no),
    }
}

/// Builds the priority key of an order.
pub fn key_of(o: &Order) -> (k: Key)
    ensures
        k == spec_key_of(*o),
{
    match (o.side, o.order_type) {
        (_, OrderType::Market) => Key::Market(o.order_no),
        (Side::Bid, OrderType::Limit) => Key::LimitDesc(o.price, o.order_no),
        (Side::Ask, OrderType::Limit) => Key::LimitAsc(o.price, o.order_no),
    }
}

/// The order number carried by a key.
pub open spec fn key_no(k: Key) -> usize {
    match k {
        Key::Market(n) => n,
        Key::LimitAsc(_, n) => n,
        Key::LimitDesc(_, n) => n,
    }
}

/// Whether a key belongs to a limit order.
pub open spec fn key_is_limit(k: Key) -> bool {
    match k {
        Key::Market(_) => false,
        Key::LimitAsc(_, _) => true,
        Key::LimitDesc(_, _) => true,
    }
}

/// The price carried by a limit key; market keys resolve no price and
/// report zero.
pub open spec fn key_price(k: Key) -> usize {
    match k {
        Key::Market(_) => 0,
        Key::LimitAsc(p, _) => p,
        Key::LimitDesc(p, _) => p,
    }
}

/// Price-time priority at one price level: among two limit keys of the
/// same variant and the same price, the earlier-arrived order (the
/// smaller order number) sorts strictly first, so it is matched strictly
/// before the later one.
pub proof fn lemma_price_time_priority(a: Key, b: Key)
    requires
        key_is_limit(a),
        key_is_limit(b),
        a is LimitAsc <==> b is LimitAsc,
        key_price(a) == key_price(b),
        key_no(a) < key_no(b),
    ensures
        key_lt(a, b),
{
}

} // verus!
