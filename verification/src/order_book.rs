//! The order book aggregate: four books (bid-limit, ask-limit,
//! bid-market, ask-market) plus the order registry, with the continuous
//! crossing engine and the lifecycle operations over them.
//!
//! The aggregate's invariant [`OrderBook::wf`] says that the registry and
//! the books are in one-to-one correspondence: every registry entry has
//! positive remaining quantity and rests under its priority key in exactly
//! the book selected by its (side, order type) partition, and every book
//! entry resolves to such a registry order.  Every operation preserves it.

use vstd::prelude::*;
use crate::book::Book;
use crate::key::{Key, key_lt, key_no, key_price, key_is_limit, spec_key_of, key_of};
use crate::order::{Condition, Order, OrderType, Side, same_but_qty};
use crate::registry::{
    find_order, lemma_reg_get, lemma_sum_qty_if_take, push_order, reg_get, reg_has, reg_idx,
    reg_uniq, remove_order, sum_qty, sum_qty_if,
};

verus! {

/// The book index an order rests in: bid-limit 0, ask-limit 1,
/// bid-market 2, ask-market 3.
pub open spec fn spec_index(o: Order) -> int {
    (match o.side {
        Side::Bid => 0int,
        Side::Ask => 1int,
    }) + (match o.order_type {
        OrderType::Limit => 0int,
        OrderType::Market => 2int,
    })
}

/// The side whose orders rest in a book.
pub open spec fn side_of_index(bi: int) -> Side {
    if bi == 0 || bi == 2 {
        Side::Bid
    } else {
        Side::Ask
    }
}

/// A key of a book is backed when the registry holds a live order whose
/// key it is, resting in that book's partition.
pub open spec fn key_backed(s: Seq<Order>, k: Key, bi: int) -> bool {
    &&& reg_has(s, key_no(k))
    &&& spec_key_of(reg_get(s, key_no(k))) == k
    &&& spec_index(reg_get(s, key_no(k))) == bi
}

/// Every key of the book is backed by the registry.
pub open spec fn book_reg_ok(b: Book, s: Seq<Order>, bi: int) -> bool {
    forall|k: Key| b@.contains(k) ==> key_backed(s, k, bi)
}

/// Every registry order of the book's partition rests in the book.
pub open spec fn reg_book_ok(b: Book, s: Seq<Order>, bi: int) -> bool {
    forall|i: int|
        0 <= i < s.len() && spec_index(#[trigger] s[i]) == bi ==> b@.contains(spec_key_of(s[i]))
}

/// Between two registry states, the order carrying `no` gave up quantity:
/// it was consumed outright, or its remaining quantity fell.
pub open spec fn order_shrank(pre: Seq<Order>, post: Seq<Order>, no: usize) -> bool {
    &&& reg_has(pre, no)
    &&& (!reg_has(post, no) || reg_get(post, no).qty < reg_get(pre, no).qty)
}

/// Whether a resting order under key `k` can trade against `incoming`:
/// resting market orders trade against any compatible limit order; a
/// resting limit trades against an incoming market order always, and
/// against an incoming limit exactly when the bid price is at least the
/// ask price.  Quantity plays no role in tradability.
pub open spec fn key_tradable(k: Key, incoming: Order) -> bool {
    match k {
        Key::Market(_) => true,
        Key::LimitAsc(p, _) => incoming.order_type is Market || incoming.price >= p,
        Key::LimitDesc(p, _) => incoming.order_type is Market || p >= incoming.price,
    }
}

/// The trade price when a resting order meets an incoming one, or none
/// when a bid/ask spread separates them.  A resting market order trades
/// at the incoming limit's price; a resting limit met by a market order
/// trades at its own price; two limits trade exactly when the bid price
/// reaches the ask price, and then at the ask side's quoted price.
pub open spec fn spec_try_trade(book_order: Order, incoming: Order) -> Option<usize> {
    match (book_order.order_type, incoming.order_type) {
        (OrderType::Market, OrderType::Limit) => Some(incoming.price),
        (OrderType::Limit, OrderType::Market) => Some(book_order.price),
        (OrderType::Limit, OrderType::Limit) => if book_order.side is Bid {
            if book_order.price >= incoming.price {
                Some(incoming.price)
            } else {
                None
            }
        } else {
            if incoming.price >= book_order.price {
                Some(book_order.price)
            } else {
                None
            }
        },
        (OrderType::Market, OrderType::Market) => None,
    }
}

/// Computes the trade price between a resting and an incoming order, or
/// none when a bid/ask spread exists.  Same-side pairing is never
/// attempted (crossing always targets the opposite-side books), and two
/// market orders never meet (the market books are only crossed by
/// incoming limit orders).
pub fn try_trade(book_order: &Order, incoming: &Order) -> (r: Option<usize>)
    requires
        book_order.side != incoming.side,
        !(book_order.order_type is Market && incoming.order_type is Market),
    ensures
        r == spec_try_trade(*book_order, *incoming),
        r is Some <==> key_tradable(spec_key_of(*book_order), *incoming),
{
    match (book_order.order_type, incoming.order_type) {
        (OrderType::Market, OrderType::Limit) => Some(incoming.price),
        (OrderType::Limit, OrderType::Market) => Some(book_order.price),
        (OrderType::Limit, OrderType::Limit) => match book_order.side {
            Side::Bid => if book_order.price >= incoming.price {
                Some(incoming.price)
            } else {
                None
            },
            Side::Ask => if incoming.price >= book_order.price {
                Some(book_order.price)
            } else {
                None
            },
        },
        (OrderType::Market, OrderType::Market) => None,
    }
}

/// Crosses one book against an incoming order: repeatedly take the book's
/// best entry, trade `min(resting.qty, incoming.qty)` at the price the
/// crossing rule yields, drop fully filled resting orders and re-book
/// partial remainders, and stop at a bid/ask spread or once the incoming
/// order is spent.  `bi` is the partition the book holds; registry entries
/// of every other partition are untouched.
#[verifier::rlimit(100)]
fn cross(book: &mut Book, orders: &mut Vec<Order>, incoming: &mut Order, bi: Ghost<int>)
    requires
        0 <= bi@ < 4,
        old(book).sorted(),
        reg_uniq(old(orders)@),
        forall|i: int| 0 <= i < old(orders)@.len() ==> (#[trigger] old(orders)@[i]).qty > 0,
        book_reg_ok(*old(book), old(orders)@, bi@),
        reg_book_ok(*old(book), old(orders)@, bi@),
        !reg_has(old(orders)@, old(incoming).order_no),
        side_of_index(bi@) != old(incoming).side,
        bi@ >= 2 ==> old(incoming).order_type is Limit,
    ensures
        final(book).sorted(),
        reg_uniq(final(orders)@),
        forall|i: int| 0 <= i < final(orders)@.len() ==> (#[trigger] final(orders)@[i]).qty > 0,
        book_reg_ok(*final(book), final(orders)@, bi@),
        reg_book_ok(*final(book), final(orders)@, bi@),
        forall|no: usize|
            reg_has(final(orders)@, no) ==> reg_has(old(orders)@, no) && same_but_qty(
                reg_get(final(orders)@, no),
                reg_get(old(orders)@, no),
            ) && reg_get(final(orders)@, no).qty <= reg_get(old(orders)@, no).qty,
        forall|no: usize|
            reg_has(old(orders)@, no) && spec_index(reg_get(old(orders)@, no)) != bi@ ==> reg_has(
                final(orders)@,
                no,
            ) && reg_get(final(orders)@, no) == reg_get(old(orders)@, no),
        forall|x: Key| final(book)@.contains(x) ==> old(book)@.contains(x),
        same_but_qty(*final(incoming), *old(incoming)),
        final(incoming).qty <= old(incoming).qty,
        sum_qty(old(orders)@) - sum_qty(final(orders)@) == old(incoming).qty - final(incoming).qty,
        !reg_has(final(orders)@, old(incoming).order_no),
        final(incoming).qty != 0 ==> forall|x: Key|
            final(book)@.contains(x) ==> !key_tradable(x, *final(incoming)),
        (forall|x: Key| old(book)@.contains(x) ==> !key_tradable(x, *old(incoming))) ==> (
        final(book)@ == old(book)@ && final(orders)@ == old(orders)@ && *final(incoming) == *old(
            incoming,
        )),
        (old(book)@.len() > 0 && key_tradable(old(book)@[0], *old(incoming)) && old(
            incoming,
        ).qty > 0) ==> final(incoming).qty < old(incoming).qty,
        // consumption follows strict key order: an order gave up quantity
        // only once everything ahead of it in the book was consumed whole
        forall|k1: Key, k2: Key|
            old(book)@.contains(k1) && old(book)@.contains(k2) && key_lt(k1, k2) && order_shrank(
                old(orders)@,
                final(orders)@,
                key_no(k2),
            ) ==> !reg_has(final(orders)@, key_no(k1)),
        // only tradable resting orders gave up quantity
        forall|k: Key|
            old(book)@.contains(k) && order_shrank(old(orders)@, final(orders)@, key_no(k))
                ==> key_tradable(k, *old(incoming)),
{
    loop
        invariant
            0 <= bi@ < 4,
            book.sorted(),
            reg_uniq(orders@),
            forall|i: int| 0 <= i < orders@.len() ==> (#[trigger] orders@[i]).qty > 0,
            book_reg_ok(*book, orders@, bi@),
            reg_book_ok(*book, orders@, bi@),
            forall|no: usize|
                reg_has(orders@, no) ==> reg_has(old(orders)@, no) && same_but_qty(
                    reg_get(orders@, no),
                    reg_get(old(orders)@, no),
                ) && reg_get(orders@, no).qty <= reg_get(old(orders)@, no).qty,
            forall|no: usize|
                reg_has(old(orders)@, no) && spec_index(reg_get(old(orders)@, no)) != bi@
                    ==> reg_has(orders@, no) && reg_get(orders@, no) == reg_get(old(orders)@, no),
            forall|x: Key| book@.contains(x) ==> old(book)@.contains(x),
            same_but_qty(*incoming, *old(incoming)),
            incoming.qty <= old(incoming).qty,
            sum_qty(old(orders)@) - sum_qty(orders@) == old(incoming).qty - incoming.qty,
            !reg_has(orders@, old(incoming).order_no),
            side_of_index(bi@) != old(incoming).side,
            bi@ >= 2 ==> old(incoming).order_type is Limit,
            (forall|x: Key| old(book)@.contains(x) ==> !key_tradable(x, *old(incoming))) ==> (
            book@ == old(book)@ && orders@ == old(orders)@ && *incoming == *old(incoming)),
            old(incoming).qty > 0 ==> ((book@ == old(book)@ && orders@ == old(orders)@
                && *incoming == *old(incoming)) || incoming.qty < old(incoming).qty),
            // a key gone from the book is an order gone from the registry
            forall|k: Key|
                old(book)@.contains(k) && !book@.contains(k) ==> !reg_has(orders@, key_no(k)),
            forall|k1: Key, k2: Key|
                old(book)@.contains(k1) && old(book)@.contains(k2) && key_lt(k1, k2)
                    && order_shrank(old(orders)@, orders@, key_no(k2)) ==> !reg_has(
                    orders@,
                    key_no(k1),
                ),
            forall|k: Key|
                old(book)@.contains(k) && order_shrank(old(orders)@, orders@, key_no(k))
                    ==> key_tradable(k, *old(incoming)),
        ensures
            incoming.qty != 0 ==> forall|x: Key|
                book@.contains(x) ==> !key_tradable(x, *incoming),
            (old(book)@.len() > 0 && key_tradable(old(book)@[0], *old(incoming)) && old(
                incoming,
            ).qty > 0) ==> incoming.qty < old(incoming).qty,
        decreases book@.len(),
    {
        if book.len() == 0 {
            break ;
        }
        let ghost pre_book = book@;
        let ghost pre_orders = orders@;
        let ghost pre_inc = *incoming;
        let ghost k = book@[0];
        proof {
            assert(book@.contains(k));
        }
        let no = match book.peek() {
            Some(p) => p.1,
            None => {
                break ;
            },
        };
        let oi = match find_order(orders, no) {
            Some(i) => i,
            None => {
                break ;
            },
        };
        let book_order = orders[oi];
        proof {
            lemma_reg_get(orders@, no, oi as int);
            assert(book_order == reg_get(orders@, no));
            assert(spec_key_of(book_order) == k);
            assert(spec_index(book_order) == bi@);
        }
        if try_trade(&book_order, incoming).is_none() {
            // A bid/ask spread: nothing past the best entry can trade
            // either, since later keys quote strictly worse prices.
            proof {
                assert forall|x: Key| book@.contains(x) implies !key_tradable(
                    x,
                    *incoming,
                ) by {
                    let j = choose|j: int| 0 <= j < book@.len() && book@[j] == x;
                    assert(key_backed(orders@, x, bi@));
                    let ox = reg_get(orders@, key_no(x));
                    assert(spec_key_of(ox) == x && spec_index(ox) == bi@);
                    if j > 0 {
                        assert(crate::key::key_lt(book@[0], book@[j]));
                    }
                }
            }
            break ;
        }
        let _ = book.pop();
        let popped = remove_order(orders, oi);
        proof {
            assert(popped == book_order);
        }
        let min_qty = if book_order.qty < incoming.qty {
            book_order.qty
        } else {
            incoming.qty
        };
        incoming.qty = incoming.qty - min_qty;
        let mut updated = book_order;
        updated.qty = book_order.qty - min_qty;
        if updated.qty != 0 {
            push_order(orders, updated);
            let k2 = key_of(&updated);
            proof {
                assert(k2 == k);
            }
            let _ = book.insert(k2);
        }
        proof {
            // The book's keys stay backed: every surviving key names an
            // order other than the one just consumed, whose entry is
            // untouched; a re-booked remainder is backed by its own push.
            assert(key_no(k) == book_order.order_no);
            assert forall|x: Key| book@.contains(x) implies key_backed(orders@, x, bi@) by {
                if updated.qty != 0 && x == k {
                    assert(reg_get(orders@, key_no(k)) == updated);
                } else {
                    assert(pre_book.contains(x) && x != k);
                    assert(key_backed(pre_orders, x, bi@));
                    if key_no(x) == book_order.order_no {
                        assert(x == spec_key_of(book_order));
                    }
                    assert(key_no(x) != book_order.order_no);
                }
            }
            assert forall|i: int|
                0 <= i < orders@.len() && spec_index(#[trigger] orders@[i]) == bi@ implies
                book@.contains(spec_key_of(orders@[i])) by {
                let o = orders@[i];
                lemma_reg_get(orders@, o.order_no, i);
                if updated.qty != 0 && o.order_no == updated.order_no {
                    assert(o == updated);
                    assert(book@.contains(k));
                } else {
                    assert(o.order_no != book_order.order_no);
                    assert(reg_has(pre_orders, o.order_no) && reg_get(pre_orders, o.order_no)
                        == o);
                    assert(pre_book.contains(spec_key_of(o)));
                    assert(key_no(spec_key_of(o)) == o.order_no);
                    assert(spec_key_of(o) != k);
                }
            }
            // Pre-existing orders elsewhere are untouched, and quantities
            // only shrink.
            assert forall|no2: usize| reg_has(orders@, no2) implies reg_has(old(orders)@, no2)
                && same_but_qty(reg_get(orders@, no2), reg_get(old(orders)@, no2)) && reg_get(
                orders@,
                no2,
            ).qty <= reg_get(old(orders)@, no2).qty by {
                if updated.qty != 0 && no2 == updated.order_no {
                    assert(reg_get(orders@, no2) == updated);
                    assert(reg_has(pre_orders, no2) && reg_get(pre_orders, no2) == book_order);
                } else {
                    assert(reg_has(pre_orders, no2) && reg_get(orders@, no2) == reg_get(
                        pre_orders,
                        no2,
                    ));
                }
            }
            assert forall|no2: usize|
                reg_has(old(orders)@, no2) && spec_index(reg_get(old(orders)@, no2))
                    != bi@ implies reg_has(orders@, no2) && reg_get(orders@, no2) == reg_get(
                old(orders)@,
                no2,
            ) by {
                assert(reg_has(pre_orders, no2) && reg_get(pre_orders, no2) == reg_get(
                    old(orders)@,
                    no2,
                ));
                assert(no2 != book_order.order_no);
            }
            // This iteration traded, so the book did hold a tradable key:
            // the nothing-tradable clause is preserved vacuously.
            assert(old(book)@.contains(k) && key_tradable(k, *old(incoming))) by {
                assert(pre_book.contains(k));
                assert(key_tradable(k, pre_inc));
            }
            // Only one key of the original book carries the consumed
            // order's number: the one just processed.
            let nb = book_order.order_no;
            assert forall|x: Key| old(book)@.contains(x) && key_no(x) == nb implies x == k by {
                assert(key_backed(old(orders)@, x, bi@));
                assert(same_but_qty(book_order, reg_get(old(orders)@, nb)));
                assert(spec_key_of(reg_get(old(orders)@, nb)) == spec_key_of(book_order));
            }
            // Keys ahead of the one just consumed were already gone, and
            // with them their orders: consumption follows key order.
            assert forall|k1: Key|
                old(book)@.contains(k1) && key_lt(k1, k) implies !reg_has(
                orders@,
                key_no(k1),
            ) by {
                crate::key::lemma_key_lt_strict_total_order(k1, k, k);
                if pre_book.contains(k1) {
                    let j = choose|j: int| 0 <= j < pre_book.len() && pre_book[j] == k1;
                    if j > 0 {
                        assert(key_lt(pre_book[0], pre_book[j]));
                    }
                    assert(false);
                }
                assert(!reg_has(pre_orders, key_no(k1)));
                assert(key_no(k1) != nb);
            }
            assert forall|x: Key|
                old(book)@.contains(x) && !book@.contains(x) implies !reg_has(
                orders@,
                key_no(x),
            ) by {
                if key_no(x) == nb {
                    assert(x == k);
                    assert(updated.qty == 0);
                } else if pre_book.contains(x) {
                    assert(book@.contains(x));
                } else {
                    assert(!reg_has(pre_orders, key_no(x)));
                }
            }
            assert forall|k1: Key, k2: Key|
                old(book)@.contains(k1) && old(book)@.contains(k2) && key_lt(k1, k2)
                    && order_shrank(old(orders)@, orders@, key_no(k2)) implies !reg_has(
                orders@,
                key_no(k1),
            ) by {
                if key_no(k2) == nb {
                    assert(k2 == k);
                } else {
                    assert(reg_has(orders@, key_no(k2)) ==> reg_get(orders@, key_no(k2))
                        == reg_get(pre_orders, key_no(k2)));
                    assert(order_shrank(old(orders)@, pre_orders, key_no(k2)));
                    assert(!reg_has(pre_orders, key_no(k1)));
                    assert(key_no(k1) != nb);
                }
            }
            assert forall|k3: Key|
                old(book)@.contains(k3) && order_shrank(old(orders)@, orders@, key_no(k3))
                    implies key_tradable(k3, *old(incoming)) by {
                if key_no(k3) == nb {
                    assert(k3 == k);
                } else {
                    assert(order_shrank(old(orders)@, pre_orders, key_no(k3)));
                }
            }
        }
        if incoming.qty == 0 {
            break ;
        }
        proof {
            assert(updated.qty == 0);
            assert(book@.len() < pre_book.len());
        }
    }
}

/// Crossing one book touches only that partition: if its correspondence
/// with the registry is restored, every registry entry of another
/// partition is unchanged, and quantities only shrank, the whole
/// aggregate is well-formed again.
proof fn lemma_restore_wf(pre: OrderBook, post: OrderBook, bi: int)
    requires
        pre.wf(),
        0 <= bi < 4,
        forall|bj: int| 0 <= bj < 4 && bj != bi ==> post.book_at(bj) == pre.book_at(bj),
        post.book_at(bi).sorted(),
        book_reg_ok(post.book_at(bi), post.orders@, bi),
        reg_book_ok(post.book_at(bi), post.orders@, bi),
        reg_uniq(post.orders@),
        forall|i: int| 0 <= i < post.orders@.len() ==> (#[trigger] post.orders@[i]).qty > 0,
        forall|no: usize|
            reg_has(post.orders@, no) ==> reg_has(pre.orders@, no) && same_but_qty(
                reg_get(post.orders@, no),
                reg_get(pre.orders@, no),
            ),
        forall|no: usize|
            reg_has(pre.orders@, no) && spec_index(reg_get(pre.orders@, no)) != bi ==> reg_has(
                post.orders@,
                no,
            ) && reg_get(post.orders@, no) == reg_get(pre.orders@, no),
    ensures
        post.wf(),
{
    assert forall|bj: int, x: Key|
        0 <= bj < 4 && bj != bi && post.book_at(bj)@.contains(x) implies key_backed(
        post.orders@,
        x,
        bj,
    ) by {
        assert(pre.book_at(bj)@.contains(x));
        assert(key_backed(pre.orders@, x, bj));
        let o = reg_get(pre.orders@, key_no(x));
        assert(spec_index(o) == bj);
        assert(bj != bi);
        assert(reg_get(post.orders@, key_no(x)) == o);
    }
    assert forall|bj: int, i: int|
        #![trigger post.book_at(bj), post.orders@[i]]
        0 <= bj < 4 && bj != bi && 0 <= i < post.orders@.len() && spec_index(post.orders@[i])
            == bj implies post.book_at(bj)@.contains(spec_key_of(post.orders@[i])) by {
        let o = post.orders@[i];
        lemma_reg_get(post.orders@, o.order_no, i);
        assert(reg_has(pre.orders@, o.order_no));
        let po = reg_get(pre.orders@, o.order_no);
        assert(same_but_qty(o, po));
        assert(spec_index(po) == bj);
        assert(reg_get(post.orders@, o.order_no) == po);
        assert(o == po);
        let pj = choose|pj: int|
            0 <= pj < pre.orders@.len() && pre.orders@[pj].order_no == o.order_no;
        assert(pre.orders@[pj] == po) by {
            lemma_reg_get(pre.orders@, o.order_no, pj);
        }
        assert(pre.book_at(bj)@.contains(spec_key_of(po)));
    }
    assert(book_reg_ok(post.bid_limit, post.orders@, 0)) by {
        assert(post.bid_limit == post.book_at(0));
    }
    assert(book_reg_ok(post.ask_limit, post.orders@, 1)) by {
        assert(post.ask_limit == post.book_at(1));
    }
    assert(book_reg_ok(post.bid_market, post.orders@, 2)) by {
        assert(post.bid_market == post.book_at(2));
    }
    assert(book_reg_ok(post.ask_market, post.orders@, 3)) by {
        assert(post.ask_market == post.book_at(3));
    }
    assert(reg_book_ok(post.bid_limit, post.orders@, 0)) by {
        assert(post.bid_limit == post.book_at(0));
    }
    assert(reg_book_ok(post.ask_limit, post.orders@, 1)) by {
        assert(post.ask_limit == post.book_at(1));
    }
    assert(reg_book_ok(post.bid_market, post.orders@, 2)) by {
        assert(post.bid_market == post.book_at(2));
    }
    assert(reg_book_ok(post.ask_market, post.orders@, 3)) by {
        assert(post.ask_market == post.book_at(3));
    }
    assert(post.bid_limit.sorted() && post.ask_limit.sorted() && post.bid_market.sorted()
        && post.ask_market.sorted()) by {
        assert(post.book_at(0) == post.bid_limit && post.book_at(1) == post.ask_limit
            && post.book_at(2) == post.bid_market && post.book_at(3) == post.ask_market);
        assert(pre.book_at(0) == pre.bid_limit && pre.book_at(1) == pre.ask_limit && pre.book_at(
            2,
        ) == pre.bid_market && pre.book_at(3) == pre.ask_market);
    }
}

/// The reported, recoverable errors of the lifecycle operations.
#[derive(Clone, Copy, PartialEq, Eq, Structural, Debug)]
pub enum EngineError {
    /// An amend targeted an order number the registry does not hold.
    UnknownOrder,
}

/// One instrument's matching state: the four books and the registry.
pub struct OrderBook {
    pub name: String,
    pub bid_limit: Book,
    pub ask_limit: Book,
    pub bid_market: Book,
    pub ask_market: Book,
    pub orders: Vec<Order>,
}

impl OrderBook {
    /// The book of partition `bi`.
    pub open spec fn book_at(self, bi: int) -> Book {
        if bi == 0 {
            self.bid_limit
        } else if bi == 1 {
            self.ask_limit
        } else if bi == 2 {
            self.bid_market
        } else {
            self.ask_market
        }
    }

    /// Well-formedness: the books are strictly sorted by priority, order
    /// numbers are unique, every registry order has positive quantity and
    /// rests in exactly its partition's book, and every book entry is
    /// backed by the registry.
    pub open spec fn wf(self) -> bool {
        &&& self.bid_limit.sorted()
        &&& self.ask_limit.sorted()
        &&& self.bid_market.sorted()
        &&& self.ask_market.sorted()
        &&& reg_uniq(self.orders@)
        &&& forall|i: int| 0 <= i < self.orders@.len() ==> (#[trigger] self.orders@[i]).qty > 0
        &&& book_reg_ok(self.bid_limit, self.orders@, 0)
        &&& book_reg_ok(self.ask_limit, self.orders@, 1)
        &&& book_reg_ok(self.bid_market, self.orders@, 2)
        &&& book_reg_ok(self.ask_market, self.orders@, 3)
        &&& reg_book_ok(self.bid_limit, self.orders@, 0)
        &&& reg_book_ok(self.ask_limit, self.orders@, 1)
        &&& reg_book_ok(self.bid_market, self.orders@, 2)
        &&& reg_book_ok(self.ask_market, self.orders@, 3)
    }

    /// An empty order book for one instrument.
    pub fn new(name: String) -> (r: OrderBook)
        ensures
            r.wf(),
            r.orders@.len() == 0,
            r.bid_limit@.len() == 0,
            r.ask_limit@.len() == 0,
            r.bid_market@.len() == 0,
            r.ask_market@.len() == 0,
            r.name@ == name@,
    {
        OrderBook {
            name,
            bid_limit: Book::new(),
            ask_limit: Book::new(),
            bid_market: Book::new(),
            ask_market: Book::new(),
            orders: Vec::new(),
        }
    }

    /// The index of the book an order rests in; identical whether used to
    /// insert or to locate the order for removal.
    pub fn index(order: &Order) -> (r: usize)
        ensures
            r as int == spec_index(*order),
            r < 4,
    {
        let s: usize = match order.side {
            Side::Bid => 0,
            Side::Ask => 1,
        };
        let t: usize = match order.order_type {
            OrderType::Limit => 0,
            OrderType::Market => 2,
        };
        s + t
    }

    /// The bid-limit book's index.
    pub fn bid_index() -> (r: usize)
        ensures
            r == 0,
    {
        0
    }

    /// The ask-limit book's index.
    pub fn ask_index() -> (r: usize)
        ensures
            r == 1,
    {
        1
    }

    /// The bid-market book's index.
    pub fn bid_market_index() -> (r: usize)
        ensures
            r == 2,
    {
        2
    }

    /// The ask-market book's index.
    pub fn ask_market_index() -> (r: usize)
        ensures
            r == 3,
    {
        3
    }

    /// Whether the registry holds an order with this number.
    pub fn has_order(&self, order_no: usize) -> (r: bool)
        ensures
            r == reg_has(self.orders@, order_no),
    {
        find_order(&self.orders, order_no).is_some()
    }

    /// The current state of the resting order with this number.
    pub fn get_order(&self, order_no: usize) -> (r: Option<Order>)
        requires
            self.wf(),
        ensures
            match r {
                Some(o) => reg_has(self.orders@, order_no) && o == reg_get(
                    self.orders@,
                    order_no,
                ),
                None => !reg_has(self.orders@, order_no),
            },
    {
        match find_order(&self.orders, order_no) {
            Some(i) => {
                let o = self.orders[i];
                proof {
                    lemma_reg_get(self.orders@, order_no, i as int);
                }
                Some(o)
            },
            None => None,
        }
    }

    /// Inserts an order into the registry and into the book selected by
    /// its (side, order type) partition.  The only insertion path; it is
    /// only ever called with positive remaining quantity and a caller-
    /// unique order number.
    pub fn write(&mut self, order: Order)
        requires
            old(self).wf(),
            order.qty > 0,
            !reg_has(old(self).orders@, order.order_no),
        ensures
            final(self).wf(),
            final(self).name == old(self).name,
            final(self).orders@ == old(self).orders@.push(order),
            forall|bi: int|
                0 <= bi < 4 && bi != spec_index(order) ==> final(self).book_at(bi) == old(
                    self,
                ).book_at(bi),
            forall|x: Key|
                final(self).book_at(spec_index(order))@.contains(x) <==> (old(self).book_at(
                    spec_index(order),
                )@.contains(x) || x == spec_key_of(order)),
            sum_qty(final(self).orders@) == sum_qty(old(self).orders@) + order.qty,
            reg_has(final(self).orders@, order.order_no),
            reg_get(final(self).orders@, order.order_no) == order,
    {
        push_order(&mut self.orders, order);
        let k = key_of(&order);
        let idx = Self::index(&order);
        if idx == 0 {
            self.bid_limit.insert(k);
        } else if idx == 1 {
            self.ask_limit.insert(k);
        } else if idx == 2 {
            self.bid_market.insert(k);
        } else {
            self.ask_market.insert(k);
        }
        proof {
            let pre = *old(self);
            let post = *self;
            let bi = spec_index(order);
            assert(key_no(spec_key_of(order)) == order.order_no);
            // Keys of untouched books stay backed: their orders kept their
            // registry entries, which push does not disturb.
            assert forall|bj: int, x: Key|
                0 <= bj < 4 && post.book_at(bj)@.contains(x) implies key_backed(
                post.orders@,
                x,
                bj,
            ) by {
                if x == spec_key_of(order) && bj == bi {
                    lemma_reg_get(post.orders@, order.order_no, pre.orders@.len() as int);
                } else {
                    assert(pre.book_at(bj)@.contains(x));
                    assert(key_backed(pre.orders@, x, bj));
                }
            }
            assert forall|bj: int, i: int|
                0 <= bj < 4 && 0 <= i < post.orders@.len() && spec_index(post.orders@[i])
                    == bj implies post.book_at(bj)@.contains(spec_key_of(post.orders@[i])) by {
                if i < pre.orders@.len() {
                    assert(post.orders@[i] == pre.orders@[i]);
                    assert(pre.book_at(bj)@.contains(spec_key_of(pre.orders@[i])));
                } else {
                    assert(post.orders@[i] == order);
                }
            }
            assert(book_reg_ok(post.bid_limit, post.orders@, 0));
            assert(book_reg_ok(post.ask_limit, post.orders@, 1));
            assert(book_reg_ok(post.bid_market, post.orders@, 2));
            assert(book_reg_ok(post.ask_market, post.orders@, 3));
            assert(reg_book_ok(post.bid_limit, post.orders@, 0));
            assert(reg_book_ok(post.ask_limit, post.orders@, 1));
            assert(reg_book_ok(post.bid_market, post.orders@, 2));
            assert(reg_book_ok(post.ask_market, post.orders@, 3));
        }
    }

    /// Removes an order from the registry and from the book indexed by
    /// its current (side, order type).  Idempotent: cancelling an unknown
    /// or already-removed order number is a harmless no-op.
    #[verifier::rlimit(100)]
    pub fn cancel(&mut self, target: Order)
        requires
            old(self).wf(),
        ensures
            final(self).wf(),
            final(self).name == old(self).name,
            !reg_has(final(self).orders@, target.order_no),
            forall|no: usize|
                no != target.order_no ==> (reg_has(final(self).orders@, no) == reg_has(
                    old(self).orders@,
                    no,
                )),
            forall|no: usize|
                reg_has(final(self).orders@, no) ==> reg_get(final(self).orders@, no) == reg_get(
                    old(self).orders@,
                    no,
                ),
            !reg_has(old(self).orders@, target.order_no) ==> *final(self) == *old(self),
            reg_has(old(self).orders@, target.order_no) ==> {
                let cur = reg_get(old(self).orders@, target.order_no);
                &&& sum_qty(final(self).orders@) == sum_qty(old(self).orders@) - cur.qty
                &&& forall|bi: int|
                    0 <= bi < 4 && bi != spec_index(cur) ==> final(self).book_at(bi) == old(
                        self,
                    ).book_at(bi)
                &&& forall|x: Key|
                    final(self).book_at(spec_index(cur))@.contains(x) <==> (old(self).book_at(
                        spec_index(cur),
                    )@.contains(x) && x != spec_key_of(cur))
            },
    {
        let i = match find_order(&self.orders, target.order_no) {
            Some(i) => i,
            None => {
                return ;
            },
        };
        let cur = self.orders[i];
        proof {
            lemma_reg_get(old(self).orders@, target.order_no, i as int);
        }
        remove_order(&mut self.orders, i);
        let k = key_of(&cur);
        let idx = Self::index(&cur);
        if idx == 0 {
            self.bid_limit.remove(&k);
        } else if idx == 1 {
            self.ask_limit.remove(&k);
        } else if idx == 2 {
            self.bid_market.remove(&k);
        } else {
            self.ask_market.remove(&k);
        }
        proof {
            let pre = *old(self);
            let post = *self;
            let bi = spec_index(cur);
            assert(key_no(spec_key_of(cur)) == cur.order_no);
            assert forall|bj: int, x: Key|
                0 <= bj < 4 && post.book_at(bj)@.contains(x) implies key_backed(
                post.orders@,
                x,
                bj,
            ) by {
                assert(pre.book_at(bj)@.contains(x));
                assert(key_backed(pre.orders@, x, bj));
                // A remaining key cannot carry the removed order's number:
                // backing would force it to be the removed key itself.
                if key_no(x) == cur.order_no {
                    assert(x == spec_key_of(cur));
                    assert(bj == bi);
                    assert(!post.book_at(bi)@.contains(spec_key_of(cur)));
                }
            }
            assert forall|bj: int, j: int|
                0 <= bj < 4 && 0 <= j < post.orders@.len() && spec_index(post.orders@[j])
                    == bj implies post.book_at(bj)@.contains(spec_key_of(post.orders@[j])) by {
                let o = post.orders@[j];
                assert(reg_has(post.orders@, o.order_no)) by {
                    lemma_reg_get(post.orders@, o.order_no, j);
                }
                assert(o.order_no != cur.order_no);
                assert(reg_get(post.orders@, o.order_no) == o);
                assert(reg_get(pre.orders@, o.order_no) == o);
                let pj = choose|pj: int|
                    0 <= pj < pre.orders@.len() && pre.orders@[pj].order_no == o.order_no;
                assert(pre.orders@[pj] == o) by {
                    lemma_reg_get(pre.orders@, o.order_no, pj);
                }
                assert(pre.book_at(bj)@.contains(spec_key_of(o)));
                assert(key_no(spec_key_of(o)) == o.order_no);
                assert(spec_key_of(o) != spec_key_of(cur));
            }
            assert(book_reg_ok(post.bid_limit, post.orders@, 0));
            assert(book_reg_ok(post.ask_limit, post.orders@, 1));
            assert(book_reg_ok(post.bid_market, post.orders@, 2));
            assert(book_reg_ok(post.ask_market, post.orders@, 3));
            assert(reg_book_ok(post.bid_limit, post.orders@, 0));
            assert(reg_book_ok(post.ask_limit, post.orders@, 1));
            assert(reg_book_ok(post.bid_market, post.orders@, 2));
            assert(reg_book_ok(post.ask_market, post.orders@, 3));
        }
    }

    /// Crosses the book of partition `index` against the incoming order.
    /// Registry entries of other partitions and the other three books are
    /// untouched; the traded quantity leaves the incoming order and the
    /// book's resting orders in equal measure.
    pub fn book_matches(&mut self, index: usize, incoming: &mut Order)
        requires
            old(self).wf(),
            index < 4,
            side_of_index(index as int) != old(incoming).side,
            index >= 2 ==> old(incoming).order_type is Limit,
            !reg_has(old(self).orders@, old(incoming).order_no),
        ensures
            final(self).wf(),
            final(self).name == old(self).name,
            forall|bj: int|
                0 <= bj < 4 && bj != index ==> final(self).book_at(bj) == old(self).book_at(bj),
            forall|x: Key|
                final(self).book_at(index as int)@.contains(x) ==> old(self).book_at(
                    index as int,
                )@.contains(x),
            forall|no: usize|
                reg_has(final(self).orders@, no) ==> reg_has(old(self).orders@, no)
                    && same_but_qty(
                    reg_get(final(self).orders@, no),
                    reg_get(old(self).orders@, no),
                ) && reg_get(final(self).orders@, no).qty <= reg_get(old(self).orders@, no).qty,
            forall|no: usize|
                reg_has(old(self).orders@, no) && spec_index(reg_get(old(self).orders@, no))
                    != index ==> reg_has(final(self).orders@, no) && reg_get(
                    final(self).orders@,
                    no,
                ) == reg_get(old(self).orders@, no),
            same_but_qty(*final(incoming), *old(incoming)),
            final(incoming).qty <= old(incoming).qty,
            sum_qty(old(self).orders@) - sum_qty(final(self).orders@) == old(incoming).qty - final(incoming).qty,
            !reg_has(final(self).orders@, old(incoming).order_no),
            final(incoming).qty != 0 ==> forall|x: Key|
                final(self).book_at(index as int)@.contains(x) ==> !key_tradable(
                    x,
                    *final(incoming),
                ),
            (forall|x: Key|
                old(self).book_at(index as int)@.contains(x) ==> !key_tradable(
                    x,
                    *old(incoming),
                )) ==> (final(self).book_at(index as int)@ == old(self).book_at(index as int)@
                && final(self).orders@ == old(self).orders@ && *final(incoming) == *old(incoming)),
            (old(self).book_at(index as int)@.len() > 0 && key_tradable(
                old(self).book_at(index as int)@[0],
                *old(incoming),
            ) && old(incoming).qty > 0) ==> final(incoming).qty < old(incoming).qty,
            // consumption follows strict key order: an order gave up
            // quantity only once everything ahead of it in the crossed
            // book was consumed whole
            forall|k1: Key, k2: Key|
                old(self).book_at(index as int)@.contains(k1) && old(self).book_at(
                    index as int,
                )@.contains(k2) && key_lt(k1, k2) && order_shrank(
                    old(self).orders@,
                    final(self).orders@,
                    key_no(k2),
                ) ==> !reg_has(final(self).orders@, key_no(k1)),
            // only tradable resting orders gave up quantity
            forall|k: Key|
                old(self).book_at(index as int)@.contains(k) && order_shrank(
                    old(self).orders@,
                    final(self).orders@,
                    key_no(k),
                ) ==> key_tradable(k, *old(incoming)),
    {
        proof {
            assert(old(self).book_at(0) == old(self).bid_limit);
            assert(old(self).book_at(1) == old(self).ask_limit);
            assert(old(self).book_at(2) == old(self).bid_market);
            assert(old(self).book_at(3) == old(self).ask_market);
        }
        if index == 0 {
            cross(&mut self.bid_limit, &mut self.orders, incoming, Ghost(0int));
        } else if index == 1 {
            cross(&mut self.ask_limit, &mut self.orders, incoming, Ghost(1int));
        } else if index == 2 {
            cross(&mut self.bid_market, &mut self.orders, incoming, Ghost(2int));
        } else {
            cross(&mut self.ask_market, &mut self.orders, incoming, Ghost(3int));
        }
        proof {
            lemma_restore_wf(*old(self), *self, index as int);
        }
    }

    /// Crosses the incoming order against the opposite side's limit book.
    pub fn limit_book_matches(&mut self, incoming: &mut Order)
        requires
            old(self).wf(),
            !reg_has(old(self).orders@, old(incoming).order_no),
        ensures
            final(self).wf(),
            final(self).name == old(self).name,
            forall|bj: int|
                0 <= bj < 4 && bj != opp_limit_index(old(incoming).side) ==> final(self).book_at(
                    bj,
                ) == old(self).book_at(bj),
            forall|x: Key|
                final(self).book_at(opp_limit_index(old(incoming).side))@.contains(x) ==> old(
                    self,
                ).book_at(opp_limit_index(old(incoming).side))@.contains(x),
            forall|no: usize|
                reg_has(final(self).orders@, no) ==> reg_has(old(self).orders@, no)
                    && same_but_qty(
                    reg_get(final(self).orders@, no),
                    reg_get(old(self).orders@, no),
                ) && reg_get(final(self).orders@, no).qty <= reg_get(old(self).orders@, no).qty,
            forall|no: usize|
                reg_has(old(self).orders@, no) && spec_index(reg_get(old(self).orders@, no))
                    != opp_limit_index(old(incoming).side) ==> reg_has(final(self).orders@, no)
                    && reg_get(final(self).orders@, no) == reg_get(old(self).orders@, no),
            same_but_qty(*final(incoming), *old(incoming)),
            final(incoming).qty <= old(incoming).qty,
            sum_qty(old(self).orders@) - sum_qty(final(self).orders@) == old(incoming).qty - final(incoming).qty,
            !reg_has(final(self).orders@, old(incoming).order_no),
            final(incoming).qty != 0 ==> forall|x: Key|
                final(self).book_at(opp_limit_index(old(incoming).side))@.contains(x)
                    ==> !key_tradable(x, *final(incoming)),
            (forall|x: Key|
                old(self).book_at(opp_limit_index(old(incoming).side))@.contains(x)
                    ==> !key_tradable(x, *old(incoming))) ==> (final(self).book_at(
                opp_limit_index(old(incoming).side),
            )@ == old(self).book_at(opp_limit_index(old(incoming).side))@ && final(self).orders@
                == old(self).orders@ && *final(incoming) == *old(incoming)),
            (old(self).book_at(opp_limit_index(old(incoming).side))@.len() > 0 && key_tradable(
                old(self).book_at(opp_limit_index(old(incoming).side))@[0],
                *old(incoming),
            ) && old(incoming).qty > 0) ==> final(incoming).qty < old(incoming).qty,
    {
        let idx = match incoming.side.toggle() {
            Side::Bid => 0,
            Side::Ask => 1,
        };
        self.book_matches(idx, incoming);
    }

    /// Crosses an incoming limit order against the opposite side's market
    /// book: resting market orders take priority ahead of any compatible
    /// limit order.
    pub fn market_book_matches(&mut self, incoming: &mut Order)
        requires
            old(self).wf(),
            old(incoming).order_type is Limit,
            !reg_has(old(self).orders@, old(incoming).order_no),
        ensures
            final(self).wf(),
            final(self).name == old(self).name,
            forall|bj: int|
                0 <= bj < 4 && bj != opp_market_index(old(incoming).side) ==> final(self).book_at(
                    bj,
                ) == old(self).book_at(bj),
            forall|x: Key|
                final(self).book_at(opp_market_index(old(incoming).side))@.contains(x) ==> old(
                    self,
                ).book_at(opp_market_index(old(incoming).side))@.contains(x),
            forall|no: usize|
                reg_has(final(self).orders@, no) ==> reg_has(old(self).orders@, no)
                    && same_but_qty(
                    reg_get(final(self).orders@, no),
                    reg_get(old(self).orders@, no),
                ) && reg_get(final(self).orders@, no).qty <= reg_get(old(self).orders@, no).qty,
            forall|no: usize|
                reg_has(old(self).orders@, no) && spec_index(reg_get(old(self).orders@, no))
                    != opp_market_index(old(incoming).side) ==> reg_has(final(self).orders@, no)
                    && reg_get(final(self).orders@, no) == reg_get(old(self).orders@, no),
            same_but_qty(*final(incoming), *old(incoming)),
            final(incoming).qty <= old(incoming).qty,
            sum_qty(old(self).orders@) - sum_qty(final(self).orders@) == old(incoming).qty - final(incoming).qty,
            !reg_has(final(self).orders@, old(incoming).order_no),
            final(incoming).qty != 0 ==> forall|x: Key|
                final(self).book_at(opp_market_index(old(incoming).side))@.contains(x)
                    ==> !key_tradable(x, *final(incoming)),
            (old(self).book_at(opp_market_index(old(incoming).side))@.len() > 0 && old(
                incoming,
            ).qty > 0) ==> final(incoming).qty < old(incoming).qty,
            old(self).book_at(opp_market_index(old(incoming).side))@.len() == 0 ==> (
            final(self).book_at(opp_market_index(old(incoming).side))@ == old(self).book_at(
                opp_market_index(old(incoming).side),
            )@ && final(self).orders@ == old(self).orders@ && *final(incoming) == *old(incoming)),
    {
        proof {
            // A market book's best entry is always tradable against an
            // incoming limit order.
            let bi = opp_market_index(incoming.side);
            assert(old(self).book_at(2) == old(self).bid_market);
            assert(old(self).book_at(3) == old(self).ask_market);
            if old(self).book_at(bi)@.len() > 0 {
                let x = old(self).book_at(bi)@[0];
                assert(old(self).book_at(bi)@.contains(x));
                assert(key_backed(old(self).orders@, x, bi));
                assert(key_tradable(x, *incoming));
            }
        }
        let idx = match incoming.side.toggle() {
            Side::Bid => 2,
            Side::Ask => 3,
        };
        self.book_matches(idx, incoming);
    }
}

/// In a sorted book whose keys all belong to one partition, a tradable
/// key anywhere implies the best entry is tradable: the best quotes the
/// most aggressive price.
proof fn lemma_best_tradable(b: Book, s: Seq<Order>, bi: int, inc: Order)
    requires
        b.sorted(),
        book_reg_ok(b, s, bi),
        b@.len() > 0,
        exists|k: Key| #[trigger] b@.contains(k) && key_tradable(k, inc),
    ensures
        key_tradable(b@[0], inc),
{
    let k = choose|k: Key| #[trigger] b@.contains(k) && key_tradable(k, inc);
    let j = choose|j: int| 0 <= j < b@.len() && b@[j] == k;
    assert(b@.contains(b@[0]));
    assert(key_backed(s, b@[0], bi));
    assert(key_backed(s, k, bi));
    if j > 0 {
        assert(crate::key::key_lt(b@[0], b@[j]));
    }
    assert(spec_key_of(reg_get(s, key_no(b@[0]))) == b@[0]);
    assert(spec_key_of(reg_get(s, key_no(k))) == k);
}

/// A market book none of whose keys can trade against a limit order is
/// empty: a market key is always tradable against one.
proof fn lemma_market_book_drained(b: Book, s: Seq<Order>, bi: int, inc: Order)
    requires
        bi == 2 || bi == 3,
        book_reg_ok(b, s, bi),
        inc.order_type is Limit,
        forall|x: Key| b@.contains(x) ==> !key_tradable(x, inc),
    ensures
        b@.len() == 0,
{
    if b@.len() > 0 {
        let x = b@[0];
        assert(b@.contains(x));
        assert(key_backed(s, x, bi));
        let o = reg_get(s, key_no(x));
        assert(spec_index(o) == bi);
        assert(o.order_type is Market);
        assert(spec_key_of(o) == x);
        assert(key_tradable(x, inc));
        assert(false);
    }
}

impl OrderBook {
    /// Whether anything resting could trade against this incoming order:
    /// the opposite market book is nonempty (and the incoming order is a
    /// limit order able to price such a trade), or the opposite limit book
    /// holds a key whose price crosses.
    #[verifier::opaque]
    pub open spec fn crossable(self, inc: Order) -> bool {
        ||| (inc.order_type is Limit && self.book_at(opp_market_index(inc.side))@.len() > 0)
        ||| exists|k: Key|
            #[trigger] self.book_at(opp_limit_index(inc.side))@.contains(k) && key_tradable(
                k,
                inc,
            )
    }

    /// Submits an incoming order to the continuous double auction: a limit
    /// order first crosses the opposite market book (resting market orders
    /// take top priority), any remainder crosses the opposite limit book,
    /// and what is still unfilled rests — unless the order is immediate-or-
    /// cancel, in which case the remainder is discarded.
    #[verifier::rlimit(100)]
    #[verifier::spinoff_prover]
    pub fn continous_matches(&mut self, incoming: Order)
        requires
            old(self).wf(),
            incoming.qty > 0,
            !reg_has(old(self).orders@, incoming.order_no),
        ensures
            final(self).wf(),
            final(self).name == old(self).name,
            // resting orders never grow, change shape, or appear from nowhere
            forall|no: usize|
                no != incoming.order_no && reg_has(final(self).orders@, no) ==> reg_has(
                    old(self).orders@,
                    no,
                ) && same_but_qty(reg_get(final(self).orders@, no), reg_get(old(self).orders@, no))
                    && reg_get(final(self).orders@, no).qty <= reg_get(old(self).orders@, no).qty,
            // an immediate-or-cancel remainder is discarded, never rested
            incoming.condition == Condition::IOC ==> !reg_has(
                final(self).orders@,
                incoming.order_no,
            ),
            // what rests is the incoming order less what traded, and it
            // cannot cross what is left resting
            reg_has(final(self).orders@, incoming.order_no) ==> {
                let rest = reg_get(final(self).orders@, incoming.order_no);
                &&& same_but_qty(rest, incoming)
                &&& 0 < rest.qty <= incoming.qty
                &&& incoming.condition != Condition::IOC
                &&& sum_qty(final(self).orders@) == sum_qty(old(self).orders@) - incoming.qty + 2
                    * rest.qty
                &&& !final(self).crossable(rest)
            },
            // fully filled (or discarded): the books gave up exactly the
            // incoming quantity (IOC: at most that)
            (!reg_has(final(self).orders@, incoming.order_no) && incoming.condition
                != Condition::IOC) ==> sum_qty(final(self).orders@) == sum_qty(old(self).orders@)
                - incoming.qty,
            incoming.condition == Condition::IOC ==> sum_qty(old(self).orders@) - incoming.qty
                <= sum_qty(final(self).orders@) <= sum_qty(old(self).orders@),
            // something tradable rested: a trade strictly happens
            old(self).crossable(incoming) ==> {
                &&& (reg_has(final(self).orders@, incoming.order_no) ==> reg_get(
                    final(self).orders@,
                    incoming.order_no,
                ).qty < incoming.qty)
                &&& (incoming.condition == Condition::IOC ==> sum_qty(final(self).orders@)
                    < sum_qty(old(self).orders@))
            },
            // crossing touches only the books facing the incoming order;
            // the remainder, if any, rests in the incoming order's own book
            forall|bi: int|
                0 <= bi < 4 && bi != opp_limit_index(incoming.side) && !(incoming.order_type
                    is Limit && bi == opp_market_index(incoming.side)) && bi != spec_index(
                    incoming,
                ) ==> final(self).book_at(bi) == old(self).book_at(bi),
            forall|x: Key|
                final(self).book_at(opp_limit_index(incoming.side))@.contains(x) ==> old(
                    self,
                ).book_at(opp_limit_index(incoming.side))@.contains(x),
            incoming.order_type is Limit ==> (forall|x: Key|
                final(self).book_at(opp_market_index(incoming.side))@.contains(x) ==> old(
                    self,
                ).book_at(opp_market_index(incoming.side))@.contains(x)),
            // registry entries of partitions the crossing never faces are
            // exactly unchanged
            forall|no: usize|
                reg_has(old(self).orders@, no) && no != incoming.order_no && spec_index(
                    reg_get(old(self).orders@, no),
                ) != opp_limit_index(incoming.side) && !(incoming.order_type is Limit
                    && spec_index(reg_get(old(self).orders@, no)) == opp_market_index(
                    incoming.side,
                )) ==> reg_has(final(self).orders@, no) && reg_get(final(self).orders@, no)
                    == reg_get(old(self).orders@, no),
            // resting market orders cross ahead of resting limit orders: a
            // limit-book order gave up quantity only once the opposite
            // market book was consumed empty
            (incoming.order_type is Limit && (exists|no: usize|
                reg_has(old(self).orders@, no) && spec_index(
                    #[trigger] reg_get(old(self).orders@, no),
                ) == opp_limit_index(incoming.side) && order_shrank(
                    old(self).orders@,
                    final(self).orders@,
                    no,
                ))) ==> final(self).book_at(opp_market_index(incoming.side))@.len() == 0,
            // nothing tradable: the order rests whole, or is discarded
            !old(self).crossable(incoming) ==> {
                &&& (incoming.condition == Condition::IOC ==> final(self).orders@ == old(
                    self,
                ).orders@ && forall|bi: int|
                    0 <= bi < 4 ==> final(self).book_at(bi)@ == old(self).book_at(bi)@)
                &&& (incoming.condition != Condition::IOC ==> {
                    &&& final(self).orders@ == old(self).orders@.push(incoming)
                    &&& forall|bi: int|
                        0 <= bi < 4 && bi != spec_index(incoming) ==> final(self).book_at(bi)@
                            == old(self).book_at(bi)@
                    &&& forall|x: Key|
                        final(self).book_at(spec_index(incoming))@.contains(x) <==> (old(
                            self,
                        ).book_at(spec_index(incoming))@.contains(x) || x == spec_key_of(incoming))
                })
            },
    {
        let ghost s0 = *old(self);
        let mut inc = incoming;
        if inc.order_type == OrderType::Limit {
            self.market_book_matches(&mut inc);
        }
        let ghost s1 = *self;
        let ghost inc1 = inc;
        if inc.qty != 0 {
            self.limit_book_matches(&mut inc);
        }
        let ghost s2 = *self;
        let ghost inc2 = inc;
        let rests = inc.qty != 0 && !(inc.condition == Condition::IOC);
        if rests {
            self.write(inc);
        }
        proof {
            assert(s0.book_at(0) == s0.bid_limit && s0.book_at(1) == s0.ask_limit && s0.book_at(2)
                == s0.bid_market && s0.book_at(3) == s0.ask_market);
            assert(s1.book_at(0) == s1.bid_limit && s1.book_at(1) == s1.ask_limit && s1.book_at(2)
                == s1.bid_market && s1.book_at(3) == s1.ask_market);
            assert(s2.book_at(0) == s2.bid_limit && s2.book_at(1) == s2.ask_limit && s2.book_at(2)
                == s2.bid_market && s2.book_at(3) == s2.ask_market);
            let sf = *self;
            assert(sf.book_at(0) == sf.bid_limit && sf.book_at(1) == sf.ask_limit && sf.book_at(2)
                == sf.bid_market && sf.book_at(3) == sf.ask_market);
            let no = incoming.order_no;
            let oli = opp_limit_index(incoming.side);
            let omi = opp_market_index(incoming.side);
            assert(sum_qty(s2.orders@) == sum_qty(s0.orders@) - (incoming.qty - inc2.qty));
            if rests {
                assert(reg_has(sf.orders@, no));
            } else {
                assert(!reg_has(sf.orders@, no));
                assert(inc2.qty == 0 || inc2.condition == Condition::IOC);
            }
            // the shrink-only clause, composed across the three steps
            assert forall|no2: usize| no2 != no && reg_has(sf.orders@, no2) implies reg_has(
                s0.orders@,
                no2,
            ) && same_but_qty(reg_get(sf.orders@, no2), reg_get(s0.orders@, no2)) && reg_get(
                sf.orders@,
                no2,
            ).qty <= reg_get(s0.orders@, no2).qty by {
                assert(reg_has(s2.orders@, no2) && reg_get(sf.orders@, no2) == reg_get(
                    s2.orders@,
                    no2,
                ));
                assert(reg_has(s1.orders@, no2) && same_but_qty(
                    reg_get(s2.orders@, no2),
                    reg_get(s1.orders@, no2),
                ) && reg_get(s2.orders@, no2).qty <= reg_get(s1.orders@, no2).qty);
            }
            if rests {
                assert(reg_get(sf.orders@, no) == inc2);
                // the remainder cannot cross the final books
                assert(inc2.qty != 0);
                if inc2.order_type is Limit {
                    // the opposite market book emptied: its keys are all
                    // tradable, and none survived the market pass
                    assert(inc1.qty != 0);
                    assert(sf.book_at(omi) == s1.book_at(omi));
                    lemma_market_book_drained(s1.book_at(omi), s1.orders@, omi, inc1);
                }
                assert(sf.book_at(oli) == s2.book_at(oli));
                assert forall|x: Key| sf.book_at(oli)@.contains(x) implies !key_tradable(
                    x,
                    reg_get(sf.orders@, no),
                ) by {
                    assert(!key_tradable(x, inc2));
                }
                assert(!sf.crossable(reg_get(sf.orders@, no))) by {
                    reveal(OrderBook::crossable);
                }
            }
            if s0.crossable(incoming) {
                reveal(OrderBook::crossable);
                // something was tradable, so a trade strictly happened
                if incoming.order_type is Limit && s0.book_at(omi)@.len() > 0 {
                    assert(inc1.qty < incoming.qty);
                } else {
                    assert(exists|k: Key|
                        #[trigger] s0.book_at(oli)@.contains(k) && key_tradable(k, incoming));
                    if inc1.qty != 0 {
                        assert(s1.book_at(oli) == s0.book_at(oli));
                        if inc1.qty == incoming.qty {
                            assert(inc1 == incoming);
                            lemma_best_tradable(s1.book_at(oli), s0.orders@, oli, inc1);
                            assert(s0.book_at(oli)@.len() > 0);
                            assert(inc2.qty < inc1.qty);
                        } else {
                            assert(inc2.qty <= inc1.qty < incoming.qty);
                        }
                    }
                }
                assert(inc2.qty < incoming.qty);
            }
            if !s0.crossable(incoming) {
                reveal(OrderBook::crossable);
                // no market-book entry (for a limit order) and no tradable
                // limit key: both passes left everything unchanged
                if incoming.order_type is Limit {
                    assert(s0.book_at(omi)@.len() == 0);
                    assert(s1.book_at(omi)@ == s0.book_at(omi)@ && s1.orders@ == s0.orders@ && inc1
                        == incoming);
                    assert(forall|bi: int|
                        0 <= bi < 4 ==> s1.book_at(bi)@ == s0.book_at(bi)@);
                } else {
                    assert(s1 == s0 && inc1 == incoming);
                }
                assert(inc1.qty > 0);
                assert forall|x: Key| s1.book_at(oli)@.contains(x) implies !key_tradable(
                    x,
                    inc1,
                ) by {
                    assert(s0.book_at(oli)@.contains(x));
                }
                assert(s2.book_at(oli)@ == s1.book_at(oli)@ && s2.orders@ == s1.orders@ && inc2
                    == inc1);
                assert(forall|bi: int| 0 <= bi < 4 ==> s2.book_at(bi)@ == s0.book_at(bi)@);
                assert(s2.orders@ == s0.orders@);
                assert(inc2 == incoming);
            }
            // confinement: the two crossed books and the resting book are
            // the only ones the operation can reach
            assert(spec_index(incoming) != oli && spec_index(incoming) != omi);
            assert forall|bi: int|
                0 <= bi < 4 && bi != oli && !(incoming.order_type is Limit && bi == omi) && bi
                    != spec_index(incoming) implies sf.book_at(bi) == s0.book_at(bi) by {
                assert(s1.book_at(bi) == s0.book_at(bi));
                assert(s2.book_at(bi) == s1.book_at(bi));
                assert(sf.book_at(bi) == s2.book_at(bi));
            }
            assert forall|x: Key| sf.book_at(oli)@.contains(x) implies s0.book_at(
                oli,
            )@.contains(x) by {
                assert(sf.book_at(oli) == s2.book_at(oli));
                assert(s1.book_at(oli) == s0.book_at(oli));
            }
            if incoming.order_type is Limit {
                assert forall|x: Key| sf.book_at(omi)@.contains(x) implies s0.book_at(
                    omi,
                )@.contains(x) by {
                    assert(sf.book_at(omi) == s2.book_at(omi));
                    assert(s2.book_at(omi) == s1.book_at(omi));
                }
            }
            assert forall|no2: usize|
                reg_has(s0.orders@, no2) && no2 != incoming.order_no && spec_index(
                    reg_get(s0.orders@, no2),
                ) != oli && !(incoming.order_type is Limit && spec_index(reg_get(s0.orders@, no2))
                    == omi) implies reg_has(sf.orders@, no2) && reg_get(sf.orders@, no2)
                == reg_get(s0.orders@, no2) by {
                assert(reg_has(s1.orders@, no2) && reg_get(s1.orders@, no2) == reg_get(
                    s0.orders@,
                    no2,
                ));
                assert(reg_has(s2.orders@, no2) && reg_get(s2.orders@, no2) == reg_get(
                    s1.orders@,
                    no2,
                ));
                assert(reg_has(sf.orders@, no2) && reg_get(sf.orders@, no2) == reg_get(
                    s2.orders@,
                    no2,
                ));
            }
            // market-before-limit ordering: a limit-partition order shrank
            // only after the market pass drained the opposite market book
            if incoming.order_type is Limit && (exists|no2: usize|
                reg_has(s0.orders@, no2) && spec_index(#[trigger] reg_get(s0.orders@, no2)) == oli
                    && order_shrank(s0.orders@, sf.orders@, no2)) {
                let no2 = choose|no2: usize|
                    reg_has(s0.orders@, no2) && spec_index(
                        #[trigger] reg_get(s0.orders@, no2),
                    ) == oli && order_shrank(s0.orders@, sf.orders@, no2);
                assert(inc1.qty != 0) by {
                    if inc1.qty == 0 {
                        assert(reg_has(s1.orders@, no2) && reg_get(s1.orders@, no2) == reg_get(
                            s0.orders@,
                            no2,
                        ));
                        assert(sf == s2 && s2 == s1);
                        assert(!order_shrank(s0.orders@, sf.orders@, no2));
                    }
                }
                assert(sf.book_at(omi) == s2.book_at(omi) && s2.book_at(omi) == s1.book_at(omi));
                lemma_market_book_drained(s1.book_at(omi), s1.orders@, omi, inc1);
            }
        }
    }
}

impl OrderBook {
    /// Amends the resting order carrying `target.order_no`.  A change that
    /// leaves price, side and order type untouched only rewrites the
    /// stored order (the priority key does not encode quantity, so the
    /// order keeps its exact queue position); a change of price (or of
    /// side or order type) removes the order and re-submits it through the
    /// full crossing path, where it loses its former time priority and may
    /// trade immediately.  Amending an unknown order number is a reported
    /// error, and the book is left untouched.
    #[verifier::rlimit(100)]
    pub fn amend(&mut self, target: Order) -> (r: Result<(), EngineError>)
        requires
            old(self).wf(),
            target.qty > 0,
        ensures
            final(self).wf(),
            final(self).name == old(self).name,
            r is Err <==> !reg_has(old(self).orders@, target.order_no),
            r is Err ==> *final(self) == *old(self) && r == Result::<(), EngineError>::Err(
                EngineError::UnknownOrder,
            ),
            r is Ok ==> {
                let cur = reg_get(old(self).orders@, target.order_no);
                &&& forall|no: usize|
                    no != target.order_no && reg_has(final(self).orders@, no) ==> reg_has(
                        old(self).orders@,
                        no,
                    ) && same_but_qty(
                        reg_get(final(self).orders@, no),
                        reg_get(old(self).orders@, no),
                    ) && reg_get(final(self).orders@, no).qty <= reg_get(old(self).orders@, no).qty
                &&& ((cur.price == target.price && cur.side == target.side && cur.order_type
                    == target.order_type) ==> {
                    &&& forall|bi: int|
                        0 <= bi < 4 ==> final(self).book_at(bi) == old(self).book_at(bi)
                    &&& forall|no: usize|
                        reg_has(final(self).orders@, no) == reg_has(old(self).orders@, no)
                    &&& reg_get(final(self).orders@, target.order_no) == target
                    &&& forall|no: usize|
                        no != target.order_no && reg_has(final(self).orders@, no) ==> reg_get(
                            final(self).orders@,
                            no,
                        ) == reg_get(old(self).orders@, no)
                    &&& sum_qty(final(self).orders@) == sum_qty(old(self).orders@) - cur.qty
                        + target.qty
                })
                &&& (!(cur.price == target.price && cur.side == target.side && cur.order_type
                    == target.order_type) ==> {
                    &&& (target.condition == Condition::IOC ==> !reg_has(
                        final(self).orders@,
                        target.order_no,
                    ))
                    &&& (reg_has(final(self).orders@, target.order_no) ==> {
                        let rest = reg_get(final(self).orders@, target.order_no);
                        &&& same_but_qty(rest, target)
                        &&& 0 < rest.qty <= target.qty
                        &&& !final(self).crossable(rest)
                    })
                })
            },
    {
        let i = match find_order(&self.orders, target.order_no) {
            Some(i) => i,
            None => {
                return Err(EngineError::UnknownOrder);
            },
        };
        let cur = self.orders[i];
        proof {
            lemma_reg_get(old(self).orders@, target.order_no, i as int);
        }
        if cur.price == target.price && cur.side == target.side && cur.order_type
            == target.order_type {
            // The key is unchanged, so the books are untouched and the
            // order keeps its queue position; only the stored order moves.
            remove_order(&mut self.orders, i);
            push_order(&mut self.orders, target);
            proof {
                let pre = *old(self);
                let post = *self;
                assert(spec_key_of(target) == spec_key_of(cur));
                assert(spec_index(target) == spec_index(cur));
                assert forall|bj: int, x: Key|
                    0 <= bj < 4 && post.book_at(bj)@.contains(x) implies key_backed(
                    post.orders@,
                    x,
                    bj,
                ) by {
                    assert(pre.book_at(bj)@.contains(x));
                    assert(key_backed(pre.orders@, x, bj));
                    if key_no(x) == cur.order_no {
                        assert(x == spec_key_of(cur));
                        assert(reg_get(post.orders@, key_no(x)) == target);
                    }
                }
                assert forall|bj: int, j: int|
                    #![trigger post.book_at(bj), post.orders@[j]]
                    0 <= bj < 4 && 0 <= j < post.orders@.len() && spec_index(post.orders@[j])
                        == bj implies post.book_at(bj)@.contains(spec_key_of(post.orders@[j])) by {
                    let o = post.orders@[j];
                    lemma_reg_get(post.orders@, o.order_no, j);
                    if o.order_no == cur.order_no {
                        assert(o == target);
                        assert(pre.book_at(bj)@.contains(spec_key_of(cur)));
                    } else {
                        assert(reg_get(pre.orders@, o.order_no) == o);
                        let pj = choose|pj: int|
                            0 <= pj < pre.orders@.len() && pre.orders@[pj].order_no == o.order_no;
                        assert(pre.orders@[pj] == o) by {
                            lemma_reg_get(pre.orders@, o.order_no, pj);
                        }
                        assert(pre.book_at(bj)@.contains(spec_key_of(o)));
                    }
                }
                assert(book_reg_ok(post.bid_limit, post.orders@, 0) && book_reg_ok(
                    post.ask_limit,
                    post.orders@,
                    1,
                ) && book_reg_ok(post.bid_market, post.orders@, 2) && book_reg_ok(
                    post.ask_market,
                    post.orders@,
                    3,
                )) by {
                    assert(post.book_at(0) == post.bid_limit && post.book_at(1) == post.ask_limit
                        && post.book_at(2) == post.bid_market && post.book_at(3)
                        == post.ask_market);
                }
                assert(reg_book_ok(post.bid_limit, post.orders@, 0) && reg_book_ok(
                    post.ask_limit,
                    post.orders@,
                    1,
                ) && reg_book_ok(post.bid_market, post.orders@, 2) && reg_book_ok(
                    post.ask_market,
                    post.orders@,
                    3,
                )) by {
                    assert(post.book_at(0) == post.bid_limit && post.book_at(1) == post.ask_limit
                        && post.book_at(2) == post.bid_market && post.book_at(3)
                        == post.ask_market);
                }
            }
            Ok(())
        } else {
            // The key changes: drop the old entry, then re-enter through
            // the continuous crossing path, losing the old time priority.
            self.cancel(cur);
            self.continous_matches(target);
            Ok(())
        }
    }
}

/// The orders quoted at exactly one price level on one side.
pub open spec fn at_level(side: Side, p: usize) -> spec_fn(Order) -> bool {
    |o: Order| o.side == side && o.order_type is Limit && o.price == p
}

impl OrderBook {
    /// The limit book of one side.
    pub open spec fn side_limit_book(self, side: Side) -> Book {
        if side is Bid {
            self.bid_limit
        } else {
            self.ask_limit
        }
    }

    /// In a well-formed order book the limit books hold limit keys of
    /// their own side only: descending for bids, ascending for asks.
    pub proof fn lemma_limit_books_uniform(self)
        requires
            self.wf(),
        ensures
            self.bid_limit.all_desc(),
            self.ask_limit.all_asc(),
    {
        assert forall|i: int| 0 <= i < self.bid_limit@.len() implies self.bid_limit@[i]
            is LimitDesc by {
            assert(self.bid_limit@.contains(self.bid_limit@[i]));
            assert(key_backed(self.orders@, self.bid_limit@[i], 0));
        }
        assert forall|i: int| 0 <= i < self.ask_limit@.len() implies self.ask_limit@[i]
            is LimitAsc by {
            assert(self.ask_limit@.contains(self.ask_limit@[i]));
            assert(key_backed(self.orders@, self.ask_limit@[i], 1));
        }
    }

    /// The best resolvable price of one side: the highest resting bid
    /// limit, or the lowest resting ask limit; none when that book is
    /// empty.
    pub fn best_price(&self, side: Side) -> (r: Option<usize>)
        requires
            self.wf(),
        ensures
            match r {
                None => self.side_limit_book(side)@.len() == 0,
                Some(p) => {
                    &&& self.side_limit_book(side)@.len() > 0
                    &&& exists|i: int|
                        0 <= i < self.side_limit_book(side)@.len() && key_price(
                            self.side_limit_book(side)@[i],
                        ) == p
                    &&& forall|i: int|
                        0 <= i < self.side_limit_book(side)@.len() ==> (side is Bid ==> key_price(
                            self.side_limit_book(side)@[i],
                        ) <= p) && (side is Ask ==> key_price(self.side_limit_book(side)@[i]) >= p)
                },
            },
    {
        proof {
            self.lemma_limit_books_uniform();
        }
        let r = match side {
            Side::Bid => self.bid_limit.max_price(),
            Side::Ask => self.ask_limit.min_price(),
        };
        proof {
            if r is None && self.side_limit_book(side)@.len() > 0 {
                let b = self.side_limit_book(side);
                assert(b@.contains(b@[0]));
                assert(key_is_limit(b@[0]));
            }
        }
        r
    }

    /// The total limit quantity resting at one price level on one side.
    fn level_qty(&self, side: Side, p: usize) -> (r: u128)
        ensures
            r as int == sum_qty_if(self.orders@, at_level(side, p)),
    {
        let ghost f = at_level(side, p);
        let mut acc: u128 = 0;
        let mut i: usize = 0;
        proof {
            assert(self.orders@.take(0) =~= Seq::<Order>::empty());
        }
        while i < self.orders.len()
            invariant
                i <= self.orders@.len(),
                acc as int == sum_qty_if(self.orders@.take(i as int), f),
                acc as int <= i * 0xffff_ffff_ffff_ffff,
                f == at_level(side, p),
            decreases self.orders@.len() - i,
        {
            let o = self.orders[i];
            proof {
                lemma_sum_qty_if_take(self.orders@, f, i as int);
                assert((i + 1) * 0xffff_ffff_ffff_ffff == i * 0xffff_ffff_ffff_ffff
                    + 0xffff_ffff_ffff_ffff) by (nonlinear_arith);
                assert(i * 0xffff_ffff_ffff_ffff <= 0xffff_ffff_ffff_ffff
                    * 0xffff_ffff_ffff_ffff) by (nonlinear_arith)
                    requires
                        0 <= i <= 0xffff_ffff_ffff_ffff,
                ;
            }
            let take = o.side == side && (match o.order_type {
                OrderType::Limit => true,
                OrderType::Market => false,
            }) && o.price == p;
            if take {
                acc = acc + (o.qty as u128);
            }
            i = i + 1;
        }
        proof {
            assert(self.orders@.take(self.orders@.len() as int) =~= self.orders@);
        }
        acc
    }

    /// The top of one side's limit book for market-data publication: the
    /// best price and the total resting quantity quoted at it.  The
    /// quantity is reported in 128 bits so that a full price level can
    /// never overflow it.
    pub fn quote(&self, side: Side) -> (r: Option<(usize, u128)>)
        requires
            self.wf(),
        ensures
            match r {
                None => self.side_limit_book(side)@.len() == 0,
                Some((p, q)) => {
                    &&& self.side_limit_book(side)@.len() > 0
                    &&& exists|i: int|
                        0 <= i < self.side_limit_book(side)@.len() && key_price(
                            self.side_limit_book(side)@[i],
                        ) == p
                    &&& forall|i: int|
                        0 <= i < self.side_limit_book(side)@.len() ==> (side is Bid ==> key_price(
                            self.side_limit_book(side)@[i],
                        ) <= p) && (side is Ask ==> key_price(self.side_limit_book(side)@[i]) >= p)
                    &&& q as int == sum_qty_if(self.orders@, at_level(side, p))
                },
            },
    {
        let p = match self.best_price(side) {
            Some(p) => p,
            None => {
                return None;
            },
        };
        let q = self.level_qty(side, p);
        Some((p, q))
    }
}

/// Invariant preservation: in a well-formed order book — as every
/// operation leaves it — the registry and the books correspond one to
/// one.  Every registry entry has positive remaining quantity and rests
/// under its priority key in exactly the book of its partition and
/// nowhere else; every book entry resolves to a live registry order; and
/// no book holds a key twice.
pub proof fn lemma_registry_book_correspondence(ob: OrderBook)
    requires
        ob.wf(),
    ensures
        forall|i: int|
            0 <= i < ob.orders@.len() ==> {
                let o = #[trigger] ob.orders@[i];
                &&& o.qty > 0
                &&& 0 <= spec_index(o) < 4
                &&& ob.book_at(spec_index(o))@.contains(spec_key_of(o))
                &&& forall|bi: int, k: Key|
                    0 <= bi < 4 && #[trigger] ob.book_at(bi)@.contains(k) && key_no(k)
                        == o.order_no ==> bi == spec_index(o) && k == spec_key_of(o)
            },
        forall|bi: int, k: Key|
            0 <= bi < 4 && #[trigger] ob.book_at(bi)@.contains(k) ==> reg_has(ob.orders@, key_no(k))
                && ob.orders@.contains(reg_get(ob.orders@, key_no(k))) && spec_key_of(
                reg_get(ob.orders@, key_no(k)),
            ) == k && reg_get(ob.orders@, key_no(k)).qty > 0,
        forall|bi: int, i: int, j: int|
            0 <= bi < 4 && 0 <= i < j < ob.book_at(bi)@.len() ==> ob.book_at(bi)@[i] != ob.book_at(
                bi,
            )@[j],
{
    assert(ob.book_at(0) == ob.bid_limit && ob.book_at(1) == ob.ask_limit && ob.book_at(2)
        == ob.bid_market && ob.book_at(3) == ob.ask_market);
    assert forall|i: int| 0 <= i < ob.orders@.len() implies {
        let o = #[trigger] ob.orders@[i];
        &&& o.qty > 0
        &&& 0 <= spec_index(o) < 4
        &&& ob.book_at(spec_index(o))@.contains(spec_key_of(o))
        &&& forall|bi: int, k: Key|
            0 <= bi < 4 && #[trigger] ob.book_at(bi)@.contains(k) && key_no(k) == o.order_no ==> bi
                == spec_index(o) && k == spec_key_of(o)
    } by {
        let o = ob.orders@[i];
        lemma_reg_get(ob.orders@, o.order_no, i);
        assert forall|bi: int, k: Key|
            0 <= bi < 4 && #[trigger] ob.book_at(bi)@.contains(k) && key_no(k)
                == o.order_no implies bi == spec_index(o) && k == spec_key_of(o) by {
            assert(key_backed(ob.orders@, k, bi));
            assert(reg_get(ob.orders@, key_no(k)) == o);
        }
    }
    assert forall|bi: int, k: Key| 0 <= bi < 4 && #[trigger] ob.book_at(bi)@.contains(k) implies
        reg_has(ob.orders@, key_no(k)) && ob.orders@.contains(reg_get(ob.orders@, key_no(k)))
        && spec_key_of(reg_get(ob.orders@, key_no(k))) == k && reg_get(
        ob.orders@,
        key_no(k),
    ).qty > 0 by {
        assert(key_backed(ob.orders@, k, bi));
        let j = reg_idx(ob.orders@, key_no(k));
        assert(ob.orders@[j] == reg_get(ob.orders@, key_no(k)));
    }
    assert forall|bi: int, i: int, j: int|
        0 <= bi < 4 && 0 <= i < j < ob.book_at(bi)@.len() implies ob.book_at(bi)@[i]
        != ob.book_at(bi)@[j] by {
        assert(crate::key::key_lt(ob.book_at(bi)@[i], ob.book_at(bi)@[j]));
        crate::key::lemma_key_lt_strict_total_order(
            ob.book_at(bi)@[i],
            ob.book_at(bi)@[j],
            ob.book_at(bi)@[j],
        );
    }
}

/// The index of the limit book facing an incoming order.
pub open spec fn opp_limit_index(s: Side) -> int {
    match s {
        Side::Bid => 1int,
        Side::Ask => 0int,
    }
}

/// The index of the market book facing an incoming order.
pub open spec fn opp_market_index(s: Side) -> int {
    match s {
        Side::Bid => 3int,
        Side::Ask => 2int,
    }
}

} // verus!
