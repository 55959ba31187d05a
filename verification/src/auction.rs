//! The call auction engine: batch equilibrium-price discovery over all
//! resting interest.
//!
//! The cumulative bid curve at a price counts every bid quoted at or above
//! it plus all market-bid quantity; the cumulative ask curve counts every
//! ask quoted at or below it plus all market-ask quantity.  The executable
//! volume at a price is the smaller of the two, and the equilibrium price
//! maximizes it over the span of all resting limit prices.  Among several
//! maximizing prices the highest is chosen (the tie-break this engine
//! commits to).

use vstd::prelude::*;
use crate::key::{key_price, key_lt};
use crate::order::{Order, OrderType, Side};
use crate::order_book::OrderBook;
use crate::registry::{lemma_sum_qty_if_take, sum_qty_if};

verus! {

/// The bids satisfiable at a clearing price `p`: every bid quoted at or
/// above `p`, and every market bid.
pub open spec fn bid_at_or_above(p: usize) -> spec_fn(Order) -> bool {
    |o: Order| o.side is Bid && (o.order_type is Market || o.price >= p)
}

/// The asks satisfiable at a clearing price `p`: every ask quoted at or
/// below `p`, and every market ask.
pub open spec fn ask_at_or_below(p: usize) -> spec_fn(Order) -> bool {
    |o: Order| o.side is Ask && (o.order_type is Market || o.price <= p)
}

/// Total bid quantity satisfiable at price `p`.
pub open spec fn bid_vol(s: Seq<Order>, p: usize) -> int {
    sum_qty_if(s, bid_at_or_above(p))
}

/// Total ask quantity satisfiable at price `p`.
pub open spec fn ask_vol(s: Seq<Order>, p: usize) -> int {
    sum_qty_if(s, ask_at_or_below(p))
}

/// Executable volume at price `p`: both sides must be satisfied, so the
/// smaller curve bounds what can trade.
pub open spec fn clearing_vol(s: Seq<Order>, p: usize) -> int {
    if bid_vol(s, p) <= ask_vol(s, p) {
        bid_vol(s, p)
    } else {
        ask_vol(s, p)
    }
}

impl OrderBook {
    /// The lowest price any resting limit order quotes (meaningful when
    /// both limit books are nonempty).  Bid books sort by descending
    /// price, ask books by ascending price.
    pub open spec fn auction_lo(self) -> usize {
        let bid_min = key_price(self.bid_limit@[self.bid_limit@.len() - 1]);
        let ask_min = key_price(self.ask_limit@[0]);
        if bid_min <= ask_min {
            bid_min
        } else {
            ask_min
        }
    }

    /// The highest price any resting limit order quotes.
    pub open spec fn auction_hi(self) -> usize {
        let bid_max = key_price(self.bid_limit@[0]);
        let ask_max = key_price(self.ask_limit@[self.ask_limit@.len() - 1]);
        if bid_max >= ask_max {
            bid_max
        } else {
            ask_max
        }
    }

    /// The two cumulative curves at one price, in one registry scan.
    fn vols(&self, p: usize) -> (r: (u128, u128))
        ensures
            r.0 as int == bid_vol(self.orders@, p),
            r.1 as int == ask_vol(self.orders@, p),
    {
        let ghost fb = bid_at_or_above(p);
        let ghost fa = ask_at_or_below(p);
        let mut bacc: u128 = 0;
        let mut aacc: u128 = 0;
        let mut i: usize = 0;
        proof {
            assert(self.orders@.take(0) =~= Seq::<Order>::empty());
        }
        while i < self.orders.len()
            invariant
                i <= self.orders@.len(),
                bacc as int == sum_qty_if(self.orders@.take(i as int), fb),
                aacc as int == sum_qty_if(self.orders@.take(i as int), fa),
                bacc as int <= i * 0xffff_ffff_ffff_ffff,
                aacc as int <= i * 0xffff_ffff_ffff_ffff,
                fb == bid_at_or_above(p),
                fa == ask_at_or_below(p),
            decreases self.orders@.len() - i,
        {
            let o = self.orders[i];
            proof {
                lemma_sum_qty_if_take(self.orders@, fb, i as int);
                lemma_sum_qty_if_take(self.orders@, fa, i as int);
                assert((i + 1) * 0xffff_ffff_ffff_ffff == i * 0xffff_ffff_ffff_ffff
                    + 0xffff_ffff_ffff_ffff) by (nonlinear_arith);
                assert(i * 0xffff_ffff_ffff_ffff <= 0xffff_ffff_ffff_ffff
                    * 0xffff_ffff_ffff_ffff) by (nonlinear_arith)
                    requires
                        0 <= i <= 0xffff_ffff_ffff_ffff,
                ;
            }
            let is_market = match o.order_type {
                OrderType::Market => true,
                OrderType::Limit => false,
            };
            match o.side {
                Side::Bid => if is_market || o.price >= p {
                    bacc = bacc + (o.qty as u128);
                },
                Side::Ask => if is_market || o.price <= p {
                    aacc = aacc + (o.qty as u128);
                },
            }
            i = i + 1;
        }
        proof {
            assert(self.orders@.take(self.orders@.len() as int) =~= self.orders@);
        }
        (bacc, aacc)
    }

    /// Runs the call auction: finds the price that maximizes executable
    /// volume over the span of all resting limit prices.  A book with no
    /// limit orders on one side cannot uncross and yields no price.
    /// Among equally heavy prices the highest wins.
    pub fn call_auction(&self) -> (r: Option<usize>)
        requires
            self.wf(),
        ensures
            match r {
                None => self.bid_limit@.len() == 0 || self.ask_limit@.len() == 0,
                Some(p) => {
                    &&& self.bid_limit@.len() > 0 && self.ask_limit@.len() > 0
                    &&& self.auction_lo() <= p <= self.auction_hi()
                    &&& forall|q: usize|
                        self.auction_lo() <= q <= self.auction_hi() ==> clearing_vol(
                            self.orders@,
                            q,
                        ) <= clearing_vol(self.orders@, p)
                    &&& forall|q: usize|
                        p < q <= self.auction_hi() ==> clearing_vol(self.orders@, q) < clearing_vol(
                            self.orders@,
                            p,
                        )
                },
            },
    {
        proof {
            self.lemma_limit_books_uniform();
        }
        let max_bid = match self.bid_limit.max_price() {
            Some(p) => p,
            None => {
                proof {
                    if self.bid_limit@.len() > 0 {
                        assert(self.bid_limit@.contains(self.bid_limit@[0]));
                    }
                }
                return None;
            },
        };
        let min_bid = match self.bid_limit.min_price() {
            Some(p) => p,
            None => {
                return None;
            },
        };
        let max_ask = match self.ask_limit.max_price() {
            Some(p) => p,
            None => {
                proof {
                    if self.ask_limit@.len() > 0 {
                        assert(self.ask_limit@.contains(self.ask_limit@[0]));
                    }
                }
                return None;
            },
        };
        let min_ask = match self.ask_limit.min_price() {
            Some(p) => p,
            None => {
                return None;
            },
        };
        proof {
            // In a descending bid book the extremes sit at the ends, and
            // likewise in an ascending ask book.
            let bl = self.bid_limit@;
            let al = self.ask_limit@;
            assert forall|i: int| 0 < i < bl.len() implies key_price(#[trigger] bl[i])
                <= key_price(bl[0]) && key_price(bl[bl.len() - 1]) <= key_price(bl[i]) by {
                assert(key_lt(bl[0], bl[i]));
                if i < bl.len() - 1 {
                    assert(key_lt(bl[i], bl[bl.len() - 1]));
                }
            }
            assert forall|i: int| 0 < i < al.len() implies key_price(#[trigger] al[i])
                >= key_price(al[0]) && key_price(al[al.len() - 1]) >= key_price(al[i]) by {
                assert(key_lt(al[0], al[i]));
                if i < al.len() - 1 {
                    assert(key_lt(al[i], al[al.len() - 1]));
                }
            }
            assert(max_bid == key_price(bl[0]));
            assert(min_bid == key_price(bl[bl.len() - 1]));
            assert(min_ask == key_price(al[0]));
            assert(max_ask == key_price(al[al.len() - 1]));
        }
        let lo = if min_bid <= min_ask {
            min_bid
        } else {
            min_ask
        };
        let hi = if max_bid >= max_ask {
            max_bid
        } else {
            max_ask
        };
        proof {
            assert(lo == self.auction_lo());
            assert(hi == self.auction_hi());
            assert(lo <= hi);
        }
        let (b0, a0) = self.vols(lo);
        let mut best_p = lo;
        let mut best_v: u128 = if b0 <= a0 {
            b0
        } else {
            a0
        };
        let mut p = lo;
        while p < hi
            invariant
                lo <= best_p <= p <= hi,
                best_v as int == clearing_vol(self.orders@, best_p),
                forall|q: usize|
                    lo <= q <= p ==> clearing_vol(self.orders@, q) <= best_v as int,
                forall|q: usize|
                    best_p < q <= p ==> clearing_vol(self.orders@, q) < best_v as int,
            decreases hi - p,
        {
            p = p + 1;
            let (b, a) = self.vols(p);
            let v: u128 = if b <= a {
                b
            } else {
                a
            };
            if v >= best_v {
                best_p = p;
                best_v = v;
            }
        }
        Some(best_p)
    }
}

} // verus!
