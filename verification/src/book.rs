//! A book: the ordered container of priority keys for one (side, order
//! type) partition of resting interest.
//!
//! Keys are held in a vector kept strictly sorted under [`key_lt`], so the
//! first element is always the best entry (best price first, then earliest
//! arrival) and iteration yields strict price-time priority.

use vstd::prelude::*;
use crate::key::{Key, key_lt, key_less, key_no, key_price, key_is_limit,
    lemma_key_lt_strict_total_order};

verus! {

/// An ordered set of priority keys.  The view is the key sequence, best
/// entry first.
pub struct Book {
    keys: Vec<Key>,
}

impl View for Book {
    type V = Seq<Key>;

    closed spec fn view(&self) -> Seq<Key> {
        self.keys@
    }
}

impl Book {
    /// Strict price-time order: every earlier key has strictly higher
    /// priority than every later one.  This is the book's invariant; it
    /// also rules out duplicate keys.
    pub open spec fn sorted(self) -> bool {
        forall|i: int, j: int|
            0 <= i < j < self@.len() ==> key_lt(self@[i], self@[j])
    }

    /// Every key is a market key.
    pub open spec fn all_market(self) -> bool {
        forall|i: int| 0 <= i < self@.len() ==> self@[i] is Market
    }

    /// Every key is an ascending-limit key (ask books).
    pub open spec fn all_asc(self) -> bool {
        forall|i: int| 0 <= i < self@.len() ==> self@[i] is LimitAsc
    }

    /// Every key is a descending-limit key (bid books).
    pub open spec fn all_desc(self) -> bool {
        forall|i: int| 0 <= i < self@.len() ==> self@[i] is LimitDesc
    }

    /// A book holds keys of a single variant: each of the four books of an
    /// order book stores exactly one (side, order type) partition.
    pub open spec fn uniform(self) -> bool {
        self.all_market() || self.all_asc() || self.all_desc()
    }

    /// An empty book.
    pub fn new() -> (r: Book)
        ensures
            r@ == Seq::<Key>::empty(),
            r.sorted(),
    {
        Book { keys: Vec::new() }
    }

    /// The number of resting entries.
    pub fn len(&self) -> (r: usize)
        ensures
            r == self@.len(),
    {
        self.keys.len()
    }

    /// The best entry as a `(price, order_no)` pair, without removal.
    /// Market keys resolve no price and report zero, as a market order's
    /// trade price comes from the opposite side.
    pub fn peek(&self) -> (r: Option<(usize, usize)>)
        ensures
            match r {
                None => self@.len() == 0,
                Some((p, no)) => self@.len() > 0 && p == key_price(self@[0]) && no == key_no(
                    self@[0],
                ),
            },
    {
        if self.keys.len() == 0 {
            None
        } else {
            match self.keys[0] {
                Key::Market(no) => Some((0, no)),
                Key::LimitAsc(p, no) => Some((p, no)),
                Key::LimitDesc(p, no) => Some((p, no)),
            }
        }
    }

    /// Removes and returns the best entry as a `(price, order_no)` pair.
    /// Every remaining key had strictly lower priority than the one
    /// removed.
    pub fn pop(&mut self) -> (r: Option<(usize, usize)>)
        requires
            old(self).sorted(),
        ensures
            final(self).sorted(),
            match r {
                None => old(self)@.len() == 0 && final(self)@ == old(self)@,
                Some((p, no)) => {
                    &&& old(self)@.len() > 0
                    &&& p == key_price(old(self)@[0])
                    &&& no == key_no(old(self)@[0])
                    &&& final(self)@ == old(self)@.remove(0)
                    &&& forall|x: Key|
                        final(self)@.contains(x) <==> (old(self)@.contains(x) && x != old(
                            self,
                        )@[0])
                    &&& forall|x: Key| final(self)@.contains(x) ==> key_lt(old(self)@[0], x)
                },
            },
    {
        if self.keys.len() == 0 {
            return None;
        }
        let first = self.keys.remove(0);
        proof {
            let pre = old(self)@;
            pre.remove_ensures(0);
            assert forall|x: Key| self@.contains(x) implies pre.contains(x) && x != pre[0]
                && key_lt(pre[0], x) by {
                let i = choose|i: int| 0 <= i < self@.len() && self@[i] == x;
                assert(pre[i + 1] == x);
                assert(key_lt(pre[0], pre[i + 1]));
            }
            assert forall|x: Key| pre.contains(x) && x != pre[0] implies self@.contains(x) by {
                let i = choose|i: int| 0 <= i < pre.len() && pre[i] == x;
                assert(self@[i - 1] == x);
            }
        }
        match first {
            Key::Market(no) => Some((0, no)),
            Key::LimitAsc(p, no) => Some((p, no)),
            Key::LimitDesc(p, no) => Some((p, no)),
        }
    }

    /// Index of the first key not strictly before `k` in priority order —
    /// the insertion point of `k`.
    fn lower_bound(&self, k: &Key) -> (r: usize)
        requires
            self.sorted(),
        ensures
            r <= self@.len(),
            forall|j: int| 0 <= j < r ==> key_lt(self@[j], *k),
            r < self@.len() ==> !key_lt(self@[r as int], *k),
    {
        let mut i: usize = 0;
        while i < self.keys.len() && key_less(&self.keys[i], k)
            invariant
                i <= self@.len(),
                forall|j: int| 0 <= j < i ==> key_lt(self@[j], *k),
            decreases self@.len() - i,
        {
            i = i + 1;
        }
        i
    }

    /// Inserts a key, keeping the book sorted.  Returns whether the key
    /// was new; inserting a key already present leaves the book unchanged,
    /// so a book never holds two entries for one key.
    pub fn insert(&mut self, k: Key) -> (r: bool)
        requires
            old(self).sorted(),
        ensures
            final(self).sorted(),
            forall|x: Key| final(self)@.contains(x) <==> (old(self)@.contains(x) || x == k),
            r == !old(self)@.contains(k),
            r ==> final(self)@.len() == old(self)@.len() + 1,
            !r ==> final(self)@ == old(self)@,
    {
        let i = self.lower_bound(&k);
        if i < self.keys.len() {
            let cur = self.keys[i];
            if !key_less(&k, &cur) {
                proof {
                    lemma_key_lt_strict_total_order(cur, k, k);
                    assert(self@[i as int] == k);
                    assert(self@.contains(k));
                }
                return false;
            }
        }
        proof {
            // k is nowhere in the book: before i everything is below k,
            // from i on everything is above k.
            assert forall|x: Key| old(self)@.contains(x) implies x != k by {
                let j = choose|j: int| 0 <= j < old(self)@.len() && old(self)@[j] == x;
                if j < i {
                    lemma_key_lt_strict_total_order(x, k, k);
                } else {
                    if j > i {
                        lemma_key_lt_strict_total_order(
                            old(self)@[i as int],
                            old(self)@[j],
                            k,
                        );
                    }
                    lemma_key_lt_strict_total_order(k, x, x);
                }
            }
        }
        let ghost pre = self@;
        self.keys.insert(i, k);
        proof {
            pre.insert_ensures(i as int, k);
            assert forall|a: int, b: int| 0 <= a < b < self@.len() implies key_lt(
                self@[a],
                self@[b],
            ) by {
                let ii = i as int;
                if a < ii && b == ii {
                } else if a == ii && b > ii {
                    // pre[i] is not below k and differs from k, so k is below it,
                    // and everything after is above pre[i].
                    lemma_key_lt_strict_total_order(k, pre[ii], pre[b - 1]);
                } else if a < ii && b > ii {
                    assert(self@[a] == pre[a] && self@[b] == pre[b - 1]);
                    lemma_key_lt_strict_total_order(pre[a], k, pre[b - 1]);
                } else {
                    assert(a != ii && b != ii);
                }
            }
            assert forall|x: Key| self@.contains(x) implies (pre.contains(x) || x == k) by {
                let j = choose|j: int| 0 <= j < self@.len() && self@[j] == x;
                if j < i {
                    assert(pre[j] == x);
                } else if j > i {
                    assert(pre[j - 1] == x);
                }
            }
            assert forall|x: Key| pre.contains(x) implies self@.contains(x) by {
                let j = choose|j: int| 0 <= j < pre.len() && pre[j] == x;
                if j < i {
                    assert(self@[j] == x);
                } else {
                    assert(self@[j + 1] == x);
                }
            }
            assert(self@.contains(k)) by {
                assert(self@[i as int] == k);
            }
        }
        true
    }

    /// Removes a key if present, keeping the book sorted.  Returns whether
    /// the key was found; removing an absent key is a harmless no-op.
    pub fn remove(&mut self, k: &Key) -> (r: bool)
        requires
            old(self).sorted(),
        ensures
            final(self).sorted(),
            forall|x: Key| final(self)@.contains(x) <==> (old(self)@.contains(x) && x != *k),
            r == old(self)@.contains(*k),
            r ==> final(self)@.len() == old(self)@.len() - 1,
            !r ==> final(self)@ == old(self)@,
    {
        let i = self.lower_bound(k);
        if i == self.keys.len() {
            proof {
                assert forall|x: Key| old(self)@.contains(x) implies x != *k by {
                    let j = choose|j: int| 0 <= j < old(self)@.len() && old(self)@[j] == x;
                    lemma_key_lt_strict_total_order(x, *k, *k);
                }
            }
            return false;
        }
        let cur = self.keys[i];
        if key_less(k, &cur) {
            proof {
                assert forall|x: Key| old(self)@.contains(x) implies x != *k by {
                    let j = choose|j: int| 0 <= j < old(self)@.len() && old(self)@[j] == x;
                    if j < i {
                        lemma_key_lt_strict_total_order(x, *k, *k);
                    } else if j > i {
                        lemma_key_lt_strict_total_order(*k, cur, x);
                        lemma_key_lt_strict_total_order(*k, x, x);
                    } else {
                        lemma_key_lt_strict_total_order(*k, x, x);
                    }
                }
            }
            return false;
        }
        proof {
            lemma_key_lt_strict_total_order(cur, *k, *k);
            assert(cur == *k);
        }
        let ghost pre = self@;
        self.keys.remove(i);
        proof {
            pre.remove_ensures(i as int);
            assert forall|a: int, b: int| 0 <= a < b < self@.len() implies key_lt(
                self@[a],
                self@[b],
            ) by {
                let ii = i as int;
                if b < ii {
                } else if a < ii {
                    lemma_key_lt_strict_total_order(pre[a], pre[ii], pre[b + 1]);
                    lemma_key_lt_strict_total_order(pre[a], pre[b + 1], pre[b + 1]);
                }
            }
            assert forall|x: Key| self@.contains(x) implies (pre.contains(x) && x != *k) by {
                let j = choose|j: int| 0 <= j < self@.len() && self@[j] == x;
                if j < i {
                    assert(pre[j] == x);
                    lemma_key_lt_strict_total_order(x, *k, *k);
                } else {
                    assert(pre[j + 1] == x);
                    lemma_key_lt_strict_total_order(*k, pre[j + 1], x);
                }
            }
            assert forall|x: Key| pre.contains(x) && x != *k implies self@.contains(x) by {
                let j = choose|j: int| 0 <= j < pre.len() && pre[j] == x;
                if j < i {
                    assert(self@[j] == x);
                } else {
                    assert(j != i);
                    assert(self@[j - 1] == x);
                }
            }
            assert(pre.contains(*k)) by {
                assert(pre[i as int] == *k);
            }
        }
        true
    }

    /// The limit prices resting in the book, best first.  Only meaningful
    /// for a limit book, so every key must carry a price.
    pub fn prices(&self) -> (r: Vec<usize>)
        requires
            forall|i: int| 0 <= i < self@.len() ==> key_is_limit(self@[i]),
        ensures
            r@.len() == self@.len(),
            forall|i: int| 0 <= i < r@.len() ==> r@[i] == key_price(self@[i]),
    {
        let mut r: Vec<usize> = Vec::new();
        let mut i: usize = 0;
        while i < self.keys.len()
            invariant
                i <= self@.len(),
                r@.len() == i,
                forall|j: int| 0 <= j < i ==> r@[j] == key_price(self@[j]),
                forall|j: int| 0 <= j < self@.len() ==> key_is_limit(self@[j]),
            decreases self@.len() - i,
        {
            let p = match self.keys[i] {
                Key::Market(_) => 0,
                Key::LimitAsc(p, _) => p,
                Key::LimitDesc(p, _) => p,
            };
            r.push(p);
            i = i + 1;
        }
        r
    }

    /// The highest limit price resting in the book; none for an empty or
    /// market-only book, whose entries resolve no price.
    pub fn max_price(&self) -> (r: Option<usize>)
        requires
            self.sorted(),
            self.uniform(),
        ensures
            match r {
                None => forall|i: int| 0 <= i < self@.len() ==> !key_is_limit(self@[i]),
                Some(p) => {
                    &&& exists|i: int|
                        0 <= i < self@.len() && key_is_limit(self@[i]) && key_price(self@[i]) == p
                    &&& forall|i: int|
                        0 <= i < self@.len() && key_is_limit(self@[i]) ==> key_price(self@[i]) <= p
                },
            },
    {
        if self.keys.len() == 0 {
            return None;
        }
        let last = self.keys.len() - 1;
        match (self.keys[0], self.keys[last]) {
            (Key::LimitAsc(_, _), Key::LimitAsc(p, _)) => {
                proof {
                    assert(key_price(self@[last as int]) == p);
                    assert forall|i: int|
                        0 <= i < self@.len() && key_is_limit(self@[i]) implies key_price(
                        self@[i],
                    ) <= p by {
                        if i < last {
                            assert(key_lt(self@[i], self@[last as int]));
                        }
                    }
                }
                Some(p)
            },
            (Key::LimitDesc(p, _), Key::LimitDesc(_, _)) => {
                proof {
                    assert(key_price(self@[0]) == p);
                    assert forall|i: int|
                        0 <= i < self@.len() && key_is_limit(self@[i]) implies key_price(
                        self@[i],
                    ) <= p by {
                        if i > 0 {
                            assert(key_lt(self@[0], self@[i]));
                        }
                    }
                }
                Some(p)
            },
            _ => {
                proof {
                    assert(self@[0] is Market);
                }
                None
            },
        }
    }

    /// The lowest limit price resting in the book; none for an empty or
    /// market-only book.
    pub fn min_price(&self) -> (r: Option<usize>)
        requires
            self.sorted(),
            self.uniform(),
        ensures
            match r {
                None => forall|i: int| 0 <= i < self@.len() ==> !key_is_limit(self@[i]),
                Some(p) => {
                    &&& exists|i: int|
                        0 <= i < self@.len() && key_is_limit(self@[i]) && key_price(self@[i]) == p
                    &&& forall|i: int|
                        0 <= i < self@.len() && key_is_limit(self@[i]) ==> key_price(self@[i]) >= p
                },
            },
    {
        if self.keys.len() == 0 {
            return None;
        }
        let last = self.keys.len() - 1;
        match (self.keys[0], self.keys[last]) {
            (Key::LimitAsc(p, _), Key::LimitAsc(_, _)) => {
                proof {
                    assert(key_price(self@[0]) == p);
                    assert forall|i: int|
                        0 <= i < self@.len() && key_is_limit(self@[i]) implies key_price(
                        self@[i],
                    ) >= p by {
                        if i > 0 {
                            assert(key_lt(self@[0], self@[i]));
                        }
                    }
                }
                Some(p)
            },
            (Key::LimitDesc(_, _), Key::LimitDesc(p, _)) => {
                proof {
                    assert(key_price(self@[last as int]) == p);
                    assert forall|i: int|
                        0 <= i < self@.len() && key_is_limit(self@[i]) implies key_price(
                        self@[i],
                    ) >= p by {
                        if i < last {
                            assert(key_lt(self@[i], self@[last as int]));
                        }
                    }
                }
                Some(p)
            },
            _ => {
                proof {
                    assert(self@[0] is Market);
                }
                None
            },
        }
    }
}

} // verus!
