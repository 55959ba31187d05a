//! The order registry: the single owner of the authoritative mutable
//! order state, viewed as a sequence of live orders with pairwise
//! distinct order numbers.
//!
//! The spec functions here give the registry its map-like reading
//! (`reg_has`, `reg_get`) and its total resting quantity (`sum_qty`),
//! which the crossing engine's conservation contract is stated over.

use vstd::prelude::*;
use crate::order::Order;

verus! {

/// Some entry carries this order number.
pub open spec fn reg_has(s: Seq<Order>, no: usize) -> bool {
    exists|i: int| 0 <= i < s.len() && s[i].order_no == no
}

/// The index of the entry carrying this order number (meaningful under
/// `reg_has` and `reg_uniq`).
pub open spec fn reg_idx(s: Seq<Order>, no: usize) -> int {
    choose|i: int| 0 <= i < s.len() && s[i].order_no == no
}

/// The entry carrying this order number.
pub open spec fn reg_get(s: Seq<Order>, no: usize) -> Order {
    s[reg_idx(s, no)]
}

/// Order numbers are pairwise distinct: every resting order is
/// represented exactly once.
pub open spec fn reg_uniq(s: Seq<Order>) -> bool {
    forall|i: int, j: int| 0 <= i < j < s.len() ==> s[i].order_no != s[j].order_no
}

/// Under uniqueness, an entry's index and value are pinned by its order
/// number.
pub proof fn lemma_reg_get(s: Seq<Order>, no: usize, i: int)
    requires
        reg_uniq(s),
        0 <= i < s.len(),
        s[i].order_no == no,
    ensures
        reg_has(s, no),
        reg_idx(s, no) == i,
        reg_get(s, no) == s[i],
{
    assert(reg_has(s, no));
    let j = reg_idx(s, no);
    if i < j {
        assert(s[i].order_no != s[j].order_no);
    } else if j < i {
        assert(s[j].order_no != s[i].order_no);
    }
}

/// Total remaining quantity across all registry entries.
pub open spec fn sum_qty(s: Seq<Order>) -> int
    decreases s.len(),
{
    if s.len() == 0 {
        0
    } else {
        s[0].qty + sum_qty(s.drop_first())
    }
}

/// Appending an order adds exactly its quantity to the total.
pub proof fn lemma_sum_qty_push(s: Seq<Order>, o: Order)
    ensures
        sum_qty(s.push(o)) == sum_qty(s) + o.qty,
    decreases s.len(),
{
    assert(sum_qty(s.push(o)) == s.push(o)[0].qty + sum_qty(s.push(o).drop_first()));
    if s.len() == 0 {
        assert(s.push(o)[0] == o);
        assert(s.push(o).drop_first() =~= Seq::<Order>::empty());
    } else {
        assert(s.push(o)[0] == s[0]);
        assert(s.push(o).drop_first() =~= s.drop_first().push(o));
        lemma_sum_qty_push(s.drop_first(), o);
    }
}

/// Removing an entry subtracts exactly its quantity from the total.
pub proof fn lemma_sum_qty_remove(s: Seq<Order>, i: int)
    requires
        0 <= i < s.len(),
    ensures
        sum_qty(s.remove(i)) == sum_qty(s) - s[i].qty,
    decreases s.len(),
{
    if i == 0 {
        assert(s.remove(0) =~= s.drop_first());
    } else {
        assert(s.remove(i).drop_first() =~= s.drop_first().remove(i - 1));
        lemma_sum_qty_remove(s.drop_first(), i - 1);
    }
}

/// Total remaining quantity over the entries a predicate selects.
pub open spec fn sum_qty_if(s: Seq<Order>, f: spec_fn(Order) -> bool) -> int
    decreases s.len(),
{
    if s.len() == 0 {
        0
    } else {
        (if f(s[0]) {
            s[0].qty as int
        } else {
            0
        }) + sum_qty_if(s.drop_first(), f)
    }
}

/// Extending a prefix by one entry adds that entry's contribution.
pub proof fn lemma_sum_qty_if_take(s: Seq<Order>, f: spec_fn(Order) -> bool, n: int)
    requires
        0 <= n < s.len(),
    ensures
        sum_qty_if(s.take(n + 1), f) == sum_qty_if(s.take(n), f) + (if f(s[n]) {
            s[n].qty as int
        } else {
            0
        }),
    decreases n,
{
    if n == 0 {
        assert(s.take(0) =~= Seq::<Order>::empty());
        assert(s.take(1).drop_first() =~= Seq::<Order>::empty());
        assert(s.take(1)[0] == s[0]);
    } else {
        assert(s.take(n + 1).drop_first() =~= s.drop_first().take(n));
        assert(s.take(n).drop_first() =~= s.drop_first().take(n - 1));
        assert(s.take(n + 1)[0] == s[0] && s.take(n)[0] == s[0]);
        lemma_sum_qty_if_take(s.drop_first(), f, n - 1);
        assert(s.drop_first()[n - 1] == s[n]);
    }
}

/// Finds the entry carrying the given order number.
pub fn find_order(v: &Vec<Order>, no: usize) -> (r: Option<usize>)
    ensures
        match r {
            Some(i) => i < v@.len() && v@[i as int].order_no == no,
            None => !reg_has(v@, no),
        },
{
    let mut i: usize = 0;
    while i < v.len()
        invariant
            i <= v@.len(),
            forall|j: int| 0 <= j < i ==> v@[j].order_no != no,
        decreases v@.len() - i,
    {
        if v[i].order_no == no {
            return Some(i);
        }
        i = i + 1;
    }
    None
}

/// Removes the entry at `i`, restating the removal in the registry's
/// map-like terms.
pub fn remove_order(v: &mut Vec<Order>, i: usize) -> (o: Order)
    requires
        reg_uniq(old(v)@),
        i < old(v)@.len(),
    ensures
        o == old(v)@[i as int],
        final(v)@ == old(v)@.remove(i as int),
        reg_uniq(final(v)@),
        sum_qty(final(v)@) == sum_qty(old(v)@) - o.qty,
        forall|no: usize|
            reg_has(final(v)@, no) <==> (reg_has(old(v)@, no) && no != o.order_no),
        forall|no: usize|
            reg_has(final(v)@, no) ==> reg_get(final(v)@, no) == reg_get(old(v)@, no),
{
    let o = v.remove(i);
    proof {
        let pre = old(v)@;
        pre.remove_ensures(i as int);
        lemma_sum_qty_remove(pre, i as int);
        assert forall|a: int, b: int| 0 <= a < b < v@.len() implies v@[a].order_no
            != v@[b].order_no by {
            let pa: int = if a < i { a } else { a + 1 };
            let pb: int = if b < i { b } else { b + 1 };
            assert(v@[a] == pre[pa] && v@[b] == pre[pb]);
        }
        assert forall|no: usize| reg_has(v@, no) implies (reg_has(pre, no) && no
            != o.order_no && reg_get(v@, no) == reg_get(pre, no)) by {
            let j = choose|j: int| 0 <= j < v@.len() && v@[j].order_no == no;
            let pj: int = if j < i { j } else { j + 1 };
            assert(v@[j] == pre[pj]);
            lemma_reg_get(pre, no, pj);
            lemma_reg_get(v@, no, j);
            if pj < i {
                assert(pre[pj].order_no != pre[i as int].order_no);
            } else {
                assert(pre[i as int].order_no != pre[pj].order_no);
            }
        }
        assert forall|no: usize| reg_has(pre, no) && no != o.order_no implies reg_has(
            v@,
            no,
        ) by {
            let pj = choose|pj: int| 0 <= pj < pre.len() && pre[pj].order_no == no;
            if pj < i {
                assert(v@[pj] == pre[pj]);
            } else {
                assert(pj != i);
                assert(v@[pj - 1] == pre[pj]);
            }
        }
    }
    o
}

/// Appends an order with a fresh order number, restating the append in
/// the registry's map-like terms.
pub fn push_order(v: &mut Vec<Order>, o: Order)
    requires
        reg_uniq(old(v)@),
        !reg_has(old(v)@, o.order_no),
    ensures
        final(v)@ == old(v)@.push(o),
        reg_uniq(final(v)@),
        sum_qty(final(v)@) == sum_qty(old(v)@) + o.qty,
        forall|no: usize| reg_has(final(v)@, no) <==> (reg_has(old(v)@, no) || no == o.order_no),
        reg_get(final(v)@, o.order_no) == o,
        forall|no: usize|
            reg_has(old(v)@, no) ==> reg_get(final(v)@, no) == reg_get(old(v)@, no),
{
    v.push(o);
    proof {
        let pre = old(v)@;
        lemma_sum_qty_push(pre, o);
        let last = pre.len() as int;
        assert forall|a: int, b: int| 0 <= a < b < v@.len() implies v@[a].order_no
            != v@[b].order_no by {
            if b < last {
                assert(v@[a] == pre[a] && v@[b] == pre[b]);
            } else {
                assert(v@[b] == o);
                assert(v@[a] == pre[a]);
                assert(!(pre[a].order_no == o.order_no));
            }
        }
        lemma_reg_get(v@, o.order_no, last);
        assert forall|no: usize| reg_has(v@, no) implies (reg_has(pre, no) || no
            == o.order_no) by {
            let j = choose|j: int| 0 <= j < v@.len() && v@[j].order_no == no;
            if j < last {
                assert(pre[j].order_no == no);
            }
        }
        assert forall|no: usize| reg_has(pre, no) implies reg_has(v@, no) && reg_get(v@, no)
            == reg_get(pre, no) by {
            let j = choose|j: int| 0 <= j < pre.len() && pre[j].order_no == no;
            assert(v@[j] == pre[j]);
            lemma_reg_get(pre, no, j);
            lemma_reg_get(v@, no, j);
        }
    }
}

} // verus!
