//! Merging two sorted price lists into one: the two-cursor merge used to
//! combine per-book price vectors.

use vstd::prelude::*;

verus! {

broadcast use vstd::seq_lib::group_to_multiset_ensures;

/// Non-decreasing order (duplicates allowed, as several orders may quote
/// one price).
pub open spec fn sorted_nondec(s: Seq<usize>) -> bool {
    forall|i: int, j: int| 0 <= i <= j < s.len() ==> s[i] <= s[j]
}

/// Merges two price lists.  The result holds exactly the elements of both
/// inputs, and is sorted whenever both inputs are.
pub fn merge(a: Vec<usize>, b: Vec<usize>) -> (r: Vec<usize>)
    ensures
        r@.to_multiset() == a@.to_multiset().add(b@.to_multiset()),
        r@.len() == a@.len() + b@.len(),
        sorted_nondec(a@) && sorted_nondec(b@) ==> sorted_nondec(r@),
{
    let n1 = a.len();
    let n2 = b.len();
    let mut r: Vec<usize> = Vec::new();
    let mut i: usize = 0;
    let mut j: usize = 0;
    proof {
        assert(a@.take(0) =~= Seq::<usize>::empty());
        assert(b@.take(0) =~= Seq::<usize>::empty());
        assert(r@.to_multiset() =~= a@.take(0).to_multiset().add(b@.take(0).to_multiset()));
    }
    while i < n1 && j < n2
        invariant
            i <= n1 == a@.len(),
            j <= n2 == b@.len(),
            r@.len() == i + j,
            r@.to_multiset() == a@.take(i as int).to_multiset().add(
                b@.take(j as int).to_multiset(),
            ),
            sorted_nondec(a@) && sorted_nondec(b@) ==> {
                &&& sorted_nondec(r@)
                &&& forall|k: int|
                    0 <= k < r@.len() ==> (i < a@.len() ==> r@[k] <= a@[i as int]) && (j < b@.len()
                        ==> r@[k] <= b@[j as int])
            },
        decreases a@.len() + b@.len() - i - j,
    {
        let ghost pre = r@;
        if a[i] < b[j] {
            r.push(a[i]);
            proof {
                assert(a@.take(i + 1) =~= a@.take(i as int).push(a@[i as int]));
            }
            i = i + 1;
        } else {
            r.push(b[j]);
            proof {
                assert(b@.take(j + 1) =~= b@.take(j as int).push(b@[j as int]));
            }
            j = j + 1;
        }
        proof {
            if sorted_nondec(a@) && sorted_nondec(b@) {
                assert(forall|k: int| 0 <= k < pre.len() ==> r@[k] == pre[k]);
            }
        }
    }
    while i < n1
        invariant
            i <= n1 == a@.len(),
            j == b@.len() || i == a@.len(),
            j <= b@.len(),
            r@.len() == i + j,
            r@.to_multiset() == a@.take(i as int).to_multiset().add(
                b@.take(j as int).to_multiset(),
            ),
            sorted_nondec(a@) && sorted_nondec(b@) ==> {
                &&& sorted_nondec(r@)
                &&& forall|k: int|
                    0 <= k < r@.len() ==> (i < a@.len() ==> r@[k] <= a@[i as int]) && (j < b@.len()
                        ==> r@[k] <= b@[j as int])
            },
        decreases a@.len() - i,
    {
        let ghost pre = r@;
        r.push(a[i]);
        proof {
            assert(a@.take(i + 1) =~= a@.take(i as int).push(a@[i as int]));
            if sorted_nondec(a@) && sorted_nondec(b@) {
                assert(forall|k: int| 0 <= k < pre.len() ==> r@[k] == pre[k]);
            }
        }
        i = i + 1;
    }
    while j < n2
        invariant
            i == a@.len(),
            j <= n2 == b@.len(),
            r@.len() == i + j,
            r@.to_multiset() == a@.take(i as int).to_multiset().add(
                b@.take(j as int).to_multiset(),
            ),
            sorted_nondec(a@) && sorted_nondec(b@) ==> {
                &&& sorted_nondec(r@)
                &&& forall|k: int| 0 <= k < r@.len() ==> (j < b@.len() ==> r@[k] <= b@[j as int])
            },
        decreases b@.len() - j,
    {
        let ghost pre = r@;
        r.push(b[j]);
        proof {
            assert(b@.take(j + 1) =~= b@.take(j as int).push(b@[j as int]));
            if sorted_nondec(a@) && sorted_nondec(b@) {
                assert(forall|k: int| 0 <= k < pre.len() ==> r@[k] == pre[k]);
            }
        }
        j = j + 1;
    }
    proof {
        assert(a@.take(a@.len() as int) =~= a@);
        assert(b@.take(b@.len() as int) =~= b@);
    }
    r
}

} // verus!
