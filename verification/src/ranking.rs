//! Sorting numbers.
//!
//! Numbers are ordered by value, with the undefined value before every
//! defined one.

use vstd::prelude::*;
use vstd::relations::{sorted_by, total_ordering};
use vstd::seq_lib::{lemma_multiset_commutative, lemma_sorted_unique, to_multiset_build};
use crate::fixed::{undefined, Fixed};
use crate::series::{all_defined, copied_range};

verus! {

/// Whether `a` may stand before `b` in ascending order.
pub open spec fn precedes(a: Fixed, b: Fixed) -> bool {
    !a.defined() || (b.defined() && a.val() <= b.val())
}

/// The order of numbers as a relation.
pub open spec fn ordering() -> spec_fn(Fixed, Fixed) -> bool {
    |a: Fixed, b: Fixed| precedes(a, b)
}

/// The elements of `s` in ascending order.
pub open spec fn ascending(s: Seq<Fixed>) -> Seq<Fixed> {
    s.sort_by(ordering())
}

/// The element at place `k` of the ascending order; undefined when an
/// element is.
pub open spec fn order_statistic(s: Seq<Fixed>, k: int) -> Fixed {
    if all_defined(s) {
        ascending(s)[k]
    } else {
        undefined()
    }
}

/// The order of numbers is total.
pub proof fn lemma_ordering_total()
    ensures
        total_ordering(ordering()),
{
    let r = ordering();
    assert forall|a: Fixed, b: Fixed| #[trigger] r(a, b) && r(b, a) implies a == b by {
        if a.defined() {
            assert(a.nanos.unwrap() == b.nanos.unwrap());
        }
    }
}

/// What ascending order means: the same elements, each before those that
/// it precedes.
pub proof fn lemma_ascending(s: Seq<Fixed>)
    ensures
        ascending(s).len() == s.len(),
        ascending(s).to_multiset() == s.to_multiset(),
        forall|i: int, j: int|
            0 <= i < j < s.len() ==> precedes(#[trigger] ascending(s)[i], #[trigger] ascending(s)[j]),
{
    lemma_ordering_total();
    s.lemma_sort_by_ensures(ordering());
    broadcast use vstd::seq_lib::group_to_multiset_ensures;
    assert(ascending(s).to_multiset().len() == s.to_multiset().len());
    assert forall|i: int, j: int| 0 <= i < j < s.len() implies precedes(
        #[trigger] ascending(s)[i],
        #[trigger] ascending(s)[j],
    ) by {
        assert(ordering()(ascending(s)[i], ascending(s)[j]));
    }
}

/// Whether `a` may stand before `b` in ascending order.
pub(crate) fn may_precede(a: Fixed, b: Fixed) -> (r: bool)
    ensures
        r == precedes(a, b),
{
    match (a.nanos, b.nanos) {
        (None, _) => true,
        (Some(_), None) => false,
        (Some(x), Some(y)) => x <= y,
    }
}

/// The elements of two sorted vectors in one sorted vector.
fn merged(a: &Vec<Fixed>, b: &Vec<Fixed>) -> (r: Vec<Fixed>)
    requires
        sorted_by(a@, ordering()),
        sorted_by(b@, ordering()),
    ensures
        sorted_by(r@, ordering()),
        r@.to_multiset() == a@.to_multiset().add(b@.to_multiset()),
{
    broadcast use vstd::multiset::group_multiset_axioms;
    broadcast use vstd::seq_lib::group_to_multiset_ensures;

    let mut r: Vec<Fixed> = Vec::new();
    let mut i: usize = 0;
    let mut j: usize = 0;
    proof {
        let none = Seq::<Fixed>::empty();
        assert(a@.take(0) =~= none);
        assert(b@.take(0) =~= none);
        assert(r@ =~= none);
        assert forall|x: Fixed| none.to_multiset().count(x) == 0 by {
            assert(!none.contains(x));
        }
        assert(none.to_multiset() =~= none.to_multiset().add(none.to_multiset()));
    }
    while i < a.len() || j < b.len()
        invariant
            i <= a.len(),
            j <= b.len(),
            sorted_by(a@, ordering()),
            sorted_by(b@, ordering()),
            sorted_by(r@, ordering()),
            r@.to_multiset() == a@.take(i as int).to_multiset().add(
                b@.take(j as int).to_multiset(),
            ),
            forall|k: int| 0 <= k < r@.len() && i < a@.len() ==> precedes(r@[k], a@[i as int]),
            forall|k: int| 0 <= k < r@.len() && j < b@.len() ==> precedes(r@[k], b@[j as int]),
        decreases a.len() - i + b.len() - j,
    {
        let from_a: bool = if i == a.len() {
            false
        } else if j == b.len() {
            true
        } else {
            may_precede(a[i], b[j])
        };
        let ghost before = r@;
        if from_a {
            let x = a[i];
            proof {
                assert(a@.take(i + 1) =~= a@.take(i as int).push(x));
                to_multiset_build(a@.take(i as int), x);
                to_multiset_build(before, x);
                assert(before.push(x).to_multiset() =~= a@.take(i + 1).to_multiset().add(
                    b@.take(j as int).to_multiset(),
                ));
                assert forall|k: int, l: int| 0 <= k < l < before.len() + 1 implies #[trigger] ordering()(
                    before.push(x)[k],
                    before.push(x)[l],
                ) by {
                    if l < before.len() {
                        assert(ordering()(before[k], before[l]));
                    }
                }
                if i + 1 < a@.len() {
                    assert(ordering()(a@[i as int], a@[i + 1]));
                }
            }
            r.push(x);
            i = i + 1;
        } else {
            let x = b[j];
            proof {
                assert(b@.take(j + 1) =~= b@.take(j as int).push(x));
                to_multiset_build(b@.take(j as int), x);
                to_multiset_build(before, x);
                assert(before.push(x).to_multiset() =~= a@.take(i as int).to_multiset().add(
                    b@.take(j + 1).to_multiset(),
                ));
                assert forall|k: int, l: int| 0 <= k < l < before.len() + 1 implies #[trigger] ordering()(
                    before.push(x)[k],
                    before.push(x)[l],
                ) by {
                    if l < before.len() {
                        assert(ordering()(before[k], before[l]));
                    }
                }
                if j + 1 < b@.len() {
                    assert(ordering()(b@[j as int], b@[j + 1]));
                }
            }
            r.push(x);
            j = j + 1;
        }
    }
    proof {
        assert(a@.take(a@.len() as int) =~= a@);
        assert(b@.take(b@.len() as int) =~= b@);
    }
    r
}

/// A sorted copy of `values[lo..hi]`.
fn sorted_range(values: &Vec<Fixed>, lo: usize, hi: usize) -> (r: Vec<Fixed>)
    requires
        lo <= hi <= values.len(),
    ensures
        sorted_by(r@, ordering()),
        r@.to_multiset() == values@.subrange(lo as int, hi as int).to_multiset(),
    decreases hi - lo,
{
    if hi - lo <= 1 {
        copied_range(values, lo, hi)
    } else {
        let mid: usize = lo + (hi - lo) / 2;
        let left = sorted_range(values, lo, mid);
        let right = sorted_range(values, mid, hi);
        proof {
            let whole = values@.subrange(lo as int, hi as int);
            let first = values@.subrange(lo as int, mid as int);
            let second = values@.subrange(mid as int, hi as int);
            assert(whole =~= first + second);
            lemma_multiset_commutative(first, second);
        }
        merged(&left, &right)
    }
}

/// A sorted copy of `values`.
pub fn sorted(values: &Vec<Fixed>) -> (r: Vec<Fixed>)
    ensures
        r@ == ascending(values@),
{
    let r = sorted_range(values, 0, values.len());
    proof {
        assert(values@.subrange(0, values@.len() as int) =~= values@);
        lemma_ordering_total();
        values@.lemma_sort_by_ensures(ordering());
        lemma_sorted_unique(r@, ascending(values@), ordering());
    }
    r
}

} // verus!
