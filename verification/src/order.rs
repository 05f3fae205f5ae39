//! Comparing distances.
//!
//! Distances are compared with `<`. The predicates here say what that means
//! for a type whose order obeys the laws that vstd states of `Ord`, and pick
//! out the first least element of a sequence.

use core::cmp::Ordering;
use vstd::prelude::*;
use vstd::std_specs::cmp::{OrdSpec, PartialEqSpec, PartialOrdSpec};

verus! {

/// The order of `T` is a total order that `<` and `==` agree with.
pub open spec fn totally_ordered<T: Ord>() -> bool {
    vstd::laws_cmp::obeys_cmp::<T>()
}

/// `a` is strictly less than `b`.
pub open spec fn shorter<T: PartialOrd>(a: T, b: T) -> bool {
    a.partial_cmp_spec(&b) == Some(Ordering::Less)
}

/// `a` is less than or equal to `b`.
pub open spec fn no_longer<T: PartialOrd>(a: T, b: T) -> bool {
    a.partial_cmp_spec(&b) matches Some(Ordering::Less | Ordering::Equal)
}

/// `totals[k]` is a least element of `totals`, and the first such.
pub open spec fn is_first_least<T: PartialOrd>(totals: Seq<T>, k: int) -> bool {
    &&& 0 <= k < totals.len()
    &&& forall|j: int| 0 <= j < totals.len() ==> no_longer(totals[k], #[trigger] totals[j])
    &&& forall|j: int| 0 <= j < k ==> shorter(totals[k], #[trigger] totals[j])
}

/// Where the first least element of `totals` stands.
pub open spec fn first_least<T: PartialOrd>(totals: Seq<T>) -> int {
    choose|k: int| is_first_least(totals, k)
}

/// In a total order, of two values one is strictly less or the other is no
/// longer, and never both.
pub proof fn lemma_shorter_or_no_longer<T: Ord>(a: T, b: T)
    requires
        totally_ordered::<T>(),
    ensures
        shorter(a, b) <==> !no_longer(b, a),
{
    reveal(vstd::laws_cmp::obeys_cmp_ord);
    reveal(vstd::laws_cmp::obeys_cmp_partial_ord);
    reveal(vstd::laws_cmp::obeys_partial_cmp_spec_properties);
    reveal(vstd::laws_eq::obeys_eq_spec_properties);
    let ab = a.partial_cmp_spec(&b);
    let ba = b.partial_cmp_spec(&a);
    assert(ab == Some(a.cmp_spec(&b)));
    assert(ba == Some(b.cmp_spec(&a)));
    assert(ab == Some(Ordering::Equal) <==> a.eq_spec(&b));
    assert(ba == Some(Ordering::Equal) <==> b.eq_spec(&a));
    assert(ab == Some(Ordering::Less) <==> ba == Some(Ordering::Greater));
    assert(ba == Some(Ordering::Less) <==> ab == Some(Ordering::Greater));
}

/// In a total order, what is strictly less than a lower bound is a lower bound.
pub proof fn lemma_shorter_then_no_longer<T: Ord>(a: T, b: T, c: T)
    requires
        totally_ordered::<T>(),
        shorter(a, b),
        no_longer(b, c),
    ensures
        shorter(a, c),
{
    lemma_shorter_or_no_longer(c, b);
    lemma_shorter_or_no_longer(a, c);
    lemma_shorter_or_no_longer(c, a);
    reveal(vstd::laws_cmp::obeys_partial_cmp_spec_properties);
    if !shorter(a, c) {
        // then `c` is no longer than `a`, so `c` is strictly less than `b`
        assert(no_longer(c, a));
        if shorter(c, a) {
            assert(shorter(c, b));
        } else {
            assert(c.partial_cmp_spec(&a) == Some(Ordering::Equal));
            lemma_equal_substitutes(c, a, b);
            assert(shorter(c, b));
        }
        assert(false);
    }
}

/// In a total order, a value equal to one that is strictly less is strictly
/// less too.
pub proof fn lemma_equal_substitutes<T: Ord>(a: T, b: T, c: T)
    requires
        totally_ordered::<T>(),
        a.partial_cmp_spec(&b) == Some(Ordering::Equal),
        shorter(b, c),
    ensures
        shorter(a, c),
{
    lemma_shorter_or_no_longer(a, c);
    lemma_shorter_or_no_longer(c, a);
    lemma_shorter_or_no_longer(a, b);
    lemma_shorter_or_no_longer(b, a);
    reveal(vstd::laws_cmp::obeys_partial_cmp_spec_properties);
    reveal(vstd::laws_eq::obeys_eq_spec_properties);
    if !shorter(a, c) {
        assert(no_longer(c, a));
        if shorter(c, a) {
            // b < c < a, yet a == b
            assert(shorter(b, a));
            assert(false);
        } else {
            // c == a == b, yet b < c
            assert(c.partial_cmp_spec(&a) == Some(Ordering::Equal));
            assert(c.eq_spec(&a));
            assert(a.eq_spec(&b));
            assert(c.eq_spec(&b));
            assert(c.partial_cmp_spec(&b) == Some(Ordering::Equal));
            lemma_shorter_or_no_longer(b, c);
            assert(false);
        }
    }
}

/// A sequence has at most one first least element.
pub proof fn lemma_first_least_unique<T: Ord>(totals: Seq<T>, k: int, l: int)
    requires
        totally_ordered::<T>(),
        is_first_least(totals, k),
        is_first_least(totals, l),
    ensures
        k == l,
{
    if k < l {
        assert(shorter(totals[l], totals[k]));
        assert(no_longer(totals[k], totals[l]));
        lemma_shorter_or_no_longer(totals[l], totals[k]);
    } else if l < k {
        assert(shorter(totals[k], totals[l]));
        assert(no_longer(totals[l], totals[k]));
        lemma_shorter_or_no_longer(totals[k], totals[l]);
    }
}

/// An index that is the first least element is the one that `first_least` names.
pub proof fn lemma_first_least_found<T: Ord>(totals: Seq<T>, k: int)
    requires
        totally_ordered::<T>(),
        is_first_least(totals, k),
    ensures
        first_least(totals) == k,
{
    lemma_first_least_unique(totals, k, first_least(totals));
}

/// The first least element stays the first least when an element that is not
/// strictly less joins at the end, and the new element becomes the first
/// least when it is strictly less. Of a single element, that one is it.
pub proof fn lemma_first_least_grows<T: Ord>(totals: Seq<T>, k: int)
    requires
        totally_ordered::<T>(),
        totals.len() >= 1,
        totals.len() >= 2 ==> is_first_least(totals.drop_last(), k),
    ensures
        totals.len() >= 2 && !shorter(totals.last(), totals[k]) ==> is_first_least(totals, k),
        totals.len() == 1 || shorter(totals.last(), totals[k]) ==> is_first_least(
            totals,
            totals.len() - 1,
        ),
{
    let last = totals.last();
    lemma_shorter_or_no_longer(last, last);
    if totals.len() >= 2 {
        let before = totals.drop_last();
        let held = totals[k];
        assert(before[k] == held);
        lemma_shorter_or_no_longer(last, held);
        if shorter(last, held) {
            assert forall|j: int| 0 <= j < totals.len() - 1 implies shorter(
                last,
                #[trigger] totals[j],
            ) by {
                assert(no_longer(before[k], before[j]));
                lemma_shorter_then_no_longer(last, held, totals[j]);
            }
        } else {
            assert forall|j: int| 0 <= j < totals.len() implies no_longer(
                held,
                #[trigger] totals[j],
            ) by {
                if j < totals.len() - 1 {
                    assert(no_longer(before[k], before[j]));
                }
            }
            assert forall|j: int| 0 <= j < k implies shorter(held, #[trigger] totals[j]) by {
                assert(shorter(before[k], before[j]));
            }
        }
    }
}

/// The order of `u32` is a total order.
pub proof fn lemma_u32_totally_ordered()
    ensures
        totally_ordered::<u32>(),
{
    broadcast use vstd::laws_cmp::group_laws_cmp;

}

} // verus!
