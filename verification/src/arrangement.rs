//! Orders in which a number of waypoints can be visited.
//!
//! An arrangement of `n` is a sequence that holds each index below `n` exactly
//! once. The arrangements themselves are produced by `itertools`; this module
//! states what the search relies on and wraps the two calls it makes.

use itertools::Itertools;
use vstd::prelude::*;

verus! {

/// `order` holds each index below `n` exactly once.
pub open spec fn is_arrangement(order: Seq<usize>, n: nat) -> bool {
    &&& order.len() == n
    &&& forall|i: int| 0 <= i < order.len() ==> (#[trigger] order[i]) < n
    &&& forall|i: int, j: int| 0 <= i < j < order.len() ==> order[i] != order[j]
}

/// `orders` lists the arrangements of `n`: nothing else, none twice, all of them.
pub open spec fn enumerates_arrangements(orders: Seq<Seq<usize>>, n: nat) -> bool {
    &&& forall|k: int| 0 <= k < orders.len() ==> is_arrangement(#[trigger] orders[k], n)
    &&& forall|k: int, l: int| 0 <= k < l < orders.len() ==> orders[k] != orders[l]
    &&& forall|order: Seq<usize>| is_arrangement(order, n) ==> orders.contains(order)
}

/// The waypoints taken in the given order.
pub open spec fn arranged<D>(waypoints: Seq<D>, order: Seq<usize>) -> Seq<D> {
    Seq::new(order.len(), |i: int| waypoints[order[i] as int])
}

/// The arrangement that takes the indices below `n` as they come.
pub open spec fn in_turn(n: usize) -> Seq<usize> {
    Seq::new(n as nat, |i: int| i as usize)
}

/// A list of the arrangements of `n` is never empty: it holds the indices as
/// they come.
pub proof fn lemma_enumeration_not_empty(orders: Seq<Seq<usize>>, n: usize)
    requires
        enumerates_arrangements(orders, n as nat),
    ensures
        orders.len() >= 1,
{
    assert(is_arrangement(in_turn(n), n as nat));
    assert(orders.contains(in_turn(n)));
}

/// Taking the waypoints in the order of an arrangement keeps each of them as
/// often as it was there.
pub proof fn lemma_arranged_is_permutation<D>(waypoints: Seq<D>, order: Seq<usize>)
    requires
        is_arrangement(order, waypoints.len()),
    ensures
        arranged(waypoints, order).to_multiset() == waypoints.to_multiset(),
    decreases waypoints.len(),
{
    broadcast use vstd::seq_lib::group_to_multiset_ensures;

    let n = waypoints.len();
    let taken = arranged(waypoints, order);
    if n == 0 {
        assert(taken =~= waypoints);
    } else {
        // set the waypoint that comes last aside, and close the gap it leaves
        let v = order.last() as int;
        let fewer = waypoints.remove(v);
        let closed = Seq::new(
            (n - 1) as nat,
            |i: int|
                if order[i] > v {
                    (order[i] - 1) as usize
                } else {
                    order[i]
                },
        );
        assert forall|i: int| 0 <= i < closed.len() implies (#[trigger] closed[i]) < n - 1 by {
            assert(order[i] != order[n - 1]);
        }
        assert forall|i: int, j: int| 0 <= i < j < closed.len() implies closed[i] != closed[j] by {
            assert(order[i] != order[j]);
            assert(order[i] != order[n - 1]);
            assert(order[j] != order[n - 1]);
        }
        lemma_arranged_is_permutation(fewer, closed);
        assert forall|i: int| 0 <= i < n - 1 implies arranged(fewer, closed)[i] == taken[i] by {
            assert(order[i] != order[n - 1]);
        }
        assert(arranged(fewer, closed) =~= taken.drop_last());
        assert(taken =~= taken.drop_last().push(waypoints[v]));
        assert(fewer.to_multiset() == waypoints.to_multiset().remove(waypoints[v]));
        assert(waypoints.contains(waypoints[v]));
        assert(waypoints.to_multiset().count(waypoints[v]) > 0);
        assert(taken.to_multiset() =~= waypoints.to_multiset());
    }
}

/// `itertools::Permutations`, the walk over the arrangements. It is held and
/// handed on as it is; what it has yet to yield is what `pending` names.
#[verifier::external_type_specification]
#[verifier::external_body]
#[verifier::reject_recursive_types(I)]
pub struct ExPermutations<I: Iterator>(itertools::Permutations<I>);

/// The arrangements of `n` in the order in which `Itertools::permutations`
/// yields them for the range `0..n` taken `n` at a time.
pub uninterp spec fn arrangement_order(n: usize) -> Seq<Seq<usize>>;

/// The arrangements that a walk has yet to yield, next one first.
pub uninterp spec fn pending(walk: itertools::Permutations<core::ops::Range<usize>>) -> Seq<
    Seq<usize>,
>;

/// Starts a walk over the arrangements of `n`.
///
/// Trusted: calls `Itertools::permutations` on `0..n` with `k = n`. The
/// contract claims that the walk yields every way to order the `n` indices,
/// each once and nothing else, and that the order in which it does so depends
/// on `n` alone. The walk keeps its `n` indices in memory; as with `Vec`,
/// running out of memory is outside the contract.
#[verifier::external_body]
pub(crate) fn arrangements(n: usize) -> (walk: itertools::Permutations<core::ops::Range<usize>>)
    ensures
        pending(walk) == arrangement_order(n),
        enumerates_arrangements(pending(walk), n as nat),
{
    (0..n).permutations(n)
}

/// Takes the next arrangement off a walk.
///
/// Trusted: calls `Iterator::next` of `itertools::Permutations`. The contract
/// claims that the first pending arrangement is handed out and leaves the
/// walk, and that a walk with nothing pending yields `None` and stays so.
#[verifier::external_body]
pub(crate) fn next_arrangement(
    walk: &mut itertools::Permutations<core::ops::Range<usize>>,
) -> (item: Option<Vec<usize>>)
    ensures
        pending(*old(walk)).len() == 0 ==> item.is_none() && pending(*final(walk)) == pending(
            *old(walk),
        ),
        pending(*old(walk)).len() > 0 ==> item.is_some() && item.unwrap()@ == pending(
            *old(walk),
        ).first() && pending(*final(walk)) == pending(*old(walk)).drop_first(),
{
    walk.next()
}

} // verus!
