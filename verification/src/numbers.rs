//! The search over plain numbers.
//!
//! Here the stops are `i32` values and the distance between two of them is
//! how far apart they are. The search is the same as the general one, written
//! out for this one case; lengths are added up in a type wide enough for any
//! route.

use crate::arrangement::{
    arranged, arrangement_order, arrangements, enumerates_arrangements, is_arrangement,
    lemma_arranged_is_permutation, lemma_enumeration_not_empty, next_arrangement, pending,
};
use crate::order::{
    is_first_least, lemma_first_least_found, lemma_u32_totally_ordered, no_longer, shorter,
};
use crate::route::{answered, legs, legs_measured, span, stops_of, summable, sums_allowed};
use crate::search::{all_summable, candidate, candidate_totals, shortest_among};
use vstd::prelude::*;

verus! {

/// How far apart two numbers are.
pub open spec fn gap(a: i32, b: i32) -> nat {
    if a <= b {
        (b - a) as nat
    } else {
        (a - b) as nat
    }
}

/// The length of a route over numbers: the gaps between its neighbours, added up.
pub open spec fn stretch(route: Seq<i32>) -> nat
    decreases route.len(),
{
    if route.len() < 2 {
        0
    } else {
        stretch(route.drop_last()) + gap(route[route.len() - 2], route.last())
    }
}

/// The lengths of the candidates over numbers that `orders` gives, one by one.
pub open spec fn candidate_stretches(
    start: i32,
    waypoints: Seq<i32>,
    end: i32,
    orders: Seq<Seq<usize>>,
) -> Seq<nat> {
    Seq::new(orders.len(), |k: int| stretch(candidate(start, waypoints, end, orders[k])))
}

/// `lengths[k]` is a least element of `lengths`, and the first such.
pub open spec fn is_first_shortest(lengths: Seq<nat>, k: int) -> bool {
    &&& 0 <= k < lengths.len()
    &&& forall|j: int| 0 <= j < lengths.len() ==> lengths[k] <= #[trigger] lengths[j]
    &&& forall|j: int| 0 <= j < k ==> lengths[k] < #[trigger] lengths[j]
}

/// Where the first least element of `lengths` stands.
pub open spec fn first_shortest(lengths: Seq<nat>) -> int {
    choose|k: int| is_first_shortest(lengths, k)
}

/// The first of the shortest candidates over numbers that `orders` gives.
pub open spec fn shortest_stretch_among(
    start: i32,
    waypoints: Seq<i32>,
    end: i32,
    orders: Seq<Seq<usize>>,
) -> Seq<i32> {
    let lengths = candidate_stretches(start, waypoints, end, orders);
    candidate(start, waypoints, end, orders[first_shortest(lengths)])
}

/// The route over numbers that the search settles on: the first of the
/// shortest candidates, in the order in which the arrangements are walked.
pub open spec fn shortest_stretch_route(start: i32, waypoints: Seq<i32>, end: i32) -> Seq<i32> {
    shortest_stretch_among(start, waypoints, end, arrangement_order(waypoints.len() as usize))
}

/// `i32::abs_diff` of std: the distance between the two numbers, which always
/// fits the unsigned type.
pub assume_specification[ i32::abs_diff ](a: i32, b: i32) -> (d: u32)
    ensures
        a <= b ==> d == b - a,
        a > b ==> d == a - b,
;

/// Returns the length of the route from `start` to `end` that visits the
/// numbers of `destination` in the given order.
pub fn stretch_along(
    destination: &[i32],
    start: &i32,
    end: &i32,
    order: &Vec<usize>,
) -> (total: u128)
    requires
        forall|i: int| 0 <= i < order@.len() ==> (#[trigger] order@[i]) < destination@.len(),
    ensures
        total == stretch(candidate(*start, destination@, *end, order@)),
{
    let ghost route = candidate(*start, destination@, *end, order@);
    let mut total: u128 = 0;
    let mut here: i32 = *start;
    let mut i: usize = 0;
    proof {
        assert(stretch(route.take(1)) == 0);
    }
    while i < order.len()
        invariant
            0 <= i <= order@.len(),
            forall|k: int| 0 <= k < order@.len() ==> (#[trigger] order@[k]) < destination@.len(),
            route == candidate(*start, destination@, *end, order@),
            here == route[i as int],
            total == stretch(route.take(i + 1)),
            total <= i * 0xffff_ffff,
        decreases order@.len() - i,
    {
        let next = destination[order[i]];
        proof {
            assert(route[i + 1] == arranged(destination@, order@)[i as int]);
            assert(route.take(i + 2).drop_last() =~= route.take(i + 1));
        }
        total = total + here.abs_diff(next) as u128;
        here = next;
        i = i + 1;
    }
    proof {
        assert(route.drop_last() =~= route.take(i + 1));
    }
    total + here.abs_diff(*end) as u128
}

/// Finds the shortest route from `start` to `end` that visits each number of
/// `destination` once, where the distance between two numbers is how far
/// apart they are.
///
/// Every order of the destinations is measured and the shortest route is
/// returned; of several shortest ones, the one whose order is walked first.
/// With no destination to visit the route is `[start, end]`. Lengths are
/// added up in `u128`, which holds the length of any route.
pub fn hand_rolled_traveling_salesman<'a>(
    destination: &'a [i32],
    start: &'a i32,
    end: &'a i32,
) -> (route: Vec<&'a i32>)
    ensures
        stops_of(route@) == shortest_stretch_route(*start, destination@, *end),
        route@.len() == destination@.len() + 2,
        *route@.first() == *start,
        *route@.last() == *end,
        stops_of(route@).subrange(1, route@.len() - 1).to_multiset() == destination@.to_multiset(),
        forall|order: Seq<usize>| #[trigger]
            is_arrangement(order, destination@.len()) ==> stretch(stops_of(route@)) <= stretch(
                candidate(*start, destination@, *end, order),
            ),
        destination@.len() == 0 ==> stops_of(route@) == seq![*start, *end],
{
    let n = destination.len();
    let mut walk = arrangements(n);
    let ghost orders = arrangement_order(n);
    let ghost lengths = candidate_stretches(*start, destination@, *end, orders);
    let ghost mut seen: int = 0;
    let ghost mut best_at: int = 0;
    let mut min_distance: Option<u128> = None;
    let mut min_route: Option<Vec<usize>> = None;
    loop
        invariant
            n == destination@.len(),
            orders == arrangement_order(n),
            enumerates_arrangements(orders, n as nat),
            lengths == candidate_stretches(*start, destination@, *end, orders),
            0 <= seen <= orders.len(),
            pending(walk) == orders.skip(seen),
            min_route is None <==> seen == 0,
            min_distance is None <==> seen == 0,
            seen > 0 ==> {
                &&& 0 <= best_at < seen
                &&& min_route.unwrap()@ == orders[best_at]
                &&& min_distance.unwrap() == lengths[best_at]
                &&& is_first_shortest(lengths.take(seen), best_at)
            },
        ensures
            seen == orders.len(),
        decreases pending(walk).len(),
    {
        match next_arrangement(&mut walk) {
            None => {
                break ;
            },
            Some(perm) => {
                proof {
                    assert(perm@ == orders[seen]);
                    assert(orders.skip(seen).drop_first() =~= orders.skip(seen + 1));
                    assert(is_arrangement(perm@, n as nat));
                }
                let distance = stretch_along(destination, start, end, &perm);
                let improves = match min_distance {
                    None => true,
                    Some(least) => distance < least,
                };
                proof {
                    assert(distance == lengths[seen]);
                    assert forall|j: int| 0 <= j < seen implies lengths.take(seen)[j]
                        == lengths.take(seen + 1)[j] by {}
                }
                if improves {
                    min_distance = Some(distance);
                    min_route = Some(perm);
                    proof {
                        assert forall|j: int| 0 <= j < seen implies lengths.take(seen + 1)[seen]
                            < #[trigger] lengths.take(seen + 1)[j] by {
                            assert(lengths.take(seen)[best_at] <= lengths.take(seen)[j]);
                        }
                        best_at = seen;
                    }
                } else {
                    proof {
                        assert forall|j: int| 0 <= j < seen + 1 implies lengths.take(
                            seen + 1,
                        )[best_at] <= #[trigger] lengths.take(seen + 1)[j] by {
                            if j < seen {
                                assert(lengths.take(seen)[best_at] <= lengths.take(seen)[j]);
                            }
                        }
                        assert forall|j: int| 0 <= j < best_at implies lengths.take(
                            seen + 1,
                        )[best_at] < #[trigger] lengths.take(seen + 1)[j] by {
                            assert(lengths.take(seen)[best_at] < lengths.take(seen)[j]);
                        }
                    }
                }
                proof {
                    seen = seen + 1;
                }
            },
        }
    }
    proof {
        lemma_enumeration_not_empty(orders, n);
        assert(lengths.take(seen) =~= lengths);
        lemma_first_shortest_found(lengths, best_at);
    }
    let order = min_route.unwrap();
    let mut route: Vec<&'a i32> = Vec::new();
    route.push(start);
    let mut i: usize = 0;
    while i < n
        invariant
            0 <= i <= n,
            n == destination@.len(),
            is_arrangement(order@, n as nat),
            route@.len() == i + 1,
            *route@[0] == *start,
            forall|k: int|
                0 <= k < i ==> *(#[trigger] route@[k + 1]) == destination@[order@[k] as int],
        decreases n - i,
    {
        route.push(&destination[order[i]]);
        i = i + 1;
    }
    route.push(end);
    proof {
        let stops = stops_of(route@);
        let settled = candidate(*start, destination@, *end, order@);
        let between = arranged(destination@, order@);
        assert forall|k: int| 0 <= k < settled.len() implies stops[k] == settled[k] by {
            if 1 <= k <= n {
                assert(*route@[(k - 1) + 1] == destination@[order@[k - 1] as int]);
                assert(settled[k] == between[k - 1]);
            }
        }
        assert(stops =~= settled);
        assert(stops.subrange(1, route@.len() - 1) =~= between);
        lemma_arranged_is_permutation(destination@, order@);
        assert forall|other: Seq<usize>| #[trigger]
            is_arrangement(other, destination@.len()) implies stretch(stops) <= stretch(
            candidate(*start, destination@, *end, other),
        ) by {
            assert(orders.contains(other));
            let at = choose|at: int| 0 <= at < orders.len() && orders[at] == other;
            assert(lengths[best_at] <= lengths[at]);
        }
        if n == 0 {
            assert(stops =~= seq![*start, *end]);
        }
    }
    route
}

/// An index that is the first shortest is the one that `first_shortest` names.
pub proof fn lemma_first_shortest_found(lengths: Seq<nat>, k: int)
    requires
        is_first_shortest(lengths, k),
    ensures
        first_shortest(lengths) == k,
{
    let l = first_shortest(lengths);
    if l < k {
        assert(lengths[k] < lengths[l]);
    } else if k < l {
        assert(lengths[l] < lengths[k]);
    }
}

/// A sequence that is not empty has a first shortest element.
pub proof fn lemma_first_shortest_exists(lengths: Seq<nat>)
    requires
        lengths.len() >= 1,
    ensures
        is_first_shortest(lengths, first_shortest(lengths)),
    decreases lengths.len(),
{
    if lengths.len() == 1 {
        assert(is_first_shortest(lengths, 0));
    } else {
        let before = lengths.drop_last();
        lemma_first_shortest_exists(before);
        let k = first_shortest(before);
        if lengths.last() < lengths[k] {
            assert forall|j: int| 0 <= j < lengths.len() - 1 implies lengths.last()
                < #[trigger] lengths[j] by {
                assert(before[k] <= before[j]);
            }
            assert(is_first_shortest(lengths, lengths.len() - 1));
        } else {
            assert forall|j: int| 0 <= j < lengths.len() implies lengths[k]
                <= #[trigger] lengths[j] by {
                if j < lengths.len() - 1 {
                    assert(before[k] <= before[j]);
                }
            }
            assert forall|j: int| 0 <= j < k implies lengths[k] < #[trigger] lengths[j] by {
                assert(before[k] < before[j]);
            }
            assert(is_first_shortest(lengths, k));
        }
    }
}

/// `f` answers, for any two numbers, how far apart they are.
pub open spec fn gives_gap<F: Fn((&i32, &i32)) -> u32>(f: F) -> bool {
    forall|a: i32, b: i32, d: u32| #[trigger] f.ensures(((&a, &b),), d) ==> d == gap(a, b)
}

/// The stretch of a route is the sum of the gaps of its legs.
pub proof fn lemma_stretch_is_sum<F: Fn((&i32, &i32)) -> u32>(f: F, route: Seq<i32>)
    requires
        gives_gap(f),
        route.len() >= 2,
        answered(f, route),
        summable(f, route),
    ensures
        span(f, route) == stretch(route),
    decreases route.len(),
{
    let lengths = legs(f, route);
    let a = route[route.len() - 2];
    let b = route.last();
    assert(lengths.last() == gap(a, b));
    assert(route.take(route.len() as int) =~= route);
    assert(sums_allowed(lengths));
    if route.len() == 2 {
        assert(stretch(route.drop_last()) == 0);
    } else {
        let before = route.drop_last();
        assert(legs(f, before) =~= lengths.drop_last());
        assert forall|upto: int, some: Seq<u32>|
            1 <= upto <= before.len() && #[trigger] legs_measured(
                f,
                before.take(upto),
                some,
            ) implies sums_allowed(some) by {
            assert(before.take(upto) =~= route.take(upto));
        }
        lemma_stretch_is_sum(f, before);
    }
}

/// The search over numbers and the general search agree: where the distance
/// function answers, for each leg of each candidate, how far apart the two
/// numbers are, and the length of every candidate can be added up in `u32`,
/// both settle on the same route, and so on routes of the same length.
pub proof fn lemma_fast_path_agrees<F: Fn((&i32, &i32)) -> u32>(
    f: F,
    start: i32,
    waypoints: Seq<i32>,
    end: i32,
    orders: Seq<Seq<usize>>,
)
    requires
        gives_gap(f),
        waypoints.len() <= usize::MAX,
        enumerates_arrangements(orders, waypoints.len()),
        forall|order: Seq<usize>| #[trigger]
            is_arrangement(order, waypoints.len()) ==> answered(
                f,
                candidate(start, waypoints, end, order),
            ),
        all_summable(f, start, waypoints, end),
    ensures
        shortest_among(f, start, waypoints, end, orders) == shortest_stretch_among(
            start,
            waypoints,
            end,
            orders,
        ),
        span(f, shortest_among(f, start, waypoints, end, orders)) == stretch(
            shortest_stretch_among(start, waypoints, end, orders),
        ),
{
    let totals = candidate_totals(f, start, waypoints, end, orders);
    let lengths = candidate_stretches(start, waypoints, end, orders);
    lemma_enumeration_not_empty(orders, waypoints.len() as usize);
    assert forall|j: int| 0 <= j < orders.len() implies #[trigger] totals[j] == lengths[j] by {
        assert(is_arrangement(orders[j], waypoints.len()));
        lemma_stretch_is_sum(f, candidate(start, waypoints, end, orders[j]));
    }
    lemma_first_shortest_exists(lengths);
    let k = first_shortest(lengths);
    assert(is_first_least(totals, k)) by {
        assert forall|j: int| 0 <= j < totals.len() implies no_longer(
            totals[k],
            #[trigger] totals[j],
        ) by {
            assert(lengths[k] <= lengths[j]);
        }
        assert forall|j: int| 0 <= j < k implies shorter(totals[k], #[trigger] totals[j]) by {
            assert(lengths[k] < lengths[j]);
        }
    }
    lemma_u32_totally_ordered();
    lemma_first_least_found(totals, k);
    lemma_stretch_is_sum(f, candidate(start, waypoints, end, orders[k]));
}

} // verus!
