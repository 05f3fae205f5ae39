//! The exhaustive search for the shortest route.
//!
//! Every order of the waypoints gives a candidate route from the start to the
//! end. The search measures each candidate and keeps the shortest; of several
//! shortest candidates it keeps the one that came first.

use crate::arrangement::{
    arranged, arrangement_order, arrangements, enumerates_arrangements, is_arrangement,
    lemma_arranged_is_permutation, lemma_enumeration_not_empty, next_arrangement, pending,
};
use crate::order::{
    first_least, is_first_least, lemma_first_least_found, lemma_first_least_grows, no_longer,
    shorter, totally_ordered,
};
use crate::route::{
    answered, measures_legs, route_through, span, stops_of, summable, total_distance_of_route,
};
use vstd::prelude::*;
use vstd::std_specs::ops::AddSpec;

verus! {

/// The route from `start` to `end` that visits the waypoints in the given order.
pub open spec fn candidate<D>(start: D, waypoints: Seq<D>, end: D, order: Seq<usize>) -> Seq<D> {
    route_through(start, arranged(waypoints, order), end)
}

/// The lengths of the candidates that `orders` gives, one by one.
pub open spec fn candidate_totals<
    D,
    Dist: core::ops::Add<Output = Dist>,
    F: Fn((&D, &D)) -> Dist,
>(f: F, start: D, waypoints: Seq<D>, end: D, orders: Seq<Seq<usize>>) -> Seq<Dist> {
    Seq::new(orders.len(), |k: int| span(f, candidate(start, waypoints, end, orders[k])))
}

/// `f` measures every leg of every candidate.
pub open spec fn all_measured<D, Dist, F: Fn((&D, &D)) -> Dist>(
    f: F,
    start: D,
    waypoints: Seq<D>,
    end: D,
) -> bool {
    forall|order: Seq<usize>| #[trigger]
        is_arrangement(order, waypoints.len()) ==> measures_legs(
            f,
            candidate(start, waypoints, end, order),
        )
}

/// The length of every candidate can be added up in `Dist`.
pub open spec fn all_summable<D, Dist: core::ops::Add<Output = Dist>, F: Fn((&D, &D)) -> Dist>(
    f: F,
    start: D,
    waypoints: Seq<D>,
    end: D,
) -> bool {
    forall|order: Seq<usize>| #[trigger]
        is_arrangement(order, waypoints.len()) ==> summable(
            f,
            candidate(start, waypoints, end, order),
        )
}

/// Returns the length of the route from `start` to `end` that visits
/// `waypoints` in the given order.
pub fn distance_along<D, Dist, F>(
    waypoints: &Vec<D>,
    start: &D,
    end: &D,
    order: &Vec<usize>,
    compute_distance: &F,
) -> (total: Dist) where F: Fn((&D, &D)) -> Dist, Dist: core::ops::Add<Output = Dist>
    requires
        forall|i: int| 0 <= i < order@.len() ==> (#[trigger] order@[i]) < waypoints@.len(),
        measures_legs(*compute_distance, candidate(*start, waypoints@, *end, order@)),
        Dist::obeys_add_spec(),
        summable(*compute_distance, candidate(*start, waypoints@, *end, order@)),
    ensures
        answered(*compute_distance, candidate(*start, waypoints@, *end, order@)),
        total == span(*compute_distance, candidate(*start, waypoints@, *end, order@)),
{
    let mut stops: Vec<&D> = Vec::new();
    stops.push(start);
    let mut i: usize = 0;
    while i < order.len()
        invariant
            0 <= i <= order@.len(),
            forall|k: int| 0 <= k < order@.len() ==> (#[trigger] order@[k]) < waypoints@.len(),
            stops@.len() == i + 1,
            *stops@[0] == *start,
            forall|k: int|
                0 <= k < i ==> *(#[trigger] stops@[k + 1]) == waypoints@[order@[k] as int],
        decreases order@.len() - i,
    {
        stops.push(&waypoints[order[i]]);
        i = i + 1;
    }
    stops.push(end);
    proof {
        let route = candidate(*start, waypoints@, *end, order@);
        let between = arranged(waypoints@, order@);
        assert(route.len() == order@.len() + 2);
        assert forall|k: int| 0 <= k < route.len() implies stops_of(stops@)[k] == route[k] by {
            if 1 <= k <= order@.len() {
                assert(*stops@[(k - 1) + 1] == waypoints@[order@[k - 1] as int]);
                assert(route[k] == between[k - 1]);
            }
        }
        assert(stops_of(stops@) =~= route);
    }
    total_distance_of_route(stops.as_slice(), compute_distance).unwrap()
}

/// Moves the waypoints into the route from `start` to `end` that visits them
/// in the given order.
pub fn assemble_route<D>(waypoints: Vec<D>, start: D, end: D, order: &Vec<usize>) -> (route: Vec<D>)
    requires
        is_arrangement(order@, waypoints@.len()),
    ensures
        route@ == candidate(start, waypoints@, end, order@),
{
    let n = waypoints.len();
    let mut rest = waypoints;
    let mut slots: Vec<Option<D>> = Vec::new();
    // the slots hold the waypoints last to first
    while rest.len() > 0
        invariant
            rest@ == waypoints@.take(rest@.len() as int),
            rest@.len() + slots@.len() == n,
            n == waypoints@.len(),
            forall|j: int|
                0 <= j < slots@.len() ==> #[trigger] slots@[j] == Some(waypoints@[n - 1 - j]),
        decreases rest@.len(),
    {
        let last = rest.pop();
        slots.push(last);
    }
    let mut route: Vec<D> = Vec::new();
    route.push(start);
    let mut i: usize = 0;
    while i < n
        invariant
            0 <= i <= n,
            n == waypoints@.len(),
            is_arrangement(order@, waypoints@.len()),
            slots@.len() == n,
            forall|k: int|
                i <= k < n ==> #[trigger] slots@[n - 1 - order@[k]] == Some(
                    waypoints@[order@[k] as int],
                ),
            route@ == seq![start] + arranged(waypoints@, order@.take(i as int)),
        decreases n - i,
    {
        let at = n - 1 - order[i];
        let taken = slots[at].take();
        proof {
            assert(slots@[n - 1 - order@[i as int]] is None);
            assert(arranged(waypoints@, order@.take(i + 1)) =~= arranged(
                waypoints@,
                order@.take(i as int),
            ).push(waypoints@[order@[i as int] as int]));
        }
        route.push(taken.unwrap());
        i = i + 1;
    }
    route.push(end);
    proof {
        assert(order@.take(n as int) =~= order@);
        assert(route@ =~= candidate(start, waypoints@, end, order@));
    }
    route
}

/// The first of the shortest candidates that `orders` gives.
pub open spec fn shortest_among<
    D,
    Dist: Ord + core::ops::Add<Output = Dist>,
    F: Fn((&D, &D)) -> Dist,
>(
    f: F,
    start: D,
    waypoints: Seq<D>,
    end: D,
    orders: Seq<Seq<usize>>,
) -> Seq<D> {
    let totals = candidate_totals(f, start, waypoints, end, orders);
    candidate(start, waypoints, end, orders[first_least(totals)])
}

/// The route that the search settles on: the first of the shortest
/// candidates, in the order in which the arrangements are walked.
pub open spec fn shortest_route<
    D,
    Dist: Ord + core::ops::Add<Output = Dist>,
    F: Fn((&D, &D)) -> Dist,
>(
    f: F,
    start: D,
    waypoints: Seq<D>,
    end: D,
) -> Seq<D> {
    shortest_among(f, start, waypoints, end, arrangement_order(waypoints.len() as usize))
}

/// Of the order held so far and a new one, returns the one to go on with: the
/// new one where nothing is held or where it is strictly shorter, else the
/// one held.
pub fn keep_shorter<Dist: Ord>(
    held: Option<(Vec<usize>, Dist)>,
    order: Vec<usize>,
    total: Dist,
) -> (kept: (Vec<usize>, Dist))
    requires
        totally_ordered::<Dist>(),
    ensures
        kept == (if held is Some && !shorter(total, held.unwrap().1) {
            held.unwrap()
        } else {
            (order, total)
        }),
{
    proof {
        reveal(vstd::laws_cmp::obeys_cmp_partial_ord);
    }
    match held {
        None => (order, total),
        Some(before) => {
            if total < before.1 {
                (order, total)
            } else {
                before
            }
        },
    }
}

/// Finds the shortest route from `start` to `end` that visits each of
/// `inner_destinations` once.
///
/// Every order of the destinations is measured with `compute_distance`, leg
/// by leg from the start to the end, and the shortest route is returned; of
/// several shortest ones, the one whose order is walked first. With no
/// destination to visit the route is `[start, end]`; it is measured like any
/// other, so its length is the distance from `start` to `end`.
///
/// `compute_distance` has to give one answer for each leg that a candidate
/// has, `Distance` has to be totally ordered, and the additions that a
/// candidate's length takes have to be ones that `Distance` allows.
pub fn traveling_salesman<Destination, Distance, F>(
    inner_destinations: Vec<Destination>,
    start: Destination,
    end: Destination,
    compute_distance: F,
) -> (route: Vec<Destination>) where
    F: Fn((&Destination, &Destination)) -> Distance,
    Distance: Ord + core::ops::Add<Output = Distance>,

    requires
        all_measured(compute_distance, start, inner_destinations@, end),
        totally_ordered::<Distance>(),
        Distance::obeys_add_spec(),
        all_summable(compute_distance, start, inner_destinations@, end),
    ensures
        route@ == shortest_route(compute_distance, start, inner_destinations@, end),
        route@.len() == inner_destinations@.len() + 2,
        route@.first() == start,
        route@.last() == end,
        route@.subrange(1, route@.len() - 1).to_multiset() == inner_destinations@.to_multiset(),
        forall|order: Seq<usize>| #[trigger]
            is_arrangement(order, inner_destinations@.len()) ==> no_longer(
                span(compute_distance, route@),
                span(compute_distance, candidate(start, inner_destinations@, end, order)),
            ),
        forall|order: Seq<usize>| #[trigger]
            is_arrangement(order, inner_destinations@.len()) ==> answered(
                compute_distance,
                candidate(start, inner_destinations@, end, order),
            ),
        inner_destinations@.len() == 0 ==> route@ == seq![start, end],
{
    let n = inner_destinations.len();
    let mut walk = arrangements(n);
    let ghost orders = arrangement_order(n);
    let ghost totals = candidate_totals(compute_distance, start, inner_destinations@, end, orders);
    let ghost mut seen: int = 0;
    let ghost mut best_at: int = 0;
    let mut best: Option<(Vec<usize>, Distance)> = None;
    loop
        invariant
            n == inner_destinations@.len(),
            orders == arrangement_order(n),
            enumerates_arrangements(orders, n as nat),
            totals == candidate_totals(compute_distance, start, inner_destinations@, end, orders),
            all_measured(compute_distance, start, inner_destinations@, end),
            totally_ordered::<Distance>(),
            Distance::obeys_add_spec(),
            all_summable(compute_distance, start, inner_destinations@, end),
            0 <= seen <= orders.len(),
            pending(walk) == orders.skip(seen),
            forall|k: int|
                0 <= k < seen ==> answered(
                    compute_distance,
                    candidate(start, inner_destinations@, end, #[trigger] orders[k]),
                ),
            best is None <==> seen == 0,
            best matches Some(held) ==> {
                &&& 0 <= best_at < seen
                &&& held.0@ == orders[best_at]
                &&& held.1 == totals[best_at]
                &&& is_first_least(totals.take(seen), best_at)
            },
        ensures
            seen == orders.len(),
        decreases pending(walk).len(),
    {
        match next_arrangement(&mut walk) {
            None => {
                break ;
            },
            Some(order) => {
                proof {
                    assert(order@ == orders[seen]);
                    assert(orders.skip(seen).drop_first() =~= orders.skip(seen + 1));
                    assert(is_arrangement(order@, n as nat));
                }
                let total = distance_along(
                    &inner_destinations,
                    &start,
                    &end,
                    &order,
                    &compute_distance,
                );
                proof {
                    let grown = totals.take(seen + 1);
                    assert(grown.drop_last() =~= totals.take(seen));
                    assert(grown.last() == total);
                    lemma_first_least_grows(grown, best_at);
                    if best is None || shorter(total, best.unwrap().1) {
                        best_at = seen;
                    }
                    seen = seen + 1;
                }
                best = Some(keep_shorter(best, order, total));
            },
        }
    }
    proof {
        lemma_enumeration_not_empty(orders, n);
        assert(totals.take(seen) =~= totals);
        lemma_first_least_found(totals, best_at);
    }
    let (order, _) = best.unwrap();
    let route = assemble_route(inner_destinations, start, end, &order);
    proof {
        let between = arranged(inner_destinations@, order@);
        assert(route@.subrange(1, route@.len() - 1) =~= between);
        lemma_arranged_is_permutation(inner_destinations@, order@);
        assert forall|other: Seq<usize>| #[trigger]
            is_arrangement(other, inner_destinations@.len()) implies no_longer(
            span(compute_distance, route@),
            span(compute_distance, candidate(start, inner_destinations@, end, other)),
        ) by {
            assert(orders.contains(other));
            let at = choose|at: int| 0 <= at < orders.len() && orders[at] == other;
            assert(no_longer(totals[best_at], totals[at]));
        }
        assert forall|other: Seq<usize>| #[trigger]
            is_arrangement(other, inner_destinations@.len()) implies answered(
            compute_distance,
            candidate(start, inner_destinations@, end, other),
        ) by {
            assert(orders.contains(other));
            let at = choose|at: int| 0 <= at < orders.len() && orders[at] == other;
            assert(orders[at] == other);
        }
        if n == 0 {
            assert(route@ =~= seq![start, end]);
        }
    }
    route
}

} // verus!
