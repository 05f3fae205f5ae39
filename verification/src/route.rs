//! Routes and their length.
//!
//! A route is a sequence of stops. Its length is the sum of the distances of
//! its legs, the pairs of stops that follow one another, added from the first
//! leg to the last.

use vstd::prelude::*;
use vstd::std_specs::ops::AddSpec;

verus! {

/// The pairs of neighbours of `items`, in order.
pub open spec fn adjacent_pairs<T>(items: Seq<T>) -> Seq<(T, T)> {
    Seq::new(
        if items.len() == 0 {
            0nat
        } else {
            (items.len() - 1) as nat
        },
        |i: int| (items[i], items[i + 1]),
    )
}

/// The route from `start` through `interior` to `end`.
pub open spec fn route_through<D>(start: D, interior: Seq<D>, end: D) -> Seq<D> {
    seq![start] + interior + seq![end]
}

/// The stops that a sequence of references points to.
pub open spec fn stops_of<D>(route: Seq<&D>) -> Seq<D> {
    Seq::new(route.len(), |i: int| *route[i])
}

/// `f` can be called on the leg from `a` to `b` and has one answer there.
pub open spec fn measures<D, Dist, F: Fn((&D, &D)) -> Dist>(f: F, a: D, b: D) -> bool {
    &&& f.requires(((&a, &b),))
    &&& forall|r1: Dist, r2: Dist|
        f.ensures(((&a, &b),), r1) && f.ensures(((&a, &b),), r2) ==> r1 == r2
}

/// `f` measures every leg of `route`.
pub open spec fn measures_legs<D, Dist, F: Fn((&D, &D)) -> Dist>(f: F, route: Seq<D>) -> bool {
    forall|i: int| 0 <= i < route.len() - 1 ==> measures(f, #[trigger] route[i], route[i + 1])
}

/// The distance that `f` gives for the leg from `a` to `b`.
pub open spec fn leg<D, Dist, F: Fn((&D, &D)) -> Dist>(f: F, a: D, b: D) -> Dist {
    choose|r: Dist| f.ensures(((&a, &b),), r)
}

/// The distances that `f` gives for the legs of `route`, first leg first.
pub open spec fn legs<D, Dist, F: Fn((&D, &D)) -> Dist>(f: F, route: Seq<D>) -> Seq<Dist> {
    Seq::new((route.len() - 1) as nat, |i: int| leg(f, route[i], route[i + 1]))
}

/// `lengths` holds, leg by leg, a distance that `f` answers for that leg of
/// `route`.
pub open spec fn legs_measured<D, Dist, F: Fn((&D, &D)) -> Dist>(
    f: F,
    route: Seq<D>,
    lengths: Seq<Dist>,
) -> bool {
    &&& lengths.len() == route.len() - 1
    &&& forall|i: int|
        0 <= i < lengths.len() ==> f.ensures(((&route[i], &route[i + 1]),), #[trigger] lengths[i])
}

/// `f` has an answer for each leg of `route`: the distances that `legs` names
/// are answers of `f`.
pub open spec fn answered<D, Dist, F: Fn((&D, &D)) -> Dist>(f: F, route: Seq<D>) -> bool {
    legs_measured(f, route, legs(f, route))
}

/// The sum of one distance or more, added from the first to the last.
pub open spec fn sum_of<Dist: core::ops::Add<Output = Dist>>(lengths: Seq<Dist>) -> Dist
    recommends
        lengths.len() >= 1,
    decreases lengths.len(),
{
    if lengths.len() <= 1 {
        lengths[0]
    } else {
        sum_of(lengths.drop_last()).add_spec(lengths.last())
    }
}

/// Every addition that `sum_of` makes on `lengths` is one that `Dist` allows.
pub open spec fn sums_allowed<Dist: core::ops::Add<Output = Dist>>(lengths: Seq<Dist>) -> bool
    decreases lengths.len(),
{
    lengths.len() <= 1 || (sums_allowed(lengths.drop_last()) && sum_of(
        lengths.drop_last(),
    ).add_req(lengths.last()))
}

/// The length of a route of two stops or more: the distances of its legs,
/// added from the first to the last.
pub open spec fn span<D, Dist: core::ops::Add<Output = Dist>, F: Fn((&D, &D)) -> Dist>(
    f: F,
    route: Seq<D>,
) -> Dist
    recommends
        route.len() >= 2,
{
    sum_of(legs(f, route))
}

/// The length of `route` can be added up: whatever `f` answers for its legs,
/// up to any stop, `Dist` allows each addition.
pub open spec fn summable<D, Dist: core::ops::Add<Output = Dist>, F: Fn((&D, &D)) -> Dist>(
    f: F,
    route: Seq<D>,
) -> bool {
    forall|upto: int, lengths: Seq<Dist>|
        1 <= upto <= route.len() && #[trigger] legs_measured(f, route.take(upto), lengths)
            ==> sums_allowed(lengths)
}

/// Where `f` has one answer for each leg of `route`, the distances answered
/// are the ones that `legs` names.
pub proof fn lemma_answers_are_legs<D, Dist, F: Fn((&D, &D)) -> Dist>(
    f: F,
    route: Seq<D>,
    lengths: Seq<Dist>,
)
    requires
        route.len() >= 1,
        measures_legs(f, route),
        legs_measured(f, route, lengths),
    ensures
        lengths == legs(f, route),
        answered(f, route),
{
    assert forall|i: int| 0 <= i < lengths.len() implies lengths[i] == legs(f, route)[i] by {
        assert(measures(f, route[i], route[i + 1]));
        assert(f.ensures(((&route[i], &route[i + 1]),), lengths[i]));
    }
    assert(lengths =~= legs(f, route));
}

/// Returns the pairs of neighbours of `items`: first and second, second and
/// third, and so on. Fewer than two items have no pair.
pub fn pairwise<T: Copy>(items: &[T]) -> (pairs: Vec<(T, T)>)
    ensures
        pairs@ == adjacent_pairs(items@),
{
    let mut pairs: Vec<(T, T)> = Vec::new();
    let mut i: usize = 1;
    while i < items.len()
        invariant
            1 <= i,
            i <= items.len() || i == 1,
            pairs@.len() == i - 1,
            forall|k: int| 0 <= k < i - 1 ==> pairs@[k] == (items@[k], items@[k + 1]),
        decreases items.len() - i,
    {
        pairs.push((items[i - 1], items[i]));
        i = i + 1;
    }
    proof {
        assert(pairs@ =~= adjacent_pairs(items@));
    }
    pairs
}

/// Returns the length of `route` under `compute_distance`: the sum of the
/// distances of its legs, added from the first leg to the last. A route of
/// fewer than two stops has no leg and no length.
pub fn total_distance_of_route<D, Dist, F>(route: &[&D], compute_distance: &F) -> (total: Option<
    Dist,
>) where F: Fn((&D, &D)) -> Dist, Dist: core::ops::Add<Output = Dist>
    requires
        measures_legs(*compute_distance, stops_of(route@)),
        Dist::obeys_add_spec(),
        summable(*compute_distance, stops_of(route@)),
    ensures
        route@.len() < 2 <==> total is None,
        route@.len() >= 2 ==> answered(*compute_distance, stops_of(route@)),
        route@.len() >= 2 ==> total == Some(span(*compute_distance, stops_of(route@))),
{
    let pairs = pairwise(route);
    if pairs.len() == 0 {
        return None;
    }
    let ghost stops = stops_of(route@);
    proof {
        assert(measures(*compute_distance, stops[0], stops[1]));
    }
    let mut total = compute_distance(pairs[0]);
    let ghost mut lengths = seq![total];
    let mut i: usize = 1;
    while i < pairs.len()
        invariant
            1 <= i <= pairs.len(),
            pairs@ == adjacent_pairs(route@),
            stops == stops_of(route@),
            measures_legs(*compute_distance, stops),
            Dist::obeys_add_spec(),
            summable(*compute_distance, stops),
            legs_measured(*compute_distance, stops.take(i + 1), lengths),
            total == sum_of(lengths),
        decreases pairs.len() - i,
    {
        proof {
            assert(measures(*compute_distance, stops[i as int], stops[i + 1]));
        }
        let next = compute_distance(pairs[i]);
        proof {
            let longer = lengths.push(next);
            assert(longer.drop_last() =~= lengths);
            assert(legs_measured(*compute_distance, stops.take(i + 2), longer));
            lengths = longer;
        }
        total = total + next;
        i = i + 1;
    }
    proof {
        assert(stops.take(i + 1) =~= stops);
        lemma_answers_are_legs(*compute_distance, stops, lengths);
    }
    Some(total)
}

} // verus!
