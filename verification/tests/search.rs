use itertools::Itertools;
use route_search::search::{assemble_route, distance_along, keep_shorter};
use route_search::{hand_rolled_traveling_salesman, total_distance_of_route, traveling_salesman};
use std::collections::HashSet;

fn apart(pair: (&i32, &i32)) -> u32 {
    pair.0.abs_diff(*pair.1)
}

fn length_of(route: &[i32]) -> u32 {
    let stops: Vec<&i32> = route.iter().collect();
    total_distance_of_route(&stops, &apart).unwrap()
}

#[test]
fn test_traveling_salesman() {
    let destinations = vec![1, 2, 3, 4, 5];
    let start = 0;
    let end = 6;

    // Works with references
    let compute_distance = |pair: (&&i32, &&i32)| pair.0.abs_diff(**pair.1);

    let result = traveling_salesman(
        destinations.iter().collect(),
        &start,
        &end,
        compute_distance,
    );
    assert_eq!(result, vec![&0, &1, &2, &3, &4, &5, &6]);
    // Works with owned values
    let compute_distance = |pair: (&i32, &i32)| pair.0.abs_diff(*pair.1);

    let result = traveling_salesman(destinations, start, end, compute_distance);
    assert_eq!(result, vec![0, 1, 2, 3, 4, 5, 6]);
}

/// The search over numbers matches the general search for a set of random
/// destinations.
#[test]
fn test_random_destinations_match_all() {
    for _ in 0..10 {
        let destinations = HashSet::<i32>::from_iter((1..=5).map(|_| rand::random::<i32>() % 100));

        let start = destinations.clone().into_iter().min().unwrap_or(0);
        let end = destinations.clone().into_iter().max().unwrap_or(1);

        let dv = destinations.clone().into_iter().collect::<Vec<_>>();
        let result = hand_rolled_traveling_salesman(&dv, &start, &end);

        let other_result =
            traveling_salesman(destinations.iter().collect(), &start, &end, |pair| {
                pair.0.abs_diff(**pair.1)
            });
        assert_eq!(result, other_result);
    }
}

#[test]
fn test_traveling_salesman_empty_destinations() {
    let destinations: Vec<i32> = vec![];
    let start = 0;
    let end = 1;

    let compute_distance = |pair: (&i32, &i32)| pair.0.abs_diff(*pair.1);

    let result = traveling_salesman(destinations, start, end, compute_distance);
    assert_eq!(result, vec![0, 1]);
}

#[test]
fn test_hand_rolled_traveling_salesman() {
    let destinations = vec![1, 2, 3, 4, 5];
    let start = 0;
    let end = 6;

    let result = hand_rolled_traveling_salesman(&destinations, &start, &end);
    assert_eq!(result, vec![&0, &1, &2, &3, &4, &5, &6]);
}

#[test]
fn hand_rolled_with_no_destination_goes_straight() {
    let destinations: Vec<i32> = vec![];
    let result = hand_rolled_traveling_salesman(&destinations, &7, &-3);
    assert_eq!(result, vec![&7, &-3]);
}

#[test]
fn single_destination_lies_between_start_and_end() {
    assert_eq!(traveling_salesman(vec![40], 1, 2, apart), vec![1, 40, 2]);
    assert_eq!(hand_rolled_traveling_salesman(&[40], &1, &2), vec![&1, &40, &2]);
}

#[test]
fn shuffled_destinations_come_out_in_the_shortest_order() {
    let result = traveling_salesman(vec![3, 1, 2], 0, 4, apart);
    assert_eq!(result, vec![0, 1, 2, 3, 4]);
    let result = hand_rolled_traveling_salesman(&[3, 1, 2], &0, &4);
    assert_eq!(result, vec![&0, &1, &2, &3, &4]);
}

#[test]
fn example_route_has_length_six() {
    let result = traveling_salesman(vec![1, 2, 3, 4, 5], 0, 6, apart);
    assert_eq!(result, vec![0, 1, 2, 3, 4, 5, 6]);
    assert_eq!(length_of(&result), 6);
}

#[test]
fn route_keeps_start_end_and_every_destination() {
    let destinations = vec![12, -4, 12, 30, 7, -4];
    let result = traveling_salesman(destinations.clone(), 5, -20, apart);
    assert_eq!(result.len(), destinations.len() + 2);
    assert_eq!(result[0], 5);
    assert_eq!(result[result.len() - 1], -20);
    let mut interior: Vec<i32> = result[1..result.len() - 1].to_vec();
    interior.sort();
    let mut expected = destinations.clone();
    expected.sort();
    assert_eq!(interior, expected);

    let fast = hand_rolled_traveling_salesman(&destinations, &5, &-20);
    assert_eq!(fast.len(), destinations.len() + 2);
    assert_eq!(*fast[0], 5);
    assert_eq!(*fast[fast.len() - 1], -20);
    let mut interior: Vec<i32> = fast[1..fast.len() - 1].iter().map(|stop| **stop).collect();
    interior.sort();
    assert_eq!(interior, expected);
}

#[test]
fn no_other_order_is_shorter() {
    let destinations = vec![9, -3, 14, 2, 8, -11];
    let start = 4;
    let end = 1;
    let result = traveling_salesman(destinations.clone(), start, end, apart);
    let best = length_of(&result);
    // 4 up to 14, down to -11, back up to 1
    assert_eq!(best, 10 + 25 + 12);
    let mut tried = 0;
    for order in destinations.iter().copied().permutations(destinations.len()) {
        let mut route = vec![start];
        route.extend(order);
        route.push(end);
        assert!(best <= length_of(&route));
        tried += 1;
    }
    assert_eq!(tried, 720);
}

#[test]
fn fast_path_route_is_as_long_as_the_general_one() {
    let cases: Vec<(Vec<i32>, i32, i32)> = vec![
        (vec![5, 5, 5], 5, 5),
        (vec![10, -10, 0, 3], -1, 2),
        (vec![7, 1, 7, 1], 4, 4),
        (vec![100, 50, 75, 25, 0], 60, 60),
        (vec![], 3, 9),
    ];
    for (destinations, start, end) in cases {
        let general = traveling_salesman(destinations.clone(), start, end, apart);
        let fast = hand_rolled_traveling_salesman(&destinations, &start, &end);
        let fast: Vec<i32> = fast.into_iter().copied().collect();
        assert_eq!(length_of(&general), length_of(&fast));
        assert_eq!(general, fast);
    }
}

#[test]
fn first_of_equally_short_orders_wins() {
    // both orders are equally long; the labels tell which one was kept
    let destinations = vec![("first", 5), ("second", 5)];
    let result = traveling_salesman(
        destinations,
        ("start", 0),
        ("end", 10),
        |pair: (&(&str, i32), &(&str, i32))| pair.0 .1.abs_diff(pair.1 .1),
    );
    let labels: Vec<&str> = result.iter().map(|stop| stop.0).collect();
    assert_eq!(labels, vec!["start", "first", "second", "end"]);

    let numbers = [5, 5];
    let fast = hand_rolled_traveling_salesman(&numbers, &0, &10);
    assert!(std::ptr::eq(fast[1], &numbers[0]));
    assert!(std::ptr::eq(fast[2], &numbers[1]));
}

#[test]
fn distance_need_not_be_symmetric() {
    // going down costs nothing, going up costs the climb
    let climb = |pair: (&i32, &i32)| -> u64 {
        if pair.1 > pair.0 {
            (pair.1 - pair.0) as u64
        } else {
            0
        }
    };
    let result = traveling_salesman(vec![10, 30, 20], 40, 0, climb);
    assert_eq!(result, vec![40, 30, 20, 10, 0]);
}

#[test]
fn destinations_that_cannot_be_copied_are_moved_into_the_route() {
    let destinations = vec![String::from("ccc"), String::from("a"), String::from("bb")];
    let by_length = |pair: (&String, &String)| pair.0.len().abs_diff(pair.1.len());
    let result = traveling_salesman(
        destinations,
        String::new(),
        String::from("dddd"),
        by_length,
    );
    assert_eq!(result, vec!["", "a", "bb", "ccc", "dddd"]);
}

#[test]
fn hand_rolled_adds_up_lengths_beyond_u32() {
    let destinations = [i32::MAX, i32::MIN];
    let order = vec![0, 1];
    let total = route_search::numbers::stretch_along(&destinations, &0, &0, &order);
    assert_eq!(total, 8589934590u128);
    let result = hand_rolled_traveling_salesman(&destinations, &0, &0);
    assert_eq!(result, vec![&0, &i32::MAX, &i32::MIN, &0]);
}

#[test]
fn stretch_along_follows_the_order() {
    let destinations = [10, 20, 30];
    assert_eq!(route_search::numbers::stretch_along(&destinations, &0, &40, &vec![0, 1, 2]), 40);
    assert_eq!(route_search::numbers::stretch_along(&destinations, &0, &40, &vec![2, 0, 1]), 80);
    assert_eq!(route_search::numbers::stretch_along(&destinations, &0, &40, &vec![1, 0, 2]), 60);
    assert_eq!(route_search::numbers::stretch_along(&destinations, &0, &40, &vec![]), 40);
    assert_eq!(route_search::numbers::stretch_along(&destinations, &-5, &-5, &vec![1]), 50);
}

#[test]
fn distance_along_follows_the_order() {
    let waypoints = vec![10, 20, 30];
    assert_eq!(distance_along(&waypoints, &0, &40, &vec![0, 1, 2], &apart), 40);
    assert_eq!(distance_along(&waypoints, &0, &40, &vec![2, 0, 1], &apart), 80);
    assert_eq!(distance_along(&waypoints, &0, &40, &vec![1, 0, 2], &apart), 60);
    let none: Vec<i32> = vec![];
    assert_eq!(distance_along(&none, &3, &10, &vec![], &apart), 7);
}

#[test]
fn assemble_route_takes_the_waypoints_in_order() {
    let waypoints = vec![String::from("x"), String::from("y"), String::from("z")];
    let route = assemble_route(waypoints, String::from("s"), String::from("e"), &vec![2, 0, 1]);
    assert_eq!(route, vec!["s", "z", "x", "y", "e"]);
    let route = assemble_route(Vec::<u8>::new(), 1, 2, &vec![]);
    assert_eq!(route, vec![1, 2]);
}

#[test]
fn keep_shorter_prefers_what_is_held_unless_strictly_shorter() {
    assert_eq!(keep_shorter(None, vec![1, 0], 9u32), (vec![1, 0], 9));
    assert_eq!(keep_shorter(Some((vec![0, 1], 9u32)), vec![1, 0], 9), (vec![0, 1], 9));
    assert_eq!(keep_shorter(Some((vec![0, 1], 9u32)), vec![1, 0], 8), (vec![1, 0], 8));
    assert_eq!(keep_shorter(Some((vec![0, 1], 9u32)), vec![1, 0], 10), (vec![0, 1], 9));
}
