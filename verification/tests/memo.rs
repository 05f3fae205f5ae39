use route_search::cached_fn;
use std::cell::Cell;

#[test]
fn test_cached_fn() {
    let call_count = std::cell::Cell::new(0);
    let f = |x: i32| {
        call_count.set(call_count.get() + 1);
        x * 2
    };
    let mut cached_f = cached_fn(f);

    assert_eq!(cached_f.call(5), 10);
    assert_eq!(cached_f.call(5), 10); // Second call uses cache
    assert_eq!(call_count.get(), 1); // Verify f was only called once
}

#[test]
fn new_evaluator_remembers_nothing() {
    let cached = cached_fn(|x: u8| x);
    assert_eq!(cached.len(), 0);
    assert!(!cached.is_cached(&0));
}

#[test]
fn each_distinct_input_is_evaluated_once() {
    let calls = Cell::new(0u32);
    let mut square = cached_fn(|x: i64| {
        calls.set(calls.get() + 1);
        x * x
    });
    for _ in 0..3 {
        assert_eq!(square.call(4), 16);
        assert_eq!(square.call(-4), 16);
        assert_eq!(square.call(0), 0);
    }
    assert_eq!(calls.get(), 3);
    assert_eq!(square.len(), 3);
    assert!(square.is_cached(&4));
    assert!(square.is_cached(&-4));
    assert!(square.is_cached(&0));
    assert!(!square.is_cached(&16));
}

#[test]
fn repeated_call_answers_from_memory() {
    // a function that would answer differently the second time
    let calls = Cell::new(0u32);
    let mut counted = cached_fn(|x: u32| {
        calls.set(calls.get() + 1);
        x + calls.get()
    });
    let first = counted.call(10);
    let second = counted.call(10);
    assert_eq!(first, 11);
    assert_eq!(second, first);
    assert_eq!(calls.get(), 1);
}

#[test]
fn both_directions_of_a_pair_are_remembered() {
    let calls = Cell::new(0u32);
    let mut apart = cached_fn(|pair: (i32, i32)| {
        calls.set(calls.get() + 1);
        pair.0.abs_diff(pair.1)
    });
    assert_eq!(apart.call((3, 8)), 5);
    assert_eq!(calls.get(), 1);
    assert!(apart.is_cached(&(3, 8)));
    assert!(!apart.is_cached(&(8, 3)));
    assert_eq!(apart.call((8, 3)), 5);
    assert_eq!(calls.get(), 2);
    assert_eq!(apart.len(), 2);
    assert!(apart.is_cached(&(3, 8)));
    assert!(apart.is_cached(&(8, 3)));
    assert_eq!(apart.call((3, 8)), 5);
    assert_eq!(apart.call((8, 3)), 5);
    assert_eq!(calls.get(), 2);
    assert_eq!(apart.len(), 2);
}

#[test]
fn evaluator_measures_the_legs_of_a_search_once_each() {
    let calls = Cell::new(0u32);
    let memo = std::cell::RefCell::new(cached_fn(|pair: (i32, i32)| {
        calls.set(calls.get() + 1);
        pair.0.abs_diff(pair.1)
    }));
    let route = route_search::traveling_salesman(vec![3, 1, 2], 0, 4, |pair: (&i32, &i32)| {
        memo.borrow_mut().call((*pair.0, *pair.1))
    });
    assert_eq!(route, vec![0, 1, 2, 3, 4]);
    // start to each, each to each other, each to end
    assert_eq!(calls.get(), 3 + 6 + 3);
    assert_eq!(memo.borrow().len(), 12);
}
