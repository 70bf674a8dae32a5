use std::cell::Cell;
use try_all::{TryAll, TryMapAll, TryMapAllOption};

#[test]
fn test_try_all() {
    assert_eq!(vec![Some(0), Some(1), Some(2)].try_all(), Some(vec![0, 1, 2]));
    assert_eq!(vec![Some(0), None, Some(2)].try_all(), None);
    let taken: Vec<Result<i32, &str>> =
        vec![Ok(0), Ok(1), Ok(2), Err("no u!")].into_iter().take(3).collect();
    assert_eq!(taken.try_all(), Ok(vec![0, 1, 2]));
    assert_eq!(vec![Ok(0), Ok(1), Err("no u!")].try_all(), Err("no u!"));
    assert_eq!(vec![Err("me is 1st"), Ok(1), Err("no u!")].try_all(), Err("me is 1st"));
}

#[test]
fn test_try_map_all() {
    let taken: Vec<Result<i32, &str>> =
        vec![Ok(0), Ok(1), Ok(2), Err("no u!")].into_iter().take(3).collect();
    assert_eq!(taken.try_map_all(|i| i), Ok(vec![0, 1, 2]));
    assert_eq!(vec![Ok(0), Ok(1), Err("no u!")].try_map_all(|i| i), Err("no u!"));
    assert_eq!(vec![Err("me is 1st"), Ok(1), Err("no u!")].try_map_all(|i| i), Err("me is 1st"));
}

#[test]
fn test_try_map_all_opt() {
    assert_eq!(vec![Some(0), Some(1), Some(2)].try_map_all_opt(|i| i), Some(vec![0, 1, 2]));
    assert_eq!(vec![Some(0), None, Some(2)].try_map_all_opt(|i| i), None);
}

#[test]
fn empty_sequences_collect_to_empty() {
    let none: Vec<Option<u8>> = Vec::new();
    assert_eq!(none.try_all(), Some(Vec::new()));
    let results: Vec<Result<u8, String>> = Vec::new();
    assert_eq!(results.try_all(), Ok(Vec::new()));
    let plain: Vec<u8> = Vec::new();
    assert_eq!(plain.try_map_all(|x| Ok::<u8, ()>(x)), Ok(Vec::new()));
}

#[test]
fn all_successes_keep_order() {
    let v: Vec<Result<u32, ()>> = vec![Ok(5), Ok(3), Ok(9), Ok(3)];
    assert_eq!(v.try_all(), Ok(vec![5, 3, 9, 3]));
}

#[test]
fn lowest_failure_wins_among_many() {
    let v: Vec<Result<u32, &str>> = vec![Ok(1), Ok(2), Err("second"), Err("third"), Ok(4)];
    assert_eq!(v.try_all(), Err("second"));
}

#[test]
fn mapping_stops_at_first_failure() {
    let calls = Cell::new(0u32);
    let r = vec![1u32, 2, 0, 4, 5].try_map_all(|x| {
        calls.set(calls.get() + 1);
        if x == 0 { Err(x) } else { Ok(x * 10) }
    });
    assert_eq!(r, Err(0));
    assert_eq!(calls.get(), 3);
}

#[test]
fn mapping_opt_stops_at_first_absent() {
    let calls = Cell::new(0u32);
    let r = vec![3u32, 0, 7].try_map_all_opt(|x| {
        calls.set(calls.get() + 1);
        if x > 0 { Some(x) } else { None }
    });
    assert_eq!(r, None);
    assert_eq!(calls.get(), 2);
}

#[test]
fn mapping_agrees_with_collecting_mapped() {
    let f = |x: i32| if x % 2 == 0 { Ok(x / 2) } else { Err(x) };
    let input = vec![4, 8, 3, 6, 5];
    let mapped: Vec<Result<i32, i32>> = input.iter().map(|x| f(*x)).collect();
    assert_eq!(input.try_map_all(f), mapped.try_all());
    let input2 = vec![2, 4, 6];
    let mapped2: Vec<Result<i32, i32>> = input2.iter().map(|x| f(*x)).collect();
    assert_eq!(input2.try_map_all(f), Ok(vec![1, 2, 3]));
    assert_eq!(mapped2.try_all(), Ok(vec![1, 2, 3]));
}

#[test]
fn collecting_again_gives_same_sequence() {
    let first = vec![Some(7u8), Some(1), Some(4)].try_all().unwrap();
    let again: Vec<Option<u8>> = first.iter().map(|x| Some(*x)).collect();
    assert_eq!(again.try_all(), Some(first.clone()));
    assert_eq!(first, vec![7, 1, 4]);
}

#[test]
fn map_opt_positive_only() {
    let positive = |i: u64| if i > 0 { Some(i) } else { None };
    assert_eq!(vec![1u64, 2, 3].try_map_all_opt(positive), Some(vec![1, 2, 3]));
    assert_eq!(vec![0u64, 1, 2].try_map_all_opt(positive), None);
}
