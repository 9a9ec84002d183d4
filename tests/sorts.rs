use buldak::{
    binary_insertion, cocktail_shaker, cycle, heap, insertion, merge, pancake, radix, selection,
    smart_bubble, stalin,
};

#[test]
fn binary_insertion_sort_ascending() {
    let mut actual: Vec<i32> = vec![1, 4, 2, 3, 5, 111, 234, 21, 13];
    binary_insertion::sort(&mut actual);
    assert_eq!(actual, vec![1, 2, 3, 4, 5, 13, 21, 111, 234]);
}

#[test]
fn binary_insertion_sort_descending() {
    let mut actual: Vec<i32> = vec![1, 4, 2, 3, 5, 111, 234, 21, 13];
    binary_insertion::sort_reverse(&mut actual);
    assert_eq!(actual, vec![234, 111, 21, 13, 5, 4, 3, 2, 1]);
}

#[test]
fn cocktail_shaker_sort_ascending() {
    let mut actual: Vec<i32> = vec![1, 4, 2, 3, 5, 111, 234, 21, 13];
    cocktail_shaker::sort(&mut actual);
    assert_eq!(actual, vec![1, 2, 3, 4, 5, 13, 21, 111, 234]);
}

#[test]
fn cocktail_shaker_sort_descending() {
    let mut actual: Vec<i32> = vec![1, 4, 2, 3, 5, 111, 234, 21, 13];
    cocktail_shaker::sort_reverse(&mut actual);
    assert_eq!(actual, vec![234, 111, 21, 13, 5, 4, 3, 2, 1]);
}

#[test]
fn heap_sort_ascending() {
    let mut actual: Vec<i32> = vec![1, 4, 2, 3, 5, 111, 234, 21, 13];
    heap::sort(&mut actual);
    assert_eq!(actual, vec![1, 2, 3, 4, 5, 13, 21, 111, 234]);
}

#[test]
fn heap_sort_descending() {
    let mut actual: Vec<i32> = vec![1, 4, 2, 3, 5, 111, 234, 21, 13];
    heap::sort_reverse(&mut actual);
    assert_eq!(actual, vec![234, 111, 21, 13, 5, 4, 3, 2, 1]);
}

#[test]
fn insertion_sort_ascending() {
    let mut actual: Vec<i32> = vec![1, 4, 2, 3, 5, 111, 234, 21, 13];
    insertion::sort(&mut actual);
    assert_eq!(actual, vec![1, 2, 3, 4, 5, 13, 21, 111, 234]);
}

#[test]
fn insertion_sort_descending() {
    let mut actual: Vec<i32> = vec![1, 4, 2, 3, 5, 111, 234, 21, 13];
    insertion::sort_reverse(&mut actual);
    assert_eq!(actual, vec![234, 111, 21, 13, 5, 4, 3, 2, 1]);
}

#[test]
fn merge_sort_ascending() {
    let mut actual: Vec<i32> = vec![1, 4, 2, 3, 5, 111, 234, 21, 13];
    merge::sort(&mut actual);
    assert_eq!(actual, vec![1, 2, 3, 4, 5, 13, 21, 111, 234]);
}

#[test]
fn merge_sort_descending() {
    let mut actual: Vec<i32> = vec![1, 4, 2, 3, 5, 111, 234, 21, 13];
    merge::sort_reverse(&mut actual);
    assert_eq!(actual, vec![234, 111, 21, 13, 5, 4, 3, 2, 1]);
}

#[test]
fn pancake_sort_ascending() {
    let mut actual: Vec<i32> = vec![1, 4, 2, 3, 5, 111, 234, 21, 13];
    pancake::sort(&mut actual);
    assert_eq!(actual, vec![1, 2, 3, 4, 5, 13, 21, 111, 234]);
}

#[test]
fn pancake_sort_descending() {
    let mut actual: Vec<i32> = vec![1, 4, 2, 3, 5, 111, 234, 21, 13];
    pancake::sort_reverse(&mut actual);
    assert_eq!(actual, vec![234, 111, 21, 13, 5, 4, 3, 2, 1]);
}

#[test]
fn selection_sort_ascending() {
    let mut actual: Vec<i32> = vec![1, 4, 2, 3, 5, 111, 234, 21, 13];
    selection::sort(&mut actual);
    assert_eq!(actual, vec![1, 2, 3, 4, 5, 13, 21, 111, 234]);
}

#[test]
fn selection_sort_descending() {
    let mut actual: Vec<i32> = vec![1, 4, 2, 3, 5, 111, 234, 21, 13];
    selection::sort_reverse(&mut actual);
    assert_eq!(actual, vec![234, 111, 21, 13, 5, 4, 3, 2, 1]);
}

#[test]
fn smart_bubble_sort_ascending() {
    let mut actual: Vec<i32> = vec![1, 4, 2, 3, 5, 111, 234, 21, 13];
    smart_bubble::sort(&mut actual);
    assert_eq!(actual, vec![1, 2, 3, 4, 5, 13, 21, 111, 234]);
}

#[test]
fn smart_bubble_sort_descending() {
    let mut actual: Vec<i32> = vec![1, 4, 2, 3, 5, 111, 234, 21, 13];
    smart_bubble::sort_reverse(&mut actual);
    assert_eq!(actual, vec![234, 111, 21, 13, 5, 4, 3, 2, 1]);
}

#[test]
fn radix_sort_ascending() {
    let mut actual: Vec<isize> = vec![1, 4, 2, 3, 5, 111, 234, 21, 13];
    radix::sort(&mut actual, 10).unwrap();
    assert_eq!(actual, vec![1, 2, 3, 4, 5, 13, 21, 111, 234]);
}

#[test]
fn radix_sort_descending() {
    let mut actual: Vec<isize> = vec![1, 4, 2, 3, 5, 111, 234, 21, 13];
    radix::sort_reverse(&mut actual, 10).unwrap();
    assert_eq!(actual, vec![234, 111, 21, 13, 5, 4, 3, 2, 1]);
}

#[test]
fn stalin_sort_ascending() {
    let mut actual: Vec<i32> = vec![1, 4, 2, 3, 5, 111, 234, 21, 13];
    stalin::sort(&mut actual);
    assert_eq!(actual, vec![1, 4, 5, 111, 234]);
}

#[test]
fn stalin_sort_descending() {
    let mut actual: Vec<i32> = vec![1, 4, 2, 3, 5, 111, 234, 21, 13];
    stalin::sort_reverse(&mut actual);
    assert_eq!(actual, vec![1]);
}

#[test]
fn cycle_sort_ascending() {
    let mut actual: Vec<i32> = vec![1, 4, 2, 3, 5, 111, 234, 21, 13];
    cycle::sort(&mut actual);
    assert_eq!(actual, vec![1, 2, 3, 4, 5, 13, 21, 111, 234]);
}

#[test]
fn cycle_sort_descending() {
    let mut actual: Vec<i32> = vec![1, 4, 2, 3, 5, 111, 234, 21, 13];
    cycle::sort_reverse(&mut actual);
    assert_eq!(actual, vec![234, 111, 21, 13, 5, 4, 3, 2, 1]);
}
