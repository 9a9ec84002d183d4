use buldak::error::SortError;
use buldak::{
    bitonic, comb, cycle, double_selection, gnome, oddeven, stooge, tim,
    binary_insertion, bubble, cocktail_shaker, heap, insertion, intro, merge, pancake, quick,
    selection, shell, smart_bubble,
};

#[test]
fn binary_insertion_sort_by_ascending() {
    let mut actual: Vec<i32> = vec![1, 4, 2, 3, 5, 111, 234, 21, 13];
    binary_insertion::sort_by(&mut actual, |l: &i32, r: &i32| l.cmp(r));
    assert_eq!(actual, vec![1, 2, 3, 4, 5, 13, 21, 111, 234]);
}

#[test]
fn binary_insertion_empty_and_singleton() {
    let mut empty: Vec<i32> = vec![];
    binary_insertion::sort(&mut empty);
    assert_eq!(empty, Vec::<i32>::new());
    let mut one: Vec<i32> = vec![7];
    binary_insertion::sort_reverse(&mut one);
    assert_eq!(one, vec![7]);
}

#[test]
fn binary_insertion_large_with_duplicates() {
    let mut actual: Vec<i64> = (0..200).map(|i: i64| (i * 7919) % 101 - 50).collect();
    let mut expected = actual.clone();
    expected.sort();
    binary_insertion::sort(&mut actual);
    assert_eq!(actual, expected);
    binary_insertion::sort(&mut actual);
    assert_eq!(actual, expected);
    expected.reverse();
    binary_insertion::sort_reverse(&mut actual);
    assert_eq!(actual, expected);
}

#[test]
fn bubble_sort_by_ascending() {
    let mut actual: Vec<i32> = vec![1, 4, 2, 3, 5, 111, 234, 21, 13];
    bubble::sort_by(&mut actual, |l: &i32, r: &i32| l.cmp(r));
    assert_eq!(actual, vec![1, 2, 3, 4, 5, 13, 21, 111, 234]);
}

#[test]
fn bubble_empty_and_singleton() {
    let mut empty: Vec<i32> = vec![];
    bubble::sort(&mut empty);
    assert_eq!(empty, Vec::<i32>::new());
    let mut one: Vec<i32> = vec![7];
    bubble::sort_reverse(&mut one);
    assert_eq!(one, vec![7]);
}

#[test]
fn bubble_large_with_duplicates() {
    let mut actual: Vec<i64> = (0..200).map(|i: i64| (i * 7919) % 101 - 50).collect();
    let mut expected = actual.clone();
    expected.sort();
    bubble::sort(&mut actual);
    assert_eq!(actual, expected);
    bubble::sort(&mut actual);
    assert_eq!(actual, expected);
    expected.reverse();
    bubble::sort_reverse(&mut actual);
    assert_eq!(actual, expected);
}

#[test]
fn cocktail_shaker_sort_by_ascending() {
    let mut actual: Vec<i32> = vec![1, 4, 2, 3, 5, 111, 234, 21, 13];
    cocktail_shaker::sort_by(&mut actual, |l: &i32, r: &i32| l.cmp(r));
    assert_eq!(actual, vec![1, 2, 3, 4, 5, 13, 21, 111, 234]);
}

#[test]
fn cocktail_shaker_empty_and_singleton() {
    let mut empty: Vec<i32> = vec![];
    cocktail_shaker::sort(&mut empty);
    assert_eq!(empty, Vec::<i32>::new());
    let mut one: Vec<i32> = vec![7];
    cocktail_shaker::sort_reverse(&mut one);
    assert_eq!(one, vec![7]);
}

#[test]
fn cocktail_shaker_large_with_duplicates() {
    let mut actual: Vec<i64> = (0..200).map(|i: i64| (i * 7919) % 101 - 50).collect();
    let mut expected = actual.clone();
    expected.sort();
    cocktail_shaker::sort(&mut actual);
    assert_eq!(actual, expected);
    cocktail_shaker::sort(&mut actual);
    assert_eq!(actual, expected);
    expected.reverse();
    cocktail_shaker::sort_reverse(&mut actual);
    assert_eq!(actual, expected);
}

#[test]
fn heap_sort_by_ascending() {
    let mut actual: Vec<i32> = vec![1, 4, 2, 3, 5, 111, 234, 21, 13];
    heap::sort_by(&mut actual, |l: &i32, r: &i32| l.cmp(r));
    assert_eq!(actual, vec![1, 2, 3, 4, 5, 13, 21, 111, 234]);
}

#[test]
fn heap_empty_and_singleton() {
    let mut empty: Vec<i32> = vec![];
    heap::sort(&mut empty);
    assert_eq!(empty, Vec::<i32>::new());
    let mut one: Vec<i32> = vec![7];
    heap::sort_reverse(&mut one);
    assert_eq!(one, vec![7]);
}

#[test]
fn heap_large_with_duplicates() {
    let mut actual: Vec<i64> = (0..200).map(|i: i64| (i * 7919) % 101 - 50).collect();
    let mut expected = actual.clone();
    expected.sort();
    heap::sort(&mut actual);
    assert_eq!(actual, expected);
    heap::sort(&mut actual);
    assert_eq!(actual, expected);
    expected.reverse();
    heap::sort_reverse(&mut actual);
    assert_eq!(actual, expected);
}

#[test]
fn insertion_sort_by_ascending() {
    let mut actual: Vec<i32> = vec![1, 4, 2, 3, 5, 111, 234, 21, 13];
    insertion::sort_by(&mut actual, |l: &i32, r: &i32| l.cmp(r));
    assert_eq!(actual, vec![1, 2, 3, 4, 5, 13, 21, 111, 234]);
}

#[test]
fn insertion_empty_and_singleton() {
    let mut empty: Vec<i32> = vec![];
    insertion::sort(&mut empty);
    assert_eq!(empty, Vec::<i32>::new());
    let mut one: Vec<i32> = vec![7];
    insertion::sort_reverse(&mut one);
    assert_eq!(one, vec![7]);
}

#[test]
fn insertion_large_with_duplicates() {
    let mut actual: Vec<i64> = (0..200).map(|i: i64| (i * 7919) % 101 - 50).collect();
    let mut expected = actual.clone();
    expected.sort();
    insertion::sort(&mut actual);
    assert_eq!(actual, expected);
    insertion::sort(&mut actual);
    assert_eq!(actual, expected);
    expected.reverse();
    insertion::sort_reverse(&mut actual);
    assert_eq!(actual, expected);
}

#[test]
fn intro_sort_by_ascending() {
    let mut actual: Vec<i32> = vec![1, 4, 2, 3, 5, 111, 234, 21, 13];
    intro::sort_by(&mut actual, |l: &i32, r: &i32| l.cmp(r));
    assert_eq!(actual, vec![1, 2, 3, 4, 5, 13, 21, 111, 234]);
}

#[test]
fn intro_empty_and_singleton() {
    let mut empty: Vec<i32> = vec![];
    intro::sort(&mut empty);
    assert_eq!(empty, Vec::<i32>::new());
    let mut one: Vec<i32> = vec![7];
    intro::sort_reverse(&mut one);
    assert_eq!(one, vec![7]);
}

#[test]
fn intro_large_with_duplicates() {
    let mut actual: Vec<i64> = (0..200).map(|i: i64| (i * 7919) % 101 - 50).collect();
    let mut expected = actual.clone();
    expected.sort();
    intro::sort(&mut actual);
    assert_eq!(actual, expected);
    intro::sort(&mut actual);
    assert_eq!(actual, expected);
    expected.reverse();
    intro::sort_reverse(&mut actual);
    assert_eq!(actual, expected);
}

#[test]
fn merge_sort_by_ascending() {
    let mut actual: Vec<i32> = vec![1, 4, 2, 3, 5, 111, 234, 21, 13];
    merge::sort_by(&mut actual, |l: &i32, r: &i32| l.cmp(r));
    assert_eq!(actual, vec![1, 2, 3, 4, 5, 13, 21, 111, 234]);
}

#[test]
fn merge_empty_and_singleton() {
    let mut empty: Vec<i32> = vec![];
    merge::sort(&mut empty);
    assert_eq!(empty, Vec::<i32>::new());
    let mut one: Vec<i32> = vec![7];
    merge::sort_reverse(&mut one);
    assert_eq!(one, vec![7]);
}

#[test]
fn merge_large_with_duplicates() {
    let mut actual: Vec<i64> = (0..200).map(|i: i64| (i * 7919) % 101 - 50).collect();
    let mut expected = actual.clone();
    expected.sort();
    merge::sort(&mut actual);
    assert_eq!(actual, expected);
    merge::sort(&mut actual);
    assert_eq!(actual, expected);
    expected.reverse();
    merge::sort_reverse(&mut actual);
    assert_eq!(actual, expected);
}

#[test]
fn pancake_sort_by_ascending() {
    let mut actual: Vec<i32> = vec![1, 4, 2, 3, 5, 111, 234, 21, 13];
    pancake::sort_by(&mut actual, |l: &i32, r: &i32| l.cmp(r));
    assert_eq!(actual, vec![1, 2, 3, 4, 5, 13, 21, 111, 234]);
}

#[test]
fn pancake_empty_and_singleton() {
    let mut empty: Vec<i32> = vec![];
    pancake::sort(&mut empty);
    assert_eq!(empty, Vec::<i32>::new());
    let mut one: Vec<i32> = vec![7];
    pancake::sort_reverse(&mut one);
    assert_eq!(one, vec![7]);
}

#[test]
fn pancake_large_with_duplicates() {
    let mut actual: Vec<i64> = (0..200).map(|i: i64| (i * 7919) % 101 - 50).collect();
    let mut expected = actual.clone();
    expected.sort();
    pancake::sort(&mut actual);
    assert_eq!(actual, expected);
    pancake::sort(&mut actual);
    assert_eq!(actual, expected);
    expected.reverse();
    pancake::sort_reverse(&mut actual);
    assert_eq!(actual, expected);
}

#[test]
fn quick_sort_by_ascending() {
    let mut actual: Vec<i32> = vec![1, 4, 2, 3, 5, 111, 234, 21, 13];
    quick::sort_by(&mut actual, |l: &i32, r: &i32| l.cmp(r));
    assert_eq!(actual, vec![1, 2, 3, 4, 5, 13, 21, 111, 234]);
}

#[test]
fn quick_empty_and_singleton() {
    let mut empty: Vec<i32> = vec![];
    quick::sort(&mut empty);
    assert_eq!(empty, Vec::<i32>::new());
    let mut one: Vec<i32> = vec![7];
    quick::sort_reverse(&mut one);
    assert_eq!(one, vec![7]);
}

#[test]
fn quick_large_with_duplicates() {
    let mut actual: Vec<i64> = (0..200).map(|i: i64| (i * 7919) % 101 - 50).collect();
    let mut expected = actual.clone();
    expected.sort();
    quick::sort(&mut actual);
    assert_eq!(actual, expected);
    quick::sort(&mut actual);
    assert_eq!(actual, expected);
    expected.reverse();
    quick::sort_reverse(&mut actual);
    assert_eq!(actual, expected);
}

#[test]
fn selection_sort_by_ascending() {
    let mut actual: Vec<i32> = vec![1, 4, 2, 3, 5, 111, 234, 21, 13];
    selection::sort_by(&mut actual, |l: &i32, r: &i32| l.cmp(r));
    assert_eq!(actual, vec![1, 2, 3, 4, 5, 13, 21, 111, 234]);
}

#[test]
fn selection_empty_and_singleton() {
    let mut empty: Vec<i32> = vec![];
    selection::sort(&mut empty);
    assert_eq!(empty, Vec::<i32>::new());
    let mut one: Vec<i32> = vec![7];
    selection::sort_reverse(&mut one);
    assert_eq!(one, vec![7]);
}

#[test]
fn selection_large_with_duplicates() {
    let mut actual: Vec<i64> = (0..200).map(|i: i64| (i * 7919) % 101 - 50).collect();
    let mut expected = actual.clone();
    expected.sort();
    selection::sort(&mut actual);
    assert_eq!(actual, expected);
    selection::sort(&mut actual);
    assert_eq!(actual, expected);
    expected.reverse();
    selection::sort_reverse(&mut actual);
    assert_eq!(actual, expected);
}

#[test]
fn shell_sort_by_ascending() {
    let mut actual: Vec<i32> = vec![1, 4, 2, 3, 5, 111, 234, 21, 13];
    shell::sort_by(&mut actual, |l: &i32, r: &i32| l.cmp(r));
    assert_eq!(actual, vec![1, 2, 3, 4, 5, 13, 21, 111, 234]);
}

#[test]
fn shell_empty_and_singleton() {
    let mut empty: Vec<i32> = vec![];
    shell::sort(&mut empty);
    assert_eq!(empty, Vec::<i32>::new());
    let mut one: Vec<i32> = vec![7];
    shell::sort_reverse(&mut one);
    assert_eq!(one, vec![7]);
}

#[test]
fn shell_large_with_duplicates() {
    let mut actual: Vec<i64> = (0..200).map(|i: i64| (i * 7919) % 101 - 50).collect();
    let mut expected = actual.clone();
    expected.sort();
    shell::sort(&mut actual);
    assert_eq!(actual, expected);
    shell::sort(&mut actual);
    assert_eq!(actual, expected);
    expected.reverse();
    shell::sort_reverse(&mut actual);
    assert_eq!(actual, expected);
}

#[test]
fn smart_bubble_sort_by_ascending() {
    let mut actual: Vec<i32> = vec![1, 4, 2, 3, 5, 111, 234, 21, 13];
    smart_bubble::sort_by(&mut actual, |l: &i32, r: &i32| l.cmp(r));
    assert_eq!(actual, vec![1, 2, 3, 4, 5, 13, 21, 111, 234]);
}

#[test]
fn smart_bubble_empty_and_singleton() {
    let mut empty: Vec<i32> = vec![];
    smart_bubble::sort(&mut empty);
    assert_eq!(empty, Vec::<i32>::new());
    let mut one: Vec<i32> = vec![7];
    smart_bubble::sort_reverse(&mut one);
    assert_eq!(one, vec![7]);
}

#[test]
fn smart_bubble_large_with_duplicates() {
    let mut actual: Vec<i64> = (0..200).map(|i: i64| (i * 7919) % 101 - 50).collect();
    let mut expected = actual.clone();
    expected.sort();
    smart_bubble::sort(&mut actual);
    assert_eq!(actual, expected);
    smart_bubble::sort(&mut actual);
    assert_eq!(actual, expected);
    expected.reverse();
    smart_bubble::sort_reverse(&mut actual);
    assert_eq!(actual, expected);
}

#[test]
fn gnome_sort_ascending_scenario() {
    let mut actual: Vec<i32> = vec![1, 4, 2, 3, 5, 111, 234, 21, 13];
    gnome::sort(&mut actual);
    assert_eq!(actual, vec![1, 2, 3, 4, 5, 13, 21, 111, 234]);
}

#[test]
fn gnome_sort_by_ascending() {
    let mut actual: Vec<i32> = vec![1, 4, 2, 3, 5, 111, 234, 21, 13];
    gnome::sort_by(&mut actual, |l: &i32, r: &i32| l.cmp(r));
    assert_eq!(actual, vec![1, 2, 3, 4, 5, 13, 21, 111, 234]);
}

#[test]
fn gnome_empty_and_singleton() {
    let mut empty: Vec<i32> = vec![];
    gnome::sort(&mut empty);
    assert_eq!(empty, Vec::<i32>::new());
    let mut one: Vec<i32> = vec![7];
    gnome::sort_reverse(&mut one);
    assert_eq!(one, vec![7]);
}

#[test]
fn gnome_large_with_duplicates() {
    let mut actual: Vec<i64> = (0..300).map(|i: i64| (i * 7919) % 101 - 50).collect();
    let mut expected = actual.clone();
    expected.sort();
    gnome::sort(&mut actual);
    assert_eq!(actual, expected);
    expected.reverse();
    gnome::sort_reverse(&mut actual);
    assert_eq!(actual, expected);
}

#[test]
fn comb_sort_ascending_scenario() {
    let mut actual: Vec<i32> = vec![1, 4, 2, 3, 5, 111, 234, 21, 13];
    comb::sort(&mut actual);
    assert_eq!(actual, vec![1, 2, 3, 4, 5, 13, 21, 111, 234]);
}

#[test]
fn comb_sort_by_ascending() {
    let mut actual: Vec<i32> = vec![1, 4, 2, 3, 5, 111, 234, 21, 13];
    comb::sort_by(&mut actual, |l: &i32, r: &i32| l.cmp(r));
    assert_eq!(actual, vec![1, 2, 3, 4, 5, 13, 21, 111, 234]);
}

#[test]
fn comb_empty_and_singleton() {
    let mut empty: Vec<i32> = vec![];
    comb::sort(&mut empty);
    assert_eq!(empty, Vec::<i32>::new());
    let mut one: Vec<i32> = vec![7];
    comb::sort_reverse(&mut one);
    assert_eq!(one, vec![7]);
}

#[test]
fn comb_large_with_duplicates() {
    let mut actual: Vec<i64> = (0..300).map(|i: i64| (i * 7919) % 101 - 50).collect();
    let mut expected = actual.clone();
    expected.sort();
    comb::sort(&mut actual);
    assert_eq!(actual, expected);
    expected.reverse();
    comb::sort_reverse(&mut actual);
    assert_eq!(actual, expected);
}

#[test]
fn tim_sort_ascending_scenario() {
    let mut actual: Vec<i32> = vec![1, 4, 2, 3, 5, 111, 234, 21, 13];
    tim::sort(&mut actual);
    assert_eq!(actual, vec![1, 2, 3, 4, 5, 13, 21, 111, 234]);
}

#[test]
fn tim_sort_by_ascending() {
    let mut actual: Vec<i32> = vec![1, 4, 2, 3, 5, 111, 234, 21, 13];
    tim::sort_by(&mut actual, |l: &i32, r: &i32| l.cmp(r));
    assert_eq!(actual, vec![1, 2, 3, 4, 5, 13, 21, 111, 234]);
}

#[test]
fn tim_empty_and_singleton() {
    let mut empty: Vec<i32> = vec![];
    tim::sort(&mut empty);
    assert_eq!(empty, Vec::<i32>::new());
    let mut one: Vec<i32> = vec![7];
    tim::sort_reverse(&mut one);
    assert_eq!(one, vec![7]);
}

#[test]
fn tim_large_with_duplicates() {
    let mut actual: Vec<i64> = (0..300).map(|i: i64| (i * 7919) % 101 - 50).collect();
    let mut expected = actual.clone();
    expected.sort();
    tim::sort(&mut actual);
    assert_eq!(actual, expected);
    expected.reverse();
    tim::sort_reverse(&mut actual);
    assert_eq!(actual, expected);
}

#[test]
fn cycle_sort_by_ascending() {
    let mut actual: Vec<i32> = vec![1, 4, 2, 3, 5, 111, 234, 21, 13];
    cycle::sort_by(&mut actual, |l: &i32, r: &i32| l.cmp(r));
    assert_eq!(actual, vec![1, 2, 3, 4, 5, 13, 21, 111, 234]);
}

#[test]
fn cycle_empty_and_singleton() {
    let mut empty: Vec<i32> = vec![];
    cycle::sort(&mut empty);
    assert_eq!(empty, Vec::<i32>::new());
    let mut one: Vec<i32> = vec![7];
    cycle::sort_reverse(&mut one);
    assert_eq!(one, vec![7]);
}

#[test]
fn cycle_large_with_duplicates() {
    let mut actual: Vec<i64> = (0..300).map(|i: i64| (i * 7919) % 101 - 50).collect();
    let mut expected = actual.clone();
    expected.sort();
    cycle::sort(&mut actual);
    assert_eq!(actual, expected);
    expected.reverse();
    cycle::sort_reverse(&mut actual);
    assert_eq!(actual, expected);
}

#[test]
fn cycle_all_equal() {
    let mut v: Vec<i32> = vec![4; 9];
    cycle::sort(&mut v);
    assert_eq!(v, vec![4; 9]);
}

#[test]
fn stooge_sort_scenarios() {
    let mut actual: Vec<i32> = vec![1, 4, 2, 3, 5, 111, 234, 21, 13];
    stooge::sort(&mut actual);
    assert_eq!(actual, vec![1, 2, 3, 4, 5, 13, 21, 111, 234]);
    let mut actual: Vec<i32> = vec![1, 4, 2, 3, 5, 111, 234, 21, 13];
    stooge::sort_reverse(&mut actual);
    assert_eq!(actual, vec![234, 111, 21, 13, 5, 4, 3, 2, 1]);
    let mut actual: Vec<i32> = vec![1, 4, 2, 3, 5, 111, 234, 21, 13];
    stooge::sort_by(&mut actual, |l: &i32, r: &i32| l.cmp(r));
    assert_eq!(actual, vec![1, 2, 3, 4, 5, 13, 21, 111, 234]);
}

#[test]
fn stooge_empty_and_singleton() {
    let mut empty: Vec<i32> = vec![];
    stooge::sort(&mut empty);
    assert_eq!(empty, Vec::<i32>::new());
    let mut one: Vec<i32> = vec![7];
    stooge::sort_reverse(&mut one);
    assert_eq!(one, vec![7]);
}

#[test]
fn stooge_with_duplicates() {
    for n in 0..40i64 {
        let mut actual: Vec<i64> = (0..n).map(|i: i64| (i * 7919) % 11 - 5).collect();
        let mut expected = actual.clone();
        expected.sort();
        stooge::sort(&mut actual);
        assert_eq!(actual, expected);
        expected.reverse();
        stooge::sort_reverse(&mut actual);
        assert_eq!(actual, expected);
    }
}

#[test]
fn double_selection_sort_scenarios() {
    let mut actual: Vec<i32> = vec![1, 4, 2, 3, 5, 111, 234, 21, 13];
    double_selection::sort(&mut actual);
    assert_eq!(actual, vec![1, 2, 3, 4, 5, 13, 21, 111, 234]);
    let mut actual: Vec<i32> = vec![1, 4, 2, 3, 5, 111, 234, 21, 13];
    double_selection::sort_reverse(&mut actual);
    assert_eq!(actual, vec![234, 111, 21, 13, 5, 4, 3, 2, 1]);
    let mut actual: Vec<i32> = vec![1, 4, 2, 3, 5, 111, 234, 21, 13];
    double_selection::sort_by(&mut actual, |l: &i32, r: &i32| l.cmp(r));
    assert_eq!(actual, vec![1, 2, 3, 4, 5, 13, 21, 111, 234]);
}

#[test]
fn double_selection_empty_and_singleton() {
    let mut empty: Vec<i32> = vec![];
    double_selection::sort(&mut empty);
    assert_eq!(empty, Vec::<i32>::new());
    let mut one: Vec<i32> = vec![7];
    double_selection::sort_reverse(&mut one);
    assert_eq!(one, vec![7]);
}

#[test]
fn double_selection_with_duplicates() {
    for n in 0..40i64 {
        let mut actual: Vec<i64> = (0..n).map(|i: i64| (i * 7919) % 11 - 5).collect();
        let mut expected = actual.clone();
        expected.sort();
        double_selection::sort(&mut actual);
        assert_eq!(actual, expected);
        expected.reverse();
        double_selection::sort_reverse(&mut actual);
        assert_eq!(actual, expected);
    }
}

#[test]
fn bitonic_rejects_length_nine() {
    let mut actual: Vec<i32> = vec![1, 4, 2, 3, 5, 111, 234, 21, 13];
    assert_eq!(bitonic::sort(&mut actual), Err(SortError::NotPowerOfTwo));
    assert_eq!(actual, vec![1, 4, 2, 3, 5, 111, 234, 21, 13]);
    assert_eq!(bitonic::sort_reverse(&mut actual), Err(SortError::NotPowerOfTwo));
}

#[test]
fn bitonic_sorts_length_eight() {
    let mut actual: Vec<i32> = vec![1, 4, 2, 3, 5, 111, 234, 21];
    assert_eq!(bitonic::sort(&mut actual), Ok(()));
    assert_eq!(actual, vec![1, 2, 3, 4, 5, 21, 111, 234]);
    assert_eq!(bitonic::sort_reverse(&mut actual), Ok(()));
    assert_eq!(actual, vec![234, 111, 21, 5, 4, 3, 2, 1]);
    let mut by: Vec<i32> = vec![7, 7, 1, 0];
    assert_eq!(bitonic::sort_by(&mut by, |l: &i32, r: &i32| l.cmp(r)), Ok(()));
    assert_eq!(by, vec![0, 1, 7, 7]);
}

#[test]
fn bitonic_small_and_large_powers() {
    let mut empty: Vec<i32> = vec![];
    assert_eq!(bitonic::sort(&mut empty), Ok(()));
    let mut one = vec![3];
    assert_eq!(bitonic::sort(&mut one), Ok(()));
    assert_eq!(one, vec![3]);
    let mut v: Vec<i64> = (0..256).map(|i: i64| (i * 7919) % 97 - 40).collect();
    let mut expected = v.clone();
    expected.sort();
    assert_eq!(bitonic::sort(&mut v), Ok(()));
    assert_eq!(v, expected);
    let mut w = vec![1, 2, 3];
    assert_eq!(bitonic::sort(&mut w), Err(SortError::NotPowerOfTwo));
}

#[test]
fn oddeven_sort_scenarios() {
    let mut actual: Vec<i32> = vec![1, 4, 2, 3, 5, 111, 234, 21, 13];
    oddeven::sort(&mut actual);
    assert_eq!(actual, vec![1, 2, 3, 4, 5, 13, 21, 111, 234]);
    let mut actual: Vec<i32> = vec![1, 4, 2, 3, 5, 111, 234, 21, 13];
    oddeven::sort_reverse(&mut actual);
    assert_eq!(actual, vec![234, 111, 21, 13, 5, 4, 3, 2, 1]);
    let mut actual: Vec<i32> = vec![1, 4, 2, 3, 5, 111, 234, 21, 13];
    oddeven::sort_by(&mut actual, |l: &i32, r: &i32| l.cmp(r));
    assert_eq!(actual, vec![1, 2, 3, 4, 5, 13, 21, 111, 234]);
}

#[test]
fn oddeven_edges_and_duplicates() {
    let mut empty: Vec<i32> = vec![];
    oddeven::sort(&mut empty);
    assert!(empty.is_empty());
    let mut one = vec![5];
    oddeven::sort(&mut one);
    assert_eq!(one, vec![5]);
    for n in 0..40i64 {
        let mut v: Vec<i64> = (0..n).map(|i: i64| (i * 7919) % 13 - 6).collect();
        let mut expected = v.clone();
        expected.sort();
        oddeven::sort(&mut v);
        assert_eq!(v, expected);
    }
}
