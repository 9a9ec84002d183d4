use buldak::counting;
use buldak::error::SortError;
use buldak::radix;
use buldak::stalin;

#[test]
fn counting_signed_auto_bound() {
    let mut v: Vec<isize> = vec![1, 4, 2, 3, 5, -44, 111, 234, 21, 13];
    counting::sort(&mut v).unwrap();
    assert_eq!(v, vec![-44, 1, 2, 3, 4, 5, 13, 21, 111, 234]);
}

#[test]
fn counting_signed_descending() {
    let mut v: Vec<isize> = vec![1, 4, 2, 3, 5, -44, 111, 234, 21, 13, 0, -1];
    counting::sort_reverse(&mut v).unwrap();
    assert_eq!(v, vec![234, 111, 21, 13, 5, 4, 3, 2, 1, 0, -1, -44]);
}

#[test]
fn counting_exact_bound_succeeds() {
    let mut v: Vec<isize> = vec![5, -3, 0, 2, -5];
    assert_eq!(counting::sort_within(&mut v, 5, true, true), Ok(()));
    assert_eq!(v, vec![-5, -3, 0, 2, 5]);
}

#[test]
fn counting_bound_below_maximum_fails() {
    let mut v: Vec<isize> = vec![5, -3, 0, 2, -5];
    assert_eq!(counting::sort_within(&mut v, 4, true, true), Err(SortError::OutOfRange));
    assert_eq!(v, vec![5, -3, 0, 2, -5]);
}

#[test]
fn counting_unsigned_rejects_negative() {
    let mut v: Vec<isize> = vec![5, -3, 0, 2];
    assert_eq!(counting::sort_within(&mut v, 9, true, false), Err(SortError::Negative));
    assert_eq!(v, vec![5, -3, 0, 2]);
}

#[test]
fn counting_first_refusal_wins() {
    let mut v: Vec<isize> = vec![-1, 50];
    assert_eq!(counting::sort_within(&mut v, 9, true, false), Err(SortError::Negative));
    let mut w: Vec<isize> = vec![50, -1];
    assert_eq!(counting::sort_within(&mut w, 9, true, false), Err(SortError::OutOfRange));
}

#[test]
fn counting_unsigned_descending() {
    let mut v: Vec<isize> = vec![3, 0, 7, 3];
    assert_eq!(counting::sort_within(&mut v, 7, false, false), Ok(()));
    assert_eq!(v, vec![7, 3, 3, 0]);
}

#[test]
fn counting_rejects_minimum() {
    let mut v: Vec<isize> = vec![1, isize::MIN];
    assert_eq!(counting::sort(&mut v), Err(SortError::OutOfRange));
    assert_eq!(v, vec![1, isize::MIN]);
}

#[test]
fn counting_empty() {
    let mut v: Vec<isize> = vec![];
    assert_eq!(counting::sort(&mut v), Ok(()));
    assert!(v.is_empty());
}

#[test]
fn radix_with_negative() {
    let mut v: Vec<isize> = vec![1, 4, 2, 3, 5, 111, -33, 234, 21, 13];
    radix::sort(&mut v, 10).unwrap();
    assert_eq!(v, vec![-33, 1, 2, 3, 4, 5, 13, 21, 111, 234]);
}

#[test]
fn radix_several_negative_magnitudes() {
    let mut v: Vec<isize> = vec![-4, -33, 7, 0, -100, 1000, -1];
    radix::sort(&mut v, 10).unwrap();
    assert_eq!(v, vec![-100, -33, -4, -1, 0, 7, 1000]);
    radix::sort_reverse(&mut v, 2).unwrap();
    assert_eq!(v, vec![1000, 7, 0, -1, -4, -33, -100]);
}

#[test]
fn radix_extremes() {
    let mut v: Vec<isize> = vec![isize::MAX, isize::MIN, 0, -1, 1];
    radix::sort(&mut v, 16).unwrap();
    assert_eq!(v, vec![isize::MIN, -1, 0, 1, isize::MAX]);
}

#[test]
fn stalin_scenario() {
    let mut v = vec![1, 4, 2, 3, 5, 11, 23, 21, 13, 0];
    stalin::sort(&mut v);
    assert_eq!(v, vec![1, 4, 5, 11, 23]);
}

#[test]
fn stalin_empty_and_equal() {
    let mut v: Vec<i32> = vec![];
    stalin::sort(&mut v);
    assert!(v.is_empty());
    let mut w = vec![2, 2, 1, 2];
    stalin::sort(&mut w);
    assert_eq!(w, vec![2, 2, 2]);
    let mut x = vec![3, 1, 3, 2, 0];
    stalin::sort_by(&mut x, |l: &i32, r: &i32| r.cmp(l));
    assert_eq!(x, vec![3, 1, 0]);
}

#[test]
fn gravity_ascending() {
    let mut v: Vec<isize> = vec![1, 4, 2, 3, 5, 111, 234, 21, 13];
    buldak::gravity::sort(&mut v).unwrap();
    assert_eq!(v, vec![1, 2, 3, 4, 5, 13, 21, 111, 234]);
}

#[test]
fn gravity_descending_with_zero_and_ties() {
    let mut v: Vec<isize> = vec![3, 0, 7, 3, 1];
    buldak::gravity::sort_reverse(&mut v).unwrap();
    assert_eq!(v, vec![7, 3, 3, 1, 0]);
}

#[test]
fn gravity_rejects_negative() {
    let mut v: Vec<isize> = vec![3, -2, 1];
    assert_eq!(buldak::gravity::sort(&mut v), Err(SortError::Negative));
    assert_eq!(v, vec![3, -2, 1]);
}

#[test]
fn gravity_rejects_oversized_grid() {
    let mut v: Vec<isize> = vec![isize::MAX, isize::MAX, 1];
    assert_eq!(buldak::gravity::sort(&mut v), Err(SortError::OutOfRange));
    assert_eq!(v, vec![isize::MAX, isize::MAX, 1]);
}

#[test]
fn gravity_empty_and_zeros() {
    let mut v: Vec<isize> = vec![];
    assert_eq!(buldak::gravity::sort(&mut v), Ok(()));
    let mut z: Vec<isize> = vec![0, 0];
    assert_eq!(buldak::gravity::sort(&mut z), Ok(()));
    assert_eq!(z, vec![0, 0]);
}
