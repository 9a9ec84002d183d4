use buldak::bogo;
use buldak::error::SortError;
use buldak::sleep;

#[test]
fn bogo_is_sorted_by() {
    let cmp = |l: &i32, r: &i32| l.cmp(r);
    assert!(bogo::is_sorted_by(&[1, 2, 2, 5], &cmp));
    assert!(!bogo::is_sorted_by(&[1, 3, 2], &cmp));
    assert!(bogo::is_sorted_by(&[] as &[i32], &cmp));
}

#[test]
fn bogo_sorted_input_untouched() {
    let cmp = |l: &i32, r: &i32| l.cmp(r);
    let mut v = vec![1, 2, 3];
    assert!(bogo::shuffle_unless_sorted(&mut v, &cmp));
    assert_eq!(v, vec![1, 2, 3]);
}

#[test]
fn bogo_steps_reach_order() {
    let cmp = |l: &i32, r: &i32| l.cmp(r);
    let mut v = vec![5, 4, 3, 2, 1];
    let mut rounds = 0;
    while !bogo::shuffle_unless_sorted(&mut v, &cmp) {
        rounds += 1;
        let mut seen = v.clone();
        seen.sort();
        assert_eq!(seen, vec![1, 2, 3, 4, 5]);
    }
    assert!(rounds > 0);
    assert_eq!(v, vec![1, 2, 3, 4, 5]);
}

#[test]
fn sleep_delays() {
    assert_eq!(sleep::delays(&[3, 0, 7]), Ok(vec![3, 0, 7]));
    assert_eq!(sleep::delays(&[3, -1, 7]), Err(SortError::Negative));
}

#[test]
fn sleep_place() {
    let finished = vec![1isize, 2, 3];
    let mut a = vec![0isize; 3];
    sleep::place(&mut a, &finished, true);
    assert_eq!(a, vec![1, 2, 3]);
    sleep::place(&mut a, &finished, false);
    assert_eq!(a, vec![3, 2, 1]);
}
