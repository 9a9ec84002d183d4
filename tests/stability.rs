use buldak::{bubble, cocktail_shaker, gnome, insertion, merge, smart_bubble, tim};

fn keyed() -> Vec<(i32, char)> {
    vec![(3, 'a'), (1, 'b'), (3, 'c'), (2, 'd'), (1, 'e'), (3, 'f'), (2, 'g')]
}

fn expected() -> Vec<(i32, char)> {
    vec![(1, 'b'), (1, 'e'), (2, 'd'), (2, 'g'), (3, 'a'), (3, 'c'), (3, 'f')]
}

#[test]
fn bubble_is_stable() {
    let mut v = keyed();
    bubble::sort_by(&mut v, |l: &(i32, char), r: &(i32, char)| l.0.cmp(&r.0));
    assert_eq!(v, expected());
}

#[test]
fn smart_bubble_is_stable() {
    let mut v = keyed();
    smart_bubble::sort_by(&mut v, |l: &(i32, char), r: &(i32, char)| l.0.cmp(&r.0));
    assert_eq!(v, expected());
}

#[test]
fn cocktail_shaker_is_stable() {
    let mut v = keyed();
    cocktail_shaker::sort_by(&mut v, |l: &(i32, char), r: &(i32, char)| l.0.cmp(&r.0));
    assert_eq!(v, expected());
}

#[test]
fn insertion_is_stable() {
    let mut v = keyed();
    insertion::sort_by(&mut v, |l: &(i32, char), r: &(i32, char)| l.0.cmp(&r.0));
    assert_eq!(v, expected());
}

#[test]
fn merge_is_stable() {
    let mut v = keyed();
    merge::sort_by(&mut v, |l: &(i32, char), r: &(i32, char)| l.0.cmp(&r.0));
    assert_eq!(v, expected());
}

#[test]
fn gnome_is_stable() {
    let mut v = keyed();
    gnome::sort_by(&mut v, |l: &(i32, char), r: &(i32, char)| l.0.cmp(&r.0));
    assert_eq!(v, expected());
}

#[test]
fn tim_is_stable() {
    let mut v = keyed();
    tim::sort_by(&mut v, |l: &(i32, char), r: &(i32, char)| l.0.cmp(&r.0));
    assert_eq!(v, expected());
}

#[test]
fn tim_is_stable_across_runs() {
    let mut v: Vec<(i32, usize)> = (0..200).map(|i: usize| (((i * 37) % 7) as i32, i)).collect();
    tim::sort_by(&mut v, |l: &(i32, usize), r: &(i32, usize)| l.0.cmp(&r.0));
    for w in v.windows(2) {
        assert!(w[0].0 < w[1].0 || (w[0].0 == w[1].0 && w[0].1 < w[1].1));
    }
}

#[test]
fn merge_is_stable_at_scale() {
    let mut v: Vec<(i32, usize)> = (0..200).map(|i: usize| (((i * 37) % 7) as i32, i)).collect();
    merge::sort_by(&mut v, |l: &(i32, usize), r: &(i32, usize)| l.0.cmp(&r.0));
    for w in v.windows(2) {
        assert!(w[0].0 < w[1].0 || (w[0].0 == w[1].0 && w[0].1 < w[1].1));
    }
}

#[test]
fn binary_insertion_is_stable() {
    let mut v = keyed();
    buldak::binary_insertion::sort_by(&mut v, |l: &(i32, char), r: &(i32, char)| l.0.cmp(&r.0));
    assert_eq!(v, expected());
}

#[test]
fn oddeven_is_stable() {
    let mut v = keyed();
    buldak::oddeven::sort_by(&mut v, |l: &(i32, char), r: &(i32, char)| l.0.cmp(&r.0));
    assert_eq!(v, expected());
}
