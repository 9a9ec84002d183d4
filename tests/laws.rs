use buldak::{
    binary_insertion, bubble, cocktail_shaker, comb, cycle, double_selection, gnome, heap,
    insertion, intro, merge, oddeven, pancake, quick, selection, shell, smart_bubble, stooge, tim,
};

fn sample() -> Vec<i32> {
    vec![9, -3, 9, 0, 17, 4, 4, -8, 2, 11, 0, 5]
}

fn sorted_copy() -> Vec<i32> {
    let mut v = sample();
    v.sort();
    v
}

#[test]
fn every_sort_orders_neighbours_and_is_idempotent() {
    let sorts: Vec<fn(&mut [i32])> = vec![
        binary_insertion::sort,
        bubble::sort,
        cocktail_shaker::sort,
        comb::sort,
        cycle::sort,
        double_selection::sort,
        gnome::sort,
        heap::sort,
        insertion::sort,
        intro::sort,
        merge::sort,
        oddeven::sort,
        pancake::sort,
        quick::sort,
        selection::sort,
        shell::sort,
        smart_bubble::sort,
        stooge::sort,
        tim::sort,
    ];
    for sort in sorts {
        let mut v = sample();
        sort(&mut v);
        assert!(v.windows(2).all(|w| w[0] <= w[1]));
        assert_eq!(v, sorted_copy());
        let once = v.clone();
        sort(&mut v);
        assert_eq!(v, once);
    }
}

#[test]
fn every_reverse_sort_is_the_reverse() {
    let sorts: Vec<fn(&mut [i32])> = vec![
        binary_insertion::sort_reverse,
        bubble::sort_reverse,
        cocktail_shaker::sort_reverse,
        comb::sort_reverse,
        cycle::sort_reverse,
        double_selection::sort_reverse,
        gnome::sort_reverse,
        heap::sort_reverse,
        insertion::sort_reverse,
        intro::sort_reverse,
        merge::sort_reverse,
        oddeven::sort_reverse,
        pancake::sort_reverse,
        quick::sort_reverse,
        selection::sort_reverse,
        shell::sort_reverse,
        smart_bubble::sort_reverse,
        stooge::sort_reverse,
        tim::sort_reverse,
    ];
    let mut expected = sorted_copy();
    expected.reverse();
    for sort in sorts {
        let mut v = sample();
        sort(&mut v);
        assert_eq!(v, expected);
    }
}

#[test]
fn stable_sort_twice_keeps_ties() {
    let keyed = vec![(2, 'a'), (1, 'b'), (2, 'c'), (1, 'd')];
    let by_key = |l: &(i32, char), r: &(i32, char)| l.0.cmp(&r.0);
    let mut v = keyed.clone();
    merge::sort_by(&mut v, by_key);
    let once = v.clone();
    merge::sort_by(&mut v, by_key);
    assert_eq!(v, once);
    assert_eq!(v, vec![(1, 'b'), (1, 'd'), (2, 'a'), (2, 'c')]);
}

#[test]
fn intro_sort_long_input_uses_every_phase() {
    let mut v: Vec<i64> = (0..2000).map(|i: i64| (i * 104729) % 1013).collect();
    let mut expected = v.clone();
    expected.sort();
    intro::sort(&mut v);
    assert_eq!(v, expected);
    let mut w: Vec<i64> = (0..500).collect();
    intro::sort_reverse(&mut w);
    let desc: Vec<i64> = (0..500).rev().collect();
    assert_eq!(w, desc);
}
