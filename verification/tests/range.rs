use doco::range::Range;

fn intervals(r: &Range) -> Vec<(i64, i64)> {
    r.get_ranges().clone()
}

#[test]
fn test_empty_difference() {
    let r1 = Range::from(3, 1); // empty range
    let r2 = Range::from(4, 6);
    let test1 = r1.difference(&r2);
    assert_eq!(Vec::<(i64, i64)>::new(), intervals(&test1));
    let test2 = r2.difference(&r1);
    assert_eq!(vec![(4, 6)], intervals(&test2));
}

#[test]
fn test_disjoint_difference() {
    let r1 = Range::from(1, 3);
    let r2 = Range::from(4, 6);
    let test1 = r1.difference(&r2);
    assert_eq!(vec![(1, 3)], intervals(&test1));
    let test2 = r2.difference(&r1);
    assert_eq!(vec![(4, 6)], intervals(&test2));
}

#[test]
fn test_overlapping_difference() {
    let r1 = Range::from(1, 4);
    let r2 = Range::from(3, 6);
    let test1 = r1.difference(&r2);
    assert_eq!(vec![(1, 2)], intervals(&test1));
    let test2 = r2.difference(&r1);
    assert_eq!(vec![(5, 6)], intervals(&test2));
}

#[test]
fn test_complex_overlapping_difference() {
    let r1 = Range::from(1, 10);
    let r2 = Range::from(2, 4)
        .union(&Range::from(5, 7))
        .union(&Range::from(8, 9));
    let test1 = r1.difference(&r2);
    assert_eq!(vec![(1, 1), (10, 10)], intervals(&test1));
    let test2 = r2.difference(&r1);
    assert_eq!(Vec::<(i64, i64)>::new(), intervals(&test2));
}

#[test]
fn test_contained_difference() {
    let r1 = Range::from(1, 6);
    let r2 = Range::from(3, 4);
    let test1 = r1.difference(&r2);
    assert_eq!(vec![(1, 2), (5, 6)], intervals(&test1));
    let test2 = r2.difference(&r1);
    assert_eq!(Vec::<(i64, i64)>::new(), intervals(&test2));
}

#[test]
fn test_complex_difference() {
    let r1 = Range::from(1, 4).union(&Range::from(5, 7));
    let r2 = Range::from(3, 6).union(&Range::from(7, 8));
    let test1 = r1.difference(&r2);
    assert_eq!(vec![(1, 2)], intervals(&test1));
    let test2 = r2.difference(&r1);
    assert_eq!(vec![(8, 8)], intervals(&test2));
}

#[test]
fn test_empty_union() {
    let r1 = Range::from(3, 1); // empty range
    let r2 = Range::from(4, 6);
    let test1 = r1.union(&r2);
    assert_eq!(vec![(4, 6)], intervals(&test1));
    let test2 = r2.union(&r1);
    assert_eq!(vec![(4, 6)], intervals(&test2));
}

// 3 and 4 are neighbours, so the two intervals touch and become one.
#[test]
fn test_disjoint_union() {
    let r1 = Range::from(1, 3);
    let r2 = Range::from(4, 6);
    let test1 = r1.union(&r2);
    assert_eq!(vec![(1, 6)], intervals(&test1));
    let test2 = r2.union(&r1);
    assert_eq!(vec![(1, 6)], intervals(&test2));
}

#[test]
fn test_overlapping_union() {
    let r1 = Range::from(1, 4);
    let r2 = Range::from(3, 6);
    let test1 = r1.union(&r2);
    assert_eq!(vec![(1, 6)], intervals(&test1));
    let test2 = r2.union(&r1);
    assert_eq!(vec![(1, 6)], intervals(&test2));
}

#[test]
fn test_complex_overlapping_union() {
    let r1 = Range::from(1, 10);
    let r2 = Range::from(2, 4)
        .union(&Range::from(5, 7))
        .union(&Range::from(8, 9));
    let test1 = r1.union(&r2);
    assert_eq!(vec![(1, 10)], intervals(&test1));
    let test2 = r2.union(&r1);
    assert_eq!(vec![(1, 10)], intervals(&test2));
}

#[test]
fn test_contained_union() {
    let r1 = Range::from(1, 6);
    let r2 = Range::from(3, 4);
    let test1 = r1.union(&r2);
    assert_eq!(vec![(1, 6)], intervals(&test1));
    let test2 = r2.union(&r1);
    assert_eq!(vec![(1, 6)], intervals(&test2));
}

#[test]
fn test_complex_union() {
    let r1 = Range::from(1, 4).union(&Range::from(5, 7));
    let r2 = Range::from(3, 6).union(&Range::from(7, 8));
    let test1 = r1.union(&r2);
    assert_eq!(vec![(1, 8)], intervals(&test1));
    let test2 = r2.union(&r1);
    assert_eq!(vec![(1, 8)], intervals(&test2));
}

#[test]
fn test_empty_intersection() {
    let r1 = Range::from(3, 1); // empty range
    let r2 = Range::from(4, 6);
    let test1 = r1.intersect(&r2);
    assert_eq!(Vec::<(i64, i64)>::new(), intervals(&test1));
    let test2 = r2.intersect(&r1);
    assert_eq!(Vec::<(i64, i64)>::new(), intervals(&test2));
}

#[test]
fn test_disjoint_intersection() {
    let r1 = Range::from(1, 3);
    let r2 = Range::from(4, 6);
    let test1 = r1.intersect(&r2);
    assert_eq!(Vec::<(i64, i64)>::new(), intervals(&test1));
    let test2 = r2.intersect(&r1);
    assert_eq!(Vec::<(i64, i64)>::new(), intervals(&test2));
}

#[test]
fn test_overlapping_intersection() {
    let r1 = Range::from(1, 4);
    let r2 = Range::from(3, 6);
    let test1 = r1.intersect(&r2);
    assert_eq!(vec![(3, 4)], intervals(&test1));
    let test2 = r2.intersect(&r1);
    assert_eq!(vec![(3, 4)], intervals(&test2));
}

// The operands are built from intervals that touch: they are [1, 9] and
// [2, 10], and what they share is one interval.
#[test]
fn test_complex_overlapping_intersection() {
    let r1 = Range::from(1, 6).union(&Range::from(7, 9));
    let r2 = Range::from(2, 4)
        .union(&Range::from(5, 8))
        .union(&Range::from(9, 10));
    assert_eq!(vec![(1, 9)], intervals(&r1));
    assert_eq!(vec![(2, 10)], intervals(&r2));
    let test1 = r1.intersect(&r2);
    assert_eq!(vec![(2, 9)], intervals(&test1));
    let test2 = r2.intersect(&r1);
    assert_eq!(vec![(2, 9)], intervals(&test2));
}

#[test]
fn test_contained_intersection() {
    let r1 = Range::from(1, 6);
    let r2 = Range::from(3, 4);
    let test1 = r1.intersect(&r2);
    assert_eq!(vec![(3, 4)], intervals(&test1));
    let test2 = r2.intersect(&r1);
    assert_eq!(vec![(3, 4)], intervals(&test2));
}

// The operands are [1, 7] and [3, 8]: their parts touch.
#[test]
fn test_complex_intersection() {
    let r1 = Range::from(1, 4).union(&Range::from(5, 7));
    let r2 = Range::from(3, 6).union(&Range::from(7, 8));
    let test1 = r1.intersect(&r2);
    assert_eq!(vec![(3, 7)], intervals(&test1));
    let test2 = r2.intersect(&r1);
    assert_eq!(vec![(3, 7)], intervals(&test2));
}

fn build(parts: &[(i64, i64)]) -> Range {
    let mut r = Range::from(1, 0);
    for &(l, u) in parts {
        r = r.union(&Range::from(l, u));
    }
    r
}

fn well_formed(r: &Range) -> bool {
    let v = r.get_ranges();
    v.iter().all(|&(l, u)| l <= u)
        && v.windows(2).all(|w| (w[0].1 as i128) + 1 < w[1].0 as i128)
}

fn samples() -> Vec<Range> {
    vec![
        build(&[]),
        build(&[(0, 0)]),
        build(&[(-5, 5)]),
        build(&[(1, 3), (5, 9), (20, 30)]),
        build(&[(2, 4), (10, 25)]),
        build(&[(i64::MIN, -100), (100, i64::MAX)]),
        build(&[(i64::MIN, i64::MAX)]),
        build(&[(i64::MAX, i64::MAX)]),
        build(&[(i64::MIN, i64::MIN), (0, 0), (i64::MAX - 1, i64::MAX)]),
        build(&[(-3, -1), (1, 1), (3, 3), (5, 5), (7, 100)]),
    ]
}

#[test]
fn from_gives_one_interval_or_none() {
    assert_eq!(vec![(2, 7)], intervals(&Range::from(2, 7)));
    assert_eq!(vec![(4, 4)], intervals(&Range::from(4, 4)));
    assert_eq!(Vec::<(i64, i64)>::new(), intervals(&Range::from(5, 4)));
}

#[test]
fn union_and_intersect_are_commutative() {
    for a in samples() {
        for b in samples() {
            assert_eq!(a.union(&b), b.union(&a));
            assert_eq!(a.intersect(&b), b.intersect(&a));
        }
    }
}

#[test]
fn operations_on_a_set_and_itself() {
    for a in samples() {
        assert_eq!(a, a.intersect(&a));
        assert_eq!(a, a.union(&a));
        assert!(a.difference(&a).get_ranges().is_empty());
    }
}

#[test]
fn union_without_the_rest_is_the_first_set() {
    for a in samples() {
        for b in samples() {
            let left = a.union(&b).difference(&b.difference(&a));
            let right = a.difference(&b).union(&a.intersect(&b));
            assert_eq!(left, right);
            assert_eq!(left, a);
        }
    }
}

#[test]
fn results_are_sorted_and_apart() {
    for a in samples() {
        for b in samples() {
            assert!(well_formed(&a.union(&b)));
            assert!(well_formed(&a.intersect(&b)));
            assert!(well_formed(&a.difference(&b)));
        }
    }
}

#[test]
fn results_hold_the_right_values() {
    let probes: Vec<i64> = vec![
        i64::MIN, i64::MIN + 1, -101, -100, -99, -6, -5, -4, -1, 0, 1, 2, 3, 4, 5, 6, 9, 10, 11,
        19, 20, 25, 26, 30, 31, 99, 100, 101, i64::MAX - 2, i64::MAX - 1, i64::MAX,
    ];
    let has = |r: &Range, x: i64| r.get_ranges().iter().any(|&(l, u)| l <= x && x <= u);
    for a in samples() {
        for b in samples() {
            let u = a.union(&b);
            let i = a.intersect(&b);
            let d = a.difference(&b);
            for &x in &probes {
                assert_eq!(has(&u, x), has(&a, x) || has(&b, x));
                assert_eq!(has(&i, x), has(&a, x) && has(&b, x));
                assert_eq!(has(&d, x), has(&a, x) && !has(&b, x));
            }
        }
    }
}

#[test]
fn difference_splits_and_carries() {
    let a = build(&[(0, 100)]);
    let b = build(&[(10, 20), (30, 40), (50, 60)]);
    assert_eq!(vec![(0, 9), (21, 29), (41, 49), (61, 100)], intervals(&a.difference(&b)));
    let c = build(&[(0, 5), (10, 15)]);
    let d = build(&[(5, 10)]);
    assert_eq!(vec![(0, 4), (11, 15)], intervals(&c.difference(&d)));
}

#[test]
fn difference_at_the_upper_end_of_the_integers() {
    let a = build(&[(10, i64::MAX)]);
    let b = build(&[(20, i64::MAX)]);
    assert_eq!(vec![(10, 19)], intervals(&a.difference(&b)));
    let c = build(&[(i64::MAX, i64::MAX)]);
    assert_eq!(Vec::<(i64, i64)>::new(), intervals(&c.difference(&b)));
    assert_eq!(vec![(10, i64::MAX - 1)], intervals(&a.difference(&c)));
}

#[test]
fn union_at_the_upper_end_of_the_integers() {
    let a = build(&[(i64::MAX - 1, i64::MAX)]);
    let b = build(&[(i64::MAX, i64::MAX)]);
    assert_eq!(vec![(i64::MAX - 1, i64::MAX)], intervals(&a.union(&b)));
    let c = build(&[(i64::MIN, i64::MAX - 2)]);
    assert_eq!(vec![(i64::MIN, i64::MAX)], intervals(&c.union(&a)));
}

#[test]
fn clone_keeps_the_intervals() {
    let a = build(&[(1, 3), (5, 9)]);
    assert_eq!(a, a.clone());
}
