use idos_task::sort::{bsearch, qsort};

fn ascending(a: &i32, b: &i32) -> i32 {
    if a < b {
        -1
    } else if a > b {
        1
    } else {
        0
    }
}

#[test]
fn qsort_orders_integers() {
    let mut v = vec![5, 3, 9, 1, 3, 7, 0];
    qsort(&mut v, ascending);
    assert_eq!(v, vec![0, 1, 3, 3, 5, 7, 9]);
}

#[test]
fn qsort_follows_the_comparison_given() {
    let mut v = vec![2, 8, 4, 6];
    qsort(&mut v, |a: &i32, b: &i32| ascending(b, a));
    assert_eq!(v, vec![8, 6, 4, 2]);
}

#[test]
fn qsort_keeps_equal_elements_in_order() {
    // Sort pairs by their first field only: insertion keeps equal keys where they were.
    let mut v = vec![(2, 'a'), (1, 'b'), (2, 'c'), (1, 'd')];
    qsort(&mut v, |x: &(i32, char), y: &(i32, char)| ascending(&x.0, &y.0));
    assert_eq!(v, vec![(1, 'b'), (1, 'd'), (2, 'a'), (2, 'c')]);
}

#[test]
fn qsort_leaves_short_slices_alone() {
    let mut empty: Vec<i32> = vec![];
    qsort(&mut empty, ascending);
    assert!(empty.is_empty());
    let mut one = vec![42];
    qsort(&mut one, ascending);
    assert_eq!(one, vec![42]);
}

#[test]
fn bsearch_finds_present_keys() {
    let v = vec![1, 3, 5, 7, 9, 11];
    for (i, k) in v.iter().enumerate() {
        assert_eq!(bsearch(k, &v, ascending), Some(i));
    }
}

#[test]
fn bsearch_misses_absent_keys() {
    let v = vec![1, 3, 5, 7, 9, 11];
    assert_eq!(bsearch(&0, &v, ascending), None);
    assert_eq!(bsearch(&4, &v, ascending), None);
    assert_eq!(bsearch(&12, &v, ascending), None);
    let empty: Vec<i32> = vec![];
    assert_eq!(bsearch(&1, &empty, ascending), None);
}

#[test]
fn sorted_then_searched() {
    let mut v = vec![40, 10, 30, 20];
    qsort(&mut v, ascending);
    assert_eq!(bsearch(&30, &v, ascending), Some(2));
}
