use rlike::types::{Agg, Do, NumBits, RLike, ToRL, ToRLVec, wrap_option_vec};

#[test]
fn agg_counts_and_sums() {
    assert!(Agg::has_data(vec![1, 2]));
    assert!(!Agg::has_data(Vec::<i32>::new()));
    assert_eq!(Agg::count(vec![5, 6, 7]), 3);
    assert_eq!(Agg::true_count(vec![true, false, true, true]), 3);
    assert_eq!(Agg::sum(vec![1i32, 2, 3, -4]), 2);
    assert_eq!(Agg::sum_into::<i32, i64>(vec![i32::MAX, i32::MAX]), 2 * (i32::MAX as i64));
}

#[test]
fn agg_first_last_min_max() {
    assert_eq!(Agg::first(vec![4, 9, 1]), 4);
    assert_eq!(Agg::last(vec![4, 9, 1]), 1);
    assert_eq!(Agg::min(vec![4i32, -9, 1]), -9);
    assert_eq!(Agg::max(vec![4usize, 9, 1]), 9);
}

#[test]
fn do_na_handling() {
    let x = vec![Some(1i32), None, Some(3)];
    assert_eq!(Do::na_rm(&x), vec![1, 3]);
    let mut y = x.clone();
    Do::na_replace(&mut y, 0);
    assert_eq!(y, vec![Some(1), Some(0), Some(3)]);
    assert_eq!(Do::has_data(&x), vec![Some(true)]);
    assert_eq!(Do::has_data(&[None::<i32>]), vec![Some(false)]);
    assert_eq!(Do::count(&x), vec![Some(2)]);
}

#[test]
fn do_aggregates() {
    let b = vec![Some(true), None, Some(false), Some(true)];
    assert_eq!(Do::true_count(&b), vec![Some(2)]);
    assert_eq!(Do::true_count(&[None::<bool>]), vec![None]);
    let x = vec![Some(1i32), None, Some(3)];
    assert_eq!(Do::sum(&x), vec![Some(4)]);
    assert_eq!(Do::sum(&[None::<i32>]), vec![None]);
    assert_eq!(Do::sum_into::<i32, i64>(&x), vec![Some(4i64)]);
}

#[test]
fn do_running_sums() {
    let x = vec![Some(1i32), None, Some(3), Some(-2)];
    assert_eq!(Do::cumsum(&x), vec![Some(1), None, Some(4), Some(2)]);
    assert_eq!(Do::cumsum_into::<i32, i64>(&x), vec![Some(1i64), None, Some(4), Some(2)]);
}

#[test]
fn do_add_pairs() {
    let x = vec![Some(1i32), None, Some(3)];
    let y = vec![Some(10i32), Some(20), Some(30), Some(40)];
    assert_eq!(Do::add(&x, &y), vec![Some(11), None, Some(33)]);
}

#[test]
fn rlike_values() {
    let a: Option<i32> = <Option<i32> as RLike>::from_inner(5);
    assert_eq!(a, Some(5));
    assert_eq!(RLike::to_string(&a), "5");
    assert_eq!(RLike::to_string(&None::<i32>), "NA");
    assert_eq!(RLike::to_inner(&None::<i32>), 0);
    assert!(RLike::is_na(&None::<usize>));
    assert_eq!(RLike::to_string(&Some(true)), "true");
    assert_eq!(RLike::to_string(&Some(-12i32)), "-12");
    assert_eq!(RLike::to_inner(&None::<String>), "NA");
    assert!(<Option<bool> as RLike>::default().is_none());
}

#[test]
fn to_rl_conversions() {
    assert_eq!(15i32.to_rl(), Some(15));
    assert_eq!("abc".to_rl(), Some("abc".to_string()));
    assert_eq!(vec![1i32, 2, 3].to_rl(), vec![Some(1), Some(2), Some(3)]);
    assert_eq!(vec!["a", "b"].to_rl(), vec![Some("a".to_string()), Some("b".to_string())]);
    assert_eq!(wrap_option_vec(&vec![true, false]), vec![Some(true), Some(false)]);
    assert_eq!(NumBits(7).to_rl(), Some(NumBits(7)));
}

#[test]
fn do_cumsum_last_matches_sum() {
    let x = vec![Some(4i32), None, Some(-1), Some(6)];
    let running = Do::cumsum(&x);
    let total = Do::sum(&x);
    assert_eq!(running[running.len() - 1], total[0]);
    assert_eq!(total, vec![Some(9)]);
}

#[test]
fn agg_min_max_of_logicals() {
    assert_eq!(Agg::min(vec![true, false, true]), false);
    assert_eq!(Agg::max(vec![false, true, false]), true);
    assert_eq!(Agg::min(vec![true, true]), true);
    assert_eq!(Agg::max(vec![false]), false);
}

#[test]
fn rlike_text_of_extreme_integers() {
    assert_eq!(RLike::to_string(&Some(i32::MIN)), "-2147483648");
    assert_eq!(RLike::to_string(&Some(i32::MAX)), "2147483647");
    assert_eq!(RLike::to_string(&Some(0i32)), "0");
    assert_eq!(RLike::to_string(&Some(usize::MAX)), usize::MAX.to_string());
}
