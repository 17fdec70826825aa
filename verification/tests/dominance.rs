use nsga2::dominance::objectives_dominate;

#[test]
fn better_on_every_objective_dominates() {
    assert!(objectives_dominate(&[1, 1], &[2, 2]));
    assert!(!objectives_dominate(&[2, 2], &[1, 1]));
}

#[test]
fn better_on_one_and_equal_on_the_other_dominates() {
    assert!(objectives_dominate(&[1, 3], &[3, 3]));
    assert!(objectives_dominate(&[3, 1], &[3, 3]));
}

#[test]
fn a_trade_off_dominates_in_neither_direction() {
    assert!(!objectives_dominate(&[1, 3], &[3, 1]));
    assert!(!objectives_dominate(&[3, 1], &[1, 3]));
}

#[test]
fn equal_vectors_do_not_dominate_each_other() {
    assert!(!objectives_dominate(&[4, -7, 9], &[4, -7, 9]));
}

#[test]
fn single_objective_dominance_is_strictly_less() {
    assert!(objectives_dominate(&[-5], &[-4]));
    assert!(!objectives_dominate(&[-4], &[-4]));
    assert!(!objectives_dominate(&[-3], &[-4]));
}

#[test]
fn vectors_of_different_length_never_dominate() {
    assert!(!objectives_dominate(&[1], &[2, 2]));
    assert!(!objectives_dominate(&[1, 1], &[2]));
}

#[test]
fn empty_vectors_do_not_dominate() {
    assert!(!objectives_dominate(&[], &[]));
}

#[test]
fn extreme_values_are_compared_exactly() {
    assert!(objectives_dominate(&[i64::MIN, 0], &[i64::MAX, 0]));
    assert!(!objectives_dominate(&[i64::MAX, 0], &[i64::MIN, 0]));
}

#[test]
fn dominance_passes_along_a_chain() {
    let a = [1, 2, 3];
    let b = [1, 3, 3];
    let c = [2, 3, 4];
    assert!(objectives_dominate(&a, &b));
    assert!(objectives_dominate(&b, &c));
    assert!(objectives_dominate(&a, &c));
}
