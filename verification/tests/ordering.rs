use nsga2::crowding::Crowding;
use nsga2::ordering::stable_order;

#[test]
fn orders_values_ascending() {
    assert_eq!(stable_order(&vec![30i64, 10, 20], false), vec![1, 2, 0]);
}

#[test]
fn orders_values_descending() {
    assert_eq!(stable_order(&vec![30i64, 10, 20], true), vec![0, 2, 1]);
}

#[test]
fn equal_values_keep_their_order_ascending() {
    assert_eq!(stable_order(&vec![5i64, 1, 5, 1, 5], false), vec![1, 3, 0, 2, 4]);
}

#[test]
fn equal_values_keep_their_order_descending() {
    assert_eq!(stable_order(&vec![5i64, 1, 5, 1, 5], true), vec![0, 2, 4, 1, 3]);
}

#[test]
fn orders_nothing_and_one_item() {
    assert_eq!(stable_order(&Vec::<i64>::new(), false), Vec::<usize>::new());
    assert_eq!(stable_order(&vec![7i64], true), vec![0]);
}

#[test]
fn orders_negative_and_extreme_values() {
    assert_eq!(stable_order(&vec![0i64, i64::MIN, i64::MAX, -1], false), vec![1, 3, 0, 2]);
}

#[test]
fn infinite_distance_comes_first_when_falling() {
    let distances = vec![
        Crowding::Finite(5),
        Crowding::Infinite,
        Crowding::Finite(9),
        Crowding::Infinite,
        Crowding::Finite(5),
    ];
    assert_eq!(stable_order(&distances, true), vec![1, 3, 2, 0, 4]);
}

#[test]
fn infinite_distance_comes_last_when_rising() {
    let distances = vec![Crowding::Infinite, Crowding::Finite(0), Crowding::Finite(u128::MAX)];
    assert_eq!(stable_order(&distances, false), vec![1, 2, 0]);
}
