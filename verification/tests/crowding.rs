use nsga2::crowding::crowding_distance;
use nsga2::crowding::crowding_distances;
use nsga2::crowding::distances_by_member;
use nsga2::crowding::front_crowding;
use nsga2::crowding::objective_table;
use nsga2::crowding::Crowding;
use nsga2::crowding::CROWDING_UNIT;
use nsga2::dominance::objectives_dominate;
use nsga2::solution::Solution;

#[derive(Clone, Debug, PartialEq)]
struct Pair {
    a: i64,
    b: i64,
}

impl Solution for Pair {
    fn random() -> Self {
        Pair { a: 0, b: 0 }
    }

    fn mutate(&mut self) {}

    fn crossover(&self, other: &Self) -> Self {
        Pair { a: self.a, b: other.b }
    }

    fn fitness(&self) -> Vec<i64> {
        vec![self.a, self.b]
    }

    fn dominates(&self, other: &Self) -> bool {
        objectives_dominate(&self.fitness(), &other.fitness())
    }

    fn feasible(&self) -> bool {
        true
    }
}

#[test]
fn three_members_on_one_axis() {
    let rows = vec![vec![1], vec![2], vec![5]];
    assert_eq!(
        crowding_distances(&rows, 1),
        vec![Crowding::Infinite, Crowding::Finite(CROWDING_UNIT), Crowding::Infinite]
    );
}

#[test]
fn three_members_on_one_axis_in_another_order() {
    let rows = vec![vec![5_000_000], vec![1_000_000], vec![2_000_000]];
    assert_eq!(
        crowding_distances(&rows, 1),
        vec![Crowding::Infinite, Crowding::Infinite, Crowding::Finite(CROWDING_UNIT)]
    );
}

#[test]
fn the_unit_stands_for_one() {
    assert_eq!(CROWDING_UNIT, 1_000_000_000);
}

#[test]
fn shares_of_two_axes_add_up() {
    let rows = vec![vec![0, 10], vec![2, 6], vec![4, 4], vec![10, 0]];
    assert_eq!(
        crowding_distances(&rows, 2),
        vec![
            Crowding::Infinite,
            Crowding::Finite(1_000_000_000),
            Crowding::Finite(1_400_000_000),
            Crowding::Infinite,
        ]
    );
}

#[test]
fn only_the_first_axes_are_counted() {
    let rows = vec![vec![0, 10], vec![2, 6], vec![4, 4], vec![10, 0]];
    assert_eq!(
        crowding_distances(&rows, 1),
        vec![
            Crowding::Infinite,
            Crowding::Finite(400_000_000),
            Crowding::Finite(800_000_000),
            Crowding::Infinite,
        ]
    );
}

#[test]
fn a_share_is_rounded_down() {
    let rows = vec![vec![0], vec![1], vec![2], vec![3]];
    assert_eq!(
        crowding_distances(&rows, 1),
        vec![
            Crowding::Infinite,
            Crowding::Finite(666_666_666),
            Crowding::Finite(666_666_666),
            Crowding::Infinite,
        ]
    );
}

#[test]
fn an_axis_without_range_adds_nothing_but_keeps_its_ends() {
    let rows = vec![vec![3], vec![3], vec![3]];
    assert_eq!(
        crowding_distances(&rows, 1),
        vec![Crowding::Infinite, Crowding::Finite(0), Crowding::Infinite]
    );
}

#[test]
fn extreme_on_one_axis_is_enough_for_infinity() {
    let rows = vec![vec![1, 5], vec![2, 9], vec![3, 1], vec![2, 4]];
    assert_eq!(
        crowding_distances(&rows, 2),
        vec![
            Crowding::Infinite,
            Crowding::Infinite,
            Crowding::Infinite,
            Crowding::Finite(1_000_000_000),
        ]
    );
}

#[test]
fn equal_values_are_ordered_by_place_in_the_front() {
    let rows = vec![vec![1], vec![1], vec![1], vec![4]];
    assert_eq!(
        crowding_distances(&rows, 1),
        vec![
            Crowding::Infinite,
            Crowding::Finite(0),
            Crowding::Finite(1_000_000_000),
            Crowding::Infinite,
        ]
    );
}

#[test]
fn one_or_two_members_are_all_extreme() {
    assert_eq!(crowding_distances(&vec![vec![7, 7]], 2), vec![Crowding::Infinite]);
    assert_eq!(
        crowding_distances(&vec![vec![7, 1], vec![2, 8]], 2),
        vec![Crowding::Infinite, Crowding::Infinite]
    );
}

#[test]
fn an_empty_front_has_no_distances() {
    assert_eq!(crowding_distances(&Vec::new(), 3), Vec::<Crowding>::new());
}

#[test]
fn without_objectives_every_distance_is_zero() {
    let rows = vec![vec![1], vec![2], vec![3]];
    assert_eq!(
        crowding_distances(&rows, 0),
        vec![Crowding::Finite(0), Crowding::Finite(0), Crowding::Finite(0)]
    );
}

#[test]
fn the_whole_range_of_values_does_not_overflow() {
    let rows = vec![vec![i64::MIN], vec![0], vec![i64::MAX]];
    assert_eq!(
        crowding_distances(&rows, 1),
        vec![Crowding::Infinite, Crowding::Finite(CROWDING_UNIT), Crowding::Infinite]
    );
}

#[test]
fn interior_members_are_finite_and_two_ends_infinite_on_one_axis() {
    let rows = vec![vec![40], vec![10], vec![30], vec![20], vec![50]];
    let distances = crowding_distances(&rows, 1);
    let infinite: Vec<usize> =
        (0..rows.len()).filter(|&i| distances[i] == Crowding::Infinite).collect();
    assert_eq!(infinite, vec![1, 4]);
    for i in [0, 2, 3] {
        assert!(matches!(distances[i], Crowding::Finite(_)));
    }
}

#[test]
fn infinite_exceeds_every_finite_distance() {
    assert!(Crowding::Infinite.exceeds(&Crowding::Finite(u128::MAX)));
    assert!(!Crowding::Finite(u128::MAX).exceeds(&Crowding::Infinite));
    assert!(!Crowding::Infinite.exceeds(&Crowding::Infinite));
    assert!(Crowding::Finite(2).exceeds(&Crowding::Finite(1)));
    assert!(!Crowding::Finite(1).exceeds(&Crowding::Finite(1)));
}

#[test]
fn distances_of_candidates_follow_their_fitness() {
    let front = vec![Pair { a: 0, b: 10 }, Pair { a: 2, b: 6 }, Pair { a: 4, b: 4 }, Pair { a: 10, b: 0 }];
    assert_eq!(
        crowding_distance(&front, 2),
        vec![
            Crowding::Infinite,
            Crowding::Finite(1_000_000_000),
            Crowding::Finite(1_400_000_000),
            Crowding::Infinite,
        ]
    );
}

#[test]
fn objective_table_lists_the_fitness_of_every_member() {
    let members = vec![Pair { a: 1, b: 2 }, Pair { a: -3, b: 4 }];
    assert_eq!(objective_table(&members), vec![vec![1, 2], vec![-3, 4]]);
}

#[test]
fn distances_within_a_front_ignore_the_other_members() {
    let rows = vec![vec![1], vec![100], vec![2], vec![200], vec![5]];
    assert_eq!(
        front_crowding(&rows, &vec![4, 0, 2], 1),
        vec![Crowding::Infinite, Crowding::Infinite, Crowding::Finite(CROWDING_UNIT)]
    );
}

#[test]
fn distances_are_listed_by_member() {
    let rows = vec![vec![1], vec![100], vec![2], vec![200], vec![5], vec![150]];
    let fronts = vec![vec![4, 0, 2], vec![1, 5, 3]];
    assert_eq!(
        distances_by_member(&rows, &fronts, 1),
        vec![
            Crowding::Infinite,
            Crowding::Infinite,
            Crowding::Finite(CROWDING_UNIT),
            Crowding::Infinite,
            Crowding::Infinite,
            Crowding::Finite(CROWDING_UNIT),
        ]
    );
}
