use nsga2::replacement::select_survivors;

fn rows() -> Vec<Vec<i64>> {
    vec![vec![1], vec![2], vec![3], vec![4], vec![5], vec![6]]
}

#[test]
fn whole_fronts_are_taken_while_they_fit() {
    let fronts = vec![vec![0, 1], vec![2, 3, 4, 5]];
    assert_eq!(select_survivors(&rows(), &fronts, 1, 6), vec![0, 1, 2, 3, 4, 5]);
    assert_eq!(select_survivors(&rows(), &fronts, 1, 2), vec![0, 1]);
}

#[test]
fn the_front_that_overflows_gives_its_most_isolated_members() {
    let fronts = vec![vec![0, 1], vec![2, 3, 4, 5]];
    assert_eq!(select_survivors(&rows(), &fronts, 1, 4), vec![0, 1, 2, 5]);
    assert_eq!(select_survivors(&rows(), &fronts, 1, 5), vec![0, 1, 2, 5, 3]);
}

#[test]
fn members_of_equal_distance_are_taken_in_front_order() {
    let fronts = vec![vec![1, 0]];
    assert_eq!(select_survivors(&rows(), &fronts, 1, 1), vec![1]);
}

#[test]
fn fronts_behind_the_overflowing_one_are_left_out() {
    let fronts = vec![vec![0, 1, 2], vec![3], vec![4, 5]];
    assert_eq!(select_survivors(&rows(), &fronts, 1, 2), vec![0, 2]);
}

#[test]
fn no_capacity_leaves_nobody() {
    let fronts = vec![vec![0, 1], vec![2, 3, 4, 5]];
    assert_eq!(select_survivors(&rows(), &fronts, 1, 0), Vec::<usize>::new());
}

#[test]
fn more_capacity_than_members_keeps_everyone() {
    let fronts = vec![vec![0, 1], vec![2, 3, 4, 5]];
    assert_eq!(select_survivors(&rows(), &fronts, 1, 10), vec![0, 1, 2, 3, 4, 5]);
}

#[test]
fn the_greater_finite_distance_survives() {
    let rows = vec![vec![0], vec![1], vec![5], vec![10]];
    let fronts = vec![vec![0, 1, 2, 3]];
    assert_eq!(select_survivors(&rows, &fronts, 1, 3), vec![0, 3, 2]);
}

#[test]
fn distances_are_taken_within_the_overflowing_front_alone() {
    let rows = vec![vec![0, 9], vec![9, 0], vec![2, 8], vec![3, 6], vec![7, 3], vec![8, 2]];
    let fronts = vec![vec![0, 1], vec![2, 3, 4, 5]];
    assert_eq!(select_survivors(&rows, &fronts, 2, 5), vec![0, 1, 2, 5, 3]);
}
