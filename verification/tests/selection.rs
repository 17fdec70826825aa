use nsga2::crowding::Crowding;
use nsga2::selection::first_wins;
use nsga2::selection::ranks_by_member;

#[test]
fn a_feasible_contender_beats_an_infeasible_one() {
    assert!(first_wins(true, 9, Crowding::Finite(0), false, 0, Crowding::Infinite));
    assert!(!first_wins(false, 0, Crowding::Infinite, true, 9, Crowding::Finite(0)));
}

#[test]
fn feasibility_decides_whatever_rank_and_distance_are() {
    let distances = [Crowding::Finite(0), Crowding::Finite(7), Crowding::Infinite];
    for front1 in 0..4 {
        for front2 in 0..4 {
            for distance1 in distances {
                for distance2 in distances {
                    assert!(first_wins(true, front1, distance1, false, front2, distance2));
                    assert!(!first_wins(false, front1, distance1, true, front2, distance2));
                }
            }
        }
    }
}

#[test]
fn the_lower_front_wins_among_feasible_contenders() {
    assert!(first_wins(true, 0, Crowding::Finite(1), true, 1, Crowding::Infinite));
    assert!(!first_wins(true, 2, Crowding::Infinite, true, 1, Crowding::Finite(1)));
}

#[test]
fn the_lower_front_wins_among_infeasible_contenders() {
    assert!(first_wins(false, 0, Crowding::Finite(1), false, 1, Crowding::Infinite));
    assert!(!first_wins(false, 2, Crowding::Infinite, false, 1, Crowding::Finite(1)));
}

#[test]
fn the_greater_distance_wins_within_a_front() {
    assert!(first_wins(true, 3, Crowding::Finite(5), true, 3, Crowding::Finite(4)));
    assert!(!first_wins(true, 3, Crowding::Finite(4), true, 3, Crowding::Finite(5)));
    assert!(first_wins(false, 3, Crowding::Infinite, false, 3, Crowding::Finite(u128::MAX)));
}

#[test]
fn the_second_contender_wins_a_complete_tie() {
    assert!(!first_wins(true, 1, Crowding::Finite(5), true, 1, Crowding::Finite(5)));
    assert!(!first_wins(false, 0, Crowding::Infinite, false, 0, Crowding::Infinite));
}

#[test]
fn ranks_are_looked_up_by_member() {
    let fronts = vec![vec![2, 0], vec![1], vec![3]];
    assert_eq!(ranks_by_member(&fronts, 4), vec![0, 1, 0, 2]);
}

#[test]
fn ranks_of_nobody_are_empty() {
    assert_eq!(ranks_by_member(&vec![Vec::new()], 0), Vec::<usize>::new());
}
