use nsga2::dominance::objectives_dominate;
use nsga2::solution::Solution;
use nsga2::sorting::non_dominated_sort;
use nsga2::sorting::rank_fronts;

#[derive(Clone, Debug)]
struct Point {
    values: Vec<i64>,
}

impl Solution for Point {
    fn random() -> Self {
        Point { values: vec![0, 0] }
    }

    fn mutate(&mut self) {}

    fn crossover(&self, _other: &Self) -> Self {
        self.clone()
    }

    fn fitness(&self) -> Vec<i64> {
        self.values.clone()
    }

    fn dominates(&self, other: &Self) -> bool {
        objectives_dominate(&self.values, &other.values)
    }

    fn feasible(&self) -> bool {
        true
    }
}

fn points(rows: &[[i64; 2]]) -> Vec<Point> {
    rows.iter().map(|row| Point { values: row.to_vec() }).collect()
}

fn sorted(front: &[usize]) -> Vec<usize> {
    let mut members = front.to_vec();
    members.sort();
    members
}

#[test]
fn identical_fitness_gives_one_front_with_every_index() {
    let population = points(&[[3, 3], [3, 3], [3, 3], [3, 3]]);
    assert_eq!(non_dominated_sort(&population), vec![vec![0, 1, 2, 3]]);
}

#[test]
fn mutual_trade_offs_give_one_front() {
    let population = points(&[[1, 4], [2, 3], [3, 2], [4, 1]]);
    assert_eq!(non_dominated_sort(&population), vec![vec![0, 1, 2, 3]]);
}

#[test]
fn a_chain_gives_one_front_per_member() {
    let population = points(&[[3, 3], [1, 1], [4, 4], [2, 2]]);
    assert_eq!(non_dominated_sort(&population), vec![vec![1], vec![3], vec![0], vec![2]]);
}

#[test]
fn three_layers_of_five_points() {
    let population = points(&[[1, 1], [2, 2], [1, 3], [3, 1], [3, 3]]);
    assert_eq!(non_dominated_sort(&population), vec![vec![0], vec![1, 2, 3], vec![4]]);
}

#[test]
fn a_member_joins_the_front_behind_its_last_dominator() {
    let population = points(&[[1, 5], [5, 1], [6, 2], [2, 6], [7, 7]]);
    assert_eq!(non_dominated_sort(&population), vec![vec![0, 1], vec![3, 2], vec![4]]);
}

#[test]
fn an_empty_population_has_one_empty_front() {
    assert_eq!(non_dominated_sort(&Vec::<Point>::new()), vec![Vec::<usize>::new()]);
}

#[test]
fn a_single_member_is_the_first_front() {
    assert_eq!(non_dominated_sort(&points(&[[9, 9]])), vec![vec![0]]);
}

#[test]
fn fronts_partition_the_indices() {
    let population = points(&[
        [5, 5],
        [1, 9],
        [9, 1],
        [6, 6],
        [2, 8],
        [7, 7],
        [3, 3],
        [3, 3],
        [10, 10],
        [1, 1],
    ]);
    let fronts = non_dominated_sort(&population);
    let mut seen: Vec<usize> = fronts.iter().flatten().copied().collect();
    assert_eq!(seen.len(), population.len());
    seen.sort();
    assert_eq!(seen, (0..population.len()).collect::<Vec<usize>>());
    assert!(fronts.iter().all(|front| !front.is_empty()));
}

#[test]
fn the_first_front_holds_exactly_the_undominated_members() {
    let population = points(&[[5, 5], [1, 9], [9, 1], [6, 6], [2, 8], [4, 4], [9, 9]]);
    let fronts = non_dominated_sort(&population);
    let expected: Vec<usize> = (0..population.len())
        .filter(|&p| (0..population.len()).all(|d| !population[d].dominates(&population[p])))
        .collect();
    assert_eq!(sorted(&fronts[0]), expected);
    assert_eq!(expected, vec![1, 2, 4, 5]);
}

#[test]
fn dominators_stand_in_earlier_fronts() {
    let population = points(&[[5, 5], [1, 9], [9, 1], [6, 6], [2, 8], [4, 4], [9, 9]]);
    let fronts = non_dominated_sort(&population);
    let mut rank = vec![0; population.len()];
    for (k, front) in fronts.iter().enumerate() {
        for &member in front {
            rank[member] = k;
        }
    }
    for d in 0..population.len() {
        for p in 0..population.len() {
            if population[d].dominates(&population[p]) {
                assert!(rank[d] < rank[p]);
            }
        }
    }
    assert_eq!(rank, vec![1, 0, 0, 2, 0, 0, 3]);
}

#[test]
fn ranks_a_table_given_directly() {
    let table = vec![
        vec![false, true, true, true],
        vec![false, false, false, true],
        vec![false, false, false, true],
        vec![false, false, false, false],
    ];
    assert_eq!(rank_fronts(&table), vec![vec![0], vec![1, 2], vec![3]]);
}

#[test]
fn ranks_a_table_without_any_dominance() {
    let table = vec![vec![false; 3]; 3];
    assert_eq!(rank_fronts(&table), vec![vec![0, 1, 2]]);
}

#[test]
fn ranks_an_empty_table() {
    assert_eq!(rank_fronts(&Vec::new()), vec![Vec::<usize>::new()]);
}

#[test]
fn single_objective_values_sort_into_levels() {
    let population: Vec<Point> =
        [4i64, 1, 3, 1, 2].iter().map(|&x| Point { values: vec![x] }).collect();
    assert_eq!(non_dominated_sort(&population), vec![vec![1, 3], vec![4], vec![2], vec![0]]);
}
