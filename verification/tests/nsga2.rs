use nsga2::dominance::objectives_dominate;
use nsga2::nsga2::breed;
use nsga2::nsga2::next_generation;
use nsga2::nsga2::partner_of;
use nsga2::nsga2::ConfigError;
use nsga2::nsga2::NSGA2;
use nsga2::nsga2::RATE_SCALE;
use nsga2::solution::Solution;
use rand::Rng;

const LOWEST: i64 = 0;
const HIGHEST: i64 = 1000;

/// One decision variable between `LOWEST` and `HIGHEST`, which is also the
/// single objective.
#[derive(Clone, Debug, PartialEq)]
struct Scalar {
    x: i64,
}

impl Solution for Scalar {
    fn random() -> Self {
        Scalar { x: rand::thread_rng().gen_range(LOWEST..=HIGHEST) }
    }

    fn mutate(&mut self) {
        let step = rand::thread_rng().gen_range(-50..=50);
        self.x = (self.x + step).clamp(LOWEST, HIGHEST);
    }

    fn crossover(&self, other: &Self) -> Self {
        Scalar { x: ((self.x + other.x) / 2).clamp(LOWEST, HIGHEST) }
    }

    fn fitness(&self) -> Vec<i64> {
        vec![self.x]
    }

    fn dominates(&self, other: &Self) -> bool {
        self.x < other.x
    }

    fn feasible(&self) -> bool {
        true
    }
}

/// A candidate whose operations draw nothing at random.
#[derive(Clone, Debug, PartialEq)]
struct Counter {
    a: i64,
    b: i64,
}

impl Solution for Counter {
    fn random() -> Self {
        Counter { a: 10, b: 10 }
    }

    fn mutate(&mut self) {
        self.a += 1;
        self.b -= 1;
    }

    fn crossover(&self, other: &Self) -> Self {
        Counter { a: self.a, b: other.b }
    }

    fn fitness(&self) -> Vec<i64> {
        vec![self.a, self.b]
    }

    fn dominates(&self, other: &Self) -> bool {
        objectives_dominate(&self.fitness(), &other.fitness())
    }

    fn feasible(&self) -> bool {
        self.a <= 12
    }
}

fn least(population: &[Scalar]) -> i64 {
    population.iter().map(|member| member.x).min().unwrap()
}

#[test]
fn one_generation_keeps_the_size_and_does_not_lose_the_best() {
    let mut optimizer = NSGA2::<Scalar>::new(4, 1, RATE_SCALE, RATE_SCALE).ok().unwrap();
    assert_eq!(optimizer.current_population().len(), 4);
    let before = least(optimizer.current_population());
    optimizer.run();
    assert_eq!(optimizer.current_population().len(), 4);
    assert!(least(optimizer.current_population()) <= before);
}

#[test]
fn the_best_value_never_gets_worse_over_generations() {
    for seed in 0..20 {
        let mut optimizer =
            NSGA2::<Scalar>::with_seed(10, 1, 100_000, 900_000, seed).ok().unwrap();
        let mut best = least(optimizer.current_population());
        for _ in 0..15 {
            optimizer.step();
            let now = least(optimizer.current_population());
            assert!(now <= best);
            best = now;
        }
    }
}

#[test]
fn every_generation_has_the_configured_size() {
    for size in 1..=9 {
        let mut optimizer =
            NSGA2::<Scalar>::with_seed(size, 3, 500_000, 500_000, 42).ok().unwrap();
        assert_eq!(optimizer.current_population().len(), size);
        optimizer.step();
        assert_eq!(optimizer.current_population().len(), size);
        optimizer.run();
        assert_eq!(optimizer.current_population().len(), size);
    }
}

#[test]
fn members_stay_within_bounds() {
    for seed in 0..10 {
        let mut optimizer =
            NSGA2::<Scalar>::with_seed(12, 25, RATE_SCALE, RATE_SCALE, seed).ok().unwrap();
        optimizer.run();
        for member in optimizer.current_population() {
            assert!(LOWEST <= member.x && member.x <= HIGHEST);
        }
    }
}

#[test]
fn rates_of_zero_only_copy_members() {
    let mut optimizer = NSGA2::<Scalar>::with_seed(8, 5, 0, 0, 7).ok().unwrap();
    let initial: Vec<i64> = optimizer.current_population().iter().map(|m| m.x).collect();
    optimizer.run();
    for member in optimizer.current_population() {
        assert!(initial.contains(&member.x));
    }
}

#[test]
fn the_same_seed_repeats_the_run() {
    let mut first = NSGA2::<Counter>::with_seed(9, 12, 400_000, 600_000, 2024).ok().unwrap();
    let mut second = NSGA2::<Counter>::with_seed(9, 12, 400_000, 600_000, 2024).ok().unwrap();
    first.run();
    second.run();
    assert_eq!(first.current_population(), second.current_population());
}

#[test]
fn a_population_size_of_zero_is_turned_down() {
    assert_eq!(
        NSGA2::<Scalar>::new(0, 10, 100_000, 900_000).err(),
        Some(ConfigError::ZeroPopulation)
    );
    assert_eq!(
        NSGA2::<Scalar>::with_seed(0, 10, 100_000, 900_000, 1).err(),
        Some(ConfigError::ZeroPopulation)
    );
}

#[test]
fn zero_generations_are_turned_down() {
    assert_eq!(
        NSGA2::<Scalar>::new(10, 0, 100_000, 900_000).err(),
        Some(ConfigError::ZeroGenerations)
    );
    assert_eq!(
        NSGA2::<Scalar>::with_seed(10, 0, 100_000, 900_000, 1).err(),
        Some(ConfigError::ZeroGenerations)
    );
}

#[test]
fn a_mutation_rate_above_one_is_turned_down() {
    assert_eq!(
        NSGA2::<Scalar>::new(10, 10, RATE_SCALE + 1, 900_000).err(),
        Some(ConfigError::MutationRateOutOfRange)
    );
    assert_eq!(
        NSGA2::<Scalar>::with_seed(10, 10, u32::MAX, 900_000, 1).err(),
        Some(ConfigError::MutationRateOutOfRange)
    );
}

#[test]
fn a_crossover_rate_above_one_is_turned_down() {
    assert_eq!(
        NSGA2::<Scalar>::new(10, 10, 100_000, RATE_SCALE + 1).err(),
        Some(ConfigError::CrossoverRateOutOfRange)
    );
    assert_eq!(
        NSGA2::<Scalar>::with_seed(10, 10, 100_000, u32::MAX, 1).err(),
        Some(ConfigError::CrossoverRateOutOfRange)
    );
}

#[test]
fn the_first_fault_is_reported() {
    assert_eq!(
        NSGA2::<Scalar>::with_seed(0, 0, u32::MAX, u32::MAX, 1).err(),
        Some(ConfigError::ZeroPopulation)
    );
    assert_eq!(
        NSGA2::<Scalar>::with_seed(1, 0, u32::MAX, u32::MAX, 1).err(),
        Some(ConfigError::ZeroGenerations)
    );
    assert_eq!(
        NSGA2::<Scalar>::with_seed(1, 1, u32::MAX, u32::MAX, 1).err(),
        Some(ConfigError::MutationRateOutOfRange)
    );
}

#[test]
fn rates_of_nothing_and_of_one_are_accepted() {
    assert!(NSGA2::<Scalar>::with_seed(1, 1, 0, 0, 1).is_ok());
    assert!(NSGA2::<Scalar>::with_seed(1, 1, RATE_SCALE, RATE_SCALE, 1).is_ok());
    assert!(NSGA2::<Scalar>::new(3, 2, 0, RATE_SCALE).is_ok());
}

#[test]
fn the_rate_scale_is_a_million() {
    assert_eq!(RATE_SCALE, 1_000_000);
}

#[test]
fn a_new_optimizer_holds_random_members() {
    let optimizer = NSGA2::<Counter>::with_seed(5, 1, 0, 0, 3).ok().unwrap();
    assert_eq!(optimizer.current_population(), &vec![Counter { a: 10, b: 10 }; 5]);
}

#[test]
fn the_next_generation_keeps_the_best_members() {
    let combined: Vec<Scalar> = [5, 1, 3, 1, 4, 2].iter().map(|&x| Scalar { x }).collect();
    let next = next_generation(&combined, 3);
    assert_eq!(next, vec![Scalar { x: 1 }, Scalar { x: 1 }, Scalar { x: 2 }]);
}

#[test]
fn the_next_generation_cuts_a_front_by_crowding_distance() {
    let combined = vec![
        Counter { a: 1, b: 9 },
        Counter { a: 2, b: 7 },
        Counter { a: 3, b: 6 },
        Counter { a: 9, b: 1 },
        Counter { a: 9, b: 9 },
    ];
    let next = next_generation(&combined, 3);
    assert_eq!(
        next,
        vec![Counter { a: 1, b: 9 }, Counter { a: 9, b: 1 }, Counter { a: 3, b: 6 }]
    );
}

#[test]
fn the_next_generation_of_few_members_keeps_them_all() {
    let combined: Vec<Scalar> = [5, 1].iter().map(|&x| Scalar { x }).collect();
    assert_eq!(next_generation(&combined, 4), vec![Scalar { x: 1 }, Scalar { x: 5 }]);
    assert_eq!(next_generation(&Vec::<Scalar>::new(), 4), Vec::<Scalar>::new());
}

#[test]
fn the_partner_is_the_successor_and_wraps_around() {
    assert_eq!(partner_of(0, 4), 1);
    assert_eq!(partner_of(2, 4), 3);
    assert_eq!(partner_of(3, 4), 0);
    assert_eq!(partner_of(4, 5), 0);
    assert_eq!(partner_of(0, 1), 0);
}

#[test]
fn breeding_without_crossover_and_mutation_copies_the_first_parent() {
    let first = Counter { a: 1, b: 2 };
    let second = Counter { a: 3, b: 4 };
    assert_eq!(breed(&first, &second, false, false), first);
}

#[test]
fn breeding_crosses_and_mutates_as_told() {
    let first = Counter { a: 1, b: 2 };
    let second = Counter { a: 3, b: 4 };
    assert_eq!(breed(&first, &second, true, false), Counter { a: 1, b: 4 });
    assert_eq!(breed(&first, &second, false, true), Counter { a: 2, b: 1 });
    assert_eq!(breed(&first, &second, true, true), Counter { a: 2, b: 3 });
    assert_eq!(first, Counter { a: 1, b: 2 });
    assert_eq!(second, Counter { a: 3, b: 4 });
}

#[test]
fn full_rates_cross_and_mutate_every_offspring() {
    let mut optimizer = NSGA2::<Counter>::with_seed(4, 1, RATE_SCALE, RATE_SCALE, 11).ok().unwrap();
    optimizer.step();
    let members = optimizer.current_population();
    assert_eq!(members.len(), 4);
    let bred = members.iter().filter(|m| **m == Counter { a: 11, b: 9 }).count();
    let kept = members.iter().filter(|m| **m == Counter { a: 10, b: 10 }).count();
    assert_eq!(bred, 2);
    assert_eq!(kept, 2);
}
