//! The optimizer: a fixed-size population evolved generation by generation.

use crate::crowding::axes_of;
use crate::crowding::distances_by_member;
use crate::crowding::member_distances;
use crate::crowding::objective_table;
use crate::crowding::rows_view;
use crate::crowding::Crowding;
use crate::dominance::pareto_dominates;
use crate::random::draw_below;
use crate::random::seeded_source;
use crate::random::system_source;
use crate::replacement::lemma_first_survivor_is_of_first_front;
use crate::replacement::lemma_survivors_len;
use crate::replacement::select_survivors;
use crate::replacement::survivors;
use crate::selection::first_wins;
use crate::selection::ranks_by_member;
use crate::selection::tournament_pick;
use crate::solution::all_within_bounds;
use crate::solution::copies_keep_bounds;
use crate::solution::copies_keep_objectives;
use crate::solution::Solution;
use crate::sorting::dominance_table;
use crate::sorting::front_of;
use crate::sorting::front_view;
use crate::sorting::is_sorting;
use crate::sorting::is_undominated;
use crate::sorting::sorting_of;
use crate::sorting::is_partition;
use crate::sorting::non_dominated_sort;
use crate::sorting::objective_rows;
use rand::rngs::StdRng;
use vstd::prelude::*;

verus! {

/// The rate that stands for 1.0: rates are given in millionths.
pub const RATE_SCALE: u32 = 1_000_000;

/// Why a configuration was turned down.
#[derive(Clone, Copy, Debug, PartialEq, Eq)]
pub enum ConfigError {
    /// The population size is zero.
    ZeroPopulation,
    /// The number of generations is zero.
    ZeroGenerations,
    /// The mutation rate lies above `RATE_SCALE`.
    MutationRateOutOfRange,
    /// The crossover rate lies above `RATE_SCALE`.
    CrossoverRateOutOfRange,
    /// The operating system gave no entropy to seed the random source.
    NoEntropy,
}

/// What is wrong with a configuration, if anything; the first fault found
/// in the order of the parameters.
pub open spec fn config_fault(
    population_size: usize,
    max_generations: usize,
    mutation_rate: u32,
    crossover_rate: u32,
) -> Option<ConfigError> {
    if population_size == 0 {
        Some(ConfigError::ZeroPopulation)
    } else if max_generations == 0 {
        Some(ConfigError::ZeroGenerations)
    } else if mutation_rate > RATE_SCALE {
        Some(ConfigError::MutationRateOutOfRange)
    } else if crossover_rate > RATE_SCALE {
        Some(ConfigError::CrossoverRateOutOfRange)
    } else {
        None
    }
}

/// `picked` is a copy of the winner of a tournament between two members.
pub open spec fn is_tournament_winner<S: Solution>(
    population: Seq<S>,
    fronts: Seq<Seq<usize>>,
    distances: Seq<Crowding>,
    picked: S,
) -> bool {
    exists|a: int, b: int|
        0 <= a < population.len() && 0 <= b < population.len() && cloned(
            population[#[trigger] tournament_pick(population, fronts, distances, a, b)],
            picked,
        )
}

/// `base` is the offspring of two parents before any mutation: what
/// `crossover` makes of them where `crossing` is set, a copy of the first
/// parent otherwise.
pub open spec fn is_bred_base<S: Solution>(parent1: S, parent2: S, crossing: bool, base: S) -> bool {
    if crossing {
        call_ensures(S::crossover, (&parent1, &parent2), base)
    } else {
        cloned(parent1, base)
    }
}

/// `child` is an offspring of two parents: their crossover where `crossing`
/// is set, a copy of the first parent otherwise, and what `mutate` makes of
/// that where `mutating` is set.
pub open spec fn is_bred<S: Solution>(
    parent1: S,
    parent2: S,
    crossing: bool,
    mutating: bool,
    child: S,
) -> bool {
    exists|base: S| #[trigger]
        is_bred_base(parent1, parent2, crossing, base) && (if mutating {
            child.mutated_from(&base)
        } else {
            child == base
        })
}

/// A draw in millionths falls below a rate.
pub open spec fn falls_below(draw: int, rate: nat) -> bool {
    draw < rate
}

/// `child` is what the pair at place `pair` of the mating pool can have for
/// offspring: bred from member `2 * pair` and its successor, the first
/// member where there is none, with crossover and mutation each decided by a
/// draw in millionths against its rate.
pub open spec fn is_offspring<S: Solution>(
    pool: Seq<S>,
    pair: int,
    crossover_rate: nat,
    mutation_rate: nat,
    child: S,
) -> bool {
    exists|crossover_draw: int, mutation_draw: int|
        0 <= crossover_draw < RATE_SCALE && 0 <= mutation_draw < RATE_SCALE && is_bred(
            pool[2 * pair],
            pool[(2 * pair + 1) % (pool.len() as int)],
            #[trigger] falls_below(crossover_draw, crossover_rate),
            #[trigger] falls_below(mutation_draw, mutation_rate),
            child,
        )
}

/// `offspring` is what a mating pool can breed under the two rates: one
/// offspring for every pair.
pub open spec fn is_brood<S: Solution>(
    pool: Seq<S>,
    crossover_rate: nat,
    mutation_rate: nat,
    offspring: Seq<S>,
) -> bool {
    &&& offspring.len() == (pool.len() + 1) / 2
    &&& forall|pair: int|
        0 <= pair < offspring.len() ==> is_offspring(
            pool,
            pair,
            crossover_rate,
            mutation_rate,
            #[trigger] offspring[pair],
        )
}

/// The members of `combined` that survive a cut to `capacity` members, in
/// the order in which they are chosen.
pub open spec fn survivors_among<S: Solution>(combined: Seq<S>, capacity: nat) -> Seq<usize> {
    let rows = objective_rows(combined);
    survivors(rows, sorting_of(dominance_table(rows)), axes_of(rows), capacity)
}

/// `next` holds copies of the survivors of `combined`, in the order in which
/// they are chosen, and `combined` has a sorting to choose them by.
pub open spec fn is_replacement<S: Solution>(combined: Seq<S>, capacity: nat, next: Seq<S>) -> bool {
    let table = dominance_table(objective_rows(combined));
    let chosen = survivors_among(combined, capacity);
    &&& is_sorting(table, sorting_of(table))
    &&& next.len() == chosen.len()
    &&& forall|k: int|
        0 <= k < chosen.len() ==> 0 <= (#[trigger] chosen[k]) < combined.len() && cloned(
            combined[chosen[k] as int],
            next[k],
        )
}

/// `pool` is a mating pool of `size` members for `population`: each of its
/// members is a copy of the winner of a tournament between two members of
/// the population, decided by feasibility, front and crowding distance
/// within the front.
pub open spec fn is_mating_pool<S: Solution>(population: Seq<S>, size: nat, pool: Seq<S>) -> bool {
    let rows = objective_rows(population);
    let fronts = sorting_of(dominance_table(rows));
    let distances = member_distances(rows, fronts, axes_of(rows));
    &&& pool.len() == size
    &&& forall|k: int|
        0 <= k < pool.len() ==> is_tournament_winner(
            population,
            fronts,
            distances,
            #[trigger] pool[k],
        )
}

/// `after` is what one generation can make of the population `before`: a
/// mating pool of tournament winners breeds half as many offspring under the
/// two rates, and the best `capacity` of members and offspring survive.
pub open spec fn is_generation<S: Solution>(
    before: Seq<S>,
    capacity: nat,
    crossover_rate: nat,
    mutation_rate: nat,
    after: Seq<S>,
) -> bool {
    exists|pool: Seq<S>, offspring: Seq<S>|
        is_mating_pool(before, capacity, pool) && #[trigger] is_brood(
            pool,
            crossover_rate,
            mutation_rate,
            offspring,
        ) && is_replacement(before + offspring, capacity, after)
}

/// `after` is what `generations` generations in a row can make of `before`.
pub open spec fn is_evolution<S: Solution>(
    before: Seq<S>,
    capacity: nat,
    crossover_rate: nat,
    mutation_rate: nat,
    generations: nat,
    after: Seq<S>,
) -> bool
    decreases generations,
{
    if generations == 0 {
        after == before
    } else {
        exists|between: Seq<S>| #[trigger]
            is_generation(between, capacity, crossover_rate, mutation_rate, after) && is_evolution(
                before,
                capacity,
                crossover_rate,
                mutation_rate,
                (generations - 1) as nat,
                between,
            )
    }
}

/// Some member of `before` has the objectives of `candidate`.
pub open spec fn has_objectives_of<S: Solution>(before: Seq<S>, candidate: S) -> bool {
    exists|j: int| 0 <= j < before.len() && (#[trigger] before[j]).objectives() == candidate.objectives()
}

/// Every member of `after` has the objectives of some member of `before`.
pub open spec fn objectives_come_from<S: Solution>(before: Seq<S>, after: Seq<S>) -> bool {
    forall|i: int| 0 <= i < after.len() ==> has_objectives_of(before, #[trigger] after[i])
}

/// No member of `before` dominates `candidate`.
pub open spec fn is_dominated_by_none<S: Solution>(before: Seq<S>, candidate: S) -> bool {
    forall|j: int|
        0 <= j < before.len() ==> !pareto_dominates(
            (#[trigger] before[j]).objectives(),
            candidate.objectives(),
        )
}

/// Some member of `after` is dominated by no member of `before`.
pub open spec fn keeps_an_undominated<S: Solution>(before: Seq<S>, after: Seq<S>) -> bool {
    exists|i: int| 0 <= i < after.len() && is_dominated_by_none(before, #[trigger] after[i])
}

/// With one objective: `candidate` is at least as good as every member of
/// `before`.
pub open spec fn is_no_worse_than_all<S: Solution>(before: Seq<S>, candidate: S) -> bool {
    &&& candidate.objectives().len() == 1
    &&& forall|j: int|
        0 <= j < before.len() ==> (#[trigger] before[j]).objectives().len() == 1
            && candidate.objectives()[0] <= before[j].objectives()[0]
}

/// With one objective: some member of `after` is at least as good as every
/// member of `before`, so the best value has not got worse.
pub open spec fn best_is_no_worse<S: Solution>(before: Seq<S>, after: Seq<S>) -> bool {
    exists|i: int| 0 <= i < after.len() && is_no_worse_than_all(before, #[trigger] after[i])
}

/// The best value that has not got worse over one stretch and over the next
/// has not got worse over both.
pub proof fn lemma_best_is_no_worse_chains<S: Solution>(first: Seq<S>, second: Seq<S>, third: Seq<S>)
    requires
        best_is_no_worse(first, second),
        best_is_no_worse(second, third),
    ensures
        best_is_no_worse(first, third),
{
}

/// Without crossover and mutation a generation holds nothing new: every
/// member has the objectives of a member of the generation before, where
/// copies keep their objectives.
pub proof fn lemma_generation_without_variation<S: Solution>(
    before: Seq<S>,
    capacity: nat,
    after: Seq<S>,
)
    requires
        is_generation(before, capacity, 0, 0, after),
        copies_keep_objectives::<S>(),
    ensures
        objectives_come_from(before, after),
{
    let (pool, offspring) = choose|pool: Seq<S>, offspring: Seq<S>|
        is_mating_pool(before, capacity, pool) && #[trigger] is_brood(pool, 0, 0, offspring)
            && is_replacement(before + offspring, capacity, after);
    let combined = before + offspring;
    let chosen = survivors_among(combined, capacity);
    assert forall|i: int| 0 <= i < after.len() implies has_objectives_of(
        before,
        #[trigger] after[i],
    ) by {
        let c = chosen[i] as int;
    }
}

/// Without crossover and mutation a run holds nothing new: every member has
/// the objectives of an initial member, where copies keep their objectives.
pub proof fn lemma_evolution_without_variation<S: Solution>(
    before: Seq<S>,
    capacity: nat,
    generations: nat,
    after: Seq<S>,
)
    requires
        is_evolution(before, capacity, 0, 0, generations, after),
        copies_keep_objectives::<S>(),
    ensures
        objectives_come_from(before, after),
    decreases generations,
{
    if generations > 0 {
        let between = choose|between: Seq<S>| #[trigger]
            is_generation(between, capacity, 0, 0, after) && is_evolution(
                before,
                capacity,
                0,
                0,
                (generations - 1) as nat,
                between,
            );
        lemma_evolution_without_variation(before, capacity, (generations - 1) as nat, between);
        lemma_generation_without_variation(between, capacity, after);
    }
}

/// Sorts a population into fronts and keeps copies of its best `capacity`
/// members: front by front, and from the front that no longer fits the
/// members of greatest crowding distance.
pub fn next_generation<S: Solution>(combined: &Vec<S>, capacity: usize) -> (next: Vec<S>)
    ensures
        next.len() == if capacity <= combined.len() {
            capacity
        } else {
            combined.len()
        },
        is_replacement(combined@, capacity as nat, next@),
        copies_keep_bounds::<S>() && all_within_bounds(combined@) ==> all_within_bounds(next@),
        copies_keep_objectives::<S>() && capacity >= 1 && combined.len() >= 1
            ==> keeps_an_undominated(combined@, next@),
        copies_keep_objectives::<S>() && capacity >= 1 && combined.len() >= 1
            && S::objective_count() == 1 ==> best_is_no_worse(combined@, next@),
{
    let rows = objective_table(combined.as_slice());
    let fronts = non_dominated_sort(combined.as_slice());
    let objective_count = if rows.len() > 0 {
        rows[0].len()
    } else {
        0
    };
    let ghost layers = front_view(fronts@);
    let chosen = select_survivors(&rows, &fronts, objective_count, capacity);
    let mut next: Vec<S> = Vec::new();
    let mut k: usize = 0;
    while k < chosen.len()
        invariant
            k <= chosen.len(),
            next.len() == k,
            forall|i: int| 0 <= i < chosen.len() ==> (#[trigger] chosen[i]) < combined.len(),
            forall|i: int| 0 <= i < k ==> cloned(combined[chosen[i] as int], #[trigger] next[i]),
        decreases chosen.len() - k,
    {
        next.push(combined[chosen[k]].clone());
        k += 1;
    }
    proof {
        let all = objective_rows(combined@);
        lemma_survivors_len(all, layers, axes_of(all), capacity as nat);
        if copies_keep_objectives::<S>() && capacity >= 1 && combined.len() >= 1 {
            let table = dominance_table(all);
            assert(layers[0] == fronts[0]@ && fronts[0].len() > 0);
            lemma_first_survivor_is_of_first_front(all, layers, axes_of(all), capacity as nat);
            let best = chosen[0] as int;
            assert(is_undominated(table, best));
            assert(all[best] == combined@[best].objectives());
            assert forall|j: int| 0 <= j < combined.len() implies !pareto_dominates(
                (#[trigger] combined@[j]).objectives(),
                next[0].objectives(),
            ) by {
                assert(!table[j][best]);
            }
            if S::objective_count() == 1 {
                assert forall|j: int| 0 <= j < combined.len() implies (
                #[trigger] combined@[j]).objectives().len() == 1 && next[0].objectives()[0]
                    <= combined@[j].objectives()[0] by {
                    assert(rows_view(rows@)[j] == rows[j]@);
                }
            }
        }
    }
    next
}

/// An NSGA-II optimizer over candidates of type `S`.
pub struct NSGA2<S: Solution> {
    population_size: usize,
    max_generations: usize,
    mutation_rate: u32,
    crossover_rate: u32,
    population: Vec<S>,
    source: StdRng,
}

impl<S: Solution> NSGA2<S> {
    /// The configured number of members.
    pub closed spec fn population_size(&self) -> nat {
        self.population_size as nat
    }

    /// The configured number of generations of one run.
    pub closed spec fn max_generations(&self) -> nat {
        self.max_generations as nat
    }

    /// The chance of mutating an offspring, in millionths.
    pub closed spec fn mutation_rate(&self) -> nat {
        self.mutation_rate as nat
    }

    /// The chance of crossing two parents, in millionths.
    pub closed spec fn crossover_rate(&self) -> nat {
        self.crossover_rate as nat
    }

    /// The current members.
    pub closed spec fn population(&self) -> Seq<S> {
        self.population@
    }

    /// The configuration is valid and the population has its full size.
    pub open spec fn well_formed(&self) -> bool {
        &&& self.population_size() > 0
        &&& self.max_generations() > 0
        &&& self.mutation_rate() <= RATE_SCALE
        &&& self.crossover_rate() <= RATE_SCALE
        &&& self.population().len() == self.population_size()
    }

    /// Both optimizers have the same configuration.
    pub open spec fn same_configuration(&self, other: &Self) -> bool {
        &&& self.population_size() == other.population_size()
        &&& self.max_generations() == other.max_generations()
        &&& self.mutation_rate() == other.mutation_rate()
        &&& self.crossover_rate() == other.crossover_rate()
    }

    fn assemble(
        population_size: usize,
        max_generations: usize,
        mutation_rate: u32,
        crossover_rate: u32,
        source: StdRng,
    ) -> (made: Self)
        requires
            config_fault(population_size, max_generations, mutation_rate, crossover_rate).is_none(),
        ensures
            made.well_formed(),
            made.population_size() == population_size,
            made.max_generations() == max_generations,
            made.mutation_rate() == mutation_rate,
            made.crossover_rate() == crossover_rate,
            all_within_bounds(made.population()),
    {
        let mut population: Vec<S> = Vec::new();
        let mut count: usize = 0;
        while count < population_size
            invariant
                count <= population_size,
                population.len() == count,
                all_within_bounds(population@),
            decreases population_size - count,
        {
            population.push(S::random());
            count += 1;
        }
        NSGA2 { population_size, max_generations, mutation_rate, crossover_rate, population, source }
    }

    /// Creates an optimizer with a random initial population, its random
    /// source seeded by the operating system. Rates are given in millionths.
    ///
    /// A faulty configuration is turned down with the first fault found.
    pub fn new(
        population_size: usize,
        max_generations: usize,
        mutation_rate: u32,
        crossover_rate: u32,
    ) -> (made: Result<Self, ConfigError>)
        ensures
            match made {
                Ok(optimizer) => {
                    &&& config_fault(
                        population_size,
                        max_generations,
                        mutation_rate,
                        crossover_rate,
                    ).is_none()
                    &&& optimizer.well_formed()
                    &&& optimizer.population_size() == population_size
                    &&& optimizer.max_generations() == max_generations
                    &&& optimizer.mutation_rate() == mutation_rate
                    &&& optimizer.crossover_rate() == crossover_rate
                    &&& all_within_bounds(optimizer.population())
                },
                Err(fault) => {
                    match config_fault(
                        population_size,
                        max_generations,
                        mutation_rate,
                        crossover_rate,
                    ) {
                        Some(found) => fault == found,
                        None => fault == ConfigError::NoEntropy,
                    }
                },
            },
    {
        if population_size == 0 {
            return Err(ConfigError::ZeroPopulation);
        }
        if max_generations == 0 {
            return Err(ConfigError::ZeroGenerations);
        }
        if mutation_rate > RATE_SCALE {
            return Err(ConfigError::MutationRateOutOfRange);
        }
        if crossover_rate > RATE_SCALE {
            return Err(ConfigError::CrossoverRateOutOfRange);
        }
        match system_source() {
            Ok(source) => Ok(
                Self::assemble(population_size, max_generations, mutation_rate, crossover_rate, source),
            ),
            Err(_) => Err(ConfigError::NoEntropy),
        }
    }

    /// Creates an optimizer as `new` does, its random source made from
    /// `seed`, so that the optimizer's own draws can be repeated.
    pub fn with_seed(
        population_size: usize,
        max_generations: usize,
        mutation_rate: u32,
        crossover_rate: u32,
        seed: u64,
    ) -> (made: Result<Self, ConfigError>)
        ensures
            match made {
                Ok(optimizer) => {
                    &&& config_fault(
                        population_size,
                        max_generations,
                        mutation_rate,
                        crossover_rate,
                    ).is_none()
                    &&& optimizer.well_formed()
                    &&& optimizer.population_size() == population_size
                    &&& optimizer.max_generations() == max_generations
                    &&& optimizer.mutation_rate() == mutation_rate
                    &&& optimizer.crossover_rate() == crossover_rate
                    &&& all_within_bounds(optimizer.population())
                },
                Err(fault) => config_fault(
                    population_size,
                    max_generations,
                    mutation_rate,
                    crossover_rate,
                ) == Some(fault),
            },
    {
        if population_size == 0 {
            return Err(ConfigError::ZeroPopulation);
        }
        if max_generations == 0 {
            return Err(ConfigError::ZeroGenerations);
        }
        if mutation_rate > RATE_SCALE {
            return Err(ConfigError::MutationRateOutOfRange);
        }
        if crossover_rate > RATE_SCALE {
            return Err(ConfigError::CrossoverRateOutOfRange);
        }
        Ok(
            Self::assemble(
                population_size,
                max_generations,
                mutation_rate,
                crossover_rate,
                seeded_source(seed),
            ),
        )
    }

    /// Runs the configured number of generations, one after the other.
    pub fn run(&mut self)
        requires
            old(self).well_formed(),
        ensures
            final(self).well_formed(),
            final(self).same_configuration(old(self)),
            final(self).population().len() == old(self).population_size(),
            is_evolution(
                old(self).population(),
                old(self).population_size(),
                old(self).crossover_rate(),
                old(self).mutation_rate(),
                old(self).max_generations(),
                final(self).population(),
            ),
            copies_keep_bounds::<S>() && all_within_bounds(old(self).population())
                ==> all_within_bounds(final(self).population()),
            copies_keep_objectives::<S>() && S::objective_count() == 1 ==> best_is_no_worse(
                old(self).population(),
                final(self).population(),
            ),
    {
        let mut generation: usize = 0;
        while generation < self.max_generations
            invariant
                generation <= self.max_generations,
                self.well_formed(),
                self.same_configuration(old(self)),
                is_evolution(
                    old(self).population(),
                    old(self).population_size(),
                    old(self).crossover_rate(),
                    old(self).mutation_rate(),
                    generation as nat,
                    self.population(),
                ),
                copies_keep_bounds::<S>() && all_within_bounds(old(self).population())
                    ==> all_within_bounds(self.population()),
                copies_keep_objectives::<S>() && S::objective_count() == 1 && generation > 0
                    ==> best_is_no_worse(old(self).population(), self.population()),
            decreases self.max_generations - generation,
        {
            self.step();
            generation += 1;
        }
    }

    /// Evolves the population by one generation: selects parents by
    /// tournament, breeds half as many offspring as there are members, and
    /// keeps the best of members and offspring together.
    pub fn step(&mut self)
        requires
            old(self).well_formed(),
        ensures
            final(self).well_formed(),
            final(self).same_configuration(old(self)),
            final(self).population().len() == old(self).population_size(),
            is_generation(
                old(self).population(),
                old(self).population_size(),
                old(self).crossover_rate(),
                old(self).mutation_rate(),
                final(self).population(),
            ),
            copies_keep_bounds::<S>() && all_within_bounds(old(self).population())
                ==> all_within_bounds(final(self).population()),
            copies_keep_objectives::<S>() ==> keeps_an_undominated(
                old(self).population(),
                final(self).population(),
            ),
            copies_keep_objectives::<S>() && S::objective_count() == 1 ==> best_is_no_worse(
                old(self).population(),
                final(self).population(),
            ),
    {
        let rows = objective_table(self.population.as_slice());
        let objective_count = rows[0].len();
        let fronts = non_dominated_sort(self.population.as_slice());
        let distances = distances_by_member(&rows, &fronts, objective_count);
        let mating_pool = self.tournament_selection(&fronts, &distances);
        let mut offspring = self.crossover_and_mutate(&mating_pool);
        let mut combined: Vec<S> = Vec::new();
        std::mem::swap(&mut combined, &mut self.population);
        combined.append(&mut offspring);
        self.population = next_generation(&combined, self.population_size);
        proof {
            let before = old(self).population();
            let after = self.population();
            if copies_keep_objectives::<S>() {
                let kept = choose|i: int|
                    0 <= i < after.len() && is_dominated_by_none(combined@, #[trigger] after[i]);
                assert forall|j: int| 0 <= j < before.len() implies !pareto_dominates(
                    (#[trigger] before[j]).objectives(),
                    after[kept].objectives(),
                ) by {
                    assert(combined@[j] == before[j]);
                }
                if S::objective_count() == 1 {
                    let best = choose|i: int|
                        0 <= i < after.len() && is_no_worse_than_all(combined@, #[trigger] after[i]);
                    assert forall|j: int| 0 <= j < before.len() implies (
                    #[trigger] before[j]).objectives().len() == 1 && after[best].objectives()[0]
                        <= before[j].objectives()[0] by {
                        assert(combined@[j] == before[j]);
                    }
                }
            }
        }
    }

    /// The members as they stand.
    pub fn current_population(&self) -> (members: &Vec<S>)
        ensures
            members@ == self.population(),
    {
        &self.population
    }

    /// Fills the mating pool, one tournament per place: two members are
    /// drawn at random, the same one twice at times, and a copy of the
    /// winner joins the pool.
    fn tournament_selection(&mut self, fronts: &Vec<Vec<usize>>, distances: &Vec<Crowding>) -> (pool:
        Vec<S>)
        requires
            old(self).well_formed(),
            is_partition(front_view(fronts@), old(self).population().len()),
            distances.len() == old(self).population().len(),
        ensures
            final(self).population() == old(self).population(),
            final(self).same_configuration(old(self)),
            pool.len() == old(self).population_size(),
            forall|k: int|
                0 <= k < pool.len() ==> is_tournament_winner(
                    old(self).population(),
                    front_view(fronts@),
                    distances@,
                    #[trigger] pool[k],
                ),
    {
        let members = self.population.len();
        let ranks = ranks_by_member(fronts, members);
        let ghost layers = front_view(fronts@);
        let mut pool: Vec<S> = Vec::new();
        while pool.len() < self.population_size
            invariant
                self.population() == old(self).population(),
                self.same_configuration(old(self)),
                members == self.population.len(),
                members > 0,
                layers == front_view(fronts@),
                ranks.len() == members,
                distances.len() == members,
                forall|p: int| 0 <= p < members ==> (#[trigger] ranks[p]) == front_of(layers, p),
                pool.len() <= self.population_size,
                forall|k: int|
                    0 <= k < pool.len() ==> is_tournament_winner(
                        self.population(),
                        layers,
                        distances@,
                        #[trigger] pool[k],
                    ),
            decreases self.population_size - pool.len(),
        {
            let first = draw_below(&mut self.source, members);
            let second = draw_below(&mut self.source, members);
            let feasible1 = self.population[first].feasible();
            let feasible2 = self.population[second].feasible();
            let winner = if first_wins(
                feasible1,
                ranks[first],
                distances[first],
                feasible2,
                ranks[second],
                distances[second],
            ) {
                first
            } else {
                second
            };
            let picked = self.population[winner].clone();
            proof {
                assert(winner == tournament_pick(
                    self.population(),
                    layers,
                    distances@,
                    first as int,
                    second as int,
                ));
            }
            pool.push(picked);
        }
        pool
    }

    /// Breeds one offspring from every second member of the mating pool and
    /// its successor, the last member pairing with the first where the pool
    /// has an odd size.
    fn crossover_and_mutate(&mut self, mating_pool: &Vec<S>) -> (offspring: Vec<S>)
        ensures
            final(self).population() == old(self).population(),
            final(self).same_configuration(old(self)),
            offspring.len() == (mating_pool.len() + 1) / 2,
            is_brood(
                mating_pool@,
                old(self).crossover_rate(),
                old(self).mutation_rate(),
                offspring@,
            ),
            copies_keep_bounds::<S>() && all_within_bounds(mating_pool@) ==> all_within_bounds(
                offspring@,
            ),
    {
        let size = mating_pool.len();
        let pairs = size / 2 + size % 2;
        let mut offspring: Vec<S> = Vec::new();
        let mut pair: usize = 0;
        while pair < pairs
            invariant
                self.population() == old(self).population(),
                self.same_configuration(old(self)),
                size == mating_pool.len(),
                pairs == (size + 1) / 2,
                pair <= pairs,
                offspring.len() == pair,
                forall|done: int|
                    0 <= done < pair ==> is_offspring(
                        mating_pool@,
                        done,
                        self.crossover_rate(),
                        self.mutation_rate(),
                        #[trigger] offspring[done],
                    ),
                copies_keep_bounds::<S>() && all_within_bounds(mating_pool@) ==> all_within_bounds(
                    offspring@,
                ),
            decreases pairs - pair,
        {
            let first = 2 * pair;
            let second = partner_of(first, size);
            let crossover_draw = draw_below(&mut self.source, RATE_SCALE as usize);
            let mutation_draw = draw_below(&mut self.source, RATE_SCALE as usize);
            let child = breed(
                &mating_pool[first],
                &mating_pool[second],
                crossover_draw < self.crossover_rate as usize,
                mutation_draw < self.mutation_rate as usize,
            );
            proof {
                assert(falls_below(crossover_draw as int, self.crossover_rate()) == (crossover_draw
                    < self.crossover_rate as usize));
                assert(falls_below(mutation_draw as int, self.mutation_rate()) == (mutation_draw
                    < self.mutation_rate as usize));
            }
            offspring.push(child);
            pair += 1;
        }
        offspring
    }
}

/// The place of the second parent: the successor of `first`, wrapping
/// around at the end of the pool.
pub fn partner_of(first: usize, size: usize) -> (second: usize)
    requires
        first < size,
    ensures
        second == (first + 1) % (size as int),
        second < size,
{
    (first + 1) % size
}

/// Makes one offspring: the crossover of the parents where `crossing` is
/// set, a copy of the first parent otherwise, mutated where `mutating` is
/// set.
pub fn breed<S: Solution>(parent1: &S, parent2: &S, crossing: bool, mutating: bool) -> (child: S)
    ensures
        is_bred(*parent1, *parent2, crossing, mutating, child),
        crossing ==> child.within_bounds(),
        copies_keep_bounds::<S>() && parent1.within_bounds() ==> child.within_bounds(),
{
    let mut child = if crossing {
        parent1.crossover(parent2)
    } else {
        parent1.clone()
    };
    let ghost base = child;
    assert(is_bred_base(*parent1, *parent2, crossing, base));
    if mutating {
        child.mutate();
    }
    child
}

} // verus!
