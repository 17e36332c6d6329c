//! The solver: one run of the genetic algorithm, and a series of runs with
//! their mean.

use crate::geometry::{lemma_tour_length_closed, spec_tour_length, tour_length, City};
use crate::mutation::MutationRate;
use crate::population::{
    best_index, best_length, evolve, evolves_to, initial_population, is_best,
};
use crate::tour::{is_population, is_tour};
use rand::rngs::StdRng;
use vstd::prelude::*;

verus! {

/// What a series of runs comes to.
#[derive(Debug, PartialEq, Eq)]
pub struct Summary {
    /// The mean of the distances of the runs, rounded down.
    pub mean_distance: u128,
    /// The route of the last run.
    pub last_route: Vec<usize>,
    /// The distance of the last run.
    pub last_distance: u128,
    /// The route of the best run: of the first among those of the least distance.
    pub best_route: Vec<usize>,
    /// The distance of the best run.
    pub best_distance: u128,
}

/// Why a configuration is refused.
#[derive(Clone, Copy, Debug, PartialEq, Eq)]
pub enum ConfigError {
    /// The population has fewer than two members, so that no two different
    /// parents can be selected.
    PopulationTooSmall,
    /// The mutation rate is no probability.
    MutationRateOutOfRange,
    /// There are fewer than two cities.
    TooFewCities,
    /// No run is asked for.
    NoRuns,
}

/// What the solver is to do. The number of generations cannot be negative.
#[derive(Clone, Copy, Debug, PartialEq, Eq)]
pub struct GaConfig {
    pub population_size: usize,
    pub num_generations: usize,
    pub mutation_rate: MutationRate,
    pub run_count: usize,
}

/// The outcome of a run: the best tour of the last generation, ending where
/// it began, and its length.
#[derive(Debug, PartialEq, Eq)]
pub struct RunResult {
    pub route: Vec<usize>,
    pub distance: u128,
}

/// The first fault of the parameters of a single run, if they have one.
pub open spec fn run_fault(
    num_cities: nat,
    population_size: usize,
    mutation_rate: MutationRate,
) -> Option<ConfigError> {
    if population_size < 2 {
        Some(ConfigError::PopulationTooSmall)
    } else if !mutation_rate.valid() {
        Some(ConfigError::MutationRateOutOfRange)
    } else if num_cities < 2 {
        Some(ConfigError::TooFewCities)
    } else {
        None
    }
}

impl GaConfig {
    /// The first fault of the configuration for a table of `num_cities`
    /// cities, if it has one.
    pub open spec fn fault(self, num_cities: nat) -> Option<ConfigError> {
        match run_fault(num_cities, self.population_size, self.mutation_rate) {
            Some(e) => Some(e),
            None => if self.run_count < 1 {
                Some(ConfigError::NoRuns)
            } else {
                None
            },
        }
    }

    /// Accepts the configuration for a table of `num_cities` cities, or names
    /// its first fault.
    pub fn validate(&self, num_cities: usize) -> (checked: Result<(), ConfigError>)
        ensures
            match self.fault(num_cities as nat) {
                Some(e) => checked == Err::<(), ConfigError>(e),
                None => checked is Ok,
            },
    {
        match check_run(num_cities, self.population_size, self.mutation_rate) {
            Err(e) => Err(e),
            Ok(()) => if self.run_count < 1 {
                Err(ConfigError::NoRuns)
            } else {
                Ok(())
            },
        }
    }
}

impl RunResult {
    /// The route is a tour of the cities that ends with a second visit to
    /// its first city, and the distance is its length.
    pub open spec fn is_closed_tour(self, cities: Seq<City>) -> bool {
        &&& self.route@.len() == cities.len() + 1
        &&& is_tour(self.route@.drop_last(), cities.len())
        &&& self.route@.last() == self.route@[0]
        &&& self.distance == spec_tour_length(cities, self.route@.drop_last())
        &&& self.distance == spec_tour_length(cities, self.route@)
    }

    /// The result reports the best member of `population`.
    pub open spec fn reports_best(self, cities: Seq<City>, population: Seq<Vec<usize>>) -> bool {
        &&& exists|i: int|
            is_best(cities, population, i) && self.route@ == (#[trigger] population[i]@).push(
                population[i]@[0],
            )
        &&& self.distance == best_length(cities, population)
    }
}

/// `result` is what a run gives that begins with the population `first` and
/// ends, after the given number of generations, with the population `last`.
pub open spec fn is_run_through(
    cities: Seq<City>,
    population_size: usize,
    num_generations: usize,
    mutation_rate: MutationRate,
    first: Seq<Vec<usize>>,
    last: Seq<Vec<usize>>,
    result: RunResult,
) -> bool {
    &&& first.len() == population_size
    &&& is_population(first, cities.len())
    &&& evolves_to(cities, mutation_rate, first, last, num_generations as nat)
    &&& result.reports_best(cities, last)
}

/// `result` is what a run can give: the best member of a population that
/// came, in `num_generations` generations, of a population of
/// `population_size` tours.
pub open spec fn is_run(
    cities: Seq<City>,
    population_size: usize,
    num_generations: usize,
    mutation_rate: MutationRate,
    result: RunResult,
) -> bool {
    &&& result.is_closed_tour(cities)
    &&& exists|first: Seq<Vec<usize>>, last: Seq<Vec<usize>>|
        #[trigger] is_run_through(
            cities,
            population_size,
            num_generations,
            mutation_rate,
            first,
            last,
            result,
        )
}

/// Position `i` holds the best of `runs`: the first among those of the least
/// distance.
pub open spec fn is_best_run(runs: Seq<RunResult>, i: int) -> bool {
    &&& 0 <= i < runs.len()
    &&& forall|j: int| 0 <= j < runs.len() ==> runs[i].distance <= (#[trigger] runs[j]).distance
    &&& forall|j: int| 0 <= j < i ==> runs[i].distance < (#[trigger] runs[j]).distance
}

impl Summary {
    /// The summary is that of `runs`: it holds their mean, the last of them
    /// and the best of them.
    pub open spec fn sums_up(self, runs: Seq<RunResult>) -> bool {
        &&& runs.len() > 0
        &&& self.mean_distance == total_distance(runs) / runs.len()
        &&& self.last_route@ == runs.last().route@
        &&& self.last_distance == runs.last().distance
        &&& exists|i: int|
            #[trigger] is_best_run(runs, i) && self.best_route@ == runs[i].route@
                && self.best_distance == runs[i].distance
    }
}

/// `runs` are runs that the configuration asks for, as many as it asks for.
pub open spec fn are_runs(cities: Seq<City>, config: GaConfig, runs: Seq<RunResult>) -> bool {
    &&& runs.len() == config.run_count
    &&& forall|i: int|
        0 <= i < runs.len() ==> is_run(
            cities,
            config.population_size,
            config.num_generations,
            config.mutation_rate,
            #[trigger] runs[i],
        )
}

/// The sum of the distances of `runs`.
pub open spec fn total_distance(runs: Seq<RunResult>) -> nat
    decreases runs.len(),
{
    if runs.len() == 0 {
        0
    } else {
        total_distance(runs.drop_last()) + runs.last().distance as nat
    }
}

/// No distance is more than the greatest number that can stand for one.
proof fn lemma_total_distance_bound(runs: Seq<RunResult>)
    ensures
        total_distance(runs) <= runs.len() * u128::MAX,
    decreases runs.len(),
{
    if runs.len() > 0 {
        lemma_total_distance_bound(runs.drop_last());
        assert((runs.len() - 1) * u128::MAX + u128::MAX == runs.len() * u128::MAX)
            by (nonlinear_arith);
    } else {
        assert(0 * u128::MAX == 0) by (nonlinear_arith);
    }
}

/// Accepts the parameters of a single run, or names their first fault.
pub fn check_run(
    num_cities: usize,
    population_size: usize,
    mutation_rate: MutationRate,
) -> (checked: Result<(), ConfigError>)
    ensures
        match run_fault(num_cities as nat, population_size, mutation_rate) {
            Some(e) => checked == Err::<(), ConfigError>(e),
            None => checked is Ok,
        },
{
    if population_size < 2 {
        Err(ConfigError::PopulationTooSmall)
    } else if !mutation_rate.is_valid() {
        Err(ConfigError::MutationRateOutOfRange)
    } else if num_cities < 2 {
        Err(ConfigError::TooFewCities)
    } else {
        Ok(())
    }
}

/// The best member of `population` as a result: its route with the first city
/// added at the end, which closes the loop, and its length.
pub fn best_of(population: &Vec<Vec<usize>>, city_positions: &Vec<City>) -> (result: RunResult)
    requires
        population@.len() > 0,
        city_positions@.len() > 0,
        is_population(population@, city_positions@.len()),
    ensures
        result.reports_best(city_positions@, population@),
        result.is_closed_tour(city_positions@),
{
    let best: usize = best_index(population, city_positions);
    let best_route: &Vec<usize> = &population[best];
    let origin_city: usize = best_route[0];
    let mut final_route: Vec<usize> = best_route.clone();
    final_route.push(origin_city);
    proof {
        assert(final_route@ == population@[best as int]@.push(population@[best as int]@[0]));
        assert(final_route@.drop_last() =~= population@[best as int]@);
        lemma_tour_length_closed(city_positions@, population@[best as int]@);
    }
    let best_distance: u128 = tour_length(&final_route, city_positions);
    RunResult { route: final_route, distance: best_distance }
}

/// One run with parameters that have no fault.
fn run_once(
    city_positions: &Vec<City>,
    population_size: usize,
    num_generations: usize,
    mutation_rate: MutationRate,
    rng: &mut StdRng,
) -> (result: RunResult)
    requires
        run_fault(city_positions@.len(), population_size, mutation_rate) is None,
    ensures
        is_run(city_positions@, population_size, num_generations, mutation_rate, result),
{
    let population: Vec<Vec<usize>> = initial_population(
        city_positions.len(),
        population_size,
        rng,
    );
    let ghost first = population@;
    let population: Vec<Vec<usize>> = evolve(
        population,
        city_positions,
        num_generations,
        mutation_rate,
        rng,
    );
    let result: RunResult = best_of(&population, city_positions);
    proof {
        assert(is_run_through(
            city_positions@,
            population_size,
            num_generations,
            mutation_rate,
            first,
            population@,
            result,
        ));
    }
    result
}

/// One run of the genetic algorithm.
///
/// The parameters are checked before anything is drawn or computed. Then a
/// population of `population_size` random tours goes through
/// `num_generations` generations, and the best member of the last is given
/// with its length.
pub fn genetic_algorithm(
    city_positions: &Vec<City>,
    population_size: usize,
    num_generations: usize,
    mutation_rate: MutationRate,
    rng: &mut StdRng,
) -> (result: Result<RunResult, ConfigError>)
    ensures
        match run_fault(city_positions@.len(), population_size, mutation_rate) {
            Some(e) => result matches Err(err) && err == e,
            None => result matches Ok(run) && is_run(
                city_positions@,
                population_size,
                num_generations,
                mutation_rate,
                run,
            ),
        },
{
    match check_run(city_positions.len(), population_size, mutation_rate) {
        Err(e) => Err(e),
        Ok(()) => Ok(
            run_once(city_positions, population_size, num_generations, mutation_rate, rng),
        ),
    }
}

/// As many runs as the configuration asks for, each on its own, in the order
/// in which they were made.
///
/// The configuration is checked before anything is drawn or computed.
pub fn run_trials(
    city_positions: &Vec<City>,
    config: &GaConfig,
    rng: &mut StdRng,
) -> (result: Result<Vec<RunResult>, ConfigError>)
    ensures
        match config.fault(city_positions@.len()) {
            Some(e) => result matches Err(err) && err == e,
            None => result matches Ok(runs) && are_runs(city_positions@, *config, runs@),
        },
{
    match config.validate(city_positions.len()) {
        Err(e) => Err(e),
        Ok(()) => {
            let mut runs: Vec<RunResult> = Vec::new();
            let mut count: usize = 0;
            while count < config.run_count
                invariant
                    count <= config.run_count,
                    runs@.len() == count,
                    config.fault(city_positions@.len()) is None,
                    forall|i: int|
                        0 <= i < runs@.len() ==> is_run(
                            city_positions@,
                            config.population_size,
                            config.num_generations,
                            config.mutation_rate,
                            #[trigger] runs@[i],
                        ),
                decreases config.run_count - count,
            {
                let run: RunResult = run_once(
                    city_positions,
                    config.population_size,
                    config.num_generations,
                    config.mutation_rate,
                    rng,
                );
                runs.push(run);
                count = count + 1;
            }
            Ok(runs)
        },
    }
}

/// The mean of the distances of `runs`, rounded down.
pub fn mean_distance(runs: &Vec<RunResult>) -> (mean: u128)
    requires
        runs@.len() > 0,
    ensures
        mean == total_distance(runs@) / runs@.len(),
{
    let count: u128 = runs.len() as u128;
    let ghost share: int = (u128::MAX as int) / (count as int);
    // The distances are summed as quotients and remainders by the number of
    // runs, which keeps both sums within range whatever the distances are.
    let mut quotients: u128 = 0;
    let mut remainders: u128 = 0;
    let mut i: usize = 0;
    proof {
        assert(count * share <= u128::MAX) by (nonlinear_arith)
            requires
                count > 0,
                share == (u128::MAX as int) / (count as int),
        ;
        assert(0 * share == 0 && 0 * (count - 1) == 0) by (nonlinear_arith);
        assert(0 * count + 0 == 0) by (nonlinear_arith);
    }
    while i < runs.len()
        invariant
            i <= runs@.len(),
            count == runs@.len(),
            0 < count <= 0xFFFF_FFFF_FFFF_FFFF,
            share == (u128::MAX as int) / (count as int),
            count * share <= u128::MAX,
            quotients <= i * share,
            remainders <= i * (count - 1),
            quotients * count + remainders == total_distance(runs@.take(i as int)),
        decreases runs@.len() - i,
    {
        let distance: u128 = runs[i].distance;
        let quotient: u128 = distance / count;
        let remainder: u128 = distance % count;
        proof {
            assert(runs@.take(i + 1).drop_last() =~= runs@.take(i as int));
            assert(runs@.take(i + 1).last() == runs@[i as int]);
            vstd::arithmetic::div_mod::lemma_fundamental_div_mod(distance as int, count as int);
            vstd::arithmetic::div_mod::lemma_div_is_ordered(
                distance as int,
                u128::MAX as int,
                count as int,
            );
            assert((i + 1) * share <= count * share && (i + 1) * share == i * share + share)
                by (nonlinear_arith)
                requires
                    i + 1 <= count,
                    share >= 0,
            ;
            assert((i + 1) * (count - 1) == i * (count - 1) + (count - 1) && (i + 1) * (count - 1)
                <= 0xFFFF_FFFF_FFFF_FFFF * 0xFFFF_FFFF_FFFF_FFFF) by (nonlinear_arith)
                requires
                    0 <= i,
                    i + 1 <= count,
                    0 < count <= 0xFFFF_FFFF_FFFF_FFFF,
            ;
            assert((quotients + quotient) * count + (remainders + remainder) == quotients * count
                + remainders + (count * quotient + remainder)) by (nonlinear_arith);
        }
        quotients = quotients + quotient;
        remainders = remainders + remainder;
        i = i + 1;
    }
    proof {
        assert(runs@.take(runs@.len() as int) =~= runs@);
        vstd::arithmetic::div_mod::lemma_hoist_over_denominator(
            remainders as int,
            quotients as int,
            count as nat,
        );
        lemma_total_distance_bound(runs@);
        vstd::arithmetic::div_mod::lemma_div_is_ordered(
            total_distance(runs@) as int,
            count * u128::MAX,
            count as int,
        );
        vstd::arithmetic::div_mod::lemma_div_multiples_vanish(u128::MAX as int, count as int);
        assert(count * u128::MAX == u128::MAX * count) by (nonlinear_arith);
        assert(quotients * count + remainders == remainders + quotients * count);
    }
    quotients + remainders / count
}

/// The position of the best of `runs`: of the first among those of the least
/// distance.
pub fn best_run(runs: &Vec<RunResult>) -> (index: usize)
    requires
        runs@.len() > 0,
    ensures
        is_best_run(runs@, index as int),
{
    let mut index: usize = 0;
    let mut i: usize = 1;
    while i < runs.len()
        invariant
            1 <= i <= runs@.len(),
            index < i,
            forall|j: int|
                0 <= j < i ==> runs@[index as int].distance <= (#[trigger] runs@[j]).distance,
            forall|j: int|
                0 <= j < index ==> runs@[index as int].distance < (#[trigger] runs@[j]).distance,
        decreases runs@.len() - i,
    {
        if runs[i].distance < runs[index].distance {
            index = i;
        }
        i = i + 1;
    }
    index
}

/// The mean of `runs`, the last of them and the best of them.
pub fn summarize(runs: &Vec<RunResult>) -> (summary: Summary)
    requires
        runs@.len() > 0,
    ensures
        summary.sums_up(runs@),
{
    let last: usize = runs.len() - 1;
    let best: usize = best_run(runs);
    Summary {
        mean_distance: mean_distance(runs),
        last_route: runs[last].route.clone(),
        last_distance: runs[last].distance,
        best_route: runs[best].route.clone(),
        best_distance: runs[best].distance,
    }
}

/// Solves the problem: makes the runs that the configuration asks for and
/// sums them up.
///
/// The configuration is checked before anything is drawn or computed.
pub fn solve(
    city_positions: &Vec<City>,
    config: &GaConfig,
    rng: &mut StdRng,
) -> (result: Result<Summary, ConfigError>)
    ensures
        match config.fault(city_positions@.len()) {
            Some(e) => result matches Err(err) && err == e,
            None => result matches Ok(summary) && exists|runs: Seq<RunResult>|
                #[trigger] are_runs(city_positions@, *config, runs) && summary.sums_up(runs),
        },
{
    match run_trials(city_positions, config, rng) {
        Err(e) => Err(e),
        Ok(runs) => {
            let summary: Summary = summarize(&runs);
            proof {
                assert(are_runs(city_positions@, *config, runs@));
            }
            Ok(summary)
        },
    }
}

} // verus!
