use rand::rngs::StdRng;
use rand::SeedableRng;
use tsp_genetic::geometry::{tour_length, City};
use tsp_genetic::mutation::MutationRate;
use tsp_genetic::solver::{
    best_of, best_run, check_run, genetic_algorithm, mean_distance, run_trials, solve, summarize,
    ConfigError, GaConfig, RunResult,
};
use tsp_genetic::tour::is_permutation;

fn unit_square() -> Vec<City> {
    vec![City { x: 0, y: 0 }, City { x: 0, y: 1 }, City { x: 1, y: 1 }, City { x: 1, y: 0 }]
}

fn twelve_cities() -> Vec<City> {
    let points = [
        (1, 5), (4, 6), (7, 5), (5, 4), (9, 4), (2, 3),
        (4, 2), (6, 2), (1, 1), (5, 1), (3, 0), (9, 0),
    ];
    points.iter().map(|&(x, y)| City { x, y }).collect()
}

fn config(population_size: usize, num_generations: usize, run_count: usize) -> GaConfig {
    GaConfig {
        population_size,
        num_generations,
        mutation_rate: MutationRate { numerator: 5, denominator: 100 },
        run_count,
    }
}

fn run(distance: u128) -> RunResult {
    RunResult { route: vec![0, 1, 0], distance }
}

#[test]
fn a_population_of_one_is_refused() {
    let cities = unit_square();
    let mut rng = StdRng::seed_from_u64(1);
    assert_eq!(config(1, 50, 10).validate(4), Err(ConfigError::PopulationTooSmall));
    assert_eq!(
        run_trials(&cities, &config(1, 50, 10), &mut rng),
        Err(ConfigError::PopulationTooSmall)
    );
    let rate = MutationRate { numerator: 5, denominator: 100 };
    assert_eq!(
        genetic_algorithm(&cities, 1, 50, rate, &mut rng),
        Err(ConfigError::PopulationTooSmall)
    );
}

#[test]
fn an_empty_population_is_refused() {
    assert_eq!(config(0, 50, 10).validate(4), Err(ConfigError::PopulationTooSmall));
}

#[test]
fn a_mutation_rate_above_one_is_refused() {
    let mut bad = config(20, 50, 10);
    bad.mutation_rate = MutationRate { numerator: 3, denominator: 2 };
    assert_eq!(bad.validate(4), Err(ConfigError::MutationRateOutOfRange));
    let cities = unit_square();
    let mut rng = StdRng::seed_from_u64(1);
    assert_eq!(run_trials(&cities, &bad, &mut rng), Err(ConfigError::MutationRateOutOfRange));
}

#[test]
fn a_mutation_rate_over_zero_is_refused() {
    let mut bad = config(20, 50, 10);
    bad.mutation_rate = MutationRate { numerator: 0, denominator: 0 };
    assert_eq!(bad.validate(4), Err(ConfigError::MutationRateOutOfRange));
}

#[test]
fn fewer_than_two_cities_are_refused() {
    assert_eq!(config(20, 50, 10).validate(1), Err(ConfigError::TooFewCities));
    assert_eq!(config(20, 50, 10).validate(0), Err(ConfigError::TooFewCities));
    let cities = vec![City { x: 0, y: 0 }];
    let mut rng = StdRng::seed_from_u64(1);
    assert_eq!(run_trials(&cities, &config(20, 50, 10), &mut rng), Err(ConfigError::TooFewCities));
}

#[test]
fn no_runs_are_refused() {
    assert_eq!(config(20, 50, 0).validate(4), Err(ConfigError::NoRuns));
    let cities = unit_square();
    let mut rng = StdRng::seed_from_u64(1);
    assert_eq!(run_trials(&cities, &config(20, 50, 0), &mut rng), Err(ConfigError::NoRuns));
}

#[test]
fn the_first_fault_is_named() {
    let mut bad = config(1, 50, 0);
    bad.mutation_rate = MutationRate { numerator: 3, denominator: 2 };
    assert_eq!(bad.validate(0), Err(ConfigError::PopulationTooSmall));
    bad.population_size = 2;
    assert_eq!(bad.validate(0), Err(ConfigError::MutationRateOutOfRange));
    bad.mutation_rate = MutationRate { numerator: 1, denominator: 2 };
    assert_eq!(bad.validate(0), Err(ConfigError::TooFewCities));
    assert_eq!(bad.validate(2), Err(ConfigError::NoRuns));
    bad.run_count = 1;
    assert_eq!(bad.validate(2), Ok(()));
}

#[test]
fn a_configuration_at_its_limits_is_accepted() {
    let mut least = config(2, 0, 1);
    least.mutation_rate = MutationRate { numerator: 0, denominator: 1 };
    assert_eq!(least.validate(2), Ok(()));
    least.mutation_rate = MutationRate { numerator: 1, denominator: 1 };
    assert_eq!(least.validate(2), Ok(()));
}

#[test]
fn check_run_does_not_ask_for_runs() {
    let rate = MutationRate { numerator: 1, denominator: 100 };
    assert_eq!(check_run(12, 100, rate), Ok(()));
    assert_eq!(check_run(12, 1, rate), Err(ConfigError::PopulationTooSmall));
    assert_eq!(check_run(1, 100, rate), Err(ConfigError::TooFewCities));
}

#[test]
fn best_of_closes_the_loop() {
    let cities = unit_square();
    let population = vec![vec![0, 2, 1, 3], vec![2, 3, 0, 1], vec![1, 3, 0, 2]];
    let result = best_of(&population, &cities);
    assert_eq!(result.route, vec![2, 3, 0, 1, 2]);
    assert_eq!(result.distance, 4_000_000);
}

#[test]
fn genetic_algorithm_gives_a_closed_tour_and_its_length() {
    let cities = twelve_cities();
    let rate = MutationRate { numerator: 1, denominator: 100 };
    for seed in 0..5 {
        let mut rng = StdRng::seed_from_u64(seed);
        let result = genetic_algorithm(&cities, 30, 40, rate, &mut rng).unwrap();
        assert_eq!(result.route.len(), 13);
        assert_eq!(result.route[0], result.route[12]);
        let open: Vec<usize> = result.route[..12].to_vec();
        assert!(is_permutation(&open));
        assert_eq!(result.distance, tour_length(&open, &cities));
        assert_eq!(result.distance, tour_length(&result.route, &cities));
    }
}

#[test]
fn genetic_algorithm_without_generations_reports_the_first_population() {
    let cities = twelve_cities();
    let rate = MutationRate { numerator: 1, denominator: 100 };
    let mut rng = StdRng::seed_from_u64(3);
    let result = genetic_algorithm(&cities, 2, 0, rate, &mut rng).unwrap();
    assert_eq!(result.route.len(), 13);
    assert!(is_permutation(&result.route[..12].to_vec()));
}

#[test]
fn genetic_algorithm_improves_on_the_table_order() {
    let cities = twelve_cities();
    let rate = MutationRate { numerator: 1, denominator: 100 };
    let mut rng = StdRng::seed_from_u64(42);
    let result = genetic_algorithm(&cities, 100, 200, rate, &mut rng).unwrap();
    assert!(result.distance < 50_636_822);
    assert!(result.distance < 40_000_000);
}

#[test]
fn the_unit_square_is_solved() {
    let cities = unit_square();
    for seed in 0..5 {
        let mut rng = StdRng::seed_from_u64(seed);
        let runs = run_trials(&cities, &config(20, 50, 10), &mut rng).unwrap();
        assert_eq!(runs.len(), 10);
        let mean = mean_distance(&runs);
        assert!(mean >= 4_000_000);
        assert!(mean <= 4_200_000);
        for result in &runs {
            assert!(result.distance == 4_000_000 || result.distance == 4_828_426);
        }
    }
}

#[test]
fn equal_seeds_give_equal_runs() {
    let cities = twelve_cities();
    let settings = config(30, 25, 4);
    let mut first_rng = StdRng::seed_from_u64(123_456);
    let mut second_rng = StdRng::seed_from_u64(123_456);
    let first = run_trials(&cities, &settings, &mut first_rng).unwrap();
    let second = run_trials(&cities, &settings, &mut second_rng).unwrap();
    assert_eq!(first, second);
}

#[test]
fn runs_of_one_series_are_drawn_apart() {
    let cities = twelve_cities();
    let mut rng = StdRng::seed_from_u64(77);
    let runs = run_trials(&cities, &config(10, 3, 8), &mut rng).unwrap();
    assert_eq!(runs.len(), 8);
    assert!(runs.iter().any(|result| result.route != runs[0].route));
}

#[test]
fn mean_distance_is_the_mean() {
    assert_eq!(mean_distance(&vec![run(4), run(5), run(6)]), 5);
    assert_eq!(mean_distance(&vec![run(4_000_000)]), 4_000_000);
    assert_eq!(mean_distance(&vec![run(0), run(0)]), 0);
}

#[test]
fn mean_distance_is_rounded_down() {
    assert_eq!(mean_distance(&vec![run(1), run(2)]), 1);
    assert_eq!(mean_distance(&vec![run(2), run(2), run(3)]), 2);
    assert_eq!(mean_distance(&vec![run(5), run(5), run(7), run(2)]), 4);
}

#[test]
fn mean_distance_of_the_greatest_distances() {
    assert_eq!(mean_distance(&vec![run(u128::MAX), run(u128::MAX), run(u128::MAX)]), u128::MAX);
    assert_eq!(
        mean_distance(&vec![run(u128::MAX), run(0)]),
        170_141_183_460_469_231_731_687_303_715_884_105_727
    );
}

#[test]
fn best_run_is_the_first_of_the_least_distance() {
    assert_eq!(best_run(&vec![run(9), run(4), run(7), run(4)]), 1);
    assert_eq!(best_run(&vec![run(3)]), 0);
    assert_eq!(best_run(&vec![run(3), run(3)]), 0);
}

#[test]
fn summarize_gives_the_mean_the_last_and_the_best() {
    let runs = vec![
        RunResult { route: vec![0, 1, 2, 0], distance: 9 },
        RunResult { route: vec![1, 2, 0, 1], distance: 4 },
        RunResult { route: vec![2, 0, 1, 2], distance: 4 },
        RunResult { route: vec![0, 2, 1, 0], distance: 8 },
    ];
    let summary = summarize(&runs);
    assert_eq!(summary.mean_distance, 6);
    assert_eq!(summary.last_route, vec![0, 2, 1, 0]);
    assert_eq!(summary.last_distance, 8);
    assert_eq!(summary.best_route, vec![1, 2, 0, 1]);
    assert_eq!(summary.best_distance, 4);
}

#[test]
fn summarize_of_one_run() {
    let summary = summarize(&vec![run(7)]);
    assert_eq!(summary.mean_distance, 7);
    assert_eq!(summary.last_route, vec![0, 1, 0]);
    assert_eq!(summary.last_distance, 7);
    assert_eq!(summary.best_route, vec![0, 1, 0]);
    assert_eq!(summary.best_distance, 7);
}

#[test]
fn solve_refuses_a_faulty_configuration() {
    let cities = unit_square();
    let mut rng = StdRng::seed_from_u64(1);
    assert_eq!(solve(&cities, &config(1, 50, 10), &mut rng), Err(ConfigError::PopulationTooSmall));
    assert_eq!(solve(&cities, &config(20, 50, 0), &mut rng), Err(ConfigError::NoRuns));
    let one_city = cities[..1].to_vec();
    assert_eq!(solve(&one_city, &config(20, 50, 1), &mut rng), Err(ConfigError::TooFewCities));
}

#[test]
fn solve_sums_up_its_runs() {
    let cities = twelve_cities();
    let settings = config(30, 25, 6);
    let mut rng = StdRng::seed_from_u64(2);
    let summary = solve(&cities, &settings, &mut rng).unwrap();
    let mut again = StdRng::seed_from_u64(2);
    let runs = run_trials(&cities, &settings, &mut again).unwrap();
    assert_eq!(summary, summarize(&runs));
    assert_eq!(summary.mean_distance, mean_distance(&runs));
    assert_eq!(summary.last_route, runs[5].route);
    assert!(summary.best_distance <= summary.last_distance);
    assert!(summary.best_distance <= summary.mean_distance);
}

#[test]
fn solve_finds_the_unit_square() {
    let cities = unit_square();
    let mut rng = StdRng::seed_from_u64(10);
    let summary = solve(&cities, &config(20, 50, 10), &mut rng).unwrap();
    assert!(summary.mean_distance <= 4_200_000);
    assert_eq!(summary.best_distance, 4_000_000);
    assert_eq!(summary.best_route.len(), 5);
}

#[test]
fn equal_seeds_give_equal_summaries() {
    let cities = twelve_cities();
    let settings = config(20, 30, 3);
    let mut first_rng = StdRng::seed_from_u64(999);
    let mut second_rng = StdRng::seed_from_u64(999);
    assert_eq!(
        solve(&cities, &settings, &mut first_rng),
        solve(&cities, &settings, &mut second_rng)
    );
}
