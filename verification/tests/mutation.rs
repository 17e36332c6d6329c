use rand::rngs::StdRng;
use rand::SeedableRng;
use tsp_genetic::mutation::{draw_plan, mutate_by_plan, mutation, MutationRate};
use tsp_genetic::tour::is_permutation;

fn rate(numerator: u32, denominator: u32) -> MutationRate {
    MutationRate { numerator, denominator }
}

#[test]
fn mutation_rate_is_valid_between_zero_and_one() {
    assert!(rate(0, 1).is_valid());
    assert!(rate(1, 100).is_valid());
    assert!(rate(7, 7).is_valid());
    assert!(!rate(2, 1).is_valid());
    assert!(!rate(0, 0).is_valid());
    assert!(!rate(1, 0).is_valid());
}

#[test]
fn mutate_by_plan_makes_the_exchanges_in_order() {
    let mut route = vec![0, 1, 2, 3];
    mutate_by_plan(&mut route, &vec![Some(1), Some(2), None, Some(0)]);
    assert_eq!(route, vec![3, 2, 0, 1]);
}

#[test]
fn mutate_by_plan_with_itself_changes_nothing() {
    let mut route = vec![2, 0, 1];
    mutate_by_plan(&mut route, &vec![Some(0), Some(1), Some(2)]);
    assert_eq!(route, vec![2, 0, 1]);
}

#[test]
fn mutate_by_plan_without_exchanges_changes_nothing() {
    let mut route = vec![2, 0, 1];
    mutate_by_plan(&mut route, &vec![None, None, None]);
    assert_eq!(route, vec![2, 0, 1]);
}

#[test]
fn mutate_by_plan_can_undo_an_exchange() {
    let mut route = vec![0, 1, 2, 3];
    mutate_by_plan(&mut route, &vec![Some(2), None, Some(0), Some(3)]);
    assert_eq!(route, vec![0, 1, 2, 3]);
}

#[test]
fn draw_plan_at_rate_zero_is_idle() {
    let mut rng = StdRng::seed_from_u64(3);
    let plan = draw_plan(20, rate(0, 5), &mut rng);
    assert_eq!(plan, vec![None; 20]);
}

#[test]
fn draw_plan_at_rate_one_exchanges_every_position() {
    let mut rng = StdRng::seed_from_u64(3);
    let plan = draw_plan(20, rate(5, 5), &mut rng);
    assert_eq!(plan.len(), 20);
    for entry in &plan {
        match entry {
            Some(j) => assert!(*j < 20),
            None => panic!("a position was left out"),
        }
    }
    let first = plan[0];
    assert!(plan.iter().any(|entry| *entry != first));
}

#[test]
fn draw_plan_follows_the_rate() {
    let mut rng = StdRng::seed_from_u64(11);
    let plan = draw_plan(20_000, rate(1, 4), &mut rng);
    let hits = plan.iter().filter(|entry| entry.is_some()).count();
    assert!(hits > 4_600 && hits < 5_400);
}

#[test]
fn mutation_at_rate_zero_changes_nothing() {
    let mut rng = StdRng::seed_from_u64(1);
    let mut route = vec![3, 1, 4, 0, 2];
    mutation(&mut route, rate(0, 1), &mut rng);
    assert_eq!(route, vec![3, 1, 4, 0, 2]);
}

#[test]
fn mutation_keeps_a_tour_a_tour() {
    for seed in 0..100 {
        let mut rng = StdRng::seed_from_u64(seed);
        let mut route: Vec<usize> = (0..15).collect();
        mutation(&mut route, rate(seed as u32 % 11, 10), &mut rng);
        assert_eq!(route.len(), 15);
        assert!(is_permutation(&route));
    }
}

#[test]
fn mutation_keeps_the_genes_of_any_route() {
    let mut rng = StdRng::seed_from_u64(5);
    let mut route = vec![7, 7, 2, 9, 2, 4];
    mutation(&mut route, rate(1, 1), &mut rng);
    let mut sorted = route.clone();
    sorted.sort();
    assert_eq!(sorted, vec![2, 2, 4, 7, 7, 9]);
}

#[test]
fn mutation_at_rate_one_reorders() {
    let start: Vec<usize> = (0..30).collect();
    let mut changed = 0;
    for seed in 0..20 {
        let mut rng = StdRng::seed_from_u64(seed);
        let mut route = start.clone();
        mutation(&mut route, rate(1, 1), &mut rng);
        if route != start {
            changed += 1;
        }
    }
    assert!(changed >= 19);
}

#[test]
fn mutation_of_an_empty_route() {
    let mut rng = StdRng::seed_from_u64(5);
    let mut route: Vec<usize> = Vec::new();
    mutation(&mut route, rate(1, 2), &mut rng);
    assert!(route.is_empty());
}
