use rand::rngs::StdRng;
use rand::seq::SliceRandom;
use rand::SeedableRng;
use tsp_genetic::crossover::{crossover, crossover_at};
use tsp_genetic::tour::is_permutation;

fn ascending() -> Vec<usize> {
    vec![0, 1, 2, 3, 4, 5, 6, 7]
}

fn descending() -> Vec<usize> {
    vec![7, 6, 5, 4, 3, 2, 1, 0]
}

/// The child built one slot at a time: the window first, then each gene of
/// the donor that the child lacks into the first free slot.
fn fill_slot_by_slot(keeper: &[usize], donor: &[usize], start: usize, end: usize) -> Vec<usize> {
    let n = keeper.len();
    let mut child: Vec<Option<usize>> = vec![None; n];
    for i in start..=end {
        child[i] = Some(keeper[i]);
    }
    let mut index = (end + 1) % n;
    for _ in 0..n {
        if !child.contains(&Some(donor[index])) {
            let free = child.iter().position(|slot| slot.is_none()).unwrap();
            child[free] = Some(donor[index]);
        }
        index = (index + 1) % n;
    }
    child.into_iter().map(|slot| slot.unwrap()).collect()
}

#[test]
fn crossover_at_agrees_with_filling_slot_by_slot() {
    let mut rng = StdRng::seed_from_u64(31);
    for n in 1..9usize {
        for _ in 0..6 {
            let mut parent1: Vec<usize> = (0..n).collect();
            let mut parent2: Vec<usize> = (0..n).collect();
            parent1.shuffle(&mut rng);
            parent2.shuffle(&mut rng);
            for gene1 in 0..n {
                for gene2 in 0..n {
                    let start = gene1.min(gene2);
                    let end = gene1.max(gene2);
                    let (child1, child2) = crossover_at((&parent1, &parent2), gene1, gene2);
                    assert_eq!(child1, fill_slot_by_slot(&parent1, &parent2, start, end));
                    assert_eq!(child2, fill_slot_by_slot(&parent2, &parent1, start, end));
                }
            }
        }
    }
}

#[test]
fn crossover_at_keeps_the_window_and_fills_from_the_other_parent() {
    let (child1, child2) = crossover_at((&ascending(), &descending()), 2, 4);
    assert_eq!(child1, vec![1, 0, 2, 3, 4, 7, 6, 5]);
    assert_eq!(child2, vec![6, 7, 5, 4, 3, 0, 1, 2]);
}

#[test]
fn crossover_at_takes_the_cut_points_in_either_order() {
    let (child1, child2) = crossover_at((&ascending(), &descending()), 4, 2);
    assert_eq!(child1, vec![1, 0, 2, 3, 4, 7, 6, 5]);
    assert_eq!(child2, vec![6, 7, 5, 4, 3, 0, 1, 2]);
}

#[test]
fn crossover_at_one_position() {
    let (child1, child2) = crossover_at((&ascending(), &descending()), 0, 0);
    assert_eq!(child1, vec![0, 6, 5, 4, 3, 2, 1, 7]);
    assert_eq!(child2, vec![7, 1, 2, 3, 4, 5, 6, 0]);
}

#[test]
fn crossover_at_the_whole_tour_copies_the_parents() {
    let (child1, child2) = crossover_at((&ascending(), &descending()), 0, 7);
    assert_eq!(child1, ascending());
    assert_eq!(child2, descending());
}

#[test]
fn crossover_at_a_window_that_ends_the_tour_reads_from_the_start() {
    let (child1, child2) = crossover_at((&ascending(), &descending()), 5, 7);
    assert_eq!(child1, vec![4, 3, 2, 1, 0, 5, 6, 7]);
    assert_eq!(child2, vec![3, 4, 5, 6, 7, 2, 1, 0]);
}

#[test]
fn crossover_at_of_equal_parents_fills_from_behind_the_window() {
    let parent = vec![2, 0, 3, 1];
    let (child1, child2) = crossover_at((&parent, &parent), 1, 2);
    assert_eq!(child1, vec![1, 0, 3, 2]);
    assert_eq!(child2, vec![1, 0, 3, 2]);
}

#[test]
fn crossover_at_of_a_single_city() {
    let parent = vec![0];
    let (child1, child2) = crossover_at((&parent, &parent), 0, 0);
    assert_eq!(child1, vec![0]);
    assert_eq!(child2, vec![0]);
}

#[test]
fn crossover_at_gives_tours_for_every_pair_of_cut_points() {
    let parent1 = vec![4, 1, 5, 0, 3, 2];
    let parent2 = vec![2, 5, 3, 1, 0, 4];
    for gene1 in 0..6 {
        for gene2 in 0..6 {
            let (child1, child2) = crossover_at((&parent1, &parent2), gene1, gene2);
            assert!(is_permutation(&child1));
            assert!(is_permutation(&child2));
            let start = gene1.min(gene2);
            let end = gene1.max(gene2);
            assert_eq!(child1[start..=end], parent1[start..=end]);
            assert_eq!(child2[start..=end], parent2[start..=end]);
        }
    }
}

#[test]
fn crossover_gives_tours() {
    let parent1 = vec![4, 1, 5, 0, 3, 2, 6, 9, 8, 7];
    let parent2 = vec![9, 2, 5, 3, 1, 0, 4, 8, 7, 6];
    for seed in 0..200 {
        let mut rng = StdRng::seed_from_u64(seed);
        let (child1, child2) = crossover((&parent1, &parent2), &mut rng);
        assert_eq!(child1.len(), 10);
        assert_eq!(child2.len(), 10);
        assert!(is_permutation(&child1));
        assert!(is_permutation(&child2));
    }
}

#[test]
fn crossover_draws_its_cut_points() {
    let parent1 = vec![4, 1, 5, 0, 3, 2, 6, 9, 8, 7];
    let parent2 = vec![9, 2, 5, 3, 1, 0, 4, 8, 7, 6];
    let mut seen: Vec<Vec<usize>> = Vec::new();
    for seed in 0..50 {
        let mut rng = StdRng::seed_from_u64(seed);
        let (child1, _) = crossover((&parent1, &parent2), &mut rng);
        if !seen.contains(&child1) {
            seen.push(child1);
        }
    }
    assert!(seen.len() > 5);
}

#[test]
fn crossover_is_one_of_the_crossovers_at_cut_points() {
    let parent1 = vec![4, 1, 5, 0, 3, 2];
    let parent2 = vec![2, 5, 3, 1, 0, 4];
    for seed in 0..40 {
        let mut rng = StdRng::seed_from_u64(seed);
        let children = crossover((&parent1, &parent2), &mut rng);
        let mut found = false;
        for gene1 in 0..6 {
            for gene2 in 0..6 {
                if crossover_at((&parent1, &parent2), gene1, gene2) == children {
                    found = true;
                }
            }
        }
        assert!(found);
    }
}
