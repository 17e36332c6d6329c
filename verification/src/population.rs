//! Populations of tours, and the step from one generation to the next.

use crate::crossover::{crossover, is_crossover, lemma_child_is_tour, spec_child};
use crate::geometry::{spec_tour_length, tour_length, City};
use crate::mutation::{lemma_mutated_same_genes, mutated, mutation, plan_follows, MutationRate};
use crate::random::shuffle;
use crate::selection::{
    fitness_like, fitness_scores, is_selected_pair, selection, spec_fitness_scores,
};
use crate::tour::{identity_tour, is_population, is_tour, lemma_reordered_tour};
use rand::rngs::StdRng;
use vstd::prelude::*;

verus! {

/// The length of the shortest member of `population`, and 0 where it has no member.
pub open spec fn best_length(cities: Seq<City>, population: Seq<Vec<usize>>) -> nat
    decreases population.len(),
{
    if population.len() == 0 {
        0
    } else {
        let last = spec_tour_length(cities, population.last()@);
        if population.len() == 1 {
            last
        } else {
            let before = best_length(cities, population.drop_last());
            if before <= last {
                before
            } else {
                last
            }
        }
    }
}

/// Position `i` holds the best member: the first among the shortest.
pub open spec fn is_best(cities: Seq<City>, population: Seq<Vec<usize>>, i: int) -> bool {
    &&& 0 <= i < population.len()
    &&& forall|j: int|
        0 <= j < population.len() ==> spec_tour_length(cities, population[i]@) <= spec_tour_length(
            cities,
            #[trigger] population[j]@,
        )
    &&& forall|j: int|
        0 <= j < i ==> spec_tour_length(cities, population[i]@) < spec_tour_length(
            cities,
            #[trigger] population[j]@,
        )
}

/// Position `i` holds the worst member: the last among the longest.
pub open spec fn is_worst(cities: Seq<City>, population: Seq<Vec<usize>>, i: int) -> bool {
    &&& 0 <= i < population.len()
    &&& forall|j: int|
        0 <= j < population.len() ==> spec_tour_length(cities, #[trigger] population[j]@)
            <= spec_tour_length(cities, population[i]@)
    &&& forall|j: int|
        i < j < population.len() ==> spec_tour_length(cities, #[trigger] population[j]@)
            < spec_tour_length(cities, population[i]@)
}

/// `child` is bred from the members `i` and `j` of `population`: the two are
/// a pair that selection by fitness can choose, or the same pair the other
/// way round; they are crossed over at the cut points `gene1` and `gene2`
/// with `i` as the keeper; and the child is mutated by `plan`, a plan that
/// the mutation rate can give.
pub open spec fn breeds(
    cities: Seq<City>,
    population: Seq<Vec<usize>>,
    rate: MutationRate,
    i: int,
    j: int,
    gene1: usize,
    gene2: usize,
    plan: Seq<Option<usize>>,
    child: Seq<usize>,
) -> bool {
    &&& is_selected_pair(spec_fitness_scores(cities, population), i, j) || is_selected_pair(
        spec_fitness_scores(cities, population),
        j,
        i,
    )
    &&& gene1 < population[i]@.len()
    &&& gene2 < population[i]@.len()
    &&& plan_follows(plan, rate, population[i]@.len())
    &&& child == mutated(
        spec_child(
            population[i]@,
            population[j]@,
            vstd::math::min(gene1 as int, gene2 as int),
            vstd::math::max(gene1 as int, gene2 as int),
        ),
        plan,
    )
}

/// `child` is the mutated child of two different members of `population`.
pub open spec fn is_offspring(
    cities: Seq<City>,
    population: Seq<Vec<usize>>,
    rate: MutationRate,
    child: Seq<usize>,
) -> bool {
    exists|i: int, j: int, gene1: usize, gene2: usize, plan: Seq<Option<usize>>|
        #[trigger] breeds(cities, population, rate, i, j, gene1, gene2, plan, child)
}

/// Elitism: `new` is `bred` with the member at `best`, the best of `old`, in
/// the place of the member at `worst`, the worst of `bred`.
pub open spec fn is_elitism(
    cities: Seq<City>,
    old: Seq<Vec<usize>>,
    bred: Seq<Vec<usize>>,
    worst: int,
    best: int,
    new: Seq<Vec<usize>>,
) -> bool {
    &&& is_worst(cities, bred, worst)
    &&& is_best(cities, old, best)
    &&& new.len() == bred.len()
    &&& new[worst]@ == old[best]@
    &&& forall|k: int| 0 <= k < new.len() && k != worst ==> #[trigger] new[k] == bred[k]
}

/// `new` is `bred`, a generation of offspring of `old`, with the best member
/// of `old` in the place of the worst of `bred`.
pub open spec fn is_replacement(
    cities: Seq<City>,
    rate: MutationRate,
    old: Seq<Vec<usize>>,
    bred: Seq<Vec<usize>>,
    worst: int,
    best: int,
    new: Seq<Vec<usize>>,
) -> bool {
    &&& bred.len() == old.len()
    &&& forall|k: int| 0 <= k < bred.len() ==> is_offspring(cities, old, rate, #[trigger] bred[k]@)
    &&& is_elitism(cities, old, bred, worst, best, new)
}

/// `new` is a generation that can follow `old`: as many offspring of `old`
/// as `old` has members, but that the best member of `old` stands unchanged
/// where the worst of them would.
pub open spec fn is_next_generation(
    cities: Seq<City>,
    rate: MutationRate,
    old: Seq<Vec<usize>>,
    new: Seq<Vec<usize>>,
) -> bool {
    exists|bred: Seq<Vec<usize>>, worst: int, best: int|
        #[trigger] is_replacement(cities, rate, old, bred, worst, best, new)
}

/// `last` can come of `first` in the given number of generations.
pub open spec fn evolves_to(
    cities: Seq<City>,
    rate: MutationRate,
    first: Seq<Vec<usize>>,
    last: Seq<Vec<usize>>,
    generations: nat,
) -> bool
    decreases generations,
{
    if generations == 0 {
        last == first
    } else {
        exists|previous: Seq<Vec<usize>>|
            evolves_to(cities, rate, first, previous, (generations - 1) as nat)
                && #[trigger] is_next_generation(cities, rate, previous, last)
    }
}

/// No member is shorter than the best length.
pub proof fn lemma_best_length_is_least(cities: Seq<City>, population: Seq<Vec<usize>>, i: int)
    requires
        0 <= i < population.len(),
    ensures
        best_length(cities, population) <= spec_tour_length(cities, population[i]@),
    decreases population.len(),
{
    if i < population.len() - 1 {
        lemma_best_length_is_least(cities, population.drop_last(), i);
    }
}

/// The best length is the length of the best member.
pub proof fn lemma_best_length_is_reached(cities: Seq<City>, population: Seq<Vec<usize>>, i: int)
    requires
        is_best(cities, population, i),
    ensures
        best_length(cities, population) == spec_tour_length(cities, population[i]@),
{
    lemma_best_length_is_least(cities, population, i);
    lemma_best_length_has_member(cities, population);
    let k = choose|k: int|
        0 <= k < population.len() && best_length(cities, population) == spec_tour_length(
            cities,
            #[trigger] population[k]@,
        );
    assert(spec_tour_length(cities, population[i]@) <= spec_tour_length(cities, population[k]@));
}

/// The best length is the length of some member.
pub proof fn lemma_best_length_has_member(cities: Seq<City>, population: Seq<Vec<usize>>)
    requires
        population.len() > 0,
    ensures
        exists|k: int|
            0 <= k < population.len() && best_length(cities, population) == spec_tour_length(
                cities,
                #[trigger] population[k]@,
            ),
    decreases population.len(),
{
    let last = population.len() - 1;
    if population.len() == 1 {
        assert(best_length(cities, population) == spec_tour_length(cities, population[last]@));
    } else {
        let head = population.drop_last();
        lemma_best_length_has_member(cities, head);
        let k = choose|k: int|
            0 <= k < head.len() && best_length(cities, head) == spec_tour_length(
                cities,
                #[trigger] head[k]@,
            );
        if best_length(cities, head) <= spec_tour_length(cities, population.last()@) {
            assert(best_length(cities, population) == spec_tour_length(cities, population[k]@));
        } else {
            assert(best_length(cities, population) == spec_tour_length(cities, population[last]@));
        }
    }
}

/// The offspring of tours are tours.
pub proof fn lemma_offspring_is_tour(
    cities: Seq<City>,
    population: Seq<Vec<usize>>,
    rate: MutationRate,
    child: Seq<usize>,
    n: nat,
)
    requires
        is_population(population, n),
        is_offspring(cities, population, rate, child),
        n <= usize::MAX,
    ensures
        is_tour(child, n),
{
    let (i, j, gene1, gene2, plan) = choose|
        i: int,
        j: int,
        gene1: usize,
        gene2: usize,
        plan: Seq<Option<usize>>,
    | #[trigger] breeds(cities, population, rate, i, j, gene1, gene2, plan, child);
    let start = vstd::math::min(gene1 as int, gene2 as int);
    let end = vstd::math::max(gene1 as int, gene2 as int);
    let crossed = spec_child(population[i]@, population[j]@, start, end);
    assert(is_tour(population[i]@, n) && is_tour(population[j]@, n));
    lemma_child_is_tour(population[i]@, population[j]@, start, end, n);
    lemma_mutated_same_genes(crossed, plan);
    lemma_reordered_tour(crossed, child, n);
}

/// A generation that follows a population of tours is a population of tours,
/// of the same size.
pub proof fn lemma_next_generation_is_population(
    cities: Seq<City>,
    rate: MutationRate,
    old: Seq<Vec<usize>>,
    new: Seq<Vec<usize>>,
    n: nat,
)
    requires
        is_population(old, n),
        is_next_generation(cities, rate, old, new),
        n <= usize::MAX,
    ensures
        is_population(new, n),
        new.len() == old.len(),
{
    let (bred, worst, best) = choose|bred: Seq<Vec<usize>>, worst: int, best: int|
        #[trigger] is_replacement(cities, rate, old, bred, worst, best, new);
    assert forall|k: int| 0 <= k < new.len() implies is_tour(#[trigger] new[k]@, n) by {
        if k == worst {
            assert(is_tour(old[best]@, n));
        } else {
            assert(new[k] == bred[k]);
            lemma_offspring_is_tour(cities, old, rate, bred[k]@, n);
        }
    }
}

/// However many generations pass, a population of tours stays a population
/// of tours, of the same size.
pub proof fn lemma_evolution_is_population(
    cities: Seq<City>,
    rate: MutationRate,
    first: Seq<Vec<usize>>,
    last: Seq<Vec<usize>>,
    generations: nat,
    n: nat,
)
    requires
        is_population(first, n),
        evolves_to(cities, rate, first, last, generations),
        n <= usize::MAX,
    ensures
        is_population(last, n),
        last.len() == first.len(),
    decreases generations,
{
    if generations > 0 {
        let previous = choose|previous: Seq<Vec<usize>>|
            evolves_to(cities, rate, first, previous, (generations - 1) as nat)
                && #[trigger] is_next_generation(cities, rate, previous, last);
        lemma_evolution_is_population(cities, rate, first, previous, (generations - 1) as nat, n);
        lemma_next_generation_is_population(cities, rate, previous, last, n);
    }
}

/// Elitism: the best length of a generation is no greater than that of the
/// generation before it.
pub proof fn lemma_next_generation_keeps_best(
    cities: Seq<City>,
    rate: MutationRate,
    old: Seq<Vec<usize>>,
    new: Seq<Vec<usize>>,
)
    requires
        is_next_generation(cities, rate, old, new),
    ensures
        best_length(cities, new) <= best_length(cities, old),
{
    let (bred, worst, best) = choose|bred: Seq<Vec<usize>>, worst: int, best: int|
        #[trigger] is_replacement(cities, rate, old, bred, worst, best, new);
    lemma_best_length_is_least(cities, new, worst);
    lemma_best_length_is_reached(cities, old, best);
}

/// Elitism over a run: however many generations pass, the best length is no
/// greater at the end than it was at the beginning.
pub proof fn lemma_evolution_keeps_best(
    cities: Seq<City>,
    rate: MutationRate,
    first: Seq<Vec<usize>>,
    last: Seq<Vec<usize>>,
    generations: nat,
)
    requires
        evolves_to(cities, rate, first, last, generations),
    ensures
        best_length(cities, last) <= best_length(cities, first),
    decreases generations,
{
    if generations > 0 {
        let previous = choose|previous: Seq<Vec<usize>>|
            evolves_to(cities, rate, first, previous, (generations - 1) as nat)
                && #[trigger] is_next_generation(cities, rate, previous, last);
        lemma_evolution_keeps_best(cities, rate, first, previous, (generations - 1) as nat);
        lemma_next_generation_keeps_best(cities, rate, previous, last);
    }
}

/// The position of the best member of `population`: of the first among its
/// shortest tours.
pub fn best_index(population: &Vec<Vec<usize>>, city_positions: &Vec<City>) -> (index: usize)
    requires
        population@.len() > 0,
        is_population(population@, city_positions@.len()),
    ensures
        is_best(city_positions@, population@, index as int),
        spec_tour_length(city_positions@, population@[index as int]@) == best_length(
            city_positions@,
            population@,
        ),
{
    let mut index: usize = 0;
    let mut shortest: u128 = tour_length(&population[0], city_positions);
    let mut i: usize = 1;
    while i < population.len()
        invariant
            1 <= i <= population@.len(),
            is_population(population@, city_positions@.len()),
            index < i,
            shortest == spec_tour_length(city_positions@, population@[index as int]@),
            forall|j: int|
                0 <= j < i ==> shortest <= spec_tour_length(
                    city_positions@,
                    #[trigger] population@[j]@,
                ),
            forall|j: int|
                0 <= j < index ==> shortest < spec_tour_length(
                    city_positions@,
                    #[trigger] population@[j]@,
                ),
        decreases population@.len() - i,
    {
        let length: u128 = tour_length(&population[i], city_positions);
        if length < shortest {
            shortest = length;
            index = i;
        }
        i = i + 1;
    }
    proof {
        lemma_best_length_is_reached(city_positions@, population@, index as int);
    }
    index
}

/// The position of the worst member of `population`: of the last among its
/// longest tours.
pub fn worst_index(population: &Vec<Vec<usize>>, city_positions: &Vec<City>) -> (index: usize)
    requires
        population@.len() > 0,
        is_population(population@, city_positions@.len()),
    ensures
        is_worst(city_positions@, population@, index as int),
{
    let mut index: usize = 0;
    let mut longest: u128 = tour_length(&population[0], city_positions);
    let mut i: usize = 1;
    while i < population.len()
        invariant
            1 <= i <= population@.len(),
            is_population(population@, city_positions@.len()),
            index < i,
            longest == spec_tour_length(city_positions@, population@[index as int]@),
            forall|j: int|
                0 <= j < i ==> spec_tour_length(city_positions@, #[trigger] population@[j]@)
                    <= longest,
            forall|j: int|
                index < j < i ==> spec_tour_length(city_positions@, #[trigger] population@[j]@)
                    < longest,
        decreases population@.len() - i,
    {
        let length: u128 = tour_length(&population[i], city_positions);
        if length >= longest {
            longest = length;
            index = i;
        }
        i = i + 1;
    }
    index
}

/// A population of `population_size` tours of `num_cities` cities, each in an
/// order drawn from `rng`.
pub fn initial_population(
    num_cities: usize,
    population_size: usize,
    rng: &mut StdRng,
) -> (population: Vec<Vec<usize>>)
    ensures
        population@.len() == population_size,
        is_population(population@, num_cities as nat),
{
    let mut population: Vec<Vec<usize>> = Vec::new();
    let mut i: usize = 0;
    while i < population_size
        invariant
            i <= population_size,
            population@.len() == i,
            is_population(population@, num_cities as nat),
        decreases population_size - i,
    {
        let mut route: Vec<usize> = identity_tour(num_cities);
        let ghost ordered = route@;
        shuffle(&mut route, rng);
        proof {
            lemma_reordered_tour(ordered, route@, num_cities as nat);
        }
        population.push(route);
        i = i + 1;
    }
    population
}

/// Elitism: puts a copy of the best member of `population` in the place of
/// the worst member of `new_population`, which keeps its size.
pub fn apply_elitism(
    population: &Vec<Vec<usize>>,
    new_population: &mut Vec<Vec<usize>>,
    city_positions: &Vec<City>,
)
    requires
        population@.len() > 0,
        old(new_population)@.len() > 0,
        is_population(population@, city_positions@.len()),
        is_population(old(new_population)@, city_positions@.len()),
    ensures
        exists|worst: int, best: int|
            #[trigger] is_elitism(
                city_positions@,
                population@,
                old(new_population)@,
                worst,
                best,
                final(new_population)@,
            ),
        is_population(final(new_population)@, city_positions@.len()),
{
    let best: usize = best_index(population, city_positions);
    let best_individual: Vec<usize> = population[best].clone();
    let worst: usize = worst_index(new_population, city_positions);
    let ghost bred = new_population@;
    new_population.set(worst, best_individual);
    proof {
        assert(is_elitism(
            city_positions@,
            population@,
            bred,
            worst as int,
            best as int,
            new_population@,
        ));
    }
}

/// The generation that follows `population`, of the same size.
///
/// Pairs of parents are selected by fitness, crossed over, and each child
/// mutated, until the new generation is full; of the last pair the second
/// child is left out where the size is odd. Then the best member of
/// `population` takes the place of the worst of the new generation,
/// unchanged. So the best length never grows from one generation to the next.
pub fn next_generation(
    population: &Vec<Vec<usize>>,
    city_positions: &Vec<City>,
    mutation_rate: MutationRate,
    rng: &mut StdRng,
) -> (new_population: Vec<Vec<usize>>)
    requires
        population@.len() >= 2,
        city_positions@.len() > 0,
        is_population(population@, city_positions@.len()),
        mutation_rate.valid(),
    ensures
        is_next_generation(city_positions@, mutation_rate, population@, new_population@),
        new_population@.len() == population@.len(),
        is_population(new_population@, city_positions@.len()),
        best_length(city_positions@, new_population@) <= best_length(
            city_positions@,
            population@,
        ),
{
    let population_size: usize = population.len();
    let ghost num_cities: nat = city_positions@.len();
    assert(city_positions.len() <= usize::MAX);
    let scores: Vec<u128> = fitness_scores(population, city_positions);
    let mut new_population: Vec<Vec<usize>> = Vec::new();
    while new_population.len() < population_size
        invariant
            new_population@.len() <= population_size,
            population_size == population@.len(),
            population_size >= 2,
            num_cities == city_positions@.len(),
            0 < num_cities <= usize::MAX,
            is_population(population@, num_cities),
            is_population(new_population@, num_cities),
            forall|k: int|
                0 <= k < new_population@.len() ==> is_offspring(
                    city_positions@,
                    population@,
                    mutation_rate,
                    #[trigger] new_population@[k]@,
                ),
            scores@ == spec_fitness_scores(city_positions@, population@),
            fitness_like(scores@),
            mutation_rate.valid(),
        decreases population_size - new_population@.len(),
    {
        let parents: (Vec<usize>, Vec<usize>) = selection(population, &scores, rng);
        let ghost (i, j) = choose|i: int, j: int|
            #[trigger] is_selected_pair(scores@, i, j) && parents.0@ == population@[i]@
                && parents.1@ == population@[j]@;
        let children: (Vec<usize>, Vec<usize>) = crossover((&parents.0, &parents.1), rng);
        let ghost (gene1, gene2) = choose|gene1: usize, gene2: usize|
            gene1 < num_cities && gene2 < num_cities && #[trigger] is_crossover(
                parents.0@,
                parents.1@,
                gene1,
                gene2,
                (children.0@, children.1@),
            );
        let mut child1: Vec<usize> = children.0;
        let mut child2: Vec<usize> = children.1;
        let ghost crossed1 = child1@;
        let ghost crossed2 = child2@;
        mutation(&mut child1, mutation_rate, rng);
        mutation(&mut child2, mutation_rate, rng);
        proof {
            let plan1 = choose|plan: Seq<Option<usize>>|
                #[trigger] plan_follows(plan, mutation_rate, crossed1.len()) && child1@ == mutated(
                    crossed1,
                    plan,
                );
            let plan2 = choose|plan: Seq<Option<usize>>|
                #[trigger] plan_follows(plan, mutation_rate, crossed2.len()) && child2@ == mutated(
                    crossed2,
                    plan,
                );
            assert(breeds(
                city_positions@,
                population@,
                mutation_rate,
                i,
                j,
                gene1,
                gene2,
                plan1,
                child1@,
            ));
            assert(breeds(
                city_positions@,
                population@,
                mutation_rate,
                j,
                i,
                gene1,
                gene2,
                plan2,
                child2@,
            ));
        }
        new_population.push(child1);
        if new_population.len() < population_size {
            new_population.push(child2);
        }
    }

    // The best member of the old generation replaces the worst of the new.
    let ghost bred = new_population@;
    apply_elitism(population, &mut new_population, city_positions);
    proof {
        let (worst, best) = choose|worst: int, best: int|
            #[trigger] is_elitism(
                city_positions@,
                population@,
                bred,
                worst,
                best,
                new_population@,
            );
        assert(is_replacement(
            city_positions@,
            mutation_rate,
            population@,
            bred,
            worst,
            best,
            new_population@,
        ));
        lemma_next_generation_keeps_best(
            city_positions@,
            mutation_rate,
            population@,
            new_population@,
        );
    }
    new_population
}

/// The population after `num_generations` generations. Its best length is no
/// greater than that of the population it began with.
pub fn evolve(
    population: Vec<Vec<usize>>,
    city_positions: &Vec<City>,
    num_generations: usize,
    mutation_rate: MutationRate,
    rng: &mut StdRng,
) -> (last: Vec<Vec<usize>>)
    requires
        population@.len() >= 2,
        city_positions@.len() > 0,
        is_population(population@, city_positions@.len()),
        mutation_rate.valid(),
    ensures
        evolves_to(city_positions@, mutation_rate, population@, last@, num_generations as nat),
        last@.len() == population@.len(),
        is_population(last@, city_positions@.len()),
        best_length(city_positions@, last@) <= best_length(city_positions@, population@),
{
    let ghost first = population@;
    let mut current: Vec<Vec<usize>> = population;
    let mut generation: usize = 0;
    while generation < num_generations
        invariant
            generation <= num_generations,
            current@.len() == first.len(),
            first.len() >= 2,
            city_positions@.len() > 0,
            is_population(current@, city_positions@.len()),
            mutation_rate.valid(),
            evolves_to(city_positions@, mutation_rate, first, current@, generation as nat),
        decreases num_generations - generation,
    {
        let ghost previous = current@;
        current = next_generation(&current, city_positions, mutation_rate, rng);
        generation = generation + 1;
        proof {
            assert(evolves_to(
                city_positions@,
                mutation_rate,
                first,
                previous,
                (generation - 1) as nat,
            ));
            assert(is_next_generation(city_positions@, mutation_rate, previous, current@));
        }
    }
    proof {
        lemma_evolution_keeps_best(
            city_positions@,
            mutation_rate,
            first,
            current@,
            num_generations as nat,
        );
    }
    current
}

} // verus!
