//! Fitness, and the choice of parents in proportion to it.
//!
//! The members of a population share a wheel. Each has a slot on it as wide
//! as its fitness, the slots lie in the order of the population, and a draw
//! below the total width falls into one slot.

use crate::geometry::{in_table, spec_tour_length, tour_length, City};
use crate::random::draw_below;
use rand::rngs::StdRng;
use vstd::prelude::*;

verus! {

/// The fitness of a tour of length `l` is `FITNESS_SCALE / l`.
pub const FITNESS_SCALE: u128 = 1_000_000_000_000_000_000;

/// The fitness of a tour of the given length: the reciprocal of the length,
/// rounded down. A length of 0, that of a tour whose cities all lie in one
/// place, counts as one unit of distance. No fitness is below 1, so that
/// every tour has a slot on the wheel.
pub open spec fn spec_fitness(length: nat) -> nat {
    let inverse = if length == 0 {
        FITNESS_SCALE as nat
    } else {
        FITNESS_SCALE as nat / length
    };
    if inverse == 0 {
        1
    } else {
        inverse
    }
}

/// The fitness of each member of `population`, in the order of the population.
pub open spec fn spec_fitness_scores(cities: Seq<City>, population: Seq<Vec<usize>>) -> Seq<u128> {
    Seq::new(
        population.len(),
        |i: int| spec_fitness(spec_tour_length(cities, population[i]@)) as u128,
    )
}

/// Every weight is one that a fitness can be.
pub open spec fn fitness_like(weights: Seq<u128>) -> bool {
    forall|i: int| 0 <= i < weights.len() ==> 1 <= #[trigger] weights[i] <= FITNESS_SCALE
}

/// The sum of the weights.
pub open spec fn total_weight(weights: Seq<u128>) -> nat
    decreases weights.len(),
{
    if weights.len() == 0 {
        0
    } else {
        total_weight(weights.drop_last()) + weights.last() as nat
    }
}

/// The draw falls into the slot of position `i`: the weights before `i` sum
/// to no more than `draw`, and with that of `i` to more.
pub open spec fn on_wheel(weights: Seq<u128>, draw: nat, i: int) -> bool {
    &&& 0 <= i < weights.len()
    &&& total_weight(weights.take(i)) <= draw < total_weight(weights.take(i + 1))
}

/// The positions `first` and `second` can be chosen as a pair: a draw below
/// the total weight falls into the slot of `first`, and with `first` taken
/// off the wheel a draw below what is left falls into the slot of `second`.
pub open spec fn is_selected_pair(weights: Seq<u128>, first: int, second: int) -> bool {
    &&& 0 <= first < weights.len()
    &&& 0 <= second < weights.len()
    &&& first != second
    &&& exists|draw: nat|
        draw < total_weight(weights) && #[trigger] on_wheel(weights, draw, first)
    &&& exists|draw: nat|
        draw < total_weight(weights) - weights[first] && #[trigger] on_wheel(
            weights.update(first, 0),
            draw,
            second,
        )
}

/// The weights as they are, or with the weight of one position taken off the wheel.
spec fn without(weights: Seq<u128>, skip: Option<usize>) -> Seq<u128> {
    match skip {
        Some(s) => if s < weights.len() {
            weights.update(s as int, 0)
        } else {
            weights
        },
        None => weights,
    }
}

/// The sum of the first `i` weights grows with `i`.
pub proof fn lemma_total_weight_grows(weights: Seq<u128>, i: int, j: int)
    requires
        0 <= i <= j <= weights.len(),
    ensures
        total_weight(weights.take(i)) <= total_weight(weights.take(j)),
    decreases j - i,
{
    if i < j {
        lemma_total_weight_grows(weights, i, j - 1);
        assert(weights.take(j).drop_last() =~= weights.take(j - 1));
    }
}

/// A draw falls into one slot only.
pub proof fn lemma_on_wheel_unique(weights: Seq<u128>, draw: nat, i: int, j: int)
    requires
        on_wheel(weights, draw, i),
        on_wheel(weights, draw, j),
    ensures
        i == j,
{
    if i < j {
        lemma_total_weight_grows(weights, i + 1, j);
    } else if j < i {
        lemma_total_weight_grows(weights, j + 1, i);
    }
}

/// A slot is as wide as the weight of its position: so many draws fall into
/// it, which makes the choice proportionate to the weights.
pub proof fn lemma_slot_width(weights: Seq<u128>, i: int)
    requires
        0 <= i < weights.len(),
    ensures
        total_weight(weights.take(i + 1)) == total_weight(weights.take(i)) + weights[i],
{
    assert(weights.take(i + 1).drop_last() =~= weights.take(i));
}

/// The slot that a draw falls into has a weight.
pub proof fn lemma_on_wheel_has_weight(weights: Seq<u128>, draw: nat, i: int)
    requires
        on_wheel(weights, draw, i),
    ensures
        weights[i] > 0,
{
    lemma_slot_width(weights, i);
}

/// Weights of at most `cap` each sum to at most `cap` times their number.
pub proof fn lemma_total_weight_bound(weights: Seq<u128>, cap: nat)
    requires
        forall|i: int| 0 <= i < weights.len() ==> #[trigger] weights[i] <= cap,
    ensures
        total_weight(weights) <= weights.len() * cap,
    decreases weights.len(),
{
    if weights.len() > 0 {
        lemma_total_weight_bound(weights.drop_last(), cap);
        assert((weights.len() - 1) * cap + cap == weights.len() * cap) by (nonlinear_arith);
    }
}

/// Weights of `weight` each sum to `weight` times their number.
pub proof fn lemma_total_weight_equal(weights: Seq<u128>, weight: nat)
    requires
        forall|i: int| 0 <= i < weights.len() ==> #[trigger] weights[i] == weight,
    ensures
        total_weight(weights) == weights.len() * weight,
    decreases weights.len(),
{
    if weights.len() > 0 {
        lemma_total_weight_equal(weights.drop_last(), weight);
        assert((weights.len() - 1) * weight + weight == weights.len() * weight)
            by (nonlinear_arith);
    } else {
        assert(0 * weight == 0) by (nonlinear_arith);
    }
}

/// With the weight of one position taken off, the others sum to that much less.
pub proof fn lemma_total_weight_without(weights: Seq<u128>, skip: int)
    requires
        0 <= skip < weights.len(),
    ensures
        total_weight(weights.update(skip, 0)) == total_weight(weights) - weights[skip],
    decreases weights.len(),
{
    let rest = weights.update(skip, 0);
    if skip == weights.len() - 1 {
        assert(rest.drop_last() =~= weights.drop_last());
    } else {
        lemma_total_weight_without(weights.drop_last(), skip);
        assert(rest.drop_last() =~= weights.drop_last().update(skip, 0));
    }
}

/// A wheel of equal weights is fair: of the draws below the total weight,
/// as many fall into one slot as into any other. The draw `d` falls into the
/// slot of position `d / weight`.
pub proof fn lemma_equal_weights_share_wheel(weights: Seq<u128>, weight: nat, draw: nat)
    requires
        weight > 0,
        forall|i: int| 0 <= i < weights.len() ==> #[trigger] weights[i] == weight,
        draw < weights.len() * weight,
    ensures
        on_wheel(weights, draw, (draw / weight) as int),
{
    let i = (draw / weight) as int;
    assert(i * weight <= draw < (i + 1) * weight && 0 <= i) by (nonlinear_arith)
        requires
            i == draw / weight,
            weight > 0,
    ;
    assert(i < weights.len()) by (nonlinear_arith)
        requires
            i * weight <= draw,
            draw < weights.len() * weight,
            weight > 0,
    ;
    lemma_total_weight_equal(weights.take(i), weight);
    lemma_total_weight_equal(weights.take(i + 1), weight);
}

/// The fitness of a tour of the given length.
pub fn fitness_of_length(length: u128) -> (score: u128)
    ensures
        score == spec_fitness(length as nat),
        1 <= score <= FITNESS_SCALE,
{
    let inverse: u128 = if length == 0 {
        FITNESS_SCALE
    } else {
        FITNESS_SCALE / length
    };
    assert(inverse <= FITNESS_SCALE) by (nonlinear_arith)
        requires
            inverse == FITNESS_SCALE || (length > 0 && inverse == FITNESS_SCALE / length),
    ;
    if inverse == 0 {
        1
    } else {
        inverse
    }
}

/// The fitness of `route`: the reciprocal of its length as a closed loop.
pub fn fitness(route: &Vec<usize>, city_positions: &Vec<City>) -> (score: u128)
    requires
        in_table(route@, city_positions@.len()),
    ensures
        score == spec_fitness(spec_tour_length(city_positions@, route@)),
        1 <= score <= FITNESS_SCALE,
{
    fitness_of_length(tour_length(route, city_positions))
}

/// The fitness of each member of `population`, in the order of the population.
pub fn fitness_scores(
    population: &Vec<Vec<usize>>,
    city_positions: &Vec<City>,
) -> (scores: Vec<u128>)
    requires
        forall|i: int|
            0 <= i < population@.len() ==> in_table(
                #[trigger] population@[i]@,
                city_positions@.len(),
            ),
    ensures
        scores@ == spec_fitness_scores(city_positions@, population@),
        fitness_like(scores@),
{
    let mut scores: Vec<u128> = Vec::new();
    let mut i: usize = 0;
    while i < population.len()
        invariant
            i <= population@.len(),
            scores@.len() == i,
            forall|k: int|
                0 <= k < population@.len() ==> in_table(
                    #[trigger] population@[k]@,
                    city_positions@.len(),
                ),
            forall|k: int|
                0 <= k < i ==> #[trigger] scores@[k] == spec_fitness(
                    spec_tour_length(city_positions@, population@[k]@),
                ),
            forall|k: int| 0 <= k < i ==> 1 <= #[trigger] scores@[k] <= FITNESS_SCALE,
        decreases population@.len() - i,
    {
        let score: u128 = fitness(&population[i], city_positions);
        scores.push(score);
        i = i + 1;
    }
    assert(scores@ =~= spec_fitness_scores(city_positions@, population@));
    scores
}

/// The slot into which `draw` falls on the wheel of `weights`, the weight of
/// `skip` taken off. A draw that is not below the total weight falls into no
/// slot: it is given the last position.
fn spin(weights: &Vec<u128>, skip: Option<usize>, draw: u128) -> (index: usize)
    requires
        weights@.len() > 0,
        total_weight(without(weights@, skip)) <= u128::MAX,
    ensures
        index < weights@.len(),
        draw < total_weight(without(weights@, skip)) ==> on_wheel(
            without(weights@, skip),
            draw as nat,
            index as int,
        ),
        draw >= total_weight(without(weights@, skip)) ==> index == weights@.len() - 1,
{
    let ghost wheel = without(weights@, skip);
    let mut cumulative_weight: u128 = 0;
    let mut index: usize = 0;
    while index < weights.len()
        invariant
            index <= weights@.len(),
            wheel == without(weights@, skip),
            total_weight(wheel) <= u128::MAX,
            cumulative_weight == total_weight(wheel.take(index as int)),
            cumulative_weight <= draw,
        decreases weights@.len() - index,
    {
        let skipped: bool = match skip {
            Some(s) => s == index,
            None => false,
        };
        let weight: u128 = if skipped {
            0
        } else {
            weights[index]
        };
        proof {
            assert(wheel.take(index + 1).drop_last() =~= wheel.take(index as int));
            assert(wheel.take(index + 1).last() == weight);
            lemma_total_weight_grows(wheel, index + 1, wheel.len() as int);
            assert(wheel.take(wheel.len() as int) =~= wheel);
        }
        cumulative_weight = cumulative_weight + weight;
        if cumulative_weight > draw {
            return index;
        }
        index = index + 1;
    }
    assert(wheel.take(wheel.len() as int) =~= wheel);
    weights.len() - 1
}

/// The sum of the weights.
pub fn sum_weights(weights: &Vec<u128>) -> (total: u128)
    requires
        total_weight(weights@) <= u128::MAX,
    ensures
        total == total_weight(weights@),
{
    let mut total: u128 = 0;
    let mut i: usize = 0;
    while i < weights.len()
        invariant
            i <= weights@.len(),
            total_weight(weights@) <= u128::MAX,
            total == total_weight(weights@.take(i as int)),
        decreases weights@.len() - i,
    {
        proof {
            assert(weights@.take(i + 1).drop_last() =~= weights@.take(i as int));
            lemma_total_weight_grows(weights@, i + 1, weights@.len() as int);
            assert(weights@.take(weights@.len() as int) =~= weights@);
        }
        total = total + weights[i];
        i = i + 1;
    }
    assert(weights@.take(weights@.len() as int) =~= weights@);
    total
}

/// The position into whose slot `draw` falls: the first at which the weights
/// up to and including it sum to more than `draw`. A draw that is not below
/// the total weight falls into no slot: it is given the last position.
pub fn wheel_index(weights: &Vec<u128>, draw: u128) -> (index: usize)
    requires
        weights@.len() > 0,
        total_weight(weights@) <= u128::MAX,
    ensures
        index < weights@.len(),
        draw < total_weight(weights@) ==> on_wheel(weights@, draw as nat, index as int),
        draw >= total_weight(weights@) ==> index == weights@.len() - 1,
{
    spin(weights, None, draw)
}

/// The position into whose slot `draw` falls once the position `skip` has
/// been taken off the wheel. It is never `skip` for a draw below what the
/// other weights sum to.
pub fn wheel_index_without(weights: &Vec<u128>, skip: usize, draw: u128) -> (index: usize)
    requires
        skip < weights@.len(),
        total_weight(weights@) <= u128::MAX,
    ensures
        index < weights@.len(),
        draw < total_weight(weights@) - weights@[skip as int] ==> index != skip && on_wheel(
            weights@.update(skip as int, 0),
            draw as nat,
            index as int,
        ),
        draw >= total_weight(weights@) - weights@[skip as int] ==> index == weights@.len() - 1,
{
    proof {
        lemma_total_weight_without(weights@, skip as int);
    }
    let index: usize = spin(weights, Some(skip), draw);
    proof {
        if draw < total_weight(weights@) - weights@[skip as int] {
            lemma_on_wheel_has_weight(weights@.update(skip as int, 0), draw as nat, index as int);
        }
    }
    index
}

/// Spins the wheel once: draws below the total weight and gives the position
/// into whose slot the draw falls. A position is chosen with a probability in
/// proportion to its weight, and one without weight never.
pub fn roulette_wheel_selection(weights: &Vec<u128>, rng: &mut StdRng) -> (index: usize)
    requires
        0 < total_weight(weights@) <= u128::MAX,
    ensures
        index < weights@.len(),
        weights@[index as int] > 0,
        exists|draw: nat|
            draw < total_weight(weights@) && #[trigger] on_wheel(weights@, draw, index as int),
{
    let total: u128 = sum_weights(weights);
    let random_value: u128 = draw_below(rng, total);
    let index: usize = wheel_index(weights, random_value);
    proof {
        assert(on_wheel(weights@, random_value as nat, index as int));
        lemma_on_wheel_has_weight(weights@, random_value as nat, index as int);
    }
    index
}

/// Chooses two different positions. The first comes from a spin of the wheel.
/// For the second the first is taken off the wheel and the wheel spun again,
/// which chooses among the others as spinning the whole wheel until another
/// position comes up would.
pub fn select_pair(weights: &Vec<u128>, rng: &mut StdRng) -> (pair: (usize, usize))
    requires
        weights@.len() >= 2,
        fitness_like(weights@),
    ensures
        is_selected_pair(weights@, pair.0 as int, pair.1 as int),
{
    proof {
        lemma_total_weight_bound(weights@, FITNESS_SCALE as nat);
        assert(weights.len() <= usize::MAX);
        assert(weights@.len() * FITNESS_SCALE <= u128::MAX) by (nonlinear_arith)
            requires
                weights@.len() <= 0xFFFF_FFFF_FFFF_FFFF,
                FITNESS_SCALE == 1_000_000_000_000_000_000,
        ;
        // Two positions with a weight each: the wheel has a weight, and keeps one
        // when either position is taken off.
        assert(weights@.take(weights@.len() as int) =~= weights@);
        lemma_total_weight_grows(weights@, 1, weights@.len() as int);
        assert(weights@.take(1).drop_last() =~= weights@.take(0));
        assert(total_weight(weights@.take(0)) == 0);
        assert(total_weight(weights@.take(1)) == weights@[0]);
    }
    let total: u128 = sum_weights(weights);
    let first_draw: u128 = draw_below(rng, total);
    let parent1_index: usize = wheel_index(weights, first_draw);
    proof {
        assert(on_wheel(weights@, first_draw as nat, parent1_index as int));
        lemma_total_weight_without(weights@, parent1_index as int);
        let rest = weights@.update(parent1_index as int, 0);
        let other: int = if parent1_index == 0 {
            1
        } else {
            0
        };
        assert(rest[other] >= 1);
        lemma_total_weight_grows(rest, other + 1, rest.len() as int);
        assert(rest.take(rest.len() as int) =~= rest);
        assert(rest.take(other + 1).drop_last() =~= rest.take(other));
    }
    let remaining: u128 = total - weights[parent1_index];
    let second_draw: u128 = draw_below(rng, remaining);
    let parent2_index: usize = wheel_index_without(weights, parent1_index, second_draw);
    let pair: (usize, usize) = (parent1_index, parent2_index);
    proof {
        let first: nat = first_draw as nat;
        let second: nat = second_draw as nat;
        assert(first < total_weight(weights@) && on_wheel(weights@, first, pair.0 as int));
        assert(second < total_weight(weights@) - weights@[pair.0 as int] && on_wheel(
            weights@.update(pair.0 as int, 0),
            second,
            pair.1 as int,
        ));
    }
    pair
}

/// Selects two different members of `population` as parents, each with a
/// probability in proportion to its fitness, and gives a copy of each.
pub fn selection(
    population: &Vec<Vec<usize>>,
    fitness_scores: &Vec<u128>,
    rng: &mut StdRng,
) -> (parents: (Vec<usize>, Vec<usize>))
    requires
        population@.len() >= 2,
        fitness_scores@.len() == population@.len(),
        fitness_like(fitness_scores@),
    ensures
        exists|i: int, j: int|
            #[trigger] is_selected_pair(fitness_scores@, i, j) && parents.0@ == population@[i]@
                && parents.1@ == population@[j]@,
{
    let (parent1_index, parent2_index): (usize, usize) = select_pair(fitness_scores, rng);
    let parent1: Vec<usize> = population[parent1_index].clone();
    let parent2: Vec<usize> = population[parent2_index].clone();
    assert(is_selected_pair(fitness_scores@, parent1_index as int, parent2_index as int));
    (parent1, parent2)
}

} // verus!
