//! Mutation: every position of a tour is, with the probability that the
//! mutation rate gives, exchanged with a position drawn at random.

use crate::random::{draw_below, draw_chance};
use crate::tour::{is_tour, lemma_reordered_tour};
use rand::rngs::StdRng;
use vstd::prelude::*;

verus! {

/// A probability, written as a fraction.
#[derive(Clone, Copy, Debug, PartialEq, Eq)]
pub struct MutationRate {
    pub numerator: u32,
    pub denominator: u32,
}

impl MutationRate {
    /// The fraction lies between 0 and 1, both included.
    pub open spec fn valid(self) -> bool {
        0 < self.denominator && self.numerator <= self.denominator
    }

    /// Whether the fraction lies between 0 and 1, both included.
    pub fn is_valid(&self) -> (ok: bool)
        ensures
            ok == self.valid(),
    {
        0 < self.denominator && self.numerator <= self.denominator
    }
}

/// `route` with the genes at the positions `i` and `j` exchanged.
pub open spec fn swapped(route: Seq<usize>, i: int, j: int) -> Seq<usize> {
    route.update(i, route[j]).update(j, route[i])
}

/// A plan says of each position of a tour of `n` cities whether its gene is
/// exchanged, and with which position's.
pub open spec fn plan_fits(plan: Seq<Option<usize>>, n: nat) -> bool {
    &&& plan.len() == n
    &&& forall|i: int| 0 <= i < plan.len() ==> (#[trigger] plan[i] matches Some(j) ==> j < n)
}

/// A plan that the mutation rate `rate` can give for a tour of `n` cities. At
/// a rate of 0 it makes no exchange, and at a rate of 1 one at every position.
pub open spec fn plan_follows(plan: Seq<Option<usize>>, rate: MutationRate, n: nat) -> bool {
    &&& plan_fits(plan, n)
    &&& rate.numerator == 0 ==> forall|i: int| 0 <= i < plan.len() ==> #[trigger] plan[i] is None
    &&& rate.numerator == rate.denominator ==> forall|i: int|
        0 <= i < plan.len() ==> #[trigger] plan[i] is Some
}

/// `route` after the exchanges of `plan`, made position by position from the first.
pub open spec fn mutated(route: Seq<usize>, plan: Seq<Option<usize>>) -> Seq<usize>
    decreases plan.len(),
{
    if plan.len() == 0 {
        route
    } else {
        let before = mutated(route, plan.drop_last());
        match plan.last() {
            Some(j) => swapped(before, plan.len() - 1, j as int),
            None => before,
        }
    }
}

/// An exchange of two genes keeps the genes.
pub proof fn lemma_swapped_same_genes(route: Seq<usize>, i: int, j: int)
    requires
        0 <= i < route.len(),
        0 <= j < route.len(),
    ensures
        swapped(route, i, j).len() == route.len(),
        swapped(route, i, j).to_multiset() == route.to_multiset(),
{
    broadcast use vstd::seq_lib::group_to_multiset_ensures;

    let half = route.update(i, route[j]);
    assert(half.to_multiset() =~= route.to_multiset().insert(route[j]).remove(route[i]));
    assert(swapped(route, i, j).to_multiset() =~= half.to_multiset().insert(route[i]).remove(
        half[j],
    ));
    assert(swapped(route, i, j).to_multiset() =~= route.to_multiset());
}

/// Mutation keeps the genes: what comes out is a reordering of what went in.
pub proof fn lemma_mutated_same_genes(route: Seq<usize>, plan: Seq<Option<usize>>)
    requires
        plan_fits(plan, route.len()),
    ensures
        mutated(route, plan).len() == route.len(),
        mutated(route, plan).to_multiset() == route.to_multiset(),
{
    lemma_mutated_prefix_same_genes(route, plan, plan.len());
    assert(plan.take(plan.len() as int) =~= plan);
}

/// The first `k` exchanges of a plan keep the genes.
proof fn lemma_mutated_prefix_same_genes(route: Seq<usize>, plan: Seq<Option<usize>>, k: nat)
    requires
        plan_fits(plan, route.len()),
        k <= plan.len(),
    ensures
        mutated(route, plan.take(k as int)).len() == route.len(),
        mutated(route, plan.take(k as int)).to_multiset() == route.to_multiset(),
    decreases k,
{
    if k > 0 {
        let head = plan.take(k as int);
        lemma_mutated_prefix_same_genes(route, plan, (k - 1) as nat);
        assert(head.drop_last() =~= plan.take(k - 1));
        let before = mutated(route, head.drop_last());
        match head.last() {
            Some(j) => {
                assert(plan[k - 1] == Some(j));
                lemma_swapped_same_genes(before, k - 1, j as int);
            },
            None => {},
        }
    }
}

/// A plan without exchanges leaves the tour as it is.
pub proof fn lemma_mutated_by_idle_plan(route: Seq<usize>, plan: Seq<Option<usize>>)
    requires
        forall|i: int| 0 <= i < plan.len() ==> #[trigger] plan[i] is None,
    ensures
        mutated(route, plan) == route,
    decreases plan.len(),
{
    if plan.len() > 0 {
        lemma_mutated_by_idle_plan(route, plan.drop_last());
        assert(plan.last() == plan[plan.len() - 1]);
    }
}

/// Makes the exchanges of `plan` in `route`, position by position from the first.
pub fn mutate_by_plan(route: &mut Vec<usize>, plan: &Vec<Option<usize>>)
    requires
        plan_fits(plan@, old(route)@.len()),
    ensures
        final(route)@ == mutated(old(route)@, plan@),
        final(route)@.len() == old(route)@.len(),
        final(route)@.to_multiset() == old(route)@.to_multiset(),
{
    let num_cities: usize = route.len();
    let mut i: usize = 0;
    while i < num_cities
        invariant
            i <= num_cities,
            num_cities == route@.len(),
            num_cities == old(route)@.len(),
            plan_fits(plan@, num_cities as nat),
            route@ == mutated(old(route)@, plan@.take(i as int)),
        decreases num_cities - i,
    {
        proof {
            assert(plan@.take(i + 1).drop_last() =~= plan@.take(i as int));
            assert(plan@.take(i + 1).last() == plan@[i as int]);
        }
        match plan[i] {
            Some(j) => {
                let here: usize = route[i];
                let there: usize = route[j];
                route.set(i, there);
                route.set(j, here);
            },
            None => {},
        }
        i = i + 1;
    }
    proof {
        assert(plan@.take(num_cities as int) =~= plan@);
        lemma_mutated_same_genes(old(route)@, plan@);
    }
}

/// Draws a plan for a tour of `num_cities` cities: for each position whether
/// it is exchanged, which it is with the probability `mutation_rate`, and if
/// so a position to exchange it with, which may be any, itself included.
pub fn draw_plan(
    num_cities: usize,
    mutation_rate: MutationRate,
    rng: &mut StdRng,
) -> (plan: Vec<Option<usize>>)
    requires
        mutation_rate.valid(),
    ensures
        plan_follows(plan@, mutation_rate, num_cities as nat),
{
    let mut plan: Vec<Option<usize>> = Vec::new();
    let mut i: usize = 0;
    while i < num_cities
        invariant
            i <= num_cities,
            mutation_rate.valid(),
            plan@.len() == i,
            forall|k: int| 0 <= k < i ==> (#[trigger] plan@[k] matches Some(j) ==> j < num_cities),
            mutation_rate.numerator == 0 ==> forall|k: int|
                0 <= k < i ==> #[trigger] plan@[k] is None,
            mutation_rate.numerator == mutation_rate.denominator ==> forall|k: int|
                0 <= k < i ==> #[trigger] plan@[k] is Some,
        decreases num_cities - i,
    {
        if draw_chance(rng, mutation_rate.numerator, mutation_rate.denominator) {
            let j: usize = draw_below(rng, num_cities as u128) as usize;
            plan.push(Some(j));
        } else {
            plan.push(None);
        }
        i = i + 1;
    }
    plan
}

/// Mutates `route` in place. Each position in turn is, with the probability
/// `mutation_rate`, exchanged with a position drawn from `rng`. The route
/// keeps its genes, so a tour stays a tour; at a rate of 0 it stays as it is.
pub fn mutation(route: &mut Vec<usize>, mutation_rate: MutationRate, rng: &mut StdRng)
    requires
        mutation_rate.valid(),
    ensures
        exists|plan: Seq<Option<usize>>|
            #[trigger] plan_follows(plan, mutation_rate, old(route)@.len()) && final(route)@
                == mutated(old(route)@, plan),
        final(route)@.len() == old(route)@.len(),
        final(route)@.to_multiset() == old(route)@.to_multiset(),
        is_tour(old(route)@, old(route)@.len()) ==> is_tour(final(route)@, old(route)@.len()),
        mutation_rate.numerator == 0 ==> final(route)@ == old(route)@,
{
    let plan: Vec<Option<usize>> = draw_plan(route.len(), mutation_rate, rng);
    mutate_by_plan(route, &plan);
    proof {
        assert(plan_follows(plan@, mutation_rate, old(route)@.len()));
        if is_tour(old(route)@, old(route)@.len()) {
            lemma_reordered_tour(old(route)@, route@, old(route)@.len());
        }
        if mutation_rate.numerator == 0 {
            lemma_mutated_by_idle_plan(old(route)@, plan@);
        }
    }
}

} // verus!
