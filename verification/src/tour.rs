//! Tours: orders in which to visit the cities, each city once.

use crate::geometry::in_table;
use vstd::prelude::*;

verus! {

/// `tour` is a tour of `n` cities: it has `n` entries, each numbers a city,
/// and no city occurs twice. It then holds every city exactly once (see
/// [`lemma_tour_visits_every_city`]).
pub open spec fn is_tour(tour: Seq<usize>, n: nat) -> bool {
    &&& tour.len() == n
    &&& in_table(tour, n)
    &&& tour.no_duplicates()
}

/// Every member of `population` is a tour of `n` cities.
pub open spec fn is_population(population: Seq<Vec<usize>>, n: nat) -> bool {
    forall|i: int| 0 <= i < population.len() ==> is_tour(#[trigger] population[i]@, n)
}

/// The tour that visits the cities in the order of the table.
pub open spec fn spec_identity_tour(n: nat) -> Seq<usize> {
    Seq::new(n, |i: int| i as usize)
}

/// The cities of a table of `n` cities, as a set.
pub open spec fn cities_below(n: nat) -> Set<usize> {
    Set::new(|c: usize| c < n)
}

/// A table of `n` cities has `n` cities.
pub proof fn lemma_cities_below_len(n: nat)
    requires
        n <= usize::MAX,
    ensures
        cities_below(n).finite(),
        cities_below(n).len() == n,
    decreases n,
{
    if n == 0 {
        assert(cities_below(0) =~= Set::<usize>::empty());
    } else {
        let m = (n - 1) as nat;
        lemma_cities_below_len(m);
        assert(cities_below(n) =~= cities_below(m).insert(m as usize));
    }
}

/// The cities that a tour visits are all the cities of the table.
pub proof fn lemma_tour_city_set(tour: Seq<usize>, n: nat)
    requires
        is_tour(tour, n),
        n <= usize::MAX,
    ensures
        tour.to_set() =~= cities_below(n),
{
    lemma_cities_below_len(n);
    tour.unique_seq_to_set();
    assert(tour.to_set().subset_of(cities_below(n))) by {
        assert forall|c: usize| tour.to_set().contains(c) implies cities_below(n).contains(c) by {
            let i = choose|i: int| 0 <= i < tour.len() && tour[i] == c;
            assert(tour[i] < n);
        }
    }
    vstd::set_lib::lemma_set_subset_finite(cities_below(n), tour.to_set());
    vstd::set_lib::lemma_subset_equality(tour.to_set(), cities_below(n));
}

/// A tour leaves no city out.
pub proof fn lemma_tour_visits_every_city(tour: Seq<usize>, n: nat, city: usize)
    requires
        is_tour(tour, n),
        n <= usize::MAX,
        city < n,
    ensures
        tour.contains(city),
{
    lemma_tour_city_set(tour, n);
    assert(cities_below(n).contains(city));
    assert(tour.to_set().contains(city));
}

/// A reordering of a tour is a tour.
pub proof fn lemma_reordered_tour(before: Seq<usize>, after: Seq<usize>, n: nat)
    requires
        is_tour(before, n),
        after.to_multiset() == before.to_multiset(),
    ensures
        is_tour(after, n),
{
    broadcast use vstd::seq_lib::group_to_multiset_ensures;

    before.lemma_multiset_has_no_duplicates();
    after.lemma_multiset_has_no_duplicates_conv();
    assert(after.len() == after.to_multiset().len());
    assert(before.len() == before.to_multiset().len());
    assert forall|i: int| 0 <= i < after.len() implies #[trigger] after[i] < n by {
        assert(after.to_multiset().count(after[i]) > 0);
        assert(before.contains(after[i]));
        let k = choose|k: int| 0 <= k < before.len() && before[k] == after[i];
        assert(before[k] < n);
    }
}

/// The tour that visits the cities in the order of the table.
pub fn identity_tour(n: usize) -> (tour: Vec<usize>)
    ensures
        tour@ == spec_identity_tour(n as nat),
        is_tour(tour@, n as nat),
{
    let mut tour: Vec<usize> = Vec::new();
    let mut i: usize = 0;
    while i < n
        invariant
            i <= n,
            tour@ == spec_identity_tour(i as nat),
        decreases n - i,
    {
        tour.push(i);
        assert(tour@ =~= spec_identity_tour((i + 1) as nat));
        i = i + 1;
    }
    tour
}

/// Whether `route` is a tour of as many cities as it has entries: whether it
/// holds each of the numbers below its length once.
pub fn is_permutation(route: &Vec<usize>) -> (ok: bool)
    ensures
        ok == is_tour(route@, route@.len()),
{
    let n: usize = route.len();
    let mut seen: Vec<bool> = Vec::new();
    let mut k: usize = 0;
    while k < n
        invariant
            k <= n,
            seen@.len() == k,
            forall|c: int| 0 <= c < k ==> !#[trigger] seen@[c],
        decreases n - k,
    {
        seen.push(false);
        k = k + 1;
    }
    let mut i: usize = 0;
    while i < n
        invariant
            i <= n,
            n == route@.len(),
            seen@.len() == n,
            in_table(route@.take(i as int), n as nat),
            route@.take(i as int).no_duplicates(),
            forall|c: int|
                0 <= c < n ==> (#[trigger] seen@[c] <==> route@.take(i as int).contains(
                    c as usize,
                )),
        decreases n - i,
    {
        let city: usize = route[i];
        let ghost head = route@.take(i as int);
        let ghost next = route@.take(i + 1);
        if city >= n {
            return false;
        }
        if seen[city] {
            proof {
                let j = choose|j: int| 0 <= j < head.len() && head[j] == city;
                assert(route@[j] == route@[i as int] && j != i);
            }
            return false;
        }
        seen.set(city, true);
        proof {
            assert(next =~= head.push(city));
            assert(next.no_duplicates());
            assert forall|c: int| 0 <= c < n implies (#[trigger] seen@[c] <==> next.contains(
                c as usize,
            )) by {
                if c == city {
                    assert(next[i as int] == city);
                } else if head.contains(c as usize) {
                    let j = choose|j: int| 0 <= j < head.len() && head[j] == c as usize;
                    assert(next[j] == c as usize);
                } else if next.contains(c as usize) {
                    let j = choose|j: int| 0 <= j < next.len() && next[j] == c as usize;
                    assert(head[j] == c as usize);
                }
            }
        }
        i = i + 1;
    }
    assert(route@.take(n as int) =~= route@);
    true
}

} // verus!
