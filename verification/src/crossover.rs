//! Crossover: two parents give two children, each of them a tour again.
//!
//! A child keeps the genes that one parent, its keeper, holds between two cut
//! points. The other parent, its donor, is read from the position after the
//! second cut point onward and round to the start; its genes that the child
//! does not hold yet fill the child's free positions from left to right.

use crate::geometry::in_table;
use crate::random::draw_below;
use crate::tour::{cities_below, is_tour, lemma_cities_below_len, lemma_tour_visits_every_city};
use rand::rngs::StdRng;
use vstd::prelude::*;

verus! {

/// Holds of the genes that `kept` lacks.
pub open spec fn absent_from(kept: Seq<usize>) -> spec_fn(usize) -> bool {
    |gene: usize| !kept.contains(gene)
}

/// `donor` in the order in which it is read: from the position after `end` to
/// its last position, then from its first position to `end`.
pub open spec fn scan_order(donor: Seq<usize>, end: int) -> Seq<usize> {
    donor.subrange(end + 1, donor.len() as int) + donor.subrange(0, end + 1)
}

/// The genes of `donor` that fill a child, in the order in which they are placed.
pub open spec fn spec_fill(
    keeper: Seq<usize>,
    donor: Seq<usize>,
    start: int,
    end: int,
) -> Seq<usize> {
    scan_order(donor, end).filter(absent_from(keeper.subrange(start, end + 1)))
}

/// The child that keeps the genes of `keeper` at the positions from `start` to
/// `end`, both included, and takes the others from `donor`.
pub open spec fn spec_child(
    keeper: Seq<usize>,
    donor: Seq<usize>,
    start: int,
    end: int,
) -> Seq<usize> {
    let fill = spec_fill(keeper, donor, start, end);
    fill.subrange(0, start) + keeper.subrange(start, end + 1) + fill.subrange(
        start,
        fill.len() as int,
    )
}

/// `children` are what the crossover of `first` and `second` gives for the cut
/// points `gene1` and `gene2`, whichever of the two is the greater.
pub open spec fn is_crossover(
    first: Seq<usize>,
    second: Seq<usize>,
    gene1: usize,
    gene2: usize,
    children: (Seq<usize>, Seq<usize>),
) -> bool {
    let start = vstd::math::min(gene1 as int, gene2 as int);
    let end = vstd::math::max(gene1 as int, gene2 as int);
    &&& children.0 == spec_child(first, second, start, end)
    &&& children.1 == spec_child(second, first, start, end)
}

/// What is selected from a sequence without repeats has no repeats.
proof fn lemma_filter_distinct(s: Seq<usize>, pred: spec_fn(usize) -> bool)
    requires
        s.no_duplicates(),
    ensures
        s.filter(pred).no_duplicates(),
    decreases s.len(),
{
    reveal(Seq::filter);
    if s.len() > 0 {
        let head = s.drop_last();
        lemma_filter_distinct(head, pred);
        if pred(s.last()) {
            if head.filter(pred).contains(s.last()) {
                head.lemma_filter_contains_rev(pred, s.last());
                let j = choose|j: int| 0 <= j < head.len() && head[j] == s.last();
                assert(s[j] == s[s.len() - 1]);
            }
        }
    }
}

/// Read in scan order, a tour is a tour.
proof fn lemma_scan_order_is_tour(donor: Seq<usize>, end: int, n: nat)
    requires
        is_tour(donor, n),
        0 <= end < n,
    ensures
        is_tour(scan_order(donor, end), n),
{
    let scan = scan_order(donor, end);
    let tail = n - end - 1;
    assert forall|i: int| 0 <= i < scan.len() implies #[trigger] scan[i] == donor[if i < tail {
        end + 1 + i
    } else {
        i - tail
    }] by {}
    assert forall|i: int, j: int|
        0 <= i < scan.len() && 0 <= j < scan.len() && i != j implies scan[i] != scan[j] by {
        let a = if i < tail {
            end + 1 + i
        } else {
            i - tail
        };
        let b = if j < tail {
            end + 1 + j
        } else {
            j - tail
        };
        assert(scan[i] == donor[a] && scan[j] == donor[b] && a != b);
    }
    assert forall|i: int| 0 <= i < scan.len() implies #[trigger] scan[i] < n by {
        let a = if i < tail {
            end + 1 + i
        } else {
            i - tail
        };
        assert(scan[i] == donor[a]);
    }
}

/// The genes that fill a child are the cities that the child has not kept,
/// each of them once.
pub proof fn lemma_fill(keeper: Seq<usize>, donor: Seq<usize>, start: int, end: int, n: nat)
    requires
        is_tour(keeper, n),
        is_tour(donor, n),
        0 <= start <= end < n,
        n <= usize::MAX,
    ensures
        spec_fill(keeper, donor, start, end).len() == n - (end - start + 1),
        spec_fill(keeper, donor, start, end).no_duplicates(),
        in_table(spec_fill(keeper, donor, start, end), n),
        forall|i: int|
            0 <= i < spec_fill(keeper, donor, start, end).len() ==> !keeper.subrange(
                start,
                end + 1,
            ).contains(#[trigger] spec_fill(keeper, donor, start, end)[i]),
{
    let kept = keeper.subrange(start, end + 1);
    let scan = scan_order(donor, end);
    let pred = absent_from(kept);
    let fill = scan.filter(pred);
    broadcast use vstd::seq_lib::group_filter_ensures;

    lemma_scan_order_is_tour(donor, end, n);
    lemma_filter_distinct(scan, pred);
    assert forall|i: int| 0 <= i < fill.len() implies !kept.contains(#[trigger] fill[i]) by {
        assert(pred(fill[i]));
    }
    assert forall|i: int| 0 <= i < fill.len() implies #[trigger] fill[i] < n by {
        assert(fill.contains(fill[i]));
        scan.lemma_filter_contains_rev(pred, fill[i]);
        let j = choose|j: int| 0 <= j < scan.len() && scan[j] == fill[i];
        assert(scan[j] < n);
    }
    // The cities split into those kept and those filled in.
    let all = cities_below(n);
    lemma_cities_below_len(n);
    assert(kept.no_duplicates());
    kept.unique_seq_to_set();
    fill.unique_seq_to_set();
    assert(kept.to_set().subset_of(all)) by {
        assert forall|c: usize| kept.to_set().contains(c) implies all.contains(c) by {
            let j = choose|j: int| 0 <= j < kept.len() && kept[j] == c;
            assert(keeper[start + j] < n);
        }
    }
    assert(fill.to_set() =~= all.difference(kept.to_set())) by {
        assert forall|c: usize| fill.to_set().contains(c) implies all.difference(
            kept.to_set(),
        ).contains(c) by {
            let j = choose|j: int| 0 <= j < fill.len() && fill[j] == c;
            assert(fill[j] < n);
            assert(!kept.contains(fill[j]));
        }
        assert forall|c: usize|
            all.difference(kept.to_set()).contains(c) implies fill.to_set().contains(c) by {
            lemma_tour_visits_every_city(scan, n, c);
            let j = choose|j: int| 0 <= j < scan.len() && scan[j] == c;
            assert(pred(scan[j]));
            assert(fill.contains(scan[j]));
        }
    }
    vstd::set_lib::lemma_set_subset_finite(all, kept.to_set());
    vstd::set_lib::lemma_set_difference_len(all, kept.to_set());
    assert(all.intersect(kept.to_set()) =~= kept.to_set());
}

/// Crossover gives tours: whatever the cut points, a child of two tours holds
/// no city twice and leaves no city out.
pub proof fn lemma_child_is_tour(
    keeper: Seq<usize>,
    donor: Seq<usize>,
    start: int,
    end: int,
    n: nat,
)
    requires
        is_tour(keeper, n),
        is_tour(donor, n),
        0 <= start <= end < n,
        n <= usize::MAX,
    ensures
        is_tour(spec_child(keeper, donor, start, end), n),
        forall|city: usize| city < n ==> spec_child(keeper, donor, start, end).contains(city),
{
    let kept = keeper.subrange(start, end + 1);
    let fill = spec_fill(keeper, donor, start, end);
    let child = spec_child(keeper, donor, start, end);
    let width = end - start + 1;
    lemma_fill(keeper, donor, start, end, n);
    assert(child.len() == n);
    assert forall|i: int| 0 <= i < n implies #[trigger] child[i] == (if i < start {
        fill[i]
    } else if i <= end {
        keeper[i]
    } else {
        fill[i - width]
    }) by {}
    assert forall|i: int| start <= i <= end implies kept.contains(#[trigger] keeper[i]) by {
        assert(kept[i - start] == keeper[i]);
    }
    assert forall|i: int| 0 <= i < n implies #[trigger] child[i] < n by {}
    assert forall|i: int, j: int| 0 <= i < n && 0 <= j < n && i != j implies child[i]
        != child[j] by {
        let kept_i = start <= i <= end;
        let kept_j = start <= j <= end;
        if kept_i && kept_j {
            assert(keeper[i] != keeper[j]);
        } else if kept_i {
            let b = if j < start {
                j
            } else {
                j - width
            };
            assert(kept.contains(keeper[i]));
            assert(!kept.contains(fill[b]));
        } else if kept_j {
            let a = if i < start {
                i
            } else {
                i - width
            };
            assert(kept.contains(keeper[j]));
            assert(!kept.contains(fill[a]));
        } else {
            let a = if i < start {
                i
            } else {
                i - width
            };
            let b = if j < start {
                j
            } else {
                j - width
            };
            assert(fill[a] != fill[b]);
        }
    }
    assert forall|city: usize| city < n implies child.contains(city) by {
        lemma_tour_visits_every_city(child, n, city);
    }
}

/// A row of `n` marks, none of them set.
fn unmarked(n: usize) -> (marks: Vec<bool>)
    ensures
        marks@.len() == n,
        forall|c: int| 0 <= c < n ==> !#[trigger] marks@[c],
{
    let mut marks: Vec<bool> = Vec::new();
    let mut k: usize = 0;
    while k < n
        invariant
            k <= n,
            marks@.len() == k,
            forall|c: int| 0 <= c < k ==> !#[trigger] marks@[c],
        decreases n - k,
    {
        marks.push(false);
        k = k + 1;
    }
    marks
}

/// Builds the child that keeps `keeper[start..=end]` and takes the rest from `donor`.
fn build_child(
    keeper: &Vec<usize>,
    donor: &Vec<usize>,
    start: usize,
    end: usize,
) -> (child: Vec<usize>)
    requires
        is_tour(keeper@, keeper@.len()),
        is_tour(donor@, keeper@.len()),
        start <= end < keeper@.len(),
    ensures
        child@ == spec_child(keeper@, donor@, start as int, end as int),
        is_tour(child@, keeper@.len()),
{
    let n: usize = keeper.len();
    let ghost kept = keeper@.subrange(start as int, end + 1);
    let ghost scan = scan_order(donor@, end as int);
    let ghost pred = absent_from(kept);

    // Mark the genes that the child keeps.
    let mut marks: Vec<bool> = unmarked(n);
    let mut i: usize = start;
    assert(keeper@.subrange(start as int, start as int) =~= Seq::<usize>::empty());
    while i <= end
        invariant
            start <= i <= end + 1,
            end < n,
            n == keeper@.len(),
            in_table(keeper@, n as nat),
            marks@.len() == n,
            forall|c: int|
                0 <= c < n ==> (#[trigger] marks@[c] <==> keeper@.subrange(
                    start as int,
                    i as int,
                ).contains(c as usize)),
        decreases end + 1 - i,
    {
        let gene: usize = keeper[i];
        let ghost before = keeper@.subrange(start as int, i as int);
        let ghost after = keeper@.subrange(start as int, i + 1);
        marks.set(gene, true);
        proof {
            assert(after =~= before.push(gene));
            assert forall|c: int| 0 <= c < n implies (#[trigger] marks@[c] <==> after.contains(
                c as usize,
            )) by {
                if c == gene {
                    assert(after[i - start] == gene);
                } else if before.contains(c as usize) {
                    let j = choose|j: int| 0 <= j < before.len() && before[j] == c as usize;
                    assert(after[j] == c as usize);
                } else if after.contains(c as usize) {
                    let j = choose|j: int| 0 <= j < after.len() && after[j] == c as usize;
                    assert(before[j] == c as usize);
                }
            }
        }
        i = i + 1;
    }

    // Read the donor in scan order and collect the genes that are not marked.
    let mut fill: Vec<usize> = Vec::new();
    let mut k: usize = 0;
    let mut at: usize = if end + 1 == n {
        0
    } else {
        end + 1
    };
    proof {
        reveal(Seq::filter);
        assert(scan.take(0) =~= Seq::<usize>::empty());
    }
    while k < n
        invariant
            k <= n,
            end < n,
            at < n,
            n == donor@.len(),
            in_table(donor@, n as nat),
            scan == scan_order(donor@, end as int),
            pred == absent_from(kept),
            at == if end + 1 + k < n {
                end + 1 + k
            } else if end + 1 + k < 2 * n {
                end + 1 + k - n
            } else {
                0
            },
            fill@ == scan.take(k as int).filter(pred),
            marks@.len() == n,
            forall|c: int| 0 <= c < n ==> (#[trigger] marks@[c] <==> kept.contains(c as usize)),
        decreases n - k,
    {
        let gene: usize = donor[at];
        proof {
            reveal(Seq::filter);
            assert(scan[k as int] == gene);
            assert(scan.take(k + 1).drop_last() =~= scan.take(k as int));
            assert(scan.take(k + 1).last() == gene);
            assert(pred(gene) == !kept.contains(gene));
        }
        if !marks[gene] {
            fill.push(gene);
        }
        k = k + 1;
        at = if at + 1 == n {
            0
        } else {
            at + 1
        };
    }
    proof {
        assert(scan.take(n as int) =~= scan);
        lemma_fill(keeper@, donor@, start as int, end as int, n as nat);
        lemma_child_is_tour(keeper@, donor@, start as int, end as int, n as nat);
    }

    // Lay the child out: fill, kept genes, fill.
    let ghost target = spec_child(keeper@, donor@, start as int, end as int);
    let width: usize = end - start + 1;
    let mut child: Vec<usize> = Vec::new();
    let mut j: usize = 0;
    while j < n
        invariant
            j <= n,
            start <= end < n,
            n == keeper@.len(),
            width == end - start + 1,
            fill@.len() == n - width,
            fill@ == spec_fill(keeper@, donor@, start as int, end as int),
            target == spec_child(keeper@, donor@, start as int, end as int),
            child@.len() == j,
            forall|m: int| 0 <= m < j ==> child@[m] == target[m],
        decreases n - j,
    {
        let gene: usize = if j < start {
            fill[j]
        } else if j <= end {
            keeper[j]
        } else {
            fill[j - width]
        };
        child.push(gene);
        j = j + 1;
    }
    assert(child@ =~= target);
    child
}

/// Crosses two parents over at the cut points `gene1` and `gene2`, whichever
/// of the two is the greater. The first child keeps the first parent's genes
/// between the cut points, both included, and is filled from the second
/// parent; the second child is made the other way round.
pub fn crossover_at(
    parents: (&Vec<usize>, &Vec<usize>),
    gene1: usize,
    gene2: usize,
) -> (children: (Vec<usize>, Vec<usize>))
    requires
        is_tour(parents.0@, parents.0@.len()),
        is_tour(parents.1@, parents.0@.len()),
        gene1 < parents.0@.len(),
        gene2 < parents.0@.len(),
    ensures
        is_crossover(parents.0@, parents.1@, gene1, gene2, (children.0@, children.1@)),
        is_tour(children.0@, parents.0@.len()),
        is_tour(children.1@, parents.0@.len()),
{
    let parent1: &Vec<usize> = parents.0;
    let parent2: &Vec<usize> = parents.1;
    let (start_gene, end_gene): (usize, usize) = if gene1 < gene2 {
        (gene1, gene2)
    } else {
        (gene2, gene1)
    };
    let child1: Vec<usize> = build_child(parent1, parent2, start_gene, end_gene);
    let child2: Vec<usize> = build_child(parent2, parent1, start_gene, end_gene);
    (child1, child2)
}

/// Crosses two parents over at two cut points drawn from `rng`, each of them
/// any position of a tour.
pub fn crossover(
    parents: (&Vec<usize>, &Vec<usize>),
    rng: &mut StdRng,
) -> (children: (Vec<usize>, Vec<usize>))
    requires
        is_tour(parents.0@, parents.0@.len()),
        is_tour(parents.1@, parents.0@.len()),
        parents.0@.len() > 0,
    ensures
        exists|gene1: usize, gene2: usize|
            gene1 < parents.0@.len() && gene2 < parents.0@.len() && #[trigger] is_crossover(
                parents.0@,
                parents.1@,
                gene1,
                gene2,
                (children.0@, children.1@),
            ),
        is_tour(children.0@, parents.0@.len()),
        is_tour(children.1@, parents.0@.len()),
{
    let num_cities: usize = parents.0.len();
    let gene1: usize = draw_below(rng, num_cities as u128) as usize;
    let gene2: usize = draw_below(rng, num_cities as u128) as usize;
    crossover_at(parents, gene1, gene2)
}

} // verus!
