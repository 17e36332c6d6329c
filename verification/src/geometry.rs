//! Cities, the distance between two of them, and the length of a tour.

use vstd::prelude::*;

verus! {

/// A city: a point of the integer plane. A city is known by its place in the
/// table of cities.
#[derive(Clone, Copy, Debug, PartialEq, Eq)]
pub struct City {
    pub x: i32,
    pub y: i32,
}

/// One unit of the plane is this many units of distance.
pub const DISTANCE_SCALE: u64 = 1_000_000;

/// The square of the Euclidean distance between two cities, in units of the plane.
pub open spec fn spec_squared_distance(a: City, b: City) -> nat {
    ((a.x - b.x) * (a.x - b.x) + (a.y - b.y) * (a.y - b.y)) as nat
}

/// `r` is the square root of `n`, rounded down.
pub open spec fn is_floor_sqrt(n: nat, r: nat) -> bool {
    r * r <= n < (r + 1) * (r + 1)
}

/// The square root of `n`, rounded down.
pub open spec fn floor_sqrt(n: nat) -> nat {
    choose|r: nat| is_floor_sqrt(n, r)
}

/// The Euclidean distance between two cities in units of distance, rounded down.
pub open spec fn spec_distance(a: City, b: City) -> nat {
    floor_sqrt((spec_squared_distance(a, b) * DISTANCE_SCALE * DISTANCE_SCALE) as nat)
}

/// The distance between the cities numbered `a` and `b`.
pub open spec fn edge(cities: Seq<City>, a: usize, b: usize) -> nat {
    spec_distance(cities[a as int], cities[b as int])
}

/// The length of the open path that visits `tour` in order.
pub open spec fn path_length(cities: Seq<City>, tour: Seq<usize>) -> nat
    decreases tour.len(),
{
    if tour.len() < 2 {
        0
    } else {
        path_length(cities, tour.drop_last()) + edge(
            cities,
            tour[tour.len() - 2],
            tour[tour.len() - 1],
        )
    }
}

/// The length of `tour` as a closed loop: the path through it, and the way
/// back from its last city to its first. A tour of one city has length 0, and
/// so has the empty tour.
pub open spec fn spec_tour_length(cities: Seq<City>, tour: Seq<usize>) -> nat {
    if tour.len() == 0 {
        0
    } else {
        path_length(cities, tour) + edge(cities, tour.last(), tour[0])
    }
}

/// Every entry of `tour` numbers a city of a table of `n` cities.
pub open spec fn in_table(tour: Seq<usize>, n: nat) -> bool {
    forall|i: int| 0 <= i < tour.len() ==> #[trigger] tour[i] < n
}

/// A number has one rounded-down square root only.
pub proof fn lemma_floor_sqrt_is(n: nat, r: nat)
    requires
        is_floor_sqrt(n, r),
    ensures
        floor_sqrt(n) == r,
{
    let c = floor_sqrt(n);
    assert(is_floor_sqrt(n, c));
    if c < r {
        assert((c + 1) * (c + 1) <= r * r) by (nonlinear_arith)
            requires
                c + 1 <= r,
        ;
    } else if r < c {
        assert((r + 1) * (r + 1) <= c * c) by (nonlinear_arith)
            requires
                r + 1 <= c,
        ;
    }
}

/// The distance does not depend on the direction of travel.
pub proof fn lemma_distance_symmetric(a: City, b: City)
    ensures
        spec_distance(a, b) == spec_distance(b, a),
{
    assert((a.x - b.x) * (a.x - b.x) == (b.x - a.x) * (b.x - a.x)) by (nonlinear_arith);
    assert((a.y - b.y) * (a.y - b.y) == (b.y - a.y) * (b.y - a.y)) by (nonlinear_arith);
}

/// A city is at distance 0 from itself.
pub proof fn lemma_distance_to_self(a: City)
    ensures
        spec_distance(a, a) == 0,
{
    assert(spec_squared_distance(a, a) == 0) by (nonlinear_arith);
    assert(spec_squared_distance(a, a) * DISTANCE_SCALE * DISTANCE_SCALE == 0) by (nonlinear_arith)
        requires
            spec_squared_distance(a, a) == 0,
    ;
    assert(is_floor_sqrt(0, 0)) by (nonlinear_arith);
    lemma_floor_sqrt_is(0, 0);
}

/// The path through a tour is its first step and the path through the rest.
pub proof fn lemma_path_length_first(cities: Seq<City>, tour: Seq<usize>)
    requires
        tour.len() >= 2,
    ensures
        path_length(cities, tour) == edge(cities, tour[0], tour[1]) + path_length(
            cities,
            tour.drop_first(),
        ),
    decreases tour.len(),
{
    if tour.len() == 2 {
        assert(path_length(cities, tour.drop_last()) == 0);
        assert(path_length(cities, tour.drop_first()) == 0);
    } else {
        lemma_path_length_first(cities, tour.drop_last());
        assert(tour.drop_last().drop_first() =~= tour.drop_first().drop_last());
    }
}

/// A path is as long walked backwards as forwards.
pub proof fn lemma_path_length_reverse(cities: Seq<City>, tour: Seq<usize>)
    ensures
        path_length(cities, tour.reverse()) == path_length(cities, tour),
    decreases tour.len(),
{
    if tour.len() >= 2 {
        let back = tour.reverse();
        assert(back.drop_last() =~= tour.drop_first().reverse());
        lemma_path_length_reverse(cities, tour.drop_first());
        lemma_path_length_first(cities, tour);
        lemma_distance_symmetric(cities[tour[1] as int], cities[tour[0] as int]);
        assert(back[back.len() - 2] == tour[1]);
        assert(back[back.len() - 1] == tour[0]);
    }
}

/// A tour is as long in one direction as in the other.
pub proof fn lemma_tour_length_reverse(cities: Seq<City>, tour: Seq<usize>)
    ensures
        spec_tour_length(cities, tour.reverse()) == spec_tour_length(cities, tour),
{
    if tour.len() > 0 {
        let back = tour.reverse();
        lemma_path_length_reverse(cities, tour);
        assert(back.last() == tour[0]);
        assert(back[0] == tour.last());
        lemma_distance_symmetric(cities[tour[0] as int], cities[tour.last() as int]);
    }
}

/// A tour that ends with a second visit to its first city is as long as the
/// tour without that visit.
pub proof fn lemma_tour_length_closed(cities: Seq<City>, tour: Seq<usize>)
    requires
        tour.len() > 0,
    ensures
        spec_tour_length(cities, tour.push(tour[0])) == spec_tour_length(cities, tour),
{
    let closed = tour.push(tour[0]);
    assert(closed.drop_last() =~= tour);
    assert(closed[closed.len() - 2] == tour.last());
    lemma_distance_to_self(cities[tour[0] as int]);
}

/// The square root of `n`, rounded down.
pub fn integer_sqrt(n: u128) -> (r: u64)
    ensures
        r == floor_sqrt(n as nat),
        is_floor_sqrt(n as nat, r as nat),
{
    let mut low: u128 = 0;
    let mut high: u128 = 0x1_0000_0000_0000_0000;
    assert(n < high * high) by (nonlinear_arith)
        requires
            high == 0x1_0000_0000_0000_0000,
            n <= u128::MAX,
    ;
    while high - low > 1
        invariant
            low < high <= 0x1_0000_0000_0000_0000,
            low * low <= n < high * high,
        decreases high - low,
    {
        let mid: u128 = low + (high - low) / 2;
        assert(mid * mid <= 0xFFFF_FFFF_FFFF_FFFF * 0xFFFF_FFFF_FFFF_FFFF) by (nonlinear_arith)
            requires
                0 <= mid <= 0xFFFF_FFFF_FFFF_FFFF,
        ;
        if mid * mid <= n {
            low = mid;
        } else {
            high = mid;
        }
    }
    proof {
        lemma_floor_sqrt_is(n as nat, low as nat);
    }
    low as u64
}

/// How far apart two coordinates are.
fn coordinate_gap(a: i32, b: i32) -> (gap: u64)
    ensures
        gap == if a >= b {
            a - b
        } else {
            b - a
        },
{
    if a >= b {
        (a as i64 - b as i64) as u64
    } else {
        (b as i64 - a as i64) as u64
    }
}

/// The Euclidean distance between two cities in units of distance, rounded down.
pub fn distance(a: &City, b: &City) -> (d: u64)
    ensures
        d == spec_distance(*a, *b),
{
    let dx: u128 = coordinate_gap(a.x, b.x) as u128;
    let dy: u128 = coordinate_gap(a.y, b.y) as u128;
    assert(dx * dx == (a.x - b.x) * (a.x - b.x)) by (nonlinear_arith)
        requires
            dx == a.x - b.x || dx == b.x - a.x,
    ;
    assert(dy * dy == (a.y - b.y) * (a.y - b.y)) by (nonlinear_arith)
        requires
            dy == a.y - b.y || dy == b.y - a.y,
    ;
    assert(dx * dx <= 0xFFFF_FFFF * 0xFFFF_FFFF) by (nonlinear_arith)
        requires
            0 <= dx <= 0xFFFF_FFFF,
    ;
    assert(dy * dy <= 0xFFFF_FFFF * 0xFFFF_FFFF) by (nonlinear_arith)
        requires
            0 <= dy <= 0xFFFF_FFFF,
    ;
    let squared: u128 = dx * dx + dy * dy;
    let scale: u128 = DISTANCE_SCALE as u128;
    let scaled: u128 = squared * scale * scale;
    integer_sqrt(scaled)
}

/// The length of `route` as a closed loop over the cities of `city_positions`:
/// the distances from each city to the next, and from the last back to the
/// first. A route of one city has length 0, and so has a route of none.
pub fn tour_length(route: &Vec<usize>, city_positions: &Vec<City>) -> (total: u128)
    requires
        in_table(route@, city_positions@.len()),
    ensures
        total == spec_tour_length(city_positions@, route@),
{
    let n: usize = route.len();
    if n == 0 {
        return 0;
    }
    let mut total: u128 = 0;
    let mut i: usize = 1;
    assert(path_length(city_positions@, route@.take(1)) == 0);
    while i < n
        invariant
            1 <= i <= n,
            n == route@.len(),
            in_table(route@, city_positions@.len()),
            total == path_length(city_positions@, route@.take(i as int)),
            total <= (i - 1) * u64::MAX,
        decreases n - i,
    {
        let step: u64 = distance(&city_positions[route[i - 1]], &city_positions[route[i]]);
        proof {
            let next = route@.take(i + 1);
            assert(next.drop_last() =~= route@.take(i as int));
        }
        total = total + step as u128;
        i = i + 1;
    }
    assert(route@.take(n as int) =~= route@);
    let back: u64 = distance(&city_positions[route[n - 1]], &city_positions[route[0]]);
    total + back as u128
}

} // verus!
