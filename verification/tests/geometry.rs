use tsp_genetic::geometry::{distance, integer_sqrt, tour_length, City, DISTANCE_SCALE};

fn unit_square() -> Vec<City> {
    vec![City { x: 0, y: 0 }, City { x: 0, y: 1 }, City { x: 1, y: 1 }, City { x: 1, y: 0 }]
}

fn twelve_cities() -> Vec<City> {
    let points = [
        (1, 5), (4, 6), (7, 5), (5, 4), (9, 4), (2, 3),
        (4, 2), (6, 2), (1, 1), (5, 1), (3, 0), (9, 0),
    ];
    points.iter().map(|&(x, y)| City { x, y }).collect()
}

#[test]
fn integer_sqrt_rounds_down() {
    assert_eq!(integer_sqrt(0), 0);
    assert_eq!(integer_sqrt(1), 1);
    assert_eq!(integer_sqrt(2), 1);
    assert_eq!(integer_sqrt(3), 1);
    assert_eq!(integer_sqrt(4), 2);
    assert_eq!(integer_sqrt(15), 3);
    assert_eq!(integer_sqrt(16), 4);
    assert_eq!(integer_sqrt(17), 4);
    assert_eq!(integer_sqrt(1_000_000_000_000), 1_000_000);
    assert_eq!(integer_sqrt(999_999_999_999), 999_999);
}

#[test]
fn integer_sqrt_of_the_greatest_number() {
    assert_eq!(integer_sqrt(u128::MAX), u64::MAX);
}

#[test]
fn integer_sqrt_brackets_its_argument() {
    let mut n: u128 = 1;
    for _ in 0..120 {
        let r = integer_sqrt(n) as u128;
        assert!(r * r <= n);
        assert!(n < (r + 1) * (r + 1));
        n = n * 2 + 1;
    }
}

#[test]
fn distance_of_a_three_four_five_triangle() {
    let a = City { x: 0, y: 0 };
    let b = City { x: 3, y: 4 };
    assert_eq!(distance(&a, &b), 5 * DISTANCE_SCALE);
}

#[test]
fn distance_along_an_axis() {
    assert_eq!(distance(&City { x: -2, y: 7 }, &City { x: 5, y: 7 }), 7_000_000);
    assert_eq!(distance(&City { x: 3, y: -1 }, &City { x: 3, y: -4 }), 3_000_000);
}

#[test]
fn distance_is_rounded_down() {
    let origin = City { x: 0, y: 0 };
    assert_eq!(distance(&origin, &City { x: 1, y: 1 }), 1_414_213);
    assert_eq!(distance(&origin, &City { x: 1, y: 2 }), 2_236_067);
    assert_eq!(distance(&origin, &City { x: -2, y: 2 }), 2_828_427);
}

#[test]
fn distance_to_itself_is_zero() {
    let a = City { x: 17, y: -4 };
    assert_eq!(distance(&a, &a), 0);
}

#[test]
fn distance_is_the_same_both_ways() {
    let a = City { x: -7, y: 12 };
    let b = City { x: 30, y: -5 };
    assert_eq!(distance(&a, &b), distance(&b, &a));
}

#[test]
fn distance_between_the_far_corners_of_the_plane() {
    let low = City { x: i32::MIN, y: i32::MIN };
    let high = City { x: i32::MAX, y: i32::MAX };
    assert_eq!(distance(&low, &high), 6_074_000_998_537_885);
    assert_eq!(distance(&high, &low), 6_074_000_998_537_885);
}

#[test]
fn tour_length_of_the_unit_square() {
    let cities = unit_square();
    assert_eq!(tour_length(&vec![0, 1, 2, 3], &cities), 4_000_000);
}

#[test]
fn tour_length_of_the_crossed_square() {
    let cities = unit_square();
    assert_eq!(tour_length(&vec![0, 2, 1, 3], &cities), 2_000_000 + 2 * 1_414_213);
}

#[test]
fn tour_length_counts_the_way_back() {
    let cities = vec![City { x: 0, y: 0 }, City { x: 3, y: 4 }];
    assert_eq!(tour_length(&vec![0, 1], &cities), 10_000_000);
}

#[test]
fn tour_length_of_one_city_is_zero() {
    let cities = unit_square();
    assert_eq!(tour_length(&vec![2], &cities), 0);
}

#[test]
fn tour_length_of_no_city_is_zero() {
    let cities = unit_square();
    assert_eq!(tour_length(&Vec::new(), &cities), 0);
}

#[test]
fn tour_length_of_cities_in_one_place_is_zero() {
    let cities = vec![City { x: 5, y: 5 }, City { x: 5, y: 5 }, City { x: 5, y: 5 }];
    assert_eq!(tour_length(&vec![2, 0, 1], &cities), 0);
}

#[test]
fn tour_length_of_the_twelve_cities_in_table_order() {
    let cities = twelve_cities();
    let route: Vec<usize> = (0..12).collect();
    assert_eq!(tour_length(&route, &cities), 50_636_822);
}

#[test]
fn tour_length_is_the_same_backwards() {
    let cities = twelve_cities();
    let route: Vec<usize> = vec![3, 7, 0, 11, 5, 2, 9, 1, 10, 4, 8, 6];
    let mut back = route.clone();
    back.reverse();
    assert_eq!(tour_length(&route, &cities), tour_length(&back, &cities));
}

#[test]
fn tour_length_does_not_change_when_the_loop_is_closed() {
    let cities = twelve_cities();
    let route: Vec<usize> = vec![3, 7, 0, 11, 5, 2, 9, 1, 10, 4, 8, 6];
    let mut closed = route.clone();
    closed.push(route[0]);
    assert_eq!(tour_length(&route, &cities), tour_length(&closed, &cities));
}
