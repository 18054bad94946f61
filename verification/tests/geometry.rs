use drop_size::convex_hull::{convex_hull, lowest_point};
use drop_size::median::{median, near};
use drop_size::point::{axis2_product, distance_squared, Length, Point};

fn p(x: i32, y: i32) -> Point {
    Point { x, y }
}

fn whole(pixels: u16) -> Length {
    Length { numerator: pixels, denominator: 1 }
}

fn points(list: &[(i32, i32)]) -> Vec<Point> {
    list.iter().map(|&(x, y)| p(x, y)).collect()
}

#[test]
fn turn_is_left_right_or_straight() {
    assert_eq!(axis2_product(p(0, 0), p(4, 0), p(4, 3)), 12);
    assert_eq!(axis2_product(p(0, 0), p(4, 3), p(4, 0)), -12);
    assert_eq!(axis2_product(p(0, 0), p(2, 2), p(5, 5)), 0);
    assert_eq!(
        axis2_product(p(i32::MIN, i32::MIN), p(i32::MAX, i32::MIN), p(i32::MAX, i32::MAX)),
        (u32::MAX as i128) * (u32::MAX as i128)
    );
}

#[test]
fn distance_is_squared() {
    assert_eq!(distance_squared(p(1, 2), p(4, 6)), 25);
    assert_eq!(distance_squared(p(4, 6), p(1, 2)), 25);
    assert_eq!(distance_squared(p(7, 7), p(7, 7)), 0);
    assert_eq!(
        distance_squared(p(i32::MIN, i32::MIN), p(i32::MAX, i32::MAX)),
        2 * (u32::MAX as i128) * (u32::MAX as i128)
    );
}

#[test]
fn fewer_than_three_points_are_their_own_hull() {
    assert_eq!(convex_hull(&points(&[])), points(&[]));
    assert_eq!(convex_hull(&points(&[(3, 4)])), points(&[(3, 4)]));
    assert_eq!(convex_hull(&points(&[(3, 4), (1, 1)])), points(&[(3, 4), (1, 1)]));
    assert_eq!(convex_hull(&points(&[(2, 2), (2, 2)])), points(&[(2, 2), (2, 2)]));
}

#[test]
fn three_points_in_line_stay() {
    assert_eq!(
        convex_hull(&points(&[(0, 0), (1, 1), (2, 2)])),
        points(&[(0, 0), (1, 1), (2, 2)])
    );
    assert_eq!(
        convex_hull(&points(&[(0, 0), (1, 0), (2, 0)])),
        points(&[(0, 0), (1, 0), (2, 0)])
    );
    assert_eq!(
        convex_hull(&points(&[(2, 2), (0, 0), (1, 1)])),
        points(&[(0, 0), (1, 1), (2, 2)])
    );
    assert_eq!(
        convex_hull(&points(&[(4, 0), (1, 0), (0, 0), (3, 0), (2, 0)])),
        points(&[(0, 0), (1, 0), (2, 0), (3, 0), (4, 0)])
    );
}

#[test]
fn hull_of_a_triangle_with_a_point_inside() {
    let hull = convex_hull(&points(&[(0, 0), (2, 1), (4, 0), (2, 4)]));
    assert_eq!(hull, points(&[(0, 0), (4, 0), (2, 4)]));
}

#[test]
fn hull_goes_counter_clockwise_from_the_lowest_point() {
    let hull = convex_hull(&points(&[(3, 3), (0, 0), (3, 0), (0, 3), (1, 2), (2, 1)]));
    assert_eq!(hull, points(&[(0, 0), (3, 0), (3, 3), (0, 3)]));
}

#[test]
fn hull_of_a_square_of_pixels() {
    let mut square = Vec::new();
    for y in 3..6 {
        for x in 3..6 {
            square.push(p(x, y));
        }
    }
    let hull = convex_hull(&square);
    assert_eq!(
        hull,
        points(&[(3, 3), (4, 3), (5, 3), (5, 4), (5, 5), (4, 5), (3, 5)])
    );
    for q in &square {
        for i in 0..hull.len() {
            let next = hull[(i + 1) % hull.len()];
            assert!(axis2_product(hull[i], next, *q) >= 0);
        }
    }
}

#[test]
fn hull_encloses_a_cloud() {
    let mut cloud = Vec::new();
    let mut seed: u32 = 12345;
    for y in 0..40 {
        for x in 0..40 {
            seed = seed.wrapping_mul(1664525).wrapping_add(1013904223);
            if (seed >> 16) % 5 == 0 {
                cloud.push(p(x, y));
            }
        }
    }
    let hull = convex_hull(&cloud);
    assert!(hull.len() >= 3);
    assert_eq!(hull[0], lowest_point(&cloud));
    for h in &hull {
        assert!(cloud.contains(h));
    }
    for q in &cloud {
        for i in 0..hull.len() {
            let next = hull[(i + 1) % hull.len()];
            assert!(axis2_product(hull[i], next, *q) >= 0);
        }
    }
}

#[test]
fn hull_starts_at_the_lowest_point_wherever_it_stands_in_the_list() {
    assert_eq!(convex_hull(&points(&[(5, 0), (0, 0), (3, 4)])), points(&[(0, 0), (5, 0), (3, 4)]));
    assert_eq!(convex_hull(&points(&[(4, 0), (0, 0), (0, 5)])), points(&[(0, 0), (4, 0), (0, 5)]));
    assert_eq!(
        convex_hull(&points(&[(2, 2), (0, 5), (4, 0), (2, 1), (0, 0)])),
        points(&[(0, 0), (4, 0), (0, 5)])
    );
}

#[test]
fn points_of_one_angle_are_taken_nearest_first() {
    let hull = convex_hull(&points(&[(3, 3), (0, 3), (1, 1), (2, 2), (0, 0), (0, 1)]));
    assert_eq!(hull, points(&[(0, 0), (1, 1), (2, 2), (3, 3), (0, 3)]));
    let hull = convex_hull(&points(&[(0, 0), (6, 6), (2, 2), (4, 4), (0, 6)]));
    assert_eq!(hull, points(&[(0, 0), (2, 2), (4, 4), (6, 6), (0, 6)]));
}

#[test]
fn hull_encloses_a_cloud_in_any_order() {
    let mut cloud = Vec::new();
    let mut seed: u32 = 99;
    for y in 0..25 {
        for x in 0..25 {
            seed = seed.wrapping_mul(1664525).wrapping_add(1013904223);
            if (seed >> 16) % 3 == 0 {
                cloud.push(p(x - 12, y - 12));
            }
        }
    }
    for round in 0..20u32 {
        for i in (1..cloud.len()).rev() {
            seed = seed.wrapping_mul(1664525).wrapping_add(1013904223 + round);
            cloud.swap(i, (seed >> 8) as usize % (i + 1));
        }
        let hull = convex_hull(&cloud);
        assert!(hull.len() >= 3);
        assert_eq!(hull[0], lowest_point(&cloud));
        for h in &hull {
            assert!(cloud.contains(h));
        }
        for i in 0..hull.len() {
            let next = hull[(i + 1) % hull.len()];
            assert!(axis2_product(hull[i], next, hull[(i + 2) % hull.len()]) >= 0);
            for q in &cloud {
                assert!(axis2_product(hull[i], next, *q) >= 0);
            }
        }
    }
}

#[test]
fn lowest_point_is_leftmost_of_the_lowest_row() {
    assert_eq!(lowest_point(&points(&[(4, 2), (7, 1), (3, 1), (5, 1)])), p(3, 1));
}

#[test]
fn median_of_nothing_is_nothing() {
    assert_eq!(median(&points(&[])), None);
}

#[test]
fn median_takes_each_axis_alone() {
    assert_eq!(median(&points(&[(1, 9), (5, 1), (9, 5)])), Some(p(5, 5)));
    assert_eq!(median(&points(&[(7, 3)])), Some(p(7, 3)));
    assert_eq!(median(&points(&[(1, 1), (2, 2), (3, 3), (4, 4)])), Some(p(3, 3)));
    assert_eq!(median(&points(&[(4, 1), (1, 2)])), Some(p(4, 2)));
}

#[test]
fn median_and_radius_drop_outliers() {
    let mut cloud = Vec::new();
    for y in 10..15 {
        for x in 20..25 {
            cloud.push(p(x, y));
        }
    }
    let cluster = cloud.clone();
    cloud.insert(0, p(500, 3));
    cloud.push(p(0, 400));
    cloud.push(p(-300, -300));
    let middle = median(&cloud).unwrap();
    assert_eq!(middle, p(22, 12));
    assert_eq!(near(&cloud, middle, whole(10)), cluster);
}

#[test]
fn near_is_strict() {
    let list = points(&[(0, 0), (3, 4), (5, 0), (0, 6), (4, 4)]);
    assert_eq!(near(&list, p(0, 0), whole(5)), points(&[(0, 0)]));
    assert_eq!(near(&list, p(0, 0), whole(6)), points(&[(0, 0), (3, 4), (5, 0), (4, 4)]));
    assert_eq!(near(&list, p(0, 0), whole(0)), points(&[]));
}

#[test]
fn near_takes_parts_of_a_pixel() {
    let list = points(&[(0, 0), (3, 4), (5, 0), (0, 6), (4, 4)]);
    let half = |halves: u16| Length { numerator: halves, denominator: 2 };
    assert_eq!(near(&list, p(0, 0), half(10)), points(&[(0, 0)]));
    assert_eq!(near(&list, p(0, 0), half(11)), points(&[(0, 0), (3, 4), (5, 0)]));
    assert_eq!(near(&list, p(0, 0), Length { numerator: 5657, denominator: 1000 }), points(&[(0, 0), (3, 4), (5, 0), (4, 4)]));
    assert_eq!(near(&list, p(0, 0), Length { numerator: 5656, denominator: 1000 }), points(&[(0, 0), (3, 4), (5, 0)]));
    assert_eq!(near(&list, p(0, 0), Length { numerator: 1, denominator: 0 }), list);
    assert_eq!(near(&list, p(0, 0), Length { numerator: 0, denominator: 0 }), points(&[]));
    let far = points(&[(i32::MIN, i32::MIN), (i32::MAX, i32::MAX)]);
    assert_eq!(near(&far, p(i32::MAX, i32::MAX), Length { numerator: u16::MAX, denominator: u16::MAX }), points(&[(i32::MAX, i32::MAX)]));
}

#[test]
fn hull_of_a_hull_is_that_hull() {
    for list in [
        points(&[(2, 2), (0, 5), (4, 0), (2, 1), (0, 0)]),
        points(&[(3, 3), (0, 3), (1, 1), (2, 2), (0, 0), (0, 1)]),
        points(&[(4, 0), (1, 0), (0, 0), (3, 0), (2, 0)]),
        points(&[(9, 9), (-3, 4)]),
    ] {
        let hull = convex_hull(&list);
        assert_eq!(convex_hull(&hull), hull);
    }
}

#[test]
fn a_point_that_comes_twice_is_one_corner_at_most() {
    assert_eq!(
        convex_hull(&points(&[(0, 0), (4, 0), (2, 1), (2, 1), (0, 4)])),
        points(&[(0, 0), (4, 0), (0, 4)])
    );
    assert_eq!(
        convex_hull(&points(&[(4, 0), (0, 0), (0, 4), (4, 0), (0, 0), (0, 4), (0, 0)])),
        points(&[(0, 0), (4, 0), (0, 4)])
    );
    assert_eq!(convex_hull(&points(&[(7, 7), (7, 7), (7, 7)])), points(&[(7, 7)]));
    assert_eq!(convex_hull(&points(&[(7, 7), (1, 2), (7, 7), (1, 2)])), points(&[(1, 2), (7, 7)]));
    let list = points(&[(3, 1), (0, 0), (3, 1), (1, 3), (0, 0), (2, 2), (1, 3), (1, 1), (1, 1)]);
    let hull = convex_hull(&list);
    assert_eq!(hull, points(&[(0, 0), (3, 1), (2, 2), (1, 3)]));
    assert_eq!(convex_hull(&hull), hull);
}
