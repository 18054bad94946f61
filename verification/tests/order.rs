use drop_size::angles::ByAngle;
use drop_size::median::{ByX, ByY};
use drop_size::order::{sorted_order, Comparison};
use drop_size::point::Point;
use drop_size::sizes::ByFrame;

fn p(x: i32, y: i32) -> Point {
    Point { x, y }
}

#[test]
fn order_of_nothing_and_of_one() {
    assert_eq!(sorted_order(&ByX, &vec![]), vec![]);
    assert_eq!(sorted_order(&ByX, &vec![p(5, 5)]), vec![0]);
}

#[test]
fn order_names_the_places_smallest_first() {
    let points = vec![p(5, 1), p(2, 9), p(9, 4), p(0, 0), p(7, 7)];
    assert_eq!(sorted_order(&ByX, &points), vec![3, 1, 0, 4, 2]);
    assert_eq!(sorted_order(&ByY, &points), vec![3, 0, 2, 4, 1]);
}

#[test]
fn equal_items_keep_their_order() {
    let points = vec![p(3, 0), p(1, 1), p(3, 2), p(1, 3), p(3, 4), p(1, 5), p(2, 6)];
    assert_eq!(sorted_order(&ByX, &points), vec![1, 3, 5, 6, 0, 2, 4]);
    let rows = vec![(4u32, 'a'), (4, 'b'), (1, 'c'), (4, 'd'), (1, 'e')];
    assert_eq!(sorted_order(&ByFrame, &rows), vec![2, 4, 0, 1, 3]);
}

#[test]
fn a_long_list_comes_out_in_order() {
    let mut points = Vec::new();
    let mut seed: u32 = 7;
    for i in 0..1000 {
        seed = seed.wrapping_mul(1664525).wrapping_add(1013904223);
        points.push(p((seed >> 20) as i32, i));
    }
    let order = sorted_order(&ByX, &points);
    let mut seen = vec![false; points.len()];
    for &place in &order {
        assert!(!seen[place]);
        seen[place] = true;
    }
    assert_eq!(order.len(), points.len());
    for pair in order.windows(2) {
        let (a, b) = (points[pair[0]], points[pair[1]]);
        assert!(a.x < b.x || (a.x == b.x && pair[0] < pair[1]));
    }
}

#[test]
fn angles_grow_counter_clockwise_from_the_row_of_the_anchor() {
    let by = ByAngle { anchor: p(0, 0) };
    assert!(by.is_below(&p(5, 0), &p(5, 1)));
    assert!(by.is_below(&p(0, 0), &p(5, 1)));
    assert!(by.is_below(&p(5, 1), &p(0, 3)));
    assert!(by.is_below(&p(0, 3), &p(-4, 1)));
    assert!(!by.is_below(&p(5, 1), &p(5, 0)));
    let points = vec![p(-4, 1), p(0, 3), p(5, 1), p(5, 0), p(0, 0), p(1, 1), p(3, 3)];
    assert_eq!(sorted_order(&by, &points), vec![4, 3, 2, 5, 6, 1, 0]);
}

#[test]
fn under_one_angle_the_nearer_point_comes_first() {
    let by = ByAngle { anchor: p(0, 0) };
    assert!(by.is_below(&p(1, 1), &p(3, 3)));
    assert!(!by.is_below(&p(3, 3), &p(1, 1)));
    assert!(by.is_below(&p(0, 0), &p(7, 0)));
    assert!(!by.is_below(&p(7, 0), &p(0, 0)));
    assert!(by.is_below(&p(2, 0), &p(7, 0)));
    assert!(!by.is_below(&p(2, 2), &p(2, 2)));
    assert!(!by.is_below(&p(0, 0), &p(0, 0)));
    let points = vec![p(3, 3), p(9, 0), p(1, 1), p(4, 0), p(0, 0), p(2, 2)];
    assert_eq!(sorted_order(&by, &points), vec![4, 3, 1, 2, 5, 0]);
}
