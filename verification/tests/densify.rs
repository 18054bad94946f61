use drop_size::densify::{insert_intermediate_points, segments, Place};
use drop_size::point::{Length, Point};

fn p(x: i32, y: i32) -> Point {
    Point { x, y }
}

fn place(x: i128, y: i128, parts: u64) -> Place {
    Place { x, y, parts }
}

fn spacing(numerator: u16, denominator: u16) -> Length {
    Length { numerator, denominator }
}

#[test]
fn pieces_are_rounded_up() {
    assert_eq!(segments(p(0, 0), p(3, 4), spacing(1, 1)), 5);
    assert_eq!(segments(p(0, 0), p(3, 4), spacing(2, 1)), 3);
    assert_eq!(segments(p(0, 0), p(3, 4), spacing(5, 1)), 1);
    assert_eq!(segments(p(0, 0), p(3, 4), spacing(6, 1)), 1);
    assert_eq!(segments(p(0, 0), p(3, 4), spacing(1, 10)), 50);
    assert_eq!(segments(p(0, 0), p(1, 1), spacing(1, 1)), 2);
    assert_eq!(segments(p(0, 0), p(1, 1), spacing(1, 10)), 15);
    assert_eq!(segments(p(7, 7), p(7, 7), spacing(1, 10)), 1);
    assert_eq!(segments(p(0, 0), p(1, 0), spacing(3, 0)), 1);
    assert_eq!(segments(p(4, 9), p(1, 5), spacing(1, 1)), 5);
}

#[test]
fn the_longest_way_is_cut_in_the_finest_pieces() {
    let n = segments(p(i32::MIN, i32::MIN), p(i32::MAX, i32::MAX), spacing(1, u16::MAX));
    let exact = (2.0f64).sqrt() * (u32::MAX as f64) * (u16::MAX as f64);
    assert!((n as f64 - exact).abs() <= 1.0 + exact * 1e-12);
    assert!(n as f64 >= exact * (1.0 - 1e-12));
}

#[test]
fn nothing_round_nothing() {
    assert_eq!(insert_intermediate_points(&vec![], spacing(1, 10)), vec![]);
}

#[test]
fn one_point_stays() {
    assert_eq!(insert_intermediate_points(&vec![p(3, 4)], spacing(1, 10)), vec![place(3, 4, 1)]);
}

#[test]
fn far_corners_get_places_between() {
    let hull = vec![p(0, 0), p(3, 0), p(3, 4)];
    assert_eq!(
        insert_intermediate_points(&hull, spacing(2, 1)),
        vec![
            place(0, 0, 2),
            place(3, 0, 2),
            place(6, 0, 2),
            place(6, 4, 2),
            place(9, 12, 3),
            place(6, 8, 3),
            place(3, 4, 3),
        ]
    );
}

#[test]
fn near_corners_stay_alone() {
    let hull = vec![p(0, 0), p(3, 0), p(3, 4)];
    assert_eq!(
        insert_intermediate_points(&hull, spacing(5, 1)),
        vec![place(0, 0, 1), place(3, 0, 1), place(3, 4, 1)]
    );
}

#[test]
fn no_two_places_in_a_row_lie_further_apart_than_the_spacing() {
    let hull = vec![p(3, 3), p(40, 5), p(55, 30), p(20, 47), p(-6, 21)];
    for (numerator, denominator) in [(1u16, 10u16), (1, 1), (3, 2), (7, 1), (100, 1)] {
        let places = insert_intermediate_points(&hull, spacing(numerator, denominator));
        let limit = numerator as f64 / denominator as f64;
        let at = |q: &Place| (q.x as f64 / q.parts as f64, q.y as f64 / q.parts as f64);
        let mut corners = 0;
        for k in 0..places.len() {
            let (ax, ay) = at(&places[k]);
            let (bx, by) = at(&places[(k + 1) % places.len()]);
            assert!(((ax - bx).powi(2) + (ay - by).powi(2)).sqrt() <= limit * (1.0 + 1e-9));
            if corners < hull.len() && (ax, ay) == (hull[corners].x as f64, hull[corners].y as f64) {
                corners += 1;
            }
        }
        assert_eq!(corners, hull.len());
    }
}
