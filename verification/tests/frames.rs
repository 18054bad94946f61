use drop_size::color::filter;
use drop_size::image::{Dimensions, Image};
use drop_size::new_frames::{frame_delta, new_frame, outline, paint, paint_square, sample_index};
use drop_size::point::{axis2_product, Length, Point};

fn p(x: i32, y: i32) -> Point {
    Point { x, y }
}

fn whole(pixels: u16) -> Length {
    Length { numerator: pixels, denominator: 1 }
}

fn blank(width: u32, height: u32) -> Image<f32> {
    let mut pixels = Vec::new();
    for _ in 0..width * height {
        pixels.extend_from_slice(&[0.0, 0.0, 0.0, 1.0]);
    }
    Image { pixels, dimensions: Dimensions { width, height } }
}

fn with_square(width: u32, height: u32, from: u32, to: u32, color: [f32; 3]) -> Image<f32> {
    let mut image = blank(width, height);
    for y in from..to {
        for x in from..to {
            image.set_pixel(p(x as i32, y as i32), color);
        }
    }
    image
}

fn rgb_distance(a: [f32; 3], b: [f32; 3]) -> f32 {
    ((a[0] - b[0]).powi(2) + (a[1] - b[1]).powi(2) + (a[2] - b[2]).powi(2)) / 3.0
}

#[test]
fn index_is_row_major_with_four_channels() {
    let image = blank(10, 7);
    assert_eq!(image.index(p(0, 0)), Some(0));
    assert_eq!(image.index(p(3, 0)), Some(12));
    assert_eq!(image.index(p(0, 1)), Some(40));
    assert_eq!(image.index(p(9, 6)), Some(276));
}

#[test]
fn index_is_nothing_outside_the_frame() {
    let image = blank(10, 7);
    assert_eq!(image.index(p(-1, 0)), None);
    assert_eq!(image.index(p(0, -1)), None);
    assert_eq!(image.index(p(10, 0)), None);
    assert_eq!(image.index(p(0, 7)), None);
    assert_eq!(image.index(p(i32::MAX, i32::MAX)), None);
    assert_eq!(image.index(p(i32::MIN, i32::MIN)), None);
    let empty = blank(0, 0);
    assert_eq!(empty.index(p(0, 0)), None);
}

#[test]
fn set_then_get_gives_the_colour_back() {
    let mut image = blank(4, 3);
    image.set_pixel(p(2, 1), [0.25, 0.5, 0.75]);
    assert_eq!(image.get_pixel(p(2, 1)), Some([0.25, 0.5, 0.75]));
    assert_eq!(image.get_pixel(p(1, 1)), Some([0.0, 0.0, 0.0]));
    assert_eq!(image.get_pixel(p(4, 1)), None);
    assert_eq!(&image.pixels[24..28], &[0.25, 0.5, 0.75, 1.0]);
    let mut expected = blank(4, 3).pixels;
    expected[24] = 0.25;
    expected[25] = 0.5;
    expected[26] = 0.75;
    assert_eq!(image.pixels, expected);
}

#[test]
fn set_outside_the_frame_changes_nothing() {
    let mut image = blank(4, 3);
    image.set_pixel(p(4, 0), [1.0, 1.0, 1.0]);
    image.set_pixel(p(0, 3), [1.0, 1.0, 1.0]);
    image.set_pixel(p(-1, -1), [1.0, 1.0, 1.0]);
    assert_eq!(image.pixels, blank(4, 3).pixels);
}

#[test]
fn filter_returns_the_accepted_positions_row_after_row() {
    let mut image = with_square(5, 4, 1, 3, [1.0, 0.0, 0.0]);
    let before = image.pixels.clone();
    let positions = filter(&mut image, |r, _g, _b| r > 0.5, None);
    assert_eq!(positions, vec![p(1, 1), p(2, 1), p(1, 2), p(2, 2)]);
    assert_eq!(image.pixels, before);
}

#[test]
fn filter_repaints_what_it_rejects() {
    let mut image = blank(2, 2);
    image.pixels = vec![
        0.9, 0.1, 0.1, 1.0, 0.2, 0.8, 0.2, 0.5, 0.3, 0.3, 0.9, 1.0, 0.8, 0.0, 0.0, 0.25,
    ];
    let positions = filter(&mut image, |r, _g, _b| r > 0.5, Some([0.0, 0.0, 0.0, 1.0]));
    assert_eq!(positions, vec![p(0, 0), p(1, 1)]);
    assert_eq!(
        image.pixels,
        vec![0.9, 0.1, 0.1, 1.0, 0.0, 0.0, 0.0, 1.0, 0.0, 0.0, 0.0, 1.0, 0.8, 0.0, 0.0, 0.25]
    );
}

#[test]
fn filter_of_an_empty_frame_is_empty() {
    let mut image = blank(0, 5);
    assert_eq!(filter(&mut image, |_r, _g, _b| true, None), vec![]);
}

#[test]
fn frame_delta_blackens_what_stays() {
    let earlier = with_square(4, 4, 0, 2, [0.5, 0.5, 0.5]);
    let mut image = with_square(4, 4, 1, 3, [0.5, 0.5, 0.5]);
    let still = |up: (f32, f32, f32, f32), down: (f32, f32, f32, f32)| {
        let blend = [(up.0 - down.0).abs(), (up.1 - down.1).abs(), (up.2 - down.2).abs()];
        rgb_distance([0.0, 0.0, 0.0], blend) < 0.04
    };
    assert_eq!(frame_delta(&mut image, &earlier, still, [0.0, 0.0, 0.0, 1.0]), Some(()));
    let mut expected = blank(4, 4);
    for point in [p(2, 1), p(1, 2), p(2, 2)] {
        expected.set_pixel(point, [0.5, 0.5, 0.5]);
    }
    assert_eq!(image.pixels, expected.pixels);
}

#[test]
fn frame_delta_needs_frames_of_one_size() {
    let earlier = blank(4, 3);
    let mut image = with_square(3, 4, 0, 2, [0.5, 0.5, 0.5]);
    let before = image.pixels.clone();
    assert_eq!(frame_delta(&mut image, &earlier, |_up, _down| true, [0.0, 0.0, 0.0, 1.0]), None);
    assert_eq!(image.pixels, before);
}

#[test]
fn outline_of_nothing_is_nothing() {
    assert_eq!(outline(&vec![], whole(100)), None);
    assert_eq!(outline(&vec![p(1, 1)], whole(100)), None);
    assert_eq!(outline(&vec![p(1, 1), p(2, 1)], whole(100)), None);
    assert_eq!(outline(&vec![p(1, 1), p(2, 1), p(1, 2)], whole(0)), None);
}

#[test]
fn outline_leaves_out_what_is_far() {
    let positions = vec![p(50, 0), p(3, 3), p(4, 3), p(3, 4), p(4, 4), p(0, 90)];
    assert_eq!(outline(&positions, whole(5)), Some(vec![p(3, 3), p(4, 3), p(4, 4), p(3, 4)]));
}

#[test]
fn red_square_on_black() {
    let red = [1.0, 0.0, 0.0];
    let mut image = with_square(10, 10, 3, 6, red);
    let accept = |r: f32, g: f32, b: f32| rgb_distance(red, [r, g, b]) <= 0.2;
    let never = |_up: (f32, f32, f32, f32), _down: (f32, f32, f32, f32)| false;
    let hull = new_frame(&mut image, None, never, accept, [0.0, 0.0, 0.0, 1.0], whole(400)).unwrap();
    assert_eq!(
        hull,
        vec![p(3, 3), p(4, 3), p(5, 3), p(5, 4), p(5, 5), p(4, 5), p(3, 5)]
    );
    for y in 0..10 {
        for x in 0..10 {
            let inside = (0..hull.len())
                .all(|i| axis2_product(hull[i], hull[(i + 1) % hull.len()], p(x, y)) >= 0);
            assert_eq!(inside, (3..6).contains(&x) && (3..6).contains(&y));
        }
    }
    let n = hull.len() as f32;
    let center_x = hull.iter().map(|q| q.x as f32).sum::<f32>() / n;
    let center_y = hull.iter().map(|q| q.y as f32).sum::<f32>() / n;
    assert!((center_x - 4.0).abs() < 0.5 && (center_y - 4.0).abs() < 0.5);
    assert_eq!(image.pixels, with_square(10, 10, 3, 6, red).pixels);
}

#[test]
fn new_frame_takes_the_background_out_first() {
    let grey = [0.5, 0.5, 0.5];
    let earlier = with_square(8, 8, 0, 4, grey);
    let mut image = with_square(8, 8, 2, 6, grey);
    let still = |up: (f32, f32, f32, f32), down: (f32, f32, f32, f32)| {
        (up.0 - down.0).abs() + (up.1 - down.1).abs() + (up.2 - down.2).abs() < 0.1
    };
    let accept = |r: f32, _g: f32, _b: f32| r > 0.25;
    let hull = new_frame(&mut image, Some(&earlier), still, accept, [0.0, 0.0, 0.0, 1.0], whole(400)).unwrap();
    assert_eq!(hull[0], p(4, 2));
    for q in [p(4, 2), p(5, 2), p(5, 5), p(2, 5), p(2, 4), p(4, 4)] {
        assert!((0..hull.len()).all(|i| axis2_product(hull[i], hull[(i + 1) % hull.len()], q) >= 0));
    }
    assert!(!(0..hull.len()).all(|i| axis2_product(hull[i], hull[(i + 1) % hull.len()], p(2, 2)) >= 0));
    assert_eq!(image.get_pixel(p(2, 2)), Some([0.0, 0.0, 0.0]));
    assert_eq!(image.get_pixel(p(5, 5)), Some(grey));
}

#[test]
fn new_frame_gives_up_on_another_size() {
    let earlier = blank(4, 3);
    let mut image = with_square(3, 4, 0, 3, [1.0, 0.0, 0.0]);
    let before = image.pixels.clone();
    let hull = new_frame(
        &mut image,
        Some(&earlier),
        |_up, _down| false,
        |r: f32, _g, _b| r > 0.5,
        [0.0, 0.0, 0.0, 1.0],
        whole(400),
    );
    assert_eq!(hull, None);
    assert_eq!(image.pixels, before);
}

#[test]
fn new_frame_without_the_colour_is_nothing() {
    let mut image = with_square(6, 6, 1, 4, [0.0, 0.0, 1.0]);
    let hull = new_frame(
        &mut image,
        None,
        |_up, _down| false,
        |r: f32, _g, _b| r > 0.5,
        [0.0, 0.0, 0.0, 1.0],
        whole(400),
    );
    assert_eq!(hull, None);
    assert_eq!(image.pixels, blank(6, 6).pixels);
}

#[test]
fn paint_marks_the_points_in_the_frame() {
    let mut image = blank(4, 4);
    paint(&mut image, &vec![p(1, 1), p(7, 7), p(3, 0), p(-1, 2), p(1, 1)], [0.0, 1.0, 0.0]);
    let mut expected = blank(4, 4);
    expected.set_pixel(p(1, 1), [0.0, 1.0, 0.0]);
    expected.set_pixel(p(3, 0), [0.0, 1.0, 0.0]);
    assert_eq!(image.pixels, expected.pixels);
}

#[test]
fn paint_square_marks_five_by_five() {
    let mut image = blank(10, 10);
    paint_square(&mut image, p(4, 5), 2, [1.0, 1.0, 1.0]);
    for y in 0..10 {
        for x in 0..10 {
            let white = (2..=6).contains(&x) && (3..=7).contains(&y);
            let expected = if white { [1.0, 1.0, 1.0] } else { [0.0, 0.0, 0.0] };
            assert_eq!(image.get_pixel(p(x, y)), Some(expected));
        }
    }
}

#[test]
fn paint_square_is_cut_at_the_border() {
    let mut image = blank(3, 3);
    paint_square(&mut image, p(0, 0), 1, [1.0, 1.0, 1.0]);
    let mut expected = blank(3, 3);
    for point in [p(0, 0), p(1, 0), p(0, 1), p(1, 1)] {
        expected.set_pixel(point, [1.0, 1.0, 1.0]);
    }
    assert_eq!(image.pixels, expected.pixels);
    let mut far = blank(3, 3);
    paint_square(&mut far, p(i32::MAX, i32::MIN), 2, [1.0, 1.0, 1.0]);
    assert_eq!(far.pixels, blank(3, 3).pixels);
}

#[test]
fn samples_are_spread_evenly() {
    let picked: Vec<usize> = (0..5).map(|i| sample_index(i, 5, 101)).collect();
    assert_eq!(picked, vec![0, 25, 50, 75, 100]);
    let picked: Vec<usize> = (0..5).map(|i| sample_index(i, 5, 7)).collect();
    assert_eq!(picked, vec![0, 1, 3, 4, 6]);
    let picked: Vec<usize> = (0..5).map(|i| sample_index(i, 5, 1)).collect();
    assert_eq!(picked, vec![0, 0, 0, 0, 0]);
    assert_eq!(sample_index(1, 2, usize::MAX), usize::MAX - 1);
}

#[test]
fn a_frame_is_well_formed_with_four_channels_to_each_pixel() {
    assert!(blank(4, 3).is_well_formed());
    assert!(blank(0, 0).is_well_formed());
    assert!(blank(0, 7).is_well_formed());
    let mut short = blank(4, 3);
    short.pixels.pop();
    assert!(!short.is_well_formed());
    let mut long = blank(4, 3);
    long.pixels.push(0.0);
    assert!(!long.is_well_formed());
    let wide: Image<f32> = Image { pixels: vec![], dimensions: Dimensions { width: u32::MAX, height: 0 } };
    assert!(!wide.is_well_formed());
    let high: Image<f32> = Image { pixels: vec![], dimensions: Dimensions { width: 0, height: 1 << 31 } };
    assert!(!high.is_well_formed());
    let large: Image<f32> = Image { pixels: vec![], dimensions: Dimensions { width: 1 << 31, height: 1 << 31 } };
    assert!(!large.is_well_formed());
}
