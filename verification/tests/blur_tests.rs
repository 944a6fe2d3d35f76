use image_processing::blur::{blur, Params, Rgba, Sample};
use std::cell::RefCell;

fn params(radius: u32, iterations: u32) -> Params {
    Params { radius, iterations }
}

/// The plugin's weighted mean: weights are the distances to the blurred pixel,
/// each channel is the weighted average rounded to the nearest integer.
fn weighted_mean(samples: &Vec<Sample>) -> Rgba {
    let mut r_sum = 0.0_f64;
    let mut g_sum = 0.0_f64;
    let mut b_sum = 0.0_f64;
    let mut a_sum = 0.0_f64;
    let mut weight_sum = 0.0_f64;
    for s in samples {
        let dx = s.dx as f64;
        let dy = s.dy as f64;
        let weight = (dx * dx + dy * dy).sqrt();
        r_sum += s.color.r as f64 * weight;
        g_sum += s.color.g as f64 * weight;
        b_sum += s.color.b as f64 * weight;
        a_sum += s.color.a as f64 * weight;
        weight_sum += weight;
    }
    Rgba {
        r: (r_sum / weight_sum).round() as u8,
        g: (g_sum / weight_sum).round() as u8,
        b: (b_sum / weight_sum).round() as u8,
        a: (a_sum / weight_sum).round() as u8,
    }
}

/// A uniform 3x3 image of one colour.
fn uniform_image(pixel: [u8; 4]) -> Vec<u8> {
    pixel.iter().cycle().take(4 * 9).cloned().collect()
}

#[test]
fn test_zero_radius_no_change() {
    let original = vec![10u8, 20, 30, 255, 40, 50, 60, 255];
    let mut image = original.clone();
    blur(&mut image, 2, 1, &params(0, 3), weighted_mean);
    assert_eq!(image, original);
}

#[test]
fn test_zero_iterations_no_change() {
    let original = vec![10u8, 20, 30, 255, 40, 50, 60, 255];
    let mut image = original.clone();
    blur(&mut image, 2, 1, &params(2, 0), weighted_mean);
    assert_eq!(image, original);
}

#[test]
fn test_single_pixel_unchanged() {
    let original = vec![123u8, 45, 67, 200];
    let mut image = original.clone();
    blur(&mut image, 1, 1, &params(3, 5), weighted_mean);
    assert_eq!(image, original);
}

#[test]
fn test_uniform_color_unchanged() {
    let mut image = uniform_image([80, 120, 200, 255]);
    let original = image.clone();
    blur(&mut image, 3, 3, &params(2, 3), weighted_mean);
    assert_eq!(image, original);
}

#[test]
fn test_blur_row_of_three() {
    // In place, left to right: pixel 0 takes the original pixel 1, pixel 1
    // averages the new pixel 0 and the original pixel 2 (127.5 rounds to 128),
    // pixel 2 takes the new pixel 1.
    let mut image = vec![255u8, 0, 0, 255, 0, 0, 0, 255, 255u8, 0, 0, 255];
    blur(&mut image, 3, 1, &params(1, 1), weighted_mean);
    assert_eq!(image, vec![0, 0, 0, 255, 128, 0, 0, 255, 128, 0, 0, 255,]);
}

#[test]
fn test_neighbourhood_is_a_circle_without_its_centre() {
    // 3x3 image, radius 1: the centre pixel sees its four edge neighbours only,
    // in row-major order; the corners lie outside the circle.
    let mut image: Vec<u8> = (0..36).collect();
    let seen: RefCell<Vec<Vec<(u32, u32, u8)>>> = RefCell::new(Vec::new());
    let recording = |samples: &Vec<Sample>| {
        seen.borrow_mut().push(samples.iter().map(|s| (s.dx, s.dy, s.color.r)).collect());
        samples[0].color
    };
    blur(&mut image, 3, 3, &params(1, 1), recording);
    let seen = seen.into_inner();
    assert_eq!(seen.len(), 9);
    // Pixel (0, 0): right neighbour (its value 4) and the one below (value 12).
    assert_eq!(seen[0], vec![(1, 0, 4), (0, 1, 12)]);
    // Pixel (1, 1): above, left, right, below; above and left were already rewritten.
    assert_eq!(seen[4].iter().map(|&(dx, dy, _)| (dx, dy)).collect::<Vec<_>>(), vec![(0, 1), (1, 0), (1, 0), (0, 1)]);
}

#[test]
fn test_radius_two_reaches_diagonal() {
    // Radius 2 includes the diagonal neighbour at distance sqrt(2) and the
    // pixel two steps away, but not the corner at distance sqrt(8).
    let mut image = vec![0u8; 4 * 9];
    let seen: RefCell<Vec<Vec<(u32, u32)>>> = RefCell::new(Vec::new());
    let recording = |samples: &Vec<Sample>| {
        seen.borrow_mut().push(samples.iter().map(|s| (s.dx, s.dy)).collect());
        samples[0].color
    };
    blur(&mut image, 3, 3, &params(2, 1), recording);
    let seen = seen.into_inner();
    assert_eq!(seen[0], vec![(1, 0), (2, 0), (0, 1), (1, 1), (0, 2)]);
}

#[test]
fn test_weighted_average_uses_distance_as_weight() {
    // 1x3 row, radius 2: pixel 0 sees pixel 1 (weight 1) and pixel 2 (weight 2):
    // (1 * 0 + 2 * 90) / 3 = 60.
    let mut image = vec![0u8, 0, 0, 0, 0, 0, 0, 0, 90, 90, 90, 90];
    blur(&mut image, 3, 1, &params(2, 1), weighted_mean);
    assert_eq!(&image[0..4], &[60, 60, 60, 60]);
}

#[test]
fn test_two_iterations_differ_from_one() {
    let start = vec![255u8, 0, 0, 255, 0, 0, 0, 255, 255u8, 0, 0, 255];
    let mut once = start.clone();
    blur(&mut once, 3, 1, &params(1, 1), weighted_mean);
    let mut twice = start.clone();
    blur(&mut twice, 3, 1, &params(1, 2), weighted_mean);
    let mut again = once.clone();
    blur(&mut again, 3, 1, &params(1, 1), weighted_mean);
    assert_eq!(twice, again);
    assert_eq!(twice, vec![128, 0, 0, 255, 128, 0, 0, 255, 128, 0, 0, 255]);
}

#[test]
fn test_same_input_same_result() {
    let start: Vec<u8> = (0..64).map(|i| (i * 37 % 256) as u8).collect();
    let mut a = start.clone();
    let mut b = start.clone();
    blur(&mut a, 4, 4, &params(2, 2), weighted_mean);
    blur(&mut b, 4, 4, &params(2, 2), weighted_mean);
    assert_eq!(a, b);
    assert_ne!(a, start);
}

#[test]
fn test_bytes_after_the_pixels_are_kept() {
    let mut image = vec![255u8, 0, 0, 255, 0, 0, 0, 255, 7, 8, 9];
    blur(&mut image, 2, 1, &params(1, 1), weighted_mean);
    assert_eq!(image.len(), 11);
    assert_eq!(&image[8..], &[7, 8, 9]);
    assert_eq!(&image[0..8], &[0, 0, 0, 255, 0, 0, 0, 255]);
}

#[test]
fn test_empty_image_unchanged() {
    let mut image: Vec<u8> = vec![1, 2, 3, 4];
    blur(&mut image, 0, 5, &params(3, 3), weighted_mean);
    assert_eq!(image, vec![1, 2, 3, 4]);
    blur(&mut image, 5, 0, &params(3, 3), weighted_mean);
    assert_eq!(image, vec![1, 2, 3, 4]);
}

#[test]
fn test_default_params_leave_image_unchanged() {
    let defaults = Params::default();
    assert_eq!(defaults, params(0, 0));
    let original: Vec<u8> = (0..36).collect();
    let mut image = original.clone();
    blur(&mut image, 3, 3, &defaults, weighted_mean);
    assert_eq!(image, original);
}
