use haar::{combine_alternating, eval_points, multiplier, EvalPoints, HaarFilter, IntegralImage, Sign};

/// The 5x5 test image used throughout: rows of pixel intensities.
const PIXELS: [u8; 25] = [
    1, 2, 3, 4, 5, //
    6, 7, 8, 9, 0, //
    9, 8, 7, 6, 5, //
    4, 3, 2, 1, 0, //
    6, 5, 4, 2, 1,
];

/// Builds the integral image (summed-area table) of row-major pixel data.
fn integral_from_pixels(width: u32, height: u32, pixels: &[u8]) -> IntegralImage {
    let w = width as usize;
    let h = height as usize;
    let mut data = vec![0u32; w * h];
    for y in 0..h {
        for x in 0..w {
            let p = pixels[y * w + x] as u32;
            let left = if x > 0 { data[y * w + x - 1] } else { 0 };
            let up = if y > 0 { data[(y - 1) * w + x] } else { 0 };
            let diag = if x > 0 && y > 0 { data[(y - 1) * w + x - 1] } else { 0 };
            data[y * w + x] = p + left + up - diag;
        }
    }
    IntegralImage::new(width, height, data).unwrap()
}

/// The plain sum of the pixels inside one rectangle.
fn region_sum(width: u32, pixels: &[u8], top: u32, left: u32, rw: u32, rh: u32) -> i64 {
    let mut s = 0i64;
    for y in top..top + rh {
        for x in left..left + rw {
            s += pixels[(y * width + x) as usize] as i64;
        }
    }
    s
}

#[test]
fn test_combine_alternating() {
    // Three region horizontally aligned filter:
    // A   B   C   D
    //   +   -   +
    // E   F   G   H
    // I(A) - 2I(B) + 2I(C) - I(D) - I(E) + 2I(F) - 2I(G) + I(H).

    let a = (0, 0);
    let b = (1, 0);
    let c = (2, 0);
    let d = (3, 0);
    let e = (0, 1);
    let f = (1, 1);
    let g = (2, 1);
    let h = (3, 1);

    let left = EvalPoints::new([a, b, e, f], [1, -1, -1, 1]);
    let mid = EvalPoints::new([b, c, f, g], [1, -1, -1, 1]);
    let right = EvalPoints::new([c, d, g, h], [1, -1, -1, 1]);

    let filter = combine_alternating(&[left, mid, right]);
    let expected = HaarFilter {
        points: [0, 0, 1, 0, 2, 0, 3, 0, 0, 1, 1, 1, 2, 1, 3, 1, 0, 0],
        weights: [1, -2, 2, -1, -1, 2, -2, 1, 0],
        count: 8,
    };

    assert_eq!(filter, expected);
}

#[test]
fn test_two_region_horizontal() {
    // Two region horizontally aligned filter:
    // A   B   C
    //   +   -
    // D   E   F
    // I(A) - 2I(B) + I(C) - I(D) + 2I(E) - I(F)
    let image: image::ImageBuffer<image::Luma<u8>, Vec<u8>> = image::ImageBuffer::from_raw(
        5,
        5,
        vec![
            1u8, 2u8, 3u8, 4u8, 5u8, //
            6u8, 7u8, 8u8, 9u8, 0u8, //
            9u8, 8u8, 7u8, 6u8, 5u8, //
            4u8, 3u8, 2u8, 1u8, 0u8, //
            6u8, 5u8, 4u8, 2u8, 1u8,
        ],
    )
    .unwrap();

    let mut pixels = Vec::new();
    for y in 0..5u32 {
        for x in 0..5u32 {
            pixels.push(image.get_pixel(x, y).0[0]);
        }
    }
    let integral = integral_from_pixels(5, 5, &pixels);

    let filter = HaarFilter::two_region_horizontal(1, 1, 2u32, 1u32, 3u32, Sign::Positive);

    let value = filter.evaluate(&integral);

    assert_eq!(value, 19i32);
}

#[test]
fn test_two_region_horizontal_matches_region_sums() {
    // Linearity: the filter value equals the literal difference of the two
    // regions' pixel sums.
    let integral = integral_from_pixels(5, 5, &PIXELS);
    let filter = HaarFilter::two_region_horizontal(1, 1, 2, 1, 3, Sign::Positive);
    let value = filter.evaluate(&integral) as i64;
    let s_left = region_sum(5, &PIXELS, 1, 1, 2, 3);
    let s_right = region_sum(5, &PIXELS, 1, 3, 1, 3);
    assert_eq!(value, s_left - s_right);
}

#[test]
fn test_combine_alternating_matches_rectangle_sums() {
    // Linearity for a raw combination: evaluating the canonicalized filter
    // equals the alternating sum of each rectangle's own pixel sum.
    let integral = integral_from_pixels(5, 5, &PIXELS);
    let r1 = eval_points(0, 2, 2, 2);
    let r2 = eval_points(2, 0, 3, 1);
    let filter = combine_alternating(&[r1, r2]);
    let value = filter.checked_evaluate(&integral).unwrap() as i64;
    let s1 = region_sum(5, &PIXELS, 0, 2, 2, 2);
    let s2 = region_sum(5, &PIXELS, 2, 0, 3, 1);
    assert_eq!(value, s1 - s2);
}

#[test]
fn test_two_region_vertical_value() {
    let integral = integral_from_pixels(5, 5, &PIXELS);
    let filter = HaarFilter::two_region_vertical(0, 0, 2, 1, 2, Sign::Positive);
    let value = filter.evaluate(&integral);
    // top block rows 0, columns 0-1: 1+2; bottom block rows 1-2: 6+7+9+8.
    assert_eq!(value, 3 - 30);
}

#[test]
fn test_three_region_horizontal_value() {
    let integral = integral_from_pixels(5, 5, &PIXELS);
    let filter = HaarFilter::three_region_horizontal(1, 1, 1, 1, 2, 2, Sign::Positive);
    let value = filter.evaluate(&integral) as i64;
    let s1 = region_sum(5, &PIXELS, 1, 1, 1, 2);
    let s2 = region_sum(5, &PIXELS, 1, 2, 1, 2);
    let s3 = region_sum(5, &PIXELS, 1, 3, 2, 2);
    assert_eq!(value, s1 - s2 + s3);
    assert_eq!(value, 15 - 15 + 20);
}

#[test]
fn test_three_region_vertical_value() {
    let integral = integral_from_pixels(5, 5, &PIXELS);
    let filter = HaarFilter::three_region_vertical(0, 3, 2, 1, 2, 1, Sign::Positive);
    let value = filter.evaluate(&integral) as i64;
    let s1 = region_sum(5, &PIXELS, 0, 3, 2, 1);
    let s2 = region_sum(5, &PIXELS, 1, 3, 2, 2);
    let s3 = region_sum(5, &PIXELS, 3, 3, 2, 1);
    assert_eq!(value, s1 - s2 + s3);
    assert_eq!(value, 9 - 20 + 1);
}

#[test]
fn test_four_region_value() {
    let integral = integral_from_pixels(5, 5, &PIXELS);
    let filter = HaarFilter::four_region(1, 1, 2, 2, 1, 2, Sign::Positive);
    let value = filter.evaluate(&integral) as i64;
    let s_tl = region_sum(5, &PIXELS, 1, 1, 2, 1);
    let s_tr = region_sum(5, &PIXELS, 1, 3, 2, 1);
    let s_bl = region_sum(5, &PIXELS, 2, 1, 2, 2);
    let s_br = region_sum(5, &PIXELS, 2, 3, 2, 2);
    assert_eq!(value, s_tl - s_tr - s_bl + s_br);
}

#[test]
fn test_four_region_center_weight() {
    // Four overlapping unit rectangles sharing corners collapse to the full
    // nine-point grid, with weight 4 at the shared center.
    let filter = HaarFilter::four_region(1, 1, 1, 1, 1, 1, Sign::Positive);
    let expected = HaarFilter {
        points: [0, 0, 1, 0, 2, 0, 0, 1, 1, 1, 2, 1, 0, 2, 1, 2, 2, 2],
        weights: [1, -2, 1, -2, 4, -2, 1, -2, 1],
        count: 9,
    };
    assert_eq!(filter, expected);
}

#[test]
fn test_boundary_clipping() {
    // A shape anchored at the image's top-left corner: the omitted corner
    // terms must act as an implicit zero row and column at index -1.
    let integral = integral_from_pixels(5, 5, &PIXELS);
    let filter = HaarFilter::two_region_horizontal(0, 0, 2, 2, 2, Sign::Positive);
    let value = filter.evaluate(&integral) as i64;
    let s_left = region_sum(5, &PIXELS, 0, 0, 2, 2);
    let s_right = region_sum(5, &PIXELS, 0, 2, 2, 2);
    assert_eq!(value, s_left - s_right);
    assert_eq!(value, 16 - 24);
}

#[test]
fn test_sign_inversion() {
    let integral = integral_from_pixels(5, 5, &PIXELS);
    let pos = HaarFilter::two_region_horizontal(1, 1, 2, 1, 3, Sign::Positive);
    let neg = HaarFilter::two_region_horizontal(1, 1, 2, 1, 3, Sign::Negative);
    let vp = pos.evaluate(&integral);
    let vn = neg.evaluate(&integral);
    assert_eq!(vp, 19);
    assert_eq!(vn, -vp);
}

fn assert_canonical(filter: &HaarFilter) {
    assert!(filter.count <= 9);
    for i in 0..filter.count {
        assert_ne!(filter.weights[i], 0);
    }
    for i in 1..filter.count {
        let xa = filter.points[2 * (i - 1)];
        let ya = filter.points[2 * (i - 1) + 1];
        let xb = filter.points[2 * i];
        let yb = filter.points[2 * i + 1];
        assert!(ya < yb || (ya == yb && xa < xb));
    }
    for i in filter.count..9 {
        assert_eq!(filter.weights[i], 0);
    }
    for i in 2 * filter.count..18 {
        assert_eq!(filter.points[i], 0);
    }
}

#[test]
fn test_canonical_form_invariants() {
    assert_canonical(&HaarFilter::two_region_horizontal(0, 0, 1, 1, 1, Sign::Positive));
    assert_canonical(&HaarFilter::two_region_vertical(3, 2, 2, 1, 1, Sign::Negative));
    assert_canonical(&HaarFilter::three_region_horizontal(0, 1, 1, 2, 1, 2, Sign::Positive));
    assert_canonical(&HaarFilter::three_region_vertical(1, 0, 2, 1, 1, 1, Sign::Negative));
    assert_canonical(&HaarFilter::four_region(1, 1, 1, 1, 1, 1, Sign::Positive));
}

#[test]
fn test_determinism_under_reordering() {
    // The same multiset of corner contributions, handed over in different
    // slot orders, canonicalizes to the identical filter.
    let a = (2, 3);
    let b = (5, 3);
    let e = (2, 7);
    let f = (5, 7);
    let first = EvalPoints::new([a, b, e, f], [1, -1, -1, 1]);
    let second = EvalPoints::new([f, e, b, a], [1, -1, -1, 1]);
    let f1 = combine_alternating(&[first]);
    let f2 = combine_alternating(&[second]);
    assert_eq!(f1, f2);
}

#[test]
fn test_checked_evaluate_out_of_bounds() {
    // The filter's corners reach (3, 3), outside a 3x3 image.
    let small = integral_from_pixels(3, 3, &PIXELS[..9]);
    let filter = HaarFilter::two_region_horizontal(1, 1, 2, 1, 3, Sign::Positive);
    assert_eq!(filter.checked_evaluate(&small), None);
    let full = integral_from_pixels(5, 5, &PIXELS);
    assert_eq!(filter.checked_evaluate(&full), Some(19));
}

#[test]
fn test_integral_image_new_rejects_bad_length() {
    assert!(IntegralImage::new(2, 2, vec![0u32; 3]).is_none());
    assert!(IntegralImage::new(2, 2, vec![0u32; 4]).is_some());
}

#[test]
fn test_integral_image_value_at() {
    let integral = integral_from_pixels(5, 5, &PIXELS);
    // The bottom-right cell of a summed-area table holds the whole image's sum.
    let mut total = 0u32;
    for p in PIXELS.iter() {
        total += *p as u32;
    }
    assert_eq!(integral.value_at(4, 4), total);
    assert_eq!(integral.value_at(0, 0), 1);
    assert_eq!(integral.value_at(1, 1), 1 + 2 + 6 + 7);
}

#[test]
fn test_multiplier() {
    assert_eq!(multiplier(Sign::Positive), 1);
    assert_eq!(multiplier(Sign::Negative), -1);
}

#[test]
fn test_eval_points_clipping() {
    // A rectangle touching both edges keeps only its bottom-right corner.
    let ep = eval_points(0, 0, 2, 2);
    assert_eq!(ep.weights, [0, 0, 0, 1]);
    assert_eq!(ep.points[3], (1, 1));
    // Touching only the left edge keeps the two right-hand corners.
    let ep = eval_points(1, 0, 2, 2);
    assert_eq!(ep.weights, [0, -1, 0, 1]);
    assert_eq!(ep.points[1], (1, 0));
    assert_eq!(ep.points[3], (1, 2));
    // An interior rectangle keeps all four corners.
    let ep = eval_points(2, 3, 2, 2);
    assert_eq!(ep.weights, [1, -1, -1, 1]);
    assert_eq!(ep.points, [(2, 1), (4, 1), (2, 3), (4, 3)]);
}
