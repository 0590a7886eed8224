use rgba_filters::ImgError;
use rgba_filters::convolve::{blur_image, sharpen_image};
use rgba_filters::crop::apply_crop;
use rgba_filters::geometry::rotate_right;
use rgba_filters::style::{apply_color_pop, apply_vignette, apply_vintage};

fn px(i: u8) -> [u8; 4] {
    [i, i + 1, i + 2, i + 3]
}

fn image(pixels: &[[u8; 4]]) -> Vec<u8> {
    let mut data = Vec::new();
    for p in pixels {
        data.extend_from_slice(p);
    }
    data
}

#[test]
fn rotate_right_2x3() {
    // width 2, height 3: pixels 0..6 in row-major order; rotating clockwise
    // reads each destination column from the bottom row up.
    let data0 = image(&[px(0), px(10), px(20), px(30), px(40), px(50)]);
    let mut data = data0.clone();
    assert!(rotate_right(&mut data, 2).is_ok());
    assert_eq!(data, image(&[px(40), px(20), px(0), px(50), px(30), px(10)]));
}

#[test]
fn rotate_right_rejects_bad_shape() {
    let mut data = image(&[px(0), px(10), px(20)]);
    assert_eq!(rotate_right(&mut data, 2), Err(ImgError::InvalidInput));
    assert_eq!(rotate_right(&mut data, 0), Err(ImgError::InvalidInput));
    assert_eq!(data, image(&[px(0), px(10), px(20)]));
}

#[test]
fn blur_radius_zero_is_identity() {
    let data0 = image(&[px(0), px(10), px(20), px(30)]);
    let mut data = data0.clone();
    assert!(blur_image(&mut data, 2, 0).is_ok());
    assert_eq!(data, data0);
}

#[test]
fn blur_radius_one_averages_all_of_2x2() {
    let mut data = vec![
        10u8, 20, 30, 40,
        50, 60, 70, 80,
        90, 100, 110, 120,
        130, 140, 150, 160,
    ];
    assert!(blur_image(&mut data, 2, 1).is_ok());
    assert_eq!(data, vec![
        70u8, 80, 90, 100,
        70, 80, 90, 100,
        70, 80, 90, 100,
        70, 80, 90, 100,
    ]);
}

#[test]
fn blur_1x2_radius_one() {
    let mut data = vec![10u8, 20, 30, 40, 30, 40, 50, 60];
    assert!(blur_image(&mut data, 1, 1).is_ok());
    assert_eq!(data, vec![20, 30, 40, 50, 20, 30, 40, 50]);
}

#[test]
fn blur_rejects_width_not_dividing() {
    let mut data = image(&[px(0), px(10), px(20)]);
    assert_eq!(blur_image(&mut data, 2, 1), Err(ImgError::InvalidInput));
    assert_eq!(data, image(&[px(0), px(10), px(20)]));
}

#[test]
fn sharpen_single_pixel_scales_by_five() {
    // A lone pixel has no neighbors: the kernel sum is 6c - c = 5c.
    let mut data = vec![10u8, 20, 60, 77];
    assert!(sharpen_image(&mut data, 1, 1, 1).is_ok());
    assert_eq!(data, vec![50, 100, 255, 77]);
}

#[test]
fn sharpen_fractional_amount_truncates() {
    let mut data = vec![10u8, 20, 51, 77];
    assert!(sharpen_image(&mut data, 1, 1, 2).is_ok());
    assert_eq!(data, vec![25, 50, 127, 77]);
}

#[test]
fn sharpen_two_pixels_row() {
    // Width 2: each pixel sees the other, so the sum is 6a - (a + b) = 5a - b.
    let mut data = vec![10u8, 0, 0, 3, 20, 0, 0, 4];
    assert!(sharpen_image(&mut data, 2, 1, 1).is_ok());
    assert_eq!(data, vec![30, 0, 0, 3, 90, 0, 0, 4]);
}

#[test]
fn sharpen_negative_sum_clamps_to_zero() {
    let mut data = vec![0u8, 0, 0, 3, 200, 0, 0, 4];
    assert!(sharpen_image(&mut data, 2, 1, 1).is_ok());
    // first pixel: 6*0 - (0 + 200) = -200 -> 0; second: 6*200 - 200 = 1000 -> 255.
    assert_eq!(data, vec![0, 0, 0, 3, 255, 0, 0, 4]);
}

#[test]
fn sharpen_rejects_zero_denominator() {
    let mut data = vec![1u8, 2, 3, 4];
    assert_eq!(sharpen_image(&mut data, 1, 1, 0), Err(ImgError::InvalidInput));
    assert_eq!(data, vec![1, 2, 3, 4]);
}

#[test]
fn vintage_shrinks_channels() {
    let mut data = vec![200u8, 100, 50, 77];
    assert!(apply_vintage(&mut data).is_ok());
    assert_eq!(data, vec![180, 75, 25, 77]);
}

#[test]
fn color_pop_scales_and_clamps() {
    let mut data = vec![100u8, 250, 0, 77];
    assert!(apply_color_pop(&mut data).is_ok());
    assert_eq!(data, vec![120, 255, 0, 77]);
}

#[test]
fn vignette_single_pixel_hits_the_floor() {
    // A 1x1 image's only pixel is a corner: the factor floor 1/5 applies.
    let mut data = vec![255u8, 100, 5, 200];
    assert!(apply_vignette(&mut data, 1, 1).is_ok());
    assert_eq!(data, vec![51, 20, 1, 200]);
}

#[test]
fn vignette_2x2_center_pixel_unchanged() {
    // In a 2x2 image the pixel at (1, 1) sits exactly on the center.
    let mut data = vec![
        255u8, 255, 255, 255,
        255, 255, 255, 255,
        255, 255, 255, 255,
        255, 255, 255, 255,
    ];
    assert!(apply_vignette(&mut data, 2, 2).is_ok());
    assert_eq!(data, vec![
        51, 51, 51, 255,
        74, 74, 74, 255,
        74, 74, 74, 255,
        255, 255, 255, 255,
    ]);
}

#[test]
fn vignette_never_below_fifth() {
    let mut data = Vec::new();
    for i in 0..16 {
        data.extend_from_slice(&[(i * 16) as u8, 255, 33, 9]);
    }
    let original = data.clone();
    assert!(apply_vignette(&mut data, 4, 4).is_ok());
    for i in 0..data.len() {
        if i % 4 == 3 {
            assert_eq!(data[i], original[i]);
        } else {
            assert!(data[i] as u32 >= original[i] as u32 / 5);
            assert!(data[i] <= original[i]);
        }
    }
}

#[test]
fn vignette_rejects_shape_mismatch() {
    let mut data = vec![1u8, 2, 3, 4, 5, 6, 7, 8];
    assert_eq!(apply_vignette(&mut data, 3, 1), Err(ImgError::InvalidInput));
    assert_eq!(data, vec![1, 2, 3, 4, 5, 6, 7, 8]);
}

#[test]
fn crop_full_image_is_identity() {
    let data0 = image(&[px(0), px(10), px(20), px(30), px(40), px(50)]);
    let mut data = data0.clone();
    assert!(apply_crop(&mut data, 3, 2, 0, 0, 3, 2).is_ok());
    assert_eq!(data, data0);
}

#[test]
fn crop_inner_rectangle_of_3x3() {
    let pixels: Vec<[u8; 4]> = (0..9).map(|i| px(i * 20)).collect();
    let data0 = image(&pixels);
    let mut data = data0.clone();
    // 2x2 rectangle with top-left at row 1, column 1 of the 3x3 image.
    assert!(apply_crop(&mut data, 2, 2, 1, 1, 3, 3).is_ok());
    let mut expected = image(&[px(80), px(100), px(140), px(160)]);
    expected.extend_from_slice(&data0[16..]);
    assert_eq!(data, expected);
}

#[test]
fn crop_out_of_range_fails_untouched() {
    let data0 = image(&[px(0), px(10), px(20), px(30)]);
    let mut data = data0.clone();
    assert_eq!(apply_crop(&mut data, 2, 2, 1, 0, 2, 2), Err(ImgError::OutOfRange));
    assert_eq!(apply_crop(&mut data, 2, 2, 0, 1, 2, 2), Err(ImgError::OutOfRange));
    assert_eq!(apply_crop(&mut data, 3, 1, 0, 0, 2, 2), Err(ImgError::OutOfRange));
    assert_eq!(data, data0);
}

#[test]
fn crop_rejects_shape_mismatch() {
    let mut data = image(&[px(0), px(10), px(20), px(30)]);
    assert_eq!(apply_crop(&mut data, 1, 1, 0, 0, 3, 2), Err(ImgError::InvalidInput));
    assert_eq!(data, image(&[px(0), px(10), px(20), px(30)]));
}

#[test]
fn crop_empty_rectangle_is_ok() {
    let data0 = image(&[px(0), px(10), px(20), px(30)]);
    let mut data = data0.clone();
    assert!(apply_crop(&mut data, 0, 2, 9, 9, 2, 2).is_ok());
    assert_eq!(data, data0);
}

#[test]
fn blur_radius_larger_than_image_averages_everything() {
    let mut wide = vec![
        10u8, 20, 30, 40,
        50, 60, 70, 80,
        90, 100, 110, 120,
        130, 140, 150, 160,
    ];
    let mut narrow = wide.clone();
    assert!(blur_image(&mut wide, 2, 9).is_ok());
    assert!(blur_image(&mut narrow, 2, 1).is_ok());
    assert_eq!(wide, narrow);
}

#[test]
fn empty_image_shape_ops_are_ok() {
    let mut data: Vec<u8> = Vec::new();
    assert!(apply_vignette(&mut data, 0, 0).is_ok());
    assert!(blur_image(&mut data, 1, 3).is_ok());
    assert!(sharpen_image(&mut data, 1, 9, 10).is_ok());
    assert!(rotate_right(&mut data, 1).is_ok());
    assert!(apply_crop(&mut data, 0, 0, 0, 0, 0, 0).is_ok());
    assert!(data.is_empty());
}

#[test]
fn rotate_right_single_pixel() {
    let mut data = vec![5u8, 6, 7, 8];
    assert!(rotate_right(&mut data, 1).is_ok());
    assert_eq!(data, vec![5, 6, 7, 8]);
}
