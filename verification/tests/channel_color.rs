use rgba_filters::ImgError;
use rgba_filters::channel::{handle_brightness, handle_contrast, handle_rgb, ranged_add,
    update_img};
use rgba_filters::color::{greyscale, invert, sepia};
use rgba_filters::pixel::{get_pixels, get_raw};

#[test]
fn ranged_add_saturates_high() {
    assert_eq!(ranged_add(200, 100), 255);
    assert_eq!(ranged_add(255, 1), 255);
}

#[test]
fn ranged_add_saturates_low() {
    assert_eq!(ranged_add(10, -50), 0);
    assert_eq!(ranged_add(0, -1), 0);
}

#[test]
fn ranged_add_zero_delta_is_identity() {
    for v in [0u8, 1, 127, 128, 254, 255] {
        assert_eq!(ranged_add(v, 0), v);
    }
}

#[test]
fn ranged_add_plain_sum() {
    assert_eq!(ranged_add(100, 27), 127);
    assert_eq!(ranged_add(100, -27), 73);
}

#[test]
fn brightness_adds_to_rgb_not_alpha() {
    let mut data = vec![10u8, 20, 30, 40, 250, 0, 5, 200];
    assert!(handle_brightness(&mut data, 10).is_ok());
    assert_eq!(data, vec![20, 30, 40, 40, 255, 10, 15, 200]);
}

#[test]
fn brightness_rejects_ragged_buffer() {
    let mut data = vec![1u8, 2, 3];
    assert_eq!(handle_brightness(&mut data, 5), Err(ImgError::InvalidInput));
    assert_eq!(data, vec![1, 2, 3]);
}

#[test]
fn brightness_delta_beyond_int8_is_untypable() {
    // -300 does not fit the i8 delta: the type boundary itself rejects it.
    assert!(i8::try_from(-300i32).is_err());
}

#[test]
fn rgb_adjust_on_black_pixel() {
    let mut data = vec![0u8, 0, 0, 255];
    assert!(handle_rgb(&mut data, 10, -5, 127).is_ok());
    assert_eq!(data, vec![10, 0, 127, 255]);
}

#[test]
fn rgb_adjust_independent_channels() {
    let mut data = vec![100u8, 100, 100, 7];
    assert!(handle_rgb(&mut data, -128, 0, 127).is_ok());
    assert_eq!(data, vec![0, 100, 227, 7]);
}

#[test]
fn contrast_midlevel_values() {
    let mut data = vec![0u8, 50, 100, 9, 128, 200, 255, 11];
    assert!(handle_contrast(&mut data, 128).is_ok());
    assert_eq!(data, vec![0, 0, 44, 9, 128, 255, 255, 11]);
}

#[test]
fn contrast_minus_255_flattens_to_midpoint() {
    let mut data = vec![0u8, 100, 255, 42];
    assert!(handle_contrast(&mut data, -255).is_ok());
    assert_eq!(data, vec![128, 128, 128, 42]);
}

#[test]
fn contrast_zero_is_identity() {
    let mut data = vec![0u8, 50, 200, 42, 255, 1, 2, 3];
    assert!(handle_contrast(&mut data, 0).is_ok());
    assert_eq!(data, vec![0, 50, 200, 42, 255, 1, 2, 3]);
}

#[test]
fn contrast_rejects_out_of_range_level() {
    let mut data = vec![1u8, 2, 3, 4];
    assert_eq!(handle_contrast(&mut data, 259), Err(ImgError::InvalidInput));
    assert_eq!(handle_contrast(&mut data, 300), Err(ImgError::InvalidInput));
    assert_eq!(handle_contrast(&mut data, -256), Err(ImgError::InvalidInput));
    assert_eq!(data, vec![1, 2, 3, 4]);
}

#[test]
fn update_img_chains_rgb_brightness_contrast() {
    let mut combined = vec![10u8, 20, 30, 40, 200, 100, 0, 255];
    let mut staged = combined.clone();
    assert!(update_img(&mut combined, 5, 30, 1, 2, 3).is_ok());
    assert!(handle_rgb(&mut staged, 1, 2, 3).is_ok());
    assert!(handle_brightness(&mut staged, 5).is_ok());
    assert!(handle_contrast(&mut staged, 30).is_ok());
    assert_eq!(combined, staged);
}

#[test]
fn update_img_rejects_before_mutating() {
    let mut data = vec![10u8, 20, 30, 40];
    assert_eq!(update_img(&mut data, 5, 300, 1, 2, 3), Err(ImgError::InvalidInput));
    assert_eq!(data, vec![10, 20, 30, 40]);
}

#[test]
fn greyscale_classic_colors() {
    let mut data = vec![
        255u8, 0, 0, 255,
        0, 255, 0, 255,
        0, 0, 255, 255,
        255, 255, 255, 255,
    ];
    assert!(greyscale(&mut data).is_ok());
    assert_eq!(data, vec![
        76, 76, 76, 255,
        149, 149, 149, 255,
        29, 29, 29, 255,
        255, 255, 255, 255,
    ]);
}

#[test]
fn greyscale_rejects_ragged_buffer() {
    let mut data = vec![1u8, 2, 3, 4, 5];
    assert_eq!(greyscale(&mut data), Err(ImgError::InvalidInput));
    assert_eq!(data, vec![1, 2, 3, 4, 5]);
}

#[test]
fn sepia_white_clamps_and_truncates() {
    let mut data = vec![255u8, 255, 255, 200];
    assert!(sepia(&mut data).is_ok());
    assert_eq!(data, vec![255, 255, 238, 200]);
}

#[test]
fn sepia_mixed_pixel() {
    let mut data = vec![100u8, 50, 25, 31];
    assert!(sepia(&mut data).is_ok());
    assert_eq!(data, vec![82, 73, 57, 31]);
}

#[test]
fn invert_flips_rgb_keeps_alpha() {
    let mut data = vec![0u8, 100, 255, 42];
    assert!(invert(&mut data).is_ok());
    assert_eq!(data, vec![255, 155, 0, 42]);
}

#[test]
fn invert_twice_restores_buffer() {
    let original = vec![1u8, 2, 3, 4, 250, 100, 7, 255, 0, 0, 0, 0];
    let mut data = original.clone();
    assert!(invert(&mut data).is_ok());
    assert!(invert(&mut data).is_ok());
    assert_eq!(data, original);
}

#[test]
fn pixel_view_round_trip() {
    let data = vec![9u8, 8, 7, 6, 5, 4, 3, 2];
    let pixels = get_pixels(&data);
    assert_eq!(pixels.len(), 2);
    assert_eq!(pixels[0].r, 9);
    assert_eq!(pixels[1].alpha, 2);
    let back = get_raw(&pixels);
    assert_eq!(back, data);
}

#[test]
fn empty_buffer_is_accepted_everywhere() {
    let mut data: Vec<u8> = Vec::new();
    assert!(handle_brightness(&mut data, 7).is_ok());
    assert!(handle_contrast(&mut data, 7).is_ok());
    assert!(greyscale(&mut data).is_ok());
    assert!(sepia(&mut data).is_ok());
    assert!(invert(&mut data).is_ok());
    assert!(data.is_empty());
}

#[test]
fn brightness_zero_is_identity() {
    let original = vec![0u8, 1, 127, 128, 254, 255, 33, 200];
    let mut data = original.clone();
    assert!(handle_brightness(&mut data, 0).is_ok());
    assert_eq!(data, original);
}
