use nude_detection::scale::resize_factor;

fn by_floats(width: u32, height: u32, resized_width: u32, resized_height: u32) -> f32 {
    let (img_width, img_height) = (width as f32, height as f32);
    let (resized_width, resized_height) = (resized_width as f32, resized_height as f32);
    ((img_width.powi(2) + img_height.powi(2)) / (resized_width.powi(2) + resized_height.powi(2)))
        .sqrt()
}

fn check(width: u32, height: u32, resized_width: u32, resized_height: u32) {
    let ours = resize_factor(width, height, resized_width, resized_height);
    let theirs = by_floats(width, height, resized_width, resized_height);
    if theirs.is_nan() {
        assert!(f32::from_bits(ours).is_nan());
    } else {
        assert_eq!(ours, theirs.to_bits(), "{width} {height} {resized_width} {resized_height}");
    }
}

#[test]
fn same_size_has_scale_one() {
    assert_eq!(resize_factor(320, 320, 320, 320), 1.0f32.to_bits());
    assert_eq!(resize_factor(1, 1, 1, 1), 1.0f32.to_bits());
    assert_eq!(resize_factor(640, 480, 640, 480), 1.0f32.to_bits());
    assert_eq!(resize_factor(u32::MAX, 7, u32::MAX, 7), 1.0f32.to_bits());
}

#[test]
fn half_size_has_scale_two() {
    assert_eq!(resize_factor(640, 480, 320, 240), 2.0f32.to_bits());
    assert_eq!(resize_factor(160, 120, 320, 240), 0.5f32.to_bits());
}

#[test]
fn some_scales() {
    // 200 by 300 is scaled to 213 by 320
    assert_eq!(resize_factor(200, 300, 213, 320), by_floats(200, 300, 213, 320).to_bits());
    assert_eq!(resize_factor(200, 300, 213, 320), 0x3f70_1d89);
    assert_eq!(resize_factor(3, 4, 1, 0), 5.0f32.to_bits());
}

#[test]
fn scale_without_a_copy() {
    assert!(f32::from_bits(resize_factor(0, 0, 0, 0)).is_nan());
    assert_eq!(resize_factor(5, 0, 0, 0), f32::INFINITY.to_bits());
    assert_eq!(resize_factor(0, 0, 5, 5), 0);
}

#[test]
fn scales_of_pictures_agree_with_the_floats() {
    for width in (1..4000u32).step_by(37) {
        for height in (1..4000u32).step_by(53) {
            // the copy fits 320 by 320 and keeps the aspect ratio, more or less
            let longer = width.max(height) as u64;
            let resized_width = ((width as u64 * 320 + longer / 2) / longer).max(1) as u32;
            let resized_height = ((height as u64 * 320 + longer / 2) / longer).max(1) as u32;
            check(width, height, resized_width, resized_height);
        }
    }
}

#[test]
fn scales_of_any_sizes_agree_with_the_floats() {
    let mut state: u64 = 12345;
    let mut next = || {
        state = state.wrapping_mul(6364136223846793005).wrapping_add(1442695040888963407);
        let wide = (state >> 32) as u32;
        match (state >> 29) & 3 {
            0 => wide,
            1 => wide >> 16,
            2 => wide >> 24,
            _ => wide >> 8,
        }
    };
    for _ in 0..200_000 {
        let (a, b, c, d) = (next(), next(), next(), next());
        check(a, b, c, d);
    }
}
