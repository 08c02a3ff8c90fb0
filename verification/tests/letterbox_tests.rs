use nude_detection::letterbox::{padding, INPUT_SIZE};
use nude_detection::{letterbox, preprocess, DetectError, Image, Padding};

const SIDE: usize = INPUT_SIZE as usize;

/// A picture whose every byte depends on its position.
fn synthetic(width: u32, height: u32) -> Image {
    let mut pixels = Vec::with_capacity(4 * width as usize * height as usize);
    for y in 0..height {
        for x in 0..width {
            pixels.push((x % 251) as u8);
            pixels.push((y % 241) as u8);
            pixels.push(((x + 2 * y) % 239) as u8);
            pixels.push(255);
        }
    }
    Image { width, height, pixels }
}

fn at(tensor: &[u8], c: usize, y: usize, x: usize) -> u8 {
    tensor[(c * SIDE + y) * SIDE + x]
}

/// What the image library makes of the picture, asked directly.
fn resized_directly(image: &Image) -> Image {
    let buffer = image::RgbaImage::from_raw(image.width, image.height, image.pixels.clone());
    let scaled = image::DynamicImage::ImageRgba8(buffer.unwrap())
        .resize(INPUT_SIZE, INPUT_SIZE, image::imageops::FilterType::Triangle)
        .into_rgba8();
    Image { width: scaled.width(), height: scaled.height(), pixels: scaled.into_raw() }
}

fn check_against(tensor: &[u8], scaled: &Image, pad: Padding) {
    assert_eq!(tensor.len(), 3 * SIDE * SIDE);
    let (left, top) = (pad.left as usize, pad.top as usize);
    let (width, height) = (scaled.width as usize, scaled.height as usize);
    for c in 0..3 {
        for y in 0..SIDE {
            for x in 0..SIDE {
                let inside = x >= left && x < left + width && y >= top && y < top + height;
                let expected = if inside {
                    scaled.pixels[4 * ((y - top) * width + (x - left)) + c]
                } else {
                    0
                };
                assert_eq!(at(tensor, c, y, x), expected);
            }
        }
    }
}

fn check_input_against(tensor: &[u32], scaled: &Image, pad: Padding) {
    assert_eq!(tensor.len(), 3 * SIDE * SIDE);
    let (left, top) = (pad.left as usize, pad.top as usize);
    let (width, height) = (scaled.width as usize, scaled.height as usize);
    for c in 0..3 {
        for y in 0..SIDE {
            for x in 0..SIDE {
                let inside = x >= left && x < left + width && y >= top && y < top + height;
                let expected = if inside {
                    scaled.pixels[4 * ((y - top) * width + (x - left)) + c] as f32 / 255.0
                } else {
                    0.0
                };
                let value = f32::from_bits(tensor[(c * SIDE + y) * SIDE + x]);
                assert_eq!(value, expected);
                assert!((0.0..=1.0).contains(&value));
            }
        }
    }
}

#[test]
fn input_size_is_320() {
    assert_eq!(INPUT_SIZE, 320);
}

#[test]
fn padding_is_centred() {
    assert_eq!(padding(320, 240), Padding { top: 40, bottom: 40, left: 0, right: 0 });
    assert_eq!(padding(240, 320), Padding { top: 0, bottom: 0, left: 40, right: 40 });
    assert_eq!(padding(320, 320), Padding { top: 0, bottom: 0, left: 0, right: 0 });
    assert_eq!(padding(1, 1), Padding { top: 159, bottom: 160, left: 159, right: 160 });
    assert_eq!(padding(0, 0), Padding { top: 160, bottom: 160, left: 160, right: 160 });
}

#[test]
fn odd_padding_puts_the_extra_pixel_at_the_bottom_and_right() {
    assert_eq!(padding(320, 213), Padding { top: 53, bottom: 54, left: 0, right: 0 });
    assert_eq!(padding(213, 320), Padding { top: 0, bottom: 0, left: 53, right: 54 });
    assert_eq!(padding(319, 1), Padding { top: 159, bottom: 160, left: 0, right: 1 });
}

#[test]
fn padding_adds_up_for_every_size() {
    for width in 0..=INPUT_SIZE {
        for height in [0, 1, 2, 133, 212, 213, 319, 320] {
            let pad = padding(width, height);
            assert_eq!(pad.left + pad.right, INPUT_SIZE - width);
            assert_eq!(pad.top + pad.bottom, INPUT_SIZE - height);
            assert!(pad.right == pad.left || pad.right == pad.left + 1);
            assert!(pad.bottom == pad.top || pad.bottom == pad.top + 1);
        }
    }
}

#[test]
fn letterbox_of_a_small_picture() {
    let image = Image {
        width: 2,
        height: 1,
        pixels: vec![10, 20, 30, 255, 40, 50, 60, 255],
    };
    let tensor = letterbox(&image);
    assert_eq!(tensor.len(), 3 * SIDE * SIDE);
    // margins: left 159, top 159
    assert_eq!(at(&tensor, 0, 159, 159), 10);
    assert_eq!(at(&tensor, 1, 159, 159), 20);
    assert_eq!(at(&tensor, 2, 159, 159), 30);
    assert_eq!(at(&tensor, 0, 159, 160), 40);
    assert_eq!(at(&tensor, 1, 159, 160), 50);
    assert_eq!(at(&tensor, 2, 159, 160), 60);
    assert_eq!(tensor.iter().filter(|&&b| b != 0).count(), 6);
    check_against(&tensor, &image, padding(2, 1));
}

#[test]
fn last_row_and_column_of_the_picture_are_copied_and_nothing_beyond() {
    let image = synthetic(100, 50);
    let tensor = letterbox(&image);
    let pad = padding(100, 50);
    let last_row = (pad.top + 49) as usize;
    let last_column = (pad.left + 99) as usize;
    assert_eq!(at(&tensor, 0, last_row, last_column), 99);
    assert_eq!(at(&tensor, 1, last_row, last_column), 49);
    assert_eq!(at(&tensor, 0, last_row + 1, last_column), 0);
    assert_eq!(at(&tensor, 1, last_row + 1, last_column), 0);
    assert_eq!(at(&tensor, 0, last_row, last_column + 1), 0);
    check_against(&tensor, &image, pad);
}

#[test]
fn picture_of_input_size_is_taken_as_it_is() {
    let image = synthetic(320, 320);
    let out = preprocess(&image).unwrap();
    assert_eq!(out.padding, Padding { top: 0, bottom: 0, left: 0, right: 0 });
    assert_eq!((out.resized_width, out.resized_height), (320, 320));
    assert_eq!((out.source_width, out.source_height), (320, 320));
    check_input_against(&out.tensor, &image, out.padding);
    assert_eq!(out.tensor[7 * SIDE + 300], (49.0f32 / 255.0).to_bits());
    assert_eq!(out.tensor[(SIDE + 250) * SIDE + 3], (9.0f32 / 255.0).to_bits());
}

#[test]
fn landscape_picture_is_scaled_and_padded_above_and_below() {
    let image = synthetic(640, 480);
    let out = preprocess(&image).unwrap();
    assert_eq!((out.source_width, out.source_height), (640, 480));
    assert_eq!((out.resized_width, out.resized_height), (320, 240));
    assert_eq!(out.padding, Padding { top: 40, bottom: 40, left: 0, right: 0 });
    assert_eq!(out.tensor.len(), 3 * 320 * 320);
    let scaled = resized_directly(&image);
    assert_eq!((scaled.width, scaled.height), (320, 240));
    assert_ne!(scaled.pixels, image.pixels);
    check_input_against(&out.tensor, &scaled, out.padding);
}

#[test]
fn portrait_picture_is_scaled_and_padded_left_and_right() {
    let image = synthetic(200, 300);
    let out = preprocess(&image).unwrap();
    assert_eq!((out.resized_width, out.resized_height), (213, 320));
    assert_eq!(out.padding, Padding { top: 0, bottom: 0, left: 53, right: 54 });
    check_input_against(&out.tensor, &resized_directly(&image), out.padding);
}

#[test]
fn small_picture_is_scaled_up() {
    let image = synthetic(4, 2);
    let out = preprocess(&image).unwrap();
    assert_eq!((out.resized_width, out.resized_height), (320, 160));
    assert_eq!(out.padding, Padding { top: 80, bottom: 80, left: 0, right: 0 });
    check_input_against(&out.tensor, &resized_directly(&image), out.padding);
}

#[test]
fn very_flat_picture_keeps_one_row() {
    let image = synthetic(1000, 1);
    let out = preprocess(&image).unwrap();
    assert_eq!((out.resized_width, out.resized_height), (320, 1));
    assert_eq!(out.padding, Padding { top: 159, bottom: 160, left: 0, right: 0 });
    check_input_against(&out.tensor, &resized_directly(&image), out.padding);
}

#[test]
fn margins_add_up_to_what_the_scaled_picture_leaves() {
    for (width, height) in [(640, 480), (200, 300), (333, 77), (1, 1), (320, 319), (321, 320)] {
        let out = preprocess(&synthetic(width, height)).unwrap();
        assert!(out.resized_width <= INPUT_SIZE && out.resized_height <= INPUT_SIZE);
        assert!(out.resized_width == INPUT_SIZE || out.resized_height == INPUT_SIZE);
        assert_eq!(out.padding.top + out.padding.bottom, INPUT_SIZE - out.resized_height);
        assert_eq!(out.padding.left + out.padding.right, INPUT_SIZE - out.resized_width);
        assert_eq!(out.padding.top, (INPUT_SIZE - out.resized_height) / 2);
        assert_eq!(out.padding.left, (INPUT_SIZE - out.resized_width) / 2);
    }
}

#[test]
fn picture_without_pixels_is_refused() {
    let no_width = Image { width: 0, height: 10, pixels: Vec::new() };
    assert_eq!(preprocess(&no_width), Err(DetectError::ImageLoad));
    let no_height = Image { width: 10, height: 0, pixels: Vec::new() };
    assert_eq!(preprocess(&no_height), Err(DetectError::ImageLoad));
    let nothing = Image { width: 0, height: 0, pixels: Vec::new() };
    assert_eq!(preprocess(&nothing), Err(DetectError::ImageLoad));
    assert!(!nothing.is_valid());
}

#[test]
fn buffer_that_does_not_match_the_size_is_refused() {
    let mut image = synthetic(8, 8);
    assert!(image.is_valid());
    image.pixels.pop();
    assert!(!image.is_valid());
    assert_eq!(preprocess(&image), Err(DetectError::ImageLoad));
    image.pixels.push(0);
    image.pixels.push(0);
    assert_eq!(preprocess(&image), Err(DetectError::ImageLoad));
    let huge = Image { width: u32::MAX, height: u32::MAX, pixels: vec![0; 4] };
    assert_eq!(preprocess(&huge), Err(DetectError::ImageLoad));
}
