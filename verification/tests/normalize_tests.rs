use nude_detection::single::ONE_BITS;
use nude_detection::{normalize_byte, normalize_bytes};

#[test]
fn every_byte_is_divided_by_255() {
    for byte in 0..=255u8 {
        assert_eq!(normalize_byte(byte), (byte as f32 / 255.0).to_bits());
    }
}

#[test]
fn zero_and_one_are_exact() {
    assert_eq!(normalize_byte(0), 0);
    assert_eq!(normalize_byte(0), 0.0f32.to_bits());
    assert_eq!(normalize_byte(255), ONE_BITS);
    assert_eq!(ONE_BITS, 1.0f32.to_bits());
}

#[test]
fn some_known_quotients() {
    // 51 / 255 = 0.2, 102 / 255 = 0.4, 1 / 255
    assert_eq!(normalize_byte(51), 0x3e4c_cccd);
    assert_eq!(normalize_byte(102), 0x3ecc_cccd);
    assert_eq!(normalize_byte(1), 0x3b80_8081);
    assert_eq!(normalize_byte(128), 0x3f00_8081);
    assert_eq!(normalize_byte(254), 0x3f7e_feff);
}

#[test]
fn greater_byte_gives_greater_single() {
    for byte in 1..=255u8 {
        assert!(normalize_byte(byte - 1) < normalize_byte(byte));
        assert!(f32::from_bits(normalize_byte(byte - 1)) < f32::from_bits(normalize_byte(byte)));
    }
}

#[test]
fn buffers_are_normalised_element_by_element() {
    let bytes: Vec<u8> = (0..=255u8).rev().collect();
    let singles = normalize_bytes(&bytes);
    assert_eq!(singles.len(), 256);
    for (byte, single) in bytes.iter().zip(singles.iter()) {
        assert_eq!(f32::from_bits(*single), *byte as f32 / 255.0);
    }
    assert_eq!(normalize_bytes(&Vec::new()), Vec::<u32>::new());
}
