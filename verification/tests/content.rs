use hyge::compare::count_mismatched_pixels;
use hyge::content::{hash_image, to_hex, AssetId, PrefabId};

#[test]
fn hash_is_deterministic_and_prefixed() {
    let h1 = hash_image(b"hello world");
    let h2 = hash_image(b"hello world");
    assert_eq!(h1, h2);
    assert!(h1.starts_with("blake3:"));
}

#[test]
fn hash_distinguishes_different_inputs() {
    let h1 = hash_image(b"hello");
    let h2 = hash_image(b"world");
    assert_ne!(h1, h2);
}

#[test]
fn hash_image_of_empty_input_is_known_digest() {
    assert_eq!(
        hash_image(b""),
        "blake3:af1349b9f5f9a1a6a0404dea36dcc9499bcb25c9adc112b7cc9a93cae41f3262"
    );
}

#[test]
fn to_hex_is_lower_case_two_digits_per_byte() {
    assert_eq!(to_hex(&[0x00, 0x0f, 0xa0, 0xff]), "000fa0ff");
    assert_eq!(to_hex(&[]), "");
}

#[test]
fn compute_is_deterministic() {
    let bytes = b"prefab-bytes";
    let a = PrefabId::compute(bytes);
    let b = PrefabId::compute(bytes);
    assert_eq!(a, b);
}

#[test]
fn different_bytes_different_id() {
    let a = PrefabId::compute(b"a");
    let b = PrefabId::compute(b"b");
    assert_ne!(a, b);
}

#[test]
fn null_sentinel() {
    assert!(PrefabId::null().0.is_null());
    assert!(!PrefabId::compute(b"x").0.is_null());
}

#[test]
fn asset_id_of_content_is_its_digest() {
    let id = AssetId::from_content(b"");
    assert_eq!(to_hex(&id.0), "af1349b9f5f9a1a6a0404dea36dcc9499bcb25c9adc112b7cc9a93cae41f3262");
    assert!(id.same(&AssetId::from_content(b"")));
    assert!(!id.same(&AssetId::null()));
    let p = PrefabId::from_asset_id(id);
    assert_eq!(p.asset_id(), id);
    assert!(p.same(&PrefabId::from_asset_id(id)));
}

#[test]
fn identical_images_have_no_mismatched_pixel() {
    let img = vec![128u8; 4 * 4 * 4];
    assert_eq!(count_mismatched_pixels(&img, &img, 16, 0), 0);
}

#[test]
fn small_diffs_count_only_above_threshold() {
    let actual = vec![0u8; 4 * 4 * 4];
    let mut expected = vec![0u8; 4 * 4 * 4];
    for px in 0..5 {
        expected[px * 4] = 10;
    }
    expected[5 * 4 + 3] = 200;
    assert_eq!(count_mismatched_pixels(&actual, &expected, 16, 128), 1);
    assert_eq!(count_mismatched_pixels(&actual, &expected, 16, 10), 1);
    assert_eq!(count_mismatched_pixels(&actual, &expected, 16, 9), 6);
    assert_eq!(count_mismatched_pixels(&expected, &actual, 16, 9), 6);
}

#[test]
fn full_diff_counts_every_pixel() {
    let actual = vec![0u8; 4 * 4 * 4];
    let expected = vec![255u8; 4 * 4 * 4];
    assert_eq!(count_mismatched_pixels(&actual, &expected, 16, 0), 16);
    assert_eq!(count_mismatched_pixels(&actual, &expected, 16, 255), 0);
}
