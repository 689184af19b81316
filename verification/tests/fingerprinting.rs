use image::{DynamicImage, ImageBuffer, Rgb};
use image_dedup::extract::fingerprint_image;
use image_dedup::fingerprint::fold_fingerprint;

#[test]
fn fold_places_byte_i_at_bit_offset_eight_i() {
    let bytes: Vec<u8> = vec![1, 2, 3, 4, 5, 6, 7, 8];
    assert_eq!(fold_fingerprint(&bytes), 0x0807060504030201u64);
}

#[test]
fn fold_of_a_single_byte_is_that_byte() {
    assert_eq!(fold_fingerprint(&vec![0xffu8]), 255u64);
}

#[test]
fn fold_of_nothing_is_zero() {
    let bytes: Vec<u8> = Vec::new();
    assert_eq!(fold_fingerprint(&bytes), 0u64);
}

#[test]
fn fold_distinguishes_distinct_hashes() {
    let a: Vec<u8> = vec![0, 0, 0, 0, 0, 0, 0, 1];
    let b: Vec<u8> = vec![1, 0, 0, 0, 0, 0, 0, 0];
    assert_ne!(fold_fingerprint(&a), fold_fingerprint(&b));
}

fn ramp_image(reversed: bool) -> DynamicImage {
    let buf = ImageBuffer::from_fn(64, 64, |x, _y| {
        let level = (x * 4) as u8;
        if reversed {
            Rgb([255 - level, 255 - level, 255 - level])
        } else {
            Rgb([level, level, level])
        }
    });
    DynamicImage::ImageRgb8(buf)
}

#[test]
fn equal_images_share_a_fingerprint() {
    let a = ramp_image(false);
    let b = ramp_image(false);
    assert_eq!(fingerprint_image(&a), fingerprint_image(&b));
}

#[test]
fn opposed_gradients_get_different_fingerprints() {
    let a = ramp_image(false);
    let b = ramp_image(true);
    assert_ne!(fingerprint_image(&a), fingerprint_image(&b));
}
