use img2svg_core::options::Class;
use img2svg_core::preclean::{box_smooth, preclean, reduce_bit_depth};

#[test]
fn bit_depth_drops_two_low_bits_of_color_only() {
    let px = vec![0xFFu8, 0x03, 0x81, 0x07, 0x12];
    assert_eq!(reduce_bit_depth(&px), vec![0xFCu8, 0x00, 0x80, 0x07, 0x12]);
}

#[test]
fn reduce_is_idempotent() {
    let px: Vec<u8> = (0..=255u8).collect();
    let once = reduce_bit_depth(&px);
    assert_eq!(reduce_bit_depth(&once), once);
}

#[test]
fn logos_are_not_smoothed() {
    let mut img = vec![0u8; 3 * 3 * 4];
    for px in img.chunks_exact_mut(4) {
        px[3] = 255;
    }
    img[4 * 4] = 255; // centre red channel
    let out = preclean(&img, 3, 3, Class::Logo);
    assert_eq!(out, reduce_bit_depth(&img));
    let smoothed = preclean(&img, 3, 3, Class::Photo);
    // Centre red becomes the rounded 3x3 mean of 252 and eight zeros.
    assert_eq!(smoothed[16], 28);
    assert_eq!(smoothed[0], 63);
}

#[test]
fn smoothing_weights_by_alpha_and_keeps_alpha() {
    // 3x3: all opaque grey 100 except a transparent white corner.
    let mut img = vec![0u8; 36];
    for (i, px) in img.chunks_exact_mut(4).enumerate() {
        if i == 0 {
            px.copy_from_slice(&[255, 255, 255, 0]);
        } else {
            px.copy_from_slice(&[100, 100, 100, 255]);
        }
    }
    let out = box_smooth(&img, 3, 3);
    for i in 0..9 {
        assert_eq!(out[i * 4 + 3], img[i * 4 + 3]);
    }
    // The transparent corner's color does not bleed in.
    assert_eq!(out[4 * 4], 100);
    // A pixel with only transparent weight would keep its value; here the
    // corner itself sees opaque neighbours and takes their mean.
    assert_eq!(out[0], 100);
}

#[test]
fn narrow_images_are_not_smoothed() {
    let img: Vec<u8> = (0..2 * 5 * 4).map(|v| v as u8).collect();
    assert_eq!(box_smooth(&img, 2, 5), img);
}

#[test]
fn small_or_logo_images_need_no_full_buffer() {
    let px = vec![0xABu8, 0xCD, 0xEF, 0x10, 0x77];
    assert_eq!(preclean(&px, 2, 9, Class::Photo), reduce_bit_depth(&px));
    assert_eq!(preclean(&px, 40, 40, Class::Logo), reduce_bit_depth(&px));
}
