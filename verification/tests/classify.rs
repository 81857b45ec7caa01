use img2svg_core::classify::{classify, sobel_sharp, unique_color_estimate};
use img2svg_core::options::Class;

fn fill(w: u32, h: u32, f: impl Fn(u32, u32) -> [u8; 4]) -> Vec<u8> {
    let mut v = Vec::with_capacity((w * h * 4) as usize);
    for y in 0..h {
        for x in 0..w {
            v.extend_from_slice(&f(x, y));
        }
    }
    v
}

#[test]
fn flat_image_is_an_illustration() {
    let img = fill(16, 16, |_, _| [200, 200, 200, 255]);
    assert_eq!(unique_color_estimate(&img, 16, 16), 1);
    assert!(!sobel_sharp(&img, 16, 16));
    assert_eq!(classify(&img, 16, 16), Class::Illustration);
}

#[test]
fn two_color_stripes_are_a_logo() {
    let img = fill(16, 16, |x, _| if (x / 2) % 2 == 0 { [0, 0, 0, 255] } else { [255, 255, 255, 255] });
    assert_eq!(unique_color_estimate(&img, 16, 16), 1);
    assert!(sobel_sharp(&img, 16, 16));
    assert_eq!(classify(&img, 16, 16), Class::Logo);
}

#[test]
fn many_colors_with_edges_are_a_photo() {
    let img = fill(128, 128, |x, y| {
        if x % 4 == 0 && y % 4 == 0 {
            let k = (y / 4) * 32 + x / 4;
            [((k & 15) << 4) as u8, (((k >> 4) & 15) << 4) as u8, (((k >> 8) & 15) << 4) as u8, 255]
        } else if (x / 2) % 2 == 0 {
            [0, 0, 0, 255]
        } else {
            [255, 255, 255, 255]
        }
    });
    assert_eq!(unique_color_estimate(&img, 128, 128), 1024);
    assert!(sobel_sharp(&img, 128, 128));
    assert_eq!(classify(&img, 128, 128), Class::Photo);
}

#[test]
fn transparent_samples_do_not_count() {
    let img = fill(8, 8, |x, _| if x < 4 { [10, 20, 30, 0] } else { [250, 20, 30, 255] });
    assert_eq!(unique_color_estimate(&img, 8, 8), 1);
}

#[test]
fn tiny_images_have_no_edges() {
    let img = fill(2, 9, |x, _| if x == 0 { [0, 0, 0, 255] } else { [255, 255, 255, 255] });
    assert!(!sobel_sharp(&img, 2, 9));
}
