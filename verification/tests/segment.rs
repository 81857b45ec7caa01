use img2svg_core::segment::segment_linked;

fn solid(width: u32, height: u32, rgb: [u8; 3]) -> Vec<u8> {
    let mut v = vec![0u8; (width * height * 4) as usize];
    for px in v.chunks_exact_mut(4) {
        px[0] = rgb[0];
        px[1] = rgb[1];
        px[2] = rgb[2];
        px[3] = 255;
    }
    v
}

#[test]
fn fully_joined_field_is_one_component() {
    let img = solid(8, 8, [120, 120, 120]);
    let joins = vec![true; 64];
    let comps = segment_linked(&img, 8, 8, &joins, &joins);
    assert_eq!(comps.len(), 1);
    assert_eq!(comps[0], (0..64).collect::<Vec<usize>>());
}

#[test]
fn unjoined_seam_splits_components() {
    let (w, h) = (16u32, 8u32);
    let img = solid(w, h, [20, 20, 20]);
    let n = (w * h) as usize;
    let right: Vec<bool> = (0..n).map(|i| i % 16 != 7).collect();
    let down = vec![true; n];
    let comps = segment_linked(&img, w, h, &right, &down);
    assert_eq!(comps.len(), 2);
    assert_eq!(comps[0][0], 0);
    assert_eq!(comps[1][0], 8);
    assert_eq!(comps[0].len(), 64);
    assert!(comps[0].iter().all(|&i| i % 16 < 8));
    assert!(comps[0].windows(2).all(|p| p[0] < p[1]));
}

#[test]
fn transparent_row_forms_no_component() {
    let (w, h) = (8u32, 8u32);
    let mut img = solid(w, h, [100, 100, 100]);
    for x in 0..w {
        img[(x * 4 + 3) as usize] = 0;
    }
    let joins = vec![true; 64];
    let comps = segment_linked(&img, w, h, &joins, &joins);
    let covered: usize = comps.iter().map(|c| c.len()).sum();
    assert_eq!(covered, ((h - 1) * w) as usize, "transparent row is skipped");
    assert_eq!(comps.len(), 1);
    assert_eq!(comps[0][0], 8);
}

#[test]
fn isolated_pixels_are_their_own_components() {
    let img = solid(3, 2, [1, 2, 3]);
    let none = vec![false; 6];
    let comps = segment_linked(&img, 3, 2, &none, &none);
    assert_eq!(comps, (0..6).map(|i| vec![i]).collect::<Vec<_>>());
}

#[test]
fn malformed_segment_input_gives_no_components() {
    let img = solid(4, 4, [9, 9, 9]);
    let joins = vec![true; 16];
    assert!(segment_linked(&img[..60], 4, 4, &joins, &joins).is_empty());
    assert!(segment_linked(&img, 4, 4, &joins[..15], &joins).is_empty());
    assert!(segment_linked(&[], 0, 4, &[], &[]).is_empty());
}

#[test]
fn linked_segmentation_is_deterministic() {
    let img = solid(12, 12, [80, 140, 200]);
    let right: Vec<bool> = (0..144).map(|i| i % 5 != 0).collect();
    let down: Vec<bool> = (0..144).map(|i| i % 7 != 3).collect();
    let a = segment_linked(&img, 12, 12, &right, &down);
    let b = segment_linked(&img, 12, 12, &right, &down);
    assert_eq!(a, b);
    let mut all: Vec<usize> = a.concat();
    all.sort();
    assert_eq!(all, (0..144).collect::<Vec<usize>>());
}

// OKLab edge test used to decide the links, as the application layer does.
const SEG_THRESHOLD: f32 = 0.045;

fn srgb_to_linear(c: f32) -> f32 {
    if c <= 0.040_448_237 {
        c / 12.92
    } else {
        ((c + 0.055) / 1.055).powf(2.4)
    }
}

fn oklab(px: &[u8]) -> Option<[f32; 3]> {
    if px[3] == 0 {
        return None;
    }
    let lr = srgb_to_linear(px[0] as f32 / 255.0);
    let lg = srgb_to_linear(px[1] as f32 / 255.0);
    let lb = srgb_to_linear(px[2] as f32 / 255.0);
    let l = (0.412_221_46 * lr + 0.536_332_55 * lg + 0.051_445_995 * lb).cbrt();
    let m = (0.211_903_5 * lr + 0.680_699_5 * lg + 0.107_396_96 * lb).cbrt();
    let s = (0.088_302_46 * lr + 0.281_718_85 * lg + 0.629_978_7 * lb).cbrt();
    Some([
        0.210_454_26 * l + 0.793_617_8 * m - 0.004_072_047 * s,
        1.977_998_5 * l - 2.428_592_2 * m + 0.450_593_7 * s,
        0.025_904_037 * l + 0.782_771_77 * m - 0.808_675_77 * s,
    ])
}

fn segment(cleaned: &[u8], width: u32, height: u32, threshold: f32) -> Vec<Vec<usize>> {
    let w = width as usize;
    let n = w * height as usize;
    let lab: Vec<Option<[f32; 3]>> = cleaned.chunks_exact(4).map(oklab).collect();
    let t2 = threshold * threshold;
    let joins = |p: usize, q: usize| match (lab.get(p).copied().flatten(), lab.get(q).copied().flatten()) {
        (Some(a), Some(b)) => {
            let d = (a[0] - b[0]).powi(2) + (a[1] - b[1]).powi(2) + (a[2] - b[2]).powi(2);
            d < t2
        }
        _ => false,
    };
    let right: Vec<bool> = (0..n).map(|i| i % w + 1 < w && joins(i, i + 1)).collect();
    let down: Vec<bool> = (0..n).map(|i| i + w < n && joins(i, i + w)).collect();
    segment_linked(cleaned, width, height, &right, &down)
}

#[test]
fn flat_field_is_one_component() {
    let img = solid(8, 8, [120, 120, 120]);
    let comps = segment(&img, 8, 8, SEG_THRESHOLD);
    assert_eq!(comps.len(), 1);
    assert_eq!(comps[0].len(), 64);
}

#[test]
fn smooth_ramp_stays_one_component() {
    // A gentle mid-tone ramp: each adjacent step is small in OKLab, so the
    // whole ramp stays one component.
    let (w, h) = (96u32, 8u32);
    let mut img = vec![0u8; (w * h * 4) as usize];
    for y in 0..h {
        for x in 0..w {
            let v = 80 + (x * 120 / (w - 1)) as u8;
            let i = ((y * w + x) * 4) as usize;
            img[i] = v;
            img[i + 1] = v;
            img[i + 2] = v;
            img[i + 3] = 255;
        }
    }
    let comps = segment(&img, w, h, SEG_THRESHOLD);
    assert_eq!(comps.len(), 1, "a smooth ramp must not be split by edges");
}

#[test]
fn sharp_edge_splits_components() {
    // Left half dark, right half bright: the seam step exceeds the threshold.
    let (w, h) = (16u32, 8u32);
    let mut img = vec![0u8; (w * h * 4) as usize];
    for y in 0..h {
        for x in 0..w {
            let c = if x < w / 2 { 20 } else { 220 };
            let i = ((y * w + x) * 4) as usize;
            img[i] = c;
            img[i + 1] = c;
            img[i + 2] = c;
            img[i + 3] = 255;
        }
    }
    let comps = segment(&img, w, h, SEG_THRESHOLD);
    assert_eq!(comps.len(), 2);
}

#[test]
fn transparent_pixels_form_no_component() {
    let (w, h) = (8u32, 8u32);
    let mut img = solid(w, h, [100, 100, 100]);
    // Knock out the top row to alpha 0.
    for x in 0..w {
        img[((x) * 4 + 3) as usize] = 0;
    }
    let comps = segment(&img, w, h, SEG_THRESHOLD);
    let covered: usize = comps.iter().map(|c| c.len()).sum();
    assert_eq!(covered, ((h - 1) * w) as usize, "transparent row is skipped");
}

#[test]
fn segmentation_is_deterministic() {
    let img = solid(12, 12, [80, 140, 200]);
    let a = segment(&img, 12, 12, SEG_THRESHOLD);
    let b = segment(&img, 12, 12, SEG_THRESHOLD);
    assert_eq!(a, b);
}
