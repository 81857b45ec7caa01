use img2svg_core::contour::{dilate, rdp, signed_area2, trace_mask, trace_rings};

fn rect_mask(w: u32, h: u32, x0: u32, y0: u32, x1: u32, y1: u32) -> Vec<bool> {
    let mut m = vec![false; (w * h) as usize];
    for y in y0..y1 {
        for x in x0..x1 {
            m[(y * w + x) as usize] = true;
        }
    }
    m
}

fn count_subpaths(d: &str) -> usize {
    d.matches('M').count()
}

#[test]
fn empty_mask_is_empty_path() {
    let m = vec![false; 64];
    assert_eq!(trace_mask(&m, 8, 8), "");
}

#[test]
fn single_pixel_is_sane() {
    let mut m = vec![false; 64];
    m[8 + 1] = true; // pixel at (1,1)
    let d = trace_mask(&m, 8, 8);
    // One subpath; a unit square has 4 corners.
    assert_eq!(count_subpaths(&d), 1, "d = {d}");
    assert!(d.ends_with('Z'));
}

#[test]
fn filled_rectangle_is_one_ring_four_corners() {
    let m = rect_mask(20, 20, 4, 5, 15, 12);
    let rings = trace_rings(&m, 20, 20);
    assert_eq!(rings.len(), 1);
    let simplified = rdp(&rings[0]);
    assert_eq!(
        simplified.len(),
        4,
        "a rectangle simplifies to 4 corners, got {simplified:?}"
    );
    // Corners should be the rectangle bounds (x in [4,15], y in [5,12]).
    let xs: Vec<u32> = simplified.iter().map(|p| p.0).collect();
    let ys: Vec<u32> = simplified.iter().map(|p| p.1).collect();
    assert!(xs.iter().any(|&x| x == 4));
    assert!(xs.iter().any(|&x| x == 15));
    assert!(ys.iter().any(|&y| y == 5));
    assert!(ys.iter().any(|&y| y == 12));
}

#[test]
fn annulus_has_outer_and_hole_ring() {
    // 20x20 grid: a 12x12 filled square with a 4x4 hole punched in the center.
    let w = 20u32;
    let h = 20u32;
    let mut m = rect_mask(w, h, 4, 4, 16, 16);
    for y in 8..12 {
        for x in 8..12 {
            m[(y * w + x) as usize] = false;
        }
    }
    let rings = trace_rings(&m, w, h);
    assert_eq!(rings.len(), 2, "annulus has an outer and an inner ring");

    // Exactly one ring should wind CCW (outer) and one CW (hole).
    let ccw = rings.iter().filter(|r| signed_area2(r) < 0).count();
    assert_eq!(ccw, 1, "one outer (CCW) ring expected");

    let d = trace_mask(&m, w, h);
    assert_eq!(count_subpaths(&d), 2);
}

#[test]
fn dilate_grows_by_one_ring() {
    let m = rect_mask(10, 10, 4, 4, 6, 6); // a 2x2 block
    let before: usize = m.iter().filter(|&&v| v).count();
    let after = dilate(&m, 10, 10, 1);
    let grown: usize = after.iter().filter(|&&v| v).count();
    assert!(grown > before);
    // A 2x2 block dilated by 1 (4-connected) gains its 4-neighbour cells.
    assert_eq!(grown, before + 8);
}

#[test]
fn trace_is_deterministic() {
    let m = rect_mask(24, 24, 3, 3, 20, 18);
    let a = trace_mask(&m, 24, 24);
    let b = trace_mask(&m, 24, 24);
    assert_eq!(a, b);
}

#[test]
fn unit_square_path_text() {
    let mut m = vec![false; 9];
    m[4] = true; // centre of a 3x3 grid
    assert_eq!(trace_mask(&m, 3, 3), "M1 1L1 2L2 2L2 1Z");
}

#[test]
fn outer_ring_area_is_negative_hole_positive() {
    let w = 20u32;
    let mut m = rect_mask(w, w, 4, 4, 16, 16);
    for y in 8..12 {
        for x in 8..12 {
            m[(y * w + x) as usize] = false;
        }
    }
    let rings = trace_rings(&m, w, w);
    // Outer rings come first (12x12 square), then holes (4x4).
    assert_eq!(signed_area2(&rings[0]), -2 * 144);
    assert_eq!(signed_area2(&rings[1]), 2 * 16);
}

#[test]
fn dilate_keeps_every_set_cell() {
    let m = rect_mask(9, 7, 2, 1, 5, 4);
    for iters in 0..4 {
        let d = dilate(&m, 9, 7, iters);
        assert_eq!(d.len(), m.len());
        for i in 0..m.len() {
            if m[i] {
                assert!(d[i]);
            }
        }
    }
    assert_eq!(dilate(&m, 9, 7, 0), m);
}

#[test]
fn dilate_stops_at_the_image_edge() {
    let mut m = vec![false; 9];
    m[0] = true;
    let d = dilate(&m, 3, 3, 1);
    assert_eq!(d, vec![true, true, false, true, false, false, false, false, false]);
}

#[test]
fn blank_and_mismatched_masks_have_no_rings() {
    assert!(trace_rings(&vec![false; 12], 4, 3).is_empty());
    assert!(trace_rings(&vec![true; 5], 4, 3).is_empty());
    assert!(trace_rings(&vec![true; 0], 0, 0).is_empty());
}

#[test]
fn rdp_keeps_corners_of_staircase() {
    // An L-shaped outline keeps all six corners.
    let ring: Vec<(u32, u32)> = vec![(0, 0), (0, 2), (0, 4), (2, 4), (4, 4), (4, 2), (2, 2), (2, 0)];
    let s = rdp(&ring);
    assert_eq!(s, vec![(0, 0), (0, 4), (4, 4), (4, 2), (2, 2), (2, 0)]);
}

#[test]
fn dilate_leaves_cells_past_the_image_alone() {
    let mut m = vec![false; 11];
    m[9] = true;
    m[4] = true;
    let d = dilate(&m, 3, 3, 1);
    assert_eq!(
        d,
        vec![false, true, false, true, true, true, false, true, false, true, false]
    );
}

#[test]
fn diagonal_pixels_share_one_border() {
    // Two pixels touching at a corner: one ring passes the saddle and
    // encloses both, each once.
    let m = vec![true, false, false, true];
    let rings = trace_rings(&m, 2, 2);
    assert_eq!(rings.len(), 1);
    assert_eq!(signed_area2(&rings[0]), -4);
    assert_eq!(count_subpaths(&trace_mask(&m, 2, 2)), 1);
}

#[test]
fn diamond_around_a_hole_has_outer_ring_and_hole_ring() {
    // Four pixels around an empty centre, touching at corners: one outer
    // ring around the four pixels and the centre (area 5), and one
    // unit-square hole ring that cuts the centre out again.
    let m = vec![false, true, false, true, false, true, false, true, false];
    let rings = trace_rings(&m, 3, 3);
    assert_eq!(rings.len(), 2);
    assert_eq!(signed_area2(&rings[0]), -10);
    assert_eq!(signed_area2(&rings[1]), 2);
    assert_eq!(rings[1].len(), 4);
}

fn evenodd_inside(rings: &[Vec<(u32, u32)>], x: u32, y: u32) -> bool {
    // Ray from the pixel centre towards +x; count the vertical ring edges it
    // crosses.
    let (px2, py2) = (2 * x + 1, 2 * y + 1);
    let mut crossings = 0;
    for ring in rings {
        for i in 0..ring.len() {
            let (a, b) = (ring[i], ring[(i + 1) % ring.len()]);
            if a.0 == b.0 && 2 * a.0 > px2 {
                let (lo, hi) = if a.1 < b.1 { (a.1, b.1) } else { (b.1, a.1) };
                if 2 * lo < py2 && py2 < 2 * hi {
                    crossings += 1;
                }
            }
        }
    }
    crossings % 2 == 1
}

#[test]
fn evenodd_fill_of_the_rings_is_the_mask() {
    for (w, h) in [(4u32, 4u32), (5, 3), (3, 5)] {
        let n = (w * h) as usize;
        for bits in 0u32..(1u32 << n) {
            let m: Vec<bool> = (0..n).map(|i| bits >> i & 1 == 1).collect();
            let rings = trace_rings(&m, w, h);
            for y in 0..h {
                for x in 0..w {
                    assert_eq!(
                        evenodd_inside(&rings, x, y),
                        m[(y * w + x) as usize],
                        "mask {bits:b} at ({x},{y})"
                    );
                }
            }
        }
    }
}
