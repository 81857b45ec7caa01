use img2svg_core::regions::despeckle;

#[test]
fn lone_pixel_takes_the_surrounding_index() {
    let mut idx = vec![0usize; 16];
    idx[5] = 3;
    assert_eq!(despeckle(&idx, 4, 4, 4), vec![0usize; 16]);
}

#[test]
fn speckles_are_repainted_in_scan_order() {
    // Every pixel is its own one-pixel component. The first takes its only
    // neighbour (5); the middle then borders 5 and 2 once each and the tie
    // goes to the lower index; the last follows the middle.
    let idx = vec![1usize, 5, 2];
    assert_eq!(despeckle(&idx, 3, 1, 6), vec![5, 2, 2]);
}

#[test]
fn large_regions_are_kept() {
    // Two 5-pixel columns: both above the speckle size, nothing changes.
    let idx = vec![1usize, 2, 1, 2, 1, 2, 1, 2, 1, 2];
    assert_eq!(despeckle(&idx, 2, 5, 3), idx);
}

#[test]
fn dominant_border_wins() {
    // A 1x1 speckle of 9 in a 3x3 grid: three neighbours hold 4, one holds 7.
    let idx = vec![4usize, 4, 4, 4, 9, 4, 7, 7, 7];
    let out = despeckle(&idx, 3, 3, 10);
    assert_eq!(out[4], 4);
    // The bottom row (3 pixels of 7) is itself a speckle bordered by 4s.
    assert_eq!(out, vec![4usize; 9]);
}

#[test]
fn whole_image_component_and_empty_palette_are_untouched() {
    let idx = vec![2usize, 2, 2];
    assert_eq!(despeckle(&idx, 3, 1, 3), idx);
    let idx2 = vec![0usize, 1, 0];
    assert_eq!(despeckle(&idx2, 3, 1, 0), idx2);
    assert_eq!(despeckle(&Vec::new(), 0, 0, 5), Vec::<usize>::new());
}

#[test]
fn despeckle_adds_no_index() {
    let idx = vec![3usize, 3, 8, 3, 1, 1, 8, 8, 3, 3, 1, 3];
    let out = despeckle(&idx, 4, 3, 9);
    assert_eq!(out.len(), idx.len());
    for v in &out {
        assert!(idx.contains(v));
    }
}

#[test]
fn rows_past_the_image_link_only_sideways() {
    // Two 2x2 image rows of 1s, then three extra rows of 6s. Past the image
    // the rows do not link downwards, so each extra row is a two-pixel
    // speckle that takes the value above it.
    let idx = vec![1usize, 1, 1, 1, 6, 6, 6, 6, 6, 6];
    assert_eq!(despeckle(&idx, 2, 2, 7), vec![1usize; 10]);
    // Read as a 2x5 image the 6s form one large region and the 1s, a
    // four-pixel speckle, take the 6 below them.
    assert_eq!(despeckle(&idx, 2, 5, 7), vec![6usize; 10]);
}

#[test]
fn rows_past_a_one_pixel_image_follow_the_row_above() {
    let mut idx = vec![3usize; 5];
    idx.extend_from_slice(&[8usize; 5]);
    assert_eq!(despeckle(&idx, 1, 1, 9), vec![3usize; 10]);
    assert_eq!(despeckle(&idx, 1, 10, 9), idx);
}
