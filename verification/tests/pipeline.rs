use img2svg_core::options::Class;
use img2svg_core::pipeline::{
    assemble_result, capped_k, check_input, count_opaque, despeckle_assignment, k_range, punch_out,
    region_mask, splice_gradients, trace_bw,
};
use img2svg_core::regions::despeckle;
use img2svg_core::Error;

fn opaque(w: u32, h: u32) -> Vec<u8> {
    let mut v = vec![0u8; (w * h * 4) as usize];
    for (i, px) in v.chunks_exact_mut(4).enumerate() {
        let dark = (i as u32 % w) < w / 2;
        let c = if dark { 10 } else { 240 };
        px.copy_from_slice(&[c, c, c, 255]);
    }
    v
}

#[test]
fn empty_image_is_rejected_first() {
    assert!(matches!(check_input(&[], 0, 5), Err(Error::EmptyImage)));
    assert!(matches!(check_input(&[1, 2, 3], 4, 0), Err(Error::EmptyImage)));
}

#[test]
fn wrong_length_is_a_dimensions_error() {
    match check_input(&[0u8; 15], 2, 2) {
        Err(Error::Dimensions { width, height, len }) => {
            assert_eq!((width, height, len), (2, 2, 15));
        }
        other => panic!("unexpected {other:?}"),
    }
    assert!(check_input(&[0u8; 16], 2, 2).is_ok());
}

#[test]
fn splice_lands_after_the_svg_open_tag() {
    let flat = "<?xml version=\"1.0\"?>\n<svg width=\"2\" height=\"2\">\n<path d=\"M0 0\"/>\n</svg>\n";
    let paths = vec!["<path id=\"a\"/>".to_string(), "<path id=\"b\"/>".to_string()];
    let out = splice_gradients(flat, "<linearGradient id=\"g0\"/>", &paths);
    assert_eq!(
        out,
        "<?xml version=\"1.0\"?>\n<svg width=\"2\" height=\"2\"><defs><linearGradient id=\"g0\"/></defs><path id=\"a\"/><path id=\"b\"/>\n<path d=\"M0 0\"/>\n</svg>\n"
    );
}

#[test]
fn splice_without_svg_tag_changes_nothing() {
    assert_eq!(splice_gradients("<sv g>", "D", &["P".to_string()]), "<sv g>");
    assert_eq!(splice_gradients("x<svg width=1", "D", &[]), "x<svg width=1");
    assert_eq!(splice_gradients("<svg>", "", &[]), "<svg><defs></defs>");
}

#[test]
fn opaque_pixels_are_counted() {
    let px = [0u8, 0, 0, 0, 1, 1, 1, 1, 2, 2, 2, 255, 9, 9];
    assert_eq!(count_opaque(&px), 2);
    assert_eq!(count_opaque(&[]), 0);
}

#[test]
fn region_mask_covers_listed_pixels() {
    assert_eq!(region_mask(&[4, 1, 1], 5), vec![false, true, false, false, true]);
    assert_eq!(region_mask(&[], 2), vec![false, false]);
}

#[test]
fn punch_out_clears_alpha_of_covered_pixels() {
    let mut buf = vec![9u8; 12];
    punch_out(&mut buf, &[true, false]);
    assert_eq!(buf, vec![9, 9, 9, 0, 9, 9, 9, 9, 9, 9, 9, 9]);
}

#[test]
fn palette_size_ranges_and_caps() {
    assert_eq!(k_range(Class::Logo), (2, 16));
    assert_eq!(k_range(Class::Illustration), (8, 64));
    assert_eq!(k_range(Class::Photo), (24, 256));
    assert_eq!(capped_k(Class::Photo, 200, 3), 200);
    assert_eq!(capped_k(Class::Logo, 9, 3), 3);
    assert_eq!(capped_k(Class::Logo, 9, 0), 2);
    assert_eq!(capped_k(Class::Illustration, 9, 40), 9);
}

#[test]
fn speckle_in_assignment_is_absorbed() {
    // 3x3 image, all opaque; the centre pixel disagrees with its neighbours.
    let pixel_index: Vec<usize> = (0..9).collect();
    let assignment = vec![0usize, 0, 0, 0, 1, 0, 0, 0, 0];
    assert_eq!(despeckle_assignment(&assignment, &pixel_index, 3, 3, 2), vec![0usize; 9]);
}

#[test]
fn speckle_bordered_by_transparency_keeps_its_color() {
    // 3x1 image: pixel 1 is opaque and alone; the others are transparent.
    let out = despeckle_assignment(&[1], &[1], 3, 1, 2);
    assert_eq!(out, vec![1]);
}

#[test]
fn despeckled_assignment_stays_in_palette() {
    let pixel_index = vec![0usize, 2, 3, 5, 6, 7];
    let assignment = vec![2usize, 0, 1, 1, 2, 0];
    let out = despeckle_assignment(&assignment, &pixel_index, 4, 2, 3);
    assert_eq!(out.len(), pixel_index.len());
    assert!(out.iter().all(|&v| v < 3));
}

#[test]
fn stats_count_the_paths_of_the_final_svg() {
    let flat = "<svg width=\"2\"><path d=\"M0 0\"/></svg>";
    let svg = splice_gradients(flat, "<linearGradient/>", &["<path id=\"g\"/>".to_string()]);
    let t = assemble_result(svg.clone(), vec!["#ffffff".to_string()], Class::Photo);
    assert_eq!(t.svg, svg);
    assert_eq!(t.stats.path_count, 2);
    assert_eq!(t.stats.palette, vec!["#ffffff".to_string()]);
    assert_eq!(t.stats.classified_as, Class::Photo);
    assert_eq!(t.stats.est_bytes, svg.len());
}

#[test]
fn bw_trace_reports_one_black_logo_layer() {
    let img = opaque(8, 8);
    let t = trace_bw(&img, 8, 8).expect("bw trace should succeed");
    assert!(t.svg.contains("<svg"));
    assert!(t.stats.path_count > 0);
    assert_eq!(t.stats.path_count, t.svg.matches("<path").count());
    assert_eq!(t.stats.palette, vec!["#000000".to_string()]);
    assert_eq!(t.stats.classified_as, Class::Logo);
    assert_eq!(t.stats.est_bytes, t.svg.len());
}

#[test]
fn despeckle_copies_empty_inputs_and_empty_palettes() {
    assert_eq!(despeckle(&[], 4, 4, 3), Vec::<usize>::new());
    assert_eq!(despeckle(&[0, 1], 2, 1, 0), vec![0, 1]);
    assert_eq!(despeckle(&[0, 1, 1], 5, 5, 0), vec![0, 1, 1]);
    assert_eq!(despeckle(&[1, 1, 1], 3, 1, 2), vec![1, 1, 1]);
}

#[test]
fn bw_trace_rejects_short_buffer() {
    assert!(matches!(trace_bw(&[0u8; 7], 2, 1), Err(Error::Dimensions { width: 2, height: 1, len: 7 })));
}
