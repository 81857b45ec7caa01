use img2svg_core::emit::{apply_srgb_palette, chars_of, count_paths, hex_color, opaque_indices};

#[test]
fn counts_path_tags() {
    assert_eq!(count_paths(""), 0);
    assert_eq!(count_paths("<svg><path d=\"M0 0Z\"/><path d=\"\"/></svg>"), 2);
    assert_eq!(count_paths("<pat<path<pathx"), 2);
    assert_eq!(count_paths("<Path <pat h"), 0);
}

#[test]
fn chars_of_lists_every_char() {
    assert_eq!(chars_of("aé<"), vec!['a', 'é', '<']);
    assert!(chars_of("").is_empty());
}

#[test]
fn repaint_sets_color_bytes_and_keeps_alpha() {
    let rgba = vec![1u8, 2, 3, 255, 4, 5, 6, 0, 7, 8, 9, 128];
    let srgb = [[10u8, 20, 30], [40, 50, 60]];
    let out = apply_srgb_palette(&rgba, &srgb, &[0, 2], &[1, 0]);
    assert_eq!(out, vec![40u8, 50, 60, 255, 4, 5, 6, 0, 10, 20, 30, 128]);
}

#[test]
fn repaint_pairs_up_to_the_shorter_list_and_later_writes_win() {
    let rgba = vec![0u8; 8];
    let srgb = [[1u8, 1, 1], [2, 2, 2], [3, 3, 3]];
    let out = apply_srgb_palette(&rgba, &srgb, &[1, 1, 0], &[0, 2]);
    assert_eq!(out, vec![0u8, 0, 0, 0, 3, 3, 3, 0]);
}

#[test]
fn hex_color_is_lowercase_rrggbb() {
    assert_eq!(hex_color([0, 0, 0]), "#000000");
    assert_eq!(hex_color([255, 16, 171]), "#ff10ab");
    assert_eq!(hex_color([9, 160, 15]), "#09a00f");
}

#[test]
fn opaque_indices_skip_transparent_pixels() {
    let rgba = [1u8, 1, 1, 0, 2, 2, 2, 7, 3, 3, 3, 0, 4, 4, 4, 255, 5, 5];
    assert_eq!(opaque_indices(&rgba), vec![1, 3]);
    assert!(opaque_indices(&[]).is_empty());
}
