use img2svg_core::options::Class;
use img2svg_core::trace::{fits_tracer, knob_ranges, trace_binary, trace_color, TraceKnobs};
use img2svg_core::Error;

fn halves(w: u32, h: u32) -> Vec<u8> {
    let mut v = vec![0u8; (w * h * 4) as usize];
    for (i, px) in v.chunks_exact_mut(4).enumerate() {
        let c = if (i as u32 % w) < w / 2 { [200, 30, 30, 255] } else { [20, 20, 220, 255] };
        px.copy_from_slice(&c);
    }
    v
}

#[test]
fn binary_trace_is_an_svg_document() {
    // The dark half (red below 128) is one 6x8 cluster, above VTracer's
    // default speckle area of 16 pixels.
    let img = halves(12, 8);
    let svg = trace_binary(&img, 12, 8).expect("binary trace");
    assert!(svg.starts_with("<?xml"));
    assert!(svg.contains("width=\"12\" height=\"8\""));
    assert_eq!(svg.matches("<path").count(), 1);
    assert!(svg.trim_end().ends_with("</svg>"));
    assert_eq!(trace_binary(&img, 12, 8).unwrap(), svg);
}

#[test]
fn binary_trace_checks_the_buffer_length() {
    let img = halves(6, 4);
    match trace_binary(&img[..20], 6, 4) {
        Err(Error::Dimensions { width, height, len }) => assert_eq!((width, height, len), (6, 4, 20)),
        other => panic!("unexpected {other:?}"),
    }
}

#[test]
fn color_trace_of_an_opaque_image_succeeds() {
    let img = halves(8, 6);
    let knobs = TraceKnobs { filter_speckle: 1, corner_threshold: 60, color_precision: 6, layer_difference: 16 };
    let svg = trace_color(&img, 8, 6, &knobs).expect("color trace");
    assert!(svg.contains("<svg"));
    assert!(svg.matches("<path").count() >= 1);
}

#[test]
fn color_trace_checks_the_buffer_length() {
    let knobs = TraceKnobs { filter_speckle: 4, corner_threshold: 60, color_precision: 6, layer_difference: 16 };
    assert!(matches!(
        trace_color(&[0u8; 10], 2, 2, &knobs),
        Err(Error::Dimensions { width: 2, height: 2, len: 10 })
    ));
}

#[test]
fn knob_ranges_per_class() {
    let l = knob_ranges(Class::Logo);
    assert_eq!((l.speckle, l.corner), ((1, 6), (40, 60)));
    let i = knob_ranges(Class::Illustration);
    assert_eq!((i.speckle, i.corner), ((2, 8), (40, 70)));
    let p = knob_ranges(Class::Photo);
    assert_eq!((p.speckle, p.corner), ((2, 12), (60, 100)));
}

fn checkerboard(w: u32, h: u32) -> Vec<u8> {
    let mut v = vec![0u8; (w * h * 4) as usize];
    for (i, px) in v.chunks_exact_mut(4).enumerate() {
        let (x, y) = (i as u32 % w, i as u32 / w);
        let c = if (x + y) % 2 == 0 { [0, 0, 0, 255] } else { [255, 255, 255, 255] };
        px.copy_from_slice(&c);
    }
    v
}

#[test]
fn small_images_always_fit_the_tracer() {
    assert!(fits_tracer(&checkerboard(16, 16), 16, 16));
    assert!(fits_tracer(&[], 0, 0));
}

#[test]
fn a_large_two_colour_logo_fits_the_tracer() {
    // 512 + 2 * 512 for the edges, plus one left change per row.
    assert!(fits_tracer(&halves(512, 512), 512, 512));
}

#[test]
fn a_large_checkerboard_does_not_fit_the_tracer() {
    assert!(!fits_tracer(&checkerboard(400, 400), 400, 400));
}

#[test]
fn a_large_two_colour_logo_traces() {
    let img = halves(512, 512);
    let svg = trace_binary(&img, 512, 512).expect("binary trace");
    assert!(svg.contains("width=\"512\" height=\"512\""));
    let knobs = TraceKnobs { filter_speckle: 4, corner_threshold: 60, color_precision: 6, layer_difference: 16 };
    let color = trace_color(&img, 512, 512, &knobs).expect("color trace");
    assert!(color.matches("<path").count() >= 1);
}

fn framed_square(w: u32, h: u32) -> Vec<u8> {
    let mut v = vec![0u8; (w * h * 4) as usize];
    for (i, px) in v.chunks_exact_mut(4).enumerate() {
        let (x, y) = (i as u32 % w, i as u32 / w);
        if x >= w / 4 && x < 3 * w / 4 && y >= h / 4 && y < 3 * h / 4 {
            px.copy_from_slice(&[200, 30, 30, 255]);
        }
    }
    v
}

#[test]
fn color_trace_of_a_transparent_background_is_determined() {
    let img = framed_square(16, 16);
    let knobs = TraceKnobs { filter_speckle: 1, corner_threshold: 60, color_precision: 6, layer_difference: 16 };
    let first = trace_color(&img, 16, 16, &knobs).expect("keyed color trace");
    assert!(first.matches("<path").count() >= 1);
    assert_eq!(trace_color(&img, 16, 16, &knobs).unwrap(), first);
}

#[test]
fn color_trace_of_a_narrow_image_is_determined() {
    let img = halves(2, 5);
    let knobs = TraceKnobs { filter_speckle: 1, corner_threshold: 60, color_precision: 6, layer_difference: 16 };
    let first = trace_color(&img, 2, 5, &knobs).expect("narrow color trace");
    assert_eq!(trace_color(&img, 2, 5, &knobs).unwrap(), first);
}
