//! VTracer integration: turn a cleaned, quantized RGBA buffer into a stacked
//! color SVG string.
//!
//! VTracer's `Config` is built from its defaults (which already select spline
//! curve fitting) and only the integer knobs are overridden per run. The knob
//! values come from a per-class range interpolated by the caller's `detail`.
use vstd::prelude::*;
use crate::error::Error;
use crate::options::Class;

verus! {

/// The image is `width * height` RGBA pixels.
pub open spec fn rgba_fits(len: int, width: int, height: int) -> bool {
    len == 4 * (width * height)
}

/// Every pixel of a row-major RGBA buffer has a nonzero alpha.
pub open spec fn all_opaque(rgba: Seq<u8>) -> bool {
    forall|i: int| 0 <= i < rgba.len() / 4 ==> #[trigger] rgba[4 * i + 3] != 0
}

/// VTracer's binary clustering numbers clusters with 16-bit indices and
/// panics once 65535 of them are opened. A cluster is opened at a set pixel
/// whose left neighbour is not set, so a row of a binary image opens at most
/// half its width (rounded up), and every binary image VTracer builds is a
/// sub-rectangle of the input: images within this bound never reach it.
pub open spec fn cluster_safe(width: int, height: int) -> bool {
    ((width + 1) / 2) * height < 65535
}

/// Pixels `i` and `j` of an RGBA buffer hold the same four bytes.
pub open spec fn same_pixel(p: Seq<u8>, i: int, j: int) -> bool {
    &&& p[4 * i] == p[4 * j]
    &&& p[4 * i + 1] == p[4 * j + 1]
    &&& p[4 * i + 2] == p[4 * j + 2]
    &&& p[4 * i + 3] == p[4 * j + 3]
}

/// The colour changes at pixel `i`: 1 when it differs from its left
/// neighbour, 2 when it differs from the pixel above.
pub open spec fn change_weight(p: Seq<u8>, w: int, i: int) -> int {
    (if i % w > 0 && !same_pixel(p, i, i - 1) {
        1int
    } else {
        0int
    }) + (if i >= w && !same_pixel(p, i, i - w) {
        2int
    } else {
        0int
    })
}

/// Weighted colour changes of the pixels before `k`.
pub open spec fn changes_upto(p: Seq<u8>, w: int, k: int) -> int
    decreases k,
{
    if k <= 0 {
        0
    } else {
        changes_upto(p, w, k - 1) + change_weight(p, w, k - 1)
    }
}

/// A bound, from the image's content, on the clusters any single binary
/// image of a VTracer run opens. In a row, a cluster's run starts where its
/// left neighbour is outside it. VTracer's first colour pass puts a pixel in
/// the cluster of its left neighbour whenever the pixel, its left, upper and
/// upper-left neighbours hold one colour, and later passes only merge
/// clusters, so inside the image a run starts only at the row's start, in the
/// top row, or where the pixel differs from its left or upper neighbour or
/// its left neighbour differs from the pixel above that. The hole image of a
/// cluster opens at most one more run per row; the binary pass's dark mask is
/// coarser still.
pub open spec fn edge_budget(p: Seq<u8>, width: int, height: int) -> int {
    width + 2 * height + changes_upto(p, width, width * height)
}

/// The inputs on which VTracer's cluster numbering cannot run out.
pub open spec fn trace_safe(p: Seq<u8>, width: int, height: int) -> bool {
    cluster_safe(width, height) || edge_budget(p, width, height) < 65535
}

proof fn lemma_changes_mono(p: Seq<u8>, w: int, k: int, m: int)
    requires
        0 <= k <= m,
    ensures
        0 <= changes_upto(p, w, k) <= changes_upto(p, w, m),
    decreases m - k,
{
    if k < m {
        lemma_changes_mono(p, w, k, m - 1);
    } else {
        lemma_changes_nonneg(p, w, k);
    }
}

proof fn lemma_changes_nonneg(p: Seq<u8>, w: int, k: int)
    ensures
        changes_upto(p, w, k) >= 0,
    decreases k,
{
    if k > 0 {
        lemma_changes_nonneg(p, w, k - 1);
    }
}

/// Whether the tracer can take this image: it is small, or its colour
/// changes stay within VTracer's cluster numbering.
pub fn fits_tracer(rgba: &[u8], width: u32, height: u32) -> (ok: bool)
    requires
        rgba_fits(rgba@.len() as int, width as int, height as int),
    ensures
        ok == trace_safe(rgba@, width as int, height as int),
{
    let half: u64 = (width as u64 + 1) / 2;
    proof {
        assert(half * (height as u64) <= 0x8000_0000u64 * 0xffff_ffffu64) by (nonlinear_arith)
            requires half <= 0x8000_0000u64, height <= 0xffff_ffffu32;
    }
    let cs: u64 = half * (height as u64);
    if cs < 65535 {
        return true;
    }
    let w = width as usize;
    let len = rgba.len();
    let n = len / 4;
    proof {
        assert(n == (width as int) * (height as int));
        if w == 0 {
            assert((width as int) * (height as int) == 0) by (nonlinear_arith)
                requires width == 0;
        }
        lemma_changes_mono(rgba@, w as int, 0, n as int);
    }
    let mut total: u64 = width as u64 + 2 * (height as u64);
    if total >= 65535 {
        return false;
    }
    let mut i: usize = 0;
    while i < n
        invariant
            n == rgba@.len() / 4,
            len == rgba@.len(),
            rgba@.len() == 4 * n,
            n == (width as int) * (height as int),
            w == width as int,
            w > 0,
            i <= n,
            total == width + 2 * height + changes_upto(rgba@, w as int, i as int),
            total < 65535,
            !cluster_safe(width as int, height as int),
        decreases n - i,
    {
        let mut wt: u64 = 0;
        if i % w > 0 {
            proof {
                if i == 0 {
                    vstd::arithmetic::div_mod::lemma_small_mod(0, w as nat);
                }
            }
            if !(rgba[4 * i] == rgba[4 * i - 4] && rgba[4 * i + 1] == rgba[4 * i - 3] && rgba[4 * i + 2]
                == rgba[4 * i - 2] && rgba[4 * i + 3] == rgba[4 * i - 1]) {
                wt = 1;
            }
        }
        if i >= w {
            let j = i - w;
            if !(rgba[4 * i] == rgba[4 * j] && rgba[4 * i + 1] == rgba[4 * j + 1] && rgba[4 * i + 2]
                == rgba[4 * j + 2] && rgba[4 * i + 3] == rgba[4 * j + 3]) {
                wt = wt + 2;
            }
        }
        total = total + wt;
        i = i + 1;
        if total >= 65535 {
            proof {
                lemma_changes_mono(rgba@, w as int, i as int, n as int);
            }
            return false;
        }
    }
    true
}

/// An RGB colour occurs in some pixel.
pub open spec fn rgb_present(p: Seq<u8>, r: u8, g: u8, b: u8) -> bool {
    exists|i: int| 0 <= i < p.len() / 4 && #[trigger] p[4 * i] == r && p[4 * i + 1] == g && p[4 * i + 2] == b
}

/// One of the six colours VTracer tries first as a transparency key (red,
/// green, blue, yellow, cyan, magenta) occurs in no pixel, so VTracer picks
/// it without drawing a random colour, and cannot fail.
pub open spec fn key_free(p: Seq<u8>) -> bool {
    ||| !rgb_present(p, 255, 0, 0)
    ||| !rgb_present(p, 0, 255, 0)
    ||| !rgb_present(p, 0, 0, 255)
    ||| !rgb_present(p, 255, 255, 0)
    ||| !rgb_present(p, 0, 255, 255)
    ||| !rgb_present(p, 255, 0, 255)
}

/// VTracer's colour run on these pixels is a function of its arguments: the
/// image is not keyed (at least three pixels wide, nothing transparent), or
/// its key colour is the first absent one of the six fixed candidates.
pub open spec fn color_determined(p: Seq<u8>, width: int) -> bool {
    (width >= 3 && all_opaque(p)) || key_free(p)
}

/// What VTracer answers when it cannot pick a key color for transparency.
pub open spec fn key_color_failure() -> Seq<char> {
    "unable to find unused color in image to use as key"@
}

/// The SVG that VTracer's binary mode, with its default settings, makes of a
/// `width` x `height` RGBA buffer.
pub uninterp spec fn binary_svg(pixels: Seq<u8>, width: usize, height: usize) -> Seq<char>;

/// The SVG that VTracer's stacked color mode, with the given knobs and its
/// default settings otherwise, makes of a `width` x `height` RGBA buffer on
/// which the run is determined (`color_determined`): unkeyed, or keyed with
/// the first absent fixed candidate colour.
pub uninterp spec fn color_svg(
    pixels: Seq<u8>,
    width: usize,
    height: usize,
    filter_speckle: usize,
    corner_threshold: i32,
    color_precision: i32,
    layer_difference: i32,
) -> Seq<char>;

/// `vtracer::convert` with `ColorMode::Binary` and `Config::default()` for the
/// rest, rendered with `to_string`. VTracer's binary path thresholds each
/// pixel, clusters and fits splines with no randomness and never returns an
/// error, so the text is named as a function of the pixels and the size.
/// Images past `trace_safe` are left out: there VTracer may panic.
#[verifier::external_body]
fn vtracer_binary(pixels: Vec<u8>, width: usize, height: usize) -> (r: Result<String, String>)
    requires
        rgba_fits(pixels@.len() as int, width as int, height as int),
        trace_safe(pixels@, width as int, height as int),
    ensures
        r is Ok,
        r matches Ok(s) ==> s@ == binary_svg(pixels@, width, height),
{
    let image = vtracer::ColorImage { pixels, width, height };
    let config = vtracer::Config { color_mode: vtracer::ColorMode::Binary, ..vtracer::Config::default() };
    match vtracer::convert(image, config) {
        Ok(svg) => Ok(svg.to_string()),
        Err(e) => Err(e),
    }
}

/// `vtracer::convert` with `ColorMode::Color`, `Hierarchical::Stacked`, the
/// given integer knobs and `Config::default()` for the rest, rendered with
/// `to_string`. When enough pixels are transparent VTracer keys them with a
/// color absent from the image, trying fixed colors and then random ones, so
/// the text of such a run is left unnamed. What the source shows of every
/// outcome: the only error is the key-color failure. An image at least three
/// pixels wide with no transparent pixel is never keyed; an image in which one
/// of the six fixed candidates (red, green, blue, yellow, cyan, magenta) does
/// not occur is keyed with the first such candidate. Either way the run always
/// converts, with no randomness, so its text is named `color_svg` of the
/// arguments. The precision must lie in 1..=8 (VTracer asserts
/// `8 - precision < 8` and shifts by it), the speckle side must square without
/// overflow, and images past `trace_safe` are left out (there VTracer may
/// panic).
#[verifier::external_body]
fn vtracer_color(
    pixels: Vec<u8>,
    width: usize,
    height: usize,
    filter_speckle: usize,
    corner_threshold: i32,
    color_precision: i32,
    layer_difference: i32,
) -> (r: Result<String, String>)
    requires
        rgba_fits(pixels@.len() as int, width as int, height as int),
        1 <= color_precision <= 8,
        filter_speckle <= 0xffff,
        trace_safe(pixels@, width as int, height as int),
    ensures
        r matches Err(e) ==> e@ == key_color_failure(),
        color_determined(pixels@, width as int) ==> r is Ok,
        r matches Ok(s) ==> (color_determined(pixels@, width as int) ==> s@ == color_svg(pixels@, width, height, filter_speckle, corner_threshold, color_precision, layer_difference)),
{
    let image = vtracer::ColorImage { pixels, width, height };
    let config = vtracer::Config {
        color_mode: vtracer::ColorMode::Color,
        hierarchical: vtracer::Hierarchical::Stacked,
        filter_speckle,
        corner_threshold,
        color_precision,
        layer_difference,
        ..vtracer::Config::default()
    };
    match vtracer::convert(image, config) {
        Ok(svg) => Ok(svg.to_string()),
        Err(e) => Err(e),
    }
}

/// The integer tracer knobs of one color run.
pub struct TraceKnobs {
    /// Speckle side length; VTracer squares it into an area.
    pub filter_speckle: usize,
    /// Corner threshold in degrees.
    pub corner_threshold: i32,
    /// Significant bits per channel, 1..=8.
    pub color_precision: i32,
    /// Color difference below which layers merge.
    pub layer_difference: i32,
}

pub open spec fn knobs_ok(k: TraceKnobs) -> bool {
    &&& 1 <= k.color_precision <= 8
    &&& k.filter_speckle <= 0xffff
}

/// The per-class ranges that `detail` interpolates: each pair is
/// (high-detail end, low-detail end).
pub struct KnobRanges {
    /// `filter_speckle` side length, (high-detail floor, low-detail ceiling).
    pub speckle: (usize, usize),
    /// Corner threshold in degrees, (high-detail, low-detail). Lower keeps
    /// more corners.
    pub corner: (i32, i32),
}

pub open spec fn spec_knob_ranges(class: Class) -> ((usize, usize), (i32, i32)) {
    match class {
        Class::Logo => ((1, 6), (40, 60)),
        Class::Illustration => ((2, 8), (40, 70)),
        Class::Photo => ((2, 12), (60, 100)),
    }
}

/// Logos stay sharp across the range; photos drop larger specks and round off
/// at low detail so smooth regions read as shapes.
pub fn knob_ranges(class: Class) -> (r: KnobRanges)
    ensures
        (r.speckle, r.corner) == spec_knob_ranges(class),
        r.speckle.0 <= r.speckle.1,
        r.corner.0 <= r.corner.1,
{
    match class {
        Class::Logo => KnobRanges { speckle: (1, 6), corner: (40, 60) },
        Class::Illustration => KnobRanges { speckle: (2, 8), corner: (40, 70) },
        Class::Photo => KnobRanges { speckle: (2, 12), corner: (60, 100) },
    }
}

/// Check that `rgba` holds `width * height` pixels and hand back a copy for
/// the tracer.
fn color_image(rgba: &[u8], width: u32, height: u32) -> (r: Result<Vec<u8>, Error>)
    ensures
        rgba_fits(rgba@.len() as int, width as int, height as int) ==> (r matches Ok(p) && p@ == rgba@),
        !rgba_fits(rgba@.len() as int, width as int, height as int) ==> r == Err::<Vec<u8>, Error>(
            Error::Dimensions { width, height, len: rgba@.len() as usize },
        ),
{
    proof {
        assert((width as int) * (height as int) <= 0xffff_ffff * 0xffff_ffff) by (nonlinear_arith)
            requires width <= 0xffff_ffff, height <= 0xffff_ffff;
    }
    let len = rgba.len();
    let prod = (width as u64) * (height as u64);
    if len % 4 != 0 || (len / 4) as u64 != prod {
        return Err(Error::Dimensions { width, height, len });
    }
    let mut out: Vec<u8> = Vec::new();
    let mut i: usize = 0;
    while i < len
        invariant
            len == rgba@.len(),
            i <= len,
            out@ == rgba@.take(i as int),
        decreases len - i,
    {
        out.push(rgba[i]);
        i = i + 1;
        assert(out@ =~= rgba@.take(i as int));
    }
    assert(out@ =~= rgba@);
    Ok(out)
}

/// Single-color threshold trace for black-and-white mode: VTracer's defaults
/// with only the color mode flipped to binary.
pub fn trace_binary(rgba: &[u8], width: u32, height: u32) -> (r: Result<String, Error>)
    requires
        rgba_fits(rgba@.len() as int, width as int, height as int) ==> trace_safe(
            rgba@,
            width as int,
            height as int,
        ),
    ensures
        !rgba_fits(rgba@.len() as int, width as int, height as int) ==> r == Err::<String, Error>(
            Error::Dimensions { width, height, len: rgba@.len() as usize },
        ),
        rgba_fits(rgba@.len() as int, width as int, height as int) ==> (r matches Ok(s) && s@
            == binary_svg(rgba@, width as usize, height as usize)),
{
    let pixels = match color_image(rgba, width, height) {
        Ok(p) => p,
        Err(e) => return Err(e),
    };
    match vtracer_binary(pixels, width as usize, height as usize) {
        Ok(svg) => Ok(svg),
        Err(msg) => Err(Error::Trace(msg)),
    }
}

/// Color trace of a quantized buffer with the given knobs. The only tracer
/// failure is VTracer's key-color failure, reported as `Error::Trace`. An
/// image on which VTracer's run is determined (opaque and at least three
/// pixels wide, or missing one of the six candidate key colours) always
/// traces, to the text that VTracer makes of exactly these pixels and knobs.
pub fn trace_color(rgba: &[u8], width: u32, height: u32, knobs: &TraceKnobs) -> (r: Result<
    String,
    Error,
>)
    requires
        knobs_ok(*knobs),
        rgba_fits(rgba@.len() as int, width as int, height as int) ==> trace_safe(
            rgba@,
            width as int,
            height as int,
        ),
    ensures
        !rgba_fits(rgba@.len() as int, width as int, height as int) ==> r == Err::<String, Error>(
            Error::Dimensions { width, height, len: rgba@.len() as usize },
        ),
        rgba_fits(rgba@.len() as int, width as int, height as int) ==> match r {
            Ok(_) => true,
            Err(Error::Trace(m)) => m@ == key_color_failure(),
            Err(_) => false,
        },
        rgba_fits(rgba@.len() as int, width as int, height as int) && color_determined(
            rgba@,
            width as int,
        ) ==> (r matches Ok(s) && s@ == color_svg(
            rgba@,
            width as usize,
            height as usize,
            knobs.filter_speckle,
            knobs.corner_threshold,
            knobs.color_precision,
            knobs.layer_difference,
        )),
{
    let pixels = match color_image(rgba, width, height) {
        Ok(p) => p,
        Err(e) => return Err(e),
    };
    match vtracer_color(
        pixels,
        width as usize,
        height as usize,
        knobs.filter_speckle,
        knobs.corner_threshold,
        knobs.color_precision,
        knobs.layer_difference,
    ) {
        Ok(svg) => Ok(svg),
        Err(msg) => Err(Error::Trace(msg)),
    }
}

} // verus!
