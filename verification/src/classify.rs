//! Route an image to Logo / Illustration / Photo from two cheap signals:
//! how many distinct colors it has and how much of it is edge.
//!
//! The classifier only needs to be roughly right: it picks tracer defaults and
//! palette sizes, and the caller can always override it.
use vstd::prelude::*;
use crate::options::Class;
use vstd::set_lib::{set_int_range, lemma_int_range, lemma_len_subset};

verus! {

/// Downsample factor for the color-count pass.
pub const SAMPLE_STEP: u32 = 4;

/// A logo has at most this many distinct (bucketed) colors.
pub const LOGO_MAX_COLORS: usize = 32;

/// A photo has at least this many distinct (bucketed) colors.
pub const PHOTO_MIN_COLORS: usize = 1024;

/// Squared Sobel magnitude, on luma scaled by 1000, at or above which a pixel
/// counts as an edge: a magnitude of 48 on the 0..~1448 luma scale.
pub const EDGE_MAGNITUDE_SQ_SCALED: i64 = 2_304_000_000;

/// An image is "sharp" when at least one tenth of its interior pixels are edges.
pub const HIGH_EDGE_DENSITY_DENOM: u64 = 10;

/// The 4-bit-per-channel bucket (0..4096) of the pixel whose bytes start at `i`.
pub open spec fn bucket_at(rgba: Seq<u8>, i: int) -> int {
    (rgba[i] / 16) as int * 256 + (rgba[i + 1] / 16) as int * 16 + (rgba[i + 2] / 16) as int
}

/// `(x, y)` is on the sampling grid of the color-count pass and opaque.
pub open spec fn sampled_opaque(rgba: Seq<u8>, w: int, h: int, x: int, y: int) -> bool {
    &&& 0 <= y < h
    &&& 0 <= x < w
    &&& y % 4 == 0
    &&& x % 4 == 0
    &&& rgba[(y * w + x) * 4 + 3] != 0
}

/// The color buckets met on the sampling grid.
pub open spec fn sampled_buckets(rgba: Seq<u8>, w: int, h: int) -> Set<int> {
    Set::new(
        |k: int|
            exists|x: int, y: int| #[trigger] sampled_opaque(rgba, w, h, x, y) && bucket_at(rgba, (y * w + x) * 4) == k,
    )
}

/// Luma of pixel `(x, y)`, scaled by 1000 so it is an exact integer.
pub open spec fn luma(rgba: Seq<u8>, w: int, x: int, y: int) -> int {
    let i = (y * w + x) * 4;
    299 * rgba[i] + 587 * rgba[i + 1] + 114 * rgba[i + 2]
}

/// Squared Sobel gradient magnitude (scaled) at interior pixel `(x, y)`.
pub open spec fn sobel_sq(rgba: Seq<u8>, w: int, x: int, y: int) -> int {
    let l = |dx: int, dy: int| luma(rgba, w, x + dx, y + dy);
    let gx = (l(1, -1) + 2 * l(1, 0) + l(1, 1)) - (l(-1, -1) + 2 * l(-1, 0) + l(-1, 1));
    let gy = (l(-1, 1) + 2 * l(0, 1) + l(1, 1)) - (l(-1, -1) + 2 * l(0, -1) + l(1, -1));
    gx * gx + gy * gy
}

pub open spec fn is_edge(rgba: Seq<u8>, w: int, x: int, y: int) -> bool {
    sobel_sq(rgba, w, x, y) >= EDGE_MAGNITUDE_SQ_SCALED
}

/// Edge pixels in row `y` among columns `1 .. x_end`.
pub open spec fn row_edges(rgba: Seq<u8>, w: int, y: int, x_end: int) -> nat
    decreases x_end,
{
    if x_end <= 1 {
        0
    } else {
        row_edges(rgba, w, y, x_end - 1) + if is_edge(rgba, w, x_end - 1, y) {
            1nat
        } else {
            0nat
        }
    }
}

/// Edge pixels in rows `1 .. y_end`, interior columns only.
pub open spec fn edge_count(rgba: Seq<u8>, w: int, y_end: int) -> nat
    decreases y_end,
{
    if y_end <= 1 {
        0
    } else {
        edge_count(rgba, w, y_end - 1) + row_edges(rgba, w, y_end - 1, w - 1)
    }
}

/// At least a tenth of the interior pixels are edges (never for images
/// narrower or shorter than 3 pixels, which have no interior).
pub open spec fn sharp_edges(rgba: Seq<u8>, w: int, h: int) -> bool {
    w >= 3 && h >= 3 && HIGH_EDGE_DENSITY_DENOM * edge_count(rgba, w, h - 1) >= (w - 2) * (h - 2)
}

/// The class that the two signals select.
pub open spec fn class_for(colors: int, sharp: bool) -> Class {
    if colors <= LOGO_MAX_COLORS && sharp {
        Class::Logo
    } else if colors >= PHOTO_MIN_COLORS && sharp {
        Class::Photo
    } else {
        Class::Illustration
    }
}

/// The classes follow the two signals: a photo has at least 1024 sampled
/// color buckets and sharp edges (at least a tenth of the interior pixels are
/// edges), a logo at most 32 buckets and sharp edges, and an image without sharp edges
/// is an illustration whatever its color count (a smooth ramp with thousands
/// of colors is not a photo).
pub proof fn law_class_signals(rgba: Seq<u8>, w: int, h: int)
    ensures
        ({
            let colors = sampled_buckets(rgba, w, h).len() as int;
            let sharp = sharp_edges(rgba, w, h);
            let c = class_for(colors, sharp);
            &&& c == Class::Photo <==> (sharp && colors >= 1024)
            &&& c == Class::Logo <==> (sharp && colors <= 32)
            &&& !sharp ==> c == Class::Illustration
            &&& sharp <==> (w >= 3 && h >= 3 && 10 * edge_count(rgba, w, h - 1) >= (w - 2) * (h - 2))
        }),
{
}

/// Every pixel of the `w x h` image has the colour of the first one.
pub open spec fn uniform_color(rgba: Seq<u8>, w: int, h: int) -> bool {
    forall|p: int|
        0 <= p < w * h ==> #[trigger] rgba[p * 4] == rgba[0] && rgba[p * 4 + 1] == rgba[1] && rgba[p * 4 + 2]
            == rgba[2]
}

proof fn lemma_uniform_luma(rgba: Seq<u8>, w: int, h: int, x: int, y: int)
    requires
        uniform_color(rgba, w, h),
        0 <= x < w,
        0 <= y < h,
    ensures
        luma(rgba, w, x, y) == 299 * rgba[0] + 587 * rgba[1] + 114 * rgba[2],
{
    let p = y * w + x;
    assert(0 <= y * w) by (nonlinear_arith)
        requires 0 <= y, 0 <= w;
    assert(p < w * h) by (nonlinear_arith)
        requires 0 <= x < w, 0 <= y < h, p == y * w + x;
    assert(rgba[p * 4] == rgba[0]);
}

proof fn lemma_uniform_rows(rgba: Seq<u8>, w: int, h: int, y: int, x_end: int)
    requires
        uniform_color(rgba, w, h),
        1 <= y < h - 1,
        x_end <= w - 1,
    ensures
        row_edges(rgba, w, y, x_end) == 0,
    decreases x_end,
{
    if x_end > 1 {
        lemma_uniform_rows(rgba, w, h, y, x_end - 1);
        let x = x_end - 1;
        lemma_uniform_luma(rgba, w, h, x - 1, y - 1);
        lemma_uniform_luma(rgba, w, h, x, y - 1);
        lemma_uniform_luma(rgba, w, h, x + 1, y - 1);
        lemma_uniform_luma(rgba, w, h, x - 1, y);
        lemma_uniform_luma(rgba, w, h, x + 1, y);
        lemma_uniform_luma(rgba, w, h, x - 1, y + 1);
        lemma_uniform_luma(rgba, w, h, x, y + 1);
        lemma_uniform_luma(rgba, w, h, x + 1, y + 1);
        let l = |dx: int, dy: int| luma(rgba, w, x + dx, y + dy);
        let c = 299 * rgba[0] + 587 * rgba[1] + 114 * rgba[2];
        assert(l(-1, -1) == c && l(0, -1) == c && l(1, -1) == c && l(-1, 0) == c && l(1, 0) == c);
        assert(l(-1, 1) == c && l(0, 1) == c && l(1, 1) == c);
        let gx = (l(1, -1) + 2 * l(1, 0) + l(1, 1)) - (l(-1, -1) + 2 * l(-1, 0) + l(-1, 1));
        let gy = (l(-1, 1) + 2 * l(0, 1) + l(1, 1)) - (l(-1, -1) + 2 * l(0, -1) + l(1, -1));
        assert(gx == 0 && gy == 0);
        assert(sobel_sq(rgba, w, x, y) == gx * gx + gy * gy);
        assert(sobel_sq(rgba, w, x, y) == 0);
    }
}

proof fn lemma_uniform_edges(rgba: Seq<u8>, w: int, h: int, y_end: int)
    requires
        uniform_color(rgba, w, h),
        y_end <= h - 1,
    ensures
        edge_count(rgba, w, y_end) == 0,
    decreases y_end,
{
    if y_end > 1 {
        lemma_uniform_edges(rgba, w, h, y_end - 1);
        lemma_uniform_rows(rgba, w, h, y_end - 1, w - 1);
    }
}

/// An image of one colour has no edges, so it is never sharp and is always
/// classified an illustration.
pub proof fn law_flat_image_is_illustration(rgba: Seq<u8>, w: int, h: int)
    requires
        uniform_color(rgba, w, h),
    ensures
        !sharp_edges(rgba, w, h),
        class_for(sampled_buckets(rgba, w, h).len() as int, sharp_edges(rgba, w, h)) == Class::Illustration,
{
    if w >= 3 && h >= 3 {
        lemma_uniform_edges(rgba, w, h, h - 1);
        assert((w - 2) * (h - 2) > 0) by (nonlinear_arith)
            requires w >= 3, h >= 3;
    }
}

/// Pixel buffers that the classifier reads: RGBA rows whose byte offsets fit
/// the 32-bit index arithmetic of the scan.
pub open spec fn classifiable(rgba: Seq<u8>, w: int, h: int) -> bool {
    &&& rgba.len() >= w * h * 4
    &&& w * h * 4 <= u32::MAX + 1
}

proof fn lemma_pixel_in_range(w: int, h: int, x: int, y: int)
    requires
        0 <= x < w,
        0 <= y < h,
    ensures
        0 <= y * w + x,
        (y * w + x) * 4 + 3 < w * h * 4,
{
    assert(y * w + x < w * h) by (nonlinear_arith)
        requires 0 <= x < w, 0 <= y < h;
    assert(0 <= y * w) by (nonlinear_arith)
        requires 0 <= y, 0 <= w;
}

pub fn classify(rgba: &[u8], width: u32, height: u32) -> (class: Class)
    requires
        classifiable(rgba@, width as int, height as int),
    ensures
        class == class_for(
            sampled_buckets(rgba@, width as int, height as int).len() as int,
            sharp_edges(rgba@, width as int, height as int),
        ),
{
    let colors = unique_color_estimate(rgba, width, height);
    let sharp = sobel_sharp(rgba, width, height);

    let many_colors = colors >= PHOTO_MIN_COLORS;
    let few_colors = colors <= LOGO_MAX_COLORS;

    if few_colors && sharp {
        Class::Logo
    } else if many_colors && sharp {
        Class::Photo
    } else {
        Class::Illustration
    }
}

/// Count the distinct 4-bit-per-channel color buckets on a 4x4 sampling grid.
pub fn unique_color_estimate(rgba: &[u8], width: u32, height: u32) -> (count: usize)
    requires
        classifiable(rgba@, width as int, height as int),
    ensures
        sampled_buckets(rgba@, width as int, height as int).finite(),
        count == sampled_buckets(rgba@, width as int, height as int).len(),
{
    let ghost w = width as int;
    let ghost h = height as int;
    let mut seen: Vec<bool> = Vec::new();
    let mut k: usize = 0;
    while k < 4096
        invariant
            k <= 4096,
            seen@.len() == k,
            forall|j: int| 0 <= j < k ==> !#[trigger] seen@[j],
        decreases 4096 - k,
    {
        seen.push(false);
        k = k + 1;
    }
    let ghost mut found: Set<int> = Set::empty();
    let mut count: usize = 0;
    let mut y: u64 = 0;
    // `found` holds the buckets of sampled opaque pixels in rows before `y`,
    // and, within row `y`, in columns before `x`.
    while y < height as u64
        invariant
            w == width as int,
            h == height as int,
            classifiable(rgba@, w, h),
            y % 4 == 0,
            y <= h + 3,
            seen@.len() == 4096,
            found.finite(),
            count == found.len(),
            count <= 4096,
            forall|j: int| 0 <= j < 4096 ==> (#[trigger] seen@[j] <==> found.contains(j)),
            forall|j: int| #[trigger] found.contains(j) ==> 0 <= j < 4096,
            found == Set::new(
                |kk: int|
                    exists|xx: int, yy: int|
                        #[trigger] sampled_opaque(rgba@, w, h, xx, yy) && yy < y && bucket_at(rgba@, (yy * w + xx) * 4)
                            == kk,
            ),
        decreases h + 4 - y,
    {
        let mut x: u64 = 0;
        while x < width as u64
            invariant
                w == width as int,
                h == height as int,
                classifiable(rgba@, w, h),
                y % 4 == 0,
                y < h,
                x % 4 == 0,
                x <= w + 3,
                seen@.len() == 4096,
                found.finite(),
                count == found.len(),
                count <= 4096,
                forall|j: int| 0 <= j < 4096 ==> (#[trigger] seen@[j] <==> found.contains(j)),
                forall|j: int| #[trigger] found.contains(j) ==> 0 <= j < 4096,
                found == Set::new(
                    |kk: int|
                        exists|xx: int, yy: int|
                            #[trigger] sampled_opaque(rgba@, w, h, xx, yy) && (yy < y || (yy == y && xx < x))
                                && bucket_at(rgba@, (yy * w + xx) * 4) == kk,
                ),
            decreases w + 4 - x,
        {
            proof {
                lemma_pixel_in_range(w, h, x as int, y as int);
            }
            let i = ((y * width as u64 + x) * 4) as usize;
            let ghost before = found;
            if rgba[i + 3] != 0 {
                let key = (rgba[i] / 16) as usize * 256 + (rgba[i + 1] / 16) as usize * 16 + (rgba[i + 2]
                    / 16) as usize;
                proof {
                    assert(key == bucket_at(rgba@, (y * w + x) * 4));
                    assert(sampled_opaque(rgba@, w, h, x as int, y as int));
                }
                if !seen[key] {
                    seen.set(key, true);
                    proof {
                        found = found.insert(key as int);
                        lemma_int_range(0, 4096);
                        assert(found.subset_of(set_int_range(0, 4096)));
                        lemma_len_subset(found, set_int_range(0, 4096));
                    }
                    count = count + 1;
                }
            }
            proof {
                assert forall|kk: int| #[trigger] found.contains(kk) <==> (exists|xx: int, yy: int|
                    #[trigger] sampled_opaque(rgba@, w, h, xx, yy) && (yy < y || (yy == y && xx < x + 4))
                        && bucket_at(rgba@, (yy * w + xx) * 4) == kk) by {
                    if exists|xx: int, yy: int|
                        #[trigger] sampled_opaque(rgba@, w, h, xx, yy) && (yy < y || (yy == y && xx < x + 4))
                            && bucket_at(rgba@, (yy * w + xx) * 4) == kk {
                        let (xx, yy) = choose|xx: int, yy: int|
                            #[trigger] sampled_opaque(rgba@, w, h, xx, yy) && (yy < y || (yy == y && xx < x + 4))
                                && bucket_at(rgba@, (yy * w + xx) * 4) == kk;
                        if !(yy < y || (yy == y && xx < x)) {
                            assert(xx == x);
                        } else {
                            assert(before.contains(kk));
                        }
                    }
                    if before.contains(kk) {
                        let (xx, yy) = choose|xx: int, yy: int|
                            #[trigger] sampled_opaque(rgba@, w, h, xx, yy) && (yy < y || (yy == y && xx < x))
                                && bucket_at(rgba@, (yy * w + xx) * 4) == kk;
                        assert(sampled_opaque(rgba@, w, h, xx, yy) && (yy < y || (yy == y && xx < x + 4)));
                    }
                }
                assert(found =~= Set::new(
                    |kk: int|
                        exists|xx: int, yy: int|
                            #[trigger] sampled_opaque(rgba@, w, h, xx, yy) && (yy < y || (yy == y && xx < x + 4))
                                && bucket_at(rgba@, (yy * w + xx) * 4) == kk,
                ));
            }
            x = x + 4;
        }
        proof {
            assert(found =~= Set::new(
                |kk: int|
                    exists|xx: int, yy: int|
                        #[trigger] sampled_opaque(rgba@, w, h, xx, yy) && yy < y + 4 && bucket_at(rgba@, (yy * w + xx) * 4)
                            == kk,
            )) by {
                assert forall|kk: int| #[trigger] found.contains(kk) <==> (exists|xx: int, yy: int|
                    #[trigger] sampled_opaque(rgba@, w, h, xx, yy) && yy < y + 4 && bucket_at(rgba@, (yy * w + xx) * 4)
                        == kk) by {
                    if exists|xx: int, yy: int|
                        #[trigger] sampled_opaque(rgba@, w, h, xx, yy) && yy < y + 4 && bucket_at(rgba@, (yy * w + xx) * 4)
                            == kk {
                        let (xx, yy) = choose|xx: int, yy: int|
                            #[trigger] sampled_opaque(rgba@, w, h, xx, yy) && yy < y + 4 && bucket_at(rgba@, (yy * w + xx) * 4)
                                == kk;
                        assert(yy < y || (yy == y && xx < x));
                    }
                }
            }
        }
        y = y + 4;
    }
    proof {
        assert(found =~= sampled_buckets(rgba@, w, h)) by {
            assert forall|kk: int| #[trigger] found.contains(kk) <==> sampled_buckets(rgba@, w, h).contains(kk) by {
                if sampled_buckets(rgba@, w, h).contains(kk) {
                    let (xx, yy) = choose|xx: int, yy: int|
                        #[trigger] sampled_opaque(rgba@, w, h, xx, yy) && bucket_at(rgba@, (yy * w + xx) * 4) == kk;
                    assert(yy < y);
                }
            }
        }
    }
    count
}

/// Scaled luma of the pixel whose bytes start at `i`.
fn luma_at(rgba: &[u8], i: usize) -> (l: i64)
    requires
        i + 2 < rgba@.len(),
    ensures
        l == 299 * rgba@[i as int] + 587 * rgba@[i + 1] + 114 * rgba@[i + 2],
        0 <= l <= 255000,
{
    299 * rgba[i] as i64 + 587 * rgba[i + 1] as i64 + 114 * rgba[i + 2] as i64
}

/// Scaled luma of pixel `(x, y)`.
fn luma_xy(rgba: &[u8], w: usize, h: usize, x: usize, y: usize) -> (l: i64)
    requires
        classifiable(rgba@, w as int, h as int),
        x < w,
        y < h,
    ensures
        l == luma(rgba@, w as int, x as int, y as int),
        0 <= l <= 255000,
{
    proof {
        lemma_pixel_in_range(w as int, h as int, x as int, y as int);
        assert(y * w <= (h - 1) * w) by (nonlinear_arith)
            requires y < h;
    }
    luma_at(rgba, (y * w + x) * 4)
}

/// Squared Sobel magnitude (scaled) at interior pixel `(x, y)`.
fn sobel_at(rgba: &[u8], w: usize, h: usize, x: usize, y: usize) -> (s: i64)
    requires
        classifiable(rgba@, w as int, h as int),
        1 <= x < w - 1,
        1 <= y < h - 1,
    ensures
        s == sobel_sq(rgba@, w as int, x as int, y as int),
{
    let a = luma_xy(rgba, w, h, x - 1, y - 1);
    let b = luma_xy(rgba, w, h, x, y - 1);
    let c = luma_xy(rgba, w, h, x + 1, y - 1);
    let d = luma_xy(rgba, w, h, x - 1, y);
    let f = luma_xy(rgba, w, h, x + 1, y);
    let g = luma_xy(rgba, w, h, x - 1, y + 1);
    let k = luma_xy(rgba, w, h, x, y + 1);
    let m = luma_xy(rgba, w, h, x + 1, y + 1);
    let gx = (c + 2 * f + m) - (a + 2 * d + g);
    let gy = (g + 2 * k + m) - (a + 2 * b + c);
    proof {
        assert(gx * gx <= 1_040_400_000_000) by (nonlinear_arith)
            requires -1_020_000 <= gx <= 1_020_000;
        assert(gy * gy <= 1_040_400_000_000) by (nonlinear_arith)
            requires -1_020_000 <= gy <= 1_020_000;
        assert(gx * gx >= 0) by (nonlinear_arith);
        assert(gy * gy >= 0) by (nonlinear_arith);
    }
    gx * gx + gy * gy
}

/// Whether at least a tenth of the interior pixels have a Sobel magnitude of
/// 48 or more on luma.
pub fn sobel_sharp(rgba: &[u8], width: u32, height: u32) -> (sharp: bool)
    requires
        classifiable(rgba@, width as int, height as int),
    ensures
        sharp == sharp_edges(rgba@, width as int, height as int),
{
    if width < 3 || height < 3 {
        return false;
    }
    let ghost wi = width as int;
    let ghost hi = height as int;
    let w = width as usize;
    let h = height as usize;
    proof {
        assert(wi * hi <= 0x4000_0000);
    }
    let mut edges: u64 = 0;
    let mut y: usize = 1;
    while y < h - 1
        invariant
            wi == width as int,
            hi == height as int,
            w == width as usize,
            h == height as usize,
            w >= 3,
            h >= 3,
            wi * hi <= 0x4000_0000,
            classifiable(rgba@, wi, hi),
            1 <= y <= h - 1,
            edges == edge_count(rgba@, wi, y as int),
            edges <= (y as int) * wi,
        decreases h - y,
    {
        let mut row: u64 = 0;
        let mut x: usize = 1;
        while x < w - 1
            invariant
                wi == width as int,
                hi == height as int,
                w == width as usize,
                h == height as usize,
                w >= 3,
                h >= 3,
                classifiable(rgba@, wi, hi),
                1 <= y < h - 1,
                1 <= x <= w - 1,
                row == row_edges(rgba@, wi, y as int, x as int),
                row <= x,
            decreases w - x,
        {
            let s = sobel_at(rgba, w, h, x, y);
            if s >= EDGE_MAGNITUDE_SQ_SCALED {
                row = row + 1;
            }
            x = x + 1;
        }
        proof {
            assert(edges + row <= (y as int + 1) * wi) by (nonlinear_arith)
                requires edges <= (y as int) * wi, row <= wi;
            assert((y as int + 1) * wi <= hi * wi) by (nonlinear_arith)
                requires y as int + 1 <= hi, wi >= 0;
        }
        edges = edges + row;
        y = y + 1;
    }
    proof {
        assert((w - 2) * (h - 2) <= wi * hi) by (nonlinear_arith)
            requires w >= 3, h >= 3, w == wi, h == hi;
        assert(edges <= wi * hi) by (nonlinear_arith)
            requires edges <= (y as int) * wi, y <= hi, wi >= 0;
    }
    let total = ((w - 2) * (h - 2)) as u64;
    HIGH_EDGE_DENSITY_DENOM * edges >= total
}

} // verus!
