//! Pre-stage cleanup before quantization.
//!
//! The goal is to throw away detail the source never meant as real regions:
//! anti-alias halos and compression noise. We collapse low-order color bits and
//! optionally smooth, while keeping alpha as a true channel so transparent
//! pixels are never silently composited onto white.
use vstd::prelude::*;
use crate::options::Class;

verus! {

/// Mask that keeps the six significant bits of a color channel.
pub const CHANNEL_MASK: u8 = 0xFC;

/// Every color byte of a whole pixel loses its two low bits; alpha, and any
/// trailing bytes that do not form a whole pixel, are kept.
pub open spec fn reduced(rgba: Seq<u8>) -> Seq<u8> {
    Seq::new(
        rgba.len(),
        |i: int|
            if i < (rgba.len() / 4) * 4 && i % 4 != 3 {
                rgba[i] & CHANNEL_MASK
            } else {
                rgba[i]
            },
    )
}

/// Alpha-weighted contribution of neighbour `(x + dx, y + dy)` to channel `c`
/// (`c == 3` gives the weight itself); zero outside the image.
pub open spec fn neighbour_term(rgba: Seq<u8>, w: int, h: int, x: int, y: int, dx: int, dy: int, c: int) -> int {
    let nx = x + dx;
    let ny = y + dy;
    if 0 <= nx < w && 0 <= ny < h {
        let i = (ny * w + nx) * 4;
        if c == 3 {
            rgba[i + 3] as int
        } else {
            rgba[i + c] * rgba[i + 3]
        }
    } else {
        0
    }
}

/// Sum of the 3x3 window terms for channel `c` (`c == 3`: total weight).
pub open spec fn window_sum(rgba: Seq<u8>, w: int, h: int, x: int, y: int, c: int) -> int {
    let t = |dx: int, dy: int| neighbour_term(rgba, w, h, x, y, dx, dy, c);
    t(-1, -1) + t(0, -1) + t(1, -1) + t(-1, 0) + t(0, 0) + t(1, 0) + t(-1, 1) + t(0, 1) + t(1, 1)
}

/// The alpha-weighted 3x3 average of channel `c` at `(x, y)`, rounded half
/// up; the pixel keeps its value when no neighbour is opaque.
pub open spec fn smoothed_channel(rgba: Seq<u8>, w: int, h: int, x: int, y: int, c: int) -> int {
    let weight = window_sum(rgba, w, h, x, y, 3);
    if weight > 0 {
        (2 * window_sum(rgba, w, h, x, y, c) + weight) / (2 * weight)
    } else {
        rgba[(y * w + x) * 4 + c] as int
    }
}

/// The smoothed image: color channels of the `w x h` pixels are averaged,
/// alpha and any bytes past the image are kept. Images narrower or shorter
/// than 3 pixels are returned unchanged.
pub open spec fn smoothed(rgba: Seq<u8>, w: int, h: int) -> Seq<u8> {
    if w < 3 || h < 3 {
        rgba
    } else {
        Seq::new(
            rgba.len(),
            |i: int|
                if i < w * h * 4 && i % 4 != 3 {
                    smoothed_channel(rgba, w, h, (i / 4) % w, (i / 4) / w, i % 4) as u8
                } else {
                    rgba[i]
                },
        )
    }
}

/// What `preclean` returns: reduced bit depth, then smoothing unless the image
/// is a logo.
pub open spec fn precleaned(rgba: Seq<u8>, w: int, h: int, class: Class) -> Seq<u8> {
    if class != Class::Logo {
        smoothed(reduced(rgba), w, h)
    } else {
        reduced(rgba)
    }
}

/// Alpha is a true channel: pre-cleaning keeps the size of the buffer and the
/// alpha byte of every pixel, so transparent pixels stay transparent.
pub proof fn law_preclean_keeps_alpha(rgba: Seq<u8>, w: int, h: int, class: Class)
    ensures
        precleaned(rgba, w, h, class).len() == rgba.len(),
        forall|i: int|
            0 <= i < rgba.len() && i % 4 == 3 ==> #[trigger] precleaned(rgba, w, h, class)[i] == rgba[i],
{
    let r = reduced(rgba);
    assert forall|i: int| 0 <= i < rgba.len() && i % 4 == 3 implies #[trigger] r[i] == rgba[i] by {}
    assert forall|i: int|
        0 <= i < rgba.len() && i % 4 == 3 implies #[trigger] smoothed(r, w, h)[i] == r[i] by {}
}

/// Only logos skip smoothing: every other class (illustrations as well as
/// photos) gets the same treatment, the 3x3 alpha-weighted smoothing of the
/// bit-reduced image, while a logo gets the bit reduction alone.
pub proof fn law_only_logos_skip_smoothing(rgba: Seq<u8>, w: int, h: int, class: Class)
    ensures
        class != Class::Logo ==> precleaned(rgba, w, h, class) == smoothed(reduced(rgba), w, h),
        class == Class::Logo ==> precleaned(rgba, w, h, class) == reduced(rgba),
        precleaned(rgba, w, h, Class::Illustration) == precleaned(rgba, w, h, Class::Photo),
{
}

/// Bit reduction drops exactly the two low bits of every color byte: each
/// becomes the largest multiple of 4 not above it, so it moves by at most 3.
pub proof fn law_reduce_drops_two_bits(rgba: Seq<u8>, i: int)
    requires
        0 <= i < (rgba.len() / 4) * 4,
        i % 4 != 3,
    ensures
        reduced(rgba)[i] == rgba[i] - rgba[i] % 4,
        reduced(rgba)[i] % 4 == 0,
        rgba[i] - 3 <= reduced(rgba)[i] <= rgba[i],
{
    let b = rgba[i];
    assert(b & 0xFCu8 == b - b % 4) by (bit_vector);
}

/// Dropping the low bits is idempotent: cleaning an already reduced buffer
/// changes nothing.
pub proof fn law_reduce_idempotent(rgba: Seq<u8>)
    ensures
        reduced(reduced(rgba)) == reduced(rgba),
{
    let r = reduced(rgba);
    assert forall|i: int| 0 <= i < rgba.len() implies #[trigger] reduced(r)[i] == r[i] by {
        if i < (rgba.len() / 4) * 4 && i % 4 != 3 {
            let b = rgba[i];
            assert((b & 0xFCu8) & 0xFCu8 == b & 0xFCu8) by (bit_vector);
        }
    }
    assert(reduced(r) =~= r);
}

pub fn preclean(rgba: &[u8], width: u32, height: u32, class: Class) -> (out: Vec<u8>)
    requires
        class != Class::Logo && width >= 3 && height >= 3 ==> rgba@.len() >= width as int * height as int
            * 4,
    ensures
        out@ == precleaned(rgba@, width as int, height as int, class),
{
    let mut out = reduce_bit_depth(rgba);
    // Logos are crisp by construction; smoothing would only round their corners.
    if class != Class::Logo {
        out = box_smooth(&out, width, height);
    }
    out
}

pub fn reduce_bit_depth(rgba: &[u8]) -> (out: Vec<u8>)
    ensures
        out@ == reduced(rgba@),
{
    let n = rgba.len();
    let whole = n / 4 * 4;
    let mut out: Vec<u8> = Vec::new();
    let mut i: usize = 0;
    while i < n
        invariant
            n == rgba@.len(),
            whole == (n / 4) * 4,
            i <= n,
            out@ == reduced(rgba@).take(i as int),
        decreases n - i,
    {
        let b = rgba[i];
        // px[3] (alpha) is left untouched: it is a real channel, not color.
        if i < whole && i % 4 != 3 {
            out.push(b & CHANNEL_MASK);
        } else {
            out.push(b);
        }
        i = i + 1;
        assert(out@ =~= reduced(rgba@).take(i as int));
    }
    assert(out@ =~= reduced(rgba@));
    out
}

proof fn lemma_pixel_offset(w: int, h: int, x: int, y: int, c: int)
    requires
        0 <= x < w,
        0 <= y < h,
        0 <= c < 4,
    ensures
        ((y * w + x) * 4 + c) / 4 == y * w + x,
        ((y * w + x) * 4 + c) % 4 == c,
        (y * w + x) % w == x,
        (y * w + x) / w == y,
        0 <= (y * w + x) * 4 + c < w * h * 4,
{
    vstd::arithmetic::div_mod::lemma_fundamental_div_mod_converse((y * w + x) * 4 + c, 4, y * w + x, c);
    assert(0 <= y * w) by (nonlinear_arith)
        requires 0 <= y, 0 <= w;
    vstd::arithmetic::div_mod::lemma_fundamental_div_mod_converse(y * w + x, w, y, x);
    assert(y * w + x < w * h) by (nonlinear_arith)
        requires 0 <= x < w, 0 <= y < h;
}

/// Byte `c` of pixel `(x, y)` of a row-major RGBA buffer of width `w`.
pub open spec fn pixel_byte(img: Seq<u8>, w: int, x: int, y: int, c: int) -> int {
    img[(y * w + x) * 4 + c] as int
}

/// Every pixel of the image within one step of `(x, y)` (diagonals included)
/// is transparent or holds `v` in channel `c`.
pub open spec fn flat_window(img: Seq<u8>, w: int, h: int, x: int, y: int, c: int, v: int) -> bool {
    forall|a: int, b: int|
        x - 1 <= a <= x + 1 && y - 1 <= b <= y + 1 && 0 <= a < w && 0 <= b < h ==> #[trigger] pixel_byte(
            img,
            w,
            a,
            b,
            3,
        ) == 0 || pixel_byte(img, w, a, b, c) == v
}

proof fn lemma_flat_term(img: Seq<u8>, w: int, h: int, x: int, y: int, dx: int, dy: int, c: int, v: int)
    requires
        flat_window(img, w, h, x, y, c, v),
        -1 <= dx <= 1,
        -1 <= dy <= 1,
        0 <= c < 3,
    ensures
        neighbour_term(img, w, h, x, y, dx, dy, c) == v * neighbour_term(img, w, h, x, y, dx, dy, 3),
{
    let nx = x + dx;
    let ny = y + dy;
    if 0 <= nx < w && 0 <= ny < h {
        assert(pixel_byte(img, w, nx, ny, 3) == 0 || pixel_byte(img, w, nx, ny, c) == v);
        let a = img[(ny * w + nx) * 4 + 3] as int;
        let b = img[(ny * w + nx) * 4 + c] as int;
        if a == 0 {
            assert(b * a == 0) by (nonlinear_arith) requires a == 0;
            assert(v * a == 0) by (nonlinear_arith) requires a == 0;
        } else {
            assert(b * a == v * a) by (nonlinear_arith) requires b == v;
        }
    } else {
        assert(v * 0 == 0);
    }
}

/// Smoothing keeps flat colour: where every pixel around `(x, y)` is
/// transparent or holds one value `v` in a colour channel, and the pixel
/// itself is not transparent, the smoothed channel is `v` again (transparent
/// neighbours carry no weight). So pre-cleaning a non-logo image changes a
/// flat region only at its borders.
pub proof fn law_smoothing_keeps_flat_windows(img: Seq<u8>, w: int, h: int, x: int, y: int, c: int, v: int)
    requires
        w >= 3,
        h >= 3,
        img.len() >= w * h * 4,
        0 <= x < w,
        0 <= y < h,
        0 <= c < 3,
        0 <= v < 256,
        pixel_byte(img, w, x, y, 3) != 0,
        flat_window(img, w, h, x, y, c, v),
    ensures
        smoothed(img, w, h)[(y * w + x) * 4 + c] == v,
{
    lemma_pixel_offset(w, h, x, y, c);
    let t = |dx: int, dy: int| neighbour_term(img, w, h, x, y, dx, dy, 3);
    let tc = |dx: int, dy: int| neighbour_term(img, w, h, x, y, dx, dy, c);
    lemma_flat_term(img, w, h, x, y, -1, -1, c, v);
    lemma_flat_term(img, w, h, x, y, 0, -1, c, v);
    lemma_flat_term(img, w, h, x, y, 1, -1, c, v);
    lemma_flat_term(img, w, h, x, y, -1, 0, c, v);
    lemma_flat_term(img, w, h, x, y, 0, 0, c, v);
    lemma_flat_term(img, w, h, x, y, 1, 0, c, v);
    lemma_flat_term(img, w, h, x, y, -1, 1, c, v);
    lemma_flat_term(img, w, h, x, y, 0, 1, c, v);
    lemma_flat_term(img, w, h, x, y, 1, 1, c, v);
    let weight = window_sum(img, w, h, x, y, 3);
    let sum = window_sum(img, w, h, x, y, c);
    assert(sum == v * weight) by (nonlinear_arith)
        requires
            sum == tc(-1, -1) + tc(0, -1) + tc(1, -1) + tc(-1, 0) + tc(0, 0) + tc(1, 0) + tc(-1, 1) + tc(0, 1) + tc(1, 1),
            weight == t(-1, -1) + t(0, -1) + t(1, -1) + t(-1, 0) + t(0, 0) + t(1, 0) + t(-1, 1) + t(0, 1) + t(1, 1),
            tc(-1, -1) == v * t(-1, -1),
            tc(0, -1) == v * t(0, -1),
            tc(1, -1) == v * t(1, -1),
            tc(-1, 0) == v * t(-1, 0),
            tc(0, 0) == v * t(0, 0),
            tc(1, 0) == v * t(1, 0),
            tc(-1, 1) == v * t(-1, 1),
            tc(0, 1) == v * t(0, 1),
            tc(1, 1) == v * t(1, 1),
    ;
    assert(t(0, 0) > 0);
    assert(weight > 0) by {
        assert(forall|dx: int, dy: int| #[trigger] t(dx, dy) >= 0);
    }
    assert(2 * sum + weight == v * (2 * weight) + weight) by (nonlinear_arith)
        requires sum == v * weight;
    vstd::arithmetic::div_mod::lemma_fundamental_div_mod_converse(2 * sum + weight, 2 * weight, v, weight);
    assert(smoothed_channel(img, w, h, x, y, c) == v);
}

/// The plain sum of channel `c` over the 3x3 window centred on `(x, y)`.
pub open spec fn plain_window_sum(img: Seq<u8>, w: int, x: int, y: int, c: int) -> int {
    let p = |a: int, b: int| pixel_byte(img, w, a, b, c);
    p(x - 1, y - 1) + p(x, y - 1) + p(x + 1, y - 1) + p(x - 1, y) + p(x, y) + p(x + 1, y) + p(x - 1, y + 1)
        + p(x, y + 1) + p(x + 1, y + 1)
}

proof fn lemma_uniform_term(img: Seq<u8>, w: int, h: int, x: int, y: int, dx: int, dy: int, c: int, al: int)
    requires
        1 <= x < w - 1,
        1 <= y < h - 1,
        -1 <= dx <= 1,
        -1 <= dy <= 1,
        0 <= c < 3,
        pixel_byte(img, w, x + dx, y + dy, 3) == al,
    ensures
        neighbour_term(img, w, h, x, y, dx, dy, 3) == al,
        neighbour_term(img, w, h, x, y, dx, dy, c) == al * pixel_byte(img, w, x + dx, y + dy, c),
{
    let i = ((y + dy) * w + (x + dx)) * 4;
    let b = img[i + c] as int;
    assert(b * al == al * b) by (nonlinear_arith);
}

/// Where the whole 3x3 window around an interior pixel has one nonzero alpha,
/// smoothing a colour channel gives the plain mean of the nine values,
/// rounded half up: the centre is pulled towards its neighbours (a lone
/// bright pixel among dark ones drops to about a ninth of its value).
pub proof fn law_smoothing_is_the_window_mean(img: Seq<u8>, w: int, h: int, x: int, y: int, c: int, al: int)
    requires
        img.len() >= w * h * 4,
        1 <= x < w - 1,
        1 <= y < h - 1,
        0 <= c < 3,
        al > 0,
        forall|a: int, b: int| x - 1 <= a <= x + 1 && y - 1 <= b <= y + 1 ==> #[trigger] pixel_byte(img, w, a, b, 3) == al,
    ensures
        smoothed(img, w, h)[(y * w + x) * 4 + c] == (2 * plain_window_sum(img, w, x, y, c) + 9) / 18,
{
    lemma_pixel_offset(w, h, x, y, c);
    let t = |dx: int, dy: int| neighbour_term(img, w, h, x, y, dx, dy, 3);
    let tc = |dx: int, dy: int| neighbour_term(img, w, h, x, y, dx, dy, c);
    let p = |dx: int, dy: int| pixel_byte(img, w, x + dx, y + dy, c);
    assert(pixel_byte(img, w, x - 1, y - 1, 3) == al);
    assert(pixel_byte(img, w, x, y - 1, 3) == al);
    assert(pixel_byte(img, w, x + 1, y - 1, 3) == al);
    assert(pixel_byte(img, w, x - 1, y, 3) == al);
    assert(pixel_byte(img, w, x, y, 3) == al);
    assert(pixel_byte(img, w, x + 1, y, 3) == al);
    assert(pixel_byte(img, w, x - 1, y + 1, 3) == al);
    assert(pixel_byte(img, w, x, y + 1, 3) == al);
    assert(pixel_byte(img, w, x + 1, y + 1, 3) == al);
    lemma_uniform_term(img, w, h, x, y, -1, -1, c, al);
    lemma_uniform_term(img, w, h, x, y, 0, -1, c, al);
    lemma_uniform_term(img, w, h, x, y, 1, -1, c, al);
    lemma_uniform_term(img, w, h, x, y, -1, 0, c, al);
    lemma_uniform_term(img, w, h, x, y, 0, 0, c, al);
    lemma_uniform_term(img, w, h, x, y, 1, 0, c, al);
    lemma_uniform_term(img, w, h, x, y, -1, 1, c, al);
    lemma_uniform_term(img, w, h, x, y, 0, 1, c, al);
    lemma_uniform_term(img, w, h, x, y, 1, 1, c, al);
    let weight = window_sum(img, w, h, x, y, 3);
    let sum = window_sum(img, w, h, x, y, c);
    let plain = plain_window_sum(img, w, x, y, c);
    assert(plain == p(-1, -1) + p(0, -1) + p(1, -1) + p(-1, 0) + p(0, 0) + p(1, 0) + p(-1, 1) + p(0, 1) + p(1, 1));
    assert(weight == 9 * al);
    assert(sum == al * plain) by (nonlinear_arith)
        requires
            sum == tc(-1, -1) + tc(0, -1) + tc(1, -1) + tc(-1, 0) + tc(0, 0) + tc(1, 0) + tc(-1, 1) + tc(0, 1) + tc(1, 1),
            plain == p(-1, -1) + p(0, -1) + p(1, -1) + p(-1, 0) + p(0, 0) + p(1, 0) + p(-1, 1) + p(0, 1) + p(1, 1),
            tc(-1, -1) == al * p(-1, -1),
            tc(0, -1) == al * p(0, -1),
            tc(1, -1) == al * p(1, -1),
            tc(-1, 0) == al * p(-1, 0),
            tc(0, 0) == al * p(0, 0),
            tc(1, 0) == al * p(1, 0),
            tc(-1, 1) == al * p(-1, 1),
            tc(0, 1) == al * p(0, 1),
            tc(1, 1) == al * p(1, 1),
    ;
    let num = 2 * plain + 9;
    let q = num / 18;
    let r = num % 18;
    vstd::arithmetic::div_mod::lemma_fundamental_div_mod(num, 18);
    assert(2 * sum + weight == q * (2 * weight) + al * r) by (nonlinear_arith)
        requires sum == al * plain, weight == 9 * al, num == 2 * plain + 9, num == 18 * q + r;
    assert(0 <= al * r < 2 * weight) by (nonlinear_arith)
        requires 0 <= r < 18, al > 0, weight == 9 * al;
    vstd::arithmetic::div_mod::lemma_fundamental_div_mod_converse(2 * sum + weight, 2 * weight, q, al * r);
    assert(smoothed_channel(img, w, h, x, y, c) == q);
    assert(0 <= plain <= 9 * 255);
    assert(0 <= q < 256);
}

/// One alpha-weighted window term, computed.
#[verifier::spinoff_prover]
#[verifier::rlimit(40)]
fn term(rgba: &[u8], w: usize, h: usize, x: usize, y: usize, dx: i64, dy: i64) -> (t: (u64, u64, u64, u64))
    requires
        rgba@.len() >= w * h * 4,
        x < w,
        y < h,
        -1 <= dx <= 1,
        -1 <= dy <= 1,
        w * h * 4 <= usize::MAX,
    ensures
        t.0 == neighbour_term(rgba@, w as int, h as int, x as int, y as int, dx as int, dy as int, 0),
        t.1 == neighbour_term(rgba@, w as int, h as int, x as int, y as int, dx as int, dy as int, 1),
        t.2 == neighbour_term(rgba@, w as int, h as int, x as int, y as int, dx as int, dy as int, 2),
        t.3 == neighbour_term(rgba@, w as int, h as int, x as int, y as int, dx as int, dy as int, 3),
        t.0 <= 65025,
        t.1 <= 65025,
        t.2 <= 65025,
        t.3 <= 255,
        t.0 <= 255 * t.3,
        t.1 <= 255 * t.3,
        t.2 <= 255 * t.3,
{
    if (dx < 0 && x == 0) || (dx > 0 && x + 1 >= w) || (dy < 0 && y == 0) || (dy > 0 && y + 1 >= h) {
        return (0, 0, 0, 0);
    }
    let nx: usize = if dx < 0 { x - 1 } else if dx > 0 { x + 1 } else { x };
    let ny: usize = if dy < 0 { y - 1 } else if dy > 0 { y + 1 } else { y };
    proof {
        lemma_pixel_offset(w as int, h as int, nx as int, ny as int, 3);
    }
    let i = (ny * w + nx) * 4;
    let a = rgba[i + 3] as u64;
    let r = rgba[i] as u64;
    let g = rgba[i + 1] as u64;
    let b = rgba[i + 2] as u64;
    proof {
        assert(r * a <= 255 * a) by (nonlinear_arith) requires r <= 255, a <= 255;
        assert(g * a <= 255 * a) by (nonlinear_arith) requires g <= 255, a <= 255;
        assert(b * a <= 255 * a) by (nonlinear_arith) requires b <= 255, a <= 255;
        assert(255 * a <= 65025) by (nonlinear_arith) requires a <= 255;
    }
    (r * a, g * a, b * a, a)
}

/// The whole 3x3 window sums at `(x, y)`, computed.
fn window(rgba: &[u8], w: usize, h: usize, x: usize, y: usize) -> (sums: (u64, u64, u64, u64))
    requires
        rgba@.len() >= w * h * 4,
        x < w,
        y < h,
        w * h * 4 <= usize::MAX,
    ensures
        sums.0 == window_sum(rgba@, w as int, h as int, x as int, y as int, 0),
        sums.1 == window_sum(rgba@, w as int, h as int, x as int, y as int, 1),
        sums.2 == window_sum(rgba@, w as int, h as int, x as int, y as int, 2),
        sums.3 == window_sum(rgba@, w as int, h as int, x as int, y as int, 3),
        sums.0 <= 255 * sums.3,
        sums.1 <= 255 * sums.3,
        sums.2 <= 255 * sums.3,
        sums.3 <= 9 * 255,
{
    let a = term(rgba, w, h, x, y, -1, -1);
    let b = term(rgba, w, h, x, y, 0, -1);
    let c = term(rgba, w, h, x, y, 1, -1);
    let d = term(rgba, w, h, x, y, -1, 0);
    let e = term(rgba, w, h, x, y, 0, 0);
    let f = term(rgba, w, h, x, y, 1, 0);
    let g = term(rgba, w, h, x, y, -1, 1);
    let k = term(rgba, w, h, x, y, 0, 1);
    let m = term(rgba, w, h, x, y, 1, 1);
    (
        a.0 + b.0 + c.0 + d.0 + e.0 + f.0 + g.0 + k.0 + m.0,
        a.1 + b.1 + c.1 + d.1 + e.1 + f.1 + g.1 + k.1 + m.1,
        a.2 + b.2 + c.2 + d.2 + e.2 + f.2 + g.2 + k.2 + m.2,
        a.3 + b.3 + c.3 + d.3 + e.3 + f.3 + g.3 + k.3 + m.3,
    )
}

/// After pixel `(x, y)` is written, the smoothed prefix covers it too.
proof fn lemma_smooth_step(s: Seq<u8>, w: int, h: int, x: int, y: int, pre: Seq<u8>, out: Seq<u8>)
    requires
        w >= 3,
        h >= 3,
        0 <= x < w,
        0 <= y < h,
        s.len() >= w * h * 4,
        pre.len() == s.len(),
        out.len() == s.len(),
        forall|i: int|
            0 <= i < s.len() ==> #[trigger] pre[i] == if i < (y * w + x) * 4 {
                smoothed(s, w, h)[i]
            } else {
                s[i]
            },
        forall|i: int| 0 <= i < s.len() && (i < (y * w + x) * 4 || i >= (y * w + x) * 4 + 3) ==> #[trigger] out[i] == pre[i],
        forall|c: int| 0 <= c < 3 ==> #[trigger] out[(y * w + x) * 4 + c] == smoothed_channel(s, w, h, x, y, c) as u8,
    ensures
        forall|i: int|
            0 <= i < s.len() ==> #[trigger] out[i] == if i < (y * w + x + 1) * 4 {
                smoothed(s, w, h)[i]
            } else {
                s[i]
            },
{
    let o = (y * w + x) * 4;
    assert forall|i: int|
        0 <= i < s.len() implies #[trigger] out[i] == if i < (y * w + x + 1) * 4 {
            smoothed(s, w, h)[i]
        } else {
            s[i]
        } by {
        if o <= i < o + 4 {
            lemma_pixel_offset(w, h, x, y, i - o);
            if i < o + 3 {
                assert(out[o + (i - o)] == smoothed_channel(s, w, h, x, y, i - o) as u8);
            }
        }
    }
}

/// A 3x3 averaging blur over the color channels, weighted by alpha so
/// transparent neighbours do not bleed their (meaningless) color in. Alpha
/// itself is carried through unchanged.
pub fn box_smooth(rgba: &[u8], width: u32, height: u32) -> (out: Vec<u8>)
    requires
        width >= 3 && height >= 3 ==> rgba@.len() >= width as int * height as int * 4,
    ensures
        out@ == smoothed(rgba@, width as int, height as int),
{
    let ghost s = rgba@;
    let mut out: Vec<u8> = Vec::new();
    let mut k: usize = 0;
    while k < rgba.len()
        invariant
            k <= rgba@.len(),
            out@ == rgba@.take(k as int),
        decreases rgba@.len() - k,
    {
        out.push(rgba[k]);
        k = k + 1;
        assert(out@ =~= rgba@.take(k as int));
    }
    assert(out@ =~= rgba@);
    if width < 3 || height < 3 {
        return out;
    }
    let w = width as usize;
    let h = height as usize;
    let ghost wi = w as int;
    let ghost hi = h as int;
    let ghost target = smoothed(s, wi, hi);
    proof {
        lemma_pixel_offset(wi, hi, wi - 1, hi - 1, 3);
    }
    let mut y: usize = 0;
    while y < h
        invariant
            s == rgba@,
            wi == w as int,
            hi == h as int,
            w >= 3,
            h >= 3,
            s.len() >= wi * hi * 4,
            s.len() <= usize::MAX,
            target == smoothed(s, wi, hi),
            y <= h,
            out@.len() == s.len(),
            forall|i: int|
                0 <= i < s.len() ==> #[trigger] out@[i] == if i < (y as int) * wi * 4 {
                    target[i]
                } else {
                    s[i]
                },
        decreases h - y,
    {
        let mut x: usize = 0;
        while x < w
            invariant
                s == rgba@,
                wi == w as int,
                hi == h as int,
                w >= 3,
                h >= 3,
                s.len() >= wi * hi * 4,
                s.len() <= usize::MAX,
                target == smoothed(s, wi, hi),
                y < h,
                x <= w,
                out@.len() == s.len(),
                forall|i: int|
                    0 <= i < s.len() ==> #[trigger] out@[i] == if i < ((y as int) * wi + x as int) * 4 {
                        target[i]
                    } else {
                        s[i]
                    },
            decreases w - x,
        {
            proof {
                lemma_pixel_offset(wi, hi, x as int, y as int, 0);
                lemma_pixel_offset(wi, hi, x as int, y as int, 1);
                lemma_pixel_offset(wi, hi, x as int, y as int, 2);
                lemma_pixel_offset(wi, hi, x as int, y as int, 3);
            }
            let sums = window(rgba, w, h, x, y);
            let o = (y * w + x) * 4;
            let weight = sums.3;
            let ghost pre = out@;
            if weight > 0 {
                let r = (2 * sums.0 + weight) / (2 * weight);
                let g = (2 * sums.1 + weight) / (2 * weight);
                let b = (2 * sums.2 + weight) / (2 * weight);
                proof {
                    assert(r <= 255) by (nonlinear_arith)
                        requires sums.0 <= 255 * weight, weight > 0, r == (2 * sums.0 + weight) / (2 * weight);
                    assert(g <= 255) by (nonlinear_arith)
                        requires sums.1 <= 255 * weight, weight > 0, g == (2 * sums.1 + weight) / (2 * weight);
                    assert(b <= 255) by (nonlinear_arith)
                        requires sums.2 <= 255 * weight, weight > 0, b == (2 * sums.2 + weight) / (2 * weight);
                }
                out.set(o, r as u8);
                out.set(o + 1, g as u8);
                out.set(o + 2, b as u8);
            }
            proof {
                assert forall|c: int| 0 <= c < 3 implies #[trigger] out@[(y * w + x) * 4 + c] == smoothed_channel(s, wi, hi, x as int, y as int, c) as u8 by {
                    if weight == 0 {
                        assert(out@[o + c] == pre[o + c]);
                    }
                }
            }
            proof {
                lemma_smooth_step(s, wi, hi, x as int, y as int, pre, out@);
            }
            x = x + 1;
        }
        proof {
            assert(((y as int) * wi + wi) * 4 == ((y as int) + 1) * wi * 4) by (nonlinear_arith);
        }
        y = y + 1;
    }
    proof {
        assert forall|i: int| 0 <= i < s.len() implies #[trigger] out@[i] == target[i] by {
            if i >= (y as int) * wi * 4 {
                assert(i >= wi * hi * 4);
            }
        }
        assert(out@ =~= target);
    }
    out
}

} // verus!
