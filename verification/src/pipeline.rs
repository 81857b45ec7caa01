//! The integer steps of a trace run that sit between the color work:
//! input validation, the black-and-white run, speckle removal over the
//! palette assignment, the gradient cut-outs, splicing gradient fragments
//! into the tracer's SVG, and the run statistics.
use vstd::prelude::*;
use vstd::string::StringExecFns;
use vstd::string::StrSliceExecFns;
use crate::emit::{chars_of, count_paths, pair_count, path_tags, Stats};
use crate::error::Error;
use crate::options::Class;
use crate::regions::{despeckle, despeckled, law_despeckle_adds_no_index};
use crate::trace::{binary_svg, rgba_fits, trace_binary, trace_safe};

verus! {

/// The SVG of a run and what it is made of.
#[derive(Debug, Clone)]
pub struct TraceResult {
    pub svg: String,
    pub stats: Stats,
}

/// The input a trace run accepts: a non-empty image of `width * height` RGBA
/// pixels. An empty image is reported before a length mismatch.
pub fn check_input(rgba: &[u8], width: u32, height: u32) -> (r: Result<(), Error>)
    ensures
        (width == 0 || height == 0) ==> r == Err::<(), Error>(Error::EmptyImage),
        width > 0 && height > 0 && !rgba_fits(rgba@.len() as int, width as int, height as int) ==> r
            == Err::<(), Error>(Error::Dimensions { width, height, len: rgba@.len() as usize }),
        width > 0 && height > 0 && rgba_fits(rgba@.len() as int, width as int, height as int) ==> r
            is Ok,
{
    if width == 0 || height == 0 {
        return Err(Error::EmptyImage);
    }
    proof {
        assert((width as int) * (height as int) <= 0xffff_ffff * 0xffff_ffff) by (nonlinear_arith)
            requires width <= 0xffff_ffff, height <= 0xffff_ffff;
    }
    let len = rgba.len();
    let prod = (width as u64) * (height as u64);
    if len % 4 != 0 || (len / 4) as u64 != prod {
        return Err(Error::Dimensions { width, height, len });
    }
    Ok(())
}

/// Byte length of the UTF-8 text of `s`.
pub open spec fn byte_len(s: Seq<char>) -> int {
    vstd::utf8::encode_utf8(s).len() as int
}

/// The statistics of a finished run: the `<path` elements of the emitted
/// SVG (gradient paths spliced into it included), the palette, the class and
/// the byte size.
pub fn assemble_result(svg: String, palette: Vec<String>, class: Class) -> (t: TraceResult)
    ensures
        t.svg@ == svg@,
        t.stats.path_count == path_tags(t.svg@),
        t.stats.palette@ == palette@,
        t.stats.classified_as == class,
        t.stats.est_bytes == byte_len(svg@) as usize,
{
    let path_count = count_paths(svg.as_str());
    let est_bytes = svg.as_str().len();
    TraceResult { svg, stats: Stats { path_count, palette, classified_as: class, est_bytes } }
}

/// Black-and-white run: a binary trace, reported as a one-color logo.
pub fn trace_bw(rgba: &[u8], width: u32, height: u32) -> (r: Result<TraceResult, Error>)
    requires
        rgba_fits(rgba@.len() as int, width as int, height as int) ==> trace_safe(
            rgba@,
            width as int,
            height as int,
        ),
    ensures
        !rgba_fits(rgba@.len() as int, width as int, height as int) ==> (r matches Err(e) && e
            == (Error::Dimensions { width, height, len: rgba@.len() as usize })),
        rgba_fits(rgba@.len() as int, width as int, height as int) ==> (r matches Ok(t) && {
            &&& t.svg@ == binary_svg(rgba@, width as usize, height as usize)
            &&& t.stats.path_count == path_tags(t.svg@)
            &&& t.stats.palette@.len() == 1
            &&& t.stats.palette@[0]@ == "#000000"@
            &&& t.stats.classified_as == Class::Logo
            &&& t.stats.est_bytes == byte_len(t.svg@) as usize
        }),
{
    let svg = match trace_binary(rgba, width, height) {
        Ok(s) => s,
        Err(e) => return Err(e),
    };
    let mut palette: Vec<String> = Vec::new();
    palette.push(String::from_str("#000000"));
    Ok(assemble_result(svg, palette, Class::Logo))
}

/// The full-resolution index map after writing, for each `j < k` in order,
/// `assignment[j]` at pixel `pixel_index[j]` over `base`.
pub open spec fn scatter_upto(assignment: Seq<usize>, pixel_index: Seq<usize>, base: Seq<usize>, k: int) -> Seq<
    usize,
>
    decreases k,
{
    if k <= 0 {
        base
    } else {
        scatter_upto(assignment, pixel_index, base, k - 1).update(
            pixel_index[k - 1] as int,
            assignment[k - 1],
        )
    }
}

/// The index map of a whole image: every pixel the sentinel, then the listed
/// opaque pixels their assigned palette entries.
pub open spec fn full_assignment(
    assignment: Seq<usize>,
    pixel_index: Seq<usize>,
    total: int,
    sentinel: usize,
) -> Seq<usize> {
    scatter_upto(
        assignment,
        pixel_index,
        Seq::new(total as nat, |i: int| sentinel),
        pair_count(pixel_index, assignment),
    )
}

/// Speckle removal over the opaque pixels' palette assignment, read back at
/// the listed pixels. Transparent pixels hold the sentinel `palette_len`, so
/// no component crosses them; a speckle bordered only by transparency keeps
/// its color.
pub open spec fn despeckled_assignment(
    assignment: Seq<usize>,
    pixel_index: Seq<usize>,
    width: int,
    height: int,
    palette_len: int,
) -> Seq<usize> {
    let full = full_assignment(assignment, pixel_index, width * height, palette_len as usize);
    let cleaned = despeckled(full, width, width * height, palette_len + 1);
    Seq::new(
        pixel_index.len(),
        |j: int|
            {
                let v = cleaned[pixel_index[j] as int];
                if v == palette_len {
                    full[pixel_index[j] as int]
                } else {
                    v
                }
            },
    )
}

/// Run despeckle over a full-resolution index map built from the palette
/// assignment of the opaque pixels, then read back the opaque positions.
pub fn despeckle_assignment(
    assignment: &[usize],
    pixel_index: &[usize],
    width: u32,
    height: u32,
    palette_len: usize,
) -> (out: Vec<usize>)
    requires
        width as int * height as int <= usize::MAX,
        palette_len < usize::MAX,
        forall|j: int| 0 <= j < pixel_index@.len() ==> #[trigger] pixel_index@[j] < width as int * height as int,
    ensures
        out@ == despeckled_assignment(
            assignment@,
            pixel_index@,
            width as int,
            height as int,
            palette_len as int,
        ),
{
    let total = (width as usize) * (height as usize);
    let transparent = palette_len;
    let mut full: Vec<usize> = Vec::new();
    let mut i: usize = 0;
    while i < total
        invariant
            i <= total,
            full@ == Seq::new(i as nat, |k: int| transparent),
        decreases total - i,
    {
        full.push(transparent);
        i = i + 1;
        assert(full@ =~= Seq::new(i as nat, |k: int| transparent));
    }
    let ghost base = full@;
    let m = if pixel_index.len() < assignment.len() { pixel_index.len() } else { assignment.len() };
    let mut j: usize = 0;
    while j < m
        invariant
            m == pair_count(pixel_index@, assignment@),
            j <= m,
            total == width as int * height as int,
            forall|k: int| 0 <= k < pixel_index@.len() ==> #[trigger] pixel_index@[k] < total,
            full@ == scatter_upto(assignment@, pixel_index@, base, j as int),
            full@.len() == total,
        decreases m - j,
    {
        assert(pixel_index@[j as int] < total);
        full.set(pixel_index[j], assignment[j]);
        j = j + 1;
    }
    let ghost fullv = full@;
    assert(fullv == full_assignment(assignment@, pixel_index@, total as int, transparent));
    proof {
        if width > 0 {
            vstd::arithmetic::div_mod::lemma_mod_multiples_basic(height as int, width as int);
            assert(width as int * height as int == height as int * width as int) by (nonlinear_arith);
        }
    }
    let cleaned = despeckle(full.as_slice(), width, height, palette_len + 1);
    proof {
        if width == 0 {
            assert(width as int * height as int == 0) by (nonlinear_arith)
                requires width == 0;
        }
        law_despeckle_adds_no_index(fullv, width as int, width as int * height as int, palette_len + 1);
    }
    let mut out: Vec<usize> = Vec::new();
    let mut k: usize = 0;
    while k < pixel_index.len()
        invariant
            k <= pixel_index@.len(),
            total == width as int * height as int,
            forall|q: int| 0 <= q < pixel_index@.len() ==> #[trigger] pixel_index@[q] < total,
            cleaned@ == despeckled(fullv, width as int, width as int * height as int, palette_len + 1),
            cleaned@.len() == total,
            full@ == fullv,
            fullv.len() == total,
            fullv == full_assignment(assignment@, pixel_index@, total as int, transparent),
            transparent == palette_len,
            out@ == despeckled_assignment(
                assignment@,
                pixel_index@,
                width as int,
                height as int,
                palette_len as int,
            ).take(k as int),
        decreases pixel_index@.len() - k,
    {
        let pixel = pixel_index[k];
        let v = cleaned[pixel];
        if v == transparent {
            out.push(full[pixel]);
        } else {
            out.push(v);
        }
        k = k + 1;
        assert(out@ =~= despeckled_assignment(
            assignment@,
            pixel_index@,
            width as int,
            height as int,
            palette_len as int,
        ).take(k as int));
    }
    assert(out@ =~= despeckled_assignment(
        assignment@,
        pixel_index@,
        width as int,
        height as int,
        palette_len as int,
    ));
    out
}

/// What scattering writes: every cell keeps its base value or takes an
/// assigned value, and every listed pixel takes an assigned value.
proof fn lemma_scatter_values(assignment: Seq<usize>, pixel_index: Seq<usize>, base: Seq<usize>, k: int)
    requires
        0 <= k <= pair_count(pixel_index, assignment),
        forall|j: int| 0 <= j < pixel_index.len() ==> #[trigger] pixel_index[j] < base.len(),
    ensures
        scatter_upto(assignment, pixel_index, base, k).len() == base.len(),
        forall|q: int|
            0 <= q < base.len() ==> #[trigger] scatter_upto(assignment, pixel_index, base, k)[q] == base[q]
                || assignment.take(k).contains(scatter_upto(assignment, pixel_index, base, k)[q]),
        forall|j: int|
            0 <= j < k ==> assignment.take(k).contains(
                #[trigger] scatter_upto(assignment, pixel_index, base, k)[pixel_index[j] as int],
            ),
    decreases k,
{
    if k > 0 {
        lemma_scatter_values(assignment, pixel_index, base, k - 1);
        let prev = scatter_upto(assignment, pixel_index, base, k - 1);
        let cur = scatter_upto(assignment, pixel_index, base, k);
        let t0 = assignment.take(k - 1);
        let t1 = assignment.take(k);
        assert forall|x: usize| t0.contains(x) implies t1.contains(x) by {
            let i = choose|i: int| 0 <= i < t0.len() && t0[i] == x;
            assert(t1[i] == x);
        }
        assert(t1[k - 1] == assignment[k - 1]);
        assert forall|q: int| 0 <= q < base.len() implies #[trigger] cur[q] == base[q] || t1.contains(cur[q]) by {
            if q != pixel_index[k - 1] as int {
                assert(cur[q] == prev[q]);
            }
        }
        assert forall|j: int| 0 <= j < k implies t1.contains(#[trigger] cur[pixel_index[j] as int]) by {
            if pixel_index[j] != pixel_index[k - 1] {
                assert(cur[pixel_index[j] as int] == prev[pixel_index[j] as int]);
            }
        }
    }
}

/// With every listed opaque pixel assigned a palette entry, speckle removal
/// hands each of them back a palette entry: the transparent sentinel never
/// leaks into the assignment.
pub proof fn law_despeckled_assignment_in_palette(
    assignment: Seq<usize>,
    pixel_index: Seq<usize>,
    width: int,
    height: int,
    palette_len: int,
)
    requires
        width >= 0,
        height >= 0,
        palette_len < usize::MAX,
        pixel_index.len() <= assignment.len(),
        forall|j: int| 0 <= j < pixel_index.len() ==> #[trigger] pixel_index[j] < width * height,
        forall|j: int| 0 <= j < assignment.len() ==> #[trigger] assignment[j] < palette_len,
    ensures
        despeckled_assignment(assignment, pixel_index, width, height, palette_len).len()
            == pixel_index.len(),
        forall|j: int|
            0 <= j < pixel_index.len() ==> #[trigger] despeckled_assignment(
                assignment,
                pixel_index,
                width,
                height,
                palette_len,
            )[j] < palette_len,
{
    let total = width * height;
    let sentinel = palette_len as usize;
    let base = Seq::new(total as nat, |i: int| sentinel);
    let m = pair_count(pixel_index, assignment);
    let full = full_assignment(assignment, pixel_index, total, sentinel);
    lemma_scatter_values(assignment, pixel_index, base, m);
    if pixel_index.len() > 0 {
        assert(pixel_index[0] < total);
        if width == 0 {
            assert(width * height == 0) by (nonlinear_arith)
                requires width == 0;
        }
    }
    law_despeckle_adds_no_index(full, width, width * height, palette_len + 1);
    let cleaned = despeckled(full, width, width * height, palette_len + 1);
    let t = assignment.take(m);
    assert forall|x: usize| #[trigger] t.contains(x) implies x < palette_len by {
        let i = choose|i: int| 0 <= i < t.len() && t[i] == x;
        assert(assignment[i] == x);
    }
    assert forall|j: int| 0 <= j < pixel_index.len() implies #[trigger] despeckled_assignment(
        assignment,
        pixel_index,
        width,
        height,
        palette_len,
    )[j] < palette_len by {
        let p = pixel_index[j] as int;
        assert(full.contains(cleaned[p]));
        let q = choose|q: int| 0 <= q < full.len() && full[q] == cleaned[p];
        assert(full[q] == base[q] || t.contains(full[q]));
        assert(t.contains(full[p]));
    }
}

/// `<svg` starts at position `i` of `s`.
pub open spec fn svg_open_at(s: Seq<char>, i: int) -> bool {
    &&& 0 <= i
    &&& i + 4 <= s.len()
    &&& s[i] == '<'
    &&& s[i + 1] == 's'
    &&& s[i + 2] == 'v'
    &&& s[i + 3] == 'g'
}

/// The first position at or after `k` where `<svg` starts, or -1.
pub open spec fn find_svg_open(s: Seq<char>, k: int) -> int
    decreases s.len() - k,
{
    if k < 0 || k + 4 > s.len() {
        -1
    } else if svg_open_at(s, k) {
        k
    } else {
        find_svg_open(s, k + 1)
    }
}

/// The first position at or after `k` holding `c`, or -1.
pub open spec fn find_char(s: Seq<char>, c: char, k: int) -> int
    decreases s.len() - k,
{
    if k < 0 || k >= s.len() {
        -1
    } else if s[k] == c {
        k
    } else {
        find_char(s, c, k + 1)
    }
}

/// Just past the `>` that closes the first `<svg` tag, or -1 when there is
/// no such tag.
pub open spec fn splice_point(s: Seq<char>) -> int {
    let t = find_svg_open(s, 0);
    if t < 0 {
        -1
    } else {
        let e = find_char(s, '>', t);
        if e < 0 {
            -1
        } else {
            e + 1
        }
    }
}

/// The paths' texts, one after another.
pub open spec fn paths_text(paths: Seq<String>) -> Seq<char>
    decreases paths.len(),
{
    if paths.len() == 0 {
        seq![]
    } else {
        paths_text(paths.drop_last()) + paths.last()@
    }
}

/// The SVG with gradient `defs` (wrapped in `<defs>`) and `paths` inserted
/// right after the `<svg ...>` open tag; unchanged when there is none.
pub open spec fn spliced(s: Seq<char>, defs: Seq<char>, paths: Seq<String>) -> Seq<char> {
    let at = splice_point(s);
    if at < 0 {
        s
    } else {
        s.take(at) + "<defs>"@ + defs + "</defs>"@ + paths_text(paths) + s.skip(at)
    }
}

/// Splice gradient `defs` and `paths` immediately after the tracer's `<svg ...>`
/// open tag so the gradients render underneath the flat paths. The insertion
/// point is the end of the `<svg` tag (not the `<?xml?>` declaration before
/// it), so the fragments land inside the SVG root.
pub fn splice_gradients(flat_svg: &str, defs: &str, paths: &[String]) -> (out: String)
    ensures
        out@ == spliced(flat_svg@, defs@, paths@),
{
    let cs = chars_of(flat_svg);
    let n = cs.len();
    let ghost s = flat_svg@;
    let mut t: usize = 0;
    let mut found = false;
    while !found && n >= 4 && t <= n - 4
        invariant
            cs@ == s,
            n == s.len(),
            found ==> svg_open_at(s, t as int) && find_svg_open(s, 0) == t,
            !found ==> find_svg_open(s, 0) == find_svg_open(s, t as int),
        decreases n - t + if found { 0int } else { 1int },
    {
        if cs[t] == '<' && cs[t + 1] == 's' && cs[t + 2] == 'v' && cs[t + 3] == 'g' {
            found = true;
        } else {
            t = t + 1;
        }
    }
    if !found {
        assert(find_svg_open(s, t as int) == -1);
        return String::from_str(flat_svg);
    }
    let mut e: usize = t;
    let mut closed = false;
    while !closed && e < n
        invariant
            cs@ == s,
            n == s.len(),
            t <= e <= n,
            closed ==> e < n && s[e as int] == '>' && find_char(s, '>', t as int) == e,
            !closed ==> find_char(s, '>', t as int) == find_char(s, '>', e as int),
        decreases n - e + if closed { 0int } else { 1int },
    {
        if cs[e] == '>' {
            closed = true;
        } else {
            e = e + 1;
        }
    }
    if !closed {
        assert(find_char(s, '>', e as int) == -1);
        return String::from_str(flat_svg);
    }
    let at = e + 1;
    let mut out = String::from_str(flat_svg.substring_char(0, at));
    out.append("<defs>");
    out.append(defs);
    out.append("</defs>");
    let mut k: usize = 0;
    while k < paths.len()
        invariant
            k <= paths@.len(),
            out@ == s.take(at as int) + "<defs>"@ + defs@ + "</defs>"@ + paths_text(paths@.take(k as int)),
        decreases paths@.len() - k,
    {
        out.append(paths[k].as_str());
        proof {
            assert(paths@.take(k + 1).drop_last() =~= paths@.take(k as int));
        }
        k = k + 1;
    }
    assert(paths@.take(k as int) =~= paths@);
    out.append(flat_svg.substring_char(at, n));
    assert(s.skip(at as int) =~= s.subrange(at as int, n as int));
    out
}

/// Opaque pixels (alpha not 0) among the first `k` pixels.
pub open spec fn opaque_upto(rgba: Seq<u8>, k: int) -> nat
    decreases k,
{
    if k <= 0 {
        0
    } else {
        opaque_upto(rgba, k - 1) + if rgba[4 * (k - 1) + 3] != 0 {
            1nat
        } else {
            0nat
        }
    }
}

/// Number of opaque pixels of a row-major RGBA buffer (trailing bytes that do
/// not make a whole pixel are ignored).
pub fn count_opaque(rgba: &[u8]) -> (count: usize)
    ensures
        count == opaque_upto(rgba@, (rgba@.len() / 4) as int),
{
    let len = rgba.len();
    let n = len / 4;
    let mut count: usize = 0;
    let mut i: usize = 0;
    while i < n
        invariant
            len == rgba@.len(),
            n == rgba@.len() / 4,
            i <= n,
            count == opaque_upto(rgba@, i as int),
            count <= i,
        decreases n - i,
    {
        if rgba[4 * i + 3] != 0 {
            count = count + 1;
        }
        i = i + 1;
    }
    count
}

/// The mask of `total` pixels covering exactly the listed pixels.
pub fn region_mask(component: &[usize], total: usize) -> (mask: Vec<bool>)
    requires
        forall|i: int| 0 <= i < component@.len() ==> #[trigger] component@[i] < total,
    ensures
        mask@.len() == total,
        forall|q: int| 0 <= q < total ==> (#[trigger] mask@[q] <==> component@.contains(q as usize)),
{
    let mut mask: Vec<bool> = Vec::new();
    let mut i: usize = 0;
    while i < total
        invariant
            i <= total,
            mask@ == Seq::new(i as nat, |q: int| false),
        decreases total - i,
    {
        mask.push(false);
        i = i + 1;
        assert(mask@ =~= Seq::new(i as nat, |q: int| false));
    }
    let mut j: usize = 0;
    while j < component.len()
        invariant
            j <= component@.len(),
            mask@.len() == total,
            forall|i: int| 0 <= i < component@.len() ==> #[trigger] component@[i] < total,
            forall|q: int|
                0 <= q < total ==> (#[trigger] mask@[q] <==> component@.take(j as int).contains(q as usize)),
        decreases component@.len() - j,
    {
        let p = component[j];
        mask.set(p, true);
        proof {
            let t1 = component@.take(j + 1);
            let t0 = component@.take(j as int);
            assert(t1 =~= t0.push(p));
            assert forall|q: int| 0 <= q < total implies (#[trigger] mask@[q] <==> t1.contains(q as usize)) by {
                if t1.contains(q as usize) && q != p {
                    let b = choose|b: int| 0 <= b < t1.len() && t1[b] == q as usize;
                    assert(t0[b] == q as usize);
                }
                if t0.contains(q as usize) {
                    let b = choose|b: int| 0 <= b < t0.len() && t0[b] == q as usize;
                    assert(t1[b] == q as usize);
                }
                if q == p {
                    assert(t1[j as int] == p);
                }
            }
        }
        j = j + 1;
    }
    assert(component@.take(j as int) =~= component@);
    mask
}

/// Set alpha to 0 on every covered pixel, so the flat trace skips it.
pub fn punch_out(holed: &mut Vec<u8>, covered: &[bool])
    requires
        4 * covered@.len() <= old(holed)@.len(),
    ensures
        final(holed)@.len() == old(holed)@.len(),
        forall|i: int|
            0 <= i < final(holed)@.len() ==> #[trigger] final(holed)@[i] == if i % 4 == 3 && i / 4
                < covered@.len() && covered@[i / 4] {
                0u8
            } else {
                old(holed)@[i]
            },
{
    let ghost start = holed@;
    let hl = holed.len();
    let mut i: usize = 0;
    while i < covered.len()
        invariant
            hl == start.len(),
            4 * covered@.len() <= start.len(),
            holed@.len() == start.len(),
            i <= covered@.len(),
            forall|k: int|
                0 <= k < start.len() ==> #[trigger] holed@[k] == if k % 4 == 3 && k / 4 < i && covered@[k
                    / 4] {
                    0u8
                } else {
                    start[k]
                },
        decreases covered@.len() - i,
    {
        if covered[i] {
            holed.set(i * 4 + 3, 0);
        }
        i = i + 1;
    }
}

/// Palette-size range per class, interpolated by `detail` when the caller
/// does not pin `k`: a logo 2..16, an illustration 8..64, a photo 24..256.
pub fn k_range(class: Class) -> (r: (u16, u16))
    ensures
        r == match class {
            Class::Logo => (2u16, 16u16),
            Class::Illustration => (8u16, 64u16),
            Class::Photo => (24u16, 256u16),
        },
{
    match class {
        Class::Logo => (2, 16),
        Class::Illustration => (8, 64),
        Class::Photo => (24, 256),
    }
}

/// The palette size a run asks for: a photo keeps the interpolated `target`
/// (its tones live in the long tail), flat art never asks for more colors
/// than the image holds (at least 2), so anti-aliased edges do not become
/// sliver layers.
pub fn capped_k(class: Class, target: u16, effective: usize) -> (k: u16)
    ensures
        class == Class::Photo ==> k == target,
        class != Class::Photo ==> k == if (target as int) <= (if effective < 2 { 2 } else { effective }) as u16 as int {
            target
        } else {
            (if effective < 2 { 2 } else { effective }) as u16
        },
{
    if class == Class::Photo {
        target
    } else {
        let floor: usize = if effective < 2 { 2 } else { effective };
        let cap = floor as u16;
        if target <= cap {
            target
        } else {
            cap
        }
    }
}

} // verus!
