//! Build the quantized RGBA buffer handed to the tracer, and the run stats.
use vstd::prelude::*;
use vstd::std_specs::iter::IteratorSpec;
use vstd::string::StringExecFns;
use crate::options::Class;

verus! {

broadcast use vstd::string::group_string_axioms;

/// What a trace run produced.
#[derive(Debug, Clone)]
pub struct Stats {
    /// Number of `<path` elements in the emitted SVG.
    pub path_count: usize,
    /// Palette as `#rrggbb` hex strings, in palette index order.
    pub palette: Vec<String>,
    pub classified_as: Class,
    /// Byte length of the SVG string.
    pub est_bytes: usize,
}

/// The characters of a string, as a vector.
pub fn chars_of(s: &str) -> (v: Vec<char>)
    ensures
        v@ == s@,
{
    let mut it = s.chars();
    let mut v: Vec<char> = Vec::new();
    proof {
        vstd::string::axiom_spec_iter(s);
    }
    loop
        invariant
            v@ + IteratorSpec::remaining(&it) == s@,
            it.obeys_prophetic_iter_laws(),
            IteratorSpec::decrease(&it) is Some,
        ensures
            v@ == s@,
        decreases IteratorSpec::decrease(&it)->0,
    {
        let ghost before = IteratorSpec::remaining(&it);
        match it.next() {
            Some(c) => {
                v.push(c);
                assert(v@ + IteratorSpec::remaining(&it) =~= s@) by {
                    assert(before =~= seq![c] + IteratorSpec::remaining(&it));
                }
            },
            None => {
                assert(v@ =~= s@);
                break;
            },
        }
    }
    v
}

/// `<path` starts at position `i` of `s`.
pub open spec fn path_tag_at(s: Seq<char>, i: int) -> bool {
    &&& 0 <= i
    &&& i + 5 <= s.len()
    &&& s[i] == '<'
    &&& s[i + 1] == 'p'
    &&& s[i + 2] == 'a'
    &&& s[i + 3] == 't'
    &&& s[i + 4] == 'h'
}

/// Occurrences of `<path` starting before position `k`.
pub open spec fn path_tags_upto(s: Seq<char>, k: int) -> nat
    decreases k,
{
    if k <= 0 {
        0
    } else {
        path_tags_upto(s, k - 1) + if path_tag_at(s, k - 1) {
            1nat
        } else {
            0nat
        }
    }
}

/// Number of `<path` occurrences in the SVG text (they cannot overlap).
pub open spec fn path_tags(s: Seq<char>) -> nat {
    path_tags_upto(s, s.len() as int)
}

pub fn count_paths(svg: &str) -> (count: usize)
    ensures
        count == path_tags(svg@),
{
    let cs = chars_of(svg);
    let n = cs.len();
    let mut count: usize = 0;
    let mut i: usize = 0;
    while i < n
        invariant
            n == cs@.len(),
            cs@ == svg@,
            i <= n,
            count == path_tags_upto(svg@, i as int),
            count <= i,
        decreases n - i,
    {
        if n - i >= 5 && cs[i] == '<' && cs[i + 1] == 'p' && cs[i + 2] == 'a' && cs[i + 3] == 't' && cs[i + 4]
            == 'h' {
            count = count + 1;
        }
        i = i + 1;
    }
    count
}

/// The image after setting, for each `j` in order, the color bytes of pixel
/// `pixel_index[j]` to palette color `srgb[assignment[j]]` (later writes win).
pub open spec fn repainted_upto(
    rgba: Seq<u8>,
    srgb: Seq<[u8; 3]>,
    pixel_index: Seq<usize>,
    assignment: Seq<usize>,
    k: int,
) -> Seq<u8>
    decreases k,
{
    if k <= 0 {
        rgba
    } else {
        let prev = repainted_upto(rgba, srgb, pixel_index, assignment, k - 1);
        let base = pixel_index[k - 1] * 4;
        let c = srgb[assignment[k - 1] as int];
        prev.update(base, c[0]).update(base + 1, c[1]).update(base + 2, c[2])
    }
}

pub open spec fn pair_count(pixel_index: Seq<usize>, assignment: Seq<usize>) -> int {
    if pixel_index.len() < assignment.len() {
        pixel_index.len() as int
    } else {
        assignment.len() as int
    }
}

/// Repainting writes color bytes only: the buffer keeps its size and every
/// alpha byte, so transparent pixels keep alpha 0.
pub proof fn law_repaint_keeps_alpha(
    rgba: Seq<u8>,
    srgb: Seq<[u8; 3]>,
    pixel_index: Seq<usize>,
    assignment: Seq<usize>,
    k: int,
)
    requires
        0 <= k <= pair_count(pixel_index, assignment),
        forall|j: int| 0 <= j < k ==> #[trigger] pixel_index[j] * 4 + 2 < rgba.len(),
    ensures
        repainted_upto(rgba, srgb, pixel_index, assignment, k).len() == rgba.len(),
        forall|i: int|
            0 <= i < rgba.len() && i % 4 == 3 ==> #[trigger] repainted_upto(
                rgba,
                srgb,
                pixel_index,
                assignment,
                k,
            )[i] == rgba[i],
    decreases k,
{
    if k > 0 {
        law_repaint_keeps_alpha(rgba, srgb, pixel_index, assignment, k - 1);
        let base = pixel_index[k - 1] * 4;
        assert(pixel_index[k - 1] * 4 + 2 < rgba.len());
        assert forall|i: int| 0 <= i < rgba.len() && i % 4 == 3 implies #[trigger] repainted_upto(
            rgba,
            srgb,
            pixel_index,
            assignment,
            k,
        )[i] == rgba[i] by {
            assert(i != base && i != base + 1 && i != base + 2);
            assert(repainted_upto(rgba, srgb, pixel_index, assignment, k)[i] == repainted_upto(
                rgba,
                srgb,
                pixel_index,
                assignment,
                k - 1,
            )[i]);
        }
    }
}

/// Repaint `rgba` so every listed opaque pixel takes the sRGB value of its
/// assigned palette entry. `assignment[j]` is the palette index for pixel
/// `pixel_index[j]`; the lists are paired up to the shorter one.
pub fn apply_srgb_palette(rgba: &[u8], srgb: &[[u8; 3]], pixel_index: &[usize], assignment: &[usize]) -> (out: Vec<
    u8,
>)
    requires
        forall|j: int|
            0 <= j < pair_count(pixel_index@, assignment@) ==> #[trigger] pixel_index@[j] * 4 + 2
                < rgba@.len() && assignment@[j] < srgb@.len(),
    ensures
        out@ == repainted_upto(rgba@, srgb@, pixel_index@, assignment@, pair_count(pixel_index@, assignment@)),
{
    let mut out: Vec<u8> = Vec::new();
    let mut k: usize = 0;
    while k < rgba.len()
        invariant
            k <= rgba@.len(),
            out@ == rgba@.take(k as int),
        decreases rgba@.len() - k,
    {
        out.push(rgba[k]);
        k = k + 1;
        assert(out@ =~= rgba@.take(k as int));
    }
    assert(out@ =~= rgba@);
    let m = if pixel_index.len() < assignment.len() { pixel_index.len() } else { assignment.len() };
    let rl = rgba.len();
    let mut j: usize = 0;
    while j < m
        invariant
            rl == rgba@.len(),
            m == pair_count(pixel_index@, assignment@),
            j <= m,
            forall|i: int|
                0 <= i < m ==> #[trigger] pixel_index@[i] * 4 + 2 < rgba@.len() && assignment@[i] < srgb@.len(),
            out@ == repainted_upto(rgba@, srgb@, pixel_index@, assignment@, j as int),
            out@.len() == rgba@.len(),
        decreases m - j,
    {
        assert(pixel_index@[j as int] * 4 + 2 < rgba@.len());
        let base = pixel_index[j] * 4;
        let c = srgb[assignment[j]];
        out.set(base, c[0]);
        out.set(base + 1, c[1]);
        out.set(base + 2, c[2]);
        j = j + 1;
    }
    out
}

/// Lowercase hexadecimal digit of `d < 16`.
pub open spec fn hex_digit(d: int) -> char {
    if d < 10 {
        (48 + d) as char
    } else {
        (87 + d) as char
    }
}

/// Two lowercase hexadecimal digits of a byte.
pub open spec fn hex_byte(b: u8) -> Seq<char> {
    seq![hex_digit(b as int / 16), hex_digit(b as int % 16)]
}

/// The `#rrggbb` text of an sRGB color.
pub open spec fn hex_color_text(rgb: [u8; 3]) -> Seq<char> {
    seq!['#'] + hex_byte(rgb[0]) + hex_byte(rgb[1]) + hex_byte(rgb[2])
}

fn hex_str(d: u8) -> (s: &'static str)
    requires
        d < 16,
    ensures
        s@ == seq![hex_digit(d as int)],
{
    match d {
        0 => {
            proof { reveal_strlit("0"); }
            "0"
        },
        1 => {
            proof { reveal_strlit("1"); }
            "1"
        },
        2 => {
            proof { reveal_strlit("2"); }
            "2"
        },
        3 => {
            proof { reveal_strlit("3"); }
            "3"
        },
        4 => {
            proof { reveal_strlit("4"); }
            "4"
        },
        5 => {
            proof { reveal_strlit("5"); }
            "5"
        },
        6 => {
            proof { reveal_strlit("6"); }
            "6"
        },
        7 => {
            proof { reveal_strlit("7"); }
            "7"
        },
        8 => {
            proof { reveal_strlit("8"); }
            "8"
        },
        9 => {
            proof { reveal_strlit("9"); }
            "9"
        },
        10 => {
            proof { reveal_strlit("a"); }
            "a"
        },
        11 => {
            proof { reveal_strlit("b"); }
            "b"
        },
        12 => {
            proof { reveal_strlit("c"); }
            "c"
        },
        13 => {
            proof { reveal_strlit("d"); }
            "d"
        },
        14 => {
            proof { reveal_strlit("e"); }
            "e"
        },
        _ => {
            proof { reveal_strlit("f"); }
            "f"
        },
    }
}

/// `#rrggbb` with lowercase hex digits, as the palette statistic lists colors.
pub fn hex_color(rgb: [u8; 3]) -> (s: String)
    ensures
        s@ == hex_color_text(rgb),
{
    proof { reveal_strlit("#"); }
    let mut s = String::from_str("#");
    let mut i: usize = 0;
    while i < 3
        invariant
            i <= 3,
            s@ == seq!['#'] + (if i >= 1 { hex_byte(rgb[0]) } else { seq![] }) + (if i >= 2 {
                hex_byte(rgb[1])
            } else {
                seq![]
            }) + (if i >= 3 { hex_byte(rgb[2]) } else { seq![] }),
        decreases 3 - i,
    {
        let b = rgb[i];
        s.append(hex_str(b / 16));
        s.append(hex_str(b % 16));
        i = i + 1;
    }
    s
}

/// The pixels of a row-major RGBA buffer whose alpha is not 0, in order (a
/// trailing partial pixel is ignored).
pub fn opaque_indices(rgba: &[u8]) -> (idx: Vec<usize>)
    ensures
        forall|a: int, b: int| 0 <= a < b < idx@.len() ==> idx@[a] < idx@[b],
        forall|j: int| 0 <= j < idx@.len() ==> #[trigger] idx@[j] < rgba@.len() / 4,
        forall|p: int|
            0 <= p < rgba@.len() / 4 ==> (idx@.contains(p as usize) <==> #[trigger] rgba@[4 * p + 3] != 0),
{
    let len = rgba.len();
    let n = len / 4;
    let mut idx: Vec<usize> = Vec::new();
    let mut i: usize = 0;
    while i < n
        invariant
            len == rgba@.len(),
            n == len / 4,
            i <= n,
            forall|a: int, b: int| 0 <= a < b < idx@.len() ==> idx@[a] < idx@[b],
            forall|j: int| 0 <= j < idx@.len() ==> #[trigger] idx@[j] < i,
            forall|p: int| 0 <= p < i ==> (idx@.contains(p as usize) <==> #[trigger] rgba@[4 * p + 3] != 0),
        decreases n - i,
    {
        let ghost pre = idx@;
        if rgba[4 * i + 3] != 0 {
            idx.push(i);
            proof {
                assert forall|p: int| 0 <= p < i + 1 implies (idx@.contains(p as usize) <==> #[trigger] rgba@[4 * p + 3] != 0) by {
                    if p < i {
                        if idx@.contains(p as usize) {
                            let j = choose|j: int| 0 <= j < idx@.len() && idx@[j] == p as usize;
                            if j < pre.len() {
                                assert(pre[j] == p as usize);
                            }
                        }
                        if pre.contains(p as usize) {
                            let j = choose|j: int| 0 <= j < pre.len() && pre[j] == p as usize;
                            assert(idx@[j] == p as usize);
                        }
                    } else {
                        assert(idx@[pre.len() as int] == i);
                    }
                }
            }
        } else {
            proof {
                assert forall|p: int| 0 <= p < i + 1 implies (idx@.contains(p as usize) <==> #[trigger] rgba@[4 * p + 3] != 0) by {
                    if p == i && idx@.contains(p as usize) {
                        let j = choose|j: int| 0 <= j < idx@.len() && idx@[j] == p as usize;
                        assert(idx@[j] < i);
                    }
                }
            }
        }
        i = i + 1;
    }
    idx
}

} // verus!
