//! Connected-component segmentation by color similarity over precleaned pixels.
//!
//! Two 4-connected opaque pixels join the same component when the color step
//! between them is small. Which neighbouring pairs are "small steps" is
//! decided on continuous OKLab color by the caller and handed in as two join
//! bit-vectors; this module owns the rest: transparent pixels form no
//! component, components come out in row-major order of their first pixel,
//! and each lists its pixels in ascending order.
use vstd::prelude::*;
use crate::components::{
    connected, filled, flood, is_path, is_rep, lemma_active_along, lemma_connected_in_range,
    lemma_connected_refl, lemma_connected_symmetric, lemma_connected_trans,
    lemma_seeded_closed, lemma_seeded_flood, lemma_seeded_rep, lemma_seeded_skip, linked,
    scan_shape, seeded_marks, UNMARKED,
};

verus! {

/// Opacity of each of the `n` pixels of a row-major RGBA buffer.
pub open spec fn opaque_cells(cleaned: Seq<u8>, n: int) -> Seq<bool> {
    Seq::new(n as nat, |i: int| cleaned[4 * i + 3] != 0)
}

/// Horizontal links: a join bit between two opaque pixels.
pub open spec fn seg_right(opaque: Seq<bool>, joins_right: Seq<bool>) -> Seq<bool> {
    Seq::new(
        opaque.len(),
        |i: int| i + 1 < opaque.len() && joins_right[i] && opaque[i] && opaque[i + 1],
    )
}

/// Vertical links: a join bit between two opaque pixels.
pub open spec fn seg_down(opaque: Seq<bool>, joins_down: Seq<bool>, w: int) -> Seq<bool> {
    Seq::new(
        opaque.len(),
        |i: int| i + w < opaque.len() && joins_down[i] && opaque[i] && opaque[i + w],
    )
}

/// The first pixels (in row-major order) of the opaque components, among the
/// pixels before `k`.
pub open spec fn seg_reps(w: int, right: Seq<bool>, down: Seq<bool>, opaque: Seq<bool>, k: int) -> Seq<
    int,
>
    decreases k,
{
    if k <= 0 {
        seq![]
    } else {
        let prev = seg_reps(w, right, down, opaque, k - 1);
        if opaque[k - 1] && is_rep(w, right, down, k - 1) {
            prev.push(k - 1)
        } else {
            prev
        }
    }
}

/// The input shape `segment_linked` works on: a non-empty `width` x `height`
/// RGBA buffer and one join bit per pixel in each direction.
pub open spec fn segment_input_ok(len: int, width: int, height: int, jr_len: int, jd_len: int) -> bool {
    &&& width * height > 0
    &&& len == 4 * (width * height)
    &&& jr_len == width * height
    &&& jd_len == width * height
}

pub open spec fn strictly_increasing(s: Seq<usize>) -> bool {
    forall|a: int, b: int| 0 <= a < b < s.len() ==> s[a] < s[b]
}

/// What the list of first pixels holds: opaque first pixels of their
/// components, in increasing order, every one before `k`.
proof fn lemma_seg_reps(w: int, right: Seq<bool>, down: Seq<bool>, opaque: Seq<bool>, k: int)
    requires
        0 <= k,
    ensures
        forall|j: int|
            0 <= j < seg_reps(w, right, down, opaque, k).len() ==> {
                let r = #[trigger] seg_reps(w, right, down, opaque, k)[j];
                &&& 0 <= r < k
                &&& opaque[r]
                &&& is_rep(w, right, down, r)
            },
        forall|a: int, b: int|
            0 <= a < b < seg_reps(w, right, down, opaque, k).len() ==> seg_reps(w, right, down, opaque, k)[a]
                < seg_reps(w, right, down, opaque, k)[b],
        forall|r: int|
            0 <= r < k && opaque[r] && is_rep(w, right, down, r) ==> #[trigger] seg_reps(
                w,
                right,
                down,
                opaque,
                k,
            ).contains(r),
    decreases k,
{
    if k > 0 {
        lemma_seg_reps(w, right, down, opaque, k - 1);
        let prev = seg_reps(w, right, down, opaque, k - 1);
        let cur = seg_reps(w, right, down, opaque, k);
        assert forall|r: int| 0 <= r < k && opaque[r] && is_rep(w, right, down, r) implies #[trigger] cur.contains(r) by {
            if r < k - 1 {
                assert(prev.contains(r));
                let j = choose|j: int| 0 <= j < prev.len() && prev[j] == r;
                assert(cur[j] == r);
            } else {
                assert(cur[prev.len() as int] == r);
            }
        }
    }
}

/// The first cell, in row-major order, that reaches `q`.
proof fn lemma_first_reaching(w: int, right: Seq<bool>, down: Seq<bool>, q: int, k: int) -> (r: int)
    requires
        0 <= k <= q < right.len(),
        forall|p: int| 0 <= p < k ==> !#[trigger] connected(w, right, down, p, q),
    ensures
        0 <= r <= q,
        connected(w, right, down, r, q),
        forall|p: int| 0 <= p < r ==> !#[trigger] connected(w, right, down, p, q),
    decreases q - k,
{
    if connected(w, right, down, k, q) {
        k
    } else if k == q {
        lemma_connected_refl(w, right, down, q);
        k
    } else {
        lemma_first_reaching(w, right, down, q, k + 1)
    }
}

/// Components grow only along the caller's join bits: two pixels are linked
/// exactly when both are opaque, they are 4-neighbours in the image, and the
/// join bit of the pair is set (`joins_right[p]` for `p` and the pixel to its
/// right, `joins_down[p]` for `p` and the pixel below it).
pub proof fn law_segment_links_are_joins(
    cleaned: Seq<u8>,
    width: int,
    height: int,
    joins_right: Seq<bool>,
    joins_down: Seq<bool>,
    p: int,
    q: int,
)
    requires
        width > 0,
        height > 0,
        segment_input_ok(
            cleaned.len() as int,
            width,
            height,
            joins_right.len() as int,
            joins_down.len() as int,
        ),
    ensures
        ({
            let n = width * height;
            let op = opaque_cells(cleaned, n);
            let rt = seg_right(op, joins_right);
            let dn = seg_down(op, joins_down, width);
            linked(width, rt, dn, p, q) <==> {
                &&& 0 <= p < n
                &&& 0 <= q < n
                &&& cleaned[4 * p + 3] != 0
                &&& cleaned[4 * q + 3] != 0
                &&& {
                    ||| (q == p + 1 && p % width + 1 < width && joins_right[p])
                    ||| (p == q + 1 && q % width + 1 < width && joins_right[q])
                    ||| (q == p + width && joins_down[p])
                    ||| (p == q + width && joins_down[q])
                }
            }
        }),
{
    assert(width * height > 0);
}

/// A pixel none of whose four join bits is set (`joins_right` of itself and
/// of its left neighbour, `joins_down` of itself and of the pixel above) is a
/// component of its own: nothing else is connected to it.
pub proof fn law_unjoined_pixel_stands_alone(
    cleaned: Seq<u8>,
    width: int,
    height: int,
    joins_right: Seq<bool>,
    joins_down: Seq<bool>,
    p: int,
    q: int,
)
    requires
        width > 0,
        height > 0,
        segment_input_ok(
            cleaned.len() as int,
            width,
            height,
            joins_right.len() as int,
            joins_down.len() as int,
        ),
        0 <= p < width * height,
        !joins_right[p],
        p % width > 0 ==> !joins_right[p - 1],
        !joins_down[p],
        p >= width ==> !joins_down[p - width],
    ensures
        ({
            let n = width * height;
            let op = opaque_cells(cleaned, n);
            let rt = seg_right(op, joins_right);
            let dn = seg_down(op, joins_down, width);
            connected(width, rt, dn, p, q) ==> q == p
        }),
{
    let n = width * height;
    let op = opaque_cells(cleaned, n);
    let rt = seg_right(op, joins_right);
    let dn = seg_down(op, joins_down, width);
    if connected(width, rt, dn, p, q) {
        let s = choose|s: Seq<int>| #[trigger] is_path(width, rt, dn, s) && s[0] == p && s[s.len() - 1] == q;
        if s.len() > 1 {
            assert(linked(width, rt, dn, s[0], s[1]));
            if s[1] == p - 1 {
                assert(p % width > 0) by {
                    vstd::arithmetic::div_mod::lemma_fundamental_div_mod(p - 1, width);
                    vstd::arithmetic::div_mod::lemma_fundamental_div_mod(p, width);
                    if p % width == 0 {
                        let k = p / width;
                        assert((k - 1) * width + width - 1 == k * width - 1) by (nonlinear_arith);
                        assert(width * k == k * width) by (nonlinear_arith);
                        vstd::arithmetic::div_mod::lemma_fundamental_div_mod_converse(p - 1, width, p / width - 1, width - 1);
                    }
                }
            }
            assert(false);
        }
    }
}

/// Segmentation partitions the opaque pixels: a transparent pixel lies in no
/// component, and every opaque pixel lies in exactly one.
pub proof fn law_segments_partition(cleaned: Seq<u8>, width: int, height: int, joins_right: Seq<bool>, joins_down: Seq<bool>)
    requires
        width > 0,
        height > 0,
        segment_input_ok(
            cleaned.len() as int,
            width,
            height,
            joins_right.len() as int,
            joins_down.len() as int,
        ),
    ensures
        ({
            let n = width * height;
            let op = opaque_cells(cleaned, n);
            let rt = seg_right(op, joins_right);
            let dn = seg_down(op, joins_down, width);
            let reps = seg_reps(width, rt, dn, op, n);
            &&& forall|j: int, q: int|
                0 <= j < reps.len() && 0 <= q < n && #[trigger] connected(width, rt, dn, reps[j], q) ==> op[q]
            &&& forall|q: int|
                0 <= q < n && op[q] ==> exists|j: int| 0 <= j < reps.len() && #[trigger] connected(width, rt, dn, reps[j], q)
            &&& forall|j1: int, j2: int, q: int|
                0 <= j1 < reps.len() && 0 <= j2 < reps.len() && 0 <= q < n && #[trigger] connected(width, rt, dn, reps[j1], q)
                    && #[trigger] connected(width, rt, dn, reps[j2], q) ==> j1 == j2
        }),
{
    let n = width * height;
    let op = opaque_cells(cleaned, n);
    let rt = seg_right(op, joins_right);
    let dn = seg_down(op, joins_down, width);
    let reps = seg_reps(width, rt, dn, op, n);
    let act = |q: int| op[q];
    lemma_seg_reps(width, rt, dn, op, n);
    assert forall|p: int, q: int| #[trigger] linked(width, rt, dn, p, q) implies act(p) == act(q) by {}
    assert forall|j: int, q: int|
        0 <= j < reps.len() && 0 <= q < n && #[trigger] connected(width, rt, dn, reps[j], q) implies op[q] by {
        lemma_active_along(width, rt, dn, act, reps[j], q);
    }
    assert forall|q: int| 0 <= q < n && op[q] implies exists|j: int|
        0 <= j < reps.len() && #[trigger] connected(width, rt, dn, reps[j], q) by {
        let r = lemma_first_reaching(width, rt, dn, q, 0);
        lemma_active_along(width, rt, dn, act, r, q);
        assert(is_rep(width, rt, dn, r)) by {
            assert forall|p: int| 0 <= p < r implies !#[trigger] connected(width, rt, dn, p, r) by {
                if connected(width, rt, dn, p, r) {
                    lemma_connected_trans(width, rt, dn, p, r, q);
                }
            }
        }
        assert(reps.contains(r));
        let j = choose|j: int| 0 <= j < reps.len() && reps[j] == r;
        assert(connected(width, rt, dn, reps[j], q));
    }
    assert forall|j1: int, j2: int, q: int|
        0 <= j1 < reps.len() && 0 <= j2 < reps.len() && 0 <= q < n && #[trigger] connected(width, rt, dn, reps[j1], q)
            && #[trigger] connected(width, rt, dn, reps[j2], q) implies j1 == j2 by {
        let a = reps[j1];
        let b = reps[j2];
        lemma_connected_symmetric(width, rt, dn, b, q);
        lemma_connected_trans(width, rt, dn, a, q, b);
        lemma_connected_symmetric(width, rt, dn, a, b);
        if a < b {
            assert(!connected(width, rt, dn, a, b));
        } else if b < a {
            assert(!connected(width, rt, dn, b, a));
        }
        if j1 < j2 {
            assert(reps[j1] < reps[j2]);
        } else if j2 < j1 {
            assert(reps[j2] < reps[j1]);
        }
    }
}

/// Flood `cleaned` (row-major RGBA) into 4-connected components of opaque
/// pixels. `joins_right[i]` says pixel `i` may join pixel `i + 1` (same row),
/// `joins_down[i]` that it may join pixel `i + width`; a link also needs both
/// pixels opaque (alpha not 0). Returns each component as its ascending pixel
/// indices, components ordered by their first pixel. A buffer whose length
/// is not `4 * width * height`, an empty image, or join vectors of another
/// length give no components.
pub fn segment_linked(
    cleaned: &[u8],
    width: u32,
    height: u32,
    joins_right: &[bool],
    joins_down: &[bool],
) -> (comps: Vec<Vec<usize>>)
    ensures
        !segment_input_ok(
            cleaned@.len() as int,
            width as int,
            height as int,
            joins_right@.len() as int,
            joins_down@.len() as int,
        ) ==> comps@.len() == 0,
        segment_input_ok(
            cleaned@.len() as int,
            width as int,
            height as int,
            joins_right@.len() as int,
            joins_down@.len() as int,
        ) ==> ({
            let n = width as int * height as int;
            let op = opaque_cells(cleaned@, n);
            let rt = seg_right(op, joins_right@);
            let dn = seg_down(op, joins_down@, width as int);
            let reps = seg_reps(width as int, rt, dn, op, n);
            &&& comps@.len() == reps.len()
            &&& forall|j: int| 0 <= j < comps@.len() ==> strictly_increasing(#[trigger] comps@[j]@)
            &&& forall|j: int, i: int|
                0 <= j < comps@.len() && 0 <= i < comps@[j]@.len() ==> #[trigger] comps@[j]@[i] < n
            &&& forall|j: int, q: int|
                0 <= j < comps@.len() && 0 <= q < n ==> (#[trigger] comps@[j]@.contains(q as usize)
                    <==> connected(width as int, rt, dn, reps[j], q))
        }),
{
    let w = width as usize;
    let h = height as usize;
    proof {
        assert((width as int) * (height as int) <= 0xffff_ffff * 0xffff_ffff) by (nonlinear_arith)
            requires width <= 0xffff_ffff, height <= 0xffff_ffff;
    }
    let prod = (width as u64) * (height as u64);
    if prod == 0 || cleaned.len() % 4 != 0 || (cleaned.len() / 4) as u64 != prod
        || joins_right.len() as u64 != prod || joins_down.len() as u64 != prod {
        return Vec::new();
    }
    let n = joins_right.len();
    let ghost wi = w as int;
    assert(n as int == wi * (h as int));
    proof {
        if w == 0 {
            assert(wi * (h as int) == 0) by (nonlinear_arith)
                requires wi == 0;
        }
    }
    let clen = cleaned.len();
    let mut opaque: Vec<bool> = Vec::new();
    let mut i: usize = 0;
    while i < n
        invariant
            clen == cleaned@.len(),
            n == joins_right@.len(),
            cleaned@.len() == 4 * n,
            i <= n,
            opaque@ == opaque_cells(cleaned@, n as int).take(i as int),
        decreases n - i,
    {
        opaque.push(cleaned[4 * i + 3] != 0);
        i = i + 1;
        assert(opaque@ =~= opaque_cells(cleaned@, n as int).take(i as int));
    }
    let ghost op = opaque@;
    assert(op =~= opaque_cells(cleaned@, n as int));
    let mut right: Vec<bool> = Vec::new();
    let mut down: Vec<bool> = Vec::new();
    i = 0;
    while i < n
        invariant
            n == joins_right@.len(),
            n == joins_down@.len(),
            op == opaque@,
            op.len() == n,
            i <= n,
            right@ == seg_right(op, joins_right@).take(i as int),
            down@ == seg_down(op, joins_down@, w as int).take(i as int),
        decreases n - i,
    {
        let r = i + 1 < n && joins_right[i] && opaque[i] && opaque[i + 1];
        let d = w < n && i < n - w && joins_down[i] && opaque[i] && opaque[i + w];
        right.push(r);
        down.push(d);
        i = i + 1;
        assert(right@ =~= seg_right(op, joins_right@).take(i as int));
        assert(down@ =~= seg_down(op, joins_down@, w as int).take(i as int));
    }
    let ghost rt = right@;
    let ghost dn = down@;
    assert(rt =~= seg_right(op, joins_right@));
    assert(dn =~= seg_down(op, joins_down@, wi));
    let ghost act = |q: int| op[q];
    let ghost none = |q: int| false;
    proof {
        assert(scan_shape(wi, rt, dn, act, none, act)) by {
            assert forall|p: int, q: int| #[trigger] linked(wi, rt, dn, p, q) implies act(p) == act(q) by {
            }
        }
    }
    let mut marks = filled(n, UNMARKED);
    let mut count: usize = 0;
    let ghost mut reps: Seq<int> = seq![];
    i = 0;
    while i < n
        invariant
            n == rt.len(),
            dn.len() == n,
            op.len() == n,
            op == opaque@,
            rt == right@,
            dn == down@,
            wi == w as int,
            w > 0,
            act == (|q: int| op[q]),
            none == (|q: int| false),
            scan_shape(wi, rt, dn, act, none, act),
            i <= n,
            count <= i,
            count == reps.len(),
            reps == seg_reps(wi, rt, dn, op, i as int),
            marks@.len() == n,
            seeded_marks(wi, rt, dn, marks@, i as int, act, none, act),
            forall|q: int| 0 <= q < n && #[trigger] marks@[q] != UNMARKED ==> marks@[q] < count,
            forall|j: int| 0 <= j < count ==> 0 <= #[trigger] reps[j] < i,
            forall|j: int, q: int|
                0 <= j < count && 0 <= q < n ==> (#[trigger] marks@[q] == j <==> #[trigger] connected(
                    wi,
                    rt,
                    dn,
                    reps[j],
                    q,
                )),
        decreases n - i,
    {
        let ghost pre_marks = marks@;
        let ghost pre_reps = reps;
        if opaque[i] && marks[i] == UNMARKED {
            proof {
                lemma_seeded_rep(wi, rt, dn, marks@, i as int, act, none, act);
                lemma_seeded_closed(wi, rt, dn, marks@, i as int, act, none, act);
            }
            flood(w, &right, &down, &mut marks, i, count);
            proof {
                lemma_seeded_flood(wi, rt, dn, pre_marks, marks@, i as int, act, none, act);
                reps = reps.push(i as int);
                assert forall|j: int, q: int|
                    0 <= j < count + 1 && 0 <= q < n implies (#[trigger] marks@[q] == j <==> #[trigger] connected(
                    wi,
                    rt,
                    dn,
                    reps[j],
                    q,
                )) by {
                    if j < count {
                        assert(reps[j] == pre_reps[j]);
                        if connected(wi, rt, dn, reps[j], q) && connected(wi, rt, dn, i as int, q) {
                            lemma_connected_symmetric(wi, rt, dn, i as int, q);
                            lemma_connected_trans(wi, rt, dn, reps[j], q, i as int);
                            assert(!connected(wi, rt, dn, reps[j], i as int));
                        }
                    } else {
                        assert(reps[j] == i);
                        if pre_marks[q] != UNMARKED {
                            assert(pre_marks[q] < count);
                        }
                    }
                }
            }
            count = count + 1;
        } else {
            proof {
                lemma_seeded_skip(wi, rt, dn, marks@, i as int, act, none, act);
                if op[i as int] {
                    lemma_seeded_rep(wi, rt, dn, marks@, i as int, act, none, act);
                }
            }
        }
        i = i + 1;
    }
    let mut comps: Vec<Vec<usize>> = Vec::new();
    let mut j: usize = 0;
    while j < count
        invariant
            j <= count,
            comps@.len() == j,
            forall|a: int| 0 <= a < j ==> (#[trigger] comps@[a])@.len() == 0,
        decreases count - j,
    {
        comps.push(Vec::new());
        j = j + 1;
    }
    let mut q: usize = 0;
    while q < n
        invariant
            n == marks@.len(),
            n == rt.len(),
            count == reps.len(),
            reps == seg_reps(wi, rt, dn, op, n as int),
            rt == seg_right(op, joins_right@),
            dn == seg_down(op, joins_down@, wi),
            op == opaque_cells(cleaned@, n as int),
            wi == width as int,
            n == width as int * height as int,
            forall|a: int, x: int|
                0 <= a < count && 0 <= x < n ==> (#[trigger] marks@[x] == a <==> #[trigger] connected(
                    wi,
                    rt,
                    dn,
                    reps[a],
                    x,
                )),
            q <= n,
            comps@.len() == count,
            forall|x: int| 0 <= x < n && #[trigger] marks@[x] != UNMARKED ==> marks@[x] < count,
            forall|a: int| 0 <= a < count ==> strictly_increasing(#[trigger] comps@[a]@),
            forall|a: int, b: int|
                0 <= a < count && 0 <= b < comps@[a]@.len() ==> #[trigger] comps@[a]@[b] < q,
            forall|a: int, x: int|
                0 <= a < count && 0 <= x < q ==> (#[trigger] comps@[a]@.contains(x as usize)
                    <==> marks@[x] == a),
        decreases n - q,
    {
        let l = marks[q];
        if l != UNMARKED {
            let ghost pre = comps@;
            comps[l].push(q);
            proof {
                assert forall|a: int, x: int|
                    0 <= a < count && 0 <= x < q + 1 implies (#[trigger] comps@[a]@.contains(x as usize)
                    <==> marks@[x] == a) by {
                    if x < q {
                        assert(pre[a]@.contains(x as usize) <==> marks@[x] == a);
                    }
                    if a == l {
                        assert(comps@[a]@ == pre[a]@.push(q));
                        if x == q {
                            assert(comps@[a]@[pre[a]@.len() as int] == q);
                        } else if comps@[a]@.contains(x as usize) {
                            let b = choose|b: int| 0 <= b < comps@[a]@.len() && comps@[a]@[b] == x as usize;
                            if b < pre[a]@.len() {
                                assert(pre[a]@[b] == x as usize);
                            }
                        } else if pre[a]@.contains(x as usize) {
                            let b = choose|b: int| 0 <= b < pre[a]@.len() && pre[a]@[b] == x as usize;
                            assert(comps@[a]@[b] == x as usize);
                        }
                    } else {
                        assert(comps@[a] == pre[a]);
                        if x == q {
                            if comps@[a]@.contains(x as usize) {
                                let b = choose|b: int| 0 <= b < comps@[a]@.len() && comps@[a]@[b] == x as usize;
                                assert(pre[a]@[b] < q);
                            }
                        }
                    }
                }
            }
        } else {
            proof {
                assert forall|a: int, x: int|
                    0 <= a < count && 0 <= x < q + 1 implies (#[trigger] comps@[a]@.contains(x as usize)
                    <==> marks@[x] == a) by {
                    if x == q {
                        if comps@[a]@.contains(x as usize) {
                            let b = choose|b: int| 0 <= b < comps@[a]@.len() && comps@[a]@[b] == x as usize;
                            assert(comps@[a]@[b] < q);
                        }
                    }
                }
            }
        }
        q = q + 1;
    }
    comps
}

} // verus!
