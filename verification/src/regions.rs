//! Speckle removal on an indexed (palette-mapped) image.
//!
//! After quantization a few stray pixels often end up in a different bucket
//! than the region around them. Left alone they become tiny separate paths.
//! We find 4-connected components, and any component with at most
//! `DEFAULT_MIN_REGION` pixels is repainted with the dominant palette index
//! along its border, so no holes are introduced.
use vstd::prelude::*;
use crate::components::{
    component, connected, copied, equal_down, equal_links, equal_right, filled, flood, is_rep,
    lemma_component_len, lemma_scan_marks_closed, lemma_scan_rep, lemma_scan_skip, lemma_scan_start,
    lemma_scan_step, nb, scan_marks, UNMARKED,
};

verus! {

/// Components with at most this many pixels are absorbed into a neighbour.
pub const DEFAULT_MIN_REGION: usize = 4;

/// The grid neighbour of `p` in direction `k` (left, right, up, down) exists.
/// Cells are linked downwards only within the first `lim` cells (the image's
/// rows); rows past them still see the row above.
pub open spec fn grid_nb_exists(w: int, n: int, lim: int, p: int, k: int) -> bool {
    if k == 0 {
        p % w > 0
    } else if k == 1 {
        p % w + 1 < w && p + 1 < n
    } else if k == 2 {
        p >= w
    } else {
        p + w < n && p + w < lim
    }
}

/// How many of the four neighbours of `p` lie outside the region `inside` and
/// hold the value `c` in `vals`.
pub open spec fn border_hits(
    w: int,
    lim: int,
    vals: Seq<usize>,
    inside: spec_fn(int) -> bool,
    p: int,
    c: usize,
) -> nat {
    let n = vals.len() as int;
    let hit = |k: int|
        if grid_nb_exists(w, n, lim, p, k) && !inside(nb(w, p, k)) && vals[nb(w, p, k)] == c {
            1nat
        } else {
            0nat
        };
    hit(0) + hit(1) + hit(2) + hit(3)
}

/// Sum of `f` over the cells `q < k` with `inside(q)`.
pub open spec fn range_sum(k: int, inside: spec_fn(int) -> bool, f: spec_fn(int) -> nat) -> nat
    decreases k,
{
    if k <= 0 {
        0
    } else {
        range_sum(k - 1, inside, f) + if inside(k - 1) {
            f(k - 1)
        } else {
            0
        }
    }
}

/// How often value `c` borders the region `inside`, counting one per
/// (region pixel, outside neighbour) pair.
pub open spec fn border_count(w: int, lim: int, vals: Seq<usize>, inside: spec_fn(int) -> bool, c: usize) -> nat {
    range_sum(vals.len() as int, inside, |p: int| border_hits(w, lim, vals, inside, p, c))
}

/// `c` borders the region most often, ties going to the lower value.
pub open spec fn is_dominant(w: int, lim: int, vals: Seq<usize>, inside: spec_fn(int) -> bool, c: usize) -> bool {
    &&& border_count(w, lim, vals, inside, c) > 0
    &&& forall|d: usize|
        #[trigger] border_count(w, lim, vals, inside, d) < border_count(w, lim, vals, inside, c) || (
        border_count(w, lim, vals, inside, d) == border_count(w, lim, vals, inside, c) && c <= d)
}

/// The dominant border value of a region, `None` when nothing borders it.
pub open spec fn dominant_border(w: int, lim: int, vals: Seq<usize>, inside: spec_fn(int) -> bool) -> Option<usize> {
    if exists|c: usize| is_dominant(w, lim, vals, inside, c) {
        Some(choose|c: usize| is_dominant(w, lim, vals, inside, c))
    } else {
        None
    }
}

/// A dominant value is the one `dominant_border` names.
pub proof fn lemma_dominant_unique(w: int, lim: int, vals: Seq<usize>, inside: spec_fn(int) -> bool, c: usize)
    requires
        is_dominant(w, lim, vals, inside, c),
    ensures
        dominant_border(w, lim, vals, inside) == Some(c),
{
    let d = choose|d: usize| is_dominant(w, lim, vals, inside, d);
    assert(is_dominant(w, lim, vals, inside, d));
    assert(border_count(w, lim, vals, inside, d) < border_count(w, lim, vals, inside, c) || (
        border_count(w, lim, vals, inside, d) == border_count(w, lim, vals, inside, c) && c <= d));
    assert(border_count(w, lim, vals, inside, c) < border_count(w, lim, vals, inside, d) || (
        border_count(w, lim, vals, inside, c) == border_count(w, lim, vals, inside, d) && d <= c));
}

/// Regions that agree on every cell have the same dominant border value.
pub proof fn lemma_dominant_congruent(w: int, lim: int, vals: Seq<usize>, a: spec_fn(int) -> bool, b: spec_fn(int) -> bool)
    requires
        w > 0,
        forall|q: int| 0 <= q < vals.len() ==> #[trigger] a(q) == b(q),
    ensures
        dominant_border(w, lim, vals, a) == dominant_border(w, lim, vals, b),
{
    assert forall|c: usize| #[trigger] border_count(w, lim, vals, a, c) == border_count(w, lim, vals, b, c) by {
        let n = vals.len() as int;
        assert forall|p: int| 0 <= p < n && #[trigger] a(p) implies border_hits(w, lim, vals, a, p, c) == border_hits(w, lim, vals, b, p, c) by {
            if p == 0 {
                vstd::arithmetic::div_mod::lemma_small_mod(0, w as nat);
            }
            assert(grid_nb_exists(w, n, lim, p, 0) ==> a(nb(w, p, 0)) == b(nb(w, p, 0)));
            assert(grid_nb_exists(w, n, lim, p, 1) ==> a(nb(w, p, 1)) == b(nb(w, p, 1)));
            assert(grid_nb_exists(w, n, lim, p, 2) ==> a(nb(w, p, 2)) == b(nb(w, p, 2)));
            assert(grid_nb_exists(w, n, lim, p, 3) ==> a(nb(w, p, 3)) == b(nb(w, p, 3)));
        }
        lemma_range_sum_congruent(n, a, b, |p: int| border_hits(w, lim, vals, a, p, c), |p: int| border_hits(w, lim, vals, b, p, c));
    }
    if exists|c: usize| is_dominant(w, lim, vals, a, c) {
        let c = choose|c: usize| is_dominant(w, lim, vals, a, c);
        assert(is_dominant(w, lim, vals, b, c)) by {
            assert forall|d: usize| #[trigger] border_count(w, lim, vals, b, d) < border_count(w, lim, vals, b, c) || (
                border_count(w, lim, vals, b, d) == border_count(w, lim, vals, b, c) && c <= d) by {
                assert(border_count(w, lim, vals, a, d) == border_count(w, lim, vals, b, d));
            }
        }
        lemma_dominant_unique(w, lim, vals, b, c);
    } else if exists|c: usize| is_dominant(w, lim, vals, b, c) {
        let c = choose|c: usize| is_dominant(w, lim, vals, b, c);
        assert(is_dominant(w, lim, vals, a, c)) by {
            assert forall|d: usize| #[trigger] border_count(w, lim, vals, a, d) < border_count(w, lim, vals, a, c) || (
                border_count(w, lim, vals, a, d) == border_count(w, lim, vals, a, c) && c <= d) by {
                assert(border_count(w, lim, vals, a, d) == border_count(w, lim, vals, b, d));
            }
        }
    }
}

/// The component of `r` under "equal index" links.
pub open spec fn same_index_region(idx: Seq<usize>, w: int, lim: int, r: int) -> spec_fn(int) -> bool {
    |q: int| connected(w, equal_right(idx), equal_down(idx, w, lim), r, q)
}

/// The image after repainting every small component whose first pixel lies
/// before `k`, in row-major order of those first pixels.
pub open spec fn despeckle_upto(idx: Seq<usize>, w: int, lim: int, k: int) -> Seq<usize>
    decreases k,
{
    if k <= 0 {
        idx
    } else {
        let prev = despeckle_upto(idx, w, lim, k - 1);
        let r = k - 1;
        let right = equal_right(idx);
        let down = equal_down(idx, w, lim);
        if is_rep(w, right, down, r) && component(w, right, down, r).len() <= DEFAULT_MIN_REGION {
            match dominant_border(w, lim, prev, same_index_region(idx, w, lim, r)) {
                Some(c) => Seq::new(
                    prev.len(),
                    |q: int|
                        if connected(w, right, down, r, q) {
                            c
                        } else {
                            prev[q]
                        },
                ),
                None => prev,
            }
        } else {
            prev
        }
    }
}

proof fn lemma_despeckle_unfold(idx: Seq<usize>, w: int, lim: int, r: int)
    requires
        r >= 0,
    ensures
        despeckle_upto(idx, w, lim, r + 1) == ({
            let prev = despeckle_upto(idx, w, lim, r);
            let right = equal_right(idx);
            let down = equal_down(idx, w, lim);
            if is_rep(w, right, down, r) && component(w, right, down, r).len() <= DEFAULT_MIN_REGION {
                match dominant_border(w, lim, prev, same_index_region(idx, w, lim, r)) {
                    Some(c) => Seq::new(
                        prev.len(),
                        |q: int|
                            if connected(w, right, down, r, q) {
                                c
                            } else {
                                prev[q]
                            },
                    ),
                    None => prev,
                }
            } else {
                prev
            }
        }),
        despeckle_upto(idx, w, lim, r + 1).len() == despeckle_upto(idx, w, lim, r).len(),
{
}

/// What `despeckle` returns.
pub open spec fn despeckled(idx: Seq<usize>, w: int, lim: int, palette_len: int) -> Seq<usize> {
    if idx.len() == 0 || palette_len == 0 {
        idx
    } else {
        despeckle_upto(idx, w, lim, idx.len() as int)
    }
}

/// A region's dominant border value is held by some pixel of the image.
/// A value that borders a region is held by some pixel of the image.
proof fn lemma_bordering_in_image(w: int, lim: int, vals: Seq<usize>, inside: spec_fn(int) -> bool, c: usize)
    requires
        w > 0,
        border_count(w, lim, vals, inside, c) > 0,
    ensures
        vals.contains(c),
{
    let n = vals.len() as int;
    let f = |p: int| border_hits(w, lim, vals, inside, p, c);
    let p = lemma_range_sum_witness(n, inside, f);
    vstd::arithmetic::div_mod::lemma_small_mod(0, w as nat);
    let k: int = if grid_nb_exists(w, n, lim, p, 0) && !inside(nb(w, p, 0)) && vals[nb(w, p, 0)] == c {
        0
    } else if grid_nb_exists(w, n, lim, p, 1) && !inside(nb(w, p, 1)) && vals[nb(w, p, 1)] == c {
        1
    } else if grid_nb_exists(w, n, lim, p, 2) && !inside(nb(w, p, 2)) && vals[nb(w, p, 2)] == c {
        2
    } else {
        3
    };
    assert(0 <= nb(w, p, k) < n && vals[nb(w, p, k)] == c);
}

proof fn lemma_dominant_in_image(w: int, lim: int, vals: Seq<usize>, inside: spec_fn(int) -> bool)
    requires
        w > 0,
        dominant_border(w, lim, vals, inside) is Some,
    ensures
        vals.contains(dominant_border(w, lim, vals, inside)->0),
{
    lemma_bordering_in_image(w, lim, vals, inside, dominant_border(w, lim, vals, inside)->0);
}

/// Among the first `k` pixels' values, one that borders the region most
/// often, ties going to the lower value.
proof fn lemma_best_upto(w: int, lim: int, vals: Seq<usize>, inside: spec_fn(int) -> bool, k: int) -> (c: usize)
    requires
        1 <= k <= vals.len(),
    ensures
        exists|j: int| 0 <= j < k && vals[j] == c,
        forall|j: int|
            0 <= j < k ==> border_count(w, lim, vals, inside, #[trigger] vals[j]) < border_count(w, lim, vals, inside, c)
                || (border_count(w, lim, vals, inside, vals[j]) == border_count(w, lim, vals, inside, c) && c
                <= vals[j]),
    decreases k,
{
    if k == 1 {
        vals[0]
    } else {
        let b = lemma_best_upto(w, lim, vals, inside, k - 1);
        let v = vals[k - 1];
        let bv = border_count(w, lim, vals, inside, v);
        let bb = border_count(w, lim, vals, inside, b);
        if bv > bb || (bv == bb && v < b) {
            v
        } else {
            b
        }
    }
}

/// A region has a dominant border value exactly when some value borders it;
/// `None` means nothing borders it.
pub proof fn law_dominant_exists(w: int, lim: int, vals: Seq<usize>, inside: spec_fn(int) -> bool)
    requires
        w > 0,
    ensures
        (dominant_border(w, lim, vals, inside) is Some) <==> exists|c: usize| #[trigger] border_count(w, lim, vals, inside, c) > 0,
{
    if exists|c: usize| #[trigger] border_count(w, lim, vals, inside, c) > 0 {
        let c0 = choose|c: usize| #[trigger] border_count(w, lim, vals, inside, c) > 0;
        lemma_bordering_in_image(w, lim, vals, inside, c0);
        let c = lemma_best_upto(w, lim, vals, inside, vals.len() as int);
        let j0 = choose|j: int| 0 <= j < vals.len() && vals[j] == c0;
        assert(border_count(w, lim, vals, inside, vals[j0]) <= border_count(w, lim, vals, inside, c));
        assert forall|d: usize| #[trigger] border_count(w, lim, vals, inside, d) < border_count(w, lim, vals, inside, c) || (
            border_count(w, lim, vals, inside, d) == border_count(w, lim, vals, inside, c) && c <= d) by {
            if border_count(w, lim, vals, inside, d) > 0 {
                lemma_bordering_in_image(w, lim, vals, inside, d);
                let j = choose|j: int| 0 <= j < vals.len() && vals[j] == d;
                assert(border_count(w, lim, vals, inside, vals[j]) < border_count(w, lim, vals, inside, c) || (
                    border_count(w, lim, vals, inside, vals[j]) == border_count(w, lim, vals, inside, c) && c <= vals[j]));
            }
        }
        assert(is_dominant(w, lim, vals, inside, c));
    }
    if dominant_border(w, lim, vals, inside) is Some {
        let c = choose|c: usize| is_dominant(w, lim, vals, inside, c);
        assert(is_dominant(w, lim, vals, inside, c));
        assert(border_count(w, lim, vals, inside, c) > 0);
    }
}

/// A positive sum has a cell that contributes to it.
proof fn lemma_range_sum_witness(k: int, inside: spec_fn(int) -> bool, f: spec_fn(int) -> nat) -> (p: int)
    requires
        range_sum(k, inside, f) > 0,
    ensures
        0 <= p < k,
        inside(p),
        f(p) > 0,
    decreases k,
{
    if k > 0 && inside(k - 1) && f(k - 1) > 0 {
        k - 1
    } else {
        lemma_range_sum_witness(k - 1, inside, f)
    }
}

proof fn lemma_despeckle_upto_values(idx: Seq<usize>, w: int, lim: int, k: int)
    requires
        w > 0,
    ensures
        despeckle_upto(idx, w, lim, k).len() == idx.len(),
        forall|q: int| 0 <= q < idx.len() ==> idx.contains(#[trigger] despeckle_upto(idx, w, lim, k)[q]),
    decreases k,
{
    if k <= 0 {
        assert forall|q: int| 0 <= q < idx.len() implies idx.contains(#[trigger] despeckle_upto(idx, w, lim, k)[q]) by {
            assert(idx[q] == despeckle_upto(idx, w, lim, k)[q]);
        }
    } else {
        lemma_despeckle_upto_values(idx, w, lim, k - 1);
        lemma_despeckle_unfold(idx, w, lim, k - 1);
        let prev = despeckle_upto(idx, w, lim, k - 1);
        let region = same_index_region(idx, w, lim, k - 1);
        if dominant_border(w, lim, prev, region) is Some {
            lemma_dominant_in_image(w, lim, prev, region);
            let c = dominant_border(w, lim, prev, region)->0;
            let j = choose|j: int| 0 <= j < prev.len() && prev[j] == c;
            assert(idx.contains(prev[j]));
        }
    }
}

/// Connected cells share their component.
proof fn lemma_same_component(w: int, right: Seq<bool>, down: Seq<bool>, p: int, q: int)
    requires
        connected(w, right, down, p, q),
    ensures
        component(w, right, down, p) == component(w, right, down, q),
{
    assert forall|x: int| component(w, right, down, p).contains(x) <==> component(w, right, down, q).contains(x) by {
        crate::components::lemma_connected_symmetric(w, right, down, p, q);
        if connected(w, right, down, p, x) {
            crate::components::lemma_connected_trans(w, right, down, q, p, x);
        }
        if connected(w, right, down, q, x) {
            crate::components::lemma_connected_trans(w, right, down, p, q, x);
        }
    }
    assert(component(w, right, down, p) =~= component(w, right, down, q));
}

proof fn lemma_despeckle_upto_keeps_large(idx: Seq<usize>, w: int, lim: int, k: int, q: int)
    requires
        w > 0,
        0 <= q < idx.len(),
        !(component(w, equal_right(idx), equal_down(idx, w, lim), q).len() <= DEFAULT_MIN_REGION),
    ensures
        despeckle_upto(idx, w, lim, k)[q] == idx[q],
    decreases k,
{
    if k > 0 {
        lemma_despeckle_upto_keeps_large(idx, w, lim, k - 1, q);
        lemma_despeckle_upto_values(idx, w, lim, k - 1);
        lemma_despeckle_unfold(idx, w, lim, k - 1);
        let right = equal_right(idx);
        let down = equal_down(idx, w, lim);
        if connected(w, right, down, k - 1, q) {
            lemma_same_component(w, right, down, k - 1, q);
        }
    }
}

/// Only speckles are repainted: a pixel whose same-index component has more
/// than `DEFAULT_MIN_REGION` pixels keeps its index.
pub proof fn law_despeckle_keeps_large_regions(idx: Seq<usize>, w: int, lim: int, palette_len: int, q: int)
    requires
        w > 0,
        0 <= q < idx.len(),
        !(component(w, equal_right(idx), equal_down(idx, w, lim), q).len() <= DEFAULT_MIN_REGION),
    ensures
        despeckled(idx, w, lim, palette_len)[q] == idx[q],
{
    if idx.len() > 0 && palette_len != 0 {
        lemma_despeckle_upto_keeps_large(idx, w, lim, idx.len() as int, q);
    }
}

/// Speckle removal only repaints with indices already in the image: every
/// output index occurs somewhere in the input, and the size is kept.
pub proof fn law_despeckle_adds_no_index(idx: Seq<usize>, w: int, lim: int, palette_len: int)
    requires
        w > 0 || idx.len() == 0,
    ensures
        despeckled(idx, w, lim, palette_len).len() == idx.len(),
        forall|q: int|
            0 <= q < idx.len() ==> idx.contains(#[trigger] despeckled(idx, w, lim, palette_len)[q]),
{
    if idx.len() > 0 && palette_len != 0 {
        lemma_despeckle_upto_values(idx, w, lim, idx.len() as int);
    } else {
        assert forall|q: int| 0 <= q < idx.len() implies idx.contains(#[trigger] despeckled(idx, w, lim, palette_len)[q]) by {
            assert(idx[q] == despeckled(idx, w, lim, palette_len)[q]);
        }
    }
}

/// Number of occurrences of `c` in `s`.
pub open spec fn occurrences(s: Seq<usize>, c: usize) -> nat
    decreases s.len(),
{
    if s.len() == 0 {
        0
    } else {
        occurrences(s.drop_last(), c) + if s.last() == c {
            1nat
        } else {
            0nat
        }
    }
}

proof fn lemma_occurrences_push(s: Seq<usize>, x: usize, c: usize)
    ensures
        occurrences(s.push(x), c) == occurrences(s, c) + if x == c {
            1nat
        } else {
            0nat
        },
{
    assert(s.push(x).drop_last() =~= s);
}

proof fn lemma_occurrences_pos(s: Seq<usize>, c: usize)
    ensures
        occurrences(s, c) > 0 <==> s.contains(c),
    decreases s.len(),
{
    if s.len() > 0 {
        lemma_occurrences_pos(s.drop_last(), c);
        if s.drop_last().contains(c) {
            let i = choose|i: int| 0 <= i < s.drop_last().len() && s.drop_last()[i] == c;
            assert(s[i] == c);
        }
        if s.contains(c) {
            let i = choose|i: int| 0 <= i < s.len() && s[i] == c;
            if i < s.len() - 1 {
                assert(s.drop_last()[i] == c);
            }
        }
    }
}

/// Sum of `f` over a list of cells.
pub open spec fn seq_sum(s: Seq<usize>, f: spec_fn(int) -> nat) -> nat
    decreases s.len(),
{
    if s.len() == 0 {
        0
    } else {
        seq_sum(s.drop_last(), f) + f(s.last() as int)
    }
}

proof fn lemma_range_sum_congruent(k: int, a: spec_fn(int) -> bool, b: spec_fn(int) -> bool, f: spec_fn(int) -> nat, g: spec_fn(int) -> nat)
    requires
        forall|q: int| 0 <= q < k ==> #[trigger] a(q) == b(q),
        forall|q: int| 0 <= q < k && #[trigger] a(q) ==> f(q) == g(q),
    ensures
        range_sum(k, a, f) == range_sum(k, b, g),
    decreases k,
{
    if k > 0 {
        lemma_range_sum_congruent(k - 1, a, b, f, g);
    }
}

proof fn lemma_range_sum_insert(k: int, a: spec_fn(int) -> bool, b: spec_fn(int) -> bool, x: int, f: spec_fn(int) -> nat)
    requires
        !a(x),
        b(x),
        forall|q: int| q != x ==> #[trigger] a(q) == b(q),
    ensures
        range_sum(k, b, f) == range_sum(k, a, f) + if 0 <= x < k {
            f(x)
        } else {
            0
        },
    decreases k,
{
    if k > 0 {
        lemma_range_sum_insert(k - 1, a, b, x, f);
    }
}

/// Summing over a duplicate-free list is summing over the set it lists.
proof fn lemma_seq_sum_is_range_sum(s: Seq<usize>, n: int, inside: spec_fn(int) -> bool, f: spec_fn(int) -> nat)
    requires
        s.no_duplicates(),
        forall|i: int| 0 <= i < s.len() ==> #[trigger] s[i] < n,
        forall|q: int| 0 <= q < n ==> (#[trigger] inside(q) <==> s.contains(q as usize)),
        n <= usize::MAX + 1,
    ensures
        seq_sum(s, f) == range_sum(n, inside, f),
    decreases s.len(),
{
    let t = s.drop_last();
    let inside_t = |q: int| 0 <= q < n && t.contains(q as usize);
    if s.len() == 0 {
        let none = |q: int| false;
        lemma_range_sum_congruent(n, inside, none, f, f);
        lemma_range_sum_zero(n, f);
    } else {
        let x = s.last();
        assert(t.no_duplicates());
        assert forall|q: int| 0 <= q < n implies (#[trigger] inside_t(q) <==> t.contains(q as usize)) by {}
        lemma_seq_sum_is_range_sum(t, n, inside_t, f);
        assert(!t.contains(x)) by {
            if t.contains(x) {
                let i = choose|i: int| 0 <= i < t.len() && t[i] == x;
                assert(s[i] == s[s.len() - 1]);
            }
        }
        let inside_s = |q: int| 0 <= q < n && s.contains(q as usize);
        assert forall|q: int| q != x as int implies #[trigger] inside_t(q) == inside_s(q) by {
            if 0 <= q < n && s.contains(q as usize) {
                let i = choose|i: int| 0 <= i < s.len() && s[i] == q as usize;
                if i < s.len() - 1 {
                    assert(t[i] == q as usize);
                }
            }
            if 0 <= q < n && t.contains(q as usize) {
                let i = choose|i: int| 0 <= i < t.len() && t[i] == q as usize;
                assert(s[i] == q as usize);
            }
        }
        assert(s[s.len() - 1] < n);
        assert(inside_s(x as int)) by {
            assert(s[s.len() - 1] == x);
        }
        lemma_range_sum_insert(n, inside_t, inside_s, x as int, f);
        lemma_range_sum_congruent(n, inside_s, inside, f, f);
    }
}

proof fn lemma_range_sum_zero(k: int, f: spec_fn(int) -> nat)
    ensures
        range_sum(k, |q: int| false, f) == 0,
    decreases k,
{
    if k > 0 {
        lemma_range_sum_zero(k - 1, f);
    }
}

/// The border hits of pixel `p` for value `c`, counted directly.
fn hits_of(
    vals: &Vec<usize>,
    labels: &Vec<usize>,
    own: usize,
    w: usize,
    lim: usize,
    p: usize,
    border: &mut Vec<usize>,
)
    requires
        w > 0,
        p < vals@.len(),
        labels@.len() == vals@.len(),
    ensures
        forall|c: usize| #[trigger] occurrences(final(border)@, c) == occurrences(old(border)@, c)
            + border_hits(w as int, lim as int, vals@, |q: int| labels@[q] == own, p as int, c),
{
    let n = vals.len();
    let ghost inside = |q: int| labels@[q] == own;
    let ghost start = border@;
    let x = p % w;
    proof {
        vstd::arithmetic::div_mod::lemma_mod_bound(p as int, w as int);
        if p == 0 {
            vstd::arithmetic::div_mod::lemma_small_mod(0, w as nat);
        }
    }
    let ghost b0 = border@;
    if x > 0 && labels[p - 1] != own {
        border.push(vals[p - 1]);
    }
    let ghost b1 = border@;
    if x + 1 < w && p + 1 < n && labels[p + 1] != own {
        border.push(vals[p + 1]);
    }
    let ghost b2 = border@;
    if p >= w && labels[p - w] != own {
        border.push(vals[p - w]);
    }
    let ghost b3 = border@;
    if w < n && p < n - w && w < lim && p < lim - w && labels[p + w] != own {
        border.push(vals[p + w]);
    }
    proof {
        assert forall|c: usize| #[trigger] occurrences(border@, c) == occurrences(start, c)
            + border_hits(w as int, lim as int, vals@, inside, p as int, c) by {
            if b1.len() > b0.len() { lemma_occurrences_push(b0, vals@[p - 1], c); }
            if b2.len() > b1.len() { lemma_occurrences_push(b1, vals@[p + 1], c); }
            if b3.len() > b2.len() { lemma_occurrences_push(b2, vals@[p - w], c); }
            if border@.len() > b3.len() { lemma_occurrences_push(b3, vals@[p + w], c); }
        }
    }
}

/// Count of `c` in `s`.
fn count_of(s: &Vec<usize>, c: usize) -> (res: usize)
    ensures
        res == occurrences(s@, c),
{
    let mut k: usize = 0;
    let mut i: usize = 0;
    while i < s.len()
        invariant
            i <= s@.len(),
            k == occurrences(s@.take(i as int), c),
            k <= i,
        decreases s@.len() - i,
    {
        proof {
            assert(s@.take(i + 1) =~= s@.take(i as int).push(s@[i as int]));
            lemma_occurrences_push(s@.take(i as int), s@[i as int], c);
        }
        if s[i] == c {
            k = k + 1;
        }
        i = i + 1;
    }
    assert(s@.take(i as int) =~= s@);
    k
}

/// Most common palette index among pixels adjacent to this component but
/// outside it. Returns `None` if the component touches nothing else (e.g. it
/// is the whole image).
pub fn dominant_border_color(
    indices: &Vec<usize>,
    labels: &Vec<usize>,
    pixels: &Vec<usize>,
    w: usize,
    h: usize,
) -> (res: Option<usize>)
    requires
        w > 0,
        indices@.len() >= w * h,
        labels@.len() == indices@.len(),
        pixels@.len() > 0,
        pixels@.no_duplicates(),
        forall|i: int| 0 <= i < pixels@.len() ==> #[trigger] pixels@[i] < indices@.len(),
        forall|q: int|
            0 <= q < indices@.len() ==> (#[trigger] labels@[q] == labels@[pixels@[0] as int]
                <==> pixels@.contains(q as usize)),
    ensures
        res == dominant_border(w as int, w as int * h as int, indices@, |q: int| labels@[q] == labels@[pixels@[0] as int]),
{
    let n = indices.len();
    let lim = w * h;
    let own = labels[pixels[0]];
    let ghost inside = |q: int| labels@[q] == own;
    let mut border: Vec<usize> = Vec::new();
    let mut j: usize = 0;
    while j < pixels.len()
        invariant
            w > 0,
            lim == w * h,
            n == indices@.len(),
            labels@.len() == n,
            j <= pixels@.len(),
            forall|i: int| 0 <= i < pixels@.len() ==> #[trigger] pixels@[i] < n,
            inside == (|q: int| labels@[q] == own),
            forall|c: usize| #[trigger] occurrences(border@, c) == seq_sum(
                pixels@.take(j as int),
                |p: int| border_hits(w as int, w as int * h as int, indices@, inside, p, c),
            ),
        decreases pixels@.len() - j,
    {
        let ghost before = border@;
        hits_of(indices, labels, own, w, lim, pixels[j], &mut border);
        proof {
            assert forall|c: usize| #[trigger] occurrences(border@, c) == seq_sum(
                pixels@.take(j + 1),
                |p: int| border_hits(w as int, w as int * h as int, indices@, inside, p, c),
            ) by {
                assert(pixels@.take(j + 1).drop_last() =~= pixels@.take(j as int));
                assert(occurrences(before, c) == seq_sum(pixels@.take(j as int), |p: int| border_hits(w as int, w as int * h as int, indices@, inside, p, c)));
            }
        }
        j = j + 1;
    }
    proof {
        assert(pixels@.take(j as int) =~= pixels@);
        assert forall|c: usize| #[trigger] occurrences(border@, c) == border_count(w as int, w as int * h as int, indices@, inside, c) by {
            assert(occurrences(border@, c) == seq_sum(pixels@, |p: int| border_hits(w as int, w as int * h as int, indices@, inside, p, c)));
            lemma_seq_sum_is_range_sum(pixels@, n as int, inside, |p: int| border_hits(w as int, w as int * h as int, indices@, inside, p, c));
        }
    }
    // Pick the most frequent border value, ties to the lower index.
    let mut best: Option<usize> = None;
    let mut best_count: usize = 0;
    let mut i: usize = 0;
    while i < border.len()
        invariant
            i <= border@.len(),
            best is None <==> i == 0,
            best matches Some(b) ==> best_count == occurrences(border@, b) && border@.contains(b),
            forall|k: int|
                0 <= k < i ==> #[trigger] occurrences(border@, border@[k]) < best_count || (
                occurrences(border@, border@[k]) == best_count && best->0 <= border@[k]),
        decreases border@.len() - i,
    {
        let c = border[i];
        let cnt = count_of(&border, c);
        match best {
            None => {
                best = Some(c);
                best_count = cnt;
            },
            Some(b) => {
                if cnt > best_count || (cnt == best_count && c < b) {
                    best = Some(c);
                    best_count = cnt;
                }
            },
        }
        i = i + 1;
    }
    proof {
        let f = |c: usize| border_count(w as int, w as int * h as int, indices@, inside, c);
        match best {
            None => {
                let li: int = w as int * h as int;
                assert forall|c: usize| !#[trigger] is_dominant(w as int, li, indices@, inside, c) by {
                    lemma_occurrences_pos(border@, c);
                }
            },
            Some(b) => {
                assert(is_dominant(w as int, w as int * h as int, indices@, inside, b)) by {
                    lemma_occurrences_pos(border@, b);
                    assert forall|d: usize| #[trigger] border_count(w as int, w as int * h as int, indices@, inside, d) < border_count(w as int, w as int * h as int, indices@, inside, b) || (
                        border_count(w as int, w as int * h as int, indices@, inside, d) == border_count(w as int, w as int * h as int, indices@, inside, b) && b <= d) by {
                        lemma_occurrences_pos(border@, d);
                        if border@.contains(d) {
                            let k = choose|k: int| 0 <= k < border@.len() && border@[k] == d;
                            assert(occurrences(border@, border@[k]) < best_count || (
                                occurrences(border@, border@[k]) == best_count && b <= border@[k]));
                        }
                    }
                }
                lemma_dominant_unique(w as int, w as int * h as int, indices@, inside, b);
            },
        }
        assert(inside =~= (|q: int| labels@[q] == labels@[pixels@[0] as int]));
    }
    best
}

/// Merge sub-threshold connected components into their bordering color.
/// `indices` is row-major palette indices; returns a cleaned copy.
pub fn despeckle(indices: &[usize], width: u32, height: u32, palette_len: usize) -> (out: Vec<usize>)
    requires
        indices@.len() == 0 || palette_len == 0 || (width > 0 && (indices@.len() as int) % (width as int) == 0
            && indices@.len() >= width as int * height as int),
    ensures
        out@ == despeckled(indices@, width as int, width as int * height as int, palette_len as int),
{
    if indices.len() == 0 || palette_len == 0 {
        return copied(indices);
    }
    let w = width as usize;
    let h = height as usize;
    let n = indices.len();
    let lim = w * h;
    let ghost wi = w as int;
    let (right, down) = equal_links(indices, w, lim);
    let ghost rt = right@;
    let ghost dn = down@;
    let mut labels = filled(n, UNMARKED);
    let mut out = copied(indices);
    proof {
        lemma_scan_start(wi, rt, dn, labels@);
        assert(out@ == despeckle_upto(indices@, wi, width as int * height as int, 0));
    }
    let mut start: usize = 0;
    while start < n
        invariant
            w > 0,
            wi == w as int,
            n == indices@.len(),
            (n as int) % wi == 0,
            lim == w as int * h as int,
            lim == width as int * height as int,
            lim <= n,
            h == height as usize,
            rt == right@,
            dn == down@,
            rt == equal_right(indices@),
            dn == equal_down(indices@, wi, width as int * height as int),
            rt.len() == n,
            dn.len() == n,
            start <= n,
            scan_marks(wi, rt, dn, labels@, start as int),
            forall|q: int|
                0 <= q < n && #[trigger] labels@[q] != UNMARKED ==> labels@[q] < start,
            out@ == despeckle_upto(indices@, wi, width as int * height as int, start as int),
            out@.len() == n,
        decreases n - start,
    {
        let ghost prev_labels = labels@;
        let ghost prev_out = out@;
        proof {
            lemma_scan_rep(wi, rt, dn, labels@, start as int);
        }
        if labels[start] == UNMARKED {
            proof {
                lemma_scan_marks_closed(wi, rt, dn, labels@, start as int);
            }
            let pixels = flood(w, &right, &down, &mut labels, start, start);
            proof {
                lemma_scan_step(wi, rt, dn, prev_labels, labels@, start as int);
                lemma_component_len(wi, rt, dn, start as int, pixels@);
                assert forall|q: int| 0 <= q < n implies (#[trigger] labels@[q] == labels@[pixels@[0] as int]
                    <==> pixels@.contains(q as usize)) by {
                    if prev_labels[q] != UNMARKED {
                        assert(prev_labels[q] < start);
                    }
                }
            }
            let ghost region = same_index_region(indices@, wi, width as int * height as int, start as int);
            let ghost small = component(wi, rt, dn, start as int).len() <= DEFAULT_MIN_REGION;
            proof {
                assert(is_rep(wi, rt, dn, start as int));
                lemma_despeckle_unfold(indices@, wi, width as int * height as int, start as int);
            }
            if pixels.len() <= DEFAULT_MIN_REGION {
                let found = dominant_border_color(&out, &labels, &pixels, w, h);
                proof {
                    let by_label = |q: int| labels@[q] == labels@[pixels@[0] as int];
                    assert forall|q: int| 0 <= q < out@.len() implies #[trigger] by_label(q) == region(q) by {
                        assert(pixels@.contains(q as usize) <==> connected(wi, rt, dn, start as int, q));
                    }
                    lemma_dominant_congruent(wi, width as int * height as int, out@, by_label, region);
                }
                match found {
                    Some(c) => {
                        let mut j: usize = 0;
                        while j < pixels.len()
                            invariant
                                j <= pixels@.len(),
                                out@.len() == n,
                                forall|i: int| 0 <= i < pixels@.len() ==> #[trigger] pixels@[i] < n,
                                forall|q: int|
                                    0 <= q < n ==> #[trigger] out@[q] == if pixels@.take(j as int).contains(q as usize) {
                                        c
                                    } else {
                                        prev_out[q]
                                    },
                            decreases pixels@.len() - j,
                        {
                            let q = pixels[j];
                            out.set(q, c);
                            proof {
                                let ghost t1 = pixels@.take(j + 1);
                                let ghost t0 = pixels@.take(j as int);
                                assert(t1 =~= t0.push(q));
                                assert forall|x: usize| #[trigger] t1.contains(x) <==> (t0.contains(x) || x == q) by {
                                    if t1.contains(x) {
                                        let i = choose|i: int| 0 <= i < t1.len() && t1[i] == x;
                                        if i < t0.len() {
                                            assert(t0[i] == x);
                                        }
                                    }
                                    if t0.contains(x) {
                                        let i = choose|i: int| 0 <= i < t0.len() && t0[i] == x;
                                        assert(t1[i] == x);
                                    }
                                    if x == q {
                                        assert(t1[j as int] == x);
                                    }
                                }
                            }
                            j = j + 1;
                        }
                        proof {
                            assert(pixels@.take(j as int) =~= pixels@);
                            assert forall|q: int| 0 <= q < n implies #[trigger] out@[q] == if connected(wi, rt, dn, start as int, q) {
                                c
                            } else {
                                prev_out[q]
                            } by {
                                assert(pixels@.contains(q as usize) <==> connected(wi, rt, dn, start as int, q));
                            }
                            assert(out@ =~= despeckle_upto(indices@, wi, width as int * height as int, start + 1));
                        }
                    },
                    None => {
                        assert(out@ =~= despeckle_upto(indices@, wi, width as int * height as int, start + 1));
                    },
                }
            } else {
                assert(out@ =~= despeckle_upto(indices@, wi, width as int * height as int, start + 1));
            }
        } else {
            proof {
                lemma_scan_skip(wi, rt, dn, labels@, start as int);
                assert(out@ =~= despeckle_upto(indices@, wi, width as int * height as int, start + 1));
            }
        }
        start = start + 1;
    }
    out
}

} // verus!
