//! Connected components on a row-major pixel grid.
//!
//! A grid of `n` cells and width `w` is described by link bit-vectors:
//! `right[i]` joins cell `i` to `i + 1` (same row), `down[i]` joins cell `i`
//! to `i + w`. For 8-connectivity `down` carries two more blocks of `n` bits:
//! `down[n + i]` joins `i` to the cell below-right, `i + w + 1`, and
//! `down[2n + i]` joins `i` to the cell below-left, `i + w - 1`. Every client
//! (speckle removal, color segmentation, region outline tracing) states its
//! own notion of "same region" by filling these bits, and then shares the
//! flood fill below, proved once.
use vstd::prelude::*;
use vstd::set_lib::{set_int_range, lemma_int_range, lemma_len_subset};

verus! {

/// Marker for a cell that no flood has reached yet.
pub const UNMARKED: usize = usize::MAX;

/// The link vectors have one of the two shapes: 4-connected (`down` has `n`
/// bits) or 8-connected (`down` has `3n`).
pub open spec fn links_ok(right: Seq<bool>, down: Seq<bool>) -> bool {
    down.len() == right.len() || down.len() == 3 * right.len()
}

/// `p` and `q` are neighbours whose link bit is set.
pub open spec fn linked(w: int, right: Seq<bool>, down: Seq<bool>, p: int, q: int) -> bool {
    let n = right.len() as int;
    let diag = down.len() == 3 * n;
    &&& 0 <= p < n
    &&& 0 <= q < n
    &&& {
        ||| (q == p + 1 && p % w + 1 < w && right[p])
        ||| (p == q + 1 && q % w + 1 < w && right[q])
        ||| (q == p + w && down[p])
        ||| (p == q + w && down[q])
        ||| (diag && q == p + w + 1 && p % w + 1 < w && down[n + p])
        ||| (diag && p == q + w + 1 && q % w + 1 < w && down[n + q])
        ||| (diag && q == p + w - 1 && p % w > 0 && down[2 * n + p])
        ||| (diag && p == q + w - 1 && q % w > 0 && down[2 * n + q])
    }
}

/// A walk through the grid along set links.
pub open spec fn is_path(w: int, right: Seq<bool>, down: Seq<bool>, s: Seq<int>) -> bool {
    &&& s.len() > 0
    &&& forall|i: int| 0 <= i < s.len() ==> 0 <= #[trigger] s[i] < right.len()
    &&& forall|i: int|
        0 <= i < s.len() - 1 ==> linked(w, right, down, #[trigger] s[i], s[i + 1])
}

/// `q` can be reached from `p` along set links.
pub open spec fn connected(w: int, right: Seq<bool>, down: Seq<bool>, p: int, q: int) -> bool {
    exists|s: Seq<int>|
        #[trigger] is_path(w, right, down, s) && s[0] == p && s[s.len() - 1] == q
}

/// The marked cells form a union of components: no link leaves them.
pub open spec fn marks_closed(w: int, right: Seq<bool>, down: Seq<bool>, m: Seq<usize>) -> bool {
    forall|p: int, q: int|
        #[trigger] linked(w, right, down, p, q) && m[p] != UNMARKED ==> m[q] != UNMARKED
}

/// `r` is the first cell, in row-major order, of its component.
pub open spec fn is_rep(w: int, right: Seq<bool>, down: Seq<bool>, r: int) -> bool {
    &&& 0 <= r < right.len()
    &&& forall|q: int| 0 <= q < r ==> !#[trigger] connected(w, right, down, q, r)
}

/// The set of cells in the component of `r`.
pub open spec fn component(w: int, right: Seq<bool>, down: Seq<bool>, r: int) -> Set<int> {
    Set::new(|q: int| connected(w, right, down, r, q))
}

pub proof fn lemma_connected_refl(w: int, right: Seq<bool>, down: Seq<bool>, p: int)
    requires
        0 <= p < right.len(),
    ensures
        connected(w, right, down, p, p),
{
    let s = seq![p];
    assert(is_path(w, right, down, s));
}

pub proof fn lemma_connected_step(w: int, right: Seq<bool>, down: Seq<bool>, p: int, q: int, r: int)
    requires
        connected(w, right, down, p, q),
        linked(w, right, down, q, r),
    ensures
        connected(w, right, down, p, r),
{
    let s = choose|s: Seq<int>| #[trigger] is_path(w, right, down, s) && s[0] == p && s[s.len() - 1] == q;
    let t = s.push(r);
    assert forall|i: int| 0 <= i < t.len() - 1 implies linked(w, right, down, #[trigger] t[i], t[i + 1]) by {
        if i < s.len() - 1 {
            assert(t[i] == s[i] && t[i + 1] == s[i + 1]);
        }
    }
    assert(is_path(w, right, down, t));
}

pub proof fn lemma_connected_symmetric(w: int, right: Seq<bool>, down: Seq<bool>, p: int, q: int)
    requires
        connected(w, right, down, p, q),
    ensures
        connected(w, right, down, q, p),
{
    let s = choose|s: Seq<int>| #[trigger] is_path(w, right, down, s) && s[0] == p && s[s.len() - 1] == q;
    let t = s.reverse();
    assert forall|i: int| 0 <= i < t.len() - 1 implies linked(w, right, down, #[trigger] t[i], t[i + 1]) by {
        let j = s.len() - 2 - i;
        assert(linked(w, right, down, s[j], s[j + 1]));
        assert(t[i] == s[j + 1] && t[i + 1] == s[j]);
    }
    assert(is_path(w, right, down, t));
}

pub proof fn lemma_connected_trans(w: int, right: Seq<bool>, down: Seq<bool>, p: int, q: int, r: int)
    requires
        connected(w, right, down, p, q),
        connected(w, right, down, q, r),
    ensures
        connected(w, right, down, p, r),
{
    let s = choose|s: Seq<int>| #[trigger] is_path(w, right, down, s) && s[0] == p && s[s.len() - 1] == q;
    let t = choose|t: Seq<int>| #[trigger] is_path(w, right, down, t) && t[0] == q && t[t.len() - 1] == r;
    let u = s + t.drop_first();
    assert forall|i: int| 0 <= i < u.len() implies 0 <= #[trigger] u[i] < right.len() by {
        if i >= s.len() {
            assert(u[i] == t[i - s.len() + 1]);
        }
    }
    assert forall|i: int| 0 <= i < u.len() - 1 implies linked(w, right, down, #[trigger] u[i], u[i + 1]) by {
        if i < s.len() - 1 {
            assert(u[i] == s[i] && u[i + 1] == s[i + 1]);
        } else if i == s.len() - 1 {
            assert(u[i] == t[0] && u[i + 1] == t[1]);
            assert(linked(w, right, down, t[0], t[1]));
        } else {
            let j = i - s.len() + 1;
            assert(u[i] == t[j] && u[i + 1] == t[j + 1]);
            assert(linked(w, right, down, t[j], t[j + 1]));
        }
    }
    assert(is_path(w, right, down, u));
    assert(u[u.len() - 1] == r) by {
        if t.len() == 1 {
            assert(q == r);
        }
    }
}

/// Connected cells are in range.
pub proof fn lemma_connected_in_range(w: int, right: Seq<bool>, down: Seq<bool>, p: int, q: int)
    requires
        connected(w, right, down, p, q),
    ensures
        0 <= p < right.len(),
        0 <= q < right.len(),
{
    let s = choose|s: Seq<int>| #[trigger] is_path(w, right, down, s) && s[0] == p && s[s.len() - 1] == q;
    assert(0 <= s[0] < right.len());
    assert(0 <= s[s.len() - 1] < right.len());
}

/// A property that no link leaves, and that holds at `p`, holds on the whole
/// component of `p`.
pub proof fn lemma_closed_reach(
    w: int,
    right: Seq<bool>,
    down: Seq<bool>,
    marked: spec_fn(int) -> bool,
    p: int,
    q: int,
)
    requires
        forall|a: int, b: int| #[trigger] linked(w, right, down, a, b) && marked(a) ==> marked(b),
        marked(p),
        connected(w, right, down, p, q),
    ensures
        marked(q),
{
    let s = choose|s: Seq<int>| #[trigger] is_path(w, right, down, s) && s[0] == p && s[s.len() - 1] == q;
    lemma_closed_along(w, right, down, marked, s, s.len() - 1);
}

proof fn lemma_closed_along(
    w: int,
    right: Seq<bool>,
    down: Seq<bool>,
    marked: spec_fn(int) -> bool,
    s: Seq<int>,
    i: int,
)
    requires
        forall|a: int, b: int| #[trigger] linked(w, right, down, a, b) && marked(a) ==> marked(b),
        is_path(w, right, down, s),
        marked(s[0]),
        0 <= i < s.len(),
    ensures
        marked(s[i]),
    decreases i,
{
    if i > 0 {
        lemma_closed_along(w, right, down, marked, s, i - 1);
        assert(linked(w, right, down, s[i - 1], s[i]));
    }
}

/// A duplicate-free list of cells below `n` has at most `n` entries.
pub proof fn lemma_distinct_bounded(s: Seq<usize>, n: nat)
    requires
        s.no_duplicates(),
        forall|i: int| 0 <= i < s.len() ==> #[trigger] s[i] < n,
    ensures
        s.len() <= n,
{
    let t = s.map_values(|x: usize| x as int);
    assert(t.no_duplicates()) by {
        assert forall|i: int, j: int| 0 <= i < t.len() && 0 <= j < t.len() && i != j implies t[i] != t[j] by {
            assert(s[i] != s[j]);
        }
    }
    t.unique_seq_to_set();
    lemma_int_range(0, n as int);
    assert forall|x: int| t.to_set().contains(x) implies set_int_range(0, n as int).contains(x) by {
        let i = choose|i: int| 0 <= i < t.len() && t[i] == x;
        assert(s[i] < n);
    }
    lemma_len_subset(t.to_set(), set_int_range(0, n as int));
}

proof fn lemma_mod_left(p: int, w: int)
    requires
        w > 0,
        p >= 0,
        p % w > 0,
    ensures
        (p - 1) % w + 1 == p % w,
{
    vstd::arithmetic::div_mod::lemma_fundamental_div_mod(p, w);
    vstd::arithmetic::div_mod::lemma_fundamental_div_mod(p - 1, w);
    vstd::arithmetic::div_mod::lemma_mod_sub_multiples_vanish(p - 1, w);
    assert((p - 1) % w == p % w - 1) by {
        vstd::arithmetic::div_mod::lemma_sub_mod_noop(p, 1, w);
        vstd::arithmetic::div_mod::lemma_small_mod(1, w as nat);
        vstd::arithmetic::div_mod::lemma_small_mod((p % w - 1) as nat, w as nat);
    }
}

proof fn lemma_mod_right(p: int, w: int)
    requires
        w > 0,
        p >= 0,
        p % w + 1 < w,
    ensures
        (p + 1) % w == p % w + 1,
{
    vstd::arithmetic::div_mod::lemma_add_mod_noop(p, 1, w);
    vstd::arithmetic::div_mod::lemma_small_mod(1, w as nat);
    vstd::arithmetic::div_mod::lemma_small_mod((p % w + 1) as nat, w as nat);
}

/// The cell in direction `k` (left, right, up, down, then the diagonals
/// below-right, above-left, below-left, above-right) of `p`.
pub open spec fn nb(w: int, p: int, k: int) -> int {
    if k == 0 {
        p - 1
    } else if k == 1 {
        p + 1
    } else if k == 2 {
        p - w
    } else if k == 3 {
        p + w
    } else if k == 4 {
        p + w + 1
    } else if k == 5 {
        p - w - 1
    } else if k == 6 {
        p + w - 1
    } else {
        p - w + 1
    }
}

/// The link from `p` towards direction `k` exists and is set.
pub open spec fn dir_link(w: int, right: Seq<bool>, down: Seq<bool>, p: int, k: int) -> bool {
    let n = right.len() as int;
    let diag = down.len() == 3 * n;
    if k == 0 {
        p % w > 0 && right[p - 1]
    } else if k == 1 {
        p % w + 1 < w && p + 1 < n && right[p]
    } else if k == 2 {
        p >= w && down[p - w]
    } else if k == 3 {
        p + w < n && down[p]
    } else if k == 4 {
        diag && p % w + 1 < w && p + w + 1 < n && down[n + p]
    } else if k == 5 {
        diag && p % w > 0 && p >= w + 1 && down[n + p - w - 1]
    } else if k == 6 {
        diag && p % w > 0 && p + w - 1 < n && down[2 * n + p]
    } else {
        diag && p % w + 1 < w && p >= w && down[2 * n + p - w + 1]
    }
}

/// Row position of the diagonal neighbours.
proof fn lemma_mod_shift(p: int, w: int)
    requires
        w > 0,
        p >= 0,
    ensures
        (p + w) % w == p % w,
        p >= w ==> (p - w) % w == p % w,
{
    vstd::arithmetic::div_mod::lemma_mod_add_multiples_vanish(p, w);
    if p >= w {
        vstd::arithmetic::div_mod::lemma_mod_sub_multiples_vanish(p, w);
    }
}

proof fn lemma_dir_link_linked(w: int, right: Seq<bool>, down: Seq<bool>, p: int, k: int)
    requires
        w > 0,
        0 <= p < right.len(),
        links_ok(right, down),
        0 <= k < 8,
        dir_link(w, right, down, p, k),
    ensures
        linked(w, right, down, p, nb(w, p, k)),
{
    if p == 0 {
        vstd::arithmetic::div_mod::lemma_small_mod(0, w as nat);
    }
    if k == 0 {
        lemma_mod_left(p, w);
    } else if k == 5 {
        lemma_mod_left(p, w);
        lemma_mod_shift(p - 1, w);
    } else if k == 7 {
        vstd::arithmetic::div_mod::lemma_mod_bound(p, w);
        lemma_mod_right(p, w);
        lemma_mod_shift(p + 1 - w, w);
    }
}

proof fn lemma_linked_is_dir(w: int, right: Seq<bool>, down: Seq<bool>, p: int, q: int)
    requires
        w > 0,
        links_ok(right, down),
        linked(w, right, down, p, q),
    ensures
        exists|k: int| 0 <= k < 8 && #[trigger] nb(w, p, k) == q && dir_link(w, right, down, p, k),
{
    let n = right.len() as int;
    let diag = down.len() == 3 * n;
    if q == p + 1 && p % w + 1 < w && right[p] {
        assert(nb(w, p, 1) == q && dir_link(w, right, down, p, 1));
    } else if p == q + 1 && q % w + 1 < w && right[q] {
        vstd::arithmetic::div_mod::lemma_mod_bound(q, w);
        lemma_mod_right(q, w);
        assert(nb(w, p, 0) == q && dir_link(w, right, down, p, 0));
    } else if q == p + w && down[p] {
        assert(nb(w, p, 3) == q && dir_link(w, right, down, p, 3));
    } else if p == q + w && down[q] {
        assert(nb(w, p, 2) == q && dir_link(w, right, down, p, 2));
    } else if diag && q == p + w + 1 && p % w + 1 < w && down[n + p] {
        assert(nb(w, p, 4) == q && dir_link(w, right, down, p, 4));
    } else if diag && p == q + w + 1 && q % w + 1 < w && down[n + q] {
        vstd::arithmetic::div_mod::lemma_mod_bound(q, w);
        lemma_mod_right(q, w);
        lemma_mod_shift(q + 1, w);
        assert(nb(w, p, 5) == q && dir_link(w, right, down, p, 5));
    } else if diag && q == p + w - 1 && p % w > 0 && down[2 * n + p] {
        assert(nb(w, p, 6) == q && dir_link(w, right, down, p, 6));
    } else {
        assert(diag && p == q + w - 1 && q % w > 0 && down[2 * n + q]);
        if q == 0 {
            vstd::arithmetic::div_mod::lemma_small_mod(0, w as nat);
        }
        lemma_mod_left(q, w);
        lemma_mod_shift(q - 1, w);
        assert(nb(w, p, 7) == q && dir_link(w, right, down, p, 7));
    }
}

/// The neighbour of `p` in direction `k`, when the link to it is set.
fn linked_neighbour(w: usize, right: &Vec<bool>, down: &Vec<bool>, p: usize, k: usize) -> (res:
    Option<usize>)
    requires
        w > 0,
        links_ok(right@, down@),
        p < right@.len(),
        k < 8,
    ensures
        res == if dir_link(w as int, right@, down@, p as int, k as int) {
            Some(nb(w as int, p as int, k as int) as usize)
        } else {
            None::<usize>
        },
{
    let n = right.len();
    let diag = down.len() != n;
    let x = p % w;
    proof {
        if p == 0 {
            vstd::arithmetic::div_mod::lemma_small_mod(0, w as nat);
        }
    }
    if k == 0 {
        if x > 0 {
            if right[p - 1] {
                return Some(p - 1);
            }
        }
        None
    } else if k == 1 {
        if x + 1 < w && p + 1 < n {
            if right[p] {
                return Some(p + 1);
            }
        }
        None
    } else if k == 2 {
        if p >= w {
            if down[p - w] {
                return Some(p - w);
            }
        }
        None
    } else if k == 3 {
        if w < n && p < n - w {
            if down[p] {
                return Some(p + w);
            }
        }
        None
    } else if k == 4 {
        if diag && x + 1 < w && n - p - 1 > w {
            if down[n + p] {
                return Some(p + w + 1);
            }
        }
        None
    } else if k == 5 {
        if diag && x > 0 && p > w {
            if down[n + p - w - 1] {
                return Some(p - w - 1);
            }
        }
        None
    } else if k == 6 {
        if diag && x > 0 && n - p > w - 1 {
            if down[2 * n + p] {
                return Some(p + w - 1);
            }
        }
        None
    } else {
        if diag && x + 1 < w && p >= w {
            if down[2 * n + p - w + 1] {
                return Some(p - w + 1);
            }
        }
        None
    }
}

/// The bookkeeping of a flood in progress: `pixels` were expanded, `stack`
/// waits, and together they are exactly the cells newly marked so far.
pub open spec fn flood_inv(
    w: int,
    right: Seq<bool>,
    down: Seq<bool>,
    start: int,
    label: usize,
    old_marks: Seq<usize>,
    marks: Seq<usize>,
    pixels: Seq<usize>,
    stack: Seq<usize>,
) -> bool {
    let n = right.len() as int;
    &&& n <= usize::MAX
    &&& marks.len() == n
    &&& old_marks.len() == n
    &&& forall|i: int| 0 <= i < stack.len() ==> #[trigger] stack[i] < n
    &&& forall|i: int| 0 <= i < pixels.len() ==> #[trigger] pixels[i] < n
    &&& forall|q: int|
        0 <= q < n ==> #[trigger] marks[q] == old_marks[q] || (old_marks[q] == UNMARKED
            && marks[q] == label)
    &&& forall|i: int|
        0 <= i < pixels.len() ==> old_marks[#[trigger] pixels[i] as int] == UNMARKED
            && marks[pixels[i] as int] != UNMARKED
    &&& forall|i: int|
        0 <= i < stack.len() ==> old_marks[#[trigger] stack[i] as int] == UNMARKED
            && marks[stack[i] as int] != UNMARKED
    &&& forall|q: int|
        0 <= q < n && old_marks[q] == UNMARKED && #[trigger] marks[q] != UNMARKED ==> (
        pixels.contains(q as usize) || stack.contains(q as usize))
    &&& forall|q: int|
        0 <= q < n && old_marks[q] == UNMARKED && #[trigger] marks[q] != UNMARKED
            ==> connected(w, right, down, start, q)
    &&& (pixels + stack).no_duplicates()
    &&& forall|i: int, q: int|
        0 <= i < pixels.len() && #[trigger] linked(w, right, down, pixels[i] as int, q)
            ==> #[trigger] marks[q] != UNMARKED
    &&& pixels.len() == 0 ==> stack == seq![start as usize]
    &&& pixels.len() > 0 ==> pixels[0] == start
}

/// One round of the flood keeps its bookkeeping.
proof fn lemma_flood_round(
    w: int,
    right: Seq<bool>,
    down: Seq<bool>,
    start: int,
    label: usize,
    old_marks: Seq<usize>,
    pre_marks: Seq<usize>,
    pre_pixels: Seq<usize>,
    pre_stack: Seq<usize>,
    marks: Seq<usize>,
    pixels: Seq<usize>,
    stack: Seq<usize>,
    base: Seq<usize>,
    pushed: Seq<usize>,
    p: usize,
)
    requires
        w > 0,
        links_ok(right, down),
        label != UNMARKED,
        flood_inv(w, right, down, start, label, old_marks, pre_marks, pre_pixels, pre_stack),
        pre_stack == base.push(p),
        pixels == pre_pixels.push(p),
        stack == base + pushed,
        marks.len() == pre_marks.len(),
        forall|c: int|
            0 <= c < marks.len() ==> #[trigger] marks[c] == if pushed.contains(c as usize) {
                label
            } else {
                pre_marks[c]
            },
        pushed.no_duplicates(),
        forall|i: int|
            0 <= i < pushed.len() ==> pre_marks[#[trigger] pushed[i] as int] == UNMARKED
                && linked(w, right, down, p as int, pushed[i] as int),
        forall|q: int| #[trigger] linked(w, right, down, p as int, q) ==> marks[q] != UNMARKED,
    ensures
        flood_inv(w, right, down, start, label, old_marks, marks, pixels, stack),
        (pixels + stack).len() <= right.len(),
{
    let n = right.len() as int;
    assert(pre_pixels + pre_stack =~= (pre_pixels + base).push(p));
    assert(pixels + stack =~= (pre_pixels.push(p) + base) + pushed);
    // p is in range and newly marked, so each pushed cell is connected to start.
    assert(pre_stack[pre_stack.len() - 1] == p);
    assert forall|i: int| 0 <= i < pushed.len() implies connected(w, right, down, start, #[trigger] pushed[i] as int) by {
        assert(old_marks[p as int] == UNMARKED && pre_marks[p as int] != UNMARKED);
        lemma_connected_step(w, right, down, start, p as int, pushed[i] as int);
    }
    // No duplicates: pushed cells were unmarked, everything listed before was marked.
    let a = pre_pixels + pre_stack;
    let b = pixels + stack;
    assert(b.no_duplicates()) by {
        assert forall|i: int, j: int| 0 <= i < b.len() && 0 <= j < b.len() && i != j implies b[i] != b[j] by {
            let m = pre_pixels.len() + base.len() + 1;
            let fi = if i < pre_pixels.len() { i } else if i == pre_pixels.len() { a.len() - 1 } else { i - 1 };
            let fj = if j < pre_pixels.len() { j } else if j == pre_pixels.len() { a.len() - 1 } else { j - 1 };
            if i < m && j < m {
                assert(b[i] == a[fi]);
                assert(b[j] == a[fj]);
            } else if i >= m && j >= m {
                assert(b[i] == pushed[i - m]);
                assert(b[j] == pushed[j - m]);
            } else if i >= m {
                assert(b[i] == pushed[i - m]);
                assert(b[j] == a[fj]);
                assert(pre_marks[a[fj] as int] != UNMARKED);
            } else {
                assert(b[j] == pushed[j - m]);
                assert(b[i] == a[fi]);
                assert(pre_marks[a[fi] as int] != UNMARKED);
            }
        }
    }
    assert forall|i: int| 0 <= i < stack.len() implies old_marks[#[trigger] stack[i] as int] == UNMARKED
        && marks[stack[i] as int] != UNMARKED by {
        if i < base.len() {
            assert(stack[i] == pre_stack[i]);
        } else {
            assert(stack[i] == pushed[i - base.len()]);
            assert(pushed.contains(stack[i]));
        }
    }
    assert forall|i: int| 0 <= i < pixels.len() implies old_marks[#[trigger] pixels[i] as int] == UNMARKED
        && marks[pixels[i] as int] != UNMARKED by {
        if i < pre_pixels.len() {
            assert(pixels[i] == pre_pixels[i]);
        } else {
            assert(pixels[i] == pre_stack[pre_stack.len() - 1]);
        }
    }
    assert forall|q: int|
        0 <= q < n && old_marks[q] == UNMARKED && #[trigger] marks[q] != UNMARKED implies (
        pixels.contains(q as usize) || stack.contains(q as usize)) by {
        if pushed.contains(q as usize) {
            let k = choose|k: int| 0 <= k < pushed.len() && pushed[k] == q as usize;
            assert(stack[base.len() + k] == q as usize);
        } else if pre_pixels.contains(q as usize) {
            let k = choose|k: int| 0 <= k < pre_pixels.len() && pre_pixels[k] == q as usize;
            assert(pixels[k] == q as usize);
        } else {
            assert(pre_stack.contains(q as usize));
            let k = choose|k: int| 0 <= k < pre_stack.len() && pre_stack[k] == q as usize;
            if k == base.len() {
                assert(pixels[pixels.len() - 1] == q as usize);
            } else {
                assert(stack[k] == q as usize);
            }
        }
    }
    assert forall|q: int|
        0 <= q < n && old_marks[q] == UNMARKED && #[trigger] marks[q] != UNMARKED implies connected(w, right, down, start, q) by {
        if pushed.contains(q as usize) {
            let k = choose|k: int| 0 <= k < pushed.len() && pushed[k] == q as usize;
            assert(pushed[k] as int == q);
            assert(connected(w, right, down, start, pushed[k] as int));
        } else {
            assert(pre_marks[q] != UNMARKED);
        }
    }
    assert forall|i: int, q: int|
        0 <= i < pixels.len() && #[trigger] linked(w, right, down, pixels[i] as int, q)
            implies #[trigger] marks[q] != UNMARKED by {
        if i < pre_pixels.len() {
            assert(pixels[i] == pre_pixels[i]);
            assert(pre_marks[q] != UNMARKED);
        }
    }
    assert forall|i: int| 0 <= i < stack.len() implies #[trigger] stack[i] < n by {
        if i < base.len() {
            assert(stack[i] == pre_stack[i]);
        } else {
            assert(stack[i] == pushed[i - base.len()]);
            assert(linked(w, right, down, p as int, pushed[i - base.len()] as int));
        }
    }
    assert forall|i: int| 0 <= i < pixels.len() implies #[trigger] pixels[i] < n by {
        if i < pre_pixels.len() {
            assert(pixels[i] == pre_pixels[i]);
        } else {
            assert(pixels[i] == pre_stack[pre_stack.len() - 1]);
        }
    }
    assert forall|i: int| 0 <= i < b.len() implies #[trigger] b[i] < n by {
        if i < pixels.len() {
            assert(b[i] == pixels[i]);
        } else {
            assert(b[i] == stack[i - pixels.len()]);
        }
    }
    lemma_distinct_bounded(b, n as nat);
}

/// When the stack is empty, no link leaves the marked cells.
proof fn lemma_flood_closed(
    w: int,
    right: Seq<bool>,
    down: Seq<bool>,
    start: int,
    label: usize,
    old_marks: Seq<usize>,
    marks: Seq<usize>,
    pixels: Seq<usize>,
)
    requires
        w > 0,
        links_ok(right, down),
        label != UNMARKED,
        marks_closed(w, right, down, old_marks),
        flood_inv(w, right, down, start, label, old_marks, marks, pixels, Seq::empty()),
    ensures
        forall|a: int, b: int| #[trigger] linked(w, right, down, a, b) && marks[a] != UNMARKED ==> marks[b] != UNMARKED,
{
    assert forall|a: int, b: int| #[trigger] linked(w, right, down, a, b) && marks[a] != UNMARKED implies marks[b] != UNMARKED by {
        if old_marks[a] != UNMARKED {
            assert(old_marks[b] != UNMARKED);
            assert(marks[b] == old_marks[b] || marks[b] == label);
        } else {
            assert(pixels.contains(a as usize) || Seq::<usize>::empty().contains(a as usize));
            let i = choose|i: int| 0 <= i < pixels.len() && pixels[i] == a as usize;
            assert(pixels[i] as int == a);
            assert(linked(w, right, down, pixels[i] as int, b));
        }
    }
}

/// A finished flood (empty stack) reached exactly the component of `start`.
proof fn lemma_flood_done(
    w: int,
    right: Seq<bool>,
    down: Seq<bool>,
    start: int,
    label: usize,
    old_marks: Seq<usize>,
    marks: Seq<usize>,
    pixels: Seq<usize>,
)
    requires
        w > 0,
        links_ok(right, down),
        label != UNMARKED,
        0 <= start < right.len(),
        marks_closed(w, right, down, old_marks),
        flood_inv(w, right, down, start, label, old_marks, marks, pixels, Seq::empty()),
    ensures
        forall|q: int|
            0 <= q < right.len() ==> #[trigger] marks[q] == if connected(w, right, down, start, q) {
                label
            } else {
                old_marks[q]
            },
        forall|q: int| #[trigger] connected(w, right, down, start, q) ==> old_marks[q] == UNMARKED,
        pixels.no_duplicates(),
        pixels.len() > 0,
        pixels[0] == start,
        forall|q: int|
            0 <= q < right.len() ==> (pixels.contains(q as usize) <==> #[trigger] connected(
                w,
                right,
                down,
                start,
                q,
            )),
{
    let n = right.len() as int;
    assert(pixels + Seq::<usize>::empty() =~= pixels);
    lemma_flood_closed(w, right, down, start, label, old_marks, marks, pixels);
    let marked = |q: int| marks[q] != UNMARKED;
    assert forall|q: int| #[trigger] connected(w, right, down, start, q) implies old_marks[q] == UNMARKED by {
        lemma_connected_in_range(w, right, down, start, q);
        if old_marks[q] != UNMARKED {
            lemma_connected_symmetric(w, right, down, start, q);
            let om = |c: int| old_marks[c] != UNMARKED;
            lemma_closed_reach(w, right, down, om, q, start);
        }
    }
    assert(marks[start] != UNMARKED) by {
        assert(pixels[0] == start as usize);
    }
    assert forall|q: int| 0 <= q < n implies #[trigger] marks[q] == if connected(w, right, down, start, q) {
        label
    } else {
        old_marks[q]
    } by {
        if connected(w, right, down, start, q) {
            lemma_closed_reach(w, right, down, marked, start, q);
        } else if marks[q] != old_marks[q] {
            assert(pixels.contains(q as usize) || Seq::<usize>::empty().contains(q as usize));
            let i = choose|i: int| 0 <= i < pixels.len() && pixels[i] == q as usize;
            assert(pixels[i] as int == q);
        }
    }
    assert forall|q: int| 0 <= q < n implies (pixels.contains(q as usize) <==> #[trigger] connected(
        w, right, down, start, q)) by {
        if connected(w, right, down, start, q) {
            lemma_closed_reach(w, right, down, marked, start, q);
            assert(pixels.contains(q as usize) || Seq::<usize>::empty().contains(q as usize));
        }
        if pixels.contains(q as usize) {
            let i = choose|i: int| 0 <= i < pixels.len() && pixels[i] == q as usize;
            assert(old_marks[pixels[i] as int] == UNMARKED);
            assert(pixels[i] as int == q);
        }
    }
}

/// Flood the component of `start` along set links, giving every reached cell
/// the mark `label`. Returns the reached cells, `start` first.
pub fn flood(
    w: usize,
    right: &Vec<bool>,
    down: &Vec<bool>,
    marks: &mut Vec<usize>,
    start: usize,
    label: usize,
) -> (pixels: Vec<usize>)
    requires
        w > 0,
        links_ok(right@, down@),
        old(marks)@.len() == right@.len(),
        start < right@.len(),
        old(marks)@[start as int] == UNMARKED,
        label != UNMARKED,
        marks_closed(w as int, right@, down@, old(marks)@),
    ensures
        final(marks)@.len() == old(marks)@.len(),
        forall|q: int|
            0 <= q < right@.len() ==> #[trigger] final(marks)@[q] == if connected(
                w as int,
                right@,
                down@,
                start as int,
                q,
            ) {
                label
            } else {
                old(marks)@[q]
            },
        forall|q: int|
            #[trigger] connected(w as int, right@, down@, start as int, q) ==> old(marks)@[q]
                == UNMARKED,
        pixels@.no_duplicates(),
        pixels@.len() > 0,
        pixels@[0] == start,
        forall|i: int| 0 <= i < pixels@.len() ==> #[trigger] pixels@[i] < right@.len(),
        forall|q: int|
            0 <= q < right@.len() ==> (pixels@.contains(q as usize) <==> #[trigger] connected(
                w as int,
                right@,
                down@,
                start as int,
                q,
            )),
{
    let ghost wi = w as int;
    let ghost r = right@;
    let ghost d = down@;
    let ghost old_marks = marks@;
    let n = right.len();
    marks.set(start, label);
    let mut stack: Vec<usize> = Vec::new();
    stack.push(start);
    let mut pixels: Vec<usize> = Vec::new();
    proof {
        lemma_connected_refl(wi, r, d, start as int);
        assert(pixels@ + stack@ =~= seq![start]);
        assert(stack@ =~= seq![start]);
        assert forall|q: int|
            0 <= q < n && old_marks[q] == UNMARKED && #[trigger] marks@[q] != UNMARKED implies (
            pixels@.contains(q as usize) || stack@.contains(q as usize)) by {
            assert(q == start);
            assert(stack@[0] == start);
        }
    }
    while stack.len() > 0
        invariant
            n == r.len(),
            links_ok(r, d),
            wi == w as int,
            w > 0,
            r == right@,
            d == down@,
            start < n,
            label != UNMARKED,
            flood_inv(wi, r, d, start as int, label, old_marks, marks@, pixels@, stack@),
        decreases n - pixels@.len(),
    {
        let ghost pre_pixels = pixels@;
        let ghost pre_stack = stack@;
        let ghost pre_marks = marks@;
        let p = stack.pop().unwrap();
        let ghost base = stack@;
        pixels.push(p);
        let ghost mut pushed: Seq<usize> = Seq::empty();
        let mut k: usize = 0;
        assert(stack@ =~= base + pushed);
        while k < 8
            invariant
                k <= 8,
                p < n,
                n == r.len(),
                links_ok(r, d),
                wi == w as int,
                w > 0,
                r == right@,
                d == down@,
                label != UNMARKED,
                marks@.len() == n,
                pre_marks.len() == n,
                stack@ == base + pushed,
                forall|c: int|
                    0 <= c < n ==> #[trigger] marks@[c] == if pushed.contains(c as usize) {
                        label
                    } else {
                        pre_marks[c]
                    },
                pushed.no_duplicates(),
                forall|i: int|
                    0 <= i < pushed.len() ==> pre_marks[#[trigger] pushed[i] as int] == UNMARKED
                        && linked(wi, r, d, p as int, pushed[i] as int),
                forall|j: int|
                    0 <= j < k && #[trigger] dir_link(wi, r, d, p as int, j)
                        ==> marks@[nb(wi, p as int, j)] != UNMARKED,
            decreases 8 - k,
        {
            let ghost iter_marks = marks@;
            let cand = linked_neighbour(w, right, down, p, k);
            proof {
                if dir_link(wi, r, d, p as int, k as int) {
                    lemma_dir_link_linked(wi, r, d, p as int, k as int);
                }
            }
            if let Some(q) = cand {
                if marks[q] == UNMARKED {
                    let ghost prev_marks = marks@;
                    let ghost old_pushed = pushed;
                    marks.set(q, label);
                    stack.push(q);
                    proof {
                        assert(!old_pushed.contains(q)) by {
                            if old_pushed.contains(q) {
                                let i = choose|i: int| 0 <= i < old_pushed.len() && old_pushed[i] == q;
                                assert(prev_marks[q as int] == label);
                            }
                        }
                        pushed = old_pushed.push(q);
                        assert(stack@ =~= base + pushed);
                        assert forall|c: usize| #[trigger] pushed.contains(c) <==> (old_pushed.contains(c) || c == q) by {
                            if old_pushed.contains(c) {
                                let i = choose|i: int| 0 <= i < old_pushed.len() && old_pushed[i] == c;
                                assert(pushed[i] == c);
                            }
                            if c == q {
                                assert(pushed[pushed.len() - 1] == c);
                            }
                            if pushed.contains(c) {
                                let i = choose|i: int| 0 <= i < pushed.len() && pushed[i] == c;
                                if i < old_pushed.len() {
                                    assert(old_pushed[i] == c);
                                }
                            }
                        }
                        assert forall|c: int| 0 <= c < n implies #[trigger] marks@[c] == if pushed.contains(c as usize) {
                            label
                        } else {
                            pre_marks[c]
                        } by {
                            assert(pushed.contains(c as usize) <==> (old_pushed.contains(c as usize) || c == q));
                        }
                        assert forall|i: int|
                            0 <= i < pushed.len() implies pre_marks[#[trigger] pushed[i] as int] == UNMARKED
                                && linked(wi, r, d, p as int, pushed[i] as int) by {
                            if i < old_pushed.len() {
                                assert(pushed[i] == old_pushed[i]);
                            }
                        }
                    }
                }
            }
            proof {
                assert forall|j: int|
                    0 <= j < k + 1 && #[trigger] dir_link(wi, r, d, p as int, j)
                        implies marks@[nb(wi, p as int, j)] != UNMARKED by {
                    let qq = nb(wi, p as int, j);
                    lemma_dir_link_linked(wi, r, d, p as int, j);
                    assert(0 <= qq < n);
                    if j == k {
                        assert(cand == Some(qq as usize));
                        assert(qq as usize as int == qq);
                    } else {
                        assert(iter_marks[qq] != UNMARKED);
                        assert(marks@[qq] == iter_marks[qq] || marks@[qq] == label);
                    }
                }
            }
            k = k + 1;
        }
        proof {
            assert forall|q: int| #[trigger] linked(wi, r, d, p as int, q) implies marks@[q] != UNMARKED by {
                lemma_linked_is_dir(wi, r, d, p as int, q);
                let j = choose|j: int| 0 <= j < 8 && #[trigger] nb(wi, p as int, j) == q && dir_link(wi, r, d, p as int, j);
            }
            assert(pre_stack =~= base.push(p));
            lemma_flood_round(wi, r, d, start as int, label, old_marks, pre_marks, pre_pixels,
                pre_stack, marks@, pixels@, stack@, base, pushed, p);
        }
    }
    proof {
        assert(stack@ =~= Seq::<usize>::empty());
        lemma_flood_done(wi, r, d, start as int, label, old_marks, marks@, pixels@);
    }
    pixels
}








} // verus!

verus! {

/// Some cell before `k` in row-major order reaches `q`.
pub open spec fn reached_before(w: int, right: Seq<bool>, down: Seq<bool>, k: int, q: int) -> bool {
    exists|r: int| 0 <= r < k && #[trigger] connected(w, right, down, r, q)
}

/// Marks that record exactly the components met by a row-major scan up to `k`.
pub open spec fn scan_marks(w: int, right: Seq<bool>, down: Seq<bool>, m: Seq<usize>, k: int) -> bool {
    &&& m.len() == right.len()
    &&& forall|q: int|
        0 <= q < right.len() ==> (#[trigger] m[q] != UNMARKED <==> reached_before(w, right, down, k, q))
}

/// The cells reached by a scan prefix form a union of components.
pub proof fn lemma_scan_marks_closed(w: int, right: Seq<bool>, down: Seq<bool>, m: Seq<usize>, k: int)
    requires
        scan_marks(w, right, down, m, k),
    ensures
        marks_closed(w, right, down, m),
{
    assert forall|p: int, q: int| #[trigger] linked(w, right, down, p, q) && m[p] != UNMARKED implies m[q] != UNMARKED by {
        let r = choose|r: int| 0 <= r < k && #[trigger] connected(w, right, down, r, p);
        lemma_connected_step(w, right, down, r, p, q);
    }
}

/// During a scan, an unmarked cell is the first cell of its component.
pub proof fn lemma_scan_rep(w: int, right: Seq<bool>, down: Seq<bool>, m: Seq<usize>, k: int)
    requires
        scan_marks(w, right, down, m, k),
        0 <= k < right.len(),
    ensures
        (m[k] == UNMARKED) <==> is_rep(w, right, down, k),
{
    if m[k] == UNMARKED {
        assert forall|q: int| 0 <= q < k implies !#[trigger] connected(w, right, down, q, k) by {
            if connected(w, right, down, q, k) {
                assert(reached_before(w, right, down, k, k));
            }
        }
    } else {
        let r = choose|r: int| 0 <= r < k && #[trigger] connected(w, right, down, r, k);
        assert(!is_rep(w, right, down, k));
    }
}

/// Advancing a scan past `k`: the marks gain the component of `k`.
pub proof fn lemma_scan_step(
    w: int,
    right: Seq<bool>,
    down: Seq<bool>,
    m: Seq<usize>,
    m2: Seq<usize>,
    k: int,
)
    requires
        scan_marks(w, right, down, m, k),
        0 <= k < right.len(),
        m2.len() == m.len(),
        forall|q: int|
            0 <= q < right.len() ==> (#[trigger] m2[q] != UNMARKED <==> (m[q] != UNMARKED
                || connected(w, right, down, k, q))),
    ensures
        scan_marks(w, right, down, m2, k + 1),
{
    assert forall|q: int| 0 <= q < right.len() implies (#[trigger] m2[q] != UNMARKED <==> reached_before(w, right, down, k + 1, q)) by {
        if connected(w, right, down, k, q) {
            assert(reached_before(w, right, down, k + 1, q));
        }
        if reached_before(w, right, down, k + 1, q) {
            let r = choose|r: int| 0 <= r < k + 1 && #[trigger] connected(w, right, down, r, q);
            if r < k {
                assert(reached_before(w, right, down, k, q));
            }
        }
    }
}

/// A scan that already met `k` gains nothing by passing it.
pub proof fn lemma_scan_skip(w: int, right: Seq<bool>, down: Seq<bool>, m: Seq<usize>, k: int)
    requires
        scan_marks(w, right, down, m, k),
        0 <= k < right.len(),
        m[k] != UNMARKED,
    ensures
        scan_marks(w, right, down, m, k + 1),
        forall|q: int| #[trigger] connected(w, right, down, k, q) ==> m[q] != UNMARKED,
{
    let r = choose|r: int| 0 <= r < k && #[trigger] connected(w, right, down, r, k);
    assert forall|q: int| #[trigger] connected(w, right, down, k, q) implies m[q] != UNMARKED by {
        lemma_connected_trans(w, right, down, r, k, q);
        lemma_connected_in_range(w, right, down, k, q);
        assert(reached_before(w, right, down, k, q));
    }
    assert forall|q: int| 0 <= q < right.len() implies (#[trigger] m[q] != UNMARKED <==> reached_before(w, right, down, k + 1, q)) by {
        if reached_before(w, right, down, k + 1, q) {
            let r2 = choose|r2: int| 0 <= r2 < k + 1 && #[trigger] connected(w, right, down, r2, q);
            if r2 == k {
                lemma_connected_trans(w, right, down, r, k, q);
                assert(reached_before(w, right, down, k, q));
            } else {
                assert(reached_before(w, right, down, k, q));
            }
        }
    }
}

/// An empty scan has marked nothing.
pub proof fn lemma_scan_start(w: int, right: Seq<bool>, down: Seq<bool>, m: Seq<usize>)
    requires
        m.len() == right.len(),
        forall|q: int| 0 <= q < m.len() ==> #[trigger] m[q] == UNMARKED,
    ensures
        scan_marks(w, right, down, m, 0),
{
}

/// Links between equal neighbouring values (row-major, width `w`).
pub open spec fn equal_right(vals: Seq<usize>) -> Seq<bool> {
    Seq::new(vals.len(), |i: int| i + 1 < vals.len() && vals[i] == vals[i + 1])
}

pub open spec fn equal_down(vals: Seq<usize>, w: int, lim: int) -> Seq<bool> {
    Seq::new(vals.len(), |i: int| i + w < vals.len() && i + w < lim && vals[i] == vals[i + w])
}

/// Build the links that join 4-neighbours holding equal values.
pub fn equal_links(vals: &[usize], w: usize, lim: usize) -> (res: (Vec<bool>, Vec<bool>))
    ensures
        res.0@ == equal_right(vals@),
        res.1@ == equal_down(vals@, w as int, lim as int),
{
    let n = vals.len();
    let mut right: Vec<bool> = Vec::new();
    let mut down: Vec<bool> = Vec::new();
    let mut i: usize = 0;
    while i < n
        invariant
            n == vals@.len(),
            i <= n,
            right@ == equal_right(vals@).take(i as int),
            down@ == equal_down(vals@, w as int, lim as int).take(i as int),
        decreases n - i,
    {
        let r = i + 1 < n && vals[i] == vals[i + 1];
        let d = w < n && i < n - w && w < lim && i < lim - w && vals[i] == vals[i + w];
        right.push(r);
        down.push(d);
        i = i + 1;
        assert(right@ =~= equal_right(vals@).take(i as int));
        assert(down@ =~= equal_down(vals@, w as int, lim as int).take(i as int));
    }
    assert(right@ =~= equal_right(vals@));
    assert(down@ =~= equal_down(vals@, w as int, lim as int));
    (right, down)
}

/// A vector of `n` copies of `v`.
pub fn filled(n: usize, v: usize) -> (res: Vec<usize>)
    ensures
        res@ == Seq::new(n as nat, |i: int| v),
{
    let mut res: Vec<usize> = Vec::new();
    let mut i: usize = 0;
    while i < n
        invariant
            i <= n,
            res@ == Seq::new(i as nat, |j: int| v),
        decreases n - i,
    {
        res.push(v);
        i = i + 1;
        assert(res@ =~= Seq::new(i as nat, |j: int| v));
    }
    res
}

/// A copy of `v`.
pub fn copied(v: &[usize]) -> (res: Vec<usize>)
    ensures
        res@ == v@,
{
    let mut res: Vec<usize> = Vec::new();
    let mut i: usize = 0;
    while i < v.len()
        invariant
            i <= v@.len(),
            res@ == v@.take(i as int),
        decreases v@.len() - i,
    {
        res.push(v[i]);
        i = i + 1;
        assert(res@ =~= v@.take(i as int));
    }
    assert(res@ =~= v@);
    res
}

/// The flood of a component lists as many cells as the component has.
pub proof fn lemma_component_len(w: int, right: Seq<bool>, down: Seq<bool>, r: int, pixels: Seq<usize>)
    requires
        right.len() <= usize::MAX,
        pixels.no_duplicates(),
        forall|i: int| 0 <= i < pixels.len() ==> #[trigger] pixels[i] < right.len(),
        forall|q: int|
            0 <= q < right.len() ==> (pixels.contains(q as usize) <==> #[trigger] connected(w, right, down, r, q)),
    ensures
        component(w, right, down, r).finite(),
        component(w, right, down, r).len() == pixels.len(),
{
    let t = pixels.map_values(|x: usize| x as int);
    assert(t.no_duplicates()) by {
        assert forall|i: int, j: int| 0 <= i < t.len() && 0 <= j < t.len() && i != j implies t[i] != t[j] by {
            assert(pixels[i] != pixels[j]);
        }
    }
    t.unique_seq_to_set();
    assert forall|q: int| #[trigger] t.to_set().contains(q) <==> component(w, right, down, r).contains(q) by {
        if t.to_set().contains(q) {
            let i = choose|i: int| 0 <= i < t.len() && t[i] == q;
            assert(pixels[i] < right.len());
            assert(pixels.contains(q as usize));
        }
        if component(w, right, down, r).contains(q) {
            lemma_connected_in_range(w, right, down, r, q);
            assert(pixels.contains(q as usize));
            let i = choose|i: int| 0 <= i < pixels.len() && pixels[i] == q as usize;
            assert(t[i] == q);
        }
    }
    assert(t.to_set() =~= component(w, right, down, r));
}

/// A scan that floods from chosen seed cells: after passing cells `0 .. k`,
/// a cell is marked exactly when it is active and either already in `base`
/// or reached from a seed before `k`.
pub open spec fn seeded_marks(
    w: int,
    right: Seq<bool>,
    down: Seq<bool>,
    m: Seq<usize>,
    k: int,
    active: spec_fn(int) -> bool,
    base: spec_fn(int) -> bool,
    seed: spec_fn(int) -> bool,
) -> bool {
    &&& m.len() == right.len()
    &&& forall|q: int|
        0 <= q < right.len() ==> (#[trigger] m[q] != UNMARKED <==> (active(q) && (base(q) || exists|r: int|
            0 <= r < k && #[trigger] seed(r) && connected(w, right, down, r, q))))
}

/// The conditions under which a seeded scan keeps its marks closed: links
/// stay within the active cells, `base` is a union of components inside them,
/// and every seed is active.
pub open spec fn scan_shape(
    w: int,
    right: Seq<bool>,
    down: Seq<bool>,
    active: spec_fn(int) -> bool,
    base: spec_fn(int) -> bool,
    seed: spec_fn(int) -> bool,
) -> bool {
    &&& forall|p: int, q: int| #[trigger] linked(w, right, down, p, q) ==> active(p) == active(q)
    &&& forall|p: int, q: int| #[trigger] linked(w, right, down, p, q) && base(p) ==> base(q)
    &&& forall|q: int| #[trigger] base(q) ==> active(q)
    &&& forall|q: int| #[trigger] seed(q) ==> active(q)
}

pub proof fn lemma_active_along(
    w: int,
    right: Seq<bool>,
    down: Seq<bool>,
    active: spec_fn(int) -> bool,
    p: int,
    q: int,
)
    requires
        forall|a: int, b: int| #[trigger] linked(w, right, down, a, b) ==> active(a) == active(b),
        connected(w, right, down, p, q),
    ensures
        active(p) == active(q),
{
    if active(p) {
        lemma_closed_reach(w, right, down, active, p, q);
    } else {
        let inactive = |c: int| !active(c);
        lemma_closed_reach(w, right, down, inactive, p, q);
    }
}

pub proof fn lemma_seeded_closed(
    w: int,
    right: Seq<bool>,
    down: Seq<bool>,
    m: Seq<usize>,
    k: int,
    active: spec_fn(int) -> bool,
    base: spec_fn(int) -> bool,
    seed: spec_fn(int) -> bool,
)
    requires
        seeded_marks(w, right, down, m, k, active, base, seed),
        scan_shape(w, right, down, active, base, seed),
    ensures
        marks_closed(w, right, down, m),
{
    assert forall|p: int, q: int| #[trigger] linked(w, right, down, p, q) && m[p] != UNMARKED implies m[q] != UNMARKED by {
        assert(active(p) == active(q));
        if base(p) {
            assert(base(q));
        } else {
            let r = choose|r: int| 0 <= r < k && #[trigger] seed(r) && connected(w, right, down, r, p);
            lemma_connected_step(w, right, down, r, p, q);
        }
    }
}

/// Flooding from an unmarked seed at `k` advances the scan past `k`.
pub proof fn lemma_seeded_flood(
    w: int,
    right: Seq<bool>,
    down: Seq<bool>,
    m: Seq<usize>,
    m2: Seq<usize>,
    k: int,
    active: spec_fn(int) -> bool,
    base: spec_fn(int) -> bool,
    seed: spec_fn(int) -> bool,
)
    requires
        seeded_marks(w, right, down, m, k, active, base, seed),
        scan_shape(w, right, down, active, base, seed),
        0 <= k < right.len(),
        seed(k),
        m2.len() == m.len(),
        forall|q: int|
            0 <= q < right.len() ==> (#[trigger] m2[q] != UNMARKED <==> (m[q] != UNMARKED
                || connected(w, right, down, k, q))),
    ensures
        seeded_marks(w, right, down, m2, k + 1, active, base, seed),
{
    assert forall|q: int| 0 <= q < right.len() implies (#[trigger] m2[q] != UNMARKED <==> (active(q) && (base(q) || exists|r: int|
        0 <= r < k + 1 && #[trigger] seed(r) && connected(w, right, down, r, q)))) by {
        if connected(w, right, down, k, q) {
            lemma_active_along(w, right, down, active, k, q);
            assert(0 <= k < k + 1 && seed(k) && connected(w, right, down, k, q));
        }
        if m[q] != UNMARKED && !base(q) {
            let r = choose|r: int| 0 <= r < k && #[trigger] seed(r) && connected(w, right, down, r, q);
            assert(0 <= r < k + 1 && seed(r) && connected(w, right, down, r, q));
        }
        if active(q) && !base(q) && (exists|r: int| 0 <= r < k + 1 && #[trigger] seed(r) && connected(w, right, down, r, q)) {
            let r = choose|r: int| 0 <= r < k + 1 && #[trigger] seed(r) && connected(w, right, down, r, q);
            if r < k {
                assert(0 <= r < k && seed(r) && connected(w, right, down, r, q));
            }
        }
    }
}

/// Passing a cell that starts no flood (not a seed, or already marked)
/// advances the scan with the marks unchanged.
pub proof fn lemma_seeded_skip(
    w: int,
    right: Seq<bool>,
    down: Seq<bool>,
    m: Seq<usize>,
    k: int,
    active: spec_fn(int) -> bool,
    base: spec_fn(int) -> bool,
    seed: spec_fn(int) -> bool,
)
    requires
        seeded_marks(w, right, down, m, k, active, base, seed),
        scan_shape(w, right, down, active, base, seed),
        0 <= k < right.len(),
        !seed(k) || m[k] != UNMARKED,
    ensures
        seeded_marks(w, right, down, m, k + 1, active, base, seed),
{
    lemma_seeded_closed(w, right, down, m, k, active, base, seed);
    assert forall|q: int| 0 <= q < right.len() implies (#[trigger] m[q] != UNMARKED <==> (active(q) && (base(q) || exists|r: int|
        0 <= r < k + 1 && #[trigger] seed(r) && connected(w, right, down, r, q)))) by {
        if m[q] != UNMARKED && !base(q) {
            let r = choose|r: int| 0 <= r < k && #[trigger] seed(r) && connected(w, right, down, r, q);
            assert(0 <= r < k + 1 && seed(r) && connected(w, right, down, r, q));
        }
        if active(q) && !base(q) && (exists|r: int| 0 <= r < k + 1 && #[trigger] seed(r) && connected(w, right, down, r, q)) {
            let r = choose|r: int| 0 <= r < k + 1 && #[trigger] seed(r) && connected(w, right, down, r, q);
            if r < k {
                assert(0 <= r < k && seed(r) && connected(w, right, down, r, q));
            } else {
                let mm = |c: int| m[c] != UNMARKED;
                lemma_closed_reach(w, right, down, mm, k, q);
            }
        }
    }
}

/// When every active cell is a seed, an unmarked active cell outside `base`
/// is the first cell of its component.
pub proof fn lemma_seeded_rep(
    w: int,
    right: Seq<bool>,
    down: Seq<bool>,
    m: Seq<usize>,
    k: int,
    active: spec_fn(int) -> bool,
    base: spec_fn(int) -> bool,
    seed: spec_fn(int) -> bool,
)
    requires
        seeded_marks(w, right, down, m, k, active, base, seed),
        scan_shape(w, right, down, active, base, seed),
        forall|q: int| #[trigger] active(q) ==> seed(q),
        0 <= k < right.len(),
        active(k),
    ensures
        (m[k] == UNMARKED) <==> (!base(k) && is_rep(w, right, down, k)),
{
    if m[k] == UNMARKED {
        assert forall|q: int| 0 <= q < k implies !#[trigger] connected(w, right, down, q, k) by {
            if connected(w, right, down, q, k) {
                lemma_active_along(w, right, down, active, q, k);
                assert(0 <= q < k && seed(q) && connected(w, right, down, q, k));
            }
        }
    }
    if !base(k) && is_rep(w, right, down, k) && m[k] != UNMARKED {
        let r = choose|r: int| 0 <= r < k && #[trigger] seed(r) && connected(w, right, down, r, k);
        assert(!connected(w, right, down, r, k));
    }
}

} // verus!
