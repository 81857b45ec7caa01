//! Boundary tracing for a boolean region mask into SVG path data.
//!
//! A gradient region is an arbitrary blob, not a rectangle, so we need its
//! outline as a path. Borders are followed by marching squares over the pixel
//! grid: the outer border of every connected foreground component is traced
//! counter-clockwise, each enclosed hole clockwise. Each ring is simplified with
//! Ramer-Douglas-Peucker and emitted as one `M..L..Z` subpath. Rendering the
//! path with `fill-rule="evenodd"` cuts the holes.
//!
//! Connectivity is the dual pair that a corner walk can follow consistently:
//! foreground cells that touch at a corner belong to one component (the walk
//! passes such a saddle and keeps both cells inside one border), and a hole is
//! a 4-connected background component that the image edge cannot reach. So
//! every border is followed once, and no pixel ends inside two rings of its
//! own.
//!
//! The walk follows pixel-corner coordinates so the polygon encloses the filled
//! pixels exactly (a 1x1 pixel becomes a unit square, not a zero-area point).
//! Corner coordinates are whole numbers, so all geometry here is exact integer
//! arithmetic.
use vstd::prelude::*;
use vstd::string::StringExecFns;
use crate::components::{
    connected, filled, flood, is_rep, lemma_seeded_closed, lemma_seeded_flood, lemma_seeded_rep,
    lemma_seeded_skip, linked, scan_shape, seeded_marks, UNMARKED,
};

verus! {

/// A traced ring as a closed polyline of pixel-corner points (first point is
/// not repeated at the end).
pub type Ring = Vec<(u32, u32)>;

/// Largest width or height whose corner coordinates the tracer handles.
pub const MAX_SIDE: u32 = 0x7fff_ffff;

/// Foreground test: inside the image and set in the mask.
pub open spec fn fg(mask: Seq<bool>, w: int, h: int, x: int, y: int) -> bool {
    0 <= x < w && 0 <= y < h && mask[y * w + x]
}

/// The 4-bit window around grid corner `(cx, cy)`:
/// bit0 = top-left cell, bit1 = top-right, bit2 = bottom-left, bit3 = bottom-right.
pub open spec fn corner_case(mask: Seq<bool>, w: int, h: int, cx: int, cy: int) -> int {
    (if fg(mask, w, h, cx - 1, cy - 1) { 1int } else { 0int }) + (if fg(mask, w, h, cx, cy - 1) {
        2int
    } else {
        0int
    }) + (if fg(mask, w, h, cx - 1, cy) { 4int } else { 0int }) + (if fg(mask, w, h, cx, cy) {
        8int
    } else {
        0int
    })
}

/// Marching-squares transition table for a wall-following contour that keeps
/// foreground cells enclosed. Directions: 0 = right, 1 = down, 2 = left, 3 = up.
pub open spec fn next_dir_spec(case: int, prev: int) -> int {
    if case == 1 {
        3
    } else if case == 2 {
        0
    } else if case == 4 {
        2
    } else if case == 8 {
        1
    } else if case == 3 {
        0
    } else if case == 12 {
        2
    } else if case == 5 {
        3
    } else if case == 10 {
        1
    } else if case == 7 {
        0
    } else if case == 11 {
        1
    } else if case == 13 {
        3
    } else if case == 14 {
        2
    } else if case == 6 {
        if prev == 3 {
            0
        } else {
            2
        }
    } else if case == 9 {
        if prev == 0 {
            1
        } else {
            3
        }
    } else {
        prev
    }
}

/// Marching-squares transition table; `case` is the 4-bit corner window and
/// `prev` the incoming travel direction. Returns the next travel direction.
pub fn next_dir(case: u8, prev: i32) -> (d: i32)
    ensures
        d == next_dir_spec(case as int, prev as int),
{
    match case {
        // One corner set.
        1 => 3,
        2 => 0,
        4 => 2,
        8 => 1,
        // Two adjacent corners (an edge): travel straight along it.
        3 => 0,
        12 => 2,
        5 => 3,
        10 => 1,
        // Three corners set: turn around the single empty corner.
        7 => 0,
        11 => 1,
        13 => 3,
        14 => 2,
        // Saddle cases: resolve by incoming direction to avoid crossing.
        6 => {
            if prev == 3 {
                0
            } else {
                2
            }
        },
        9 => {
            if prev == 0 {
                1
            } else {
                3
            }
        },
        // 0 (all empty) and 15 (all set) do not occur on a border corner; if
        // they did, keep going straight.
        _ => prev,
    }
}

/// The corner one step from `(cx, cy)` in direction `dir`.
pub open spec fn step_corner(cx: int, cy: int, dir: int) -> (int, int) {
    if dir == 0 {
        (cx + 1, cy)
    } else if dir == 1 {
        (cx, cy + 1)
    } else if dir == 2 {
        (cx - 1, cy)
    } else {
        (cx, cy - 1)
    }
}

/// A corner whose window mixes foreground and background lies on a border.
pub open spec fn on_border(mask: Seq<bool>, w: int, h: int, cx: int, cy: int) -> bool {
    let c = corner_case(mask, w, h, cx, cy);
    c != 0 && c != 15
}

/// Border corners lie on the image's corner grid.
pub proof fn lemma_border_in_bounds(mask: Seq<bool>, w: int, h: int, cx: int, cy: int)
    requires
        on_border(mask, w, h, cx, cy),
    ensures
        0 <= cx <= w,
        0 <= cy <= h,
{
}

/// Following the table from a border corner lands on a border corner.
pub proof fn lemma_step_stays_on_border(mask: Seq<bool>, w: int, h: int, cx: int, cy: int, prev: int)
    requires
        on_border(mask, w, h, cx, cy),
    ensures
        ({
            let d = next_dir_spec(corner_case(mask, w, h, cx, cy), prev);
            let n = step_corner(cx, cy, d);
            &&& 0 <= d < 4
            &&& on_border(mask, w, h, n.0, n.1)
        }),
{
    let tl = fg(mask, w, h, cx - 1, cy - 1);
    let tr = fg(mask, w, h, cx, cy - 1);
    let bl = fg(mask, w, h, cx - 1, cy);
    let br = fg(mask, w, h, cx, cy);
    assert(fg(mask, w, h, cx + 1 - 1, cy - 1) == tr);
    assert(fg(mask, w, h, cx + 1 - 1, cy) == br);
    assert(fg(mask, w, h, cx - 1, cy + 1 - 1) == bl);
    assert(fg(mask, w, h, cx, cy + 1 - 1) == br);
    assert(fg(mask, w, h, cx - 1 + 1 - 1, cy - 1) == tl);
    assert(fg(mask, w, h, cx - 1 + 1 - 1, cy) == bl);
    assert(fg(mask, w, h, cx - 1, cy - 1 + 1 - 1) == tl);
    assert(fg(mask, w, h, cx, cy - 1 + 1 - 1) == tr);
}

/// The two cells beside the unit edge that leaves corner `(cx, cy)` in
/// direction `dir`: first the one on the traveller's left (in SVG's y-down
/// space), then the one on the right.
pub open spec fn edge_sides(cx: int, cy: int, dir: int) -> ((int, int), (int, int)) {
    if dir == 0 {
        ((cx, cy - 1), (cx, cy))
    } else if dir == 1 {
        ((cx, cy), (cx - 1, cy))
    } else if dir == 2 {
        ((cx - 1, cy), (cx - 1, cy - 1))
    } else {
        ((cx - 1, cy - 1), (cx, cy - 1))
    }
}

/// The outline follows the mask's boundary: from any border corner, whatever
/// the incoming direction, the step the walk takes runs along an edge between
/// a foreground cell and a background cell, with the foreground always on the
/// same side (the traveller's left in SVG's y-down space).
pub proof fn law_walk_follows_boundary(mask: Seq<bool>, w: int, h: int, cx: int, cy: int, prev: int)
    requires
        on_border(mask, w, h, cx, cy),
    ensures
        ({
            let d = next_dir_spec(corner_case(mask, w, h, cx, cy), prev);
            let (l, r) = edge_sides(cx, cy, d);
            fg(mask, w, h, l.0, l.1) && !fg(mask, w, h, r.0, r.1)
        }),
{
}

/// Upper bound on walk length, as a safety net.
pub open spec fn max_steps(w: int, h: int) -> int {
    4 * (w + 1) * (h + 1) + 16
}

/// The corners visited from `(cx, cy)` (arriving in direction `dir`, after
/// `steps` moves) until the walk returns to `start`; `None` if it takes more
/// than `max_steps` moves.
pub open spec fn walk_from(
    mask: Seq<bool>,
    w: int,
    h: int,
    start: (int, int),
    cx: int,
    cy: int,
    dir: int,
    steps: int,
) -> Option<Seq<(u32, u32)>>
    decreases max_steps(w, h) + 1 - steps,
{
    if steps > max_steps(w, h) || steps < 0 {
        None
    } else {
        let d = next_dir_spec(corner_case(mask, w, h, cx, cy), dir);
        let n = step_corner(cx, cy, d);
        let here = (cx as u32, cy as u32);
        if n == start {
            Some(seq![here])
        } else if steps + 1 > max_steps(w, h) {
            None
        } else {
            match walk_from(mask, w, h, start, n.0, n.1, d, steps + 1) {
                Some(rest) => Some(seq![here] + rest),
                None => None,
            }
        }
    }
}

/// Twice the cross product of the turn at `cur`, from `prev` to `next`.
pub open spec fn turn(prev: (u32, u32), cur: (u32, u32), next: (u32, u32)) -> int {
    (cur.0 - prev.0) * (next.1 - cur.1) - (cur.1 - prev.1) * (next.0 - cur.0)
}

/// Point `i` of a ring is not collinear with its two neighbours.
pub open spec fn is_turn(ring: Seq<(u32, u32)>, i: int) -> bool {
    let n = ring.len() as int;
    turn(ring[(i + n - 1) % n], ring[i], ring[(i + 1) % n]) != 0
}

/// The turning points among the first `k` points of the ring.
pub open spec fn turns_upto(ring: Seq<(u32, u32)>, k: int) -> Seq<(u32, u32)>
    decreases k,
{
    if k <= 0 {
        Seq::empty()
    } else {
        let prev = turns_upto(ring, k - 1);
        if is_turn(ring, k - 1) {
            prev.push(ring[k - 1])
        } else {
            prev
        }
    }
}

/// Drop interior points that are collinear with their neighbours, so a
/// straight run of unit edges collapses to its two endpoints. Rings that would
/// fall below three points are kept as they are.
pub open spec fn dedup_spec(ring: Seq<(u32, u32)>) -> Seq<(u32, u32)> {
    if ring.len() < 3 {
        ring
    } else {
        let out = turns_upto(ring, ring.len() as int);
        if out.len() < 3 {
            ring
        } else {
            out
        }
    }
}

/// The closed corner polygon around the foreground met from `start`, or
/// `None` when the walk does not close or is degenerate.
pub open spec fn walk_spec(mask: Seq<bool>, w: int, h: int, sx: int, sy: int) -> Option<Seq<(u32, u32)>> {
    match walk_from(mask, w, h, (sx, sy), sx, sy, 3, 0) {
        Some(ring) => if ring.len() < 3 {
            None
        } else {
            Some(dedup_spec(ring))
        },
        None => None,
    }
}

/// Every point of the ring lies within `[0, w] x [0, h]`.
pub open spec fn bounded(ring: Seq<(u32, u32)>, w: int, h: int) -> bool {
    forall|i: int| #![trigger ring[i]] 0 <= i < ring.len() ==> ring[i].0 <= w && ring[i].1 <= h
}

/// Images whose corner arithmetic the tracer handles.
pub open spec fn traceable(mask: Seq<bool>, w: int, h: int) -> bool {
    &&& 0 < w <= MAX_SIDE
    &&& 0 < h <= MAX_SIDE
    &&& mask.len() == w * h
    &&& max_steps(w, h) < usize::MAX
}

/// Foreground test of cell `(x, y)` given as unsigned coordinates.
fn cell(mask: &[bool], w: u32, h: u32, x: u32, y: u32) -> (b: bool)
    requires
        traceable(mask@, w as int, h as int),
    ensures
        b == fg(mask@, w as int, h as int, x as int, y as int),
{
    if x < w && y < h {
        proof {
            assert((y as int) * (w as int) + (x as int) < (w as int) * (h as int)) by (nonlinear_arith)
                requires x < w, y < h;
            assert(0 <= (y as int) * (w as int)) by (nonlinear_arith);
        }
        let n = mask.len();
        let yy = y as usize;
        let ww = w as usize;
        let xx = x as usize;
        assert(yy * ww + xx < mask@.len());
        mask[yy * ww + xx]
    } else {
        false
    }
}

/// The window case at corner `(cx, cy)`.
fn window_case(mask: &[bool], w: u32, h: u32, cx: u32, cy: u32) -> (c: u8)
    requires
        traceable(mask@, w as int, h as int),
    ensures
        c == corner_case(mask@, w as int, h as int, cx as int, cy as int),
{
    let tl = cx > 0 && cy > 0 && cell(mask, w, h, cx - 1, cy - 1);
    let tr = cy > 0 && cell(mask, w, h, cx, cy - 1);
    let bl = cx > 0 && cell(mask, w, h, cx - 1, cy);
    let br = cell(mask, w, h, cx, cy);
    (if tl { 1u8 } else { 0u8 }) + (if tr { 2u8 } else { 0u8 }) + (if bl { 4u8 } else { 0u8 }) + (if br {
        8u8
    } else {
        0u8
    })
}

proof fn lemma_wrap_indices(i: int, n: int)
    requires
        0 <= i < n,
    ensures
        (i + n - 1) % n == if i == 0 { n - 1 } else { i - 1 },
        (i + 1) % n == if i + 1 == n { 0 } else { i + 1 },
{
    if i == 0 {
        vstd::arithmetic::div_mod::lemma_fundamental_div_mod_converse(i + n - 1, n, 0, n - 1);
    } else {
        vstd::arithmetic::div_mod::lemma_fundamental_div_mod_converse(i + n - 1, n, 1, i - 1);
    }
    if i + 1 == n {
        vstd::arithmetic::div_mod::lemma_fundamental_div_mod_converse(i + 1, n, 1, 0);
    } else {
        vstd::arithmetic::div_mod::lemma_fundamental_div_mod_converse(i + 1, n, 0, i + 1);
    }
}

/// Twice the cross product of the turn at `cur`, computed.
fn turn_at(prev: (u32, u32), cur: (u32, u32), next: (u32, u32)) -> (t: i128)
    ensures
        t == turn(prev, cur, next),
{
    let ax = cur.0 as i128 - prev.0 as i128;
    let ay = cur.1 as i128 - prev.1 as i128;
    let bx = next.0 as i128 - cur.0 as i128;
    let by = next.1 as i128 - cur.1 as i128;
    proof {
        assert(-0x1_0000_0000 * 0x1_0000_0000 <= ax * by <= 0x1_0000_0000 * 0x1_0000_0000) by (nonlinear_arith)
            requires -0x1_0000_0000 <= ax <= 0x1_0000_0000, -0x1_0000_0000 <= by <= 0x1_0000_0000;
        assert(-0x1_0000_0000 * 0x1_0000_0000 <= ay * bx <= 0x1_0000_0000 * 0x1_0000_0000) by (nonlinear_arith)
            requires -0x1_0000_0000 <= ay <= 0x1_0000_0000, -0x1_0000_0000 <= bx <= 0x1_0000_0000;
    }
    ax * by - ay * bx
}

/// Drop interior points that are collinear with their neighbours, so a straight
/// run of unit edges collapses to its two endpoints before RDP runs.
fn dedup_collinear(ring: Ring, Ghost(w): Ghost<int>, Ghost(h): Ghost<int>) -> (out: Ring)
    ensures
        out@ == dedup_spec(ring@),
        bounded(ring@, w, h) ==> bounded(out@, w, h),
{
    if ring.len() < 3 {
        return ring;
    }
    let n = ring.len();
    let mut out: Ring = Vec::new();
    let mut i: usize = 0;
    while i < n
        invariant
            n == ring@.len(),
            n >= 3,
            i <= n,
            out@ == turns_upto(ring@, i as int),
            bounded(ring@, w, h) ==> bounded(out@, w, h),
        decreases n - i,
    {
        proof {
            lemma_wrap_indices(i as int, n as int);
        }
        let prev = if i == 0 { ring[n - 1] } else { ring[i - 1] };
        let cur = ring[i];
        let next = if i + 1 == n { ring[0] } else { ring[i + 1] };
        // A zero cross product means collinear; drop the middle point.
        if turn_at(prev, cur, next) != 0 {
            out.push(cur);
        }
        i = i + 1;
    }
    if out.len() < 3 {
        ring
    } else {
        out
    }
}

/// Wall-following corner walk. At each grid corner, the 2x2 cell window
/// selects the next edge direction (marching-squares cases) so the foreground
/// stays enclosed. Produces a closed corner polygon.
pub fn walk_corners(mask: &[bool], w: u32, h: u32, sx: u32, sy: u32) -> (res: Option<Ring>)
    requires
        traceable(mask@, w as int, h as int),
        on_border(mask@, w as int, h as int, sx as int, sy as int),
    ensures
        match res {
            Some(r) => walk_spec(mask@, w as int, h as int, sx as int, sy as int) == Some(r@) && bounded(
                r@,
                w as int,
                h as int,
            ),
            None => walk_spec(mask@, w as int, h as int, sx as int, sy as int) is None,
        },
{
    let ghost start = (sx as int, sy as int);
    let mut cx = sx;
    let mut cy = sy;
    // The walk leaves its start corner as if it had arrived moving up: at a
    // hole's start corner (foreground above and to the left) a saddle then
    // turns right along the hole, not around the foreground outside it.
    let mut dir: i32 = 3;
    let mut ring: Ring = Vec::new();
    proof {
        assert((w as int + 1) * (h as int + 1) >= 0) by (nonlinear_arith);
        assert(4 * (w as int + 1) <= max_steps(w as int, h as int)) by (nonlinear_arith)
            requires h >= 0;
    }
    let limit: usize = 4 * (w as usize + 1) * (h as usize + 1) + 16;
    let mut steps: usize = 0;
    loop
        invariant_except_break
            start == (sx as int, sy as int),
            on_border(mask@, w as int, h as int, cx as int, cy as int),
            bounded(ring@, w as int, h as int),
            0 <= dir < 4,
            steps <= limit,
            limit == max_steps(w as int, h as int),
            traceable(mask@, w as int, h as int),
            walk_from(mask@, w as int, h as int, start, sx as int, sy as int, 3, 0) == match walk_from(
                mask@,
                w as int,
                h as int,
                start,
                cx as int,
                cy as int,
                dir as int,
                steps as int,
            ) {
                Some(rest) => Some(ring@ + rest),
                None => None::<Seq<(u32, u32)>>,
            },
        ensures
            start == (sx as int, sy as int),
            bounded(ring@, w as int, h as int),
            walk_from(mask@, w as int, h as int, start, sx as int, sy as int, 3, 0) == Some(ring@),
        decreases limit - steps,
    {
        proof {
            lemma_border_in_bounds(mask@, w as int, h as int, cx as int, cy as int);
            lemma_step_stays_on_border(mask@, w as int, h as int, cx as int, cy as int, dir as int);
        }
        let ghost (ox, oy, od, os, oring) = (cx as int, cy as int, dir as int, steps as int, ring@);
        ring.push((cx, cy));
        let case = window_case(mask, w, h, cx, cy);
        dir = next_dir(case, dir);
        proof {
            let nc = step_corner(cx as int, cy as int, dir as int);
            lemma_border_in_bounds(mask@, w as int, h as int, nc.0, nc.1);
        }
        if dir == 0 {
            cx = cx + 1;
        } else if dir == 1 {
            cy = cy + 1;
        } else if dir == 2 {
            cx = cx - 1;
        } else {
            cy = cy - 1;
        }
        steps = steps + 1;
        proof {
            let here = (ox as u32, oy as u32);
            assert(walk_from(mask@, w as int, h as int, start, ox, oy, od, os) == if (cx as int, cy as int) == start {
                Some(seq![here])
            } else if os + 1 > max_steps(w as int, h as int) {
                None
            } else {
                match walk_from(mask@, w as int, h as int, start, cx as int, cy as int, dir as int, os + 1) {
                    Some(rest) => Some(seq![here] + rest),
                    None => None,
                }
            });
            assert(ring@ == oring.push(here));
            assert forall|rest: Seq<(u32, u32)>| #[trigger] (oring + (seq![here] + rest)) == ring@ + rest by {
                assert(oring + (seq![here] + rest) =~= ring@ + rest);
            }
            assert(oring + seq![here] =~= ring@);
        }
        if cx == sx && cy == sy {
            break;
        }
        if steps > limit {
            return None;
        }
    }
    if ring.len() < 3 {
        return None;
    }
    Some(dedup_collinear(ring, Ghost(w as int), Ghost(h as int)))
}

/// Twice the signed area of the first `k` edges of the closed ring.
pub open spec fn area_upto(ring: Seq<(u32, u32)>, k: int) -> int
    decreases k,
{
    if k <= 0 {
        0
    } else {
        let n = ring.len() as int;
        let p = ring[k - 1];
        let q = ring[k % n];
        area_upto(ring, k - 1) + (p.0 * q.1 - q.0 * p.1)
    }
}

/// Twice the signed area of a closed ring (negative: counter-clockwise in
/// SVG's y-down space).
pub open spec fn area2(ring: Seq<(u32, u32)>) -> int {
    area_upto(ring, ring.len() as int)
}

/// Orient a ring: `outer` rings wind counter-clockwise, holes clockwise.
pub open spec fn orient_spec(ring: Seq<(u32, u32)>, outer: bool) -> Seq<(u32, u32)> {
    if outer != (area2(ring) < 0) {
        ring.reverse()
    } else {
        ring
    }
}

proof fn lemma_cross_antisym(p: (u32, u32), q: (u32, u32))
    ensures
        p.0 * q.1 - q.0 * p.1 == -(q.0 * p.1 - p.0 * q.1),
{
}

/// Partial sums of a reversed ring run the ring's edges backwards.
proof fn lemma_area_upto_reverse(ring: Seq<(u32, u32)>, k: int)
    requires
        ring.len() > 0,
        0 <= k <= ring.len() - 1,
    ensures
        area_upto(ring.reverse(), k) == area_upto(ring, ring.len() - 1 - k) - area_upto(
            ring,
            ring.len() - 1,
        ),
    decreases k,
{
    let n = ring.len() as int;
    let rev = ring.reverse();
    if k > 0 {
        lemma_area_upto_reverse(ring, k - 1);
        assert(k % n == k) by {
            vstd::arithmetic::div_mod::lemma_small_mod(k as nat, n as nat);
        }
        assert((n - k) % n == n - k) by {
            vstd::arithmetic::div_mod::lemma_small_mod((n - k) as nat, n as nat);
        }
        assert(rev[k - 1] == ring[n - k]);
        assert(rev[k] == ring[n - 1 - k]);
        lemma_cross_antisym(ring[n - 1 - k], ring[n - k]);
    }
}

/// Reversing a ring flips the sign of its area.
pub proof fn lemma_area2_reverse(ring: Seq<(u32, u32)>)
    ensures
        area2(ring.reverse()) == -area2(ring),
{
    let n = ring.len() as int;
    if n > 0 {
        let rev = ring.reverse();
        lemma_area_upto_reverse(ring, n - 1);
        assert(n % n == 0) by {
            vstd::arithmetic::div_mod::lemma_mod_self_0(n);
        }
        assert(((n - 1) + 1) % n == 0);
        assert(rev[n - 1] == ring[0]);
        assert(rev[0] == ring[n - 1]);
        lemma_cross_antisym(ring[0], ring[n - 1]);
        assert(area_upto(ring, 0) == 0);
    }
}

/// An oriented ring winds the asked way: an outer ring never has positive
/// area, a hole never negative.
pub proof fn lemma_orient_sign(ring: Seq<(u32, u32)>, outer: bool)
    ensures
        outer ==> area2(orient_spec(ring, outer)) <= 0,
        !outer ==> area2(orient_spec(ring, outer)) >= 0,
{
    lemma_area2_reverse(ring);
}

/// Twice the signed area of a ring, computed.
pub fn signed_area2(ring: &[(u32, u32)]) -> (a: i128)
    requires
        bounded(ring@, MAX_SIDE as int, MAX_SIDE as int),
    ensures
        a == area2(ring@),
{
    let n = ring.len();
    let mut a: i128 = 0;
    let mut i: usize = 0;
    while i < n
        invariant
            n == ring@.len(),
            i <= n,
            bounded(ring@, MAX_SIDE as int, MAX_SIDE as int),
            a == area_upto(ring@, i as int),
            -(i as int) * 0x4000_0000_0000_0000 <= a <= (i as int) * 0x4000_0000_0000_0000,
        decreases n - i,
    {
        let p = ring[i];
        let q = if i + 1 == n { ring[0] } else { ring[i + 1] };
        proof {
            lemma_wrap_indices(i as int, n as int);
            assert(p.0 <= MAX_SIDE && p.1 <= MAX_SIDE);
            if i + 1 == n {
                assert(q == ring@[0]);
            } else {
                assert(q == ring@[i + 1]);
            }
            assert(q.0 <= MAX_SIDE && q.1 <= MAX_SIDE);
            assert(0 <= (p.0 as int) * (q.1 as int) <= 0x4000_0000_0000_0000) by (nonlinear_arith)
                requires p.0 <= 0x7fff_ffff, q.1 <= 0x7fff_ffff;
            assert(0 <= (q.0 as int) * (p.1 as int) <= 0x4000_0000_0000_0000) by (nonlinear_arith)
                requires q.0 <= 0x7fff_ffff, p.1 <= 0x7fff_ffff;
            assert((i as int + 1) * 0x4000_0000_0000_0000 <= 0x4000_0000_0000_0000_0000_0000_0000_0000) by (nonlinear_arith)
                requires i < n, n <= usize::MAX;
        }
        a = a + (p.0 as i128 * q.1 as i128 - q.0 as i128 * p.1 as i128);
        i = i + 1;
    }
    a
}

/// A reversed copy of a ring.
fn reversed(ring: &Ring) -> (r: Ring)
    ensures
        r@ == ring@.reverse(),
{
    let n = ring.len();
    let mut r: Ring = Vec::new();
    let mut i: usize = 0;
    while i < n
        invariant
            n == ring@.len(),
            i <= n,
            r@ == ring@.reverse().take(i as int),
        decreases n - i,
    {
        r.push(ring[n - 1 - i]);
        i = i + 1;
        assert(r@ =~= ring@.reverse().take(i as int));
    }
    assert(r@ =~= ring@.reverse());
    r
}

/// Orient a ring: `outer` rings wind CCW, holes CW, in SVG's y-down space
/// where CCW has negative signed area.
fn orient(ring: Ring, outer: bool) -> (r: Ring)
    requires
        bounded(ring@, MAX_SIDE as int, MAX_SIDE as int),
    ensures
        r@ == orient_spec(ring@, outer),
        forall|w: int, h: int| bounded(ring@, w, h) ==> bounded(r@, w, h),
{
    let is_ccw = signed_area2(ring.as_slice()) < 0;
    if outer != is_ccw {
        let r = reversed(&ring);
        proof {
            assert forall|w: int, h: int| bounded(ring@, w, h) implies bounded(r@, w, h) by {
                assert forall|i: int| 0 <= i < r@.len() implies r@[i].0 <= w && r@[i].1 <= h by {
                    assert(r@[i] == ring@[ring@.len() - 1 - i]);
                }
            }
        }
        r
    } else {
        ring
    }
}

/// Squared distance between two points.
pub open spec fn dist2(p: (u32, u32), q: (u32, u32)) -> int {
    (p.0 - q.0) * (p.0 - q.0) + (p.1 - q.1) * (p.1 - q.1)
}

/// The cross product that, divided by `|b - a|`, is the distance of `p` from
/// the line through `a` and `b`.
pub open spec fn cross_at(p: (u32, u32), a: (u32, u32), b: (u32, u32)) -> int {
    (b.0 - a.0) * (a.1 - p.1) - (b.1 - a.1) * (a.0 - p.0)
}

/// A key that orders points by their distance from segment `a..b` (the line
/// through it, or the point itself when `a == b`).
pub open spec fn seg_key(p: (u32, u32), a: (u32, u32), b: (u32, u32)) -> int {
    if a == b {
        dist2(p, a)
    } else {
        let c = cross_at(p, a, b);
        if c < 0 {
            -c
        } else {
            c
        }
    }
}

/// The distance whose key is `key` exceeds the 0.75 px simplification
/// tolerance.
pub open spec fn beyond_tolerance(key: int, a: (u32, u32), b: (u32, u32)) -> bool {
    if a == b {
        16 * key > 9
    } else {
        16 * key * key > 9 * dist2(a, b)
    }
}

/// The first point among indices `1 .. k` farthest from segment `a..b`, with
/// its key; `(0, 0)` if none is off the segment.
pub open spec fn scan_best(pts: Seq<(u32, u32)>, a: (u32, u32), b: (u32, u32), k: int) -> (int, int)
    decreases k,
{
    if k <= 1 {
        (0, 0)
    } else {
        let prev = scan_best(pts, a, b, k - 1);
        let d = seg_key(pts[k - 1], a, b);
        if d > prev.1 {
            (k - 1, d)
        } else {
            prev
        }
    }
}

/// Ramer-Douglas-Peucker on an open polyline, tolerance 0.75 px.
pub open spec fn rdp_open_spec(pts: Seq<(u32, u32)>) -> Seq<(u32, u32)>
    decreases pts.len(),
{
    if pts.len() < 3 {
        pts
    } else {
        let a = pts[0];
        let b = pts[pts.len() - 1];
        let best = scan_best(pts, a, b, pts.len() - 1);
        let idx = best.0;
        if beyond_tolerance(best.1, a, b) && 0 < idx < pts.len() - 1 {
            let left = rdp_open_spec(pts.subrange(0, idx + 1));
            let right = rdp_open_spec(pts.subrange(idx, pts.len() as int));
            left.drop_last() + right
        } else {
            seq![a, b]
        }
    }
}

/// Index of the first point farthest from point `idx`, among `0 .. k`.
pub open spec fn far_scan(ring: Seq<(u32, u32)>, idx: int, k: int) -> (int, int)
    decreases k,
{
    if k <= 0 {
        (idx, -1)
    } else {
        let prev = far_scan(ring, idx, k - 1);
        let d = dist2(ring[k - 1], ring[idx]);
        if d > prev.1 {
            (k - 1, d)
        } else {
            prev
        }
    }
}

pub open spec fn far_from(ring: Seq<(u32, u32)>, idx: int) -> int {
    far_scan(ring, idx, ring.len() as int).0
}

/// Ramer-Douglas-Peucker simplification of a closed ring. Splits on two
/// extreme points so a closed loop is handled, then simplifies each half.
pub open spec fn rdp_spec(ring: Seq<(u32, u32)>) -> Seq<(u32, u32)> {
    let n = ring.len() as int;
    if n < 4 {
        ring
    } else {
        let i0 = far_from(ring, 0);
        let i1 = far_from(ring, i0);
        let lo = if i0 < i1 { i0 } else { i1 };
        let hi = if i0 < i1 { i1 } else { i0 };
        let first = ring.subrange(lo, hi + 1);
        let second = ring.subrange(hi, n) + ring.subrange(0, lo + 1);
        let head = rdp_open_spec(first);
        let tail = rdp_open_spec(second);
        let out = if tail.len() > 2 {
            head + tail.subrange(1, tail.len() - 1)
        } else {
            head
        };
        if out.len() < 3 {
            ring
        } else {
            out
        }
    }
}

proof fn lemma_scan_best(pts: Seq<(u32, u32)>, a: (u32, u32), b: (u32, u32), k: int)
    requires
        k <= pts.len(),
    ensures
        0 <= scan_best(pts, a, b, k).1,
        scan_best(pts, a, b, k).0 == 0 || 1 <= scan_best(pts, a, b, k).0 < k,
        scan_best(pts, a, b, k).1 > 0 ==> scan_best(pts, a, b, k).0 >= 1,
    decreases k,
{
    if k > 1 {
        lemma_scan_best(pts, a, b, k - 1);
    }
}

proof fn lemma_far_scan(ring: Seq<(u32, u32)>, idx: int, k: int)
    requires
        0 <= idx < ring.len(),
        k <= ring.len(),
    ensures
        0 <= far_scan(ring, idx, k).0 < ring.len(),
    decreases k,
{
    if k > 0 {
        lemma_far_scan(ring, idx, k - 1);
    }
}

proof fn lemma_rdp_open_len(pts: Seq<(u32, u32)>)
    ensures
        pts.len() >= 2 ==> rdp_open_spec(pts).len() >= 2,
        pts.len() < 2 ==> rdp_open_spec(pts) == pts,
    decreases pts.len(),
{
    if pts.len() >= 3 {
        let a = pts[0];
        let b = pts[pts.len() - 1];
        let best = scan_best(pts, a, b, pts.len() - 1);
        let idx = best.0;
        if beyond_tolerance(best.1, a, b) && 0 < idx < pts.len() - 1 {
            lemma_rdp_open_len(pts.subrange(0, idx + 1));
            lemma_rdp_open_len(pts.subrange(idx, pts.len() as int));
        }
    }
}

proof fn lemma_bounded_subrange(v: Seq<(u32, u32)>, lo: int, hi: int)
    requires
        bounded(v, MAX_SIDE as int, MAX_SIDE as int),
        0 <= lo <= hi <= v.len(),
    ensures
        bounded(v.subrange(lo, hi), MAX_SIDE as int, MAX_SIDE as int),
{
    assert forall|i: int| 0 <= i < hi - lo implies v.subrange(lo, hi)[i].0 <= MAX_SIDE && v.subrange(lo, hi)[i].1 <= MAX_SIDE by {
        assert(v.subrange(lo, hi)[i] == v[lo + i]);
    }
}

/// A copy of `v[lo..hi]`.
fn range_copy(v: &Ring, lo: usize, hi: usize) -> (r: Ring)
    requires
        lo <= hi <= v@.len(),
    ensures
        r@ == v@.subrange(lo as int, hi as int),
{
    let mut r: Ring = Vec::new();
    let mut i = lo;
    while i < hi
        invariant
            lo <= i <= hi,
            hi <= v@.len(),
            r@ == v@.subrange(lo as int, i as int),
        decreases hi - i,
    {
        r.push(v[i]);
        i = i + 1;
        assert(r@ =~= v@.subrange(lo as int, i as int));
    }
    r
}

/// Squared distance, computed.
fn dist2_at(p: (u32, u32), q: (u32, u32)) -> (d: i128)
    ensures
        d == dist2(p, q),
        0 <= d <= 0x2_0000_0000_0000_0000,
        p.0 <= MAX_SIDE && p.1 <= MAX_SIDE && q.0 <= MAX_SIDE && q.1 <= MAX_SIDE ==> d <= 0x8000_0000_0000_0000,
{
    let dx = p.0 as i128 - q.0 as i128;
    let dy = p.1 as i128 - q.1 as i128;
    proof {
        assert(0 <= dx * dx <= 0x1_0000_0000 * 0x1_0000_0000) by (nonlinear_arith)
            requires -0x1_0000_0000 <= dx <= 0x1_0000_0000;
        assert(0 <= dy * dy <= 0x1_0000_0000 * 0x1_0000_0000) by (nonlinear_arith)
            requires -0x1_0000_0000 <= dy <= 0x1_0000_0000;
        if p.0 <= MAX_SIDE && p.1 <= MAX_SIDE && q.0 <= MAX_SIDE && q.1 <= MAX_SIDE {
            assert(dx * dx <= 0x4000_0000_0000_0000) by (nonlinear_arith)
                requires -0x7fff_ffff <= dx <= 0x7fff_ffff;
            assert(dy * dy <= 0x4000_0000_0000_0000) by (nonlinear_arith)
                requires -0x7fff_ffff <= dy <= 0x7fff_ffff;
        }
    }
    dx * dx + dy * dy
}

/// The distance key of `p` from segment `a..b`, computed.
fn seg_key_at(p: (u32, u32), a: (u32, u32), b: (u32, u32)) -> (k: i128)
    requires
        p.0 <= MAX_SIDE && p.1 <= MAX_SIDE,
        a.0 <= MAX_SIDE && a.1 <= MAX_SIDE,
        b.0 <= MAX_SIDE && b.1 <= MAX_SIDE,
    ensures
        k == seg_key(p, a, b),
        0 <= k <= 0x8000_0000_0000_0000,
{
    if a.0 == b.0 && a.1 == b.1 {
        dist2_at(p, a)
    } else {
        let dx = b.0 as i128 - a.0 as i128;
        let dy = b.1 as i128 - a.1 as i128;
        let ex = a.0 as i128 - p.0 as i128;
        let ey = a.1 as i128 - p.1 as i128;
        proof {
            assert(-0x4000_0000_0000_0000 <= dx * ey <= 0x4000_0000_0000_0000) by (nonlinear_arith)
                requires -0x7fff_ffff <= dx <= 0x7fff_ffff, -0x7fff_ffff <= ey <= 0x7fff_ffff;
            assert(-0x4000_0000_0000_0000 <= dy * ex <= 0x4000_0000_0000_0000) by (nonlinear_arith)
                requires -0x7fff_ffff <= dy <= 0x7fff_ffff, -0x7fff_ffff <= ex <= 0x7fff_ffff;
        }
        let c = dx * ey - dy * ex;
        if c < 0 {
            -c
        } else {
            c
        }
    }
}

/// Whether a key exceeds the tolerance, computed without overflow.
fn beyond_tolerance_at(key: i128, a: (u32, u32), b: (u32, u32)) -> (r: bool)
    requires
        0 <= key <= 0x8000_0000_0000_0000,
        a.0 <= MAX_SIDE && a.1 <= MAX_SIDE,
        b.0 <= MAX_SIDE && b.1 <= MAX_SIDE,
    ensures
        r == beyond_tolerance(key as int, a, b),
        r ==> key > 0,
{
    if a.0 == b.0 && a.1 == b.1 {
        16 * key > 9
    } else {
        let l = dist2_at(a, b);
        proof {
            assert(key * key <= 0x4000_0000_0000_0000_0000_0000_0000_0000) by (nonlinear_arith)
                requires 0 <= key <= 0x8000_0000_0000_0000;
            assert(dist2(a, b) >= 1) by {
                if a.0 == b.0 {
                    assert(a.1 != b.1);
                    assert((a.1 - b.1) * (a.1 - b.1) >= 1) by (nonlinear_arith)
                        requires a.1 != b.1;
                } else {
                    assert((a.0 - b.0) * (a.0 - b.0) >= 1) by (nonlinear_arith)
                        requires a.0 != b.0;
                }
                assert((a.1 - b.1) * (a.1 - b.1) >= 0) by (nonlinear_arith);
                assert((a.0 - b.0) * (a.0 - b.0) >= 0) by (nonlinear_arith);
            }
        }
        // 16 * key^2 > 9 * l  <=>  key^2 > floor(9 * l / 16)
        let kk = (key as u128) * (key as u128);
        let bound = (9 * (l as u128)) / 16;
        proof {
            assert(16 * key * key > 9 * l <==> kk > bound) by (nonlinear_arith)
                requires kk == key * key, bound == (9 * l) / 16, l >= 0;
            if kk > bound {
                assert(key != 0);
            }
        }
        kk > bound
    }
}

/// RDP on an open polyline.
fn rdp_open(pts: &Ring) -> (r: Ring)
    requires
        bounded(pts@, MAX_SIDE as int, MAX_SIDE as int),
    ensures
        r@ == rdp_open_spec(pts@),
    decreases pts@.len(),
{
    let n = pts.len();
    if n < 3 {
        return range_copy(pts, 0, n);
    }
    let first = pts[0];
    let last = pts[n - 1];
    proof {
        assert(first.0 <= MAX_SIDE && first.1 <= MAX_SIDE);
        assert(last.0 <= MAX_SIDE && last.1 <= MAX_SIDE);
    }
    let mut dmax: i128 = 0;
    let mut index: usize = 0;
    let mut i: usize = 1;
    while i < n - 1
        invariant
            n == pts@.len(),
            n >= 3,
            1 <= i <= n - 1,
            first == pts@[0],
            last == pts@[n - 1],
            (index as int, dmax as int) == scan_best(pts@, first, last, i as int),
            0 <= dmax <= 0x8000_0000_0000_0000,
            bounded(pts@, MAX_SIDE as int, MAX_SIDE as int),
        decreases n - 1 - i,
    {
        proof {
            assert(pts@[i as int].0 <= MAX_SIDE && pts@[i as int].1 <= MAX_SIDE);
        }
        let d = seg_key_at(pts[i], first, last);
        if d > dmax {
            dmax = d;
            index = i;
        }
        i = i + 1;
    }
    proof {
        lemma_scan_best(pts@, first, last, (n - 1) as int);
    }
    if beyond_tolerance_at(dmax, first, last) {
        let left_pts = range_copy(pts, 0, index + 1);
        let right_pts = range_copy(pts, index, n);
        proof {
            lemma_bounded_subrange(pts@, 0, index + 1);
            lemma_bounded_subrange(pts@, index as int, n as int);
        }
        let mut left = rdp_open(&left_pts);
        let right = rdp_open(&right_pts);
        proof {
            lemma_rdp_open_len(left_pts@);
        }
        left.pop();
        let mut j: usize = 0;
        let ghost l0 = left@;
        while j < right.len()
            invariant
                j <= right@.len(),
                left@ == l0 + right@.take(j as int),
            decreases right@.len() - j,
        {
            left.push(right[j]);
            j = j + 1;
            assert(left@ =~= l0 + right@.take(j as int));
        }
        assert(right@.take(j as int) =~= right@);
        left
    } else {
        let mut r: Ring = Vec::new();
        r.push(first);
        r.push(last);
        assert(r@ =~= seq![first, last]);
        r
    }
}

/// Index of the first point farthest from point `idx`.
fn far_from_exec(ring: &Ring, idx: usize) -> (b: usize)
    requires
        idx < ring@.len(),
        bounded(ring@, MAX_SIDE as int, MAX_SIDE as int),
    ensures
        b == far_from(ring@, idx as int),
        b < ring@.len(),
{
    let p = ring[idx];
    let mut best = idx;
    let mut best_d: i128 = -1;
    let mut j: usize = 0;
    while j < ring.len()
        invariant
            idx < ring@.len(),
            p == ring@[idx as int],
            j <= ring@.len(),
            (best as int, best_d as int) == far_scan(ring@, idx as int, j as int),
            -1 <= best_d <= 0x8000_0000_0000_0000,
            bounded(ring@, MAX_SIDE as int, MAX_SIDE as int),
        decreases ring@.len() - j,
    {
        proof {
            assert(ring@[j as int].0 <= MAX_SIDE && ring@[j as int].1 <= MAX_SIDE);
            assert(p.0 <= MAX_SIDE && p.1 <= MAX_SIDE);
        }
        let d = dist2_at(ring[j], p);
        if d > best_d {
            best_d = d;
            best = j;
        }
        j = j + 1;
    }
    proof {
        lemma_far_scan(ring@, idx as int, ring@.len() as int);
    }
    best
}

/// Ramer-Douglas-Peucker simplification of a closed ring (tolerance 0.75 px).
/// Splits on the two extreme points so a closed loop is handled, then
/// simplifies each half.
pub fn rdp(ring: &Ring) -> (out: Ring)
    requires
        bounded(ring@, MAX_SIDE as int, MAX_SIDE as int),
    ensures
        out@ == rdp_spec(ring@),
{
    let n = ring.len();
    if n < 4 {
        return range_copy(ring, 0, n);
    }
    // Anchor on the two points farthest apart so the open-curve RDP applies to a
    // closed ring without an arbitrary seam dominating the result.
    let i0 = far_from_exec(ring, 0);
    let i1 = far_from_exec(ring, i0);
    let (lo, hi) = if i0 < i1 { (i0, i1) } else { (i1, i0) };
    let first = range_copy(ring, lo, hi + 1);
    let mut second = range_copy(ring, hi, n);
    let wrap = range_copy(ring, 0, lo + 1);
    let ghost s0 = second@;
    let mut j: usize = 0;
    while j < wrap.len()
        invariant
            j <= wrap@.len(),
            second@ == s0 + wrap@.take(j as int),
        decreases wrap@.len() - j,
    {
        second.push(wrap[j]);
        j = j + 1;
        assert(second@ =~= s0 + wrap@.take(j as int));
    }
    assert(wrap@.take(j as int) =~= wrap@);
    proof {
        lemma_bounded_subrange(ring@, lo as int, hi + 1);
        lemma_bounded_subrange(ring@, hi as int, n as int);
        lemma_bounded_subrange(ring@, 0, lo + 1);
        assert forall|i: int| 0 <= i < second@.len() implies second@[i].0 <= MAX_SIDE && second@[i].1 <= MAX_SIDE by {
            if i < s0.len() {
                assert(second@[i] == s0[i]);
            } else {
                assert(second@[i] == wrap@[i - s0.len()]);
            }
        }
    }
    let mut out = rdp_open(&first);
    let tail = rdp_open(&second);
    // Stitch, dropping the shared endpoints to avoid duplicates.
    if tail.len() > 2 {
        let ghost o0 = out@;
        let mut k: usize = 1;
        while k < tail.len() - 1
            invariant
                tail@.len() > 2,
                1 <= k <= tail@.len() - 1,
                out@ == o0 + tail@.subrange(1, k as int),
            decreases tail@.len() - 1 - k,
        {
            out.push(tail[k]);
            k = k + 1;
            assert(out@ =~= o0 + tail@.subrange(1, k as int));
        }
    }
    // A region small enough to collapse below a triangle still deserves a sane
    // outline; fall back to its un-simplified ring rather than vanishing.
    if out.len() < 3 {
        return range_copy(ring, 0, n);
    }
    proof {
        assert(ring@.subrange(0, n as int) =~= ring@);
    }
    out
}

/// Links joining 4-neighbours on the same side of the mask.
pub open spec fn mask_right(mask: Seq<bool>) -> Seq<bool> {
    Seq::new(mask.len(), |i: int| i + 1 < mask.len() && mask[i] == mask[i + 1])
}

pub open spec fn mask_down(mask: Seq<bool>, w: int) -> Seq<bool> {
    Seq::new(mask.len(), |i: int| i + w < mask.len() && mask[i] == mask[i + w])
}

/// Horizontal links between two foreground cells.
pub open spec fn fg_right(mask: Seq<bool>) -> Seq<bool> {
    Seq::new(mask.len(), |i: int| i + 1 < mask.len() && mask[i] && mask[i + 1])
}

/// Vertical, then below-right, then below-left links between two foreground
/// cells: foreground components are 8-connected, as the corner walk joins
/// diagonal cells through a saddle.
pub open spec fn fg_down(mask: Seq<bool>, w: int) -> Seq<bool> {
    let n = mask.len() as int;
    Seq::new(
        3 * mask.len(),
        |j: int|
            if j < n {
                j + w < n && mask[j] && mask[j + w]
            } else if j < 2 * n {
                j - n + w + 1 < n && mask[j - n] && mask[j - n + w + 1]
            } else {
                j - 2 * n + w - 1 < n && mask[j - 2 * n] && mask[j - 2 * n + w - 1]
            },
    )
}

/// Cells `p` and `q` lie in the same 4-connected foreground or background
/// component.
pub open spec fn same_region(mask: Seq<bool>, w: int, p: int, q: int) -> bool {
    connected(w, mask_right(mask), mask_down(mask, w), p, q)
}

/// A cell on the image's outer edge.
pub open spec fn is_edge_cell(w: int, h: int, i: int) -> bool {
    i % w == 0 || i % w == w - 1 || i / w == 0 || i / w == h - 1
}

/// A background cell reachable through background from the image's edge.
pub open spec fn edge_reachable(mask: Seq<bool>, w: int, h: int, q: int) -> bool {
    exists|b: int|
        0 <= b < mask.len() && is_edge_cell(w, h, b) && !mask[b] && #[trigger] same_region(mask, w, b, q)
}

/// The first cell of an 8-connected foreground component: it starts an
/// outer ring.
pub open spec fn outer_start(mask: Seq<bool>, w: int, r: int) -> bool {
    mask[r] && is_rep(w, fg_right(mask), fg_down(mask, w), r)
}

/// The first cell of an enclosed background component: it starts a hole ring.
pub open spec fn hole_start(mask: Seq<bool>, w: int, h: int, r: int) -> bool {
    !mask[r] && !edge_reachable(mask, w, h, r) && is_rep(w, mask_right(mask), mask_down(mask, w), r)
}

/// The ring traced from the top-left corner of cell `r`, oriented, if the walk
/// closes.
pub open spec fn ring_from(mask: Seq<bool>, w: int, h: int, r: int, outer: bool) -> Seq<Seq<(u32, u32)>> {
    match walk_spec(mask, w, h, r % w, r / w) {
        Some(ring) => seq![orient_spec(ring, outer)],
        None => Seq::empty(),
    }
}

/// Outer rings of the foreground components whose first cell is before `k`.
pub open spec fn outer_rings_upto(mask: Seq<bool>, w: int, h: int, k: int) -> Seq<Seq<(u32, u32)>>
    decreases k,
{
    if k <= 0 {
        Seq::empty()
    } else {
        outer_rings_upto(mask, w, h, k - 1) + if outer_start(mask, w, k - 1) {
            ring_from(mask, w, h, k - 1, true)
        } else {
            Seq::empty()
        }
    }
}

/// Hole rings of the enclosed background components whose first cell is
/// before `k`.
pub open spec fn hole_rings_upto(mask: Seq<bool>, w: int, h: int, k: int) -> Seq<Seq<(u32, u32)>>
    decreases k,
{
    if k <= 0 {
        Seq::empty()
    } else {
        hole_rings_upto(mask, w, h, k - 1) + if hole_start(mask, w, h, k - 1) {
            ring_from(mask, w, h, k - 1, false)
        } else {
            Seq::empty()
        }
    }
}

/// Every border of the mask: one counter-clockwise outer ring per foreground
/// component, in row-major order of their first cells, then one clockwise
/// ring per enclosed hole, likewise ordered. Empty for a mask of the wrong
/// size or an empty image.
pub open spec fn rings_spec(mask: Seq<bool>, w: int, h: int) -> Seq<Seq<(u32, u32)>> {
    if mask.len() != w * h || w == 0 || h == 0 {
        Seq::empty()
    } else {
        outer_rings_upto(mask, w, h, mask.len() as int) + hole_rings_upto(mask, w, h, mask.len() as int)
    }
}

proof fn lemma_outer_rings_sign(mask: Seq<bool>, w: int, h: int, k: int)
    ensures
        forall|i: int|
            0 <= i < outer_rings_upto(mask, w, h, k).len() ==> area2(
                #[trigger] outer_rings_upto(mask, w, h, k)[i],
            ) <= 0,
    decreases k,
{
    if k > 0 {
        lemma_outer_rings_sign(mask, w, h, k - 1);
        let prev = outer_rings_upto(mask, w, h, k - 1);
        let cur = outer_rings_upto(mask, w, h, k);
        match walk_spec(mask, w, h, (k - 1) % w, (k - 1) / w) {
            Some(ring) => lemma_orient_sign(ring, true),
            None => {},
        }
        assert forall|i: int| 0 <= i < cur.len() implies area2(#[trigger] cur[i]) <= 0 by {
            if i < prev.len() {
                assert(cur[i] == prev[i]);
            }
        }
    }
}

proof fn lemma_hole_rings_sign(mask: Seq<bool>, w: int, h: int, k: int)
    ensures
        forall|i: int|
            0 <= i < hole_rings_upto(mask, w, h, k).len() ==> area2(
                #[trigger] hole_rings_upto(mask, w, h, k)[i],
            ) >= 0,
    decreases k,
{
    if k > 0 {
        lemma_hole_rings_sign(mask, w, h, k - 1);
        let prev = hole_rings_upto(mask, w, h, k - 1);
        let cur = hole_rings_upto(mask, w, h, k);
        match walk_spec(mask, w, h, (k - 1) % w, (k - 1) / w) {
            Some(ring) => lemma_orient_sign(ring, false),
            None => {},
        }
        assert forall|i: int| 0 <= i < cur.len() implies area2(#[trigger] cur[i]) >= 0 by {
            if i < prev.len() {
                assert(cur[i] == prev[i]);
            }
        }
    }
}

/// Outer borders wind counter-clockwise and hole borders clockwise (in SVG's
/// y-down space), so an even-odd fill cuts the holes: every outer ring of a
/// mask has non-positive signed area, every hole ring non-negative. The
/// traced rings list the outer rings first, then the holes.
pub proof fn law_ring_orientation(mask: Seq<bool>, w: int, h: int)
    ensures
        rings_spec(mask, w, h) == if mask.len() != w * h || w == 0 || h == 0 {
            Seq::empty()
        } else {
            outer_rings_upto(mask, w, h, mask.len() as int) + hole_rings_upto(mask, w, h, mask.len() as int)
        },
        forall|i: int|
            0 <= i < outer_rings_upto(mask, w, h, mask.len() as int).len() ==> area2(
                #[trigger] outer_rings_upto(mask, w, h, mask.len() as int)[i],
            ) <= 0,
        forall|i: int|
            0 <= i < hole_rings_upto(mask, w, h, mask.len() as int).len() ==> area2(
                #[trigger] hole_rings_upto(mask, w, h, mask.len() as int)[i],
            ) >= 0,
{
    lemma_outer_rings_sign(mask, w, h, mask.len() as int);
    lemma_hole_rings_sign(mask, w, h, mask.len() as int);
}

/// In a mask with no set cell, a cell of the top row reaches every cell below
/// it.
proof fn lemma_blank_column(mask: Seq<bool>, w: int, b: int, y: int)
    requires
        w > 0,
        0 <= b < w,
        y >= 0,
        b + y * w < mask.len(),
        forall|i: int| 0 <= i < mask.len() ==> !#[trigger] mask[i],
    ensures
        same_region(mask, w, b, b + y * w),
    decreases y,
{
    let rt = mask_right(mask);
    let dn = mask_down(mask, w);
    if y == 0 {
        assert(y * w == 0) by (nonlinear_arith)
            requires y == 0;
        crate::components::lemma_connected_refl(w, rt, dn, b);
    } else {
        assert((y - 1) * w + w == y * w) by (nonlinear_arith);
        assert((y - 1) * w >= 0) by (nonlinear_arith)
            requires y >= 1, w > 0;
        lemma_blank_column(mask, w, b, y - 1);
        let q = b + (y - 1) * w;
        assert(dn[q]);
        assert(linked(w, rt, dn, q, q + w));
        crate::components::lemma_connected_step(w, rt, dn, b, q, q + w);
    }
}

/// A mask with no set cell has no border to trace: no ring, and an empty path.
pub proof fn law_blank_mask_traces_empty(mask: Seq<bool>, w: int, h: int)
    requires
        w >= 0,
        h >= 0,
        forall|i: int| 0 <= i < mask.len() ==> !#[trigger] mask[i],
    ensures
        rings_spec(mask, w, h).len() == 0,
        trace_mask_spec(mask, w, h) == Seq::<char>::empty(),
{
    if mask.len() == w * h && w > 0 && h > 0 {
        lemma_blank_outer(mask, w, h, mask.len() as int);
        lemma_blank_holes(mask, w, h, mask.len() as int);
        assert(rings_spec(mask, w, h) =~= Seq::<Seq<(u32, u32)>>::empty());
    }
}

proof fn lemma_blank_outer(mask: Seq<bool>, w: int, h: int, k: int)
    requires
        0 <= k <= mask.len(),
        forall|i: int| 0 <= i < mask.len() ==> !#[trigger] mask[i],
    ensures
        outer_rings_upto(mask, w, h, k).len() == 0,
    decreases k,
{
    if k > 0 {
        lemma_blank_outer(mask, w, h, k - 1);
        assert(!mask[k - 1]);
    }
}

proof fn lemma_blank_holes(mask: Seq<bool>, w: int, h: int, k: int)
    requires
        w > 0,
        0 <= k <= mask.len(),
        forall|i: int| 0 <= i < mask.len() ==> !#[trigger] mask[i],
    ensures
        hole_rings_upto(mask, w, h, k).len() == 0,
    decreases k,
{
    if k > 0 {
        lemma_blank_holes(mask, w, h, k - 1);
        let r = k - 1;
        let b = r % w;
        let y = r / w;
        vstd::arithmetic::div_mod::lemma_fundamental_div_mod(r, w);
        vstd::arithmetic::div_mod::lemma_mod_bound(r, w);
        vstd::arithmetic::div_mod::lemma_div_pos_is_pos(r, w);
        assert(y * w == w * y) by (nonlinear_arith);
        lemma_blank_column(mask, w, b, y);
        assert(b / w == 0) by {
            vstd::arithmetic::div_mod::lemma_basic_div(b, w);
        }
        assert(is_edge_cell(w, h, b));
        assert(same_region(mask, w, b, r));
        assert(edge_reachable(mask, w, h, r));
    }
}

pub open spec fn rings_view(v: Seq<Ring>) -> Seq<Seq<(u32, u32)>> {
    Seq::new(v.len(), |i: int| v[i]@)
}

/// The tracer's size limits, for the masks it traces.
pub open spec fn trace_limits(mask: Seq<bool>, w: int, h: int) -> bool {
    (mask.len() == w * h && w > 0 && h > 0) ==> traceable(mask, w, h)
}

/// Build the links that join equal neighbouring mask cells.
fn mask_links(mask: &[bool], w: usize) -> (res: (Vec<bool>, Vec<bool>))
    ensures
        res.0@ == mask_right(mask@),
        res.1@ == mask_down(mask@, w as int),
{
    let n = mask.len();
    let mut right: Vec<bool> = Vec::new();
    let mut down: Vec<bool> = Vec::new();
    let mut i: usize = 0;
    while i < n
        invariant
            n == mask@.len(),
            i <= n,
            right@ == mask_right(mask@).take(i as int),
            down@ == mask_down(mask@, w as int).take(i as int),
        decreases n - i,
    {
        right.push(i + 1 < n && mask[i] == mask[i + 1]);
        down.push(w < n && i < n - w && mask[i] == mask[i + w]);
        i = i + 1;
        assert(right@ =~= mask_right(mask@).take(i as int));
        assert(down@ =~= mask_down(mask@, w as int).take(i as int));
    }
    assert(right@ =~= mask_right(mask@));
    assert(down@ =~= mask_down(mask@, w as int));
    (right, down)
}

/// The 8-connected foreground links, built.
fn fg_links(mask: &[bool], w: usize) -> (res: (Vec<bool>, Vec<bool>))
    requires
        w > 0,
        3 * mask@.len() <= usize::MAX,
    ensures
        res.0@ == fg_right(mask@),
        res.1@ == fg_down(mask@, w as int),
{
    let n = mask.len();
    let mut right: Vec<bool> = Vec::new();
    let mut i: usize = 0;
    while i < n
        invariant
            n == mask@.len(),
            i <= n,
            right@ == fg_right(mask@).take(i as int),
        decreases n - i,
    {
        right.push(i + 1 < n && mask[i] && mask[i + 1]);
        i = i + 1;
        assert(right@ =~= fg_right(mask@).take(i as int));
    }
    let mut down: Vec<bool> = Vec::new();
    let mut j: usize = 0;
    while j < 3 * n
        invariant
            n == mask@.len(),
            3 * n <= usize::MAX,
            w > 0,
            j <= 3 * n,
            down@ == fg_down(mask@, w as int).take(j as int),
        decreases 3 * n - j,
    {
        let b = if j < n {
            w < n - j && mask[j] && mask[j + w]
        } else if j < 2 * n {
            let c = j - n;
            n - c - 1 > w && mask[c] && mask[c + w + 1]
        } else {
            let c = j - 2 * n;
            n - c > w - 1 && mask[c] && mask[c + w - 1]
        };
        down.push(b);
        j = j + 1;
        assert(down@ =~= fg_down(mask@, w as int).take(j as int));
    }
    assert(right@ =~= fg_right(mask@));
    assert(down@ =~= fg_down(mask@, w as int));
    (right, down)
}

proof fn lemma_mask_links_class(mask: Seq<bool>, w: int, p: int, q: int)
    requires
        w > 0,
        linked(w, mask_right(mask), mask_down(mask, w), p, q),
    ensures
        mask[p] == mask[q],
{
}

proof fn lemma_cell_coords(w: int, h: int, i: int)
    requires
        w > 0,
        0 <= i < w * h,
    ensures
        0 <= i % w < w,
        0 <= i / w < h,
        (i / w) * w + i % w == i,
{
    vstd::arithmetic::div_mod::lemma_fundamental_div_mod(i, w);
    vstd::arithmetic::div_mod::lemma_mod_bound(i, w);
    vstd::arithmetic::div_mod::lemma_div_pos_is_pos(i, w);
    assert((i / w) * w == w * (i / w)) by (nonlinear_arith);
    if i / w >= h {
        assert((i / w) * w >= h * w) by (nonlinear_arith)
            requires i / w >= h, w > 0;
        assert(h * w == w * h) by (nonlinear_arith);
    }
}

proof fn lemma_bounded_weaken(r: Seq<(u32, u32)>, w: int, h: int, w2: int, h2: int)
    requires
        bounded(r, w, h),
        w <= w2,
        h <= h2,
    ensures
        bounded(r, w2, h2),
{
}

/// Ring list grows by the ring traced from a start cell.
proof fn lemma_rings_push(pre: Seq<Ring>, ring: Ring, post: Seq<Ring>)
    requires
        post == pre.push(ring),
    ensures
        rings_view(post) == rings_view(pre) + seq![ring@],
{
    assert(rings_view(post) =~= rings_view(pre) + seq![ring@]);
}

/// One counter-clockwise outer ring per 8-connected foreground component plus
/// one clockwise ring per enclosed (4-connected) background hole. Borders are
/// found by marching squares, so each ring is followed exactly once.
pub fn trace_rings(mask: &[bool], width: u32, height: u32) -> (rings: Vec<Ring>)
    requires
        trace_limits(mask@, width as int, height as int),
    ensures
        rings_view(rings@) == rings_spec(mask@, width as int, height as int),
        forall|i: int| 0 <= i < rings@.len() ==> bounded(#[trigger] rings@[i]@, width as int, height as int),
{
    let w = width as usize;
    let h = height as usize;
    proof {
        assert((width as int) * (height as int) <= 0xffff_ffff * 0xffff_ffff) by (nonlinear_arith)
            requires width <= 0xffff_ffff, height <= 0xffff_ffff;
    }
    if w == 0 || h == 0 || mask.len() as u64 != (width as u64) * (height as u64) {
        let rings: Vec<Ring> = Vec::new();
        assert(rings_view(rings@) =~= Seq::empty());
        return rings;
    }
    let n = mask.len();
    let ghost m = mask@;
    let ghost wi = w as int;
    let ghost hi = h as int;
    let (right, down) = mask_links(mask, w);
    let ghost rt = right@;
    let ghost dn = down@;
    let ghost fgc = |q: int| m[q];
    let ghost bgc = |q: int| !m[q];
    let ghost none = |q: int| false;
    proof {
        assert(3 * (wi * hi) <= max_steps(wi, hi)) by (nonlinear_arith)
            requires wi > 0, hi > 0;
    }
    let (right8, down8) = fg_links(mask, w);
    let ghost rt8 = right8@;
    let ghost dn8 = down8@;
    proof {
        assert(scan_shape(wi, rt8, dn8, fgc, none, fgc)) by {
            assert forall|p: int, q: int| #[trigger] linked(wi, rt8, dn8, p, q) implies fgc(p) == fgc(q) by {
            }
        }
    }
    // Outer borders: an untraced foreground cell with background to its left
    // (the first cell of its 8-connected component) starts a counter-clockwise
    // ring, then its whole component is marked so it is not retraced.
    let mut marks = filled(n, UNMARKED);
    let mut rings: Vec<Ring> = Vec::new();
    let mut i: usize = 0;
    while i < n
        invariant
            n == m.len(),
            m == mask@,
            n == wi * hi,
            wi == w as int,
            hi == h as int,
            w == width as usize,
            h == height as usize,
            w > 0,
            h > 0,
            traceable(m, wi, hi),
            rt == mask_right(m),
            dn == mask_down(m, wi),
            rt == right@,
            dn == down@,
            fgc == (|q: int| m[q]),
            none == (|q: int| false),
            rt8 == fg_right(m),
            dn8 == fg_down(m, wi),
            rt8 == right8@,
            dn8 == down8@,
            scan_shape(wi, rt8, dn8, fgc, none, fgc),
            i <= n,
            seeded_marks(wi, rt8, dn8, marks@, i as int, fgc, none, fgc),
            rings_view(rings@) == outer_rings_upto(m, wi, hi, i as int),
            forall|k: int| 0 <= k < rings@.len() ==> bounded(#[trigger] rings@[k]@, wi, hi),
        decreases n - i,
    {
        let ghost pre_marks = marks@;
        let ghost pre_rings = rings@;
        proof {
            lemma_cell_coords(wi, hi, i as int);
        }
        let x = i % w;
        let y = i / w;
        if mask[i] && marks[i] == UNMARKED {
            proof {
                lemma_seeded_rep(wi, rt8, dn8, marks@, i as int, fgc, none, fgc);
                if x > 0 && mask@[i - 1] {
                    assert(linked(wi, rt8, dn8, i - 1, i as int)) by {
                        vstd::arithmetic::div_mod::lemma_fundamental_div_mod_converse(i - 1, wi, y as int, x - 1);
                    }
                    crate::components::lemma_connected_refl(wi, rt8, dn8, i - 1);
                    crate::components::lemma_connected_step(wi, rt8, dn8, i - 1, i - 1, i as int);
                }
            }
            let left_bg = x == 0 || !mask[i - 1];
            if left_bg {
                proof {
                    assert(fg(m, wi, hi, x as int, y as int));
                    assert(!fg(m, wi, hi, x - 1, y as int)) by {
                        if x > 0 {
                            assert((y as int) * wi + (x - 1) == i - 1);
                        }
                    }
                }
                let found = walk_corners(mask, width, height, x as u32, y as u32);
                match found {
                    Some(ring) => {
                        proof {
                            lemma_bounded_weaken(ring@, wi, hi, MAX_SIDE as int, MAX_SIDE as int);
                        }
                        let ring = orient(ring, true);
                        rings.push(ring);
                        proof {
                            lemma_rings_push(pre_rings, ring, rings@);
                        }
                    },
                    None => {},
                }
                proof {
                    assert(x as u32 as int == (i as int) % wi);
                    assert(y as u32 as int == (i as int) / wi);
                }
                proof {
                    lemma_seeded_closed(wi, rt8, dn8, marks@, i as int, fgc, none, fgc);
                }
                flood(w, &right8, &down8, &mut marks, i, 0);
                proof {
                    lemma_seeded_flood(wi, rt8, dn8, pre_marks, marks@, i as int, fgc, none, fgc);
                    assert(outer_start(m, wi, i as int));
                    assert(rings_view(rings@) =~= outer_rings_upto(m, wi, hi, i + 1));
                }
            } else {
                proof {
                    assert(false);
                }
            }
        } else {
            proof {
                lemma_seeded_skip(wi, rt8, dn8, marks@, i as int, fgc, none, fgc);
                if mask@[i as int] {
                    lemma_seeded_rep(wi, rt8, dn8, marks@, i as int, fgc, none, fgc);
                }
                assert(!outer_start(m, wi, i as int));
                assert(rings_view(rings@) =~= outer_rings_upto(m, wi, hi, i + 1));
            }
        }
        i = i + 1;
    }
    let ghost outer = rings_view(rings@);
    // Mark every background cell that the image edge reaches.
    let ghost edge_seed = |q: int| 0 <= q < m.len() && is_edge_cell(wi, hi, q) && !m[q];
    proof {
        assert(scan_shape(wi, rt, dn, bgc, none, edge_seed)) by {
            assert forall|p: int, q: int| #[trigger] linked(wi, rt, dn, p, q) implies bgc(p) == bgc(q) by {
                lemma_mask_links_class(m, wi, p, q);
            }
        }
    }
    let mut seen = filled(n, UNMARKED);
    let mut j: usize = 0;
    while j < n
        invariant
            n == m.len(),
            m == mask@,
            n == wi * hi,
            wi == w as int,
            hi == h as int,
            w > 0,
            h > 0,
            rt == mask_right(m),
            dn == mask_down(m, wi),
            rt == right@,
            dn == down@,
            bgc == (|q: int| !m[q]),
            none == (|q: int| false),
            edge_seed == (|q: int| 0 <= q < m.len() && is_edge_cell(wi, hi, q) && !m[q]),
            scan_shape(wi, rt, dn, bgc, none, edge_seed),
            j <= n,
            seeded_marks(wi, rt, dn, seen@, j as int, bgc, none, edge_seed),
        decreases n - j,
    {
        proof {
            lemma_cell_coords(wi, hi, j as int);
        }
        let x = j % w;
        let y = j / w;
        let on_edge = x == 0 || x == w - 1 || y == 0 || y == h - 1;
        let ghost pre = seen@;
        if on_edge && !mask[j] && seen[j] == UNMARKED {
            proof {
                lemma_seeded_closed(wi, rt, dn, seen@, j as int, bgc, none, edge_seed);
            }
            flood(w, &right, &down, &mut seen, j, 0);
            proof {
                lemma_seeded_flood(wi, rt, dn, pre, seen@, j as int, bgc, none, edge_seed);
            }
        } else {
            proof {
                lemma_seeded_skip(wi, rt, dn, seen@, j as int, bgc, none, edge_seed);
            }
        }
        j = j + 1;
    }
    // Any background cell still unmarked lies in an enclosed hole; its first
    // cell starts a clockwise ring, then the hole is marked.
    let ghost reach = |q: int| edge_reachable(m, wi, hi, q);
    proof {
        assert(scan_shape(wi, rt, dn, bgc, reach, bgc)) by {
            assert forall|p: int, q: int| #[trigger] linked(wi, rt, dn, p, q) implies bgc(p) == bgc(q) by {
                lemma_mask_links_class(m, wi, p, q);
            }
            assert forall|p: int, q: int| #[trigger] linked(wi, rt, dn, p, q) && reach(p) implies reach(q) by {
                let b = choose|b: int| 0 <= b < m.len() && is_edge_cell(wi, hi, b) && !m[b] && #[trigger] same_region(m, wi, b, p);
                crate::components::lemma_connected_step(wi, rt, dn, b, p, q);
                assert(same_region(m, wi, b, q));
            }
            assert forall|q: int| #[trigger] reach(q) implies bgc(q) by {
                let b = choose|b: int| 0 <= b < m.len() && is_edge_cell(wi, hi, b) && !m[b] && #[trigger] same_region(m, wi, b, q);
                crate::components::lemma_active_along(wi, rt, dn, bgc, b, q);
            }
        }
        assert(seeded_marks(wi, rt, dn, seen@, 0, bgc, reach, bgc)) by {
            assert forall|q: int| 0 <= q < rt.len() implies (#[trigger] seen@[q] != UNMARKED <==> (bgc(q) && (reach(q) || exists|r: int|
                0 <= r < 0 && #[trigger] bgc(r) && connected(wi, rt, dn, r, q)))) by {
                if seen@[q] != UNMARKED {
                    let r = choose|r: int| 0 <= r < n && #[trigger] edge_seed(r) && connected(wi, rt, dn, r, q);
                    assert(same_region(m, wi, r, q));
                }
                if bgc(q) && reach(q) {
                    let b = choose|b: int| 0 <= b < m.len() && is_edge_cell(wi, hi, b) && !m[b] && #[trigger] same_region(m, wi, b, q);
                    assert(0 <= b < n && edge_seed(b) && connected(wi, rt, dn, b, q));
                }
            }
        }
        assert(rings_view(rings@) =~= outer + hole_rings_upto(m, wi, hi, 0));
    }
    let mut k: usize = 0;
    while k < n
        invariant
            n == m.len(),
            m == mask@,
            n == wi * hi,
            wi == w as int,
            hi == h as int,
            w == width as usize,
            h == height as usize,
            w > 0,
            h > 0,
            traceable(m, wi, hi),
            rt == mask_right(m),
            dn == mask_down(m, wi),
            rt == right@,
            dn == down@,
            bgc == (|q: int| !m[q]),
            reach == (|q: int| edge_reachable(m, wi, hi, q)),
            scan_shape(wi, rt, dn, bgc, reach, bgc),
            k <= n,
            seeded_marks(wi, rt, dn, seen@, k as int, bgc, reach, bgc),
            rings_view(rings@) == outer + hole_rings_upto(m, wi, hi, k as int),
            forall|r: int| 0 <= r < rings@.len() ==> bounded(#[trigger] rings@[r]@, wi, hi),
        decreases n - k,
    {
        let ghost pre_seen = seen@;
        let ghost pre_rings = rings@;
        proof {
            lemma_cell_coords(wi, hi, k as int);
        }
        let x = k % w;
        let y = k / w;
        if !mask[k] && seen[k] == UNMARKED {
            proof {
                lemma_seeded_rep(wi, rt, dn, seen@, k as int, bgc, reach, bgc);
                assert(hole_start(m, wi, hi, k as int));
                // The cell above is foreground: otherwise it would reach this
                // cell from earlier in the scan, or this cell would touch the edge.
                if y == 0 {
                    crate::components::lemma_connected_refl(wi, rt, dn, k as int);
                    assert(is_edge_cell(wi, hi, k as int));
                    assert(same_region(m, wi, k as int, k as int));
                    assert(reach(k as int));
                }
                assert(y > 0);
                assert(k >= wi) by (nonlinear_arith)
                    requires (y as int) * wi + (x as int) == k, y >= 1, x >= 0, wi > 0;
                if !m[k - wi] {
                    assert(dn[k - wi] == (k - wi + wi < m.len() && m[k - wi] == m[k as int]));
                    assert(linked(wi, rt, dn, k - wi, k as int));
                    crate::components::lemma_connected_refl(wi, rt, dn, k - wi);
                    crate::components::lemma_connected_step(wi, rt, dn, k - wi, k - wi, k as int);
                    assert(!connected(wi, rt, dn, k - wi, k as int));
                }
                assert(((y as int) - 1) * wi + (x as int) == k - wi) by (nonlinear_arith)
                    requires (y as int) * wi + (x as int) == k;
                assert(fg(m, wi, hi, x as int, y - 1));
                assert(!fg(m, wi, hi, x as int, y as int));
            }
            let found = walk_corners(mask, width, height, x as u32, y as u32);
            match found {
                Some(ring) => {
                    proof {
                        lemma_bounded_weaken(ring@, wi, hi, MAX_SIDE as int, MAX_SIDE as int);
                    }
                    let ring = orient(ring, false);
                    rings.push(ring);
                    proof {
                        lemma_rings_push(pre_rings, ring, rings@);
                    }
                },
                None => {},
            }
            proof {
                assert(x as u32 as int == (k as int) % wi);
                assert(y as u32 as int == (k as int) / wi);
                lemma_seeded_closed(wi, rt, dn, seen@, k as int, bgc, reach, bgc);
            }
            flood(w, &right, &down, &mut seen, k, 0);
            proof {
                lemma_seeded_flood(wi, rt, dn, pre_seen, seen@, k as int, bgc, reach, bgc);
                assert(rings_view(rings@) =~= outer + hole_rings_upto(m, wi, hi, k + 1));
            }
        } else {
            proof {
                lemma_seeded_skip(wi, rt, dn, seen@, k as int, bgc, reach, bgc);
                if !mask@[k as int] {
                    lemma_seeded_rep(wi, rt, dn, seen@, k as int, bgc, reach, bgc);
                }
                assert(!hole_start(m, wi, hi, k as int));
                assert(rings_view(rings@) =~= outer + hole_rings_upto(m, wi, hi, k + 1));
            }
        }
        k = k + 1;
    }
    rings
}

/// The ASCII digit for `d` in `0 .. 10`.
pub open spec fn digit_char(d: int) -> char {
    (48 + d) as char
}

/// Decimal text of a natural number, without leading zeros.
pub open spec fn decimal(v: nat) -> Seq<char>
    decreases v,
{
    if v < 10 {
        seq![digit_char(v as int)]
    } else {
        decimal(v / 10) + seq![digit_char((v % 10) as int)]
    }
}

/// The value of an ASCII digit.
pub open spec fn digit_value(c: char) -> int {
    c as int - 48
}

/// The number a string of decimal digits denotes, read most significant
/// digit first.
pub open spec fn digits_value(s: Seq<char>) -> int
    decreases s.len(),
{
    if s.len() == 0 {
        0
    } else {
        10 * digits_value(s.drop_last()) + digit_value(s.last())
    }
}

proof fn lemma_digit_value(d: int)
    requires
        0 <= d < 10,
    ensures
        digit_value(digit_char(d)) == d,
        '0' <= digit_char(d) <= '9',
{
    assert(digit_char(d) as int == 48 + d);
}

/// The decimal text of a coordinate is ordinary decimal notation: it is
/// non-empty, made of the digits '0' to '9', starts with a nonzero digit
/// unless the number is zero, and reads back, most significant digit first,
/// as the number itself.
pub proof fn law_decimal_reads_back(v: nat)
    ensures
        decimal(v).len() > 0,
        forall|i: int| 0 <= i < decimal(v).len() ==> '0' <= #[trigger] decimal(v)[i] <= '9',
        v > 0 ==> decimal(v)[0] != '0',
        digits_value(decimal(v)) == v,
    decreases v,
{
    if v < 10 {
        lemma_digit_value(v as int);
        assert(decimal(v) =~= seq![digit_char(v as int)]);
        assert(decimal(v).drop_last() =~= Seq::<char>::empty());
        assert(digits_value(Seq::<char>::empty()) == 0);
        assert(digits_value(decimal(v)) == 10 * digits_value(decimal(v).drop_last()) + digit_value(decimal(v).last()));
    } else {
        law_decimal_reads_back(v / 10);
        lemma_digit_value((v % 10) as int);
        let head = decimal(v / 10);
        let d = digit_char((v % 10) as int);
        assert(decimal(v) =~= head + seq![d]);
        assert((head + seq![d]).drop_last() =~= head);
        assert(decimal(v).last() == d);
        assert(digits_value(decimal(v)) == 10 * digits_value(head) + digit_value(d));
        assert(v == 10 * (v / 10) + v % 10);
        assert(decimal(v)[0] == head[0]);
        assert forall|i: int| 0 <= i < decimal(v).len() implies '0' <= #[trigger] decimal(v)[i] <= '9' by {
            if i < head.len() {
                assert(decimal(v)[i] == head[i]);
            }
        }
    }
}

/// `M x y` for the first point of a subpath, `L x y` for the others.
pub open spec fn point_text(p: (u32, u32), first: bool) -> Seq<char> {
    seq![if first { 'M' } else { 'L' }] + decimal(p.0 as nat) + seq![' '] + decimal(p.1 as nat)
}

pub open spec fn points_text(pts: Seq<(u32, u32)>, k: int) -> Seq<char>
    decreases k,
{
    if k <= 0 {
        Seq::empty()
    } else {
        points_text(pts, k - 1) + point_text(pts[k - 1], k - 1 == 0)
    }
}

/// One closed `M..L..Z` subpath through the points.
pub open spec fn subpath_text(pts: Seq<(u32, u32)>) -> Seq<char> {
    points_text(pts, pts.len() as int) + seq!['Z']
}

/// Path data for the first `k` rings: each simplified, and skipped when it
/// collapses below three points.
pub open spec fn path_upto(rings: Seq<Seq<(u32, u32)>>, k: int) -> Seq<char>
    decreases k,
{
    if k <= 0 {
        Seq::empty()
    } else {
        let s = rdp_spec(rings[k - 1]);
        path_upto(rings, k - 1) + if s.len() < 3 {
            Seq::empty()
        } else {
            subpath_text(s)
        }
    }
}

/// The SVG path `d` string for a mask.
pub open spec fn trace_mask_spec(mask: Seq<bool>, w: int, h: int) -> Seq<char> {
    let rings = rings_spec(mask, w, h);
    path_upto(rings, rings.len() as int)
}

fn digit_str(d: u32) -> (s: &'static str)
    requires
        d < 10,
    ensures
        s@ == seq![digit_char(d as int)],
{
    match d {
        0 => {
            proof { reveal_strlit("0"); }
            "0"
        },
        1 => {
            proof { reveal_strlit("1"); }
            "1"
        },
        2 => {
            proof { reveal_strlit("2"); }
            "2"
        },
        3 => {
            proof { reveal_strlit("3"); }
            "3"
        },
        4 => {
            proof { reveal_strlit("4"); }
            "4"
        },
        5 => {
            proof { reveal_strlit("5"); }
            "5"
        },
        6 => {
            proof { reveal_strlit("6"); }
            "6"
        },
        7 => {
            proof { reveal_strlit("7"); }
            "7"
        },
        8 => {
            proof { reveal_strlit("8"); }
            "8"
        },
        _ => {
            proof { reveal_strlit("9"); }
            "9"
        },
    }
}

/// Append the decimal text of `v`.
fn push_decimal(d: &mut String, v: u32)
    ensures
        final(d)@ == old(d)@ + decimal(v as nat),
    decreases v,
{
    if v >= 10 {
        push_decimal(d, v / 10);
    }
    d.append(digit_str(v % 10));
    proof {
        if v >= 10 {
            assert(final(d)@ =~= old(d)@ + decimal(v as nat));
        }
    }
}

fn append_subpath(d: &mut String, pts: &Ring)
    ensures
        final(d)@ == old(d)@ + subpath_text(pts@),
{
    let ghost start = d@;
    let mut i: usize = 0;
    while i < pts.len()
        invariant
            i <= pts@.len(),
            d@ == start + points_text(pts@, i as int),
        decreases pts@.len() - i,
    {
        let (x, y) = pts[i];
        let ghost before = d@;
        if i == 0 {
            proof { reveal_strlit("M"); }
            d.append("M");
        } else {
            proof { reveal_strlit("L"); }
            d.append("L");
        }
        push_decimal(d, x);
        proof { reveal_strlit(" "); }
        d.append(" ");
        push_decimal(d, y);
        proof {
            assert(d@ =~= before + point_text(pts@[i as int], i == 0));
            assert(d@ =~= start + points_text(pts@, i + 1));
        }
        i = i + 1;
    }
    proof { reveal_strlit("Z"); }
    d.append("Z");
    assert(d@ =~= start + subpath_text(pts@));
}

/// The RDP simplification tolerance is 0.75 px; regions are large and
/// smooth, so a coarse outline is fine and keeps the path short.
///
/// Trace every border of `mask` (row-major, `width * height`) and return an
/// SVG path `d` string: one `M x y L x y ... Z` subpath per ring. Outer rings
/// wind counter-clockwise and holes clockwise; fill the path with
/// `fill-rule="evenodd"` so holes are cut. Returns an empty string for an
/// empty or all-false mask.
pub fn trace_mask(mask: &[bool], width: u32, height: u32) -> (d: String)
    requires
        trace_limits(mask@, width as int, height as int),
    ensures
        d@ == trace_mask_spec(mask@, width as int, height as int),
{
    let rings = trace_rings(mask, width, height);
    let ghost rv = rings_view(rings@);
    proof {
        if rings@.len() > 0 {
            assert(rv.len() > 0);
            assert(rings_spec(mask@, width as int, height as int).len() > 0);
        }
    }
    let mut d = String::new();
    let mut i: usize = 0;
    while i < rings.len()
        invariant
            i <= rings@.len(),
            rv == rings_view(rings@),
            rv == rings_spec(mask@, width as int, height as int),
            forall|k: int| 0 <= k < rings@.len() ==> bounded(#[trigger] rings@[k]@, width as int, height as int),
            trace_limits(mask@, width as int, height as int),
            rings@.len() > 0 ==> traceable(mask@, width as int, height as int),
            d@ == path_upto(rv, i as int),
        decreases rings@.len() - i,
    {
        proof {
            assert(rv[i as int] == rings@[i as int]@);
            lemma_bounded_weaken(rings@[i as int]@, width as int, height as int, MAX_SIDE as int, MAX_SIDE as int);
        }
        let simplified = rdp(&rings[i]);
        if simplified.len() >= 3 {
            append_subpath(&mut d, &simplified);
        }
        i = i + 1;
    }
    d
}

/// One 4-connected dilation step: a cell of the `w x h` image is set if it
/// or any of its in-image 4-neighbours is set; cells past the image are kept.
pub open spec fn dilate_once(m: Seq<bool>, w: int, h: int) -> Seq<bool> {
    Seq::new(
        m.len(),
        |i: int|
            if i < w * h {
                m[i] || (i / w > 0 && m[i - w]) || (i / w + 1 < h && m[i + w]) || (i % w > 0 && m[i - 1])
                    || (i % w + 1 < w && m[i + 1])
            } else {
                m[i]
            },
    )
}

/// `k` dilation steps.
pub open spec fn dilated(m: Seq<bool>, w: int, h: int, k: nat) -> Seq<bool>
    decreases k,
{
    if k == 0 {
        m
    } else {
        dilate_once(dilated(m, w, h, (k - 1) as nat), w, h)
    }
}

proof fn lemma_dilated_len(m: Seq<bool>, w: int, h: int, k: nat)
    ensures
        dilated(m, w, h, k).len() == m.len(),
    decreases k,
{
    if k > 0 {
        lemma_dilated_len(m, w, h, (k - 1) as nat);
    }
}

/// Dilation only grows a mask: every set cell stays set, whatever the number
/// of steps, and the mask keeps its size.
pub proof fn law_dilate_keeps_mask(m: Seq<bool>, w: int, h: int, k: nat)
    ensures
        dilated(m, w, h, k).len() == m.len(),
        forall|i: int| 0 <= i < m.len() && m[i] ==> #[trigger] dilated(m, w, h, k)[i],
    decreases k,
{
    lemma_dilated_len(m, w, h, k);
    if k > 0 {
        law_dilate_keeps_mask(m, w, h, (k - 1) as nat);
    }
}

/// Cell `(x, y)` lies in the `w x h` image and is set.
pub open spec fn set_at(m: Seq<bool>, w: int, h: int, x: int, y: int) -> bool {
    0 <= x < w && 0 <= y < h && m[y * w + x]
}

/// One dilation step, in image coordinates: cell `(x, y)` is set afterwards
/// exactly when it or one of its four neighbours inside the image (left,
/// right, above, below) was set. Nothing spreads across the image's side
/// edges into another row.
pub proof fn law_dilate_step_is_neighbourhood(m: Seq<bool>, w: int, h: int, x: int, y: int)
    requires
        m.len() >= w * h,
        0 <= x < w,
        0 <= y < h,
    ensures
        dilate_once(m, w, h)[y * w + x] == (set_at(m, w, h, x, y) || set_at(m, w, h, x - 1, y) || set_at(
            m,
            w,
            h,
            x + 1,
            y,
        ) || set_at(m, w, h, x, y - 1) || set_at(m, w, h, x, y + 1)),
{
    let i = y * w + x;
    assert(0 <= y * w) by (nonlinear_arith)
        requires 0 <= y, 0 <= w;
    assert(i < w * h) by (nonlinear_arith)
        requires 0 <= x < w, 0 <= y < h, i == y * w + x;
    vstd::arithmetic::div_mod::lemma_fundamental_div_mod_converse(i, w, y, x);
    assert(i - w == (y - 1) * w + x) by (nonlinear_arith)
        requires i == y * w + x;
    assert(i + w == (y + 1) * w + x) by (nonlinear_arith)
        requires i == y * w + x;
    if y + 1 < h {
        assert((y + 1) * w + x < w * h) by (nonlinear_arith)
            requires 0 <= x < w, y + 1 < h;
    }
}

/// Grid distance between cells `(x, y)` and `(a, b)`: steps left, right, up
/// and down.
pub open spec fn grid_dist(x: int, y: int, a: int, b: int) -> int {
    (if x >= a { x - a } else { a - x }) + (if y >= b { y - b } else { b - y })
}

/// Some set cell of the image lies within `k` grid steps of `(x, y)`.
pub open spec fn set_within(m: Seq<bool>, w: int, h: int, x: int, y: int, k: int) -> bool {
    exists|a: int, b: int| #[trigger] set_at(m, w, h, a, b) && grid_dist(x, y, a, b) <= k
}

/// `k` dilation steps set exactly the cells of the image that lie within `k`
/// grid steps of a cell set in the mask.
pub proof fn law_dilated_is_grid_distance(m: Seq<bool>, w: int, h: int, k: nat, x: int, y: int)
    requires
        m.len() >= w * h,
        0 <= x < w,
        0 <= y < h,
    ensures
        dilated(m, w, h, k)[y * w + x] == set_within(m, w, h, x, y, k as int),
    decreases k,
{
    if k == 0 {
        if set_at(m, w, h, x, y) {
            assert(grid_dist(x, y, x, y) == 0);
        }
        if set_within(m, w, h, x, y, 0) {
            let (a, b) = choose|a: int, b: int| #[trigger] set_at(m, w, h, a, b) && grid_dist(x, y, a, b) <= 0;
            assert(a == x && b == y);
        }
    } else {
        let k1 = (k - 1) as nat;
        let d = dilated(m, w, h, k1);
        lemma_dilated_len(m, w, h, k1);
        law_dilate_step_is_neighbourhood(d, w, h, x, y);
        assert(dilated(m, w, h, k) == dilate_once(d, w, h));
        // Each in-image neighbour carries its own distance fact.
        law_dilated_is_grid_distance(m, w, h, k1, x, y);
        if x > 0 {
            law_dilated_is_grid_distance(m, w, h, k1, x - 1, y);
        }
        if x + 1 < w {
            law_dilated_is_grid_distance(m, w, h, k1, x + 1, y);
        }
        if y > 0 {
            law_dilated_is_grid_distance(m, w, h, k1, x, y - 1);
        }
        if y + 1 < h {
            law_dilated_is_grid_distance(m, w, h, k1, x, y + 1);
        }
        if dilated(m, w, h, k)[y * w + x] {
            let (nx, ny) = if set_at(d, w, h, x, y) {
                (x, y)
            } else if set_at(d, w, h, x - 1, y) {
                (x - 1, y)
            } else if set_at(d, w, h, x + 1, y) {
                (x + 1, y)
            } else if set_at(d, w, h, x, y - 1) {
                (x, y - 1)
            } else {
                (x, y + 1)
            };
            assert(set_within(m, w, h, nx, ny, k1 as int));
            let (a, b) = choose|a: int, b: int| #[trigger] set_at(m, w, h, a, b) && grid_dist(nx, ny, a, b) <= k1;
            assert(grid_dist(x, y, a, b) <= k);
        }
        if set_within(m, w, h, x, y, k as int) {
            let (a, b) = choose|a: int, b: int| #[trigger] set_at(m, w, h, a, b) && grid_dist(x, y, a, b) <= k;
            if grid_dist(x, y, a, b) <= k1 {
                assert(set_within(m, w, h, x, y, k1 as int));
            } else {
                let (nx, ny) = if a < x {
                    (x - 1, y)
                } else if a > x {
                    (x + 1, y)
                } else if b < y {
                    (x, y - 1)
                } else {
                    (x, y + 1)
                };
                assert(grid_dist(nx, ny, a, b) <= k1);
                assert(set_within(m, w, h, nx, ny, k1 as int));
                assert(set_at(d, w, h, nx, ny));
            }
        }
    }
}

/// Grow `mask` by `iters` 4-connected dilation steps. Used to bleed a gradient
/// region ~1px under the flat trace so the seam between them is covered.
pub fn dilate(mask: &[bool], width: u32, height: u32, iters: usize) -> (out: Vec<bool>)
    requires
        mask@.len() >= width as int * height as int,
    ensures
        out@ == dilated(mask@, width as int, height as int, iters as nat),
{
    let w = width as usize;
    let h = height as usize;
    let ghost wi = w as int;
    let ghost hi = h as int;
    let n = mask.len();
    let total = w * h;
    let mut cur: Vec<bool> = Vec::new();
    let mut k: usize = 0;
    while k < n
        invariant
            n == mask@.len(),
            k <= n,
            cur@ == mask@.take(k as int),
        decreases n - k,
    {
        cur.push(mask[k]);
        k = k + 1;
        assert(cur@ =~= mask@.take(k as int));
    }
    assert(cur@ =~= mask@);
    let mut it: usize = 0;
    while it < iters
        invariant
            n == mask@.len(),
            n >= wi * hi,
            total == wi * hi,
            wi == w as int,
            hi == h as int,
            it <= iters,
            cur@ == dilated(mask@, wi, hi, it as nat),
        decreases iters - it,
    {
        let ghost c = cur@;
        proof {
            lemma_dilated_len(mask@, wi, hi, it as nat);
        }
        let mut next: Vec<bool> = Vec::new();
        let mut i: usize = 0;
        while i < n
            invariant
                n == c.len(),
                n >= wi * hi,
                total == wi * hi,
                wi == w as int,
                hi == h as int,
                c == cur@,
                i <= n,
                next@ == dilate_once(c, wi, hi).take(i as int),
            decreases n - i,
        {
            if i >= total {
                next.push(cur[i]);
                i = i + 1;
                assert(next@ =~= dilate_once(c, wi, hi).take(i as int));
                continue;
            }
            proof {
                if wi == 0 {
                    assert(wi * hi == 0) by (nonlinear_arith)
                        requires wi == 0;
                }
                lemma_cell_coords(wi, hi, i as int);
            }
            let x = i % w;
            let y = i / w;
            proof {
                if y > 0 {
                    assert(i >= wi) by (nonlinear_arith)
                        requires (y as int) * wi + (x as int) == i, y >= 1, x >= 0, wi > 0;
                }
                if y + 1 < h {
                    assert(i + wi < wi * hi) by (nonlinear_arith)
                        requires (y as int) * wi + (x as int) == i, y + 1 < hi, x < wi;
                }
                if x + 1 < w {
                    assert(i + 1 < wi * hi) by (nonlinear_arith)
                        requires (y as int) * wi + (x as int) == i, y < hi, x + 1 < wi;
                }
            }
            let set = if cur[i] {
                true
            } else {
                let up = y > 0 && cur[i - w];
                let down = y + 1 < h && cur[i + w];
                let left = x > 0 && cur[i - 1];
                let right = x + 1 < w && cur[i + 1];
                up || down || left || right
            };
            next.push(set);
            i = i + 1;
            assert(next@ =~= dilate_once(c, wi, hi).take(i as int));
        }
        assert(next@ =~= dilate_once(c, wi, hi));
        cur = next;
        it = it + 1;
    }
    cur
}

} // verus!
