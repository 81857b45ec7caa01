//! Back-to-front ordering of palette colors by covered area.
//!
//! Seams appear where two vectorized regions meet: each path stops a fraction
//! of a pixel short, leaving a hairline gap that shows the background through.
//! The strategy here is overlap-then-cover: paint the largest-area color first
//! (the background) and stack smaller colors on top, so any gap exposes a
//! neighbouring region rather than empty canvas.
use vstd::prelude::*;
use crate::regions::occurrences;

verus! {

/// Palette entry `a` is drawn before `b`: it covers more pixels, or as many
/// and has the lower index.
pub open spec fn drawn_before(indices: Seq<usize>, a: usize, b: usize) -> bool {
    occurrences(indices, a) > occurrences(indices, b) || (occurrences(indices, a)
        == occurrences(indices, b) && a < b)
}

proof fn lemma_occurrences_step(s: Seq<usize>, j: int, c: usize)
    requires
        0 <= j < s.len(),
    ensures
        occurrences(s.take(j + 1), c) == occurrences(s.take(j), c) + if s[j] == c {
            1nat
        } else {
            0nat
        },
{
    assert(s.take(j + 1).drop_last() =~= s.take(j));
}

/// Palette indices ordered largest covered area first (drawn first / bottom).
pub fn order_by_area(indices: &[usize], palette_len: usize) -> (order: Vec<usize>)
    ensures
        order@.len() == palette_len,
        forall|i: int| 0 <= i < order@.len() ==> #[trigger] order@[i] < palette_len,
        forall|c: usize| c < palette_len ==> #[trigger] order@.contains(c),
        forall|i: int, j: int|
            0 <= i < j < order@.len() ==> drawn_before(indices@, #[trigger] order@[i], #[trigger] order@[j]),
{
    let mut areas: Vec<usize> = Vec::new();
    let mut c: usize = 0;
    while c < palette_len
        invariant
            c <= palette_len,
            areas@.len() == c,
            forall|k: int| 0 <= k < c ==> #[trigger] areas@[k] == 0,
        decreases palette_len - c,
    {
        areas.push(0);
        c = c + 1;
    }
    let mut j: usize = 0;
    while j < indices.len()
        invariant
            j <= indices@.len(),
            areas@.len() == palette_len,
            forall|k: int|
                0 <= k < palette_len ==> #[trigger] areas@[k] == occurrences(
                    indices@.take(j as int),
                    k as usize,
                ),
            forall|k: int| 0 <= k < palette_len ==> #[trigger] areas@[k] <= j,
        decreases indices@.len() - j,
    {
        let idx = indices[j];
        proof {
            assert forall|k: int| 0 <= k < palette_len implies #[trigger] occurrences(indices@.take(j + 1), k as usize)
                == occurrences(indices@.take(j as int), k as usize) + if indices@[j as int] == k as usize {
                1nat
            } else {
                0nat
            } by {
                lemma_occurrences_step(indices@, j as int, k as usize);
            }
        }
        if idx < palette_len {
            let a = areas[idx];
            areas.set(idx, a + 1);
        }
        j = j + 1;
    }
    assert(indices@.take(j as int) =~= indices@);
    let mut order: Vec<usize> = Vec::new();
    let mut c: usize = 0;
    while c < palette_len
        invariant
            c <= palette_len,
            areas@.len() == palette_len,
            forall|k: int| 0 <= k < palette_len ==> #[trigger] areas@[k] == occurrences(indices@, k as usize),
            order@.len() == c,
            forall|i: int| 0 <= i < order@.len() ==> #[trigger] order@[i] < c,
            forall|k: usize| k < c ==> #[trigger] order@.contains(k),
            forall|i: int, j: int|
                0 <= i < j < order@.len() ==> drawn_before(indices@, #[trigger] order@[i], #[trigger] order@[j]),
        decreases palette_len - c,
    {
        // Find where `c` belongs: before the first entry with a smaller area.
        let mut pos: usize = 0;
        while pos < order.len() && areas[order[pos]] >= areas[c]
            invariant
                pos <= order@.len(),
                c < palette_len,
                areas@.len() == palette_len,
                forall|i: int| 0 <= i < order@.len() ==> #[trigger] order@[i] < c,
                forall|i: int| 0 <= i < pos ==> areas@[#[trigger] order@[i] as int] >= areas@[c as int],
            decreases order@.len() - pos,
        {
            pos = pos + 1;
        }
        let ghost before = order@;
        order.insert(pos, c);
        proof {
            assert forall|i: int, j: int|
                0 <= i < j < order@.len() implies drawn_before(indices@, #[trigger] order@[i], #[trigger] order@[j]) by {
                let oi = order@[i];
                let oj = order@[j];
                if j < pos {
                    assert(oi == before[i] && oj == before[j]);
                } else if j == pos {
                    assert(oi == before[i]);
                    assert(areas@[oi as int] >= areas@[c as int]);
                } else if i == pos {
                    assert(oj == before[j - 1]);
                    if j - 1 > pos {
                        // sorted: before[pos] comes before before[j-1]
                        assert(drawn_before(indices@, before[pos as int], before[j - 1]));
                    }
                    assert(areas@[before[pos as int] as int] < areas@[c as int]);
                } else if i < pos {
                    assert(oi == before[i] && oj == before[j - 1]);
                } else {
                    assert(oi == before[i - 1] && oj == before[j - 1]);
                }
            }
            assert forall|k: usize| k < c + 1 implies #[trigger] order@.contains(k) by {
                if k == c {
                    assert(order@[pos as int] == c);
                } else {
                    assert(before.contains(k));
                    let i = choose|i: int| 0 <= i < before.len() && before[i] == k;
                    if i < pos {
                        assert(order@[i] == k);
                    } else {
                        assert(order@[i + 1] == k);
                    }
                }
            }
            assert forall|i: int| 0 <= i < order@.len() implies #[trigger] order@[i] < c + 1 by {
                if i < pos {
                    assert(order@[i] == before[i]);
                } else if i > pos {
                    assert(order@[i] == before[i - 1]);
                }
            }
        }
        c = c + 1;
    }
    order
}

} // verus!
