//! Nearest-candidate resolution: a brute-force scan of the palette under the
//! perceptual distance, keeping the earliest index on ties.

use vstd::prelude::*;
use crate::color::{color_dist, distance, Color};
use crate::palette::{colors_of, Candidate};

verus! {

/// The index of the candidate among the first `n` that is closest to `p`,
/// where only a strictly smaller distance displaces the running best, so the
/// earliest index wins every tie.
pub open spec fn best_index(p: Color, pal: Seq<Color>, n: int) -> int
    decreases n,
{
    if n <= 1 {
        0
    } else {
        let prev = best_index(p, pal, n - 1);
        if color_dist(p, pal[n - 1]) < color_dist(p, pal[prev]) {
            n - 1
        } else {
            prev
        }
    }
}

/// The chosen index is in range, no candidate is strictly closer, and every
/// earlier candidate is strictly farther.
pub proof fn lemma_best_index(p: Color, pal: Seq<Color>, n: int)
    requires
        1 <= n <= pal.len(),
    ensures
        0 <= best_index(p, pal, n) < n,
        forall|j: int|
            0 <= j < n ==> color_dist(p, pal[best_index(p, pal, n)]) <= color_dist(
                p,
                #[trigger] pal[j],
            ),
        forall|j: int|
            0 <= j < best_index(p, pal, n) ==> color_dist(p, #[trigger] pal[j]) > color_dist(
                p,
                pal[best_index(p, pal, n)],
            ),
    decreases n,
{
    if n > 1 {
        lemma_best_index(p, pal, n - 1);
    }
}

/// Ties keep the earliest index: when two candidates are equally distant
/// from the pixel, the resolver never picks the later one.
pub proof fn lemma_tie_break(p: Color, pal: Seq<Color>, i: int, j: int)
    requires
        0 <= i < j < pal.len(),
        color_dist(p, pal[i]) == color_dist(p, pal[j]),
    ensures
        best_index(p, pal, pal.len() as int) != j,
{
    lemma_best_index(p, pal, pal.len() as int);
}

/// Finds the candidate closest to `pixel` by scanning the whole palette in
/// order, returning its color and its index; only a strictly smaller distance
/// replaces the running best.
pub fn resolve(pixel: Color, entries: &Vec<Candidate>) -> (res: (Color, usize))
    requires
        entries@.len() >= 1,
    ensures
        res.1 == best_index(pixel, colors_of(entries@), entries@.len() as int),
        res.1 < entries@.len(),
        res.0 == entries@[res.1 as int].color,
{
    let ghost pal = colors_of(entries@);
    let mut best_i: usize = 0;
    let mut best_color: Color = entries[0].color;
    let mut best_key: u32 = distance(pixel, best_color);
    let mut i: usize = 1;
    proof {
        assert(pal[0] == entries@[0].color);
    }
    while i < entries.len()
        invariant
            1 <= i <= entries@.len(),
            pal == colors_of(entries@),
            best_i == best_index(pixel, pal, i as int),
            best_i < i,
            best_color == entries@[best_i as int].color,
            best_key == color_dist(pixel, pal[best_i as int]),
        decreases entries@.len() - i,
    {
        let c = entries[i].color;
        proof {
            assert(pal[i as int] == entries@[i as int].color);
        }
        let key = distance(pixel, c);
        if key < best_key {
            best_i = i;
            best_color = c;
            best_key = key;
        }
        i += 1;
    }
    (best_color, best_i)
}

} // verus!
