use vstd::prelude::*;

use crate::model::{count_true, lemma_count_true_push};

verus! {

/// Relies on `rand::random_ratio`, which draws `true` with probability
/// `numerator / denominator`: its documentation guarantees `false` when the
/// numerator is 0 and `true` when it equals the denominator, and it panics when
/// the denominator is 0 or below the numerator.
#[verifier::external_body]
fn random_ratio(numerator: u32, denominator: u32) -> (r: bool)
    requires
        0 < denominator,
        numerator <= denominator,
    ensures
        numerator == 0 ==> !r,
        numerator == denominator ==> r,
{
    rand::random_ratio(numerator, denominator)
}

/// The number of mines a board of `cells` squares gets when `mines` are asked for.
pub open spec fn clamped_mines(mines: nat, cells: nat) -> nat {
    if mines < cells {
        mines
    } else {
        cells
    }
}

/// Chooses which of `cells` squares hold a mine, visiting them in order and
/// placing a mine with probability `mines left / squares left`, so that exactly
/// `min(mines, cells)` squares get one and every such set is equally likely.
pub fn mine_layout(cells: usize, mines: usize) -> (r: Vec<bool>)
    requires
        cells <= u32::MAX,
    ensures
        r.len() == cells,
        count_true(r@) == clamped_mines(mines as nat, cells as nat),
{
    let mut layout: Vec<bool> = Vec::new();
    let mut slots: usize = cells;
    let mut left: usize = if mines < cells {
        mines
    } else {
        cells
    };
    while slots > 0
        invariant
            cells <= u32::MAX,
            left <= slots,
            layout.len() + slots == cells,
            count_true(layout@) + left == clamped_mines(mines as nat, cells as nat),
        decreases slots,
    {
        let hit = random_ratio(left as u32, slots as u32);
        proof {
            lemma_count_true_push(layout@, hit);
        }
        layout.push(hit);
        if hit {
            left = left - 1;
        }
        slots = slots - 1;
    }
    layout
}

} // verus!
