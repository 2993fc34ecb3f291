use vstd::prelude::*;

use crate::model::{
    is_neighbour, lemma_index_of_position, lemma_no_mine_near, lemma_offsets, lemma_pick_tile,
    lemma_region_step, lemma_region_zero, lemma_same_mines, BoardView,
};
use crate::tile::Tile;

verus! {

/// Picking a square keeps a well-formed board well-formed: the counts stay
/// right and the game is over exactly when a mine is shown. No square gains or
/// loses a mine, so the number of mines stays as it was.
pub proof fn lemma_pick_keeps_wf(v: BoardView, c: (int, int))
    requires
        v.wf(),
    ensures
        v.pick(c).wf(),
        forall|i: int|
            0 <= i < v.cells.len() ==> (#[trigger] v.pick(c).cells[i]).is_mine()
                == v.cells[i].is_mine(),
        v.pick(c).mine_count() == v.mine_count(),
{
    let w = v.pick(c);
    let mine_picked = v.in_bounds(c) && v.tile(c) == Tile::ConcealedMine;
    assert forall|i: int| 0 <= i < v.cells.len() implies (#[trigger] w.cells[i]).is_mine()
        == v.cells[i].is_mine() && (w.cells[i] == Tile::RevealedMine <==> v.cells[i]
        == Tile::RevealedMine || (mine_picked && v.position(i) == c)) by {
        let p = v.position(i);
        lemma_index_of_position(v, i);
        if v.in_bounds(c) && v.tile(c) == Tile::Concealed(0) && v.in_zero_region(c, p) {
            lemma_region_zero(v, c, p);
        }
    }
    assert forall|p: (int, int)| v.in_bounds(p) implies v.tile(p).is_mine() == w.tile(
        p,
    ).is_mine() by {
        lemma_pick_tile(v, c, p);
        if v.tile(c) == Tile::Concealed(0) && v.in_zero_region(c, p) {
            lemma_region_zero(v, c, p);
        }
    }
    assert forall|p: (int, int)| w.in_bounds(p) && !w.tile(p).is_mine() implies w.tile(p).number()
        == w.adjacent_mines(p) by {
        lemma_pick_tile(v, c, p);
        assert(!v.tile(p).is_mine());
        assert(v.tile(p).number() == v.adjacent_mines(p));
        lemma_same_mines(v, w, p, 8);
    }
    assert(w.counts_agree());
    if mine_picked {
        lemma_pick_tile(v, c, c);
        crate::model::lemma_index_in_range(v, c);
        crate::model::lemma_position_of_index(v, c);
        assert(w.cells[v.index(c)] == Tile::RevealedMine);
    } else if w.over {
        let i = choose|i: int| 0 <= i < v.cells.len() && v.cells[i] == Tile::RevealedMine;
        assert(w.cells[i] == Tile::RevealedMine);
    } else {
        assert forall|i: int| 0 <= i < w.cells.len() implies w.cells[i] != Tile::RevealedMine by {
            assert(v.cells[i] != Tile::RevealedMine);
        }
    }
    assert(w.cells.map_values(|t: Tile| t.is_mine()) =~= v.cells.map_values(|t: Tile| t.is_mine()));
}

/// Showing every square keeps a well-formed board well-formed, and no square
/// gains or loses a mine.
pub proof fn lemma_uncover_all_keeps_wf(v: BoardView)
    requires
        v.wf(),
    ensures
        v.uncover_all().wf(),
        v.uncover_all().mine_count() == v.mine_count(),
{
    let w = v.uncover_all();
    assert forall|p: (int, int)| v.in_bounds(p) implies v.tile(p).is_mine() == w.tile(
        p,
    ).is_mine() by {
        crate::model::lemma_index_in_range(v, p);
    }
    assert forall|p: (int, int)| w.in_bounds(p) && !w.tile(p).is_mine() implies w.tile(p).number()
        == w.adjacent_mines(p) by {
        crate::model::lemma_index_in_range(v, p);
        assert(w.tile(p) == v.tile(p).uncovered());
        assert(!v.tile(p).is_mine());
        assert(v.tile(p).number() == v.adjacent_mines(p));
        lemma_same_mines(v, w, p, 8);
    }
    if w.over {
        if v.over {
            let i = choose|i: int| 0 <= i < v.cells.len() && v.cells[i] == Tile::RevealedMine;
            assert(w.cells[i] == Tile::RevealedMine);
        } else {
            let i = choose|i: int| 0 <= i < v.cells.len() && v.cells[i].is_mine();
            assert(w.cells[i] == Tile::RevealedMine);
        }
    } else {
        assert forall|i: int| 0 <= i < w.cells.len() implies w.cells[i] != Tile::RevealedMine by {
            assert(!v.cells[i].is_mine());
        }
    }
    assert(w.cells.map_values(|t: Tile| t.is_mine()) =~= v.cells.map_values(|t: Tile| t.is_mine()));
}

/// Picking a square that is off the board or already shown changes nothing.
pub proof fn lemma_pick_noop(v: BoardView, c: (int, int))
    requires
        v.shaped(),
        !(v.in_bounds(c) && v.tile(c).is_concealed()),
    ensures
        v.pick(c) == v,
{
    let w = v.pick(c);
    assert forall|i: int| 0 <= i < v.cells.len() implies w.cells[i] == v.cells[i] by {
        lemma_index_of_position(v, i);
    }
    assert(w.cells =~= v.cells);
}

/// A pick off the board leaves the board unchanged.
pub proof fn lemma_pick_off_board(v: BoardView, c: (int, int))
    requires
        v.shaped(),
        !v.in_bounds(c),
    ensures
        v.pick(c) == v,
{
    lemma_pick_noop(v, c);
}

/// Picking the same square twice in a row does what picking it once does.
pub proof fn lemma_pick_twice(v: BoardView, c: (int, int))
    requires
        v.shaped(),
    ensures
        v.pick(c).pick(c) == v.pick(c),
{
    let w = v.pick(c);
    if v.in_bounds(c) {
        lemma_pick_tile(v, c, c);
        if v.tile(c) == Tile::Concealed(0) {
            assert(v.is_zero_path(seq![c]));
            assert(v.in_zero_region(c, c));
        }
    }
    lemma_pick_noop(w, c);
}

/// Showing every square twice does what showing them once does.
pub proof fn lemma_uncover_all_twice(v: BoardView)
    ensures
        v.uncover_all().uncover_all() == v.uncover_all(),
{
    let w = v.uncover_all();
    assert(w.uncover_all().cells =~= w.cells);
    if w.uncover_all().over && !w.over {
        let i = choose|i: int| 0 <= i < w.cells.len() && w.cells[i].is_mine();
        assert(v.cells[i].is_mine());
    }
}

/// A shown square stays as it is whatever squares are picked after it.
pub proof fn lemma_shown_stays(v: BoardView, cs: Seq<(int, int)>, p: (int, int))
    requires
        v.shaped(),
        v.in_bounds(p),
        !v.tile(p).is_concealed(),
    ensures
        v.pick_each(cs).tile(p) == v.tile(p),
    decreases cs.len(),
{
    if cs.len() > 0 {
        let w = v.pick(cs[0]);
        lemma_pick_tile(v, cs[0], p);
        lemma_shown_stays(w, cs.drop_first(), p);
    }
}

/// Picking a safe square shows no mine that was hidden, and leaves the game
/// as it was: over only if it already was.
pub proof fn lemma_safe_pick_shows_no_mine(v: BoardView, c: (int, int))
    requires
        v.wf(),
        v.in_bounds(c),
        !v.tile(c).is_mine(),
    ensures
        v.pick(c).over == v.over,
        forall|p: (int, int)|
            v.in_bounds(p) && (#[trigger] v.pick(c).tile(p)).is_mine() ==> v.pick(c).tile(p)
                == v.tile(p),
{
    assert forall|p: (int, int)|
        v.in_bounds(p) && (#[trigger] v.pick(c).tile(p)).is_mine() implies v.pick(c).tile(p)
        == v.tile(p) by {
        lemma_pick_tile(v, c, p);
        if v.tile(c) == Tile::Concealed(0) && v.in_zero_region(c, p) {
            lemma_region_zero(v, c, p);
        }
    }
}

/// Picking a hidden square with no mine around shows its whole zero region as
/// zeros, and every square touching that region ends up shown and safe; the
/// hidden squares with mines around that touch it are shown with their count.
pub proof fn lemma_zero_region_shown(v: BoardView, c: (int, int))
    requires
        v.wf(),
        v.in_bounds(c),
        v.tile(c) == Tile::Concealed(0),
    ensures
        forall|p: (int, int)|
            #[trigger] v.in_zero_region(c, p) ==> v.pick(c).tile(p) == Tile::Revealed(0),
        forall|p: (int, int), q: (int, int)|
            #[trigger] v.in_zero_region(c, p) && v.in_bounds(q) && #[trigger] is_neighbour(p, q)
                ==> v.pick(c).tile(q) is Revealed,
        forall|p: (int, int)|
            #[trigger] v.on_border(c, p) ==> v.pick(c).tile(p) == Tile::Revealed(
                v.tile(p)->Concealed_0,
            ) && v.tile(p)->Concealed_0 > 0,
{
    assert forall|p: (int, int)| #[trigger] v.in_zero_region(c, p) implies v.pick(c).tile(p)
        == Tile::Revealed(0) by {
        lemma_region_zero(v, c, p);
        lemma_pick_tile(v, c, p);
    }
    assert forall|p: (int, int), q: (int, int)|
        #[trigger] v.in_zero_region(c, p) && v.in_bounds(q) && #[trigger] is_neighbour(
            p,
            q,
        ) implies v.pick(c).tile(q) is Revealed by {
        lemma_region_zero(v, c, p);
        lemma_pick_tile(v, c, q);
        assert(v.adjacent_mines(p) == 0);
        lemma_offsets(p, q);
        lemma_no_mine_near(v, p, q, 8);
        if v.tile(q) == Tile::Concealed(0) {
            lemma_region_step(v, c, p, q);
        } else if v.tile(q) is Concealed {
            assert(v.on_border(c, q));
        }
    }
    assert forall|p: (int, int)| #[trigger] v.on_border(c, p) implies v.pick(c).tile(p)
        == Tile::Revealed(v.tile(p)->Concealed_0) && v.tile(p)->Concealed_0 > 0 by {
        lemma_pick_tile(v, c, p);
    }
}

} // verus!
