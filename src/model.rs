use vstd::prelude::*;
use vstd::arithmetic::div_mod::lemma_fundamental_div_mod_converse;

use crate::tile::Tile;

verus! {

/// The `k`-th of the eight Chebyshev offsets, `0 <= k < 8`.
pub open spec fn offset(k: int) -> (int, int) {
    if k == 0 {
        (0, 1)
    } else if k == 1 {
        (0, -1)
    } else if k == 2 {
        (1, 0)
    } else if k == 3 {
        (-1, 0)
    } else if k == 4 {
        (1, 1)
    } else if k == 5 {
        (1, -1)
    } else if k == 6 {
        (-1, 1)
    } else {
        (-1, -1)
    }
}

/// The square that the `k`-th offset leads to from `p`.
pub open spec fn shifted(p: (int, int), k: int) -> (int, int) {
    (p.0 + offset(k).0, p.1 + offset(k).1)
}

/// `q` is one of the eight squares that touch `p`.
pub open spec fn is_neighbour(p: (int, int), q: (int, int)) -> bool {
    &&& p != q
    &&& -1 <= q.0 - p.0 <= 1
    &&& -1 <= q.1 - p.1 <= 1
}

/// How many entries of `s` are `true`.
pub open spec fn count_true(s: Seq<bool>) -> nat
    decreases s.len(),
{
    if s.len() == 0 {
        0
    } else {
        count_true(s.drop_last()) + if s.last() {
            1nat
        } else {
            0nat
        }
    }
}

/// How many entries of `s` are hidden safe squares with no mine around.
pub open spec fn count_hidden_zeros(s: Seq<Tile>) -> nat
    decreases s.len(),
{
    if s.len() == 0 {
        0
    } else {
        count_hidden_zeros(s.drop_last()) + if s.last() == Tile::Concealed(0) {
            1nat
        } else {
            0nat
        }
    }
}

/// The mathematical state of a board: `cells` lists the squares row by row,
/// the square at column `x` and row `y` standing at `y * width + x`.
pub ghost struct BoardView {
    pub width: nat,
    pub height: nat,
    pub cells: Seq<Tile>,
    pub over: bool,
}

impl BoardView {
    pub open spec fn in_bounds(self, p: (int, int)) -> bool {
        0 <= p.0 < self.width && 0 <= p.1 < self.height
    }

    pub open spec fn index(self, p: (int, int)) -> int {
        p.1 * self.width + p.0
    }

    /// The column and row of the `i`-th cell.
    pub open spec fn position(self, i: int) -> (int, int) {
        (i % (self.width as int), i / (self.width as int))
    }

    pub open spec fn tile(self, p: (int, int)) -> Tile {
        self.cells[self.index(p)]
    }

    /// There is one cell per square.
    pub open spec fn shaped(self) -> bool {
        self.cells.len() == self.width * self.height
    }

    /// 1 when `p` is a square of the board that holds a mine, else 0.
    pub open spec fn mine_at(self, p: (int, int)) -> nat {
        if self.in_bounds(p) && self.tile(p).is_mine() {
            1
        } else {
            0
        }
    }

    /// Mines among the squares reached from `p` by the first `k` offsets.
    pub open spec fn mines_among(self, p: (int, int), k: int) -> nat
        decreases k,
    {
        if k <= 0 {
            0
        } else {
            self.mines_among(p, k - 1) + self.mine_at(shifted(p, k - 1))
        }
    }

    /// Mines among the (up to) eight neighbours of `p`.
    pub open spec fn adjacent_mines(self, p: (int, int)) -> nat {
        self.mines_among(p, 8)
    }

    /// Number of squares that hold a mine, shown or not.
    pub open spec fn mine_count(self) -> nat {
        count_true(self.cells.map_values(|t: Tile| t.is_mine()))
    }

    /// Each safe square carries the number of mines around it.
    pub open spec fn counts_agree(self) -> bool {
        forall|p: (int, int)|
            #![trigger self.tile(p)]
            self.in_bounds(p) && !self.tile(p).is_mine() ==> self.tile(p).number()
                == self.adjacent_mines(p)
    }

    /// Some square shows a mine.
    pub open spec fn mine_shown(self) -> bool {
        exists|i: int| 0 <= i < self.cells.len() && self.cells[i] == Tile::RevealedMine
    }

    /// Well-formed: one cell per square, correct counts, and the game is over
    /// exactly when a mine is shown.
    pub open spec fn wf(self) -> bool {
        &&& self.shaped()
        &&& self.counts_agree()
        &&& self.over == self.mine_shown()
    }

    /// A path of touching squares, each of them a hidden safe square with no mine around.
    pub open spec fn is_zero_path(self, path: Seq<(int, int)>) -> bool {
        &&& path.len() > 0
        &&& forall|i: int|
            0 <= i < path.len() ==> self.in_bounds(#[trigger] path[i]) && self.tile(path[i])
                == Tile::Concealed(0)
        &&& forall|i: int| 0 < i < path.len() ==> is_neighbour(path[i - 1], #[trigger] path[i])
    }

    /// `p` lies in the connected zero region of `start`.
    pub open spec fn in_zero_region(self, start: (int, int), p: (int, int)) -> bool {
        exists|path: Seq<(int, int)>|
            #[trigger] self.is_zero_path(path) && path[0] == start && path.last() == p
    }

    /// `p` is a hidden safe square with mines around that touches the zero region of `start`.
    pub open spec fn on_border(self, start: (int, int), p: (int, int)) -> bool {
        &&& self.in_bounds(p)
        &&& self.tile(p) matches Tile::Concealed(m) && m > 0
        &&& exists|q: (int, int)| #[trigger] self.in_zero_region(start, q) && is_neighbour(q, p)
    }

    /// A cascade from `start` uncovers `p`.
    pub open spec fn cascade_reaches(self, start: (int, int), p: (int, int)) -> bool {
        self.in_zero_region(start, p) || self.on_border(start, p)
    }

    /// The square at `p` after the player picks `c`.
    pub open spec fn picked_tile(self, c: (int, int), p: (int, int)) -> Tile {
        if !self.in_bounds(c) {
            self.tile(p)
        } else if self.tile(c) == Tile::Concealed(0) {
            if self.cascade_reaches(c, p) {
                self.tile(p).uncovered()
            } else {
                self.tile(p)
            }
        } else if self.tile(c).is_concealed() && p == c {
            self.tile(p).uncovered()
        } else {
            self.tile(p)
        }
    }

    /// The board after the player picks `c`.
    pub open spec fn pick(self, c: (int, int)) -> BoardView {
        BoardView {
            width: self.width,
            height: self.height,
            cells: Seq::new(self.cells.len(), |i: int| self.picked_tile(c, self.position(i))),
            over: self.over || (self.in_bounds(c) && self.tile(c) == Tile::ConcealedMine),
        }
    }

    /// The board after picking each of `cs` in turn.
    pub open spec fn pick_each(self, cs: Seq<(int, int)>) -> BoardView
        decreases cs.len(),
    {
        if cs.len() == 0 {
            self
        } else {
            self.pick(cs[0]).pick_each(cs.drop_first())
        }
    }

    /// The board with every square shown.
    pub open spec fn uncover_all(self) -> BoardView {
        BoardView {
            width: self.width,
            height: self.height,
            cells: self.cells.map_values(|t: Tile| t.uncovered()),
            over: self.over || exists|i: int| 0 <= i < self.cells.len() && self.cells[i].is_mine(),
        }
    }

    /// The board with the square at `p` replaced by `t`.
    pub open spec fn with_tile(self, p: (int, int), t: Tile) -> BoardView {
        BoardView { cells: self.cells.update(self.index(p), t), ..self }
    }
}

pub proof fn lemma_index_in_range(v: BoardView, p: (int, int))
    requires
        v.in_bounds(p),
    ensures
        0 <= v.index(p) < v.width * v.height,
{
    let w = v.width as int;
    let h = v.height as int;
    assert(0 <= p.1 * w + p.0 < w * h) by (nonlinear_arith)
        requires
            0 <= p.0 < w,
            0 <= p.1 < h,
    ;
}

pub proof fn lemma_position_of_index(v: BoardView, p: (int, int))
    requires
        v.in_bounds(p),
    ensures
        v.position(v.index(p)) == p,
{
    lemma_fundamental_div_mod_converse(v.index(p), v.width as int, p.1, p.0);
}

pub proof fn lemma_index_of_position(v: BoardView, i: int)
    requires
        v.shaped(),
        0 <= i < v.cells.len(),
    ensures
        v.in_bounds(v.position(i)),
        v.index(v.position(i)) == i,
{
    let w = v.width as int;
    let h = v.height as int;
    assert(w > 0) by (nonlinear_arith)
        requires
            0 <= i < w * h,
            h >= 0,
    ;
    vstd::arithmetic::div_mod::lemma_fundamental_div_mod(i, w);
    let q = i / w;
    let r = i % w;
    assert(0 <= r < w);
    assert(i == w * q + r);
    assert(0 <= q < h) by (nonlinear_arith)
        requires
            0 <= r < w,
            i == w * q + r,
            0 <= i < w * h,
    ;
    assert(q * w == w * q) by (nonlinear_arith);
}

pub proof fn lemma_index_injective(v: BoardView, p: (int, int), q: (int, int))
    requires
        v.in_bounds(p),
        v.in_bounds(q),
        v.index(p) == v.index(q),
    ensures
        p == q,
{
    lemma_position_of_index(v, p);
    lemma_position_of_index(v, q);
}

/// Two shaped boards of the same size that agree on every square hold the same cells.
pub proof fn lemma_cells_agree(a: BoardView, b: BoardView)
    requires
        a.shaped(),
        b.shaped(),
        a.width == b.width,
        a.height == b.height,
        forall|p: (int, int)| a.in_bounds(p) ==> a.tile(p) == b.tile(p),
    ensures
        a.cells == b.cells,
{
    assert forall|i: int| 0 <= i < a.cells.len() implies a.cells[i] == b.cells[i] by {
        lemma_index_of_position(a, i);
        assert(a.tile(a.position(i)) == b.tile(a.position(i)));
    }
    assert(a.cells =~= b.cells);
}

/// Replacing one square leaves every other square as it was.
pub proof fn lemma_with_tile(v: BoardView, q: (int, int), t: Tile)
    requires
        v.shaped(),
        v.in_bounds(q),
    ensures
        v.with_tile(q, t).shaped(),
        v.with_tile(q, t).tile(q) == t,
        forall|p: (int, int)|
            #![trigger v.with_tile(q, t).tile(p)]
            v.in_bounds(p) && p != q ==> v.with_tile(q, t).tile(p) == v.tile(p),
{
    lemma_index_in_range(v, q);
    assert forall|p: (int, int)| v.in_bounds(p) && p != q implies v.with_tile(q, t).tile(p)
        == v.tile(p) by {
        lemma_index_in_range(v, p);
        if v.index(p) == v.index(q) {
            lemma_index_injective(v, p, q);
        }
    }
}

/// The square at `p` of the picked board is the picked square.
pub proof fn lemma_pick_tile(v: BoardView, c: (int, int), p: (int, int))
    requires
        v.shaped(),
        v.in_bounds(p),
    ensures
        v.pick(c).tile(p) == v.picked_tile(c, p),
{
    lemma_index_in_range(v, p);
    lemma_position_of_index(v, p);
}

/// Each offset leads to a neighbour.
pub proof fn lemma_offsets_reach_neighbours(p: (int, int))
    ensures
        forall|k: int| 0 <= k < 8 ==> is_neighbour(p, #[trigger] shifted(p, k)),
{
}

/// Each neighbour is reached by an offset.
pub proof fn lemma_offsets(p: (int, int), q: (int, int))
    ensures
        is_neighbour(p, q) ==> exists|k: int| 0 <= k < 8 && shifted(p, k) == q,
{
    if is_neighbour(p, q) {
        let dx = q.0 - p.0;
        let dy = q.1 - p.1;
        let k: int = if dx == 0 && dy == 1 {
            0
        } else if dx == 0 && dy == -1 {
            1
        } else if dx == 1 && dy == 0 {
            2
        } else if dx == -1 && dy == 0 {
            3
        } else if dx == 1 && dy == 1 {
            4
        } else if dx == 1 && dy == -1 {
            5
        } else if dx == -1 && dy == 1 {
            6
        } else {
            7
        };
        assert(shifted(p, k) == q);
    }
}

/// Boards of one size whose squares hold mines at the same places count the same mines around each square.
pub proof fn lemma_same_mines(a: BoardView, b: BoardView, p: (int, int), k: int)
    requires
        a.width == b.width,
        a.height == b.height,
        forall|q: (int, int)| a.in_bounds(q) ==> a.tile(q).is_mine() == b.tile(q).is_mine(),
    ensures
        a.mines_among(p, k) == b.mines_among(p, k),
    decreases k,
{
    if k > 0 {
        lemma_same_mines(a, b, p, k - 1);
        let q = shifted(p, k - 1);
        if a.in_bounds(q) {
            assert(a.tile(q).is_mine() == b.tile(q).is_mine());
        }
    }
}

/// A square with no mine around has no mine on any neighbour.
pub proof fn lemma_no_mine_near(v: BoardView, p: (int, int), q: (int, int), k: int)
    requires
        v.mines_among(p, k) == 0,
        0 <= k <= 8,
        exists|j: int| 0 <= j < k && shifted(p, j) == q,
        v.in_bounds(q),
    ensures
        !v.tile(q).is_mine(),
    decreases k,
{
    if shifted(p, k - 1) != q {
        lemma_no_mine_near(v, p, q, k - 1);
    }
}

/// A hidden zero square touching the zero region of `c` belongs to it.
pub proof fn lemma_region_step(v: BoardView, c: (int, int), z: (int, int), q: (int, int))
    requires
        v.in_zero_region(c, z),
        is_neighbour(z, q),
        v.in_bounds(q),
        v.tile(q) == Tile::Concealed(0),
    ensures
        v.in_zero_region(c, q),
{
    let path = choose|path: Seq<(int, int)>|
        #[trigger] v.is_zero_path(path) && path[0] == c && path.last() == z;
    let longer = path.push(q);
    assert(longer[longer.len() - 2] == z);
    assert(v.is_zero_path(longer));
}

/// Every square of a zero region is a hidden zero square of the board.
pub proof fn lemma_region_zero(v: BoardView, c: (int, int), p: (int, int))
    requires
        v.in_zero_region(c, p),
    ensures
        v.in_bounds(p),
        v.tile(p) == Tile::Concealed(0),
{
    let path = choose|path: Seq<(int, int)>|
        #[trigger] v.is_zero_path(path) && path[0] == c && path.last() == p;
    assert(v.in_bounds(path[path.len() - 1]));
}

pub proof fn lemma_count_true_push(s: Seq<bool>, b: bool)
    ensures
        count_true(s.push(b)) == count_true(s) + if b {
            1nat
        } else {
            0nat
        },
{
    assert(s.push(b).drop_last() =~= s);
}

/// Changing one cell changes the number of hidden zeros by what that cell was and became.
pub proof fn lemma_count_hidden_zeros_update(s: Seq<Tile>, i: int, t: Tile)
    requires
        0 <= i < s.len(),
    ensures
        count_hidden_zeros(s.update(i, t)) + (if s[i] == Tile::Concealed(0) {
            1int
        } else {
            0int
        }) == count_hidden_zeros(s) + (if t == Tile::Concealed(0) {
            1int
        } else {
            0int
        }),
    decreases s.len(),
{
    let u = s.update(i, t);
    if i == s.len() - 1 {
        assert(u.drop_last() =~= s.drop_last());
    } else {
        assert(u.drop_last() =~= s.drop_last().update(i, t));
        lemma_count_hidden_zeros_update(s.drop_last(), i, t);
    }
}

} // verus!
