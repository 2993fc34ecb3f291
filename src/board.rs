use vstd::prelude::*;

use crate::model::{
    count_hidden_zeros, count_true, is_neighbour, lemma_cells_agree,
    lemma_count_hidden_zeros_update, lemma_index_in_range, lemma_offsets,
    lemma_offsets_reach_neighbours, lemma_pick_tile, lemma_region_step, lemma_same_mines,
    lemma_with_tile, offset, shifted, BoardView,
};
use crate::laws::{lemma_pick_keeps_wf, lemma_uncover_all_keeps_wf};
use crate::placement::{clamped_mines, mine_layout};
use crate::tile::Tile;

verus! {

/// A square of the board: `x` is the column, `y` the row.
#[derive(Clone, Copy, Debug, PartialEq, Eq, Hash, Structural)]
pub struct Coordinate {
    pub x: usize,
    pub y: usize,
}

impl Coordinate {
    pub open spec fn pos(self) -> (int, int) {
        (self.x as int, self.y as int)
    }
}

/// A minesweeper board: its squares row by row, its size, and whether a mine
/// has been picked.
#[derive(Debug)]
pub struct Board {
    tiles: Vec<Tile>,
    width: usize,
    height: usize,
    game_over: bool,
}

impl View for Board {
    type V = BoardView;

    closed spec fn view(&self) -> BoardView {
        BoardView {
            width: self.width as nat,
            height: self.height as nat,
            cells: self.tiles@,
            over: self.game_over,
        }
    }
}

/// The `k`-th offset of the neighbourhood.
fn offset_at(k: usize) -> (r: (i8, i8))
    requires
        k < 8,
    ensures
        r.0 as int == offset(k as int).0,
        r.1 as int == offset(k as int).1,
{
    if k == 0 {
        (0, 1)
    } else if k == 1 {
        (0, -1)
    } else if k == 2 {
        (1, 0)
    } else if k == 3 {
        (-1, 0)
    } else if k == 4 {
        (1, 1)
    } else if k == 5 {
        (1, -1)
    } else if k == 6 {
        (-1, 1)
    } else {
        (-1, -1)
    }
}

/// `v + d` when it lies in `0..bound`.
fn step(v: usize, d: i8, bound: usize) -> (r: Option<usize>)
    requires
        -1 <= d <= 1,
    ensures
        match r {
            Some(u) => u as int == v + d && u < bound,
            None => !(0 <= v + d < bound),
        },
{
    if d < 0 {
        if v > 0 && v - 1 < bound {
            Some(v - 1)
        } else {
            None
        }
    } else if d == 0 {
        if v < bound {
            Some(v)
        } else {
            None
        }
    } else {
        if v < bound && v + 1 < bound {
            Some(v + 1)
        } else {
            None
        }
    }
}

impl Board {
    /// Where the square `c` of this board stands in `tiles`.
    fn index_of(&self, c: Coordinate) -> (r: usize)
        requires
            self@.shaped(),
            self@.in_bounds(c.pos()),
        ensures
            r as int == self@.index(c.pos()),
            r < self.tiles.len(),
    {
        proof {
            lemma_index_in_range(self@, c.pos());
            assert(c.y * self.width <= c.y * self.width + c.x < self.tiles.len());
        }
        c.y * self.width + c.x
    }

    /// The square that the `k`-th offset leads to from `c`, if it is on the board.
    fn neighbour(&self, c: Coordinate, k: usize) -> (r: Option<Coordinate>)
        requires
            k < 8,
        ensures
            match r {
                Some(n) => n.pos() == shifted(c.pos(), k as int) && self@.in_bounds(n.pos()),
                None => !self@.in_bounds(shifted(c.pos(), k as int)),
            },
    {
        let (dx, dy) = offset_at(k);
        match (step(c.x, dx, self.width), step(c.y, dy, self.height)) {
            (Some(x), Some(y)) => Some(Coordinate { x, y }),
            _ => None,
        }
    }

    /// A board of `width` columns and `height` rows whose squares hold a mine
    /// where `mines` (row by row) says so; every square starts hidden.
    pub fn with_mines(width: usize, height: usize, mines: &Vec<bool>) -> (r: Board)
        requires
            mines.len() == width * height,
        ensures
            r@.wf(),
            r@.width == width,
            r@.height == height,
            !r@.over,
            forall|i: int|
                0 <= i < r@.cells.len() ==> (#[trigger] r@.cells[i]).is_concealed()
                    && r@.cells[i].is_mine() == mines@[i],
            r@.mine_count() == count_true(mines@),
    {
        let mut tiles: Vec<Tile> = Vec::new();
        let mut i: usize = 0;
        while i < mines.len()
            invariant
                i <= mines.len(),
                tiles.len() == i,
                forall|j: int|
                    0 <= j < i ==> #[trigger] tiles@[j] == if mines@[j] {
                        Tile::ConcealedMine
                    } else {
                        Tile::Concealed(0)
                    },
            decreases mines.len() - i,
        {
            if mines[i] {
                tiles.push(Tile::ConcealedMine);
            } else {
                tiles.push(Tile::Concealed(0));
            }
            i = i + 1;
        }
        let mut board = Board { tiles, width, height, game_over: false };
        let ghost layout = board@;
        let mut y: usize = 0;
        while y < height
            invariant
                y <= height,
                layout.shaped(),
                board.width == width,
                board.height == height,
                board@.width == layout.width,
                board@.height == layout.height,
                board@.cells.len() == layout.cells.len(),
                !board.game_over,
                forall|j: int|
                    0 <= j < layout.cells.len() ==> (#[trigger] board@.cells[j]).is_concealed()
                        && board@.cells[j].is_mine() == layout.cells[j].is_mine(),
                forall|p: (int, int)|
                    #![trigger board@.tile(p)]
                    layout.in_bounds(p) && p.1 < y && !board@.tile(p).is_mine()
                        ==> board@.tile(p).number() == layout.adjacent_mines(p),
                forall|j: int|
                    0 <= j < layout.cells.len() ==> #[trigger] layout.cells[j] == if mines@[j] {
                        Tile::ConcealedMine
                    } else {
                        Tile::Concealed(0)
                    },
            decreases height - y,
        {
            let mut x: usize = 0;
            while x < width
                invariant
                    y < height,
                    x <= width,
                    layout.shaped(),
                    board.width == width,
                    board.height == height,
                    board@.width == layout.width,
                    board@.height == layout.height,
                    board@.cells.len() == layout.cells.len(),
                    !board.game_over,
                    forall|j: int|
                        0 <= j < layout.cells.len() ==> (#[trigger] board@.cells[j]).is_concealed()
                            && board@.cells[j].is_mine() == layout.cells[j].is_mine(),
                    forall|p: (int, int)|
                        #![trigger board@.tile(p)]
                        layout.in_bounds(p) && (p.1 < y || (p.1 == y && p.0 < x))
                            && !board@.tile(p).is_mine() ==> board@.tile(p).number()
                            == layout.adjacent_mines(p),
                    forall|j: int|
                        0 <= j < layout.cells.len() ==> #[trigger] layout.cells[j] == if mines@[j] {
                            Tile::ConcealedMine
                        } else {
                            Tile::Concealed(0)
                        },
                decreases width - x,
            {
                let c = Coordinate { x, y };
                let idx = board.index_of(c);
                proof {
                    lemma_index_in_range(layout, c.pos());
                    assert forall|q: (int, int)| layout.in_bounds(q) implies layout.tile(q).is_mine()
                        == board@.tile(q).is_mine() by {
                        lemma_index_in_range(layout, q);
                    }
                    lemma_same_mines(layout, board@, c.pos(), 8);
                }
                if let Tile::Concealed(_) = board.tiles[idx] {
                    let n = board.get_num_adj_mines(&c);
                    let ghost before = board@;
                    board.tiles.set(idx, Tile::Concealed(n));
                    proof {
                        lemma_with_tile(before, c.pos(), Tile::Concealed(n));
                        assert(board@ == before.with_tile(c.pos(), Tile::Concealed(n)));
                    }
                }
                x = x + 1;
            }
            y = y + 1;
        }
        proof {
            let v = board@;
            assert forall|q: (int, int)| layout.in_bounds(q) implies layout.tile(q).is_mine()
                == v.tile(q).is_mine() by {
                lemma_index_in_range(layout, q);
            }
            assert forall|p: (int, int)| v.in_bounds(p) && !v.tile(p).is_mine() implies v.tile(
                p,
            ).number() == v.adjacent_mines(p) by {
                lemma_same_mines(layout, v, p, 8);
            }
            assert(!v.mine_shown());
            assert(v.cells.map_values(|t: Tile| t.is_mine()) =~= mines@);
        }
        board
    }

    /// A board of `width` columns and `height` rows with `min(mine_count, width * height)`
    /// mines placed at random, every such placement being equally likely.
    pub fn new(width: usize, height: usize, mine_count: usize) -> (r: Board)
        requires
            width * height <= u32::MAX,
        ensures
            r@.wf(),
            r@.width == width,
            r@.height == height,
            !r@.over,
            forall|i: int| 0 <= i < r@.cells.len() ==> (#[trigger] r@.cells[i]).is_concealed(),
            r@.mine_count() == clamped_mines(mine_count as nat, (width * height) as nat),
    {
        let mines = mine_layout(width * height, mine_count);
        Board::with_mines(width, height, &mines)
    }

    /// Whether a mine has been picked.
    pub fn is_game_over(&self) -> (r: bool)
        requires
            self@.wf(),
        ensures
            r == self@.over,
            r <==> self@.mine_shown(),
    {
        self.game_over
    }

    /// The number of columns and rows.
    pub fn dimensions(&self) -> (r: (usize, usize))
        ensures
            r.0 == self@.width,
            r.1 == self@.height,
    {
        (self.width, self.height)
    }

    /// The square at `coord`, or `None` off the board.
    pub fn get_tile(&self, coord: &Coordinate) -> (r: Option<Tile>)
        requires
            self@.shaped(),
        ensures
            r == if self@.in_bounds(coord.pos()) {
                Some(self@.tile(coord.pos()))
            } else {
                None::<Tile>
            },
    {
        if coord.x < self.width && coord.y < self.height {
            let i = self.index_of(*coord);
            Some(self.tiles[i])
        } else {
            None
        }
    }

    /// Shows the square at `coord`.
    fn reveal_tile(&mut self, coord: &Coordinate)
        requires
            old(self)@.shaped(),
            old(self)@.in_bounds(coord.pos()),
        ensures
            final(self)@ == old(self)@.with_tile(
                coord.pos(),
                old(self)@.tile(coord.pos()).uncovered(),
            ),
    {
        let i = self.index_of(*coord);
        let t = self.tiles[i].uncover();
        self.tiles.set(i, t);
    }

    /// The number of mines, shown or hidden, among the eight neighbours of `coord`.
    pub fn get_num_adj_mines(&self, coord: &Coordinate) -> (r: usize)
        requires
            self@.shaped(),
        ensures
            r == self@.adjacent_mines(coord.pos()),
    {
        let mut count: usize = 0;
        let mut k: usize = 0;
        while k < 8
            invariant
                k <= 8,
                count <= k,
                count == self@.mines_among(coord.pos(), k as int),
                self@.shaped(),
            decreases 8 - k,
        {
            if let Some(n) = self.neighbour(*coord, k) {
                let i = self.index_of(n);
                match self.tiles[i] {
                    Tile::ConcealedMine | Tile::RevealedMine => {
                        count = count + 1;
                    },
                    _ => {},
                }
            }
            k = k + 1;
        }
        count
    }

    /// Picks the square at `coord`: off the board or already shown, nothing
    /// happens; a hidden mine is shown and ends the game; a hidden square with
    /// mines around is shown; a hidden square with none around starts a cascade.
    pub fn pick_tile(&mut self, coord: &Coordinate)
        requires
            old(self)@.wf(),
        ensures
            final(self)@ == old(self)@.pick(coord.pos()),
            final(self)@.wf(),
    {
        let ghost start = self@;
        let ghost c = coord.pos();
        match self.get_tile(coord) {
            None => {},
            Some(tile) => match tile {
                Tile::Concealed(value) => {
                    if value == 0 {
                        self.bfs_zeros(coord);
                    } else {
                        self.reveal_tile(coord);
                    }
                },
                Tile::ConcealedMine => {
                    self.reveal_tile(coord);
                    self.game_over = true;
                },
                _ => {},
            },
        }
        proof {
            let cur = self@;
            let want = start.pick(c);
            if start.in_bounds(c) && start.tile(c).is_concealed() && start.tile(c) != Tile::Concealed(
                0,
            ) {
                lemma_with_tile(start, c, start.tile(c).uncovered());
            }
            assert forall|p: (int, int)| start.in_bounds(p) implies cur.tile(p) == want.tile(p) by {
                lemma_pick_tile(start, c, p);
                if start.in_bounds(c) && start.tile(c).is_concealed() && start.tile(c)
                    != Tile::Concealed(0) {
                    let u = start.with_tile(c, start.tile(c).uncovered());
                    assert(cur.cells == u.cells);
                    assert(cur.tile(p) == u.tile(p));
                }
            }
            lemma_cells_agree(cur, want);
            lemma_pick_keeps_wf(start, c);
        }
    }

    /// Shows every square; the game is over once a mine is shown.
    pub fn reveal_grid(&mut self)
        requires
            old(self)@.wf(),
        ensures
            final(self)@ == old(self)@.uncover_all(),
            final(self)@.wf(),
    {
        let ghost start = self@;
        let mut i: usize = 0;
        while i < self.tiles.len()
            invariant
                self.width == start.width,
                self.height == start.height,
                self.tiles.len() == start.cells.len(),
                i <= self.tiles.len(),
                forall|j: int| 0 <= j < i ==> #[trigger] self.tiles@[j] == start.cells[j].uncovered(),
                forall|j: int| i <= j < self.tiles.len() ==> #[trigger] self.tiles@[j] == start.cells[j],
                self.game_over == (start.over || exists|j: int|
                    0 <= j < i && (#[trigger] start.cells[j]).is_mine()),
            decreases self.tiles.len() - i,
        {
            let t = self.tiles[i];
            match t {
                Tile::ConcealedMine | Tile::RevealedMine => {
                    self.game_over = true;
                },
                _ => {},
            }
            self.tiles.set(i, t.uncover());
            i = i + 1;
        }
        proof {
            assert(self@.cells =~= start.cells.map_values(|t: Tile| t.uncovered()));
            lemma_uncover_all_keeps_wf(start);
        }
    }

    /// Uncovers the zero region of `coord` and the squares that border it,
    /// working through a stack of uncovered zero squares whose neighbours are
    /// still to be visited.
    fn bfs_zeros(&mut self, coord: &Coordinate)
        requires
            old(self)@.shaped(),
            old(self)@.in_bounds(coord.pos()),
            old(self)@.tile(coord.pos()) == Tile::Concealed(0),
        ensures
            final(self)@.width == old(self)@.width,
            final(self)@.height == old(self)@.height,
            final(self)@.over == old(self)@.over,
            final(self)@.shaped(),
            forall|p: (int, int)|
                #![trigger final(self)@.tile(p)]
                old(self)@.in_bounds(p) ==> final(self)@.tile(p) == if old(self)@.cascade_reaches(
                    coord.pos(),
                    p,
                ) {
                    old(self)@.tile(p).uncovered()
                } else {
                    old(self)@.tile(p)
                },
    {
        let ghost start = self@;
        let ghost c = coord.pos();
        proof {
            lemma_with_tile(start, c, Tile::Revealed(0));
            assert(start.is_zero_path(seq![c]));
        }
        self.reveal_tile(coord);
        let mut pending: Vec<Coordinate> = Vec::new();
        pending.push(*coord);
        proof {
            assert(pending@[0].pos() == c);
            assert forall|p: (int, int)|
                start.in_bounds(p) && start.in_zero_region(c, p) && self@.tile(p) != start.tile(
                    p,
                ) && !waiting(pending@, p) implies handled_around(start, self@, p, 8) by {
                assert(p == c);
            }
        }
        while pending.len() > 0
            invariant
                start.shaped(),
                start.in_bounds(c),
                start.tile(c) == Tile::Concealed(0),
                self@.width == start.width,
                self@.height == start.height,
                self@.over == start.over,
                self@.cells.len() == start.cells.len(),
                cascade_sound(start, self@, c),
                self@.tile(c) != start.tile(c),
                forall|j: int|
                    0 <= j < pending.len() ==> start.in_bounds(#[trigger] pending@[j].pos())
                        && start.in_zero_region(c, pending@[j].pos()) && self@.tile(pending@[j].pos())
                        != start.tile(pending@[j].pos()),
                closed_except(start, self@, c, pending@, None),
            decreases 2 * count_hidden_zeros(self@.cells) + pending.len(),
        {
            let ghost measure = 2 * count_hidden_zeros(self@.cells) + pending.len();
            let ghost before_pop = pending@;
            let z = pending.pop().unwrap();
            proof {
                assert(before_pop[before_pop.len() - 1] == z);
                assert forall|p: (int, int)|
                    start.in_bounds(p) && start.in_zero_region(c, p) && self@.tile(p)
                        != start.tile(p) && !waiting(pending@, p) && p != z.pos() implies handled_around(
                    start,
                    self@,
                    p,
                    8,
                ) by {
                    if waiting(before_pop, p) {
                        let j = choose|j: int|
                            0 <= j < before_pop.len() && #[trigger] before_pop[j].pos() == p;
                        assert(pending@[j] == before_pop[j]);
                    }
                }
            }
            let mut k: usize = 0;
            while k < 8
                invariant
                    k <= 8,
                    start.shaped(),
                    start.in_bounds(c),
                    start.tile(c) == Tile::Concealed(0),
                    self@.width == start.width,
                    self@.height == start.height,
                    self@.over == start.over,
                    self@.cells.len() == start.cells.len(),
                    cascade_sound(start, self@, c),
                    self@.tile(c) != start.tile(c),
                    forall|j: int|
                        0 <= j < pending.len() ==> start.in_bounds(#[trigger] pending@[j].pos())
                            && start.in_zero_region(c, pending@[j].pos()) && self@.tile(
                            pending@[j].pos(),
                        ) != start.tile(pending@[j].pos()),
                    start.in_bounds(z.pos()),
                    start.in_zero_region(c, z.pos()),
                    self@.tile(z.pos()) != start.tile(z.pos()),
                    closed_except(start, self@, c, pending@, Some(z.pos())),
                    handled_around(start, self@, z.pos(), k as int),
                    2 * count_hidden_zeros(self@.cells) + pending.len() < measure,
                decreases 8 - k,
            {
                proof {
                    lemma_offsets_reach_neighbours(z.pos());
                }
                if let Some(n) = self.neighbour(z, k) {
                    let i = self.index_of(n);
                    if let Tile::Concealed(v) = self.tiles[i] {
                        let ghost before = self@;
                        let ghost before_pending = pending@;
                        let ghost q = n.pos();
                        proof {
                            assert(before.tile(q) == start.tile(q));
                            if v == 0 {
                                lemma_region_step(start, c, z.pos(), q);
                            } else {
                                assert(start.on_border(c, q));
                            }
                            lemma_with_tile(before, q, Tile::Revealed(v));
                            lemma_count_hidden_zeros_update(before.cells, i as int, Tile::Revealed(v));
                        }
                        self.reveal_tile(&n);
                        if v == 0 {
                            pending.push(n);
                        }
                        proof {
                            let cur = self@;
                            assert(forall|p: (int, int)|
                                before.in_bounds(p) && p != q ==> cur.tile(p) == before.tile(p));
                            assert forall|j: int| 0 <= j < pending.len() implies start.in_bounds(
                                #[trigger] pending@[j].pos(),
                            ) && start.in_zero_region(c, pending@[j].pos()) && cur.tile(
                                pending@[j].pos(),
                            ) != start.tile(pending@[j].pos()) by {
                                if j < before_pending.len() {
                                    assert(pending@[j] == before_pending[j]);
                                }
                            }
                            assert forall|p: (int, int)|
                                start.in_bounds(p) && start.in_zero_region(c, p) && cur.tile(p)
                                    != start.tile(p) && !waiting(pending@, p) && Some(p) != Some(
                                    z.pos(),
                                ) implies handled_around(start, cur, p, 8) by {
                                if p == q {
                                    assert(pending@[pending.len() - 1] == n);
                                } else {
                                    if waiting(before_pending, p) {
                                        let j = choose|j: int|
                                            0 <= j < before_pending.len()
                                                && #[trigger] before_pending[j].pos() == p;
                                        assert(pending@[j] == before_pending[j]);
                                    }
                                    assert(handled_around(start, before, p, 8));
                                    assert forall|j: int| 0 <= j < 8 implies #[trigger] handled(
                                        start,
                                        cur,
                                        shifted(p, j),
                                    ) by {
                                        assert(handled(start, before, shifted(p, j)));
                                    }
                                }
                            }
                            assert forall|j: int| 0 <= j < k + 1 implies #[trigger] handled(
                                start,
                                cur,
                                shifted(z.pos(), j),
                            ) by {
                                if j < k {
                                    assert(handled(start, before, shifted(z.pos(), j)));
                                }
                            }
                        }
                    }
                }
                k = k + 1;
            }
        }
        proof {
            let cur = self@;
            assert forall|p: (int, int)| start.in_bounds(p) implies cur.tile(p) == if start.cascade_reaches(c, p) {
                start.tile(p).uncovered()
            } else {
                start.tile(p)
            } by {
                if start.in_zero_region(c, p) {
                    let path = choose|path: Seq<(int, int)>|
                        #[trigger] start.is_zero_path(path) && path[0] == c && path.last() == p;
                    lemma_cascade_complete(start, cur, c, path);
                } else if start.on_border(c, p) {
                    let q = choose|q: (int, int)| #[trigger] start.in_zero_region(c, q) && is_neighbour(q, p);
                    let path = choose|path: Seq<(int, int)>|
                        #[trigger] start.is_zero_path(path) && path[0] == c && path.last() == q;
                    lemma_cascade_complete(start, cur, c, path);
                    lemma_offsets(q, p);
                    let k = choose|k: int| 0 <= k < 8 && shifted(q, k) == p;
                    assert(handled(start, cur, shifted(q, k)));
                }
            }
        }
    }
}

/// Every square is as it was at `start`, or uncovered by the cascade from `c`.
spec fn cascade_sound(start: BoardView, cur: BoardView, c: (int, int)) -> bool {
    forall|p: (int, int)|
        #![trigger cur.tile(p)]
        start.in_bounds(p) ==> cur.tile(p) == start.tile(p) || (start.cascade_reaches(c, p)
            && cur.tile(p) == start.tile(p).uncovered())
}

/// A hidden safe square at `q` has been uncovered since `start`.
spec fn handled(start: BoardView, cur: BoardView, q: (int, int)) -> bool {
    start.in_bounds(q) && start.tile(q) is Concealed ==> cur.tile(q) != start.tile(q)
}

/// The squares reached from `p` by the first `k` offsets are handled.
spec fn handled_around(start: BoardView, cur: BoardView, p: (int, int), k: int) -> bool {
    forall|j: int| 0 <= j < k ==> #[trigger] handled(start, cur, shifted(p, j))
}

/// `p` is one of the squares on the stack.
spec fn waiting(pending: Seq<Coordinate>, p: (int, int)) -> bool {
    exists|j: int| 0 <= j < pending.len() && #[trigger] pending[j].pos() == p
}

/// Every uncovered square of the zero region of `c`, but the one being worked
/// on, either waits on the stack or has all its neighbours handled.
spec fn closed_except(
    start: BoardView,
    cur: BoardView,
    c: (int, int),
    pending: Seq<Coordinate>,
    busy: Option<(int, int)>,
) -> bool {
    forall|p: (int, int)|
        #![trigger start.in_zero_region(c, p), cur.tile(p)]
        start.in_bounds(p) && start.in_zero_region(c, p) && cur.tile(p) != start.tile(p)
            && !waiting(pending, p) && Some(p) != busy ==> handled_around(start, cur, p, 8)
}

/// Once the stack is empty, every square of the zero region has been uncovered.
proof fn lemma_cascade_complete(
    start: BoardView,
    cur: BoardView,
    c: (int, int),
    path: Seq<(int, int)>,
)
    requires
        cur.tile(c) != start.tile(c),
        closed_except(start, cur, c, Seq::empty(), None),
        start.is_zero_path(path),
        path[0] == c,
    ensures
        cur.tile(path.last()) != start.tile(path.last()),
    decreases path.len(),
{
    if path.len() > 1 {
        let shorter = path.drop_last();
        assert(start.is_zero_path(shorter));
        lemma_cascade_complete(start, cur, c, shorter);
        let q = shorter.last();
        let p = path.last();
        assert(start.in_zero_region(c, q));
        assert(!waiting(Seq::empty(), q));
        assert(handled_around(start, cur, q, 8));
        assert(is_neighbour(path[path.len() - 2], path[path.len() - 1]));
        lemma_offsets(q, p);
        let k = choose|k: int| 0 <= k < 8 && shifted(q, k) == p;
        assert(handled(start, cur, shifted(q, k)));
        assert(start.tile(p) == Tile::Concealed(0));
    }
}

} // verus!
