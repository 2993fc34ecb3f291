use minesweeper::{mine_layout, Board, Coordinate, Tile};

fn at(x: usize, y: usize) -> Coordinate {
    Coordinate { x, y }
}

/// A board whose mines stand at the listed squares.
fn board_with(width: usize, height: usize, mines: &[(usize, usize)]) -> Board {
    let mut layout = vec![false; width * height];
    for &(x, y) in mines {
        layout[y * width + x] = true;
    }
    Board::with_mines(width, height, &layout)
}

fn snapshot(board: &Board) -> Vec<Tile> {
    let (w, h) = board.dimensions();
    let mut out = Vec::new();
    for y in 0..h {
        for x in 0..w {
            out.push(board.get_tile(&at(x, y)).unwrap());
        }
    }
    out
}

fn count_mines(board: &Board) -> usize {
    snapshot(board)
        .iter()
        .filter(|t| matches!(t, Tile::ConcealedMine | Tile::RevealedMine))
        .count()
}

#[test]
fn empty_board_cascades_everywhere() {
    let mut board = board_with(3, 3, &[]);
    assert!(snapshot(&board).iter().all(|t| *t == Tile::Concealed(0)));
    board.pick_tile(&at(1, 1));
    assert!(snapshot(&board).iter().all(|t| *t == Tile::Revealed(0)));
    assert!(!board.is_game_over());
}

#[test]
fn corner_mine_cascade_reveals_border() {
    let mut board = board_with(3, 3, &[(0, 0)]);
    assert_eq!(board.get_tile(&at(0, 1)), Some(Tile::Concealed(1)));
    assert_eq!(board.get_tile(&at(1, 0)), Some(Tile::Concealed(1)));
    assert_eq!(board.get_tile(&at(1, 1)), Some(Tile::Concealed(1)));
    for (x, y) in [(0, 2), (2, 0), (2, 2), (1, 2), (2, 1)] {
        assert_eq!(board.get_tile(&at(x, y)), Some(Tile::Concealed(0)));
    }
    board.pick_tile(&at(2, 2));
    for (x, y) in [(0, 2), (2, 0), (2, 2), (1, 2), (2, 1)] {
        assert_eq!(board.get_tile(&at(x, y)), Some(Tile::Revealed(0)));
    }
    for (x, y) in [(0, 1), (1, 0), (1, 1)] {
        assert_eq!(board.get_tile(&at(x, y)), Some(Tile::Revealed(1)));
    }
    assert_eq!(board.get_tile(&at(0, 0)), Some(Tile::ConcealedMine));
    assert!(!board.is_game_over());
}

#[test]
fn numbered_pick_reveals_single_square() {
    let mut board = board_with(3, 3, &[(0, 0), (2, 2)]);
    let before = snapshot(&board);
    board.pick_tile(&at(1, 1));
    let after = snapshot(&board);
    assert_eq!(after[4], Tile::Revealed(2));
    for i in 0..9 {
        if i != 4 {
            assert_eq!(after[i], before[i]);
        }
    }
    assert!(!board.is_game_over());
}

#[test]
fn mine_pick_ends_game_and_freezes_board() {
    let mut board = board_with(4, 3, &[(2, 1), (0, 2)]);
    board.pick_tile(&at(2, 1));
    assert_eq!(board.get_tile(&at(2, 1)), Some(Tile::RevealedMine));
    assert!(board.is_game_over());
    board.pick_tile(&at(2, 1));
    assert_eq!(board.get_tile(&at(2, 1)), Some(Tile::RevealedMine));
    assert!(board.is_game_over());
}

#[test]
fn full_board_of_mines() {
    let mut board = Board::new(2, 2, 4);
    assert!(snapshot(&board).iter().all(|t| *t == Tile::ConcealedMine));
    board.pick_tile(&at(0, 0));
    assert!(board.is_game_over());
    board.reveal_grid();
    assert!(snapshot(&board).iter().all(|t| *t == Tile::RevealedMine));
}

#[test]
fn cascade_stops_at_mine_in_a_row() {
    let mut board = board_with(5, 1, &[(2, 0)]);
    assert_eq!(board.get_tile(&at(1, 0)), Some(Tile::Concealed(1)));
    assert_eq!(board.get_tile(&at(3, 0)), Some(Tile::Concealed(1)));
    assert_eq!(board.get_tile(&at(0, 0)), Some(Tile::Concealed(0)));
    assert_eq!(board.get_tile(&at(4, 0)), Some(Tile::Concealed(0)));
    board.pick_tile(&at(0, 0));
    assert_eq!(board.get_tile(&at(0, 0)), Some(Tile::Revealed(0)));
    assert_eq!(board.get_tile(&at(1, 0)), Some(Tile::Revealed(1)));
    assert_eq!(board.get_tile(&at(2, 0)), Some(Tile::ConcealedMine));
    assert_eq!(board.get_tile(&at(3, 0)), Some(Tile::Concealed(1)));
    assert_eq!(board.get_tile(&at(4, 0)), Some(Tile::Concealed(0)));
}

#[test]
fn new_places_exact_mine_count() {
    for &(w, h, m) in &[(1, 1, 0), (1, 1, 1), (3, 4, 5), (8, 8, 10), (5, 5, 25), (9, 7, 1)] {
        let board = Board::new(w, h, m);
        assert_eq!(board.dimensions(), (w, h));
        assert_eq!(count_mines(&board), m);
        assert!(!board.is_game_over());
    }
}

#[test]
fn new_clamps_too_many_mines() {
    let board = Board::new(3, 2, 100);
    assert_eq!(count_mines(&board), 6);
}

#[test]
fn empty_board_has_no_squares() {
    let mut board = Board::new(0, 4, 3);
    assert_eq!(board.dimensions(), (0, 4));
    assert_eq!(board.get_tile(&at(0, 0)), None);
    board.pick_tile(&at(0, 0));
    assert!(!board.is_game_over());
}

#[test]
fn counts_match_neighbouring_mines() {
    for _ in 0..20 {
        let board = Board::new(6, 5, 9);
        for y in 0..5 {
            for x in 0..6 {
                let mut expected = 0;
                for dy in -1i64..=1 {
                    for dx in -1i64..=1 {
                        let (nx, ny) = (x as i64 + dx, y as i64 + dy);
                        if (dx, dy) != (0, 0) && (0..6).contains(&nx) && (0..5).contains(&ny) {
                            if let Some(Tile::ConcealedMine) =
                                board.get_tile(&at(nx as usize, ny as usize))
                            {
                                expected += 1;
                            }
                        }
                    }
                }
                assert_eq!(board.get_num_adj_mines(&at(x, y)), expected);
                if let Some(Tile::Concealed(n)) = board.get_tile(&at(x, y)) {
                    assert_eq!(n, expected);
                }
            }
        }
    }
}

#[test]
fn adjacency_counts_revealed_mines_too() {
    let mut board = board_with(3, 1, &[(0, 0), (2, 0)]);
    assert_eq!(board.get_num_adj_mines(&at(1, 0)), 2);
    board.pick_tile(&at(0, 0));
    assert_eq!(board.get_num_adj_mines(&at(1, 0)), 2);
    assert_eq!(board.get_num_adj_mines(&at(5, 5)), 0);
}

#[test]
fn placement_is_uniform() {
    let runs = 3000;
    let mut hits = [0usize; 9];
    for _ in 0..runs {
        let board = Board::new(3, 3, 3);
        for (i, t) in snapshot(&board).iter().enumerate() {
            if *t == Tile::ConcealedMine {
                hits[i] += 1;
            }
        }
    }
    for h in hits {
        let freq = h as f64 / runs as f64;
        assert!((freq - 1.0 / 3.0).abs() < 0.05, "frequency {}", freq);
    }
}

#[test]
fn layout_has_exact_count() {
    for &(cells, mines) in &[(0, 0), (0, 5), (1, 1), (10, 3), (10, 10), (10, 12), (50, 49)] {
        let layout = mine_layout(cells, mines);
        assert_eq!(layout.len(), cells);
        assert_eq!(layout.iter().filter(|b| **b).count(), mines.min(cells));
    }
}

#[test]
fn revealed_squares_stay_revealed() {
    let mut board = board_with(4, 4, &[(3, 3), (0, 3)]);
    board.pick_tile(&at(0, 0));
    let shown: Vec<(usize, Tile)> = snapshot(&board)
        .into_iter()
        .enumerate()
        .filter(|(_, t)| matches!(t, Tile::Revealed(_)))
        .collect();
    assert!(!shown.is_empty());
    for (x, y) in [(3, 3), (1, 3), (2, 2), (0, 3), (9, 9)] {
        board.pick_tile(&at(x, y));
        let now = snapshot(&board);
        for (i, t) in &shown {
            assert_eq!(now[*i], *t);
        }
    }
}

#[test]
fn safe_pick_shows_no_mine() {
    let mut board = board_with(5, 5, &[(1, 1), (3, 3), (4, 0)]);
    for (x, y) in [(0, 4), (2, 2), (4, 4), (0, 0)] {
        board.pick_tile(&at(x, y));
        assert!(!board.is_game_over());
        assert!(!snapshot(&board).contains(&Tile::RevealedMine));
    }
    assert_eq!(count_mines(&board), 3);
}

#[test]
fn zero_region_is_fully_revealed_with_border() {
    let mut board = board_with(5, 5, &[(2, 0), (2, 1), (2, 2), (2, 3), (2, 4)]);
    board.pick_tile(&at(0, 0));
    for y in 0..5 {
        assert_eq!(board.get_tile(&at(0, y)), Some(Tile::Revealed(0)));
        assert!(matches!(board.get_tile(&at(1, y)), Some(Tile::Revealed(n)) if n > 0));
        assert_eq!(board.get_tile(&at(2, y)), Some(Tile::ConcealedMine));
        assert!(matches!(board.get_tile(&at(3, y)), Some(Tile::Concealed(n)) if n > 0));
        assert_eq!(board.get_tile(&at(4, y)), Some(Tile::Concealed(0)));
    }
}

#[test]
fn game_over_iff_mine_shown() {
    let mut board = board_with(3, 3, &[(1, 1)]);
    assert!(!board.is_game_over());
    board.pick_tile(&at(0, 0));
    assert_eq!(board.is_game_over(), snapshot(&board).contains(&Tile::RevealedMine));
    board.pick_tile(&at(1, 1));
    assert!(board.is_game_over());
    assert!(snapshot(&board).contains(&Tile::RevealedMine));
}

#[test]
fn reveal_grid_ends_game_when_mines_exist() {
    let mut board = board_with(2, 2, &[(1, 0)]);
    board.reveal_grid();
    assert!(board.is_game_over());
    assert_eq!(board.get_tile(&at(1, 0)), Some(Tile::RevealedMine));
    assert_eq!(board.get_tile(&at(0, 0)), Some(Tile::Revealed(1)));

    let mut clear = board_with(2, 2, &[]);
    clear.reveal_grid();
    assert!(!clear.is_game_over());
    assert!(snapshot(&clear).iter().all(|t| *t == Tile::Revealed(0)));
}

#[test]
fn pick_twice_same_as_once() {
    for (x, y) in [(0, 0), (2, 1), (3, 3), (1, 0), (7, 7)] {
        let mut once = board_with(4, 4, &[(1, 1), (3, 0), (0, 3)]);
        let mut twice = board_with(4, 4, &[(1, 1), (3, 0), (0, 3)]);
        once.pick_tile(&at(x, y));
        twice.pick_tile(&at(x, y));
        twice.pick_tile(&at(x, y));
        assert_eq!(snapshot(&once), snapshot(&twice));
        assert_eq!(once.is_game_over(), twice.is_game_over());
    }
}

#[test]
fn reveal_grid_twice_same_as_once() {
    let mut board = board_with(3, 3, &[(0, 2), (2, 0)]);
    board.reveal_grid();
    let first = snapshot(&board);
    let over = board.is_game_over();
    board.reveal_grid();
    assert_eq!(snapshot(&board), first);
    assert_eq!(board.is_game_over(), over);
}

#[test]
fn out_of_bounds_pick_is_noop() {
    let mut board = board_with(3, 2, &[(1, 1)]);
    let before = snapshot(&board);
    for (x, y) in [(3, 0), (0, 2), (100, 100), (usize::MAX, 0), (0, usize::MAX)] {
        board.pick_tile(&at(x, y));
        assert_eq!(snapshot(&board), before);
        assert!(!board.is_game_over());
    }
    assert_eq!(board.get_tile(&at(3, 0)), None);
}

#[test]
fn axes_are_column_then_row() {
    let board = board_with(3, 2, &[(2, 0)]);
    assert_eq!(board.get_tile(&at(2, 0)), Some(Tile::ConcealedMine));
    assert_eq!(board.get_tile(&at(0, 2)), None);
    assert_eq!(board.get_tile(&at(1, 1)), Some(Tile::Concealed(1)));
    assert_eq!(board.get_tile(&at(0, 1)), Some(Tile::Concealed(0)));
}

#[test]
fn tile_uncover_transitions() {
    assert_eq!(Tile::Concealed(3).uncover(), Tile::Revealed(3));
    assert_eq!(Tile::ConcealedMine.uncover(), Tile::RevealedMine);
    assert_eq!(Tile::RevealedMine.uncover(), Tile::RevealedMine);
    assert_eq!(Tile::Revealed(0).uncover(), Tile::Revealed(0));
}
