use solver::{solve, Board, Direction, Rail};

fn board_2x2_full() -> Board {
    Board::new(
        vec![
            vec![Some(Rail::SE), Some(Rail::WE)],
            vec![Some(Rail::NE), Some(Rail::WE)],
        ],
        vec![2, 2],
        vec![2, 2],
    )
}

fn board_3x3_sparse() -> Board {
    Board::new(
        vec![
            vec![Some(Rail::WE), None, None],
            vec![None, None, None],
            vec![Some(Rail::WE), None, None],
        ],
        vec![2, 2, 3],
        vec![3, 1, 3],
    )
}

#[test]
fn can_place_accepts_only_the_fixed_rail() {
    let board = board_2x2_full();
    assert!(board.can_place(Rail::WE, 1, 1));
    assert!(!board.can_place(Rail::NW, 1, 1));
    assert!(!board.can_place(Rail::SW, 1, 1));
    assert!(!board.can_place(Rail::NE, 1, 1));
    assert!(!board.can_place(Rail::SE, 1, 1));
    assert!(!board.can_place(Rail::NS, 1, 1));
}

#[test]
fn can_place_rejects_out_of_range() {
    let board = board_2x2_full();
    assert!(!board.can_place(Rail::WE, 2, 0));
    assert!(!board.can_place(Rail::WE, 0, 2));
}

#[test]
fn can_place_demands_mutual_connection() {
    // WE at (0,0) points east into the empty cell (1,0): a candidate there
    // must point back west.
    let board = Board::new(
        vec![vec![Some(Rail::WE), None], vec![None, None]],
        vec![2, 2],
        vec![2, 2],
    );
    assert!(board.can_place(Rail::NW, 1, 0));
    assert!(board.can_place(Rail::SW, 1, 0));
    assert!(board.can_place(Rail::WE, 1, 0));
    assert!(!board.can_place(Rail::NE, 1, 0));
    assert!(!board.can_place(Rail::SE, 1, 0));
    assert!(!board.can_place(Rail::NS, 1, 0));
}

#[test]
fn can_place_without_pointing_neighbors_is_free() {
    // NS at (0,0) does not point east, so the empty cell (1,0) accepts any
    // orientation as far as that neighbor is concerned.
    let board = Board::new(
        vec![vec![Some(Rail::NS), None], vec![None, None]],
        vec![2, 2],
        vec![2, 2],
    );
    assert!(board.can_place(Rail::NE, 1, 0));
    assert!(board.can_place(Rail::NS, 1, 0));
}

#[test]
fn counts_and_hints() {
    let board = board_3x3_sparse();
    assert_eq!(board.x(), 3);
    assert_eq!(board.y(), 3);
    assert_eq!(board.count_row(0), 1);
    assert_eq!(board.count_row(1), 0);
    assert_eq!(board.count_row(2), 1);
    assert_eq!(board.count_col(0), 2);
    assert_eq!(board.count_col(1), 0);
    assert_eq!(board.count_col(2), 0);
    assert_eq!(board.rail_count(), 7);
}

#[test]
fn row_and_col_getters() {
    let board = board_2x2_full();
    assert_eq!(
        board.row(0),
        Some(vec![Some(Rail::SE), Some(Rail::WE)])
    );
    assert_eq!(
        board.row(1),
        Some(vec![Some(Rail::NE), Some(Rail::WE)])
    );
    assert_eq!(board.row(2), None);
    assert_eq!(
        board.col(0),
        Some(vec![Some(Rail::SE), Some(Rail::NE)])
    );
    assert_eq!(
        board.col(1),
        Some(vec![Some(Rail::WE), Some(Rail::WE)])
    );
    assert_eq!(board.col(2), None);
}

#[test]
fn adheres_and_validity() {
    let board = board_3x3_sparse();
    assert!(board.adheres_hints());
    assert!(board.adheres_hints_at((0, 0)));
    assert!(!board.is_valid());
    let full = board_2x2_full();
    assert!(full.adheres_hints());
    assert!(full.is_valid());
}

#[test]
fn adheres_hints_detects_excess() {
    // A placed cell in a row whose hint is zero breaks adherence.
    let board = Board::new(
        vec![vec![Some(Rail::WE), None]],
        vec![1, 0],
        vec![0],
    );
    assert!(!board.adheres_hints());
    assert!(!board.adheres_hints_at((0, 0)));
}

#[test]
fn find_start_picks_first_boundary_exit() {
    let board = board_3x3_sparse();
    // Column scan finds nothing (both fixed WE cells point west/east, and
    // neither column end points north or south); the row scan then finds
    // the WE cell at (0, 0) pointing west off the board, so the path
    // travels east from there.
    assert_eq!(board.find_start(), ((0, 0), Direction::East));
}

#[test]
fn find_start_on_full_board() {
    let board = board_2x2_full();
    // No top or bottom cell points outward; the row scan finds the WE at
    // (1, 0) pointing east off the board, so the path travels west.
    assert_eq!(board.find_start(), ((1, 0), Direction::West));
}

#[test]
fn points_outward_cases() {
    let board = board_3x3_sparse();
    assert!(board.points_outward((0, 0), Rail::WE));
    assert!(board.points_outward((0, 0), Rail::NS));
    assert!(!board.points_outward((0, 0), Rail::SE));
    assert!(board.points_outward((2, 1), Rail::WE));
    assert!(!board.points_outward((1, 1), Rail::WE));
    assert!(board.points_outward((1, 2), Rail::SW));
}

#[test]
fn solve_three_by_three() {
    let board = board_3x3_sparse();
    let solution = solve(board).expect("this puzzle has a solution");
    assert_eq!(
        solution.row(0),
        Some(vec![Some(Rail::WE), Some(Rail::WE), Some(Rail::SW)])
    );
    assert_eq!(solution.row(1), Some(vec![None, None, Some(Rail::NS)]));
    assert_eq!(
        solution.row(2),
        Some(vec![Some(Rail::WE), Some(Rail::WE), Some(Rail::NW)])
    );
    assert!(solution.is_valid());
    assert!(solution.is_solved());
}

#[test]
fn solve_meets_every_hint_exactly() {
    let board = board_3x3_sparse();
    let solution = solve(board).expect("this puzzle has a solution");
    let row_hints = [3u8, 1, 3];
    let col_hints = [2u8, 2, 3];
    for (r, hint) in row_hints.iter().enumerate() {
        assert_eq!(solution.count_row(r), *hint);
    }
    for (c, hint) in col_hints.iter().enumerate() {
        assert_eq!(solution.count_col(c), *hint);
    }
}

#[test]
fn solve_keeps_fixed_segments() {
    let board = board_3x3_sparse();
    let solution = solve(board).expect("this puzzle has a solution");
    let row0 = solution.row(0).unwrap();
    let row2 = solution.row(2).unwrap();
    assert_eq!(row0[0], Some(Rail::WE));
    assert_eq!(row2[0], Some(Rail::WE));
}

#[test]
fn solve_accepts_already_complete_board() {
    let board = board_2x2_full();
    let solution = solve(board).expect("the complete loop-free board solves itself");
    assert_eq!(
        solution.row(0),
        Some(vec![Some(Rail::SE), Some(Rail::WE)])
    );
    assert_eq!(
        solution.row(1),
        Some(vec![Some(Rail::NE), Some(Rail::WE)])
    );
    assert!(solution.is_solved());
}

#[test]
fn solve_rejects_mismatched_hint_sums() {
    // Row hints total 2 but column hints total 3: no placement can satisfy
    // both, so the search must fail.
    let board = Board::new(
        vec![vec![Some(Rail::WE), None]],
        vec![2, 1],
        vec![2],
    );
    assert!(solve(board).is_none());
}

#[test]
fn solve_rejects_board_already_over_hint() {
    let board = Board::new(
        vec![vec![Some(Rail::WE), None]],
        vec![1, 0],
        vec![0],
    );
    assert!(solve(board).is_none());
}

#[test]
fn solve_rejects_unreachable_path() {
    // The path must leave (0,0) eastward into column 1, whose hint is 0.
    let board = Board::new(
        vec![vec![Some(Rail::WE), None], vec![None, None]],
        vec![2, 0],
        vec![1, 1],
    );
    assert!(solve(board).is_none());
}

#[test]
fn solve_seven_by_nine() {
    let mut grid: Vec<Vec<Option<Rail>>> = vec![vec![None; 7]; 9];
    grid[0][4] = Some(Rail::NS);
    grid[0][6] = Some(Rail::SE);
    grid[2][6] = Some(Rail::NS);
    grid[6][2] = Some(Rail::NS);
    grid[8][2] = Some(Rail::WE);
    let col_hints = vec![2, 5, 5, 2, 5, 5, 7];
    let row_hints = vec![2, 2, 3, 7, 3, 3, 3, 3, 5];
    let board = Board::new(grid, col_hints.clone(), row_hints.clone());
    assert_eq!(board.rail_count(), 31);
    let solution = solve(board).expect("this puzzle has a solution");
    assert!(solution.is_valid());
    assert!(solution.is_solved());
    for (r, hint) in row_hints.iter().enumerate() {
        assert_eq!(solution.count_row(r), *hint);
    }
    for (c, hint) in col_hints.iter().enumerate() {
        assert_eq!(solution.count_col(c), *hint);
    }
    // The fixed segments survive.
    assert_eq!(solution.row(0).unwrap()[4], Some(Rail::NS));
    assert_eq!(solution.row(0).unwrap()[6], Some(Rail::SE));
    assert_eq!(solution.row(2).unwrap()[6], Some(Rail::NS));
    assert_eq!(solution.row(6).unwrap()[2], Some(Rail::NS));
    assert_eq!(solution.row(8).unwrap()[2], Some(Rail::WE));
}

fn assert_mutual_connections(board: &Board) {
    let width = board.x();
    let height = board.y();
    let grid: Vec<Vec<Option<Rail>>> = (0..height).map(|r| board.row(r).unwrap()).collect();
    for y in 0..height {
        for x in 0..width {
            let Some(a) = grid[y][x] else { continue };
            // A segment pointing toward a neighbor demands one that points back.
            if a.points_right() && x + 1 < width {
                let b = grid[y][x + 1].expect("segment points into an empty cell");
                assert!(b.points_left());
            }
            if a.points_left() && x > 0 {
                let b = grid[y][x - 1].expect("segment points into an empty cell");
                assert!(b.points_right());
            }
            if a.points_down() && y + 1 < height {
                let b = grid[y + 1][x].expect("segment points into an empty cell");
                assert!(b.points_up());
            }
            if a.points_up() && y > 0 {
                let b = grid[y - 1][x].expect("segment points into an empty cell");
                assert!(b.points_down());
            }
        }
    }
}

#[test]
fn solutions_connect_mutually() {
    let small = solve(board_3x3_sparse()).expect("this puzzle has a solution");
    assert_mutual_connections(&small);
    let full = solve(board_2x2_full()).expect("the complete loop-free board solves itself");
    assert_mutual_connections(&full);
}

#[test]
fn solve_single_cell_board() {
    let board = Board::new(vec![vec![Some(Rail::NS)]], vec![1], vec![1]);
    let solution = solve(board).expect("one fixed cell crossing the board is a solution");
    assert_eq!(solution.row(0), Some(vec![Some(Rail::NS)]));
    assert!(solution.is_valid());
    assert!(solution.is_solved());
}

#[test]
fn find_start_prefers_column_scan() {
    // Both (0,0) pointing west and (1,0) pointing north are path endpoints;
    // the column scan runs before the row scan, so the northern exit wins.
    let board = Board::new(
        vec![vec![Some(Rail::WE), Some(Rail::NS)], vec![None, None]],
        vec![1, 2],
        vec![2, 1],
    );
    assert_eq!(board.find_start(), ((1, 0), Direction::South));
}

#[test]
fn is_solved_false_on_incomplete_board() {
    let board = board_3x3_sparse();
    assert!(!board.is_solved());
}

#[test]
fn grid_mut_changes_counts() {
    let mut board = board_3x3_sparse();
    board.grid_mut()[1][1] = Some(Rail::NS);
    assert_eq!(board.count_row(1), 1);
    assert_eq!(board.count_col(1), 1);
    board.grid_mut()[1][1] = None;
    assert_eq!(board.count_row(1), 0);
}

#[test]
fn render_solved_board() {
    let board = board_3x3_sparse();
    let solution = solve(board).expect("this puzzle has a solution");
    let text: String = solution.render().into_iter().collect();
    assert_eq!(text, "--\u{2510}\n\u{b7}\u{b7}|\n--\u{2518}\n");
}

#[test]
fn render_empty_cells() {
    let board = Board::new(
        vec![vec![None, Some(Rail::SE)]],
        vec![0, 1],
        vec![1],
    );
    let text: String = board.render().into_iter().collect();
    assert_eq!(text, "\u{b7}\u{250c}\n");
}

#[test]
fn has_start_finds_boundary_exit() {
    assert!(board_3x3_sparse().has_start());
    assert!(board_2x2_full().has_start());
    // A closed loop of four corners points nowhere off the board, so the
    // scan finds no endpoint.
    let closed = Board::new(
        vec![vec![Some(Rail::SE), Some(Rail::SW)], vec![Some(Rail::NE), Some(Rail::NW)]],
        vec![2, 2],
        vec![2, 2],
    );
    assert!(!closed.has_start());
}

#[test]
fn hint_sum_fits_bounds_the_total() {
    assert!(board_3x3_sparse().hint_sum_fits());
    let oversized = Board::new(
        vec![vec![None; 2]; 2],
        vec![200, 200],
        vec![200, 200],
    );
    assert!(!oversized.hint_sum_fits());
}
