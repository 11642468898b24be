mod board;
mod direction;
mod rail;

pub use board::lemma_col_count_monotone;
pub use board::lemma_compatibility_symmetry;
pub use board::lemma_extends_preserves_start;
pub use board::lemma_find_start_props;
pub use board::lemma_path_ok_implies_walk_exits;
pub use board::lemma_row_count_monotone;
pub use board::lemma_start_exists;
pub use board::lemma_sum_swap;
pub use board::lemma_walk_step;
pub use board::lemma_valid_hint_sums_equal;
pub use board::sum_hints;
pub use board::sum_hints_upto;
pub use board::Board;
pub use board::BoardModel;
pub use direction::spec_offset;
pub use direction::spec_opposite;
pub use direction::Direction;
pub use rail::spec_directions;
pub use rail::spec_glyph;
pub use rail::spec_other;
pub use rail::spec_points;
pub use rail::Rail;

use vstd::prelude::*;

verus! {

/// The six segment orientations in the fixed order the search tries them.
pub open spec fn rail_order(i: int) -> Rail {
    if i == 0 {
        Rail::NW
    } else if i == 1 {
        Rail::SW
    } else if i == 2 {
        Rail::NE
    } else if i == 3 {
        Rail::SE
    } else if i == 4 {
        Rail::WE
    } else {
        Rail::NS
    }
}

/// Where a segment stands in the search's enumeration order.
pub open spec fn rail_index(t: Rail) -> int {
    match t {
        Rail::NW => 0,
        Rail::SW => 1,
        Rail::NE => 2,
        Rail::SE => 3,
        Rail::WE => 4,
        Rail::NS => 5,
    }
}

/// A complete solution the search can reach from `m`: it keeps `m`'s placed
/// cells, meets every hint exactly, is a continuous path, its walk from
/// `m`'s own scan endpoint runs to a board exit and passes every cell it
/// adds to `m`, and all its connections are mutual. Every genuine solution
/// satisfies the last two conditions as well — the single continuous path
/// of a hint-exact board passes every placed cell, and consecutive path
/// cells connect mutually — so they narrow nothing, but that argument is
/// not formalized here and they are stated as part of the hypothesis.
pub open spec fn is_completion(m: BoardModel, s: BoardModel) -> bool {
    &&& s.wf()
    &&& m.same_frame(s)
    &&& m.extends_to(s)
    &&& s.is_valid_spec()
    &&& s.is_solved_spec()
    &&& s.has_continuous_path()
    &&& s.mutually_connected()
    &&& (match m.find_start_spec() {
        Some(st) => {
            let total = sum_hints(s.row_hints);
            &&& total >= 1
            &&& s.walk_exits(st.0.0, st.0.1, st.1, (total - 1) as nat)
            &&& (forall|x: int, y: int|
                s.in_bounds(x, y) && (#[trigger] s.cell(x, y)) is Some ==> m.cell(x, y) is Some
                    || s.walk_cell_set(st.0.0, st.0.1, st.1, (total - 1) as nat).contains((x, y)))
        },
        None => false,
    })
}

/// The completion `s` seen from the search's tip: the current board sits
/// on the way to `s`, and from the tip the walk through `s` covers every
/// cell `s` still adds and then exits the board.
pub open spec fn completion_at(
    cur: BoardModel,
    s: BoardModel,
    cx: int,
    cy: int,
    d: Direction,
    count: int,
    expected: int,
) -> bool {
    &&& s.wf()
    &&& cur.same_frame(s)
    &&& cur.extends_to(s)
    &&& s.is_valid_spec()
    &&& s.is_solved_spec()
    &&& s.has_continuous_path()
    &&& s.mutually_connected()
    &&& count <= expected
    &&& expected == sum_hints(s.row_hints)
    &&& s.walk_exits(cx, cy, d, (expected - count) as nat)
    &&& (forall|x: int, y: int|
        s.in_bounds(x, y) && (#[trigger] s.cell(x, y)) is Some ==> cur.cell(x, y) is Some
            || s.walk_cell_set(cx, cy, d, (expected - count) as nat).contains((x, y)))
}

/// The `i`-th segment orientation in the search's enumeration order.
fn rail_from_index(i: usize) -> (r: Rail)
    requires
        i < 6,
    ensures
        r == rail_order(i as int),
{
    match i {
        0 => Rail::NW,
        1 => Rail::SW,
        2 => Rail::NE,
        3 => Rail::SE,
        4 => Rail::WE,
        _ => Rail::NS,
    }
}

/// One step of the depth-first backtracking search. The path's tip stands at
/// `(cx, cy)` travelling in `dir`, with `count` cells placed so far out of
/// the `expected` total. The board is restored to its entry state on every
/// return path; a returned solution is a fresh board that extends the
/// initial fixed placement (held as the ghost `orig`), meets every hint
/// exactly, and forms a continuous path. When the ghost `witness` carries a
/// completion whose remaining walk starts at the tip, the search is bound
/// to succeed: it re-traces that walk unless an earlier branch already
/// found some solution.
fn solve_rec(
    board: &mut Board,
    count: usize,
    expected: usize,
    cx: usize,
    cy: usize,
    dir: Direction,
    orig: Ghost<BoardModel>,
    witness: Ghost<Option<BoardModel>>,
) -> (r: Option<Board>)
    requires
        old(board)@.wf(),
        orig@.wf(),
        orig@.has_start(),
        old(board)@.same_frame(orig@),
        orig@.extends_to(old(board)@),
        old(board)@.in_bounds(cx as int, cy as int),
        expected as int == sum_hints(old(board)@.row_hints),
        sum_hints(old(board)@.row_hints) <= 255,
        1 <= count,
        (match witness@ {
            Some(s) => completion_at(
                old(board)@,
                s,
                cx as int,
                cy as int,
                dir,
                count as int,
                expected as int,
            ),
            None => true,
        }),
    ensures
        final(board)@ == old(board)@,
        (match r {
            Some(b) => {
                &&& b@.wf()
                &&& b@.same_frame(orig@)
                &&& b@.is_valid_spec()
                &&& orig@.extends_to(b@)
                &&& b@.is_solved_spec()
                &&& b@.has_continuous_path()
                &&& b@.mutually_connected()
            },
            None => true,
        }),
        witness@ is Some ==> r is Some,
    decreases expected + 1 - count,
{
    let ghost hyp = witness@ is Some;
    if count > expected {
        return None;
    }
    if !board.adheres_hints_at((cx, cy)) {
        proof {
            if hyp {
                let s = witness@->Some_0;
                lemma_row_count_monotone(old(board)@, s, cy as int, old(board)@.width());
                lemma_col_count_monotone(old(board)@, s, cx as int, old(board)@.height());
                assert(s.count_row_spec(cy as int) == s.row_hints[cy as int] as int);
                assert(s.count_col_spec(cx as int) == s.col_hints[cx as int] as int);
                assert(old(board)@.adheres_at_spec(cx as int, cy as int));
            }
        }
        return None;
    }
    let off = dir.offset();
    let width = board.x();
    let height = board.y();
    if (cx == 0 && off.0 < 0) || (cy == 0 && off.1 < 0) || (cx == width - 1 && off.0 > 0) || (cy
        == height - 1 && off.1 > 0) {
        if count == expected && board.is_valid() {
            proof {
                lemma_extends_preserves_start(orig@, board@);
            }
            if board.is_solved() && board.path_check() && board.connections_mutual() {
                return Some(board.duplicate());
            }
        }
        proof {
            if hyp {
                let s = witness@->Some_0;
                assert(old(board)@.exits_board(cx as int, cy as int, dir));
                assert(s.exits_board(cx as int, cy as int, dir));
                assert((expected - count) as nat == 0);
                assert(count == expected);
                assert forall|x: int, y: int| s.in_bounds(x, y) implies old(board)@.cell(x, y)
                    == s.cell(x, y) by {
                    if s.cell(x, y) is Some {
                        assert(old(board)@.cell(x, y) is Some);
                    } else {
                        if old(board)@.cell(x, y) is Some {
                            assert(s.cell(x, y) == old(board)@.cell(x, y));
                        }
                    }
                }
                assert forall|j: int| 0 <= j < old(board)@.cells.len() implies old(board)@.cells[j]
                    =~= s.cells[j] by {
                    assert(old(board)@.cells[j].len() == old(board)@.width());
                    assert(s.cells[j].len() == s.width());
                    assert forall|x: int| 0 <= x < old(board)@.width() implies old(
                        board,
                    )@.cells[j][x] == s.cells[j][x] by {
                        assert(old(board)@.cell(x, j) == s.cell(x, j));
                    }
                }
                assert(old(board)@.cells =~= s.cells);
                assert(old(board)@ =~= s);
                assert(false);
            }
        }
        return None;
    }
    let nx = if off.0 < 0 {
        cx - 1
    } else if off.0 > 0 {
        cx + 1
    } else {
        cx
    };
    let ny = if off.1 < 0 {
        cy - 1
    } else if off.1 > 0 {
        cy + 1
    } else {
        cy
    };
    let ghost entry = board@;
    proof {
        if hyp {
            let s = witness@->Some_0;
            assert(!entry.exits_board(cx as int, cy as int, dir));
            assert(!s.exits_board(cx as int, cy as int, dir));
        }
    }
    let mut i: usize = 0;
    while i < 6
        invariant
            board@ == entry,
            entry == old(board)@,
            entry.wf(),
            orig@.wf(),
            orig@.has_start(),
            entry.same_frame(orig@),
            orig@.extends_to(entry),
            entry.in_bounds(nx as int, ny as int),
            expected as int == sum_hints(entry.row_hints),
            sum_hints(entry.row_hints) <= 255,
            1 <= count <= expected,
            i <= 6,
            hyp == (witness@ is Some),
            (match witness@ {
                Some(s) => completion_at(
                    entry,
                    s,
                    cx as int,
                    cy as int,
                    dir,
                    count as int,
                    expected as int,
                ),
                None => true,
            }),
            !entry.exits_board(cx as int, cy as int, dir) || !hyp,
            nx as int == cx + spec_offset(dir).0,
            ny as int == cy + spec_offset(dir).1,
            hyp ==> i as int <= rail_index((witness@->Some_0).cell(nx as int, ny as int)->Some_0),
        decreases 6 - i,
    {
        proof {
            if hyp {
                let s = witness@->Some_0;
                let rem = (expected - count) as nat;
                assert(!s.exits_board(cx as int, cy as int, dir));
                lemma_walk_step(s, cx as int, cy as int, dir, rem);
                let t = s.cell(nx as int, ny as int)->Some_0;
                assert(rail_order(rail_index(t)) == t);
                assert(0 <= rail_index(t) < 6);
                if entry.cell(nx as int, ny as int) is Some {
                    assert(s.cell(nx as int, ny as int) == entry.cell(nx as int, ny as int));
                } else {
                    assert forall|dd: Direction| #[trigger] entry.neighbor_points_in(
                        nx as int,
                        ny as int,
                        dd,
                    ) implies spec_points(t, dd) by {
                        let px = nx + spec_offset(dd).0;
                        let py = ny + spec_offset(dd).1;
                        assert(entry.cell(px, py) is Some);
                        assert(s.cell(px, py) == entry.cell(px, py));
                        assert(s.neighbor_points_in(nx as int, ny as int, dd));
                    }
                }
                assert(entry.can_place_spec(t, nx as int, ny as int));
            }
        }
        let rail = rail_from_index(i);
        if rail.points_to(dir) && board.can_place(rail, nx, ny) {
            let saved = board.cell_at(nx, ny);
            board.set_cell(nx, ny, Some(rail));
            proof {
                let upd = entry.update_cell(nx as int, ny as int, Some(rail));
                assert forall|x: int, y: int|
                    orig@.in_bounds(x, y) && (#[trigger] orig@.cell(x, y)) is Some implies upd.cell(
                    x,
                    y,
                ) == orig@.cell(x, y) by {
                    if x == nx as int && y == ny as int {
                        assert(entry.cell(x, y) == orig@.cell(x, y));
                    } else {
                        assert(upd.cell(x, y) == entry.cell(x, y));
                    }
                }
            }
            let nd = rail.points_other(dir.opposite());
            let ghost w2: Option<BoardModel> = if hyp && i as int == rail_index(
                (witness@->Some_0).cell(nx as int, ny as int)->Some_0,
            ) {
                witness@
            } else {
                None
            };
            proof {
                if w2 is Some {
                    let s = witness@->Some_0;
                    let rem = (expected - count) as nat;
                    lemma_walk_step(s, cx as int, cy as int, dir, rem);
                    let t = s.cell(nx as int, ny as int)->Some_0;
                    assert(rail == t);
                    assert forall|x: int, y: int|
                        board@.in_bounds(x, y) && (#[trigger] board@.cell(x, y)) is Some implies s.cell(
                        x,
                        y,
                    ) == board@.cell(x, y) by {
                        if x == nx as int && y == ny as int {
                        } else {
                            assert(board@.cell(x, y) == entry.cell(x, y));
                        }
                    }
                    assert forall|x: int, y: int|
                        s.in_bounds(x, y) && (#[trigger] s.cell(x, y)) is Some implies board@.cell(
                        x,
                        y,
                    ) is Some || s.walk_cell_set(
                        nx as int,
                        ny as int,
                        nd,
                        (expected - count - 1) as nat,
                    ).contains((x, y)) by {
                        if x == nx as int && y == ny as int {
                        } else {
                            assert(board@.cell(x, y) == entry.cell(x, y));
                        }
                    }
                    assert(completion_at(
                        board@,
                        s,
                        nx as int,
                        ny as int,
                        nd,
                        count as int + 1,
                        expected as int,
                    ));
                }
            }
            let res = solve_rec(board, count + 1, expected, nx, ny, nd, orig, Ghost(w2));
            board.set_cell(nx, ny, saved);
            proof {
                assert(board@.cells[ny as int] =~= entry.cells[ny as int]);
                assert(board@.cells =~= entry.cells);
                assert(board@ =~= entry);
            }
            if res.is_some() {
                return res;
            }
            proof {
                if hyp && i as int == rail_index(
                    (witness@->Some_0).cell(nx as int, ny as int)->Some_0,
                ) {
                    assert(w2 is Some);
                    assert(false);
                }
            }
        }
        i += 1;
    }
    proof {
        if hyp {
            let s = witness@->Some_0;
            lemma_walk_step(s, cx as int, cy as int, dir, (expected - count) as nat);
            assert(0 <= rail_index(s.cell(nx as int, ny as int)->Some_0) < 6);
            assert(false);
        }
    }
    None
}

/// Solves the puzzle by depth-first backtracking: grows a single continuous
/// path from the boundary endpoint the scan discovers, trying the six
/// orientations in a fixed order at each step, pruning any branch that
/// pushes a row or column count over its hint, and undoing placements on
/// backtrack. The caller's board is taken by value and never mutated in
/// place; a returned solution is a fresh board.
///
/// A solution returned is well formed, has the same dimensions and hints,
/// meets every row and column hint exactly, keeps every initially placed
/// segment unchanged, carries a continuous path of exactly
/// `sum(row_hints)` cells, and connects every adjacent pair of segments
/// mutually. A board whose counts already exceed some hint, or
/// whose row-hint total differs from its column-hint total, yields no
/// solution. Failure also rules out success: a `None` means no completion
/// of the board (in the sense of `is_completion`) exists at all, and in
/// particular a board that is already a complete, valid, continuous
/// solution is owed one.
pub fn solve(board: Board) -> (r: Option<Board>)
    requires
        board@.wf(),
        sum_hints(board@.row_hints) <= 255,
        board@.adheres_spec() ==> board@.has_start(),
    ensures
        (match r {
            Some(b) => {
                &&& b@.wf()
                &&& b@.same_frame(board@)
                &&& b@.is_valid_spec()
                &&& board@.extends_to(b@)
                &&& b@.is_solved_spec()
                &&& b@.has_continuous_path()
                &&& b@.mutually_connected()
            },
            None => true,
        }),
        !board@.adheres_spec() ==> r is None,
        sum_hints(board@.row_hints) != sum_hints(board@.col_hints) ==> r is None,
        r is None ==> !(exists|s: BoardModel| is_completion(board@, s)),
        (board@.is_valid_spec() && board@.is_solved_spec() && board@.has_continuous_path()
            && board@.mutually_connected()) ==> r is Some,
{
    proof {
        if board@.is_valid_spec() && board@.is_solved_spec() && board@.has_continuous_path()
            && board@.mutually_connected() {
            let st = board@.find_start_spec()->Some_0;
            let total = sum_hints(board@.row_hints);
            lemma_path_ok_implies_walk_exits(
                board@,
                st.0.0,
                st.0.1,
                st.1,
                set![(st.0.0, st.0.1)],
                (total - 1) as nat,
            );
            assert(is_completion(board@, board@));
        }
    }
    let ghost hyp = exists|s: BoardModel| is_completion(board@, s);
    let ghost w: Option<BoardModel> = if hyp {
        Some(choose|s: BoardModel| is_completion(board@, s))
    } else {
        None
    };
    proof {
        if hyp {
            let s = w->Some_0;
            assert(is_completion(board@, s));
            assert forall|k: int| 0 <= k < board@.height() implies #[trigger] board@.count_row_spec(
                k,
            ) <= board@.row_hints[k] as int by {
                lemma_row_count_monotone(board@, s, k, board@.width());
                assert(s.count_row_spec(k) == s.row_hints[k] as int);
            }
            assert forall|k: int| 0 <= k < board@.width() implies #[trigger] board@.count_col_spec(
                k,
            ) <= board@.col_hints[k] as int by {
                lemma_col_count_monotone(board@, s, k, board@.height());
                assert(s.count_col_spec(k) == s.col_hints[k] as int);
            }
            assert(board@.adheres_spec());
        }
    }
    let mut work = board;
    if !work.adheres_hints() {
        return None;
    }
    let start = work.find_start();
    let expected = work.rail_count();
    let ghost orig = work@;
    proof {
        if hyp {
            let s = w->Some_0;
            assert(completion_at(
                orig,
                s,
                start.0.0 as int,
                start.0.1 as int,
                start.1,
                1,
                expected as int,
            ));
        }
    }
    let r = solve_rec(
        &mut work,
        1,
        expected as usize,
        start.0.0,
        start.0.1,
        start.1,
        Ghost(orig),
        Ghost(w),
    );
    proof {
        if r is Some {
            lemma_valid_hint_sums_equal((r->Some_0)@);
        }
    }
    r
}

} // verus!
