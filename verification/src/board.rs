use vstd::prelude::*;

use crate::direction::spec_offset;
use crate::direction::spec_opposite;
use crate::direction::Direction;
use crate::rail::spec_other;
use crate::rail::spec_points;
use crate::rail::Rail;

verus! {

/// The mathematical model of a board: a rectangular grid of optional track
/// segments together with the two hint vectors. The width of the grid is the
/// length of `col_hints` and its height the length of `row_hints`.
#[verifier::ext_equal]
pub ghost struct BoardModel {
    pub cells: Seq<Seq<Option<Rail>>>,
    pub col_hints: Seq<u8>,
    pub row_hints: Seq<u8>,
}

impl BoardModel {
    /// Number of columns.
    pub open spec fn width(self) -> int {
        self.col_hints.len() as int
    }

    /// Number of rows.
    pub open spec fn height(self) -> int {
        self.row_hints.len() as int
    }

    /// The model is a rectangle of the advertised dimensions. The bounds of
    /// 255 on each dimension let every count fit in the `u8` the hints use.
    pub open spec fn wf(self) -> bool {
        &&& 1 <= self.width() <= 255
        &&& 1 <= self.height() <= 255
        &&& self.cells.len() == self.height()
        &&& forall|r: int| 0 <= r < self.height() ==> #[trigger] self.cells[r].len() == self.width()
    }

    /// Whether `(x, y)` lies on the board.
    pub open spec fn in_bounds(self, x: int, y: int) -> bool {
        0 <= x < self.width() && 0 <= y < self.height()
    }

    /// The cell at column `x`, row `y`.
    pub open spec fn cell(self, x: int, y: int) -> Option<Rail> {
        self.cells[y][x]
    }

    /// The model with the cell at `(x, y)` replaced by `v`.
    pub open spec fn update_cell(self, x: int, y: int, v: Option<Rail>) -> BoardModel {
        BoardModel { cells: self.cells.update(y, self.cells[y].update(x, v)), ..self }
    }

    /// Whether `self` and `other` have the same dimensions and hints.
    pub open spec fn same_frame(self, other: BoardModel) -> bool {
        &&& self.col_hints == other.col_hints
        &&& self.row_hints == other.row_hints
    }

    /// Whether `other` keeps every placed cell of `self` unchanged: `other`
    /// may fill empty cells of `self` but never alters or clears a segment.
    pub open spec fn extends_to(self, other: BoardModel) -> bool {
        forall|x: int, y: int|
            self.in_bounds(x, y) && (#[trigger] self.cell(x, y)) is Some ==> other.cell(x, y)
                == self.cell(x, y)
    }

    /// Number of placed cells among the first `n` cells of row `r`.
    pub open spec fn row_count_upto(self, r: int, n: int) -> int
        decreases n,
    {
        if n <= 0 {
            0
        } else {
            self.row_count_upto(r, n - 1) + if self.cell(n - 1, r) is Some {
                1int
            } else {
                0int
            }
        }
    }

    /// Number of placed cells in row `r`.
    pub open spec fn count_row_spec(self, r: int) -> int {
        self.row_count_upto(r, self.width())
    }

    /// Number of placed cells among the first `n` cells of column `c`.
    pub open spec fn col_count_upto(self, c: int, n: int) -> int
        decreases n,
    {
        if n <= 0 {
            0
        } else {
            self.col_count_upto(c, n - 1) + if self.cell(c, n - 1) is Some {
                1int
            } else {
                0int
            }
        }
    }

    /// Number of placed cells in column `c`.
    pub open spec fn count_col_spec(self, c: int) -> int {
        self.col_count_upto(c, self.height())
    }

    /// Whether the row and the column through `(x, y)` are each at or below
    /// their hint.
    pub open spec fn adheres_at_spec(self, x: int, y: int) -> bool {
        &&& self.count_row_spec(y) <= self.row_hints[y] as int
        &&& self.count_col_spec(x) <= self.col_hints[x] as int
    }

    /// Whether every row and column count is at or below its hint.
    pub open spec fn adheres_spec(self) -> bool {
        &&& forall|r: int|
            0 <= r < self.height() ==> #[trigger] self.count_row_spec(r) <= self.row_hints[r] as int
        &&& forall|c: int|
            0 <= c < self.width() ==> #[trigger] self.count_col_spec(c) <= self.col_hints[c] as int
    }

    /// Whether every row and column count equals its hint exactly: the
    /// acceptance test for a complete solution.
    pub open spec fn is_valid_spec(self) -> bool {
        &&& forall|r: int|
            0 <= r < self.height() ==> #[trigger] self.count_row_spec(r) == self.row_hints[r] as int
        &&& forall|c: int|
            0 <= c < self.width() ==> #[trigger] self.count_col_spec(c) == self.col_hints[c] as int
    }

    /// Whether the neighbor of `(x, y)` one step in direction `d` exists,
    /// is placed, and points back toward `(x, y)`.
    pub open spec fn neighbor_points_in(self, x: int, y: int, d: Direction) -> bool {
        let nx = x + spec_offset(d).0;
        let ny = y + spec_offset(d).1;
        &&& self.in_bounds(nx, ny)
        &&& (self.cell(nx, ny) matches Some(u) && spec_points(u, spec_opposite(d)))
    }

    /// The compatibility predicate for placing `rail` at `(x, y)`: the cell
    /// must lie on the board; a cell already holding a fixed segment accepts
    /// only that same segment; an empty cell accepts `rail` unless some
    /// placed neighbor points into the cell and `rail` does not point back.
    pub open spec fn can_place_spec(self, rail: Rail, x: int, y: int) -> bool {
        &&& self.in_bounds(x, y)
        &&& (match self.cell(x, y) {
            Some(t) => t == rail,
            None => forall|d: Direction|
                #[trigger] self.neighbor_points_in(x, y, d) ==> spec_points(rail, d),
        })
    }

    /// Compatibility symmetry over the whole board: wherever a placed
    /// neighbor points into a placed cell, that cell's segment points back —
    /// every connection between adjacent segments is mutual.
    pub open spec fn mutually_connected(self) -> bool {
        forall|x: int, y: int, d: Direction|
            self.in_bounds(x, y) && self.cell(x, y) is Some && #[trigger] self.neighbor_points_in(
                x,
                y,
                d,
            ) ==> spec_points(self.cell(x, y)->Some_0, d)
    }

    /// Whether the boundary cell `(x, y)` holds a segment that points
    /// outward across the boundary in direction `b`.
    pub open spec fn is_start_at(self, x: int, y: int, b: Direction) -> bool {
        &&& self.in_bounds(x, y)
        &&& (self.cell(x, y) matches Some(t) && spec_points(t, b))
        &&& (match b {
            Direction::North => y == 0,
            Direction::South => y == self.height() - 1,
            Direction::West => x == 0,
            Direction::East => x == self.width() - 1,
        })
    }

    /// Whether `((x, y), d)` is a path endpoint: a boundary cell whose
    /// segment points outward across boundary direction `b`, with `d` the
    /// segment's other connected direction — the direction the path travels
    /// when it leaves that cell into the board.
    pub open spec fn start_matches(self, x: int, y: int, d: Direction, b: Direction) -> bool {
        &&& self.is_start_at(x, y, b)
        &&& (self.cell(x, y) matches Some(t) && d == spec_other(t, b))
    }

    /// Whether `((x, y), d)` is a path endpoint for some boundary direction.
    pub open spec fn endpoint_ok(self, x: int, y: int, d: Direction) -> bool {
        ||| self.start_matches(x, y, d, Direction::North)
        ||| self.start_matches(x, y, d, Direction::South)
        ||| self.start_matches(x, y, d, Direction::West)
        ||| self.start_matches(x, y, d, Direction::East)
    }

    /// The first path endpoint in the column scan (top cell then bottom
    /// cell of each column, left to right), starting at column `c`.
    pub open spec fn start_in_cols_from(self, c: int) -> Option<((int, int), Direction)>
        decreases self.width() - c,
    {
        if c < 0 || c >= self.width() {
            None
        } else if self.cell(c, 0) matches Some(t) && spec_points(t, Direction::North) {
            Some(((c, 0), spec_other(self.cell(c, 0)->Some_0, Direction::North)))
        } else if self.cell(c, self.height() - 1) matches Some(t) && spec_points(
            t,
            Direction::South,
        ) {
            Some(
                ((c, self.height() - 1), spec_other(
                    self.cell(c, self.height() - 1)->Some_0,
                    Direction::South,
                )),
            )
        } else {
            self.start_in_cols_from(c + 1)
        }
    }

    /// The first path endpoint in the row scan (left cell then right cell
    /// of each row, top to bottom), starting at row `r`.
    pub open spec fn start_in_rows_from(self, r: int) -> Option<((int, int), Direction)>
        decreases self.height() - r,
    {
        if r < 0 || r >= self.height() {
            None
        } else if self.cell(0, r) matches Some(t) && spec_points(t, Direction::West) {
            Some(((0, r), spec_other(self.cell(0, r)->Some_0, Direction::West)))
        } else if self.cell(self.width() - 1, r) matches Some(t) && spec_points(
            t,
            Direction::East,
        ) {
            Some(
                ((self.width() - 1, r), spec_other(
                    self.cell(self.width() - 1, r)->Some_0,
                    Direction::East,
                )),
            )
        } else {
            self.start_in_rows_from(r + 1)
        }
    }

    /// The path endpoint the boundary scan discovers: all columns (top and
    /// bottom cells) left to right, then all rows (left and right cells)
    /// top to bottom, in that fixed order.
    pub open spec fn find_start_spec(self) -> Option<((int, int), Direction)> {
        match self.start_in_cols_from(0) {
            Some(s) => Some(s),
            None => self.start_in_rows_from(0),
        }
    }

    /// Whether the boundary scan finds a path endpoint. A board without one
    /// is malformed: the search has nowhere to start.
    pub open spec fn has_start(self) -> bool {
        self.find_start_spec() is Some
    }

    /// Whether a step from `(x, y)` in direction `d` leaves the board.
    pub open spec fn exits_board(self, x: int, y: int, d: Direction) -> bool {
        ||| (x == 0 && spec_offset(d).0 < 0)
        ||| (y == 0 && spec_offset(d).1 < 0)
        ||| (x == self.width() - 1 && spec_offset(d).0 > 0)
        ||| (y == self.height() - 1 && spec_offset(d).1 > 0)
    }

    /// Whether the path can be followed for `remaining` further steps from
    /// `(x, y)` travelling in direction `d`: each step stays on the board,
    /// lands on a placed segment that points back toward where the path
    /// came from, and continues in that segment's other direction.
    pub open spec fn walk_ok(self, x: int, y: int, d: Direction, remaining: nat) -> bool
        decreases remaining,
    {
        if remaining == 0 {
            true
        } else if self.exits_board(x, y, d) {
            false
        } else {
            let nx = x + spec_offset(d).0;
            let ny = y + spec_offset(d).1;
            match self.cell(nx, ny) {
                Some(t) => spec_points(t, spec_opposite(d)) && self.walk_ok(
                    nx,
                    ny,
                    spec_other(t, spec_opposite(d)),
                    (remaining - 1) as nat,
                ),
                None => false,
            }
        }
    }

    /// Whether following the path from the scan's endpoint, one placed cell
    /// at a time, reaches the expected total of `sum(row_hints)` cells
    /// without leaving the board or hitting an empty or mismatched cell.
    pub open spec fn is_solved_spec(self) -> bool {
        match self.find_start_spec() {
            Some(s) => {
                let total = sum_hints(self.row_hints);
                if total >= 1 {
                    self.walk_ok(s.0.0, s.0.1, s.1, (total - 1) as nat)
                } else {
                    true
                }
            },
            None => true,
        }
    }

    /// Whether the path can be followed for `remaining` further steps from
    /// `(x, y)` travelling in direction `d` without ever re-entering a cell
    /// in `seen`, and then exits the board: each step stays on the board,
    /// lands on a placed, not yet visited segment that points back toward
    /// where the path came from, and continues in that segment's other
    /// direction; after the last step the next move leaves the board.
    pub open spec fn path_ok(
        self,
        x: int,
        y: int,
        d: Direction,
        seen: Set<(int, int)>,
        remaining: nat,
    ) -> bool
        decreases remaining,
    {
        if remaining == 0 {
            self.exits_board(x, y, d)
        } else if self.exits_board(x, y, d) {
            false
        } else {
            let nx = x + spec_offset(d).0;
            let ny = y + spec_offset(d).1;
            match self.cell(nx, ny) {
                Some(t) => spec_points(t, spec_opposite(d)) && !seen.contains((nx, ny))
                    && self.path_ok(
                    nx,
                    ny,
                    spec_other(t, spec_opposite(d)),
                    seen.insert((nx, ny)),
                    (remaining - 1) as nat,
                ),
                None => false,
            }
        }
    }

    /// Like `path_ok` but without the no-revisit condition: the path can be
    /// followed for `remaining` further steps over placed, pointing-back
    /// cells, and then exits the board.
    pub open spec fn walk_exits(self, x: int, y: int, d: Direction, remaining: nat) -> bool
        decreases remaining,
    {
        if remaining == 0 {
            self.exits_board(x, y, d)
        } else if self.exits_board(x, y, d) {
            false
        } else {
            let nx = x + spec_offset(d).0;
            let ny = y + spec_offset(d).1;
            match self.cell(nx, ny) {
                Some(t) => spec_points(t, spec_opposite(d)) && self.walk_exits(
                    nx,
                    ny,
                    spec_other(t, spec_opposite(d)),
                    (remaining - 1) as nat,
                ),
                None => false,
            }
        }
    }

    /// The set of cells a walk of `remaining` further steps from `(x, y)`
    /// travelling in `d` passes through (the starting cell excluded).
    pub open spec fn walk_cell_set(self, x: int, y: int, d: Direction, remaining: nat) -> Set<
        (int, int),
    >
        decreases remaining,
    {
        if remaining == 0 {
            Set::empty()
        } else if self.exits_board(x, y, d) {
            Set::empty()
        } else {
            let nx = x + spec_offset(d).0;
            let ny = y + spec_offset(d).1;
            match self.cell(nx, ny) {
                Some(t) => self.walk_cell_set(
                    nx,
                    ny,
                    spec_other(t, spec_opposite(d)),
                    (remaining - 1) as nat,
                ).insert((nx, ny)),
                None => Set::empty(),
            }
        }
    }

    /// Path continuity: starting from the scan's endpoint, the path steps
    /// through exactly `sum(row_hints)` placed cells — no revisits, no
    /// gaps — and then exits the board.
    pub open spec fn has_continuous_path(self) -> bool {
        match self.find_start_spec() {
            Some(s) => {
                let total = sum_hints(self.row_hints);
                &&& total >= 1
                &&& self.path_ok(s.0.0, s.0.1, s.1, set![(s.0.0, s.0.1)], (total - 1) as nat)
            },
            None => false,
        }
    }

    /// The glyphs of the first `n` cells of row `r`.
    pub open spec fn render_row_spec(self, r: int, n: int) -> Seq<char>
        decreases n,
    {
        if n <= 0 {
            Seq::empty()
        } else {
            self.render_row_spec(r, n - 1).push(crate::rail::spec_glyph(self.cell(n - 1, r)))
        }
    }

    /// The rendering of the first `k` rows: one line of `width` glyphs per
    /// row, each line ended by a newline.
    pub open spec fn render_upto(self, k: int) -> Seq<char>
        decreases k,
    {
        if k <= 0 {
            Seq::empty()
        } else {
            self.render_upto(k - 1) + self.render_row_spec(k - 1, self.width()).push('\n')
        }
    }

    /// The full rendering of the board: `height` lines of `width` glyphs.
    pub open spec fn render_spec(self) -> Seq<char> {
        self.render_upto(self.height())
    }

    /// Sum of the row counts of the first `k` rows, each row counted over
    /// its first `w_lim` cells.
    pub open spec fn sum_row_counts_upto(self, w_lim: int, k: int) -> int
        decreases k,
    {
        if k <= 0 {
            0
        } else {
            self.sum_row_counts_upto(w_lim, k - 1) + self.row_count_upto(k - 1, w_lim)
        }
    }

    /// Sum of the column counts of the first `n` columns, each column
    /// counted over its first `h_lim` cells.
    pub open spec fn sum_col_counts_upto(self, n: int, h_lim: int) -> int
        decreases n,
    {
        if n <= 0 {
            0
        } else {
            self.sum_col_counts_upto(n - 1, h_lim) + self.col_count_upto(n - 1, h_lim)
        }
    }
}

/// Sum of the first `n` entries of a hint vector.
pub open spec fn sum_hints_upto(s: Seq<u8>, n: int) -> int
    decreases n,
{
    if n <= 0 {
        0
    } else {
        sum_hints_upto(s, n - 1) + s[n - 1] as int
    }
}

/// Sum of all entries of a hint vector.
pub open spec fn sum_hints(s: Seq<u8>) -> int {
    sum_hints_upto(s, s.len() as int)
}

/// A partial row count lies between 0 and the number of cells counted.
proof fn lemma_row_count_upto_bounds(m: BoardModel, r: int, n: int)
    requires
        0 <= n,
    ensures
        0 <= m.row_count_upto(r, n) <= n,
    decreases n,
{
    if n > 0 {
        lemma_row_count_upto_bounds(m, r, n - 1);
    }
}

/// A partial column count lies between 0 and the number of cells counted.
proof fn lemma_col_count_upto_bounds(m: BoardModel, c: int, n: int)
    requires
        0 <= n,
    ensures
        0 <= m.col_count_upto(c, n) <= n,
    decreases n,
{
    if n > 0 {
        lemma_col_count_upto_bounds(m, c, n - 1);
    }
}

/// A board has at most as many placed cells in any row prefix as a board it
/// extends to.
pub proof fn lemma_row_count_monotone(m1: BoardModel, m2: BoardModel, r: int, n: int)
    requires
        m1.same_frame(m2),
        m1.extends_to(m2),
        0 <= r < m1.height(),
        n <= m1.width(),
    ensures
        m1.row_count_upto(r, n) <= m2.row_count_upto(r, n),
    decreases n,
{
    if n > 0 {
        lemma_row_count_monotone(m1, m2, r, n - 1);
        if m1.cell(n - 1, r) is Some {
            assert(m2.cell(n - 1, r) == m1.cell(n - 1, r));
        }
    }
}

/// A board has at most as many placed cells in any column prefix as a board
/// it extends to.
pub proof fn lemma_col_count_monotone(m1: BoardModel, m2: BoardModel, c: int, n: int)
    requires
        m1.same_frame(m2),
        m1.extends_to(m2),
        0 <= c < m1.width(),
        n <= m1.height(),
    ensures
        m1.col_count_upto(c, n) <= m2.col_count_upto(c, n),
    decreases n,
{
    if n > 0 {
        lemma_col_count_monotone(m1, m2, c, n - 1);
        if m1.cell(c, n - 1) is Some {
            assert(m2.cell(c, n - 1) == m1.cell(c, n - 1));
        }
    }
}

/// One step of a walk that still exits: the next cell is placed, points
/// back, the rest of the walk goes through, and the cells the walk passes
/// are the next cell plus the cells of the rest.
pub proof fn lemma_walk_step(s: BoardModel, cx: int, cy: int, d: Direction, rem: nat)
    requires
        s.walk_exits(cx, cy, d, rem),
        !s.exits_board(cx, cy, d),
    ensures
        rem > 0,
        s.cell(cx + spec_offset(d).0, cy + spec_offset(d).1) is Some,
        spec_points(
            s.cell(cx + spec_offset(d).0, cy + spec_offset(d).1)->Some_0,
            spec_opposite(d),
        ),
        s.walk_exits(
            cx + spec_offset(d).0,
            cy + spec_offset(d).1,
            spec_other(
                s.cell(cx + spec_offset(d).0, cy + spec_offset(d).1)->Some_0,
                spec_opposite(d),
            ),
            (rem - 1) as nat,
        ),
        s.walk_cell_set(cx, cy, d, rem) == s.walk_cell_set(
            cx + spec_offset(d).0,
            cy + spec_offset(d).1,
            spec_other(
                s.cell(cx + spec_offset(d).0, cy + spec_offset(d).1)->Some_0,
                spec_opposite(d),
            ),
            (rem - 1) as nat,
        ).insert((cx + spec_offset(d).0, cy + spec_offset(d).1)),
{
}

/// Partial sums of a hint vector are non-negative and monotone.
proof fn lemma_sum_hints_upto_mono(s: Seq<u8>, i: int, j: int)
    requires
        0 <= i <= j,
    ensures
        0 <= sum_hints_upto(s, i) <= sum_hints_upto(s, j),
    decreases j,
{
    if j > 0 {
        if i == j {
            lemma_sum_hints_upto_mono(s, 0, i - 1);
        } else {
            lemma_sum_hints_upto_mono(s, i, j - 1);
        }
    }
}

/// Widening every row count by one column adds exactly that column's count.
proof fn lemma_strip_last_column(m: BoardModel, n: int, k: int)
    requires
        n >= 1,
        k >= 0,
    ensures
        m.sum_row_counts_upto(n, k) == m.sum_row_counts_upto(n - 1, k) + m.col_count_upto(n - 1, k),
    decreases k,
{
    if k > 0 {
        lemma_strip_last_column(m, n, k - 1);
    }
}

/// Rows counted over no columns sum to zero.
proof fn lemma_sum_row_counts_zero_width(m: BoardModel, k: int)
    requires
        k >= 0,
    ensures
        m.sum_row_counts_upto(0, k) == 0,
    decreases k,
{
    if k > 0 {
        lemma_sum_row_counts_zero_width(m, k - 1);
    }
}

/// Counting a rectangle row by row or column by column gives the same total.
pub proof fn lemma_sum_swap(m: BoardModel, n: int, k: int)
    requires
        n >= 0,
        k >= 0,
    ensures
        m.sum_row_counts_upto(n, k) == m.sum_col_counts_upto(n, k),
    decreases n,
{
    if n == 0 {
        lemma_sum_row_counts_zero_width(m, k);
    } else {
        lemma_sum_swap(m, n - 1, k);
        lemma_strip_last_column(m, n, k);
    }
}

/// In a board whose rows all meet their hint exactly, the first `k` rows
/// together hold exactly the sum of the first `k` row hints.
proof fn lemma_valid_rows_sum(m: BoardModel, k: int)
    requires
        0 <= k <= m.height(),
        forall|r: int|
            0 <= r < m.height() ==> #[trigger] m.count_row_spec(r) == m.row_hints[r] as int,
    ensures
        m.sum_row_counts_upto(m.width(), k) == sum_hints_upto(m.row_hints, k),
    decreases k,
{
    if k > 0 {
        lemma_valid_rows_sum(m, k - 1);
        assert(m.count_row_spec(k - 1) == m.row_hints[k - 1] as int);
    }
}

/// In a board whose columns all meet their hint exactly, the first `n`
/// columns together hold exactly the sum of the first `n` column hints.
proof fn lemma_valid_cols_sum(m: BoardModel, n: int)
    requires
        0 <= n <= m.width(),
        forall|c: int|
            0 <= c < m.width() ==> #[trigger] m.count_col_spec(c) == m.col_hints[c] as int,
    ensures
        m.sum_col_counts_upto(n, m.height()) == sum_hints_upto(m.col_hints, n),
    decreases n,
{
    if n > 0 {
        lemma_valid_cols_sum(m, n - 1);
        assert(m.count_col_spec(n - 1) == m.col_hints[n - 1] as int);
    }
}

/// A board whose rows and columns all meet their hints exactly can only
/// exist when the row hints and the column hints have the same total: both
/// equal the number of placed cells.
pub proof fn lemma_valid_hint_sums_equal(m: BoardModel)
    requires
        m.wf(),
        m.is_valid_spec(),
    ensures
        sum_hints(m.row_hints) == sum_hints(m.col_hints),
{
    lemma_valid_rows_sum(m, m.height());
    lemma_valid_cols_sum(m, m.width());
    lemma_sum_swap(m, m.width(), m.height());
}

/// Every endpoint the column scan returns is a genuine path endpoint.
proof fn lemma_cols_scan_props(m: BoardModel, c: int)
    requires
        m.wf(),
    ensures
        match m.start_in_cols_from(c) {
            Some(s) => m.endpoint_ok(s.0.0, s.0.1, s.1),
            None => true,
        },
    decreases m.width() - c,
{
    if c < 0 || c >= m.width() {
    } else if m.cell(c, 0) matches Some(t) && spec_points(t, Direction::North) {
        let d = spec_other(m.cell(c, 0)->Some_0, Direction::North);
        assert(m.start_matches(c, 0, d, Direction::North));
    } else if m.cell(c, m.height() - 1) matches Some(t) && spec_points(t, Direction::South) {
        let yy = m.height() - 1;
        let d = spec_other(m.cell(c, yy)->Some_0, Direction::South);
        assert(m.start_matches(c, yy, d, Direction::South));
    } else {
        lemma_cols_scan_props(m, c + 1);
    }
}

/// Every endpoint the row scan returns is a genuine path endpoint.
proof fn lemma_rows_scan_props(m: BoardModel, r: int)
    requires
        m.wf(),
    ensures
        match m.start_in_rows_from(r) {
            Some(s) => m.endpoint_ok(s.0.0, s.0.1, s.1),
            None => true,
        },
    decreases m.height() - r,
{
    if r < 0 || r >= m.height() {
    } else if m.cell(0, r) matches Some(t) && spec_points(t, Direction::West) {
        let d = spec_other(m.cell(0, r)->Some_0, Direction::West);
        assert(m.start_matches(0, r, d, Direction::West));
    } else if m.cell(m.width() - 1, r) matches Some(t) && spec_points(t, Direction::East) {
        let xx = m.width() - 1;
        let d = spec_other(m.cell(xx, r)->Some_0, Direction::East);
        assert(m.start_matches(xx, r, d, Direction::East));
    } else {
        lemma_rows_scan_props(m, r + 1);
    }
}

/// The endpoint the boundary scan discovers is a genuine path endpoint: it
/// lies on the board, holds a segment pointing outward across its boundary,
/// and its direction is that segment's other connected direction.
pub proof fn lemma_find_start_props(m: BoardModel)
    requires
        m.wf(),
        m.has_start(),
    ensures
        match m.find_start_spec() {
            Some(s) => m.endpoint_ok(s.0.0, s.0.1, s.1),
            None => false,
        },
{
    lemma_cols_scan_props(m, 0);
    lemma_rows_scan_props(m, 0);
}

/// If the top or bottom cell of some column at or after `c` is a start,
/// the column scan from `c` finds an endpoint.
proof fn lemma_cols_scan_finds(m: BoardModel, c: int, x: int, y: int, b: Direction)
    requires
        m.wf(),
        0 <= c <= x,
        m.is_start_at(x, y, b),
        b == Direction::North || b == Direction::South,
    ensures
        m.start_in_cols_from(c) is Some,
    decreases x - c,
{
    if c < x {
        if m.start_in_cols_from(c) is None {
            lemma_cols_scan_finds(m, c + 1, x, y, b);
        }
    }
}

/// If the left or right cell of some row at or after `r` is a start, the
/// row scan from `r` finds an endpoint.
proof fn lemma_rows_scan_finds(m: BoardModel, r: int, x: int, y: int, b: Direction)
    requires
        m.wf(),
        0 <= r <= y,
        m.is_start_at(x, y, b),
        b == Direction::West || b == Direction::East,
    ensures
        m.start_in_rows_from(r) is Some,
    decreases y - r,
{
    if r < y {
        if m.start_in_rows_from(r) is None {
            lemma_rows_scan_finds(m, r + 1, x, y, b);
        }
    }
}

/// A board with any boundary cell whose segment points outward has a path
/// endpoint for the scan to find.
pub proof fn lemma_start_exists(m: BoardModel, x: int, y: int, b: Direction)
    requires
        m.wf(),
        m.is_start_at(x, y, b),
    ensures
        m.has_start(),
{
    match b {
        Direction::North => lemma_cols_scan_finds(m, 0, x, y, b),
        Direction::South => lemma_cols_scan_finds(m, 0, x, y, b),
        Direction::West => {
            if m.start_in_cols_from(0) is None {
                lemma_rows_scan_finds(m, 0, x, y, b);
            }
        },
        Direction::East => {
            if m.start_in_cols_from(0) is None {
                lemma_rows_scan_finds(m, 0, x, y, b);
            }
        },
    }
}

/// Filling empty cells of a board never loses its path endpoint.
pub proof fn lemma_extends_preserves_start(m1: BoardModel, m2: BoardModel)
    requires
        m1.wf(),
        m2.wf(),
        m1.same_frame(m2),
        m1.extends_to(m2),
        m1.has_start(),
    ensures
        m2.has_start(),
{
    lemma_find_start_props(m1);
    let s = m1.find_start_spec()->Some_0;
    if m1.start_matches(s.0.0, s.0.1, s.1, Direction::North) {
        lemma_start_exists(m2, s.0.0, s.0.1, Direction::North);
    } else if m1.start_matches(s.0.0, s.0.1, s.1, Direction::South) {
        lemma_start_exists(m2, s.0.0, s.0.1, Direction::South);
    } else if m1.start_matches(s.0.0, s.0.1, s.1, Direction::West) {
        lemma_start_exists(m2, s.0.0, s.0.1, Direction::West);
    } else {
        lemma_start_exists(m2, s.0.0, s.0.1, Direction::East);
    }
}

/// A walk that avoids revisits is in particular a walk: dropping the
/// no-revisit condition cannot make it fail.
pub proof fn lemma_path_ok_implies_walk_exits(
    m: BoardModel,
    x: int,
    y: int,
    d: Direction,
    seen: Set<(int, int)>,
    remaining: nat,
)
    requires
        m.path_ok(x, y, d, seen, remaining),
    ensures
        m.walk_exits(x, y, d, remaining),
    decreases remaining,
{
    if remaining > 0 && !m.exits_board(x, y, d) {
        let nx = x + spec_offset(d).0;
        let ny = y + spec_offset(d).1;
        let t = m.cell(nx, ny)->Some_0;
        lemma_path_ok_implies_walk_exits(
            m,
            nx,
            ny,
            spec_other(t, spec_opposite(d)),
            seen.insert((nx, ny)),
            (remaining - 1) as nat,
        );
    }
}

/// Compatibility symmetry: whenever a placed neighbor points into an empty
/// cell, any candidate segment the compatibility predicate accepts there
/// points back toward that neighbor — connections are mutual.
pub proof fn lemma_compatibility_symmetry(
    m: BoardModel,
    rail: Rail,
    x: int,
    y: int,
    d: Direction,
)
    requires
        m.can_place_spec(rail, x, y),
        m.cell(x, y) is None,
        m.neighbor_points_in(x, y, d),
    ensures
        spec_points(rail, d),
{
}

/// A rectangular puzzle board: a grid of optional track segments, one count
/// hint per column and one per row.
#[derive(Debug, Clone)]
pub struct Board {
    inner: Vec<Vec<Option<Rail>>>,
    col_hints: Vec<u8>,
    row_hints: Vec<u8>,
}

impl View for Board {
    type V = BoardModel;

    closed spec fn view(&self) -> BoardModel {
        BoardModel {
            cells: self.inner@.map_values(|row: Vec<Option<Rail>>| row@),
            col_hints: self.col_hints@,
            row_hints: self.row_hints@,
        }
    }
}

impl Board {
    /// Constructs a board from a caller-supplied initial placement and the
    /// two hint vectors. No validation of the hints is performed: hint
    /// totals that no placement can reach merely make the search fail later.
    pub fn new(
        grid: Vec<Vec<Option<Rail>>>,
        col_hints: Vec<u8>,
        row_hints: Vec<u8>,
    ) -> (r: Board)
        requires
            1 <= col_hints@.len() <= 255,
            1 <= row_hints@.len() <= 255,
            grid@.len() == row_hints@.len(),
            forall|j: int| 0 <= j < grid@.len() ==> (#[trigger] grid@[j])@.len() == col_hints@.len(),
        ensures
            r@.wf(),
            r@.col_hints == col_hints@,
            r@.row_hints == row_hints@,
            forall|x: int, y: int| r@.in_bounds(x, y) ==> #[trigger] r@.cell(x, y) == grid@[y]@[x],
    {
        let r = Board { inner: grid, col_hints, row_hints };
        proof {
            assert(forall|j: int|
                0 <= j < r@.cells.len() ==> #[trigger] r@.cells[j] == r.inner@[j]@);
        }
        r
    }

    /// The width of the board (number of columns).
    pub fn x(&self) -> (r: usize)
        ensures
            r as int == self@.width(),
    {
        self.col_hints.len()
    }

    /// The height of the board (number of rows).
    pub fn y(&self) -> (r: usize)
        ensures
            r as int == self@.height(),
    {
        self.row_hints.len()
    }

    /// The cell at column `x`, row `y`.
    pub(crate) fn cell_at(&self, x: usize, y: usize) -> (r: Option<Rail>)
        requires
            self@.wf(),
            self@.in_bounds(x as int, y as int),
        ensures
            r == self@.cell(x as int, y as int),
    {
        self.inner[y][x]
    }

    /// Replaces the cell at column `x`, row `y`.
    pub(crate) fn set_cell(&mut self, x: usize, y: usize, v: Option<Rail>)
        requires
            old(self)@.wf(),
            old(self)@.in_bounds(x as int, y as int),
        ensures
            final(self)@ == old(self)@.update_cell(x as int, y as int, v),
            final(self)@.wf(),
    {
        let ghost pre = self@;
        proof {
            assert(pre.cells[y as int] == self.inner@[y as int]@);
        }
        let row = &mut self.inner[y];
        row.set(x, v);
        proof {
            assert(final(self)@.cells =~= pre.update_cell(x as int, y as int, v).cells);
            assert(final(self)@ =~= pre.update_cell(x as int, y as int, v));
        }
    }

    /// A fresh board with the same grid and hints.
    pub(crate) fn duplicate(&self) -> (r: Board)
        requires
            self@.wf(),
        ensures
            r@ == self@,
    {
        let mut inner: Vec<Vec<Option<Rail>>> = Vec::new();
        let mut r: usize = 0;
        while r < self.inner.len()
            invariant
                r <= self.inner@.len(),
                inner@.len() == r,
                forall|j: int| 0 <= j < r ==> (#[trigger] inner@[j])@ == self.inner@[j]@,
            decreases self.inner@.len() - r,
        {
            let src_row = &self.inner[r];
            let mut row: Vec<Option<Rail>> = Vec::new();
            let mut c: usize = 0;
            while c < src_row.len()
                invariant
                    c <= src_row@.len(),
                    row@ == src_row@.take(c as int),
                decreases src_row@.len() - c,
            {
                row.push(src_row[c]);
                proof {
                    assert(row@ =~= src_row@.take(c as int + 1));
                }
                c += 1;
            }
            proof {
                assert(row@ =~= src_row@);
            }
            inner.push(row);
            r += 1;
        }
        let out = Board {
            inner,
            col_hints: copy_u8_vec(&self.col_hints),
            row_hints: copy_u8_vec(&self.row_hints),
        };
        proof {
            assert(out@.cells =~~= self@.cells);
            assert(out@ =~~= self@);
        }
        out
    }

    /// The number of placed cells in row `idx`.
    pub fn count_row(&self, idx: usize) -> (r: u8)
        requires
            self@.wf(),
            (idx as int) < self@.height(),
        ensures
            r as int == self@.count_row_spec(idx as int),
    {
        let width = self.col_hints.len();
        let mut count: u8 = 0;
        let mut c: usize = 0;
        while c < width
            invariant
                self@.wf(),
                (idx as int) < self@.height(),
                width as int == self@.width(),
                c <= width,
                count as int == self@.row_count_upto(idx as int, c as int),
                count as int <= c as int,
            decreases width - c,
        {
            proof {
                assert(self@.cells[idx as int] == self.inner@[idx as int]@);
            }
            if self.inner[idx][c].is_some() {
                count = count + 1;
            }
            proof {
                lemma_row_count_upto_bounds(self@, idx as int, c as int + 1);
            }
            c += 1;
        }
        count
    }

    /// The number of placed cells in column `idx`.
    pub fn count_col(&self, idx: usize) -> (r: u8)
        requires
            self@.wf(),
            (idx as int) < self@.width(),
        ensures
            r as int == self@.count_col_spec(idx as int),
    {
        let height = self.row_hints.len();
        let mut count: u8 = 0;
        let mut j: usize = 0;
        while j < height
            invariant
                self@.wf(),
                (idx as int) < self@.width(),
                height as int == self@.height(),
                j <= height,
                count as int == self@.col_count_upto(idx as int, j as int),
                count as int <= j as int,
            decreases height - j,
        {
            proof {
                assert(self@.cells[j as int] == self.inner@[j as int]@);
            }
            if self.inner[j][idx].is_some() {
                count = count + 1;
            }
            proof {
                lemma_col_count_upto_bounds(self@, idx as int, j as int + 1);
            }
            j += 1;
        }
        count
    }

    /// Whether the row and the column through `point` (given as `(x, y)`)
    /// are each at or below their hint: the localized prune the search runs
    /// on every step.
    pub fn adheres_hints_at(&self, point: (usize, usize)) -> (r: bool)
        requires
            self@.wf(),
            self@.in_bounds(point.0 as int, point.1 as int),
        ensures
            r == self@.adheres_at_spec(point.0 as int, point.1 as int),
    {
        self.count_row(point.1) <= self.row_hints[point.1] && self.count_col(point.0)
            <= self.col_hints[point.0]
    }

    /// Whether every row and column count is at or below its hint: the
    /// global prune run once before the search descends.
    pub fn adheres_hints(&self) -> (r: bool)
        requires
            self@.wf(),
        ensures
            r == self@.adheres_spec(),
    {
        let height = self.row_hints.len();
        let mut j: usize = 0;
        while j < height
            invariant
                self@.wf(),
                height as int == self@.height(),
                j <= height,
                forall|k: int|
                    0 <= k < j ==> #[trigger] self@.count_row_spec(k) <= self@.row_hints[k] as int,
            decreases height - j,
        {
            if self.count_row(j) > self.row_hints[j] {
                return false;
            }
            j += 1;
        }
        let width = self.col_hints.len();
        let mut c: usize = 0;
        while c < width
            invariant
                self@.wf(),
                width as int == self@.width(),
                c <= width,
                forall|k: int|
                    0 <= k < self@.height() ==> #[trigger] self@.count_row_spec(k) <= self@.row_hints[k] as int,
                forall|k: int|
                    0 <= k < c ==> #[trigger] self@.count_col_spec(k) <= self@.col_hints[k] as int,
            decreases width - c,
        {
            if self.count_col(c) > self.col_hints[c] {
                return false;
            }
            c += 1;
        }
        true
    }

    /// Whether every row and column count equals its hint exactly: the
    /// acceptance test for a complete solution.
    pub fn is_valid(&self) -> (r: bool)
        requires
            self@.wf(),
        ensures
            r == self@.is_valid_spec(),
    {
        let height = self.row_hints.len();
        let mut j: usize = 0;
        while j < height
            invariant
                self@.wf(),
                height as int == self@.height(),
                j <= height,
                forall|k: int|
                    0 <= k < j ==> #[trigger] self@.count_row_spec(k) == self@.row_hints[k] as int,
            decreases height - j,
        {
            if self.count_row(j) != self.row_hints[j] {
                return false;
            }
            j += 1;
        }
        let width = self.col_hints.len();
        let mut c: usize = 0;
        while c < width
            invariant
                self@.wf(),
                width as int == self@.width(),
                c <= width,
                forall|k: int|
                    0 <= k < self@.height() ==> #[trigger] self@.count_row_spec(k) == self@.row_hints[k] as int,
                forall|k: int|
                    0 <= k < c ==> #[trigger] self@.count_col_spec(k) == self@.col_hints[k] as int,
            decreases width - c,
        {
            if self.count_col(c) != self.col_hints[c] {
                return false;
            }
            c += 1;
        }
        true
    }

    /// The total number of cells a solution must fill: the sum of the row
    /// hints. The sum must fit the `u8` the hints themselves use.
    pub fn rail_count(&self) -> (r: u8)
        requires
            self@.wf(),
            sum_hints(self@.row_hints) <= 255,
        ensures
            r as int == sum_hints(self@.row_hints),
    {
        let height = self.row_hints.len();
        let mut total: u8 = 0;
        let mut j: usize = 0;
        while j < height
            invariant
                self@.wf(),
                sum_hints(self@.row_hints) <= 255,
                height as int == self@.height(),
                j <= height,
                total as int == sum_hints_upto(self@.row_hints, j as int),
            decreases height - j,
        {
            proof {
                lemma_sum_hints_upto_mono(self@.row_hints, j as int + 1, self@.height());
            }
            total = total + self.row_hints[j];
            j += 1;
        }
        total
    }

    /// Whether `rail` may be placed at column `x`, row `y`: false off the
    /// board; on a cell holding a fixed segment, true only for that same
    /// segment; on an empty cell, false exactly when some placed neighbor
    /// points into the cell and `rail` does not point back. Pure predicate,
    /// no side effects.
    pub fn can_place(&self, rail: Rail, x: usize, y: usize) -> (r: bool)
        requires
            self@.wf(),
        ensures
            r == self@.can_place_spec(rail, x as int, y as int),
    {
        let width = self.col_hints.len();
        let height = self.row_hints.len();
        if x >= width {
            return false;
        }
        if y >= height {
            return false;
        }
        if let Some(t) = self.cell_at(x, y) {
            return t == rail;
        }
        let ghost xi = x as int;
        let ghost yi = y as int;
        if y > 0 {
            if let Some(u) = self.cell_at(x, y - 1) {
                if u.points_down() && !rail.points_up() {
                    proof {
                        assert(self@.neighbor_points_in(xi, yi, Direction::North));
                    }
                    return false;
                }
            }
        }
        if y < height - 1 {
            if let Some(u) = self.cell_at(x, y + 1) {
                if u.points_up() && !rail.points_down() {
                    proof {
                        assert(self@.neighbor_points_in(xi, yi, Direction::South));
                    }
                    return false;
                }
            }
        }
        if x > 0 {
            if let Some(u) = self.cell_at(x - 1, y) {
                if u.points_right() && !rail.points_left() {
                    proof {
                        assert(self@.neighbor_points_in(xi, yi, Direction::West));
                    }
                    return false;
                }
            }
        }
        if x < width - 1 {
            if let Some(u) = self.cell_at(x + 1, y) {
                if u.points_left() && !rail.points_right() {
                    proof {
                        assert(self@.neighbor_points_in(xi, yi, Direction::East));
                    }
                    return false;
                }
            }
        }
        proof {
            assert forall|d: Direction| #[trigger]
                self@.neighbor_points_in(xi, yi, d) implies spec_points(rail, d) by {
                match d {
                    Direction::North => {},
                    Direction::South => {},
                    Direction::West => {},
                    Direction::East => {},
                }
            }
        }
        true
    }

    /// The path endpoint the search starts from: scans the top and bottom
    /// cell of each column left to right, then the left and right cell of
    /// each row top to bottom, and returns the first boundary cell whose
    /// fixed segment points outward, together with the direction the path
    /// travels when leaving that cell. A board without such a cell is
    /// malformed and excluded by precondition.
    pub fn find_start(&self) -> (r: ((usize, usize), Direction))
        requires
            self@.wf(),
            self@.has_start(),
        ensures
            self@.find_start_spec() == Some((((r.0.0 as int, r.0.1 as int)), r.1)),
            self@.in_bounds(r.0.0 as int, r.0.1 as int),
    {
        let width = self.col_hints.len();
        let height = self.row_hints.len();
        let mut c: usize = 0;
        while c < width
            invariant
                self@.wf(),
                width as int == self@.width(),
                height as int == self@.height(),
                c <= width,
                self@.start_in_cols_from(0) == self@.start_in_cols_from(c as int),
            decreases width - c,
        {
            if let Some(t) = self.cell_at(c, 0) {
                if t.points_up() {
                    return ((c, 0), t.points_other(Direction::North));
                }
            }
            if let Some(t) = self.cell_at(c, height - 1) {
                if t.points_down() {
                    return ((c, height - 1), t.points_other(Direction::South));
                }
            }
            c += 1;
        }
        let mut j: usize = 0;
        while j < height
            invariant
                self@.wf(),
                width as int == self@.width(),
                height as int == self@.height(),
                self@.start_in_cols_from(0) is None,
                j <= height,
                self@.start_in_rows_from(0) == self@.start_in_rows_from(j as int),
            decreases height - j,
        {
            if let Some(t) = self.cell_at(0, j) {
                if t.points_left() {
                    return ((0, j), t.points_other(Direction::West));
                }
            }
            if let Some(t) = self.cell_at(width - 1, j) {
                if t.points_right() {
                    return ((width - 1, j), t.points_other(Direction::East));
                }
            }
            j += 1;
        }
        proof {
            assert(false);
        }
        ((0, 0), Direction::North)
    }

    /// Whether the boundary scan finds a path endpoint: the test that
    /// `find_start` requires, in a form callers can run first.
    pub fn has_start(&self) -> (r: bool)
        requires
            self@.wf(),
        ensures
            r == self@.has_start(),
    {
        let width = self.col_hints.len();
        let height = self.row_hints.len();
        let mut c: usize = 0;
        while c < width
            invariant
                self@.wf(),
                width as int == self@.width(),
                height as int == self@.height(),
                c <= width,
                self@.start_in_cols_from(0) == self@.start_in_cols_from(c as int),
            decreases width - c,
        {
            if let Some(t) = self.cell_at(c, 0) {
                if t.points_up() {
                    return true;
                }
            }
            if let Some(t) = self.cell_at(c, height - 1) {
                if t.points_down() {
                    return true;
                }
            }
            c += 1;
        }
        let mut j: usize = 0;
        while j < height
            invariant
                self@.wf(),
                width as int == self@.width(),
                height as int == self@.height(),
                self@.start_in_cols_from(0) is None,
                j <= height,
                self@.start_in_rows_from(0) == self@.start_in_rows_from(j as int),
            decreases height - j,
        {
            if let Some(t) = self.cell_at(0, j) {
                if t.points_left() {
                    return true;
                }
            }
            if let Some(t) = self.cell_at(width - 1, j) {
                if t.points_right() {
                    return true;
                }
            }
            j += 1;
        }
        false
    }

    /// Whether every connection between adjacent placed segments is mutual:
    /// wherever one segment points into a neighboring placed cell, that
    /// cell's segment points back.
    pub(crate) fn connections_mutual(&self) -> (r: bool)
        requires
            self@.wf(),
        ensures
            r == self@.mutually_connected(),
    {
        let width = self.col_hints.len();
        let height = self.row_hints.len();
        let mut y: usize = 0;
        while y < height
            invariant
                self@.wf(),
                width as int == self@.width(),
                height as int == self@.height(),
                y <= height,
                forall|xx: int, yy: int, dd: Direction|
                    0 <= yy < y && 0 <= xx < width && self@.cell(xx, yy) is Some
                        && #[trigger] self@.neighbor_points_in(xx, yy, dd) ==> spec_points(
                        self@.cell(xx, yy)->Some_0,
                        dd,
                    ),
            decreases height - y,
        {
            let mut x: usize = 0;
            while x < width
                invariant
                    self@.wf(),
                    width as int == self@.width(),
                    height as int == self@.height(),
                    y < height,
                    x <= width,
                    forall|xx: int, yy: int, dd: Direction|
                        0 <= yy < y && 0 <= xx < width && self@.cell(xx, yy) is Some
                            && #[trigger] self@.neighbor_points_in(xx, yy, dd) ==> spec_points(
                            self@.cell(xx, yy)->Some_0,
                            dd,
                        ),
                    forall|xx: int, dd: Direction|
                        0 <= xx < x && self@.cell(xx, y as int) is Some
                            && #[trigger] self@.neighbor_points_in(xx, y as int, dd)
                            ==> spec_points(self@.cell(xx, y as int)->Some_0, dd),
                decreases width - x,
            {
                if let Some(t) = self.cell_at(x, y) {
                    if y > 0 {
                        if let Some(u) = self.cell_at(x, y - 1) {
                            if u.points_down() && !t.points_up() {
                                proof {
                                    assert(self@.neighbor_points_in(
                                        x as int,
                                        y as int,
                                        Direction::North,
                                    ));
                                }
                                return false;
                            }
                        }
                    }
                    if y < height - 1 {
                        if let Some(u) = self.cell_at(x, y + 1) {
                            if u.points_up() && !t.points_down() {
                                proof {
                                    assert(self@.neighbor_points_in(
                                        x as int,
                                        y as int,
                                        Direction::South,
                                    ));
                                }
                                return false;
                            }
                        }
                    }
                    if x > 0 {
                        if let Some(u) = self.cell_at(x - 1, y) {
                            if u.points_right() && !t.points_left() {
                                proof {
                                    assert(self@.neighbor_points_in(
                                        x as int,
                                        y as int,
                                        Direction::West,
                                    ));
                                }
                                return false;
                            }
                        }
                    }
                    if x < width - 1 {
                        if let Some(u) = self.cell_at(x + 1, y) {
                            if u.points_left() && !t.points_right() {
                                proof {
                                    assert(self@.neighbor_points_in(
                                        x as int,
                                        y as int,
                                        Direction::East,
                                    ));
                                }
                                return false;
                            }
                        }
                    }
                    proof {
                        assert forall|dd: Direction| #[trigger]
                            self@.neighbor_points_in(x as int, y as int, dd) implies spec_points(
                            t,
                            dd,
                        ) by {
                            match dd {
                                Direction::North => {},
                                Direction::South => {},
                                Direction::West => {},
                                Direction::East => {},
                            }
                        }
                    }
                }
                x += 1;
            }
            y += 1;
        }
        true
    }

    /// Whether the row-hint total fits the `u8` that `rail_count` returns:
    /// the bound that `rail_count`, `is_solved` and `solve` require, in a
    /// form callers can run first.
    pub fn hint_sum_fits(&self) -> (r: bool)
        requires
            self@.wf(),
        ensures
            r == (sum_hints(self@.row_hints) <= 255),
    {
        let height = self.row_hints.len();
        let mut total: u32 = 0;
        let mut j: usize = 0;
        while j < height
            invariant
                self@.wf(),
                height as int == self@.height(),
                j <= height,
                total as int == sum_hints_upto(self@.row_hints, j as int),
                total as int <= 255 * (j as int),
            decreases height - j,
        {
            total = total + self.row_hints[j] as u32;
            j += 1;
        }
        total <= 255
    }

    /// Whether the placed cells form the expected continuous path: starting
    /// from the scan's endpoint, repeatedly steps to the adjacent cell in
    /// the current travel direction, requires it to hold a segment pointing
    /// back, and turns to that segment's other direction, until
    /// `sum(row_hints)` cells have been visited. Returns false if the walk
    /// would leave the board early or meets an empty or mismatched cell.
    pub fn is_solved(&self) -> (r: bool)
        requires
            self@.wf(),
            self@.has_start(),
            sum_hints(self@.row_hints) <= 255,
        ensures
            r == self@.is_solved_spec(),
    {
        let expected = self.rail_count();
        let start = self.find_start();
        let mut x = start.0.0;
        let mut y = start.0.1;
        let mut dir = start.1;
        let width = self.col_hints.len();
        let height = self.row_hints.len();
        let mut count: u8 = 1;
        if expected == 0 {
            return true;
        }
        while count < expected
            invariant
                self@.wf(),
                width as int == self@.width(),
                height as int == self@.height(),
                self@.in_bounds(x as int, y as int),
                1 <= count <= expected,
                expected as int == sum_hints(self@.row_hints),
                self@.is_solved_spec() == self@.walk_ok(
                    x as int,
                    y as int,
                    dir,
                    (expected - count) as nat,
                ),
            decreases expected - count,
        {
            let off = dir.offset();
            if (x == 0 && off.0 < 0) || (y == 0 && off.1 < 0) || (x == width - 1 && off.0 > 0) || (
            y == height - 1 && off.1 > 0) {
                return false;
            }
            let nx = if off.0 < 0 {
                x - 1
            } else if off.0 > 0 {
                x + 1
            } else {
                x
            };
            let ny = if off.1 < 0 {
                y - 1
            } else if off.1 > 0 {
                y + 1
            } else {
                y
            };
            match self.cell_at(nx, ny) {
                Some(t) => {
                    if !t.points_to(dir) {
                        return false;
                    }
                    x = nx;
                    y = ny;
                    dir = t.points_other(dir.opposite());
                    count += 1;
                },
                None => {
                    return false;
                },
            }
        }
        true
    }

    /// The board rendered as characters: one line of `width` glyphs per
    /// row, top to bottom, each line ended by a newline. Placed cells show
    /// their segment's glyph, empty cells a middle dot.
    pub fn render(&self) -> (r: Vec<char>)
        requires
            self@.wf(),
        ensures
            r@ == self@.render_spec(),
    {
        let width = self.col_hints.len();
        let height = self.row_hints.len();
        let mut out: Vec<char> = Vec::new();
        let mut j: usize = 0;
        while j < height
            invariant
                self@.wf(),
                width as int == self@.width(),
                height as int == self@.height(),
                j <= height,
                out@ == self@.render_upto(j as int),
            decreases height - j,
        {
            let mut c: usize = 0;
            while c < width
                invariant
                    self@.wf(),
                    width as int == self@.width(),
                    height as int == self@.height(),
                    j < height,
                    c <= width,
                    out@ == self@.render_upto(j as int) + self@.render_row_spec(
                        j as int,
                        c as int,
                    ),
                decreases width - c,
            {
                match self.cell_at(c, j) {
                    Some(t) => out.push(t.glyph()),
                    None => out.push('\u{b7}'),
                }
                proof {
                    assert(out@ =~= self@.render_upto(j as int) + self@.render_row_spec(
                        j as int,
                        c as int + 1,
                    ));
                }
                c += 1;
            }
            out.push('\n');
            proof {
                assert(out@ =~= self@.render_upto(j as int + 1));
            }
            j += 1;
        }
        out
    }

    /// Whether the placed cells form one continuous path of exactly
    /// `sum(row_hints)` distinct cells from the scan's endpoint to a board
    /// exit: like `is_solved`, but additionally rejecting any revisit of a
    /// cell and demanding that the path leaves the board after its last
    /// cell.
    pub(crate) fn path_check(&self) -> (r: bool)
        requires
            self@.wf(),
            self@.has_start(),
            sum_hints(self@.row_hints) <= 255,
        ensures
            r == self@.has_continuous_path(),
    {
        let expected = self.rail_count();
        if expected == 0 {
            return false;
        }
        let start = self.find_start();
        let mut x = start.0.0;
        let mut y = start.0.1;
        let mut dir = start.1;
        let width = self.col_hints.len();
        let height = self.row_hints.len();
        let mut visited: Vec<Vec<bool>> = Vec::new();
        let mut vr: usize = 0;
        while vr < height
            invariant
                vr <= height,
                visited@.len() == vr,
                forall|j: int|
                    0 <= j < vr ==> ((#[trigger] visited@[j])@.len() == width && forall|i: int|
                        0 <= i < width ==> !(#[trigger] visited@[j]@[i])),
            decreases height - vr,
        {
            let mut vrow: Vec<bool> = Vec::new();
            let mut vc: usize = 0;
            while vc < width
                invariant
                    vc <= width,
                    vrow@.len() == vc,
                    forall|i: int| 0 <= i < vc ==> !(#[trigger] vrow@[i]),
                decreases width - vc,
            {
                vrow.push(false);
                vc += 1;
            }
            visited.push(vrow);
            vr += 1;
        }
        let vrow = &mut visited[y];
        vrow.set(x, true);
        let ghost mut seen: Set<(int, int)> = set![(x as int, y as int)];
        let mut count: u8 = 1;
        while count < expected
            invariant
                self@.wf(),
                width as int == self@.width(),
                height as int == self@.height(),
                self@.in_bounds(x as int, y as int),
                1 <= count <= expected,
                expected as int == sum_hints(self@.row_hints),
                visited@.len() == height,
                forall|j: int| 0 <= j < height ==> (#[trigger] visited@[j])@.len() == width,
                forall|i: int, j: int|
                    0 <= i < width && 0 <= j < height ==> ((#[trigger] visited@[j]@[i])
                        == seen.contains((i, j))),
                self@.has_continuous_path() == self@.path_ok(
                    x as int,
                    y as int,
                    dir,
                    seen,
                    (expected - count) as nat,
                ),
            decreases expected - count,
        {
            let off = dir.offset();
            if (x == 0 && off.0 < 0) || (y == 0 && off.1 < 0) || (x == width - 1 && off.0 > 0) || (
            y == height - 1 && off.1 > 0) {
                return false;
            }
            let nx = if off.0 < 0 {
                x - 1
            } else if off.0 > 0 {
                x + 1
            } else {
                x
            };
            let ny = if off.1 < 0 {
                y - 1
            } else if off.1 > 0 {
                y + 1
            } else {
                y
            };
            match self.cell_at(nx, ny) {
                Some(t) => {
                    if !t.points_to(dir) {
                        return false;
                    }
                    if visited[ny][nx] {
                        return false;
                    }
                    let vrow = &mut visited[ny];
                    vrow.set(nx, true);
                    proof {
                        seen = seen.insert((nx as int, ny as int));
                    }
                    x = nx;
                    y = ny;
                    dir = t.points_other(dir.opposite());
                    count += 1;
                },
                None => {
                    return false;
                },
            }
        }
        let off = dir.offset();
        (x == 0 && off.0 < 0) || (y == 0 && off.1 < 0) || (x == width - 1 && off.0 > 0) || (y
            == height - 1 && off.1 > 0)
    }

    /// Whether placing `rail` at the boundary cell `point` (given as
    /// `(x, y)`) would let the path exit the board there.
    pub fn points_outward(&self, point: (usize, usize), rail: Rail) -> (r: bool)
        requires
            self@.wf(),
        ensures
            r == ({
                ||| (point.0 == 0 && spec_points(rail, Direction::West))
                ||| (point.1 == 0 && spec_points(rail, Direction::North))
                ||| (point.0 as int == self@.width() - 1 && spec_points(rail, Direction::East))
                ||| (point.1 as int == self@.height() - 1 && spec_points(rail, Direction::South))
            }),
    {
        (point.0 == 0 && rail.points_left()) || (point.1 == 0 && rail.points_up()) || (point.0
            == self.col_hints.len() - 1 && rail.points_right()) || (point.1
            == self.row_hints.len() - 1 && rail.points_down())
    }

    /// Direct mutable access to the grid, row-major: `grid_mut()[y][x]` is
    /// the cell at column `x`, row `y`. The hints cannot be changed this way.
    pub fn grid_mut(&mut self) -> (r: &mut Vec<Vec<Option<Rail>>>)
        ensures
            r@.len() == old(self)@.cells.len(),
            forall|j: int| 0 <= j < r@.len() ==> (#[trigger] r@[j])@ == old(self)@.cells[j],
            final(self)@.col_hints == old(self)@.col_hints,
            final(self)@.row_hints == old(self)@.row_hints,
            final(self)@.cells.len() == final(r)@.len(),
            forall|j: int|
                0 <= j < final(r)@.len() ==> #[trigger] final(self)@.cells[j] == final(r)@[j]@,
        {
        &mut self.inner
    }

    /// A copy of row `idx` of the grid, or `None` if `idx` is out of range.
    pub fn row(&self, idx: usize) -> (r: Option<Vec<Option<Rail>>>)
        requires
            self@.wf(),
        ensures
            (idx as int) >= self@.height() ==> r is None,
            (idx as int) < self@.height() ==> (match r {
                Some(v) => v@ == self@.cells[idx as int],
                None => false,
            }),
    {
        if idx >= self.row_hints.len() {
            return None;
        }
        let src_row = &self.inner[idx];
        let mut row: Vec<Option<Rail>> = Vec::new();
        let mut c: usize = 0;
        while c < src_row.len()
            invariant
                c <= src_row@.len(),
                row@ == src_row@.take(c as int),
            decreases src_row@.len() - c,
        {
            row.push(src_row[c]);
            proof {
                assert(row@ =~= src_row@.take(c as int + 1));
            }
            c += 1;
        }
        proof {
            assert(row@ =~= src_row@);
        }
        Some(row)
    }

    /// A copy of column `idx` of the grid, top to bottom, or `None` if `idx`
    /// is out of range.
    pub fn col(&self, idx: usize) -> (r: Option<Vec<Option<Rail>>>)
        requires
            self@.wf(),
        ensures
            (idx as int) >= self@.width() ==> r is None,
            (idx as int) < self@.width() ==> (match r {
                Some(v) => {
                    &&& v@.len() == self@.height()
                    &&& forall|j: int|
                        0 <= j < self@.height() ==> #[trigger] v@[j] == self@.cell(idx as int, j)
                },
                None => false,
            }),
    {
        if idx >= self.col_hints.len() {
            return None;
        }
        let mut col: Vec<Option<Rail>> = Vec::new();
        let mut j: usize = 0;
        while j < self.row_hints.len()
            invariant
                self@.wf(),
                (idx as int) < self@.width(),
                j <= self@.height(),
                col@.len() == j,
                forall|k: int| 0 <= k < j ==> #[trigger] col@[k] == self@.cell(idx as int, k),
            decreases self@.height() - j,
        {
            proof {
                assert(self@.cells[j as int] == self.inner@[j as int]@);
            }
            col.push(self.inner[j][idx]);
            j += 1;
        }
        Some(col)
    }
}

/// A fresh copy of a vector of hint counts.
fn copy_u8_vec(v: &Vec<u8>) -> (r: Vec<u8>)
    ensures
        r@ == v@,
{
    let mut out: Vec<u8> = Vec::new();
    let mut i: usize = 0;
    while i < v.len()
        invariant
            i <= v@.len(),
            out@ == v@.take(i as int),
        decreases v@.len() - i,
    {
        out.push(v[i]);
        proof {
            assert(out@ =~= v@.take(i as int + 1));
        }
        i += 1;
    }
    proof {
        assert(out@ =~= v@);
    }
    out
}

} // verus!
