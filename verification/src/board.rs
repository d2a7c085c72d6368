use crate::color::Color;
use vstd::prelude::*;

verus! {

/// The mathematical model of a board state: a 6-row, 7-column grid of
/// optional chips, the chip count of every column, the total number of moves
/// played, and the side to move. Row 0 is the bottom row.
#[verifier::ext_equal]
pub struct Board {
    /// Cell contents, row-major with row 0 at the bottom: the cell in row `r`
    /// and column `c` is `grid[r * 7 + c]`.
    pub grid: Seq<Option<Color>>,
    /// For each column, how many chips have been dropped into it.
    pub heights: Seq<int>,
    /// Total chips placed so far.
    pub moves: int,
    /// The side that drops the next chip.
    pub turn: Color,
}

/// The starting board: no chips anywhere and Red to move.
pub open spec fn empty_board() -> Board {
    Board {
        grid: Seq::new(42, |i: int| None),
        heights: Seq::new(7, |i: int| 0),
        moves: 0,
        turn: Color::Red,
    }
}

/// Sum of the chip counts of columns `0 .. n`.
pub open spec fn count_upto(h: Seq<int>, n: int) -> int
    decreases n,
{
    if n <= 0 {
        0
    } else {
        count_upto(h, n - 1) + h[n - 1]
    }
}

/// Row step of the four winning axes: horizontal, vertical, both diagonals.
pub open spec fn dir_dr(d: int) -> int {
    if d == 0 {
        0
    } else {
        1
    }
}

/// Column step of the four winning axes.
pub open spec fn dir_dc(d: int) -> int {
    if d == 0 {
        1
    } else if d == 1 {
        0
    } else if d == 2 {
        1
    } else {
        -1
    }
}

impl Board {
    /// The cell in row `r` (0 = bottom) and column `c`.
    pub open spec fn cell(self, r: int, c: int) -> Option<Color> {
        self.grid[r * 7 + c]
    }

    /// Well-formedness: the grid has 42 cells, every column holds at most 6
    /// chips, the move counter equals the total chip count, Red moves exactly
    /// on even move counts, and a cell is occupied exactly when it lies below
    /// its column's chip count.
    pub open spec fn wf(self) -> bool {
        &&& self.grid.len() == 42
        &&& self.heights.len() == 7
        &&& (forall|c: int| 0 <= c < 7 ==> 0 <= #[trigger] self.heights[c] <= 6)
        &&& self.moves == count_upto(self.heights, 7)
        &&& (self.turn == Color::Red <==> self.moves % 2 == 0)
        &&& (forall|r: int, c: int|
            0 <= r < 6 && 0 <= c < 7 ==> ((#[trigger] self.cell(r, c)) is Some <==> r
                < self.heights[c]))
    }

    /// Playing in column `c` is allowed: the index is in range and the column
    /// still has an open row.
    pub open spec fn legal(self, c: int) -> bool {
        0 <= c < 7 && self.heights[c] < 6
    }

    /// The board after the side to move drops a chip into column `c`: the chip
    /// lands in the lowest open row of `c`, and the turn passes over.
    pub open spec fn play(self, c: int) -> Board {
        Board {
            grid: self.grid.update(self.heights[c] * 7 + c, Some(self.turn)),
            heights: self.heights.update(c, self.heights[c] + 1),
            moves: self.moves + 1,
            turn: self.turn.spec_opponent(),
        }
    }

    /// After a chip of color `me` lands at `(nr, nc)`, the cell `(r, c)` is on
    /// the board and holds a chip of color `me`.
    pub open spec fn covered(self, me: Color, nr: int, nc: int, r: int, c: int) -> bool {
        &&& 0 <= r < 6
        &&& 0 <= c < 7
        &&& ((r == nr && c == nc) || self.cell(r, c) == Some(me))
    }

    /// With a chip of color `me` landing at `(nr, nc)`: the cell at offset
    /// `i - k` along axis `d` from the landing cell is covered by `me`.
    pub open spec fn window_cell_ok(
        self,
        me: Color,
        nr: int,
        nc: int,
        d: int,
        k: int,
        i: int,
    ) -> bool {
        self.covered(me, nr, nc, nr + (i - k) * dir_dr(d), nc + (i - k) * dir_dc(d))
    }

    /// With a chip of color `me` landing at `(nr, nc)`: the four consecutive
    /// cells along axis `d` that contain the landing cell at offset `k` are
    /// all covered by `me`.
    pub open spec fn window_wins(self, me: Color, nr: int, nc: int, d: int, k: int) -> bool {
        forall|i: int| 0 <= i < 4 ==> #[trigger] self.window_cell_ok(me, nr, nc, d, k, i)
    }

    /// Dropping the current player's chip into column `c` would complete four
    /// in a row along one of the four axes. False for an out-of-range or full
    /// column: an illegal move never wins.
    pub open spec fn wins(self, c: int) -> bool {
        &&& self.legal(c)
        &&& exists|d: int, k: int|
            0 <= d < 4 && 0 <= k < 4 && self.window_wins(self.turn, self.heights[c], c, d, k)
    }

    /// Some legal column wins at once for the side to move.
    pub open spec fn has_winning_move(self) -> bool {
        exists|c: int| 0 <= c < 7 && #[trigger] self.wins(c)
    }
}

/// Columns that all hold `v` chips sum to `v` per column.
proof fn lemma_count_const(h: Seq<int>, n: int, v: int)
    requires
        0 <= n <= h.len(),
        forall|c: int| 0 <= c < n ==> #[trigger] h[c] == v,
    ensures
        count_upto(h, n) == v * n,
    decreases n,
{
    if n > 0 {
        lemma_count_const(h, n - 1, v);
        assert(h[n - 1] == v);
        assert(count_upto(h, n) == count_upto(h, n - 1) + h[n - 1]);
        assert(v * n == v * (n - 1) + v) by (nonlinear_arith);
        assert(count_upto(h, n) == v * n);
    } else {
        assert(count_upto(h, n) == 0);
        assert(v * n == 0) by (nonlinear_arith)
            requires
                n == 0,
        ;
    }
}

/// Columns holding at most 6 chips each sum to at most 6 per column.
proof fn lemma_count_bound(h: Seq<int>, n: int)
    requires
        0 <= n <= h.len(),
        forall|c: int| 0 <= c < n ==> 0 <= #[trigger] h[c] <= 6,
    ensures
        0 <= count_upto(h, n) <= 6 * n,
    decreases n,
{
    if n > 0 {
        lemma_count_bound(h, n - 1);
    }
}

/// If one of the first `n` columns is not full, their chips sum to less than
/// 6 per column.
proof fn lemma_count_slack(h: Seq<int>, n: int, c: int)
    requires
        0 <= c < n <= h.len(),
        forall|i: int| 0 <= i < n ==> 0 <= #[trigger] h[i] <= 6,
        h[c] < 6,
    ensures
        count_upto(h, n) < 6 * n,
    decreases n,
{
    if c == n - 1 {
        lemma_count_bound(h, n - 1);
    } else {
        lemma_count_slack(h, n - 1, c);
    }
}

/// Changing the chip count of one column changes the total by the same amount.
proof fn lemma_count_update(h: Seq<int>, c: int, v: int, n: int)
    requires
        0 <= c < h.len(),
        0 <= n <= h.len(),
    ensures
        count_upto(h.update(c, v), n) == count_upto(h, n) + (if c < n {
            v - h[c]
        } else {
            0
        }),
    decreases n,
{
    if n > 0 {
        lemma_count_update(h, c, v, n - 1);
    }
}

/// The starting board is well-formed.
pub proof fn lemma_empty_wf()
    ensures
        empty_board().wf(),
{
    lemma_count_const(empty_board().heights, 7, 0);
}

/// A well-formed board holds at most 42 chips, and fewer than 42 whenever some
/// column is not full.
pub proof fn lemma_moves_bound(b: Board)
    requires
        b.wf(),
    ensures
        0 <= b.moves <= 42,
        (exists|c: int| #[trigger] b.legal(c)) ==> b.moves < 42,
{
    lemma_count_bound(b.heights, 7);
    if exists|c: int| #[trigger] b.legal(c) {
        let c = choose|c: int| #[trigger] b.legal(c);
        lemma_count_slack(b.heights, 7, c);
    }
}

/// A well-formed board with fewer than 42 chips has a column with an open row.
pub proof fn lemma_exists_legal(b: Board)
    requires
        b.wf(),
        b.moves < 42,
    ensures
        exists|c: int| #[trigger] b.legal(c),
{
    if !(exists|c: int| #[trigger] b.legal(c)) {
        assert forall|c: int| 0 <= c < 7 implies #[trigger] b.heights[c] == 6 by {
            assert(!b.legal(c));
        }
        lemma_count_const(b.heights, 7, 6);
        assert(false);
    }
}

/// Dropping a chip into a column with room preserves well-formedness; the move
/// count grows by one and the turn passes to the opponent.
pub proof fn lemma_play_wf(b: Board, c: int)
    requires
        b.wf(),
        b.legal(c),
    ensures
        b.play(c).wf(),
        b.play(c).moves == b.moves + 1,
        b.play(c).turn == b.turn.spec_opponent(),
        b.play(c).heights[c] == b.heights[c] + 1,
        forall|c2: int| 0 <= c2 < 7 && c2 != c ==> b.play(c).heights[c2] == #[trigger] b.heights[c2],
{
    let b2 = b.play(c);
    let h = b.heights[c];
    lemma_count_update(b.heights, c, h + 1, 7);
    assert(0 <= h * 7 + c < 42) by (nonlinear_arith)
        requires
            0 <= h <= 5,
            0 <= c < 7,
    ;
    assert forall|r: int, cc: int| 0 <= r < 6 && 0 <= cc < 7 implies ((#[trigger] b2.cell(r, cc))
        is Some <==> r < b2.heights[cc]) by {
        if r * 7 + cc == h * 7 + c {
            assert(r == h && cc == c) by (nonlinear_arith)
                requires
                    r * 7 + cc == h * 7 + c,
                    0 <= cc < 7,
                    0 <= c < 7,
            ;
        } else {
            assert(b2.cell(r, cc) == b.cell(r, cc));
        }
    }
}

/// The character a cell is rendered as.
pub open spec fn cell_char(c: Option<Color>) -> char {
    match c {
        Some(Color::Red) => 'R',
        Some(Color::Yellow) => 'Y',
        None => ' ',
    }
}

impl Board {
    /// The first `n` cells of row `r` as text: a leading bar, then each cell's
    /// character followed by a bar.
    pub open spec fn row_chars(self, r: int, n: int) -> Seq<char>
        decreases n,
    {
        if n <= 0 {
            seq!['|']
        } else {
            self.row_chars(r, n - 1).push(cell_char(self.cell(r, n - 1))).push('|')
        }
    }

    /// The topmost `j` rows as text, top row first, each row but the bottom
    /// one followed by a newline.
    pub open spec fn render_upto(self, j: int) -> Seq<char>
        decreases j,
    {
        if j <= 0 {
            Seq::empty()
        } else {
            self.render_upto(j - 1) + self.row_chars(6 - j, 7) + (if j < 6 {
                seq!['\n']
            } else {
                Seq::<char>::empty()
            })
        }
    }

    /// The whole board as text: all six rows, top row first, cells separated
    /// by bars, rows separated by newlines.
    pub open spec fn render_spec(self) -> Seq<char> {
        self.render_upto(6)
    }
}

} // verus!
