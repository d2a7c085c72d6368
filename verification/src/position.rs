use crate::board::{dir_dc, dir_dr, empty_board, lemma_moves_bound, lemma_play_wf, Board};
use crate::color::Color;
use crate::error::PositionOpError;
use vstd::pervasive::VecAdditionalExecFns;
use vstd::prelude::*;
use vstd::string::StringExecFns;

verus! {

/// A Connect-4 position: a 6-row, 7-column grid of chips together with the
/// chip count of every column, the number of moves played, and the side to
/// move. Its abstraction is a [`Board`], and every operation keeps the board
/// well-formed ([`Board::wf`]).
pub struct Position {
    grid: Vec<Option<Color>>,
    col_heights: Vec<usize>,
    num_moves: u8,
    player_to_move: Color,
}

impl View for Position {
    type V = Board;

    closed spec fn view(&self) -> Board {
        Board {
            grid: self.grid@,
            heights: Seq::new(self.col_heights@.len(), |c: int| self.col_heights@[c] as int),
            moves: self.num_moves as int,
            turn: self.player_to_move,
        }
    }
}

/// An element-wise copy of a vector of plain values.
pub(crate) fn copy_vec<T: Copy>(v: &Vec<T>) -> (r: Vec<T>)
    ensures
        r@ == v@,
{
    let mut r: Vec<T> = Vec::new();
    let mut i: usize = 0;
    while i < v.len()
        invariant
            i <= v.len(),
            r@.len() == i,
            forall|j: int| 0 <= j < i ==> r@[j] == v@[j],
        decreases v.len() - i,
    {
        r.push(v[i]);
        i += 1;
    }
    proof {
        assert(r@ =~= v@);
    }
    r
}

impl Clone for Position {
    /// An independent copy: the copy abstracts to the same board.
    fn clone(&self) -> (res: Self)
        ensures
            res@ == self@,
    {
        let res = Position {
            grid: copy_vec(&self.grid),
            col_heights: copy_vec(&self.col_heights),
            num_moves: self.num_moves,
            player_to_move: self.player_to_move,
        };
        proof {
            assert(res@ =~= self@);
        }
        res
    }
}

impl Position {
    /// Initializes an empty board position: no chips, no moves played, Red to
    /// move.
    pub fn empty() -> (r: Self)
        ensures
            r@ == empty_board(),
            r@.wf(),
    {
        let r = Position {
            grid: vec![None;42],
            col_heights: vec![0usize;7],
            num_moves: 0,
            player_to_move: Color::Red,
        };
        proof {
            assert(r@.grid =~= empty_board().grid);
            assert(r@.heights =~= empty_board().heights);
            assert(r@ =~= empty_board());
            crate::board::lemma_empty_wf();
        }
        r
    }

    /// Places a chip of the current player at the given cell and records it in
    /// the column's chip count.
    fn set_cell(&mut self, row: usize, col: usize)
        requires
            old(self)@.wf(),
            col < 7,
            row < 6,
            row as int == old(self)@.heights[col as int],
        ensures
            final(self)@.grid == old(self)@.grid.update(
                row as int * 7 + col as int,
                Some(old(self)@.turn),
            ),
            final(self)@.heights == old(self)@.heights.update(
                col as int,
                old(self)@.heights[col as int] + 1,
            ),
            final(self)@.moves == old(self)@.moves,
            final(self)@.turn == old(self)@.turn,
    {
        let idx: usize = row * 7 + col;
        self.grid.set(idx, Some(self.player_to_move));
        let h = self.col_heights[col];
        self.col_heights.set(col, h + 1);
        proof {
            assert(self@.heights =~= old(self)@.heights.update(
                col as int,
                old(self)@.heights[col as int] + 1,
            ));
        }
    }

    /// Attempts to find the lowest open row of the given column: the range
    /// check comes first, the fullness check second.
    fn find_row(&self, col: usize) -> (r: Result<usize, PositionOpError>)
        requires
            self@.wf(),
        ensures
            match r {
                Ok(row) => self@.legal(col as int) && row as int == self@.heights[col as int]
                    && row < 6,
                Err(e) => !self@.legal(col as int) && e == (if col >= 7 {
                    PositionOpError::OutOfRangeCol(col)
                } else {
                    PositionOpError::FullCol(col)
                }),
            },
    {
        if col >= self.col_heights.len() {
            Err(PositionOpError::OutOfRangeCol(col))
        } else {
            let row = self.col_heights[col];
            if row >= 6 {
                Err(PositionOpError::FullCol(col))
            } else {
                Ok(row)
            }
        }
    }

    /// Attempts to play the current player's chip in the given column.
    ///
    /// On a legal column the chip lands in the lowest open row, the move
    /// counter grows by one and the turn flips. An out-of-range column is
    /// rejected with `OutOfRangeCol`, a full one with `FullCol`, and a
    /// rejected move leaves the position unchanged.
    pub fn play_col(&mut self, col: usize) -> (r: Result<(), PositionOpError>)
        requires
            old(self)@.wf(),
        ensures
            final(self)@.wf(),
            old(self)@.legal(col as int) ==> r == Ok::<(), PositionOpError>(()) && final(self)@
                == old(self)@.play(col as int),
            !old(self)@.legal(col as int) ==> *final(self) == *old(self) && r == Err::<
                (),
                PositionOpError,
            >(
                if col >= 7 {
                    PositionOpError::OutOfRangeCol(col)
                } else {
                    PositionOpError::FullCol(col)
                },
            ),
    {
        let row = match self.find_row(col) {
            Ok(row) => row,
            Err(e) => {
                return Err(e);
            },
        };
        proof {
            lemma_moves_bound(old(self)@);
            lemma_play_wf(old(self)@, col as int);
        }
        self.set_cell(row, col);
        self.player_to_move = self.player_to_move.opponent();
        self.num_moves = self.num_moves + 1;
        proof {
            assert(self@ =~= old(self)@.play(col as int));
        }
        Ok(())
    }

    /// Gets the number of moves having been played to reach this position.
    pub fn num_moves_played(&self) -> (r: u8)
        ensures
            r as int == self@.moves,
    {
        self.num_moves
    }

    /// Whether the cell `(r, c)` would count for the current player after a
    /// chip of color `me` lands at `(nr, nc)`.
    fn covered_at(&self, me: Color, nr: usize, nc: usize, r: i32, c: i32) -> (res: bool)
        requires
            self@.wf(),
            nr < 6,
            nc < 7,
        ensures
            res == self@.covered(me, nr as int, nc as int, r as int, c as int),
    {
        if r < 0 || r >= 6 || c < 0 || c >= 7 {
            return false;
        }
        if r == nr as i32 && c == nc as i32 {
            return true;
        }
        let idx: usize = (r as usize) * 7 + (c as usize);
        match self.grid[idx] {
            Some(chip) => chip == me,
            None => false,
        }
    }

    /// Whether the four cells along axis `d` that contain the landing cell
    /// `(nr, nc)` at offset `k` are all covered for `me`.
    fn check_window(&self, me: Color, nr: usize, nc: usize, d: usize, k: usize) -> (res: bool)
        requires
            self@.wf(),
            nr < 6,
            nc < 7,
            d < 4,
            k < 4,
        ensures
            res == self@.window_wins(me, nr as int, nc as int, d as int, k as int),
    {
        let (dr, dc): (i32, i32) = match d {
            0 => (0, 1),
            1 => (1, 0),
            2 => (1, 1),
            _ => (1, -1),
        };
        proof {
            assert(dr as int == dir_dr(d as int));
            assert(dc as int == dir_dc(d as int));
        }
        let nri = nr as i32;
        let nci = nc as i32;
        let ki = k as i32;
        let c0 = self.covered_at(me, nr, nc, nri + (0 - ki) * dr, nci + (0 - ki) * dc);
        let c1 = self.covered_at(me, nr, nc, nri + (1 - ki) * dr, nci + (1 - ki) * dc);
        let c2 = self.covered_at(me, nr, nc, nri + (2 - ki) * dr, nci + (2 - ki) * dc);
        let c3 = self.covered_at(me, nr, nc, nri + (3 - ki) * dr, nci + (3 - ki) * dc);
        let res = c0 && c1 && c2 && c3;
        proof {
            let b = self@;
            let nri = nr as int;
            let nci = nc as int;
            let di = d as int;
            let kint = k as int;
            if res {
                assert forall|i: int| 0 <= i < 4 implies #[trigger] b.window_cell_ok(
                    me,
                    nri,
                    nci,
                    di,
                    kint,
                    i,
                ) by {
                    if i == 0 {
                        assert(b.covered(
                            me,
                            nri,
                            nci,
                            nri + (0 - kint) * dir_dr(di),
                            nci + (0 - kint) * dir_dc(di),
                        ));
                    } else if i == 1 {
                        assert(b.covered(
                            me,
                            nri,
                            nci,
                            nri + (1 - kint) * dir_dr(di),
                            nci + (1 - kint) * dir_dc(di),
                        ));
                    } else if i == 2 {
                        assert(b.covered(
                            me,
                            nri,
                            nci,
                            nri + (2 - kint) * dir_dr(di),
                            nci + (2 - kint) * dir_dc(di),
                        ));
                    } else {
                        assert(b.covered(
                            me,
                            nri,
                            nci,
                            nri + (3 - kint) * dir_dr(di),
                            nci + (3 - kint) * dir_dc(di),
                        ));
                    }
                }
            } else {
                if !c0 {
                    assert(!b.window_cell_ok(me, nri, nci, di, kint, 0));
                } else if !c1 {
                    assert(!b.window_cell_ok(me, nri, nci, di, kint, 1));
                } else if !c2 {
                    assert(!b.window_cell_ok(me, nri, nci, di, kint, 2));
                } else {
                    assert(!b.window_cell_ok(me, nri, nci, di, kint, 3));
                }
            }
        }
        res
    }

    /// Determine whether playing in the given column would win the game:
    /// whether the chip about to land in `col`'s lowest open row completes a
    /// run of four chips of the current player along any of the four axes. An
    /// out-of-range or full column never wins.
    pub fn move_wins(&self, col: usize) -> (r: bool)
        requires
            self@.wf(),
        ensures
            r == self@.wins(col as int),
    {
        if col >= 7 {
            return false;
        }
        let h = self.col_heights[col];
        if h >= 6 {
            return false;
        }
        let me = self.player_to_move;
        let mut d: usize = 0;
        while d < 4
            invariant
                self@.wf(),
                col < 7,
                h < 6,
                h as int == self@.heights[col as int],
                me == self@.turn,
                d <= 4,
                forall|dd: int, k: int|
                    0 <= dd < d && 0 <= k < 4 ==> !self@.window_wins(
                        me,
                        h as int,
                        col as int,
                        dd,
                        k,
                    ),
            decreases 4 - d,
        {
            let mut k: usize = 0;
            while k < 4
                invariant
                    self@.wf(),
                    col < 7,
                    h < 6,
                    h as int == self@.heights[col as int],
                    me == self@.turn,
                    d < 4,
                    k <= 4,
                    forall|dd: int, kk: int|
                        0 <= dd < d && 0 <= kk < 4 ==> !self@.window_wins(
                            me,
                            h as int,
                            col as int,
                            dd,
                            kk,
                        ),
                    forall|kk: int|
                        0 <= kk < k ==> !self@.window_wins(me, h as int, col as int, d as int, kk),
                decreases 4 - k,
            {
                if self.check_window(me, h, col, d, k) {
                    proof {
                        assert(self@.wins(col as int));
                    }
                    return true;
                }
                k += 1;
            }
            d += 1;
        }
        proof {
            assert(!self@.wins(col as int));
        }
        false
    }

    /// Whether this position and `other` are the same board. Used to guard
    /// transposition-cache hits: a hit is trusted only when the stored
    /// position itself matches.
    pub(crate) fn same_as(&self, other: &Position) -> (r: bool)
        requires
            self@.wf(),
            other@.wf(),
        ensures
            r ==> self@ == other@,
    {
        if self.num_moves != other.num_moves {
            return false;
        }
        let same_turn = match (self.player_to_move, other.player_to_move) {
            (Color::Red, Color::Red) => true,
            (Color::Yellow, Color::Yellow) => true,
            _ => false,
        };
        if !same_turn {
            return false;
        }
        let mut c: usize = 0;
        while c < 7
            invariant
                self@.wf(),
                other@.wf(),
                c <= 7,
                forall|j: int| 0 <= j < c ==> self@.heights[j] == other@.heights[j],
            decreases 7 - c,
        {
            if self.col_heights[c] != other.col_heights[c] {
                return false;
            }
            c += 1;
        }
        let mut i: usize = 0;
        while i < 42
            invariant
                self@.wf(),
                other@.wf(),
                i <= 42,
                forall|j: int| 0 <= j < i ==> self@.grid[j] == other@.grid[j],
            decreases 42 - i,
        {
            let same_cell = match (self.grid[i], other.grid[i]) {
                (None, None) => true,
                (Some(a), Some(b)) => a == b,
                _ => false,
            };
            if !same_cell {
                return false;
            }
            i += 1;
        }
        proof {
            assert(self@.grid =~= other@.grid);
            assert(self@.heights =~= other@.heights);
            assert(self@ =~= other@);
        }
        true
    }

    /// A compact canonical key for the transposition cache: each column packs
    /// into seven bits a sentinel above its chips and, below it, one bit per
    /// chip that is set exactly for the side to move's chips.
    pub(crate) fn cache_key(&self) -> (key: u64)
        requires
            self@.wf(),
    {
        let mut key: u64 = 0;
        let mut c: usize = 0;
        while c < 7
            invariant
                self@.wf(),
                c <= 7,
            decreases 7 - c,
        {
            let h = self.col_heights[c];
            let mut code: u64 = 1;
            let mut r: usize = 0;
            while r < h
                invariant
                    self@.wf(),
                    c < 7,
                    h as int == self@.heights[c as int],
                    r <= h,
                decreases h - r,
            {
                let bit: u64 = match self.grid[r * 7 + c] {
                    Some(chip) => if chip == self.player_to_move {
                        1
                    } else {
                        0
                    },
                    None => 0,
                };
                code = (code << 1u64) | bit;
                r += 1;
            }
            key = (key << 7u64) | code;
            c += 1;
        }
        key
    }

    /// Renders the board as text: rows top to bottom, each cell shown as `R`,
    /// `Y` or a blank and separated by bars, rows separated by newlines.
    /// Purely diagnostic.
    pub fn render(&self) -> (s: String)
        requires
            self@.wf(),
        ensures
            s@ == self@.render_spec(),
    {
        let mut s = String::new();
        let mut j: usize = 0;
        while j < 6
            invariant
                self@.wf(),
                j <= 6,
                s@ == self@.render_upto(j as int),
            decreases 6 - j,
        {
            let r: usize = 5 - j;
            s.append("|");
            proof {
                reveal_strlit("|");
                assert(s@ =~= self@.render_upto(j as int) + self@.row_chars(r as int, 0));
            }
            let mut c: usize = 0;
            while c < 7
                invariant
                    self@.wf(),
                    j < 6,
                    r == 5 - j,
                    c <= 7,
                    s@ == self@.render_upto(j as int) + self@.row_chars(r as int, c as int),
                decreases 7 - c,
            {
                let idx: usize = r * 7 + c;
                match self.grid[idx] {
                    Some(Color::Red) => s.append("R"),
                    Some(Color::Yellow) => s.append("Y"),
                    None => s.append(" "),
                }
                s.append("|");
                proof {
                    reveal_strlit("|");
                    reveal_strlit("R");
                    reveal_strlit("Y");
                    reveal_strlit(" ");
                    assert(s@ =~= self@.render_upto(j as int) + self@.row_chars(
                        r as int,
                        c as int + 1,
                    ));
                }
                c += 1;
            }
            if r > 0 {
                s.append("\n");
            }
            j += 1;
            proof {
                reveal_strlit("\n");
                assert(s@ =~= self@.render_upto(j as int));
            }
        }
        s
    }
}

} // verus!
