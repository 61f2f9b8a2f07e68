//! The board: a rectangular grid of cells that stones are placed on.

use vstd::prelude::*;
use crate::group::{
    border, empty_grid, framed_rows, grid_picture, grid_text, grid_wf, group_has_liberty, in_grid,
    is_board_grid, is_cell, is_dead_stone, is_first_dead_stone, is_stone, place, scans_before,
    valid_dimension, Grid, EMPTY, MAX_DIMENSION, MIN_DIMENSION,
};
use crate::liberty::{fresh_marks, marks_below, search_liberty};
use crate::nogo::NogoError;
use crate::nogo::Player;
use crate::text::{
    chars_of, ends_open, is_space, is_word, lemma_words_space, lemma_words_word, rows_of,
    split_words, string_of, words,
};

verus! {

/// Holds the game board.
#[derive(Debug)]
pub struct GameBoard {
    height: usize,
    width: usize,
    board: Vec<Vec<char>>,
}

impl View for GameBoard {
    type V = Grid;

    /// The board as a grid of characters.
    closed spec fn view(&self) -> Grid {
        rows_of(self.board)
    }
}

impl GameBoard {
    /// The number of rows, as contracts speak of it.
    pub closed spec fn rows(&self) -> int {
        self.height as int
    }

    /// The number of columns, as contracts speak of it.
    pub closed spec fn cols(&self) -> int {
        self.width as int
    }

    /// The invariant of a board: its grid has the recorded height and width,
    /// both within the accepted range, and holds only cells.
    pub closed spec fn wf(&self) -> bool {
        grid_wf(self@, self.height as int, self.width as int)
    }

    /// What the invariant says of the grid.
    pub proof fn lemma_wf(&self)
        requires
            self.wf(),
        ensures
            grid_wf(self@, self.rows(), self.cols()),
    {
    }

    /// Creates an empty board with the given dimensions.
    ///
    /// Fails with `InvalidDimension` exactly when the height or the width
    /// lies outside the accepted range.
    pub fn new(height: usize, width: usize) -> (res: Result<GameBoard, NogoError>)
        ensures
            valid_dimension(height as int) && valid_dimension(width as int) <==> res is Ok,
            res is Err ==> res == Err::<GameBoard, NogoError>(NogoError::InvalidDimension),
            res is Ok ==> {
                let b = res->Ok_0;
                &&& b.wf()
                &&& b.rows() == height
                &&& b.cols() == width
                &&& b@ == empty_grid(height as int, width as int)
            },
    {
        if height < MIN_DIMENSION || height > MAX_DIMENSION || width < MIN_DIMENSION || width
            > MAX_DIMENSION {
            return Err(NogoError::InvalidDimension);
        }
        let mut board: Vec<Vec<char>> = Vec::new();
        let mut r: usize = 0;
        while r < height
            invariant
                r <= height,
                board@.len() == r,
                forall|i: int| 0 <= i < r ==> (#[trigger] board@[i])@ == Seq::new(
                    width as nat,
                    |c: int| EMPTY,
                ),
            decreases height - r,
        {
            let mut row: Vec<char> = Vec::new();
            let mut c: usize = 0;
            while c < width
                invariant
                    c <= width,
                    row@.len() == c,
                    forall|j: int| 0 <= j < c ==> #[trigger] row@[j] == EMPTY,
                decreases width - c,
            {
                row.push(EMPTY);
                c += 1;
            }
            assert(row@ =~= Seq::new(width as nat, |c: int| EMPTY));
            board.push(row);
            r += 1;
        }
        let b = GameBoard { height, width, board };
        assert(b@ =~= empty_grid(height as int, width as int));
        Ok(b)
    }

    /// Returns the character at the given coordinate.
    pub fn get(&self, h: usize, w: usize) -> (c: char)
        requires
            self.wf(),
            h < self.rows(),
            w < self.cols(),
        ensures
            c == self@[h as int][w as int],
            is_cell(c),
    {
        assert(self@[h as int] == self.board@[h as int]@);
        self.board[h][w]
    }

    /// The number of rows.
    pub fn get_height(&self) -> (h: usize)
        ensures
            h == self.rows(),
    {
        self.height
    }

    /// The number of columns.
    pub fn get_width(&self) -> (w: usize)
        ensures
            w == self.cols(),
    {
        self.width
    }

    /// Places a stone of `current_player` on the cell at row `h`, column `w`.
    ///
    /// Fails with `InvalidPosition` when the cell lies outside the board, and
    /// with `PositionTaken` when it already holds a stone; the board is then
    /// left as it was. No other rule is applied here.
    pub fn insert_move(&mut self, h: usize, w: usize, current_player: &Player) -> (res: Result<
        (),
        NogoError,
    >)
        requires
            old(self).wf(),
        ensures
            final(self).wf(),
            final(self).rows() == old(self).rows(),
            final(self).cols() == old(self).cols(),
            !in_grid(old(self)@, h as int, w as int) ==> res == Err::<(), NogoError>(
                NogoError::InvalidPosition,
            ),
            in_grid(old(self)@, h as int, w as int) && is_stone(old(self)@[h as int][w as int])
                ==> res == Err::<(), NogoError>(NogoError::PositionTaken),
            in_grid(old(self)@, h as int, w as int) && !is_stone(old(self)@[h as int][w as int])
                ==> res is Ok,
            res is Err ==> final(self)@ == old(self)@,
            res is Ok ==> final(self)@ == place(
                old(self)@,
                h as int,
                w as int,
                current_player.stone(),
            ),
    {
        if h >= self.height {
            return Err(NogoError::InvalidPosition);
        } else if w >= self.width {
            assert(self@[h as int] == self.board@[h as int]@);
            return Err(NogoError::InvalidPosition);
        }
        assert(self@[h as int] == self.board@[h as int]@);
        let stone = current_player.symbol();
        let here = self.board[h][w];
        if here == 'O' || here == 'X' {
            return Err(NogoError::PositionTaken);
        }
        self.board[h][w] = stone;
        assert(self@ =~= place(old(self)@, h as int, w as int, stone));
        Ok(())
    }

    /// Checks whether a stone has any liberty. Stones of one player that
    /// touch are linked: if one of them has an empty cell beside it, they
    /// all have a liberty.
    ///
    /// The cell must hold a stone.
    pub fn check_liberty(&self, h: usize, w: usize) -> (liberty: bool)
        requires
            self.wf(),
            h < self.rows(),
            w < self.cols(),
            is_stone(self@[h as int][w as int]),
        ensures
            liberty == group_has_liberty(self@, h as int, w as int),
    {
        let mut marks = fresh_marks(self.height, self.width);
        search_liberty(&self.board, self.height, self.width, h, w, &mut marks, 1)
    }

    /// Checks whether the game has been won.
    ///
    /// The cells are read row by row, each row from left to right. The
    /// result is the first stone whose group has no liberty, or `None` when
    /// every stone has one. The owner of that stone has lost.
    pub fn check_win(&self) -> (res: Option<(usize, usize)>)
        requires
            self.wf(),
        ensures
            match res {
                Some((h, w)) => is_first_dead_stone(self@, h as int, w as int),
                None => forall|r: int, c: int| !#[trigger] is_dead_stone(self@, r, c),
            },
    {
        let mut marks = fresh_marks(self.height, self.width);
        let mut h: usize = 0;
        while h < self.height
            invariant
                self.wf(),
                h <= self.height,
                marks_below(marks@, self.rows(), self.cols(), h * self.cols() + 1),
                forall|r: int, c: int| r < h ==> !#[trigger] is_dead_stone(self@, r, c),
            decreases self.height - h,
        {
            assert(h * self.width + self.width <= 1_000_000) by (nonlinear_arith)
                requires
                    h < self.height <= 1000,
                    self.width <= 1000,
            ;
            let first: usize = h * self.width + 1;
            let mut w: usize = 0;
            while w < self.width
                invariant
                    self.wf(),
                    h < self.height,
                    w <= self.width,
                    first == h * self.cols() + 1,
                    first + self.width <= 1_000_001,
                    marks_below(marks@, self.rows(), self.cols(), first + w),
                    forall|r: int, c: int|
                        scans_before(r, c, h as int, w as int) ==> !#[trigger] is_dead_stone(
                            self@,
                            r,
                            c,
                        ),
                decreases self.width - w,
            {
                assert(self@[h as int] == self.board@[h as int]@);
                if self.board[h][w] != EMPTY {
                    if !search_liberty(
                        &self.board,
                        self.height,
                        self.width,
                        h,
                        w,
                        &mut marks,
                        first + w,
                    ) {
                        return Some((h, w));
                    }
                }
                w += 1;
            }
            assert((h + 1) * self.cols() + 1 == first + self.width) by (nonlinear_arith)
                requires
                    first == h * self.cols() + 1,
                    self.width == self.cols(),
            ;
            h += 1;
        }
        None
    }

    /// Makes a board of the given rows.
    ///
    /// The number of rows is the height and the length of the first row the
    /// width. Fails with `CorruptFile` unless both lie within the accepted
    /// range, every row has that width, and every cell is empty or a stone.
    pub fn from_rows(rows: Vec<Vec<char>>) -> (res: Result<GameBoard, NogoError>)
        ensures
            is_board_grid(rows_of(rows)) <==> res is Ok,
            res is Err ==> res == Err::<GameBoard, NogoError>(NogoError::CorruptFile),
            res is Ok ==> {
                let b = res->Ok_0;
                &&& b.wf()
                &&& b@ == rows_of(rows)
                &&& b.rows() == rows_of(rows).len()
                &&& b.cols() == rows_of(rows)[0].len()
            },
    {
        let ghost g = rows_of(rows);
        let height = rows.len();
        if height < MIN_DIMENSION || height > MAX_DIMENSION {
            return Err(NogoError::CorruptFile);
        }
        assert(g[0] == rows@[0]@);
        let width = rows[0].len();
        if width < MIN_DIMENSION || width > MAX_DIMENSION {
            return Err(NogoError::CorruptFile);
        }
        let mut r: usize = 0;
        while r < height
            invariant
                g == rows_of(rows),
                height == rows@.len(),
                width == g[0].len(),
                r <= height,
                forall|i: int| 0 <= i < r ==> (#[trigger] g[i]).len() == width,
                forall|i: int, j: int| 0 <= i < r && 0 <= j < width ==> is_cell(#[trigger] g[i][j]),
            decreases height - r,
        {
            assert(g[r as int] == rows@[r as int]@);
            if rows[r].len() != width {
                return Err(NogoError::CorruptFile);
            }
            let mut c: usize = 0;
            while c < width
                invariant
                    g == rows_of(rows),
                    r < height,
                    height == rows@.len(),
                    width == g[0].len(),
                    g[r as int] == rows@[r as int]@,
                    rows@[r as int]@.len() == width,
                    c <= width,
                    forall|j: int| 0 <= j < c ==> is_cell(#[trigger] g[r as int][j]),
                decreases width - c,
            {
                let ch = rows[r][c];
                if ch != EMPTY && ch != 'O' && ch != 'X' {
                    assert(!is_cell(g[r as int][c as int]));
                    return Err(NogoError::CorruptFile);
                }
                c += 1;
            }
            r += 1;
        }
        Ok(GameBoard { height, width, board: rows })
    }

    /// Reads a board from its text: one row for each word of the text, one
    /// cell for each character of a row.
    ///
    /// Fails with `CorruptFile` unless the rows make a board: see `from_rows`.
    pub fn from(contents: &str) -> (res: Result<GameBoard, NogoError>)
        ensures
            is_board_grid(words(contents@)) <==> res is Ok,
            res is Err ==> res == Err::<GameBoard, NogoError>(NogoError::CorruptFile),
            res is Ok ==> {
                let b = res->Ok_0;
                &&& b.wf()
                &&& b@ == words(contents@)
                &&& b.rows() == words(contents@).len()
                &&& b.cols() == words(contents@)[0].len()
            },
    {
        let chars = chars_of(contents);
        GameBoard::from_rows(split_words(&chars))
    }

    /// The rows of the board, from top to bottom.
    pub fn lines(&self) -> (rows: &Vec<Vec<char>>)
        ensures
            rows_of(*rows) == self@,
    {
        &self.board
    }

    /// The text of the board without borders: each row, followed by a line
    /// feed.
    pub fn plain_text(&self) -> (text: String)
        requires
            self.wf(),
        ensures
            text@ == grid_text(self@),
    {
        let out = self.plain_chars();
        string_of(&out)
    }

    /// The characters of the text of the board: see `plain_text`.
    pub fn plain_chars(&self) -> (out: Vec<char>)
        requires
            self.wf(),
        ensures
            out@ == grid_text(self@),
    {
        let mut out: Vec<char> = Vec::new();
        let mut r: usize = 0;
        while r < self.height
            invariant
                self.wf(),
                r <= self.height,
                out@ == grid_text(self@.take(r as int)),
            decreases self.height - r,
        {
            assert(self@[r as int] == self.board@[r as int]@);
            let ghost before = out@;
            let mut c: usize = 0;
            while c < self.width
                invariant
                    self.wf(),
                    r < self.height,
                    c <= self.width,
                    self@[r as int] == self.board@[r as int]@,
                    out@ == before + self@[r as int].take(c as int),
                decreases self.width - c,
            {
                out.push(self.board[r][c]);
                assert(self@[r as int].take(c + 1) =~= self@[r as int].take(c as int).push(
                    self@[r as int][c as int],
                ));
                assert(out@ =~= before + self@[r as int].take(c + 1));
                c += 1;
            }
            out.push('\n');
            proof {
                let row = self@[r as int];
                assert(row.take(self.width as int) =~= row);
                assert(self@.take(r + 1).drop_last() =~= self@.take(r as int));
                assert(self@.take(r + 1).last() == row);
                assert(out@ =~= before + row.push('\n'));
            }
            r += 1;
        }
        assert(self@.take(self.height as int) =~= self@);
        out
    }

    /// The picture of the board, with borders around it: see
    /// `grid_picture`.
    pub fn picture(&self) -> (text: String)
        requires
            self.wf(),
        ensures
            text@ == grid_picture(self@),
    {
        let mut out: Vec<char> = Vec::new();
        self.push_border(&mut out, '/', '\\');
        let ghost top = out@;
        let mut r: usize = 0;
        while r < self.height
            invariant
                self.wf(),
                r <= self.height,
                out@ == top + framed_rows(self@.take(r as int)),
            decreases self.height - r,
        {
            assert(self@[r as int] == self.board@[r as int]@);
            let ghost before = out@;
            out.push('|');
            let mut c: usize = 0;
            while c < self.width
                invariant
                    self.wf(),
                    r < self.height,
                    c <= self.width,
                    self@[r as int] == self.board@[r as int]@,
                    out@ == before + seq!['|'] + self@[r as int].take(c as int),
                decreases self.width - c,
            {
                out.push(self.board[r][c]);
                assert(self@[r as int].take(c + 1) =~= self@[r as int].take(c as int).push(
                    self@[r as int][c as int],
                ));
                assert(out@ =~= before + seq!['|'] + self@[r as int].take(c + 1));
                c += 1;
            }
            out.push('|');
            out.push('\n');
            proof {
                let row = self@[r as int];
                assert(row.take(self.width as int) =~= row);
                assert(self@.take(r + 1).drop_last() =~= self@.take(r as int));
                assert(self@.take(r + 1).last() == row);
                assert(out@ =~= top + (framed_rows(self@.take(r as int)) + seq!['|'] + row + seq![
                    '|',
                    '\n',
                ]));
            }
            r += 1;
        }
        assert(self@.take(self.height as int) =~= self@);
        self.push_border(&mut out, '\\', '/');
        assert(out@ =~= grid_picture(self@));
        string_of(&out)
    }

    /// Writes a border of the picture of the board after `out`.
    fn push_border(&self, out: &mut Vec<char>, left: char, right: char)
        requires
            self.wf(),
        ensures
            final(out)@ == old(out)@ + border(self@[0].len(), left, right),
    {
        let ghost before = out@;
        out.push(left);
        let mut c: usize = 0;
        while c < self.width
            invariant
                c <= self.width,
                out@ == before + seq![left] + Seq::new(c as nat, |i: int| '-'),
            decreases self.width - c,
        {
            out.push('-');
            assert(Seq::new((c + 1) as nat, |i: int| '-') =~= Seq::new(c as nat, |i: int| '-').push(
                '-',
            ));
            assert(out@ =~= before + seq![left] + Seq::new((c + 1) as nat, |i: int| '-'));
            c += 1;
        }
        out.push(right);
        out.push('\n');
        assert(out@ =~= before + border(self.width as nat, left, right));
    }
}

/// The text of a board, read again, gives the same grid, also where
/// whitespace stands before it.
pub proof fn lemma_grid_text_round_trip(pre: Seq<char>, g: Grid, h: int, w: int)
    requires
        grid_wf(g, h, w),
        ends_open(pre),
        words(pre).len() == 0,
    ensures
        words(pre + grid_text(g)) == g,
        is_board_grid(words(pre + grid_text(g))),
{
    lemma_rows_text(pre, g, w, g.len() as int);
    assert(g.take(g.len() as int) =~= g);
    assert(words(pre) + g =~= g);
}

/// The text of the first `k` rows of a grid, written after a text that a
/// new word can follow, adds those rows to the words of that text, and a
/// new word can follow it.
proof fn lemma_rows_text(pre: Seq<char>, g: Grid, w: int, k: int)
    requires
        ends_open(pre),
        0 <= k <= g.len(),
        w > 0,
        forall|r: int| 0 <= r < g.len() ==> (#[trigger] g[r]).len() == w,
        forall|r: int, c: int| 0 <= r < g.len() && 0 <= c < w ==> is_cell(#[trigger] g[r][c]),
    ensures
        words(pre + grid_text(g.take(k))) == words(pre) + g.take(k),
        ends_open(pre + grid_text(g.take(k))),
    decreases k,
{
    let t = g.take(k);
    if k == 0 {
        assert(t =~= Seq::<Seq<char>>::empty());
        assert(pre + grid_text(t) =~= pre);
        assert(words(pre) + t =~= words(pre));
    } else {
        lemma_rows_text(pre, g, w, k - 1);
        let row = g[k - 1];
        let before = pre + grid_text(g.take(k - 1));
        assert(t.drop_last() =~= g.take(k - 1));
        assert(t.last() == row);
        assert(is_word(row)) by {
            assert forall|i: int| 0 <= i < row.len() implies !is_space(#[trigger] row[i]) by {
                assert(is_cell(g[k - 1][i]));
            }
        }
        lemma_words_word(before, row);
        lemma_words_space(before + row, '\n');
        assert((before + row).push('\n') =~= pre + grid_text(t));
        assert((words(pre) + g.take(k - 1)).push(row) =~= words(pre) + t);
    }
}

} // verus!
