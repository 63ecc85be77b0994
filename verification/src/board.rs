//! The board: an 8×8 grid of cells, each empty or holding a piece of one of
//! the two sides.

use vstd::prelude::*;

verus! {

/// Number of rows, and of columns, of the board.
pub const SIZE: usize = 8;

/// What one position of the board holds.
#[derive(Clone, Copy, Debug, PartialEq, Eq, Structural)]
pub enum Cell {
    Empty,
    Black,
    White,
}

/// One of the two players; also the colour of that player's pieces.
#[derive(Clone, Copy, Debug, PartialEq, Eq, Structural)]
pub enum Side {
    Black,
    White,
}

/// The grid, row by row: `board[row][col]` with both indices in `0..SIZE`.
pub type Board = [[Cell; SIZE]; SIZE];

impl Side {
    pub open spec fn spec_opponent(self) -> Side {
        match self {
            Side::Black => Side::White,
            Side::White => Side::Black,
        }
    }

    /// The other side.
    #[verifier::when_used_as_spec(spec_opponent)]
    pub fn opponent(self) -> (other: Side)
        ensures
            other == self.spec_opponent(),
    {
        match self {
            Side::Black => Side::White,
            Side::White => Side::Black,
        }
    }

    pub open spec fn spec_piece(self) -> Cell {
        match self {
            Side::Black => Cell::Black,
            Side::White => Cell::White,
        }
    }

    /// A cell occupied by this side.
    #[verifier::when_used_as_spec(spec_piece)]
    pub fn piece(self) -> (cell: Cell)
        ensures
            cell == self.spec_piece(),
    {
        match self {
            Side::Black => Cell::Black,
            Side::White => Cell::White,
        }
    }

    /// The character that stands for this side in text: that of its pieces.
    pub fn glyph(self) -> (ch: char)
        ensures
            ch == self.piece().glyph(),
    {
        self.piece().glyph()
    }
}

impl Cell {
    pub open spec fn spec_glyph(self) -> char {
        match self {
            Cell::Empty => '.',
            Cell::Black => 'B',
            Cell::White => 'W',
        }
    }

    /// The character that stands for this cell in text.
    #[verifier::when_used_as_spec(spec_glyph)]
    pub fn glyph(self) -> (ch: char)
        ensures
            ch == self.spec_glyph(),
    {
        match self {
            Cell::Empty => '.',
            Cell::Black => 'B',
            Cell::White => 'W',
        }
    }
}

/// `(r, c)` names a position of the board.
pub open spec fn on_board(r: int, c: int) -> bool {
    0 <= r < SIZE && 0 <= c < SIZE
}

/// The opening position: the four centre cells occupied, White on the main
/// diagonal and Black on the other, everything else empty.
pub open spec fn initial_cell(r: int, c: int) -> Cell {
    if (r == 3 && c == 3) || (r == 4 && c == 4) {
        Cell::White
    } else if (r == 3 && c == 4) || (r == 4 && c == 3) {
        Cell::Black
    } else {
        Cell::Empty
    }
}

/// `board` is the opening position.
pub open spec fn is_initial(board: Board) -> bool {
    forall|r: int, c: int| on_board(r, c) ==> #[trigger] board[r][c] == initial_cell(r, c)
}

/// The board as a game starts.
pub fn initialize_board() -> (board: Board)
    ensures
        is_initial(board),
{
    let mut board: Board = [[Cell::Empty; SIZE]; SIZE];
    board[SIZE / 2 - 1][SIZE / 2 - 1] = Cell::White;
    board[SIZE / 2][SIZE / 2] = Cell::White;
    board[SIZE / 2 - 1][SIZE / 2] = Cell::Black;
    board[SIZE / 2][SIZE / 2 - 1] = Cell::Black;
    board
}

/// The board as text: one character for each cell, in the same place.
pub fn render(board: &Board) -> (glyphs: [[char; SIZE]; SIZE])
    ensures
        forall|r: int, c: int| on_board(r, c) ==> #[trigger] glyphs[r][c] == board[r][c].glyph(),
{
    let mut glyphs: [[char; SIZE]; SIZE] = [['.'; SIZE]; SIZE];
    let mut row: usize = 0;
    while row < SIZE
        invariant
            row <= SIZE,
            forall|r: int, c: int|
                0 <= r < row && 0 <= c < SIZE ==> #[trigger] glyphs[r][c] == board[r][c].glyph(),
        decreases SIZE - row,
    {
        let mut col: usize = 0;
        while col < SIZE
            invariant
                row < SIZE,
                col <= SIZE,
                forall|r: int, c: int|
                    0 <= r < row && 0 <= c < SIZE ==> #[trigger] glyphs[r][c]
                        == board[r][c].glyph(),
                forall|c: int|
                    0 <= c < col ==> #[trigger] glyphs[row as int][c]
                        == board[row as int][c].glyph(),
            decreases SIZE - col,
        {
            glyphs[row][col] = board[row][col].glyph();
            col += 1;
        }
        row += 1;
    }
    glyphs
}

} // verus!
