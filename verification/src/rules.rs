//! The rules: which moves are legal, what a move captures, and how many
//! pieces a side has.
//!
//! A move places a piece on an empty cell. Along each of the eight compass
//! directions from that cell it captures the unbroken run of opposing pieces
//! that starts next to the cell, provided the run ends at a piece of the
//! mover. A move is legal when it captures along at least one direction.

use vstd::prelude::*;
use crate::board::{on_board, Board, Cell, Side, SIZE};

verus! {

/// The eight compass directions as steps `(dr, dc)` along the rows and the
/// columns, in the order in which the rules try them.
pub const DIRECTIONS: [(isize, isize); 8] = [
    (-1, -1),
    (-1, 0),
    (-1, 1),
    (0, -1),
    (0, 1),
    (1, -1),
    (1, 0),
    (1, 1),
];

/// `(dr, dc)` is one of the eight compass directions: one step along the
/// rows, the columns, or both.
pub open spec fn is_direction(dr: int, dc: int) -> bool {
    -1 <= dr <= 1 && -1 <= dc <= 1 && !(dr == 0 && dc == 0)
}

/// The coordinate reached from `origin` by `k` steps of `step`.
pub open spec fn along(origin: int, step: int, k: int) -> int {
    origin + k * step
}

/// The cell `k` steps from `(row, col)` in direction `(dr, dc)` is on the
/// board and holds `cell`.
pub open spec fn ray_holds(
    board: Board,
    row: int,
    col: int,
    dr: int,
    dc: int,
    k: int,
    cell: Cell,
) -> bool {
    let r = along(row, dr, k);
    let c = along(col, dc, k);
    on_board(r, c) && board[r][c] == cell
}

/// A piece of `side` at `(row, col)` captures exactly `n` cells in direction
/// `(dr, dc)`: the next `n` cells hold the opponent, and the one after them
/// holds `side`.
pub open spec fn captures(
    board: Board,
    row: int,
    col: int,
    dr: int,
    dc: int,
    side: Side,
    n: int,
) -> bool {
    &&& n >= 1
    &&& forall|k: int|
        1 <= k <= n ==> #[trigger] ray_holds(board, row, col, dr, dc, k, side.opponent().piece())
    &&& ray_holds(board, row, col, dr, dc, n + 1, side.piece())
}

/// `side` may move to `(row, col)`: the cell is empty and a piece placed
/// there captures in some direction.
pub open spec fn legal_move(board: Board, row: int, col: int, side: Side) -> bool {
    &&& on_board(row, col)
    &&& board[row][col] == Cell::Empty
    &&& exists|dr: int, dc: int, n: int|
        is_direction(dr, dc) && #[trigger] captures(board, row, col, dr, dc, side, n)
}

/// `(r, c)` is one of the first `n` cells from `(row, col)` in direction
/// `(dr, dc)`.
pub open spec fn within_run(row: int, col: int, dr: int, dc: int, n: int, r: int, c: int) -> bool {
    exists|k: int| 1 <= k <= n && r == #[trigger] along(row, dr, k) && c == along(col, dc, k)
}

/// A piece of `side` at `(row, col)` captures the cell `(r, c)` in direction
/// `(dr, dc)`.
pub open spec fn captured_along(
    board: Board,
    row: int,
    col: int,
    dr: int,
    dc: int,
    side: Side,
    r: int,
    c: int,
) -> bool {
    exists|n: int| #[trigger]
        captures(board, row, col, dr, dc, side, n) && within_run(row, col, dr, dc, n, r, c)
}

/// A piece of `side` at `(row, col)` captures the cell `(r, c)`.
pub open spec fn flipped(board: Board, row: int, col: int, side: Side, r: int, c: int) -> bool {
    exists|dr: int, dc: int|
        is_direction(dr, dc) && #[trigger] captured_along(board, row, col, dr, dc, side, r, c)
}

/// What the cell `(r, c)` holds once `side` has moved to `(row, col)`: the
/// cell moved to and the captured cells hold `side`, the others are as they
/// were.
pub open spec fn cell_after_move(
    board: Board,
    row: int,
    col: int,
    side: Side,
    r: int,
    c: int,
) -> Cell {
    if (r == row && c == col) || flipped(board, row, col, side, r, c) {
        side.piece()
    } else {
        board[r][c]
    }
}

/// `after` is the board that the move of `side` to `(row, col)` makes of
/// `before`.
pub open spec fn is_move_result(
    before: Board,
    after: Board,
    row: int,
    col: int,
    side: Side,
) -> bool {
    forall|r: int, c: int|
        on_board(r, c) ==> #[trigger] after[r][c] == cell_after_move(
            before,
            row,
            col,
            side,
            r,
            c,
        )
}

/// The place of the cell `(r, c)` in the order in which the board is read:
/// row by row, and along each row by column.
pub open spec fn cell_index(r: int, c: int) -> int {
    r * 8 + c
}

/// `moves` lists the legal moves of `side` in the order in which the board is
/// read: nothing but legal moves, every legal move, and each before those
/// that come later on the board.
pub open spec fn is_move_list(board: Board, side: Side, moves: Seq<(usize, usize)>) -> bool {
    &&& forall|i: int|
        0 <= i < moves.len() ==> legal_move(
            board,
            (#[trigger] moves[i]).0 as int,
            moves[i].1 as int,
            side,
        )
    &&& forall|r: int, c: int| #[trigger]
        legal_move(board, r, c, side) ==> moves.contains((r as usize, c as usize))
    &&& forall|i: int, j: int|
        0 <= i < j < moves.len() ==> cell_index(
            (#[trigger] moves[i]).0 as int,
            moves[i].1 as int,
        ) < cell_index((#[trigger] moves[j]).0 as int, moves[j].1 as int)
}

/// The positions at which `side` has a piece.
pub open spec fn pieces(board: Board, side: Side) -> Set<(int, int)> {
    Set::new(|p: (int, int)| on_board(p.0, p.1) && board[p.0][p.1] == side.piece())
}

/// How many pieces `side` has on the board.
pub open spec fn piece_count(board: Board, side: Side) -> nat {
    pieces(board, side).len()
}

/// `k` steps of a compass direction move a coordinate by `k`, by nothing or
/// by `-k`, and one step more adds the direction once more.
pub proof fn lemma_along(origin: int, step: int, k: int)
    requires
        -1 <= step <= 1,
    ensures
        along(origin, step, k) == (if step == 1 {
            origin + k
        } else if step == 0 {
            origin
        } else {
            origin - k
        }),
        along(origin, step, k + 1) == along(origin, step, k) + step,
{
    assert(k * step == (if step == 1 {
        k
    } else if step == 0 {
        0
    } else {
        -k
    })) by (nonlinear_arith)
        requires
            -1 <= step <= 1,
    ;
    assert((k + 1) * step == k * step + step) by (nonlinear_arith);
}

/// `DIRECTIONS` lists the compass directions, all of them and nothing else.
pub proof fn lemma_directions()
    ensures
        forall|i: int|
            0 <= i < 8 ==> is_direction(
                (#[trigger] DIRECTIONS[i]).0 as int,
                DIRECTIONS[i].1 as int,
            ),
        forall|dr: int, dc: int| #[trigger]
            is_direction(dr, dc) ==> exists|i: int|
                0 <= i < 8 && (#[trigger] DIRECTIONS[i]).0 == dr && DIRECTIONS[i].1 == dc,
{
    assert(DIRECTIONS[0] == (-1isize, -1isize));
    assert(DIRECTIONS[1] == (-1isize, 0isize));
    assert(DIRECTIONS[2] == (-1isize, 1isize));
    assert(DIRECTIONS[3] == (0isize, -1isize));
    assert(DIRECTIONS[4] == (0isize, 1isize));
    assert(DIRECTIONS[5] == (1isize, -1isize));
    assert(DIRECTIONS[6] == (1isize, 0isize));
    assert(DIRECTIONS[7] == (1isize, 1isize));
}

/// Along one direction a move captures a run of one length only.
pub proof fn lemma_captures_unique(
    board: Board,
    row: int,
    col: int,
    dr: int,
    dc: int,
    side: Side,
    n: int,
    m: int,
)
    requires
        captures(board, row, col, dr, dc, side, n),
        captures(board, row, col, dr, dc, side, m),
    ensures
        n == m,
{
    let theirs = side.opponent().piece();
    if n < m {
        assert(ray_holds(board, row, col, dr, dc, n + 1, theirs));
    } else if m < n {
        assert(ray_holds(board, row, col, dr, dc, m + 1, theirs));
    }
}

/// A run of opposing pieces captures nothing where it ends, `stop` steps
/// away, at the edge of the board or at an empty cell, or where a piece of
/// the mover stands right next to the origin.
proof fn lemma_blocked(board: Board, row: int, col: int, dr: int, dc: int, side: Side, stop: int)
    requires
        stop >= 1,
        forall|k: int|
            1 <= k < stop ==> #[trigger] ray_holds(
                board,
                row,
                col,
                dr,
                dc,
                k,
                side.opponent().piece(),
            ),
        !ray_holds(board, row, col, dr, dc, stop, side.opponent().piece()),
        stop == 1 || !ray_holds(board, row, col, dr, dc, stop, side.piece()),
    ensures
        forall|m: int| !captures(board, row, col, dr, dc, side, m),
{
    let theirs = side.opponent().piece();
    assert forall|m: int| !captures(board, row, col, dr, dc, side, m) by {
        if captures(board, row, col, dr, dc, side, m) {
            if m + 1 < stop {
                assert(ray_holds(board, row, col, dr, dc, m + 1, theirs));
            } else if m + 1 > stop {
                assert(ray_holds(board, row, col, dr, dc, stop, theirs));
            }
        }
    }
}

/// The number of cells that a piece of `side` placed at `(row, col)` captures
/// in direction `(dr, dc)`; 0 where it captures none.
pub fn captured_run(
    board: &Board,
    row: usize,
    col: usize,
    dr: isize,
    dc: isize,
    side: Side,
) -> (n: usize)
    requires
        row < SIZE,
        col < SIZE,
        is_direction(dr as int, dc as int),
    ensures
        n > 0 ==> captures(*board, row as int, col as int, dr as int, dc as int, side, n as int),
        n == 0 ==> forall|m: int|
            !captures(*board, row as int, col as int, dr as int, dc as int, side, m),
        n < SIZE - 1,
{
    let ours = side.piece();
    let theirs = side.opponent().piece();
    let mut r: isize = row as isize + dr;
    let mut c: isize = col as isize + dc;
    let mut n: usize = 0;
    proof {
        lemma_along(row as int, dr as int, 1);
        lemma_along(col as int, dc as int, 1);
    }
    while 0 <= r && r < SIZE as isize && 0 <= c && c < SIZE as isize
        invariant
            row < SIZE,
            col < SIZE,
            is_direction(dr as int, dc as int),
            ours == side.piece(),
            theirs == side.opponent().piece(),
            n < SIZE,
            r == along(row as int, dr as int, n + 1),
            c == along(col as int, dc as int, n + 1),
            forall|k: int|
                1 <= k <= n ==> #[trigger] ray_holds(
                    *board,
                    row as int,
                    col as int,
                    dr as int,
                    dc as int,
                    k,
                    theirs,
                ),
        decreases SIZE - n,
    {
        proof {
            lemma_along(row as int, dr as int, n + 1);
            lemma_along(col as int, dc as int, n + 1);
        }
        let cell = board[r as usize][c as usize];
        if cell == theirs {
            n += 1;
            r += dr;
            c += dc;
        } else if cell == ours && n > 0 {
            return n;
        } else {
            proof {
                lemma_blocked(*board, row as int, col as int, dr as int, dc as int, side, n + 1);
            }
            return 0;
        }
    }
    proof {
        lemma_blocked(*board, row as int, col as int, dr as int, dc as int, side, n + 1);
    }
    0
}

/// Whether `side` may move to `(row, col)`.
pub fn is_valid_move(board: &Board, row: usize, col: usize, side: Side) -> (valid: bool)
    requires
        row < SIZE,
        col < SIZE,
    ensures
        valid == legal_move(*board, row as int, col as int, side),
{
    if board[row][col] != Cell::Empty {
        return false;
    }
    let mut d: usize = 0;
    while d < 8
        invariant
            row < SIZE,
            col < SIZE,
            d <= 8,
            board[row as int][col as int] == Cell::Empty,
            forall|i: int, n: int|
                0 <= i < d ==> !#[trigger] captures(
                    *board,
                    row as int,
                    col as int,
                    DIRECTIONS[i].0 as int,
                    DIRECTIONS[i].1 as int,
                    side,
                    n,
                ),
        decreases 8 - d,
    {
        proof {
            lemma_directions();
        }
        let (dr, dc) = DIRECTIONS[d];
        if captured_run(board, row, col, dr, dc, side) > 0 {
            return true;
        }
        d += 1;
    }
    proof {
        lemma_directions();
        assert forall|dr: int, dc: int, n: int| is_direction(dr, dc) implies !captures(
            *board,
            row as int,
            col as int,
            dr,
            dc,
            side,
            n,
        ) by {
            let i = choose|i: int|
                0 <= i < 8 && (#[trigger] DIRECTIONS[i]).0 == dr && DIRECTIONS[i].1 == dc;
            assert(!captures(
                *board,
                row as int,
                col as int,
                DIRECTIONS[i].0 as int,
                DIRECTIONS[i].1 as int,
                side,
                n,
            ));
        }
    }
    false
}

/// A piece of `side` at `(row, col)` captures the cell `(r, c)` in one of the
/// first `d` directions of `DIRECTIONS`.
spec fn flipped_by_first(
    board: Board,
    row: int,
    col: int,
    side: Side,
    d: int,
    r: int,
    c: int,
) -> bool {
    exists|i: int|
        0 <= i < d && captured_along(
            board,
            row,
            col,
            (#[trigger] DIRECTIONS[i]).0 as int,
            DIRECTIONS[i].1 as int,
            side,
            r,
            c,
        )
}

/// Where `n` is the length of the run captured in a direction (0 for none),
/// the cells captured in that direction are the first `n` cells of the ray.
proof fn lemma_captured_cells(
    board: Board,
    row: int,
    col: int,
    dr: int,
    dc: int,
    side: Side,
    n: int,
    r: int,
    c: int,
)
    requires
        n >= 0,
        n > 0 ==> captures(board, row, col, dr, dc, side, n),
        n == 0 ==> forall|m: int| !captures(board, row, col, dr, dc, side, m),
    ensures
        captured_along(board, row, col, dr, dc, side, r, c) <==> within_run(
            row,
            col,
            dr,
            dc,
            n,
            r,
            c,
        ),
{
    if captured_along(board, row, col, dr, dc, side, r, c) {
        let m = choose|m: int| #[trigger]
            captures(board, row, col, dr, dc, side, m) && within_run(row, col, dr, dc, m, r, c);
        lemma_captures_unique(board, row, col, dr, dc, side, n, m);
    }
}

/// Moves `side` to `(row, col)`: places its piece there and turns every
/// captured piece into one of `side`. What is captured is decided, for all
/// directions, on the board as it stood before the move.
pub fn apply_move(board: &mut Board, row: usize, col: usize, side: Side)
    requires
        row < SIZE,
        col < SIZE,
    ensures
        is_move_result(*old(board), *final(board), row as int, col as int, side),
{
    let before: Board = *board;
    let ours = side.piece();
    board[row][col] = ours;
    let mut d: usize = 0;
    while d < 8
        invariant
            row < SIZE,
            col < SIZE,
            d <= 8,
            ours == side.piece(),
            forall|r: int, c: int|
                on_board(r, c) ==> #[trigger] board[r][c] == (if (r == row && c == col)
                    || flipped_by_first(before, row as int, col as int, side, d as int, r, c) {
                    ours
                } else {
                    before[r][c]
                }),
        decreases 8 - d,
    {
        proof {
            lemma_directions();
        }
        let (dr, dc) = DIRECTIONS[d];
        let n = captured_run(&before, row, col, dr, dc, side);
        let mut k: usize = 0;
        let mut r: isize = row as isize;
        let mut c: isize = col as isize;
        proof {
            lemma_along(row as int, dr as int, 0);
            lemma_along(col as int, dc as int, 0);
        }
        while k < n
            invariant
                row < SIZE,
                col < SIZE,
                d < 8,
                k <= n,
                ours == side.piece(),
                dr == DIRECTIONS[d as int].0,
                dc == DIRECTIONS[d as int].1,
                is_direction(dr as int, dc as int),
                n > 0 ==> captures(
                    before,
                    row as int,
                    col as int,
                    dr as int,
                    dc as int,
                    side,
                    n as int,
                ),
                r == along(row as int, dr as int, k as int),
                c == along(col as int, dc as int, k as int),
                forall|x: int, y: int|
                    on_board(x, y) ==> #[trigger] board[x][y] == (if (x == row && y == col)
                        || flipped_by_first(before, row as int, col as int, side, d as int, x, y)
                        || within_run(
                        row as int,
                        col as int,
                        dr as int,
                        dc as int,
                        k as int,
                        x,
                        y,
                    ) {
                        ours
                    } else {
                        before[x][y]
                    }),
            decreases n - k,
        {
            proof {
                lemma_along(row as int, dr as int, k as int);
                lemma_along(col as int, dc as int, k as int);
                assert(ray_holds(
                    before,
                    row as int,
                    col as int,
                    dr as int,
                    dc as int,
                    k + 1,
                    side.opponent().piece(),
                ));
            }
            k += 1;
            r += dr;
            c += dc;
            board[r as usize][c as usize] = ours;
        }
        proof {
            assert forall|x: int, y: int| on_board(x, y) implies #[trigger] board[x][y] == (if (x
                == row && y == col) || flipped_by_first(
                before,
                row as int,
                col as int,
                side,
                d + 1,
                x,
                y,
            ) {
                ours
            } else {
                before[x][y]
            }) by {
                lemma_captured_cells(
                    before,
                    row as int,
                    col as int,
                    dr as int,
                    dc as int,
                    side,
                    n as int,
                    x,
                    y,
                );
            }
        }
        d += 1;
    }
    proof {
        lemma_directions();
    }
}

/// The legal moves of `side`, in the order in which the board is read: every
/// legal move, each once, and nothing else.
pub fn find_moves(board: &Board, side: Side) -> (moves: Vec<(usize, usize)>)
    ensures
        is_move_list(*board, side, moves@),
{
    let mut moves: Vec<(usize, usize)> = Vec::new();
    let mut row: usize = 0;
    while row < SIZE
        invariant
            row <= SIZE,
            forall|i: int|
                0 <= i < moves.len() ==> legal_move(
                    *board,
                    (#[trigger] moves[i]).0 as int,
                    moves[i].1 as int,
                    side,
                ) && moves[i].0 < row,
            forall|r: int, c: int| #[trigger]
                legal_move(*board, r, c, side) && r < row ==> moves@.contains(
                    (r as usize, c as usize),
                ),
            forall|i: int, j: int|
                0 <= i < j < moves.len() ==> cell_index(
                    (#[trigger] moves[i]).0 as int,
                    moves[i].1 as int,
                ) < cell_index((#[trigger] moves[j]).0 as int, moves[j].1 as int),
        decreases SIZE - row,
    {
        let mut col: usize = 0;
        while col < SIZE
            invariant
                row < SIZE,
                col <= SIZE,
                forall|i: int|
                    0 <= i < moves.len() ==> legal_move(
                        *board,
                        (#[trigger] moves[i]).0 as int,
                        moves[i].1 as int,
                        side,
                    ) && cell_index(moves[i].0 as int, moves[i].1 as int) < cell_index(
                        row as int,
                        col as int,
                    ),
                forall|r: int, c: int| #[trigger]
                    legal_move(*board, r, c, side) && cell_index(r, c) < cell_index(
                        row as int,
                        col as int,
                    ) ==> moves@.contains((r as usize, c as usize)),
                forall|i: int, j: int|
                    0 <= i < j < moves.len() ==> cell_index(
                        (#[trigger] moves[i]).0 as int,
                        moves[i].1 as int,
                    ) < cell_index((#[trigger] moves[j]).0 as int, moves[j].1 as int),
            decreases SIZE - col,
        {
            if is_valid_move(board, row, col, side) {
                let ghost earlier = moves@;
                moves.push((row, col));
                assert forall|r: int, c: int| #[trigger]
                    legal_move(*board, r, c, side) && cell_index(r, c) < cell_index(
                        row as int,
                        col + 1,
                    ) implies moves@.contains((r as usize, c as usize)) by {
                    if cell_index(r, c) < cell_index(row as int, col as int) {
                        let i = choose|i: int|
                            0 <= i < earlier.len() && earlier[i] == (r as usize, c as usize);
                        assert(moves@[i] == (r as usize, c as usize));
                    } else {
                        assert(moves@[earlier.len() as int] == (r as usize, c as usize));
                    }
                }
            }
            col += 1;
        }
        row += 1;
    }
    moves
}

/// The positions at which `side` has a piece, among the first `n` cells of
/// the board.
spec fn pieces_before(board: Board, side: Side, n: int) -> Set<(int, int)> {
    Set::new(
        |p: (int, int)|
            on_board(p.0, p.1) && cell_index(p.0, p.1) < n && board[p.0][p.1] == side.piece(),
    )
}

/// Going from the first `n` cells to the first `n + 1`, the cell `(r, c)`
/// with index `n` joins the pieces of `side` where it holds one.
proof fn lemma_pieces_step(board: Board, side: Side, r: int, c: int)
    requires
        on_board(r, c),
    ensures
        !pieces_before(board, side, cell_index(r, c)).contains((r, c)),
        pieces_before(board, side, cell_index(r, c) + 1) == (if board[r][c] == side.piece() {
            pieces_before(board, side, cell_index(r, c)).insert((r, c))
        } else {
            pieces_before(board, side, cell_index(r, c))
        }),
{
    let n = cell_index(r, c);
    let grown = pieces_before(board, side, n + 1);
    let expected = if board[r][c] == side.piece() {
        pieces_before(board, side, n).insert((r, c))
    } else {
        pieces_before(board, side, n)
    };
    assert forall|p: (int, int)| grown.contains(p) <==> expected.contains(p) by {
        if on_board(p.0, p.1) && cell_index(p.0, p.1) == n {
            assert(p.0 == r && p.1 == c);
        }
    }
    assert(grown =~= expected);
}

/// How many pieces `side` has on the board.
pub fn count_pieces(board: &Board, side: Side) -> (count: usize)
    ensures
        count == piece_count(*board, side),
{
    let piece = side.piece();
    let mut count: usize = 0;
    let mut row: usize = 0;
    assert(pieces_before(*board, side, 0) =~= Set::empty());
    while row < SIZE
        invariant
            row <= SIZE,
            piece == side.piece(),
            count <= cell_index(row as int, 0),
            pieces_before(*board, side, cell_index(row as int, 0)).finite(),
            count == pieces_before(*board, side, cell_index(row as int, 0)).len(),
        decreases SIZE - row,
    {
        let mut col: usize = 0;
        while col < SIZE
            invariant
                row < SIZE,
                col <= SIZE,
                piece == side.piece(),
                count <= cell_index(row as int, col as int),
                pieces_before(*board, side, cell_index(row as int, col as int)).finite(),
                count == pieces_before(*board, side, cell_index(row as int, col as int)).len(),
            decreases SIZE - col,
        {
            proof {
                lemma_pieces_step(*board, side, row as int, col as int);
            }
            if board[row][col] == piece {
                count += 1;
            }
            col += 1;
        }
        row += 1;
    }
    assert(pieces_before(*board, side, 64) =~= pieces(*board, side));
    count
}

} // verus!
