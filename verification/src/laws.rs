//! General facts about the rules, each proved from the definitions in
//! [`crate::rules`].

use vstd::prelude::*;
use vstd::set_lib::{lemma_len_subset, lemma_set_disjoint_lens};
use crate::board::{initial_cell, is_initial, on_board, Board, Cell, Side};
use crate::rules::{
    along, captured_along, captures, cell_index, flipped, is_direction, is_move_list,
    is_move_result, legal_move, lemma_along, piece_count, pieces, ray_holds, within_run,
};

verus! {

/// The positions of the board.
pub open spec fn all_cells() -> Set<(int, int)> {
    Set::new(|p: (int, int)| on_board(p.0, p.1))
}

/// The first `n` positions of the board, in the order in which it is read.
spec fn cells_before(n: int) -> Set<(int, int)> {
    Set::new(|p: (int, int)| on_board(p.0, p.1) && cell_index(p.0, p.1) < n)
}

/// The first `n` positions of the board are `n` positions.
proof fn lemma_cells_before(n: int)
    requires
        0 <= n <= 64,
    ensures
        cells_before(n).finite(),
        cells_before(n).len() == n,
    decreases n,
{
    if n == 0 {
        assert(cells_before(0) =~= Set::empty());
    } else {
        lemma_cells_before(n - 1);
        let last = ((n - 1) / 8, (n - 1) % 8);
        assert(cells_before(n) =~= cells_before(n - 1).insert(last));
    }
}

/// The board has 64 positions.
pub proof fn lemma_all_cells()
    ensures
        all_cells().finite(),
        all_cells().len() == 64,
{
    lemma_cells_before(64);
    assert(all_cells() =~= cells_before(64));
}

/// Two lists of the legal moves of a side agree as far as both go.
proof fn lemma_move_lists_agree(
    board: Board,
    side: Side,
    moves: Seq<(usize, usize)>,
    others: Seq<(usize, usize)>,
    i: int,
)
    requires
        is_move_list(board, side, moves),
        is_move_list(board, side, others),
        0 <= i <= moves.len(),
        i <= others.len(),
    ensures
        forall|j: int| 0 <= j < i ==> moves[j] == others[j],
    decreases i,
{
    if i > 0 {
        lemma_move_lists_agree(board, side, moves, others, i - 1);
        let ours = moves[i - 1];
        let theirs = others[i - 1];
        assert(legal_move(board, ours.0 as int, ours.1 as int, side));
        assert(legal_move(board, theirs.0 as int, theirs.1 as int, side));
        assert(others.contains(ours));
        assert(moves.contains(theirs));
    }
}

/// A board and a side determine the list of the side's legal moves.
pub proof fn lemma_move_list_determined(
    board: Board,
    side: Side,
    moves: Seq<(usize, usize)>,
    others: Seq<(usize, usize)>,
)
    requires
        is_move_list(board, side, moves),
        is_move_list(board, side, others),
    ensures
        moves == others,
{
    let shorter = if moves.len() <= others.len() {
        moves.len() as int
    } else {
        others.len() as int
    };
    lemma_move_lists_agree(board, side, moves, others, shorter);
    if moves.len() < others.len() {
        let extra = others[shorter];
        assert(legal_move(board, extra.0 as int, extra.1 as int, side));
        assert(moves.contains(extra));
    } else if others.len() < moves.len() {
        let extra = moves[shorter];
        assert(legal_move(board, extra.0 as int, extra.1 as int, side));
        assert(others.contains(extra));
    }
    assert(moves =~= others);
}

/// The cells that a piece of `side` placed at `(row, col)` captures.
pub open spec fn flipped_cells(board: Board, row: int, col: int, side: Side) -> Set<(int, int)> {
    Set::new(|p: (int, int)| on_board(p.0, p.1) && flipped(board, row, col, side, p.0, p.1))
}

/// The two sides together never have more than 64 pieces.
pub proof fn lemma_at_most_64_pieces(board: Board)
    ensures
        pieces(board, Side::Black).finite(),
        pieces(board, Side::White).finite(),
        piece_count(board, Side::Black) + piece_count(board, Side::White) <= 64,
{
    let black = pieces(board, Side::Black);
    let white = pieces(board, Side::White);
    lemma_all_cells();
    lemma_len_subset(black, all_cells());
    lemma_len_subset(white, all_cells());
    lemma_set_disjoint_lens(black, white);
    lemma_len_subset(black + white, all_cells());
}

/// The opening position has two pieces of each side, all four on the centre
/// block of two by two cells, and it is its own mirror image in both
/// diagonals.
pub proof fn lemma_initial_position(board: Board)
    requires
        is_initial(board),
    ensures
        piece_count(board, Side::Black) == 2,
        piece_count(board, Side::White) == 2,
        forall|r: int, c: int|
            on_board(r, c) && #[trigger] board[r][c] != Cell::Empty ==> 3 <= r <= 4 && 3 <= c
                <= 4,
        forall|r: int, c: int|
            on_board(r, c) ==> #[trigger] board[r][c] == board[c][r] && board[r][c] == board[7
                - c][7 - r],
{
    assert(board[3][3] == Cell::White && board[4][4] == Cell::White);
    assert(board[3][4] == Cell::Black && board[4][3] == Cell::Black);
    assert(pieces(board, Side::Black) =~= set![(3int, 4int), (4int, 3int)]);
    assert(pieces(board, Side::White) =~= set![(3int, 3int), (4int, 4int)]);
    assert forall|r: int, c: int| on_board(r, c) implies #[trigger] board[r][c] == board[c][r]
        && board[r][c] == board[7 - c][7 - r] by {
        assert(board[c][r] == initial_cell(c, r));
        assert(board[7 - c][7 - r] == initial_cell(7 - c, 7 - r));
    }
}

/// Every captured cell held a piece of the opponent before the move.
pub proof fn lemma_flipped_was_opponent(
    board: Board,
    row: int,
    col: int,
    side: Side,
    r: int,
    c: int,
)
    requires
        flipped(board, row, col, side, r, c),
    ensures
        on_board(r, c),
        board[r][c] == side.opponent().piece(),
{
    let (dr, dc) = choose|dr: int, dc: int|
        is_direction(dr, dc) && #[trigger] captured_along(board, row, col, dr, dc, side, r, c);
    let n = choose|n: int| #[trigger]
        captures(board, row, col, dr, dc, side, n) && within_run(row, col, dr, dc, n, r, c);
    let k = choose|k: int| 1 <= k <= n && r == #[trigger] along(row, dr, k) && c == along(col, dc, k);
    assert(ray_holds(board, row, col, dr, dc, k, side.opponent().piece()));
}

/// A legal move captures at least one cell.
pub proof fn lemma_legal_move_captures(board: Board, row: int, col: int, side: Side)
    requires
        legal_move(board, row, col, side),
    ensures
        flipped_cells(board, row, col, side).finite(),
        flipped_cells(board, row, col, side).len() >= 1,
{
    let (dr, dc, n) = choose|dr: int, dc: int, n: int|
        is_direction(dr, dc) && #[trigger] captures(board, row, col, dr, dc, side, n);
    let r = along(row, dr, 1);
    let c = along(col, dc, 1);
    assert(ray_holds(board, row, col, dr, dc, 1, side.opponent().piece()));
    assert(within_run(row, col, dr, dc, n, r, c));
    assert(captured_along(board, row, col, dr, dc, side, r, c));
    assert(flipped(board, row, col, side, r, c));
    let cells = flipped_cells(board, row, col, side);
    assert(cells.contains((r, c)));
    lemma_all_cells();
    lemma_len_subset(cells, all_cells());
}

/// A move to an empty cell gives the mover the piece placed and the pieces
/// captured, and takes the captured pieces from the opponent: the mover's
/// count grows by one more than the number of captured cells, the opponent's
/// falls by that number, and the board holds exactly one piece more.
pub proof fn lemma_move_counts(before: Board, after: Board, row: int, col: int, side: Side)
    requires
        on_board(row, col),
        before[row][col] == Cell::Empty,
        is_move_result(before, after, row, col, side),
    ensures
        flipped_cells(before, row, col, side).finite(),
        piece_count(after, side) == piece_count(before, side) + 1 + flipped_cells(
            before,
            row,
            col,
            side,
        ).len(),
        piece_count(after, side.opponent()) == piece_count(before, side.opponent())
            - flipped_cells(before, row, col, side).len(),
        piece_count(after, side) + piece_count(after, side.opponent()) == piece_count(
            before,
            side,
        ) + piece_count(before, side.opponent()) + 1,
{
    let ours_before = pieces(before, side);
    let ours_after = pieces(after, side);
    let theirs_before = pieces(before, side.opponent());
    let theirs_after = pieces(after, side.opponent());
    let taken = flipped_cells(before, row, col, side);
    let placed = set![(row, col)];
    lemma_all_cells();
    lemma_len_subset(ours_before, all_cells());
    lemma_len_subset(theirs_after, all_cells());
    lemma_len_subset(taken, all_cells());
    assert forall|p: (int, int)| taken.contains(p) implies before[p.0][p.1]
        == side.opponent().piece() by {
        lemma_flipped_was_opponent(before, row, col, side, p.0, p.1);
    }
    assert(ours_after =~= ours_before + placed + taken);
    assert(theirs_before =~= theirs_after + taken);
    lemma_set_disjoint_lens(ours_before, placed);
    lemma_set_disjoint_lens(ours_before + placed, taken);
    lemma_set_disjoint_lens(theirs_after, taken);
}

/// `(r, c)` lies on the ray that leaves `(row, col)` in direction `(dr, dc)`.
pub open spec fn on_ray(row: int, col: int, dr: int, dc: int, r: int, c: int) -> bool {
    exists|k: int| k >= 1 && r == #[trigger] along(row, dr, k) && c == along(col, dc, k)
}

/// Rays that leave a cell in different directions share no cell, and a ray
/// passes through each of its cells once.
pub proof fn lemma_rays_apart(
    row: int,
    col: int,
    dr: int,
    dc: int,
    k: int,
    other_dr: int,
    other_dc: int,
    other_k: int,
)
    requires
        is_direction(dr, dc),
        is_direction(other_dr, other_dc),
        k >= 1,
        other_k >= 1,
        along(row, dr, k) == along(row, other_dr, other_k),
        along(col, dc, k) == along(col, other_dc, other_k),
    ensures
        dr == other_dr,
        dc == other_dc,
        k == other_k,
{
    lemma_along(row, dr, k);
    lemma_along(col, dc, k);
    lemma_along(row, other_dr, other_k);
    lemma_along(col, other_dc, other_k);
}

/// What a move captures in one direction does not depend on the cells of the
/// rays in the other directions: a board that differs from `board` only along
/// the ray in direction `(dr, dc)` has the same captures in every other
/// direction. So it makes no difference whether the captures of a move are
/// all decided before any piece is turned, or direction by direction.
pub proof fn lemma_directions_independent(
    board: Board,
    changed: Board,
    row: int,
    col: int,
    dr: int,
    dc: int,
    other_dr: int,
    other_dc: int,
    side: Side,
    n: int,
)
    requires
        is_direction(dr, dc),
        is_direction(other_dr, other_dc),
        dr != other_dr || dc != other_dc,
        forall|r: int, c: int|
            on_board(r, c) && #[trigger] changed[r][c] != board[r][c] ==> on_ray(
                row,
                col,
                dr,
                dc,
                r,
                c,
            ),
    ensures
        captures(changed, row, col, other_dr, other_dc, side, n) == captures(
            board,
            row,
            col,
            other_dr,
            other_dc,
            side,
            n,
        ),
{
    assert forall|j: int, cell: Cell| j >= 1 implies #[trigger] ray_holds(
        changed,
        row,
        col,
        other_dr,
        other_dc,
        j,
        cell,
    ) == ray_holds(board, row, col, other_dr, other_dc, j, cell) by {
        let r = along(row, other_dr, j);
        let c = along(col, other_dc, j);
        if on_board(r, c) && changed[r][c] != board[r][c] {
            let k = choose|k: int|
                k >= 1 && r == #[trigger] along(row, dr, k) && c == along(col, dc, k);
            lemma_rays_apart(row, col, dr, dc, k, other_dr, other_dc, j);
        }
    }
    let theirs = side.opponent().piece();
    if captures(board, row, col, other_dr, other_dc, side, n) {
        assert forall|k: int| 1 <= k <= n implies #[trigger] ray_holds(
            changed,
            row,
            col,
            other_dr,
            other_dc,
            k,
            theirs,
        ) by {
            assert(ray_holds(board, row, col, other_dr, other_dc, k, theirs));
        }
    }
    if captures(changed, row, col, other_dr, other_dc, side, n) {
        assert forall|k: int| 1 <= k <= n implies #[trigger] ray_holds(
            board,
            row,
            col,
            other_dr,
            other_dc,
            k,
            theirs,
        ) by {
            assert(ray_holds(changed, row, col, other_dr, other_dc, k, theirs));
        }
    }
}

} // verus!
