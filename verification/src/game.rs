//! The course of a game: the two sides move in turn, each always playing the
//! first of its legal moves; a side with no legal move passes; the game is
//! over as soon as neither side can move.

use vstd::prelude::*;
use crate::board::{initialize_board, is_initial, Board, Side};
use crate::laws::{lemma_at_most_64_pieces, lemma_move_counts};
use crate::rules::{
    apply_move, cell_index, count_pieces, find_moves, is_move_result, legal_move, piece_count,
};

verus! {

/// Whether a game is still going on.
#[derive(Clone, Copy, Debug, PartialEq, Eq, Structural)]
pub enum Phase {
    Playing,
    GameOver,
}

/// How a game ended.
#[derive(Clone, Copy, Debug, PartialEq, Eq, Structural)]
pub enum Outcome {
    BlackWins,
    WhiteWins,
    Draw,
}

/// What happened in one turn.
#[derive(Clone, Copy, Debug, PartialEq, Eq, Structural)]
pub enum Turn {
    /// `side` moved to `(row, col)`.
    Played { side: Side, row: usize, col: usize },
    /// `side` had no legal move and passed; the opponent has one.
    Passed { side: Side },
    /// `side` had no legal move, and neither had the opponent: the game ended
    /// with `black` and `white` pieces on the board.
    Finished { side: Side, black: usize, white: usize, outcome: Outcome },
}

/// A game: the board, the side whose turn it is, and whether the game is
/// still going on.
#[derive(Clone, Copy, Debug, PartialEq, Eq)]
pub struct Game {
    pub board: Board,
    pub to_move: Side,
    pub phase: Phase,
}

/// `side` has a legal move.
pub open spec fn has_move(board: Board, side: Side) -> bool {
    exists|r: int, c: int| legal_move(board, r, c, side)
}

/// `(row, col)` is the first legal move of `side` in the order in which the
/// board is read.
pub open spec fn is_first_move(board: Board, side: Side, row: int, col: int) -> bool {
    &&& legal_move(board, row, col, side)
    &&& forall|r: int, c: int| #[trigger]
        legal_move(board, r, c, side) ==> cell_index(row, col) <= cell_index(r, c)
}

/// The side with strictly more pieces wins; equal counts are a draw.
pub open spec fn outcome_for(black: int, white: int) -> Outcome {
    if black > white {
        Outcome::BlackWins
    } else if white > black {
        Outcome::WhiteWins
    } else {
        Outcome::Draw
    }
}

/// The result of a game that ended with `black` and `white` pieces.
pub fn outcome(black: usize, white: usize) -> (result: Outcome)
    ensures
        result == outcome_for(black as int, white as int),
{
    if black > white {
        Outcome::BlackWins
    } else if white > black {
        Outcome::WhiteWins
    } else {
        Outcome::Draw
    }
}

/// `turn` is the turn taken in the game `before`, and `after` is the game it
/// leaves. The side to move plays its first legal move if it has one. If it
/// has none it passes, the board stays as it is, and the game goes on only
/// if the opponent has a move. Either way the turn goes to the opponent.
pub open spec fn is_turn(before: Game, turn: Turn, after: Game) -> bool {
    &&& before.phase == Phase::Playing
    &&& after.to_move == before.to_move.opponent()
    &&& match turn {
        Turn::Played { side, row, col } => {
            &&& side == before.to_move
            &&& is_first_move(before.board, side, row as int, col as int)
            &&& is_move_result(before.board, after.board, row as int, col as int, side)
            &&& after.phase == Phase::Playing
        },
        Turn::Passed { side } => {
            &&& side == before.to_move
            &&& !has_move(before.board, side)
            &&& has_move(before.board, side.opponent())
            &&& after.board == before.board
            &&& after.phase == Phase::Playing
        },
        Turn::Finished { side, black, white, outcome } => {
            &&& side == before.to_move
            &&& !has_move(before.board, side)
            &&& !has_move(before.board, side.opponent())
            &&& after.board == before.board
            &&& after.phase == Phase::GameOver
            &&& black == piece_count(before.board, Side::Black)
            &&& white == piece_count(before.board, Side::White)
            &&& outcome == outcome_for(black as int, white as int)
        },
    }
}

/// `states` are the games that `turns` pass through: each turn leads from one
/// of them to the next.
pub open spec fn is_course(states: Seq<Game>, turns: Seq<Turn>) -> bool {
    &&& states.len() == turns.len() + 1
    &&& forall|i: int|
        0 <= i < turns.len() ==> is_turn(states[i], #[trigger] turns[i], states[i + 1])
}

/// `turns` are the turns taken, one after the other, from the game `start`,
/// and `end` is the game they leave.
pub open spec fn is_play(start: Game, turns: Seq<Turn>, end: Game) -> bool {
    exists|states: Seq<Game>| #[trigger]
        is_course(states, turns) && states.first() == start && states.last() == end
}

/// A bound on the number of turns that a game can still take: 0 once it is
/// over; else one for the turn that ends it, two for each empty cell, and one
/// more where the side to move has to pass.
pub open spec fn turns_left(game: Game) -> int {
    if game.phase == Phase::GameOver {
        0
    } else {
        1 + 2 * (64 - piece_count(game.board, Side::Black) - piece_count(
            game.board,
            Side::White,
        )) + (if has_move(game.board, game.to_move) {
            0int
        } else {
            1int
        })
    }
}

/// Every turn brings the end of the game nearer: a move fills a cell, and
/// after a pass the opponent has a move. So no game goes on for ever.
pub proof fn lemma_turn_progress(before: Game, turn: Turn, after: Game)
    requires
        is_turn(before, turn, after),
    ensures
        0 <= turns_left(after) < turns_left(before),
{
    lemma_at_most_64_pieces(before.board);
    lemma_at_most_64_pieces(after.board);
    match turn {
        Turn::Played { side, row, col } => {
            lemma_move_counts(before.board, after.board, row as int, col as int, side);
            assert(has_move(before.board, side));
        },
        Turn::Passed { side } => {},
        Turn::Finished { side, black, white, outcome } => {},
    }
}

/// A game determines its next turn and what that turn leaves.
pub proof fn lemma_turn_determined(
    before: Game,
    turn: Turn,
    after: Game,
    other_turn: Turn,
    other_after: Game,
)
    requires
        is_turn(before, turn, after),
        is_turn(before, other_turn, other_after),
    ensures
        turn == other_turn,
        after == other_after,
{
    let side = before.to_move;
    if let Turn::Played { side: _, row, col } = turn {
        assert(has_move(before.board, side)) by {
            assert(legal_move(before.board, row as int, col as int, side));
        }
    }
    if let Turn::Played { side: _, row, col } = other_turn {
        assert(has_move(before.board, side)) by {
            assert(legal_move(before.board, row as int, col as int, side));
        }
    }
    assert forall|r: int| 0 <= r < 8 implies after.board[r] == other_after.board[r] by {
        assert(after.board[r] =~= other_after.board[r]);
    }
    assert(after.board =~= other_after.board);
}

/// Two courses from the same game agree as far as both go.
proof fn lemma_courses_agree(
    states: Seq<Game>,
    turns: Seq<Turn>,
    other_states: Seq<Game>,
    other_turns: Seq<Turn>,
    i: int,
)
    requires
        is_course(states, turns),
        is_course(other_states, other_turns),
        states.first() == other_states.first(),
        0 <= i <= turns.len(),
        i <= other_turns.len(),
    ensures
        states[i] == other_states[i],
        forall|j: int| 0 <= j < i ==> turns[j] == other_turns[j],
    decreases i,
{
    if i > 0 {
        lemma_courses_agree(states, turns, other_states, other_turns, i - 1);
        lemma_turn_determined(
            states[i - 1],
            turns[i - 1],
            states[i],
            other_turns[i - 1],
            other_states[i],
        );
    }
}

/// A game determines the turns that bring it to its end, and the game they
/// leave.
pub proof fn lemma_play_determined(
    start: Game,
    turns: Seq<Turn>,
    end: Game,
    other_turns: Seq<Turn>,
    other_end: Game,
)
    requires
        is_play(start, turns, end),
        is_play(start, other_turns, other_end),
        end.phase == Phase::GameOver,
        other_end.phase == Phase::GameOver,
    ensures
        turns == other_turns,
        end == other_end,
{
    let states = choose|states: Seq<Game>| #[trigger]
        is_course(states, turns) && states.first() == start && states.last() == end;
    let other_states = choose|states: Seq<Game>| #[trigger]
        is_course(states, other_turns) && states.first() == start && states.last() == other_end;
    let shorter = if turns.len() <= other_turns.len() {
        turns.len() as int
    } else {
        other_turns.len() as int
    };
    lemma_courses_agree(states, turns, other_states, other_turns, shorter);
    if turns.len() < other_turns.len() {
        assert(is_turn(other_states[shorter], other_turns[shorter], other_states[shorter + 1]));
    } else if other_turns.len() < turns.len() {
        assert(is_turn(states[shorter], turns[shorter], states[shorter + 1]));
    }
    assert(turns =~= other_turns);
}

impl Game {
    /// A game at its start: the opening position, Black to move.
    pub fn new() -> (game: Game)
        ensures
            is_initial(game.board),
            game.to_move == Side::Black,
            game.phase == Phase::Playing,
    {
        Game { board: initialize_board(), to_move: Side::Black, phase: Phase::Playing }
    }

    /// Takes one turn of a game that is still going on.
    pub fn take_turn(&mut self) -> (turn: Turn)
        requires
            old(self).phase == Phase::Playing,
        ensures
            is_turn(*old(self), turn, *final(self)),
    {
        let side = self.to_move;
        let moves = find_moves(&self.board, side);
        if moves.len() == 0 {
            assert(!has_move(self.board, side)) by {
                if has_move(self.board, side) {
                    let (r, c) = choose|r: int, c: int| legal_move(self.board, r, c, side);
                    assert(moves@.contains((r as usize, c as usize)));
                }
            }
            self.to_move = side.opponent();
            let replies = find_moves(&self.board, self.to_move);
            if replies.len() == 0 {
                assert(!has_move(self.board, side.opponent())) by {
                    if has_move(self.board, side.opponent()) {
                        let (r, c) = choose|r: int, c: int|
                            legal_move(self.board, r, c, side.opponent());
                        assert(replies@.contains((r as usize, c as usize)));
                    }
                }
                self.phase = Phase::GameOver;
                let black = count_pieces(&self.board, Side::Black);
                let white = count_pieces(&self.board, Side::White);
                return Turn::Finished { side, black, white, outcome: outcome(black, white) };
            }
            assert(legal_move(
                self.board,
                replies[0].0 as int,
                replies[0].1 as int,
                side.opponent(),
            ));
            return Turn::Passed { side };
        }
        let (row, col) = moves[0];
        assert forall|r: int, c: int| #[trigger]
            legal_move(self.board, r, c, side) implies cell_index(row as int, col as int)
            <= cell_index(r, c) by {
            let j = choose|j: int| 0 <= j < moves.len() && moves[j] == (r as usize, c as usize);
            if 0 < j {
                assert(cell_index(moves[0].0 as int, moves[0].1 as int) < cell_index(
                    moves[j].0 as int,
                    moves[j].1 as int,
                ));
            }
        }
        apply_move(&mut self.board, row, col, side);
        self.to_move = side.opponent();
        Turn::Played { side, row, col }
    }

    /// Plays the game to its end and returns the turns taken, the last of
    /// which ends the game. A game that is over already takes no turn.
    pub fn play(&mut self) -> (turns: Vec<Turn>)
        ensures
            is_play(*old(self), turns@, *final(self)),
            final(self).phase == Phase::GameOver,
            turns.len() <= turns_left(*old(self)),
            old(self).phase == Phase::Playing ==> turns.len() >= 1 && turns@.last() is Finished,
    {
        let mut turns: Vec<Turn> = Vec::new();
        let ghost mut states: Seq<Game> = seq![*self];
        while self.phase == Phase::Playing
            invariant
                is_course(states, turns@),
                states.first() == *old(self),
                states.last() == *self,
                turns.len() + turns_left(*self) <= turns_left(*old(self)),
                old(self).phase == Phase::Playing ==> self.phase == Phase::Playing || (turns.len()
                    >= 1 && turns@.last() is Finished),
            decreases turns_left(*self),
        {
            let ghost before = *self;
            let turn = self.take_turn();
            turns.push(turn);
            proof {
                lemma_turn_progress(before, turn, *self);
                states = states.push(*self);
            }
        }
        turns
    }
}

} // verus!
