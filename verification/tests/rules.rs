use othello::{
    apply_move, captured_run, count_pieces, find_moves, initialize_board, is_valid_move, render,
    Board, Cell, Side, DIRECTIONS, SIZE,
};

/// Reads a board from eight lines of eight glyphs.
fn board_from(lines: [&str; 8]) -> Board {
    let mut board: Board = [[Cell::Empty; SIZE]; SIZE];
    for (r, line) in lines.iter().enumerate() {
        assert_eq!(line.chars().count(), SIZE);
        for (c, ch) in line.chars().enumerate() {
            board[r][c] = match ch {
                '.' => Cell::Empty,
                'B' => Cell::Black,
                'W' => Cell::White,
                _ => panic!("no such glyph"),
            };
        }
    }
    board
}

fn texts(board: &Board) -> Vec<String> {
    render(board).iter().map(|row| row.iter().collect::<String>()).collect()
}

#[test]
fn opening_position_has_four_centre_pieces() {
    let board = initialize_board();
    for r in 0..SIZE {
        for c in 0..SIZE {
            let expected = match (r, c) {
                (3, 3) | (4, 4) => Cell::White,
                (3, 4) | (4, 3) => Cell::Black,
                _ => Cell::Empty,
            };
            assert_eq!(board[r][c], expected, "cell ({r}, {c})");
        }
    }
    assert_eq!(count_pieces(&board, Side::Black), 2);
    assert_eq!(count_pieces(&board, Side::White), 2);
}

#[test]
fn opening_position_is_symmetric_about_both_diagonals() {
    let board = initialize_board();
    for r in 0..SIZE {
        for c in 0..SIZE {
            assert_eq!(board[r][c], board[c][r]);
            assert_eq!(board[r][c], board[SIZE - 1 - c][SIZE - 1 - r]);
        }
    }
}

#[test]
fn opening_moves_of_black() {
    let board = initialize_board();
    assert_eq!(find_moves(&board, Side::Black), vec![(2, 3), (3, 2), (4, 5), (5, 4)]);
}

#[test]
fn opening_moves_of_white() {
    let board = initialize_board();
    assert_eq!(find_moves(&board, Side::White), vec![(2, 4), (3, 5), (4, 2), (5, 3)]);
}

#[test]
fn first_move_places_a_piece_and_flips_one() {
    let mut board = initialize_board();
    apply_move(&mut board, 2, 3, Side::Black);
    assert_eq!(board[2][3], Cell::Black);
    assert_eq!(board[3][3], Cell::Black);
    assert_eq!(count_pieces(&board, Side::Black), 4);
    assert_eq!(count_pieces(&board, Side::White), 1);
    assert_eq!(
        board,
        board_from([
            "........",
            "........",
            "...B....",
            "...BB...",
            "...BW...",
            "........",
            "........",
            "........",
        ])
    );
    assert_eq!(find_moves(&board, Side::White), vec![(2, 2), (2, 4), (4, 2)]);
}

#[test]
fn find_moves_agrees_with_is_valid_move_on_every_cell() {
    let mut board = initialize_board();
    apply_move(&mut board, 2, 3, Side::Black);
    apply_move(&mut board, 2, 2, Side::White);
    for side in [Side::Black, Side::White] {
        let moves = find_moves(&board, side);
        let mut expected = Vec::new();
        for r in 0..SIZE {
            for c in 0..SIZE {
                if is_valid_move(&board, r, c, side) {
                    expected.push((r, c));
                }
            }
        }
        assert_eq!(moves, expected);
        assert!(!moves.is_empty());
    }
}

#[test]
fn occupied_cell_is_no_move() {
    let board = board_from([
        "........",
        "........",
        "........",
        "..BWB...",
        "........",
        "........",
        "........",
        "........",
    ]);
    assert!(!is_valid_move(&board, 3, 3, Side::Black));
    assert!(!is_valid_move(&board, 3, 2, Side::Black));
    assert!(!is_valid_move(&board, 3, 4, Side::White));
}

#[test]
fn cell_that_captures_nothing_is_no_move() {
    let board = initialize_board();
    assert!(!is_valid_move(&board, 0, 0, Side::Black));
    assert!(!is_valid_move(&board, 2, 2, Side::Black));
    assert!(!is_valid_move(&board, 2, 4, Side::Black));
    assert!(!is_valid_move(&board, 2, 3, Side::White));
}

#[test]
fn own_piece_next_to_the_cell_captures_nothing() {
    let board = board_from([
        "........",
        "........",
        "........",
        ".BBW....",
        "........",
        "........",
        "........",
        "........",
    ]);
    assert!(!is_valid_move(&board, 3, 0, Side::Black));
    assert_eq!(captured_run(&board, 3, 0, 0, 1, Side::Black), 0);
    assert!(is_valid_move(&board, 3, 4, Side::Black));
    assert!(is_valid_move(&board, 3, 0, Side::White));
    assert_eq!(captured_run(&board, 3, 0, 0, 1, Side::White), 2);
}

#[test]
fn run_that_reaches_the_edge_is_not_captured() {
    let board = board_from([
        "........",
        "........",
        "........",
        "......WW",
        "........",
        "........",
        "........",
        "........",
    ]);
    assert!(!is_valid_move(&board, 3, 5, Side::Black));
    assert_eq!(captured_run(&board, 3, 5, 0, 1, Side::Black), 0);
    assert_eq!(find_moves(&board, Side::Black), Vec::new());
}

#[test]
fn run_that_ends_at_an_empty_cell_is_not_captured() {
    let board = board_from([
        "........",
        "........",
        "........",
        ".WW.B...",
        "........",
        "........",
        "........",
        "........",
    ]);
    assert!(!is_valid_move(&board, 3, 0, Side::Black));
    assert_eq!(captured_run(&board, 3, 0, 0, 1, Side::Black), 0);
}

#[test]
fn longest_run_is_captured_whole() {
    let mut board = board_from([
        ".WWWWWWB",
        "........",
        "........",
        "........",
        "........",
        "........",
        "........",
        "........",
    ]);
    assert_eq!(captured_run(&board, 0, 0, 0, 1, Side::Black), 6);
    assert!(is_valid_move(&board, 0, 0, Side::Black));
    apply_move(&mut board, 0, 0, Side::Black);
    assert_eq!(texts(&board)[0], "BBBBBBBB");
    assert_eq!(count_pieces(&board, Side::Black), 8);
    assert_eq!(count_pieces(&board, Side::White), 0);
}

#[test]
fn each_direction_captures() {
    let board = board_from([
        "B..B..B.",
        ".W.W.W..",
        "..WWW...",
        "BWW.WWWB",
        "..WWW...",
        ".W.W.W..",
        "B..B..B.",
        "........",
    ]);
    let expected = [2, 2, 2, 2, 3, 2, 2, 2];
    for (i, (dr, dc)) in DIRECTIONS.iter().enumerate() {
        assert_eq!(captured_run(&board, 3, 3, *dr, *dc, Side::Black), expected[i]);
        assert_eq!(captured_run(&board, 3, 3, *dr, *dc, Side::White), 0);
    }
}

#[test]
fn move_captures_in_every_direction_at_once() {
    let mut board = board_from([
        "B..B..B.",
        ".W.W.W..",
        "..WWW...",
        "BWW.WWWB",
        "..WWW...",
        ".W.W.W..",
        "B..B..B.",
        "........",
    ]);
    let black = count_pieces(&board, Side::Black);
    let white = count_pieces(&board, Side::White);
    assert_eq!((black, white), (8, 17));
    apply_move(&mut board, 3, 3, Side::Black);
    assert_eq!(
        texts(&board),
        vec![
            "B..B..B.",
            ".B.B.B..",
            "..BBB...",
            "BBBBBBBB",
            "..BBB...",
            ".B.B.B..",
            "B..B..B.",
            "........",
        ]
    );
    assert_eq!(count_pieces(&board, Side::Black), black + 1 + 17);
    assert_eq!(count_pieces(&board, Side::White), white - 17);
}

#[test]
fn captures_in_one_direction_leave_the_others_alone() {
    let mut board = board_from([
        "........",
        "...W....",
        "...W....",
        ".BW.WW..",
        "...W....",
        "...B....",
        "........",
        "........",
    ]);
    apply_move(&mut board, 3, 3, Side::Black);
    assert_eq!(
        texts(&board),
        vec![
            "........",
            "...W....",
            "...W....",
            ".BBBWW..",
            "...B....",
            "...B....",
            "........",
            "........",
        ]
    );
}

#[test]
fn move_changes_the_counts_by_the_pieces_flipped() {
    let mut board = initialize_board();
    let mut side = Side::Black;
    let mut played = 0;
    for _ in 0..40 {
        let moves = find_moves(&board, side);
        if moves.is_empty() {
            side = side.opponent();
            continue;
        }
        played += 1;
        let (row, col) = moves[moves.len() - 1];
        let before = board;
        let ours = count_pieces(&board, side);
        let theirs = count_pieces(&board, side.opponent());
        apply_move(&mut board, row, col, side);
        let mut flips = 0;
        for r in 0..SIZE {
            for c in 0..SIZE {
                if (r, c) == (row, col) {
                    assert_eq!(before[r][c], Cell::Empty);
                    assert_eq!(board[r][c], side.piece());
                } else if before[r][c] != board[r][c] {
                    assert_eq!(before[r][c], side.opponent().piece());
                    assert_eq!(board[r][c], side.piece());
                    flips += 1;
                }
            }
        }
        assert!(flips >= 1);
        assert_eq!(count_pieces(&board, side), ours + 1 + flips);
        assert_eq!(count_pieces(&board, side.opponent()), theirs - flips);
        side = side.opponent();
    }
    assert!(played >= 20);
}

#[test]
fn move_to_a_cell_that_captures_nothing_only_places_the_piece() {
    let mut board = initialize_board();
    apply_move(&mut board, 0, 0, Side::White);
    assert_eq!(
        texts(&board),
        vec![
            "W.......",
            "........",
            "........",
            "...WB...",
            "...BW...",
            "........",
            "........",
            "........",
        ]
    );
}

#[test]
fn queries_leave_the_board_as_it_was() {
    let board = initialize_board();
    let copy = board;
    for r in 0..SIZE {
        for c in 0..SIZE {
            is_valid_move(&board, r, c, Side::Black);
            is_valid_move(&board, r, c, Side::White);
        }
    }
    find_moves(&board, Side::Black);
    find_moves(&board, Side::White);
    count_pieces(&board, Side::Black);
    assert_eq!(board, copy);
}

#[test]
fn counts_on_empty_and_full_boards() {
    let empty: Board = [[Cell::Empty; SIZE]; SIZE];
    assert_eq!(count_pieces(&empty, Side::Black), 0);
    assert_eq!(count_pieces(&empty, Side::White), 0);
    assert_eq!(find_moves(&empty, Side::Black), Vec::new());
    let full: Board = [[Cell::White; SIZE]; SIZE];
    assert_eq!(count_pieces(&full, Side::Black), 0);
    assert_eq!(count_pieces(&full, Side::White), 64);
    assert_eq!(find_moves(&full, Side::Black), Vec::new());
    assert_eq!(find_moves(&full, Side::White), Vec::new());
}

#[test]
fn sides_and_pieces() {
    assert_eq!(Side::Black.opponent(), Side::White);
    assert_eq!(Side::White.opponent(), Side::Black);
    assert_eq!(Side::Black.piece(), Cell::Black);
    assert_eq!(Side::White.piece(), Cell::White);
}

#[test]
fn glyphs() {
    assert_eq!(Cell::Empty.glyph(), '.');
    assert_eq!(Cell::Black.glyph(), 'B');
    assert_eq!(Cell::White.glyph(), 'W');
    assert_eq!(Side::Black.glyph(), 'B');
    assert_eq!(Side::White.glyph(), 'W');
}

#[test]
fn opening_position_as_text() {
    assert_eq!(
        texts(&initialize_board()),
        vec![
            "........",
            "........",
            "........",
            "...WB...",
            "...BW...",
            "........",
            "........",
            "........",
        ]
    );
}

#[test]
fn directions_are_the_eight_neighbours_in_reading_order() {
    let mut expected = Vec::new();
    for dr in -1isize..=1 {
        for dc in -1isize..=1 {
            if (dr, dc) != (0, 0) {
                expected.push((dr, dc));
            }
        }
    }
    assert_eq!(DIRECTIONS.to_vec(), expected);
}
