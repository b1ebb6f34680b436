//! Board engine tests: move generation, flipping, parsing, scoring.

use othello::bits::UPPER_LEFT;
use othello::board::{Board, BoardError, Position, Positions, Stone};
use othello::othello_logic::{legal_move, legal_moves_scan, put, reverse};
use othello::players::{Player, PlayerError, RandomPlayer};
use othello::utils::{game_result, input_parse};

fn cell(i: usize) -> u64 {
    UPPER_LEFT >> i
}

fn idx(x: usize, y: usize) -> usize {
    y * 8 + x
}

/// Every board reachable within 30 plies of the opening: the shift-chain
/// move generator equals the brute-force per-cell scan.
#[test]
fn legal_moves_match_brute_force_scan() {
    let mut samples = 0usize;
    for _game in 0..400 {
        let mut board = Board::new();
        let mut player = RandomPlayer::new();
        for _ply in 0..30 {
            if board.finished() {
                break;
            }
            let (mover, opp) = if board.turn == Stone::Black {
                (board.black, board.white)
            } else {
                (board.white, board.black)
            };
            assert_eq!(legal_move(mover, opp), legal_moves_scan(mover, opp));
            assert_eq!(legal_move(opp, mover), legal_moves_scan(opp, mover));
            samples += 2;
            match player.find_move(&board) {
                Ok(pos) => {
                    board.put(pos).unwrap();
                }
                Err(_) => break,
            }
        }
    }
    assert!(samples >= 10_000);
}

/// After every legal move the colour masks stay disjoint and the total
/// stone count grows by exactly one; the mover's own count grows by one
/// plus the number of flipped stones.
#[test]
fn apply_move_keeps_masks_disjoint_and_counts_exact() {
    for _game in 0..60 {
        let mut board = Board::new();
        let mut player = RandomPlayer::new();
        loop {
            if board.finished() {
                break;
            }
            let pos = match player.find_move(&board) {
                Ok(p) => p,
                Err(_) => break,
            };
            let (mover, opp) = if board.turn == Stone::Black {
                (board.black, board.white)
            } else {
                (board.white, board.black)
            };
            let flips = reverse(mover, opp, pos.0);
            let flipped = flips.count_ones();
            let before_own = mover.count_ones();
            let before_total = (board.black | board.white).count_ones();
            board.put(pos).unwrap();
            assert_eq!(board.black & board.white, 0);
            let after_total = (board.black | board.white).count_ones();
            assert_eq!(after_total, before_total + 1);
            let after_own = if board.black & pos.0 != 0 {
                board.black.count_ones()
            } else {
                board.white.count_ones()
            };
            assert_eq!(after_own, before_own + 1 + flipped);
            assert!(flipped >= 1);
        }
    }
}

/// The standard opening has exactly the four well-known replies; playing
/// one flips one stone and passes the turn.
#[test]
fn opening_board_has_four_legal_moves() {
    let board = Board::new();
    assert_eq!(board.turn, Stone::Black);
    let legal = board.get_legal_moves();
    assert_eq!(legal.count(), 4);
    let expected = cell(idx(3, 2)) | cell(idx(2, 3)) | cell(idx(5, 4)) | cell(idx(4, 5));
    assert_eq!(legal.0, expected);
    assert_eq!(legal.0, legal_moves_scan(board.black, board.white));

    let mut board = board;
    board.put(Position::new(3, 2)).unwrap();
    let count = board.count_stone();
    assert_eq!(count.black, 4);
    assert_eq!(count.white, 1);
    assert_eq!(board.turn, Stone::White);
    let (mover, opp) = (board.white, board.black);
    assert_eq!(board.get_legal_moves().0, legal_moves_scan(mover, opp));
    assert_eq!(board.get_legal_moves().count(), 3);
}

#[test]
fn opening_flip_is_the_enclosed_stone() {
    let board = Board::new();
    // Black plays d3: the white stone at d4 is flipped.
    let rev = reverse(board.black, board.white, cell(idx(3, 2)));
    assert_eq!(rev, cell(idx(3, 3)));
    let (black, white) = put(board.black, board.white, cell(idx(3, 2)));
    assert_eq!(black, board.black | cell(idx(3, 2)) | cell(idx(3, 3)));
    assert_eq!(white, board.white & !cell(idx(3, 3)));
}

#[test]
fn illegal_and_finished_moves_are_rejected() {
    let mut board = Board::new();
    assert_eq!(board.put(Position::new(0, 0)), Err(BoardError::IllegalMove));

    // A full board is finished: any move is a move after the end.
    let mut full = Board {
        turn: Stone::Black,
        black: !0u64,
        white: 0,
    };
    assert!(full.finished());
    assert_eq!(
        full.put(Position::new(0, 0)),
        Err(BoardError::GameAlreadyFinished)
    );
}

/// One player having no move is a pass, not the end of the game.
#[test]
fn single_sided_block_is_not_finished() {
    // Black (to move) holds b1 only, white holds a1: black cannot move,
    // white could capture b1, so the game is not over.
    let board = Board {
        turn: Stone::Black,
        black: cell(1),
        white: cell(0),
    };
    assert_eq!(board.get_legal_moves().0, 0);
    assert!(!board.finished());
}

#[test]
fn random_player_needs_a_legal_move() {
    let board = Board {
        turn: Stone::Black,
        black: cell(1),
        white: cell(0),
    };
    let mut player = RandomPlayer::new();
    assert!(matches!(
        player.find_move(&board),
        Err(PlayerError::NotFoundLegalMove)
    ));
}

/// The random choice always lands in the legal set.
#[test]
fn random_player_picks_legal_moves() {
    let mut player = RandomPlayer::new();
    for _ in 0..200 {
        let board = Board::new();
        let pos = player.find_move(&board).unwrap();
        assert!(board.get_legal_moves().0 & pos.0 != 0);
    }
}

#[test]
fn positions_round_trip() {
    for y in 0..8 {
        for x in 0..8 {
            let p = Position::new(x, y);
            assert_eq!(p.to_idx(), idx(x, y));
            assert_eq!(p.0, cell(idx(x, y)));
        }
    }
}

#[test]
fn positions_set_views() {
    let set = Positions(cell(0) | cell(9) | cell(63));
    assert_eq!(set.count(), 3);
    let map = set.to_map();
    assert!(map[0][0] && map[1][1] && map[7][7]);
    assert!(!map[0][1] && !map[7][6]);
    let list = set.to_position_list();
    assert_eq!(list.len(), 3);
    assert_eq!(list[0].to_idx(), 0);
    assert_eq!(list[1].to_idx(), 9);
    assert_eq!(list[2].to_idx(), 63);
}

#[test]
fn board_array_shows_the_opening() {
    let board = Board::new();
    let grid = board.create_board_array();
    assert_eq!(grid[3][4], Some(Stone::Black));
    assert_eq!(grid[4][3], Some(Stone::Black));
    assert_eq!(grid[3][3], Some(Stone::White));
    assert_eq!(grid[4][4], Some(Stone::White));
    assert_eq!(grid[0][0], None);
}

#[test]
fn init_resets_the_stones() {
    let mut board = Board::new();
    board.put(Position::new(3, 2)).unwrap();
    board.init();
    assert_eq!(board.black, 0x0000000810000000);
    assert_eq!(board.white, 0x0000001008000000);
}

#[test]
fn stone_reverse_swaps_colours() {
    assert_eq!(Stone::Black.reverse(), Stone::White);
    assert_eq!(Stone::White.reverse(), Stone::Black);
}

#[test]
fn game_result_compares_counts() {
    let board = Board {
        turn: Stone::Black,
        black: cell(0) | cell(1),
        white: cell(2),
    };
    assert_eq!(game_result(&board, Stone::Black), 1);
    assert_eq!(game_result(&board, Stone::White), -1);
    let even = Board {
        turn: Stone::Black,
        black: cell(0),
        white: cell(2),
    };
    assert_eq!(game_result(&even, Stone::Black), 0);
    assert_eq!(game_result(&even, Stone::White), 0);
}

#[test]
fn input_parse_accepts_column_letter_and_row_digit() {
    assert_eq!(input_parse("a0".to_string()), Ok((0, 0)));
    assert_eq!(input_parse("f5".to_string()), Ok((5, 5)));
    assert_eq!(input_parse("h7".to_string()), Ok((7, 7)));
}

#[test]
fn input_parse_rejects_everything_else() {
    let msg = "Invalid input. Input must be [a-h][0-7]".to_string();
    assert_eq!(input_parse("i0".to_string()), Err(msg.clone()));
    assert_eq!(input_parse("a8".to_string()), Err(msg.clone()));
    assert_eq!(input_parse("5a".to_string()), Err(msg.clone()));
    assert_eq!(input_parse("".to_string()), Err(msg.clone()));
    assert_eq!(input_parse("a55".to_string()), Err(msg.clone()));
    assert_eq!(input_parse("A5".to_string()), Err(msg));
}
