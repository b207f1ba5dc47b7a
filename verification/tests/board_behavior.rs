use gomoku::board::Game;
use gomoku::host::{check_win, GomokuError};

fn empty_board(n: usize) -> Vec<Vec<i8>> {
    vec![vec![0i8; n]; n]
}

#[test]
fn hash_round_trip_restores_hash() {
    let mut game = Game::from_board(empty_board(9), 1);
    let h0 = game.current_hash();
    let moves = [(4usize, 4usize), (3, 3), (4, 5), (2, 2), (4, 6)];
    let mut players: Vec<i8> = Vec::new();
    for &(r, c) in moves.iter() {
        players.push(game.current_player());
        assert!(game.make_move(r, c));
    }
    for k in (0..moves.len()).rev() {
        let (r, c) = moves[k];
        game.undo_move(r, c, players[k]);
    }
    assert_eq!(game.current_hash(), h0);
    assert_eq!(game.current_player(), 1);
    for &(r, c) in moves.iter() {
        assert_eq!(game.cell(r, c), 0);
    }
}

#[test]
fn hash_matches_freshly_built_position() {
    let mut game = Game::from_board(empty_board(9), 1);
    assert!(game.make_move(4, 4));
    assert!(game.make_move(3, 3));
    assert!(game.make_move(4, 5));
    let mut board = empty_board(9);
    board[4][4] = 1;
    board[3][3] = 2;
    board[4][5] = 1;
    let rebuilt = Game::from_board(board, game.current_player());
    assert_eq!(game.current_hash(), rebuilt.current_hash());
}

#[test]
fn make_move_rejects_bad_placements() {
    let mut game = Game::from_board(empty_board(5), 1);
    assert!(game.make_move(2, 2));
    assert!(!game.make_move(2, 2));
    assert!(!game.make_move(5, 0));
    assert!(!game.make_move(0, 9));
    assert_eq!(game.current_player(), 2);
}

#[test]
fn try_apply_reports_each_error() {
    let mut game = Game::from_board(empty_board(5), 1);
    assert!(game.try_apply(1, 1).is_ok());
    assert_eq!(game.try_apply(1, 1).unwrap_err(), GomokuError::OccupiedCell);
    assert_eq!(game.try_apply(7, 0).unwrap_err(), GomokuError::InvalidPosition);
    assert_eq!(GomokuError::NoLegalMove.describe(), "No valid move found");
    assert_eq!(GomokuError::InvalidPosition.describe(), "Invalid position");
    assert_eq!(GomokuError::OccupiedCell.describe(), "Cell is occupied");
}

#[test]
fn run_of_four_does_not_win_run_of_five_does() {
    // horizontal
    let mut board = empty_board(9);
    for c in 2..6 {
        board[4][c] = 1;
    }
    let game = Game::from_board(board.clone(), 2);
    assert!(!game.check_win(4, 3));
    board[4][6] = 1;
    let game = Game::from_board(board.clone(), 2);
    assert!(game.check_win(4, 3));
    // six in a row still wins
    board[4][1] = 1;
    let game = Game::from_board(board, 2);
    assert!(game.check_win(4, 4));
}

#[test]
fn five_in_each_direction_wins() {
    // vertical
    let mut board = empty_board(9);
    for r in 1..6 {
        board[r][3] = 2;
    }
    assert!(Game::from_board(board, 1).check_win(3, 3));
    // main diagonal
    let mut board = empty_board(9);
    for k in 0..5 {
        board[2 + k][2 + k] = 1;
    }
    assert!(Game::from_board(board, 2).check_win(4, 4));
    // anti-diagonal
    let mut board = empty_board(9);
    for k in 0..5 {
        board[2 + k][8 - k] = 1;
    }
    assert!(Game::from_board(board, 2).check_win(3, 7));
    // four in each of those directions does not win
    let mut board = empty_board(9);
    for r in 1..5 {
        board[r][3] = 2;
    }
    assert!(!Game::from_board(board, 1).check_win(2, 3));
}

#[test]
fn engine_and_host_win_checks_agree() {
    let mut boards: Vec<Vec<Vec<i8>>> = Vec::new();
    let mut b = empty_board(7);
    for c in 1..6 {
        b[3][c] = 1;
    }
    boards.push(b);
    let mut b = empty_board(7);
    for k in 0..4 {
        b[k][k] = 2;
    }
    b[5][5] = 1;
    boards.push(b);
    boards.push(empty_board(7));
    for board in boards {
        let game = Game::from_board(board.clone(), 1);
        for r in 0..7 {
            for c in 0..7 {
                let host = check_win(&board, r, c).unwrap();
                assert_eq!(host.is_win, game.check_win(r, c));
                if host.is_win {
                    assert_eq!(host.winner, Some(board[r][c]));
                } else {
                    assert_eq!(host.winner, None);
                }
            }
        }
    }
}

#[test]
fn host_check_win_validates_coordinates() {
    let board = empty_board(6);
    assert_eq!(check_win(&board, 6, 0).unwrap_err(), GomokuError::InvalidPosition);
    assert_eq!(check_win(&board, 0, 9).unwrap_err(), GomokuError::InvalidPosition);
    let st = check_win(&board, 2, 2).unwrap();
    assert!(!st.is_win);
    assert_eq!(st.winner, None);
}

#[test]
fn would_win_leaves_position_untouched() {
    let mut board = empty_board(9);
    for c in 2..6 {
        board[4][c] = 1;
    }
    let mut game = Game::from_board(board, 1);
    let h0 = game.current_hash();
    assert!(game.would_win(1, 4, 6));
    assert!(game.would_win(1, 4, 1));
    assert!(!game.would_win(2, 4, 6));
    assert!(!game.would_win(1, 0, 0));
    assert_eq!(game.current_hash(), h0);
    assert_eq!(game.cell(4, 6), 0);
}

#[test]
fn evaluation_of_single_stone() {
    let mut board = empty_board(9);
    board[4][4] = 1;
    // to move: the player who owns the stone
    let game = Game::from_board(board.clone(), 1);
    assert_eq!(game.evaluate(), 40);
    // to move: the opponent; 40 * 1.1 rounded down
    let game = Game::from_board(board, 2);
    assert_eq!(game.evaluate(), -44);
}

#[test]
fn evaluation_of_open_three() {
    let mut board = empty_board(9);
    for c in 3..6 {
        board[4][c] = 1;
    }
    let game = Game::from_board(board, 1);
    // each stone: 5000 for the open three plus 10 for each other direction
    assert_eq!(game.evaluate_player(1), 3 * (5000 + 30));
    assert_eq!(game.evaluate_player(2), 0);
    assert_eq!(game.evaluate(), 15090);
}

#[test]
fn score_move_combines_offense_and_defense() {
    let mut board = empty_board(9);
    board[4][4] = 1;
    let mut game = Game::from_board(board, 1);
    // own placement makes an open pair: 500; three idle directions: 10 each;
    // denying the opponent that cell is worth 4 * 10.
    assert_eq!(game.score_move(4, 5), 500 + 30 + 40);
}

#[test]
fn neighbor_window_has_radius_two() {
    let mut board = empty_board(9);
    board[4][4] = 1;
    let game = Game::from_board(board, 2);
    assert!(game.has_neighbor(4, 5));
    assert!(game.has_neighbor(2, 2));
    assert!(game.has_neighbor(6, 6));
    assert!(!game.has_neighbor(1, 4));
    assert!(!game.has_neighbor(8, 8));
    assert!(game.has_any_stone());
    assert!(!Game::from_board(empty_board(9), 1).has_any_stone());
}
