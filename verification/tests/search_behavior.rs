use gomoku::board::Game;
use gomoku::host::check_win;
use gomoku::search::AI;
use gomoku::{INF, WIN};

fn empty_board(n: usize) -> Vec<Vec<i8>> {
    vec![vec![0i8; n]; n]
}

#[test]
fn empty_board_opening_is_center() {
    for &n in [8usize, 9, 15].iter() {
        for depth in 1..4 {
            let game = Game::from_board(empty_board(n), 1);
            let mut ai = AI::new(n);
            assert_eq!(ai.find_move(&game, depth), Some((n / 2, n / 2)));
        }
    }
}

#[test]
fn immediate_win_is_taken_at_any_depth() {
    let mut board = empty_board(9);
    for c in 2..6 {
        board[4][c] = 1;
    }
    board[5][2] = 2;
    board[5][3] = 2;
    for depth in 1..6 {
        let game = Game::from_board(board.clone(), 1);
        let mut ai = AI::new(9);
        let (r, c) = ai.find_move(&game, depth).unwrap();
        // the chosen cell completes five in a row at once
        let mut g = Game::from_board(board.clone(), 1);
        assert!(g.make_move(r, c));
        assert!(g.check_win(r, c));
    }
}

#[test]
fn opponent_open_four_is_blocked() {
    let mut board = empty_board(9);
    for c in 2..6 {
        board[4][c] = 2;
    }
    board[2][2] = 1;
    let game = Game::from_board(board.clone(), 1);
    let mut ai = AI::new(9);
    let mv = ai.find_move(&game, 2).unwrap();
    // the chosen cell is one the opponent would otherwise win on
    assert!(mv == (4, 1) || mv == (4, 6));
    let mut g = Game::from_board(board, 1);
    assert!(g.would_win(2, mv.0, mv.1));
}

#[test]
fn full_board_yields_no_move() {
    let n = 5;
    let mut board = empty_board(n);
    for r in 0..n {
        for c in 0..n {
            board[r][c] = (((r * 2 + c) % 2) + 1) as i8;
        }
    }
    let game = Game::from_board(board, 1);
    let mut ai = AI::new(n);
    assert_eq!(ai.find_move(&game, 3), None);
}

#[test]
fn search_finds_a_legal_move_midgame() {
    let mut board = empty_board(9);
    board[4][4] = 1;
    board[4][5] = 2;
    board[3][3] = 1;
    let game = Game::from_board(board.clone(), 2);
    let mut ai = AI::new(9);
    let (r, c) = ai.find_move(&game, 2).unwrap();
    assert!(r < 9 && c < 9);
    assert_eq!(board[r][c], 0);
}

fn candidates(board: &Vec<Vec<i8>>) -> Vec<(usize, usize)> {
    let n = board.len();
    let mut out = Vec::new();
    for r in 0..n {
        for c in 0..n {
            if board[r][c] != 0 {
                continue;
            }
            let mut near = false;
            for dr in -2i32..3 {
                for dc in -2i32..3 {
                    if dr == 0 && dc == 0 {
                        continue;
                    }
                    let rr = r as i32 + dr;
                    let cc = c as i32 + dc;
                    if rr >= 0 && rr < n as i32 && cc >= 0 && cc < n as i32
                        && board[rr as usize][cc as usize] != 0
                    {
                        near = true;
                    }
                }
            }
            if near {
                out.push((r, c));
            }
        }
    }
    out
}

/// Full-width reference: negamax over the same candidate set and
/// evaluation, with no pruning and no caches.
fn ref_negamax(board: &mut Vec<Vec<i8>>, current: i8, depth: i64) -> i64 {
    if depth <= 0 {
        return Game::from_board(board.clone(), current).evaluate();
    }
    let moves = candidates(board);
    if moves.is_empty() {
        return 0;
    }
    let mut best = -INF;
    for &(r, c) in moves.iter() {
        board[r][c] = current;
        let won = check_win(board, r, c).unwrap().is_win;
        if won {
            board[r][c] = 0;
            return WIN - depth;
        }
        let score = -ref_negamax(board, 3 - current, depth - 1);
        board[r][c] = 0;
        if score > best {
            best = score;
        }
    }
    best
}

#[test]
fn pruned_search_matches_full_width_negamax() {
    // a 4x4 board cannot hold five in a row and has at most 15 candidates,
    // so ordering and truncation cannot change the candidate set
    let mut board = empty_board(4);
    board[0][0] = 1;
    board[1][1] = 2;
    for depth in 1..4i64 {
        let mut game = Game::from_board(board.clone(), 1);
        let mut ai = AI::new(4);
        let pruned = ai.negamax(&mut game, depth, -INF, INF, 0);
        let full = ref_negamax(&mut board.clone(), 1, depth);
        assert_eq!(pruned, full);
    }
}

#[test]
fn prepopulated_cache_gives_same_score_and_move() {
    let mut board = empty_board(9);
    board[4][4] = 1;
    board[4][5] = 1;
    board[3][3] = 2;
    board[5][5] = 2;
    let game = Game::from_board(board.clone(), 1);
    let mut ai = AI::new(9);
    let mut g1 = game.duplicate();
    let fresh_score = ai.negamax(&mut g1, 2, -INF, INF, 0);
    let mut g2 = game.duplicate();
    let cached_score = ai.negamax(&mut g2, 2, -INF, INF, 0);
    assert_eq!(fresh_score, cached_score);

    let mut ai2 = AI::new(9);
    let first = ai2.find_move(&game, 2);
    let again = ai2.find_move(&game, 2);
    assert_eq!(first, again);
    assert!(first.is_some());
}

#[test]
fn ordered_moves_start_with_center_and_cap_at_fifteen() {
    let game = Game::from_board(empty_board(9), 1);
    let mut g = game.duplicate();
    let ai = AI::new(9);
    let ms = ai.get_ordered_moves_phase1(&mut g, 0, None);
    assert_eq!(ms, vec![(4, 4)]);

    let mut board = empty_board(9);
    for r in 3..6 {
        for c in 3..6 {
            board[r][c] = (((r + c) % 2) + 1) as i8;
        }
    }
    let game = Game::from_board(board.clone(), 1);
    let mut g = game.duplicate();
    let ms = ai.get_ordered_moves_phase1(&mut g, 0, None);
    assert!(ms.len() <= 15);
    assert!(!ms.is_empty());
    for &(r, c) in ms.iter() {
        assert_eq!(board[r][c], 0);
    }
}
