use tictactoe::{play, Board, Player};

/// On an untouched board `play` answers from the opening book, and the
/// random pick actually varies.
#[test]
fn play_opening_in_book() {
    let book = [1, 3, 5, 7, 9];
    let mut seen: Vec<i32> = Vec::new();
    for _ in 0..200 {
        let step = play(vec![], vec![], true);
        assert!(book.contains(&step));
        if !seen.contains(&step) {
            seen.push(step);
        }
    }
    assert!(seen.len() >= 2);
    let step = play(vec![], vec![], false);
    assert!(book.contains(&step));
}

/// Fewer than three cells never win; extra cells beside a triple still win.
#[test]
fn can_win_needs_three_cells() {
    assert_eq!(Board::can_win(vec![]), false);
    assert_eq!(Board::can_win(vec![1]), false);
    assert_eq!(Board::can_win(vec![1, 2]), false);
    assert_eq!(Board::can_win(vec![1, 2, 4]), false);
    assert_eq!(Board::can_win(vec![4, 1, 2, 3]), true);
}

fn check_partition(board: &Board) {
    let available = board.available_steps();
    for c in 1..=9u32 {
        let in_available = available.contains(&c);
        let in_perfect = board.perfect_player.contains(&c);
        let in_opponent = board.opponent.contains(&c);
        let places = in_available as u32 + in_perfect as u32 + in_opponent as u32;
        assert_eq!(places, 1);
    }
    for step in &available {
        assert!((1..=9).contains(step));
    }
}

/// The available cells and the two sides' cells cover 1..=9 exactly once.
#[test]
fn available_steps_partition_grid() {
    check_partition(&Board {
        perfect_player: vec![],
        opponent: vec![],
        first_hand: Some(true),
    });
    check_partition(&Board {
        perfect_player: vec![1, 2, 3],
        opponent: vec![4, 5, 6],
        first_hand: None,
    });
    check_partition(&Board {
        perfect_player: vec![2, 5, 6, 7],
        opponent: vec![1, 3, 4, 8, 9],
        first_hand: None,
    });
    check_partition(&Board {
        perfect_player: vec![9, 1],
        opponent: vec![5],
        first_hand: Some(false),
    });
}

/// The search is deterministic: the same non-opening board always yields
/// the same move and score.
#[test]
fn minimax_is_deterministic() {
    let board = Board {
        perfect_player: vec![1],
        opponent: vec![5],
        first_hand: Some(true),
    };
    let first = board.minimax(0);
    let second = board.minimax(0);
    assert_eq!(first.step, second.step);
    assert_eq!(first.score, second.score);

    let step1 = play(vec![1], vec![5], true);
    let step2 = play(vec![1], vec![5], true);
    assert_eq!(step1, step2);
}

/// A fully filled board with no winner is the draw leaf: no move, score 0.
#[test]
fn draw_leaf_scores_zero() {
    let board = Board {
        perfect_player: vec![2, 5, 6, 7],
        opponent: vec![1, 3, 4, 8, 9],
        first_hand: None,
    };
    assert!(board.draw());
    assert!(!board.won());
    assert!(!board.lose());
    let node = board.minimax(0);
    assert_eq!(node.step, -1);
    assert_eq!(node.score, 0);
}

/// Perfect play from the start is a draw: the full search from an empty
/// board scores 0, and after any opening-book move no opponent reply
/// reaches a winning score against the perfect player.
#[test]
fn perfect_play_never_loses() {
    let empty = Board {
        perfect_player: vec![],
        opponent: vec![],
        first_hand: Some(true),
    };
    let node = empty.minimax(0);
    assert_eq!(node.score, 0);

    for opening in [1u32, 3, 5, 7, 9] {
        for reply in 1..=9u32 {
            if reply == opening {
                continue;
            }
            let board = Board {
                perfect_player: vec![opening],
                opponent: vec![reply],
                first_hand: Some(true),
            };
            let node = board.minimax(0);
            assert!(node.score >= 0);
        }
    }

    let optimal_reply = Board {
        perfect_player: vec![5],
        opponent: vec![1],
        first_hand: Some(true),
    };
    assert_eq!(optimal_reply.minimax(0).score, 0);
}

/// An immediate winning move is taken at once, scoring 10 at depth 0.
#[test]
fn immediate_win_scenario() {
    let board = Board {
        perfect_player: vec![1, 2],
        opponent: vec![4, 5],
        first_hand: Some(true),
    };
    assert_eq!(board.step_count(), 4);
    assert_eq!(board.current_player(), Player::PerfectPlayer);
    let node = board.minimax(0);
    assert_eq!(node.step, 3);
    assert_eq!(node.score, 10);
    assert_eq!(play(vec![1, 2], vec![4, 5], true), 3);
}

/// An immediate opponent win ends the scan with score depth - 10.
#[test]
fn immediate_loss_scenario() {
    let board = Board {
        perfect_player: vec![1, 2],
        opponent: vec![4, 5],
        first_hand: Some(false),
    };
    assert_eq!(board.current_player(), Player::Opponent);
    let node = board.minimax(0);
    assert_eq!(node.step, 6);
    assert_eq!(node.score, -10);
}

/// A win one ply down scores 10 - 1: with two open lines the opponent can
/// block only one of them.
#[test]
fn win_one_ply_down_scenario() {
    let board = Board {
        perfect_player: vec![1, 2, 4],
        opponent: vec![5, 6, 8],
        first_hand: Some(false),
    };
    assert_eq!(board.current_player(), Player::Opponent);
    let node = board.minimax(0);
    assert_eq!(node.step, 9);
    assert_eq!(node.score, 9);
}

/// With an even count and the first hand unset or false, the opponent is
/// the side to move.
#[test]
fn parity_scenario() {
    let board = Board {
        perfect_player: vec![],
        opponent: vec![1, 5],
        first_hand: Some(false),
    };
    assert_eq!(board.step_count(), 2);
    assert_eq!(board.current_player(), Player::Opponent);
}

/// The winning-triple table lists the three rows, the three columns and
/// the two diagonals.
#[test]
fn winning_combinations_table() {
    let table = Board::winning_combinations();
    let expected: [[u32; 3]; 8] = [
        [1, 2, 3],
        [4, 5, 6],
        [7, 8, 9],
        [1, 4, 7],
        [2, 5, 8],
        [3, 6, 9],
        [1, 5, 9],
        [3, 5, 7],
    ];
    assert_eq!(table, expected);
}
