use std::collections::HashMap;

use ultimate_ttt::board::{Board, PlayError};
use ultimate_ttt::graph::build_graph;
use ultimate_ttt::miniboard::{MiniBoard, Player};

#[test]
fn fresh_board_is_sent_to_outer_cell_zero() {
    let g = build_graph();
    let b = Board::new();
    assert_eq!(b.main_board, 0);
    let moves = b.get_possible_actions(&g).unwrap();
    let expected: Vec<(usize, usize)> = (0..9).map(|i| (0, i)).collect();
    assert_eq!(moves, expected);
}

#[test]
fn send_rule_targets_the_last_inner_cell() {
    let g = build_graph();
    let mut b = Board::new();
    assert_eq!(b.play(Player::X, 0, 5, &g), Ok(()));
    let moves = b.get_possible_actions(&g).unwrap();
    assert!(!moves.is_empty());
    for (outer, _) in moves.iter() {
        assert_eq!(*outer, 5);
    }
    // The send rule forbids any other outer cell.
    assert_eq!(b.play(Player::O, 1, 0, &g), Err(PlayError::IllegalMove));
    assert_eq!(b.play(Player::O, 5, 0, &g), Ok(()));
}

#[test]
fn terminal_target_allows_free_choice() {
    let g = build_graph();
    let mut b = Board::new();
    // Win sub-board 0 with X on its top row, steering the send rule back to
    // outer cell 0 through inner cells 0 and 1.
    assert_eq!(b.play(Player::X, 0, 0, &g), Ok(()));
    assert_eq!(b.play(Player::X, 0, 1, &g), Ok(()));
    assert_eq!(b.play(Player::X, 1, 0, &g), Ok(()));
    assert_eq!(b.play(Player::X, 0, 2, &g), Ok(()));
    // Sub-board 0 is decided; its winner was played into the meta-board.
    assert_eq!(b.main_board, 6561);
    // The previous move sends to outer cell 2, which is still ongoing.
    assert_eq!(b.play(Player::O, 2, 0, &g), Ok(()));
    // Now the target is sub-board 0, which is terminal: every ongoing
    // sub-board is playable, and sub-board 0 itself is not.
    let moves = b.get_possible_actions(&g).unwrap();
    assert_eq!(moves.len(), 70);
    assert!(moves.iter().all(|(outer, _)| *outer != 0));
    assert!(moves.contains(&(3, 4)));
    assert!(moves.contains(&(1, 8)));
    assert!(!moves.contains(&(1, 0)));
    // Playing into the decided sub-board stays illegal.
    assert_eq!(b.play(Player::O, 0, 4, &g), Err(PlayError::IllegalMove));
}

#[test]
fn occupied_cell_is_an_illegal_move() {
    let g = build_graph();
    let mut b = Board::new();
    assert_eq!(b.play(Player::X, 0, 0, &g), Ok(()));
    assert_eq!(b.play(Player::O, 0, 0, &g), Err(PlayError::IllegalMove));
}

#[test]
fn out_of_range_cells_are_illegal_moves() {
    let g = build_graph();
    let mut b = Board::new();
    assert_eq!(b.play(Player::X, 9, 0, &g), Err(PlayError::IllegalMove));
    assert_eq!(b.play(Player::X, 0, 9, &g), Err(PlayError::IllegalMove));
}

#[test]
fn rejected_moves_leave_the_board_unchanged() {
    let g = build_graph();
    let mut b = Board::new();
    assert_eq!(b.play(Player::X, 3, 3, &g), Err(PlayError::IllegalMove));
    assert_eq!(b.sub_boards, vec![0; 9]);
    assert_eq!(b.main_board, 0);
    assert_eq!(b.previous_grid, 0);
    assert_eq!(b.previous_position, 0);
}

#[test]
fn missing_key_is_reported() {
    let empty: HashMap<usize, MiniBoard> = HashMap::new();
    let mut b = Board::new();
    assert_eq!(
        b.play(Player::X, 0, 0, &empty),
        Err(PlayError::MissingState)
    );
    assert_eq!(
        b.get_possible_actions(&empty),
        Err(PlayError::MissingState)
    );
}
