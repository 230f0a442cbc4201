use ultimate_ttt::miniboard::{MiniBoard, Player};

const LINES: [[usize; 3]; 8] = [
    [0, 3, 6],
    [1, 4, 7],
    [2, 5, 8],
    [0, 1, 2],
    [3, 4, 5],
    [6, 7, 8],
    [0, 4, 8],
    [2, 4, 6],
];

#[test]
fn empty_board_is_fresh() {
    let b = MiniBoard::new();
    assert_eq!(b.get_hash(), 0);
    assert_eq!(b.get_winner(), None);
    assert!(!b.is_over());
    assert_eq!(b.get_possible_actions(), vec![0, 1, 2, 3, 4, 5, 6, 7, 8]);
}

#[test]
fn hash_is_base_three_most_significant_first() {
    let mut b = MiniBoard::new();
    let c1 = b.play(Player::X, 0).unwrap();
    // X at cell 0 contributes 1 * 3^8.
    assert_eq!(c1.get_hash(), 6561);
    let mut c1m = c1;
    let c2 = c1m.play(Player::O, 1).unwrap();
    // O at cell 1 adds 2 * 3^7.
    assert_eq!(c2.get_hash(), 6561 + 4374);
}

#[test]
fn key_is_order_independent() {
    let mut a = MiniBoard::new();
    let mut a1 = a.play(Player::X, 0).unwrap();
    let a2 = a1.play(Player::O, 1).unwrap();

    let mut b = MiniBoard::new();
    let mut b1 = b.play(Player::O, 1).unwrap();
    let b2 = b1.play(Player::X, 0).unwrap();

    assert_eq!(a2.get_hash(), b2.get_hash());
}

#[test]
fn keys_of_distinct_boards_differ() {
    let mut a = MiniBoard::new();
    let a1 = a.play(Player::X, 0).unwrap();
    let mut b = MiniBoard::new();
    let b1 = b.play(Player::X, 1).unwrap();
    let mut c = MiniBoard::new();
    let c1 = c.play(Player::O, 0).unwrap();
    assert_ne!(a1.get_hash(), b1.get_hash());
    assert_ne!(a1.get_hash(), c1.get_hash());
}

#[test]
fn every_line_wins_for_x_and_o() {
    for line in LINES.iter() {
        for mover in [Player::X, Player::O] {
            let mut b = MiniBoard::new();
            let mut s1 = b.play(mover, line[0]).unwrap();
            let mut s2 = s1.play(mover, line[1]).unwrap();
            assert_eq!(s2.get_winner(), None);
            let s3 = s2.play(mover, line[2]).unwrap();
            assert_eq!(s3.get_winner(), Some(mover));
            assert!(s3.is_over());
            assert!(s3.get_possible_actions().is_empty());
        }
    }
}

#[test]
fn full_board_without_line_is_draw() {
    // X O X / X O O / O X X: no uniform line.
    let marks = [
        Player::X,
        Player::O,
        Player::X,
        Player::X,
        Player::O,
        Player::O,
        Player::O,
        Player::X,
        Player::X,
    ];
    let mut state = MiniBoard::new();
    for pos in 0..9 {
        let next = state.play(marks[pos], pos).unwrap();
        state = next;
    }
    assert_eq!(state.get_winner(), Some(Player::Draw));
    assert!(state.get_possible_actions().is_empty());
}

#[test]
fn top_row_scenario() {
    let mut b = MiniBoard::new();
    let mut s1 = b.play(Player::X, 0).unwrap();
    let mut s2 = s1.play(Player::X, 1).unwrap();
    let s3 = s2.play(Player::X, 2).unwrap();
    assert_eq!(s3.get_winner(), Some(Player::X));
    assert!(s3.get_possible_actions().is_empty());
}

#[test]
fn diagonal_scenario_with_interleaved_moves() {
    let mut b = MiniBoard::new();
    let mut s1 = b.play(Player::X, 0).unwrap();
    let mut s2 = s1.play(Player::O, 1).unwrap();
    let mut s3 = s2.play(Player::X, 4).unwrap();
    let mut s4 = s3.play(Player::O, 3).unwrap();
    let s5 = s4.play(Player::X, 8).unwrap();
    assert_eq!(s5.get_winner(), Some(Player::X));
}

#[test]
fn legal_moves_are_the_free_cells() {
    let mut b = MiniBoard::new();
    let mut s1 = b.play(Player::X, 4).unwrap();
    let s2 = s1.play(Player::O, 0).unwrap();
    assert_eq!(s2.get_possible_actions(), vec![1, 2, 3, 5, 6, 7, 8]);
}

#[test]
fn occupied_cell_is_rejected() {
    let mut b = MiniBoard::new();
    let mut s1 = b.play(Player::X, 4).unwrap();
    assert!(s1.play(Player::O, 4).is_none());
    // The rejected move leaves the state unchanged.
    assert_eq!(s1.get_winner(), None);
    assert_eq!(s1.get_possible_actions(), vec![0, 1, 2, 3, 5, 6, 7, 8]);
}

#[test]
fn play_records_the_transition() {
    let mut b = MiniBoard::new();
    let child = b.play(Player::X, 4).unwrap();
    assert_eq!(b.get_child(Player::X, 4), child.get_hash());
    // Unexplored combinations stay at 0.
    assert_eq!(b.get_child(Player::O, 4), 0);
    assert_eq!(b.get_child(Player::X, 3), 0);
}

#[test]
fn set_child_and_get_child_round_trip() {
    let mut b = MiniBoard::new();
    b.set_child(Player::O, 7, 12345);
    assert_eq!(b.get_child(Player::O, 7), 12345);
    assert_eq!(b.get_child(Player::X, 7), 0);
    assert_eq!(b.get_child(Player::Draw, 7), 0);
}

#[test]
fn set_hash_tracks_cells() {
    let mut b = MiniBoard::new();
    b.set_hash();
    assert_eq!(b.get_hash(), 0);
    assert_eq!(b.hash(), 0);
}
