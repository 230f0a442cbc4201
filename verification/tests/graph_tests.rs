use ultimate_ttt::graph::build_graph;
use ultimate_ttt::miniboard::Player;

#[test]
fn root_is_the_empty_board() {
    let g = build_graph();
    let root = g.get(&0).expect("empty-board key must be present");
    assert_eq!(root.get_hash(), 0);
    assert_eq!(root.get_winner(), None);
    assert_eq!(root.get_possible_actions(), vec![0, 1, 2, 3, 4, 5, 6, 7, 8]);
}

#[test]
fn state_count_is_pinned() {
    let g = build_graph();
    assert_eq!(g.len(), 28004);
}

#[test]
fn graph_is_closed_under_transitions() {
    let g = build_graph();
    for (k, node) in g.iter() {
        assert_eq!(node.get_hash(), *k);
        for mover in [Player::X, Player::O, Player::Draw] {
            for pos in 0..9 {
                let child = node.get_child(mover, pos);
                assert!(
                    g.contains_key(&child),
                    "dangling transition {} -> {}",
                    k,
                    child
                );
            }
        }
    }
}

#[test]
fn transitions_of_the_root_are_reachable_boards() {
    let g = build_graph();
    let root = g.get(&0).unwrap();
    let k: usize = root.get_child(Player::X, 0);
    assert_eq!(k, 6561);
    let child = g.get(&k).unwrap();
    assert_eq!(child.get_winner(), None);
    assert_eq!(child.get_possible_actions(), vec![1, 2, 3, 4, 5, 6, 7, 8]);
}
