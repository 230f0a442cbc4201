//! Exhaustive state graph for 3x3 tic-tac-toe sub-boards, composed into an
//! ultimate tic-tac-toe outer board.
//!
//! A `MiniBoard` is one 3x3 grid together with its terminal status, a
//! canonical base-3 key of its cells, its playable cells, and a transition
//! table from (mover, cell) to the key of the resulting board. `build_graph`
//! enumerates every board reachable from the empty one by breadth-first
//! traversal, deduplicated by key. A `Board` composes nine sub-board keys and
//! a meta-board key over that graph and enforces the ultimate tic-tac-toe
//! "send" rule for legal moves.

pub mod board;
pub mod graph;
pub mod miniboard;
