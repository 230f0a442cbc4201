//! The ultimate tic-tac-toe outer board: nine sub-board keys, a meta-board
//! key, and the "send" rule that decides which sub-boards may be played next.

use vstd::prelude::*;

use std::collections::HashMap;

use crate::graph::graph_wf;
use crate::miniboard::{lemma_legal_moves_exhaustive, spec_child_key, MiniBoard, Player};

verus! {

broadcast use vstd::std_specs::hash::group_hash_axioms;

/// Why a requested operation was refused.
///
/// `MissingState` means a canonical key was looked up that the graph does not
/// hold: the graph is incomplete or the key corrupt, a fatal invariant
/// violation. `IllegalMove` means the caller asked for a move that the rules
/// reject: the game state is unchanged and the caller may retry.
#[derive(PartialEq, Eq, Structural, Clone, Copy, Debug)]
pub enum PlayError {
    MissingState,
    IllegalMove,
}

/// The outer board: nine sub-board keys into the state graph, the key of the
/// meta-board whose cells are the sub-boards' outcomes, and the last-played
/// (outer cell, inner cell) pair that drives the "send" rule.
pub struct Board {
    /// Key of each of the nine sub-boards, indexed by outer cell.
    pub sub_boards: Vec<usize>,
    /// Key of the meta-board over the sub-boards' terminal outcomes.
    pub main_board: usize,
    /// Outer cell of the most recent move.
    pub previous_grid: usize,
    /// Inner cell of the most recent move; the outer cell that must be played
    /// next while the sub-board there is still ongoing.
    pub previous_position: usize,
}

/// The key of the sub-board that the previous move sends the next move to.
pub open spec fn target_key(b: Board) -> usize {
    b.sub_boards@[b.previous_position as int]
}

/// The key of the sub-board at outer cell `grid`.
pub open spec fn grid_key(b: Board, grid: int) -> usize {
    b.sub_boards@[grid]
}

/// The key the played sub-board moves to: the graph's transition for
/// `(player, position)` at the sub-board of outer cell `grid`.
pub open spec fn new_sub_key(b: Board, g: Map<usize, MiniBoard>, player: Player, grid: int, position: int) -> usize {
    spec_child_key(g[grid_key(b, grid)], player, position)
}

/// The meta-board key after the move: unchanged while the reached sub-board
/// is ongoing; once it is terminal, its winner is played into outer cell
/// `grid` on the meta-board.
pub open spec fn new_main_key(b: Board, g: Map<usize, MiniBoard>, player: Player, grid: int, position: int) -> usize {
    match g[new_sub_key(b, g, player, grid, position)].winner {
        Some(w) => spec_child_key(g[b.main_board], w, grid),
        None => b.main_board,
    }
}

/// The outcome that `play(player, grid, position)` must have on a board in
/// state `b` over graph `g`: `None` when the move is accepted, otherwise the
/// error, determined in the order the checks are made. A move is legal when
/// both cells are in range, the send rule allows `grid` (the previous move's
/// target is terminal, or `grid` is that target), the sub-board at `grid` is
/// ongoing and Free at `position`; every key the move needs must be present.
pub open spec fn spec_play_err(b: Board, g: Map<usize, MiniBoard>, player: Player, grid: int, position: int) -> Option<PlayError> {
    if !(0 <= grid < 9 && 0 <= position < 9) {
        Some(PlayError::IllegalMove)
    } else if !g.dom().contains(target_key(b)) {
        Some(PlayError::MissingState)
    } else if g[target_key(b)].winner is None && grid != b.previous_position {
        Some(PlayError::IllegalMove)
    } else if !g.dom().contains(grid_key(b, grid)) {
        Some(PlayError::MissingState)
    } else if g[grid_key(b, grid)].winner is Some {
        Some(PlayError::IllegalMove)
    } else if g[grid_key(b, grid)].cells@[position] != Player::Free {
        Some(PlayError::IllegalMove)
    } else if !g.dom().contains(new_sub_key(b, g, player, grid, position)) {
        Some(PlayError::MissingState)
    } else if g[new_sub_key(b, g, player, grid, position)].winner is Some && !g.dom().contains(
        b.main_board,
    ) {
        Some(PlayError::MissingState)
    } else {
        None
    }
}

/// The `(outer cell, inner cell)` moves of sub-board `k` whose playable
/// cells are `s`.
pub open spec fn tag_seq(s: Seq<usize>, k: usize) -> Seq<(usize, usize)> {
    Seq::new(s.len(), |i: int| (k, s[i]))
}

/// The legal moves across the sub-boards at outer cells below `n`: the
/// playable cells of every ongoing sub-board, each tagged with its outer
/// cell, in ascending outer-cell order.
pub open spec fn outer_actions(b: Board, g: Map<usize, MiniBoard>, n: int) -> Seq<(usize, usize)>
    decreases n,
{
    if n <= 0 {
        Seq::empty()
    } else {
        let rest = outer_actions(b, g, n - 1);
        if g[grid_key(b, n - 1)].winner is None {
            rest + tag_seq(g[grid_key(b, n - 1)].actions@, (n - 1) as usize)
        } else {
            rest
        }
    }
}

/// The moves of a tagged action list are exactly the sub-board's playable
/// cells under that tag.
proof fn lemma_tag_seq_membership(s: Seq<usize>, k: usize, mv: (usize, usize))
    ensures
        tag_seq(s, k).contains(mv) <==> (mv.0 == k && s.contains(mv.1)),
{
    let t = tag_seq(s, k);
    if t.contains(mv) {
        let i: int = choose|i: int| 0 <= i < t.len() && t[i] == mv;
        assert(s[i] == mv.1);
    }
    if mv.0 == k && s.contains(mv.1) {
        let i: int = choose|i: int| 0 <= i < s.len() && s[i] == mv.1;
        assert(t[i] == mv);
    }
}

/// Send-rule enforcement, targeted case: while the sub-board that the
/// previous move sent to is still ongoing, the legal moves are exactly that
/// outer cell paired with each of its Free cells.
pub proof fn lemma_send_rule_targeted(b: Board, g: Map<usize, MiniBoard>, mv: (usize, usize))
    requires
        b.wf(),
        graph_wf(g),
        g.dom().contains(target_key(b)),
        g[target_key(b)].winner is None,
    ensures
        tag_seq(g[target_key(b)].actions@, b.previous_position).contains(mv) <==> (mv.0
            == b.previous_position && mv.1 < 9 && g[target_key(b)].cells@[mv.1 as int]
            == Player::Free),
{
    let node = g[target_key(b)];
    assert(node.wf());
    lemma_legal_moves_exhaustive(node);
    lemma_tag_seq_membership(node.actions@, b.previous_position, mv);
}

proof fn lemma_outer_actions_membership(b: Board, g: Map<usize, MiniBoard>, n: int, mv: (usize, usize))
    requires
        b.wf(),
        graph_wf(g),
        0 <= n <= 9,
        forall|k: int| 0 <= k < n ==> g.dom().contains(#[trigger] b.sub_boards@[k]),
    ensures
        outer_actions(b, g, n).contains(mv) <==> (mv.0 < n && g[grid_key(b, mv.0 as int)].winner
            is None && mv.1 < 9 && g[grid_key(b, mv.0 as int)].cells@[mv.1 as int]
            == Player::Free),
    decreases n,
{
    if n > 0 {
        lemma_outer_actions_membership(b, g, n - 1, mv);
        let rest = outer_actions(b, g, n - 1);
        let node = g[grid_key(b, n - 1)];
        assert(node.wf());
        if node.winner is None {
            let t = tag_seq(node.actions@, (n - 1) as usize);
            lemma_tag_seq_membership(node.actions@, (n - 1) as usize, mv);
            lemma_legal_moves_exhaustive(node);
            let whole = outer_actions(b, g, n);
            assert(whole == rest + t);
            if whole.contains(mv) {
                let i: int = choose|i: int| 0 <= i < whole.len() && whole[i] == mv;
                if i < rest.len() {
                    assert(rest[i] == mv);
                    assert(rest.contains(mv));
                } else {
                    assert(t[i - rest.len()] == mv);
                    assert(t.contains(mv));
                }
            }
            if rest.contains(mv) {
                let i: int = choose|i: int| 0 <= i < rest.len() && rest[i] == mv;
                assert(whole[i] == mv);
                assert(whole.contains(mv));
            }
            if t.contains(mv) {
                let i: int = choose|i: int| 0 <= i < t.len() && t[i] == mv;
                assert(whole[rest.len() + i] == mv);
                assert(whole.contains(mv));
            }
        }
    }
}

/// Send-rule enforcement, free-choice case: once the sub-board that the
/// previous move sent to is decided, the legal moves are exactly every
/// ongoing sub-board's outer cell paired with each of its Free cells.
pub proof fn lemma_send_rule_free_choice(b: Board, g: Map<usize, MiniBoard>, mv: (usize, usize))
    requires
        b.wf(),
        graph_wf(g),
        forall|k: int| 0 <= k < 9 ==> g.dom().contains(#[trigger] b.sub_boards@[k]),
    ensures
        outer_actions(b, g, 9).contains(mv) <==> (mv.0 < 9 && g[grid_key(b, mv.0 as int)].winner
            is None && mv.1 < 9 && g[grid_key(b, mv.0 as int)].cells@[mv.1 as int]
            == Player::Free),
{
    lemma_outer_actions_membership(b, g, 9, mv);
}

impl Board {
    /// Nine sub-board keys and bounded last-move cells.
    pub open spec fn wf(self) -> bool {
        &&& self.sub_boards@.len() == 9
        &&& self.previous_grid < 9
        &&& self.previous_position < 9
    }

    /// A fresh game: every sub-board and the meta-board at the empty board's
    /// key 0, and the last-move pair at the (0, 0) sentinel, which sends the
    /// first move to outer cell 0.
    pub fn new() -> (b: Board)
        ensures
            b.wf(),
            b.sub_boards@ == Seq::new(9, |i: int| 0usize),
            b.main_board == 0,
            b.previous_grid == 0,
            b.previous_position == 0,
    {
        let b = Board { sub_boards: vec![0usize; 9], main_board: 0, previous_grid: 0, previous_position: 0 };
        proof {
            assert(b.sub_boards@ =~= Seq::new(9, |i: int| 0usize));
        }
        b
    }

    /// Plays `player` into inner cell `position` of the sub-board at outer
    /// cell `grid`, advancing that sub-board's key along the graph's
    /// transition table; when the reached sub-board is terminal, its winner
    /// is played into outer cell `grid` on the meta-board. Rejects the move
    /// with `IllegalMove` and no change when the send rule forbids `grid`,
    /// the sub-board is already decided, or the cell is occupied or out of
    /// range; fails with `MissingState` and no change when a needed key is
    /// absent from the graph.
    pub fn play(&mut self, player: Player, grid: usize, position: usize, g: &HashMap<usize, MiniBoard>) -> (r: Result<(), PlayError>)
        requires
            old(self).wf(),
            graph_wf(g@),
            player != Player::Free,
        ensures
            final(self).wf(),
            match spec_play_err(*old(self), g@, player, grid as int, position as int) {
                Some(e) => r == Err::<(), PlayError>(e) && *final(self) == *old(self),
                None => {
                    &&& r == Ok::<(), PlayError>(())
                    &&& final(self).sub_boards@ == old(self).sub_boards@.update(
                        grid as int,
                        new_sub_key(*old(self), g@, player, grid as int, position as int),
                    )
                    &&& final(self).main_board == new_main_key(
                        *old(self),
                        g@,
                        player,
                        grid as int,
                        position as int,
                    )
                    &&& final(self).previous_grid == grid
                    &&& final(self).previous_position == position
                },
            },
    {
        if grid >= 9 || position >= 9 {
            return Err(PlayError::IllegalMove);
        }
        let tkey: usize = self.sub_boards[self.previous_position];
        let tnode = match g.get(&tkey) {
            Some(n) => n,
            None => {
                return Err(PlayError::MissingState);
            },
        };
        if !tnode.is_over() && grid != self.previous_position {
            return Err(PlayError::IllegalMove);
        }
        let pkey: usize = self.sub_boards[grid];
        let pnode = match g.get(&pkey) {
            Some(n) => n,
            None => {
                return Err(PlayError::MissingState);
            },
        };
        if pnode.is_over() {
            return Err(PlayError::IllegalMove);
        }
        if pnode.cells[position] != Player::Free {
            return Err(PlayError::IllegalMove);
        }
        let nk: usize = pnode.get_child(player, position);
        let nnode = match g.get(&nk) {
            Some(n) => n,
            None => {
                return Err(PlayError::MissingState);
            },
        };
        let new_main: usize = match nnode.get_winner() {
            Some(w) => {
                let mnode = match g.get(&self.main_board) {
                    Some(n) => n,
                    None => {
                        return Err(PlayError::MissingState);
                    },
                };
                mnode.get_child(w, grid)
            },
            None => self.main_board,
        };
        self.sub_boards[grid] = nk;
        self.main_board = new_main;
        self.previous_grid = grid;
        self.previous_position = position;
        Ok(())
    }

    /// The legal `(outer cell, inner cell)` moves: while the sub-board that
    /// the previous move sent to is ongoing, exactly its playable cells,
    /// tagged with that outer cell; once it is decided, the playable cells of
    /// every ongoing sub-board. Fails with `MissingState` when a needed key
    /// is absent from the graph.
    pub fn get_possible_actions(&self, g: &HashMap<usize, MiniBoard>) -> (r: Result<
        Vec<(usize, usize)>,
        PlayError,
    >)
        requires
            self.wf(),
            graph_wf(g@),
        ensures
            match r {
                Ok(v) => {
                    &&& g@.dom().contains(target_key(*self))
                    &&& if g@[target_key(*self)].winner is None {
                        v@ == tag_seq(g@[target_key(*self)].actions@, self.previous_position)
                    } else {
                        (forall|k: int|
                            0 <= k < 9 ==> g@.dom().contains(#[trigger] self.sub_boards@[k]))
                            && v@ == outer_actions(*self, g@, 9)
                    }
                },
                Err(e) => {
                    &&& e == PlayError::MissingState
                    &&& (!g@.dom().contains(target_key(*self)) || (g@[target_key(
                        *self,
                    )].winner is Some && exists|k: int|
                        0 <= k < 9 && !g@.dom().contains(#[trigger] self.sub_boards@[k])))
                },
            },
    {
        let tkey: usize = self.sub_boards[self.previous_position];
        let tnode = match g.get(&tkey) {
            Some(n) => n,
            None => {
                return Err(PlayError::MissingState);
            },
        };
        if !tnode.is_over() {
            let acts = tnode.get_possible_actions();
            let mut out: Vec<(usize, usize)> = Vec::new();
            let mut j: usize = 0;
            while j < acts.len()
                invariant
                    j <= acts@.len(),
                    acts@ == g@[target_key(*self)].actions@,
                    out@ == tag_seq(acts@, self.previous_position).subrange(0, j as int),
                decreases acts@.len() - j,
            {
                out.push((self.previous_position, acts[j]));
                proof {
                    assert(out@ =~= tag_seq(acts@, self.previous_position).subrange(
                        0,
                        j as int + 1,
                    ));
                }
                j += 1;
            }
            proof {
                assert(out@ =~= tag_seq(acts@, self.previous_position));
            }
            return Ok(out);
        }
        let mut out: Vec<(usize, usize)> = Vec::new();
        let mut k: usize = 0;
        while k < 9
            invariant
                self.wf(),
                graph_wf(g@),
                g@.dom().contains(target_key(*self)),
                g@[target_key(*self)].winner is Some,
                k <= 9,
                forall|kk: int| 0 <= kk < k ==> g@.dom().contains(#[trigger] self.sub_boards@[kk]),
                out@ == outer_actions(*self, g@, k as int),
            decreases 9 - k,
        {
            let key: usize = self.sub_boards[k];
            let node = match g.get(&key) {
                Some(n) => n,
                None => {
                    return Err(PlayError::MissingState);
                },
            };
            if !node.is_over() {
                let acts = node.get_possible_actions();
                let ghost out_before = out@;
                let mut j: usize = 0;
                while j < acts.len()
                    invariant
                        j <= acts@.len(),
                        k < 9,
                        acts@ == g@[grid_key(*self, k as int)].actions@,
                        out@ == out_before + tag_seq(acts@, k).subrange(0, j as int),
                    decreases acts@.len() - j,
                {
                    out.push((k, acts[j]));
                    proof {
                        assert(out@ =~= out_before + tag_seq(acts@, k).subrange(0, j as int + 1));
                    }
                    j += 1;
                }
                proof {
                    assert(out_before + tag_seq(acts@, k).subrange(0, acts@.len() as int)
                        =~= outer_actions(*self, g@, k as int + 1));
                }
            }
            k += 1;
        }
        Ok(out)
    }
}

} // verus!
