//! Exhaustive enumeration of every sub-board state reachable from the empty
//! board, deduplicated by canonical key.

use vstd::prelude::*;

use std::collections::HashMap;
use std::collections::VecDeque;

use crate::miniboard::{
    board_key, lemma_key_prefix_bounds, lemma_key_zero_all_free, lemma_pow3_9, mover_offset,
    spec_child_key, MiniBoard, Player, KEY_BOUND,
};

verus! {

broadcast use vstd::std_specs::hash::group_hash_axioms,
    vstd::std_specs::vecdeque::group_vec_dequeue_axioms;

/// Every stored state is finalized and stored under its own canonical key.
pub open spec fn graph_wf(g: Map<usize, MiniBoard>) -> bool {
    forall|k: usize| #[trigger] g.dom().contains(k) ==> g[k].wf() && g[k].hash_value == k
}

/// The transition table of one enumerated state is complete: while the state
/// is ongoing, the entry for every mover and every Free cell is the key of
/// the board that the move produces; every other entry is 0.
pub open spec fn node_transitions_ok(n: MiniBoard) -> bool {
    forall|p: Player, pos: int|
        p != Player::Free && 0 <= pos < 9 ==> #[trigger] spec_child_key(n, p, pos) == (
        if n.winner is None && n.cells@[pos] == Player::Free {
            board_key(n.cells@.update(pos, p))
        } else {
            0
        })
}

pub open spec fn graph_transitions_ok(g: Map<usize, MiniBoard>) -> bool {
    forall|k: usize| #[trigger] g.dom().contains(k) ==> node_transitions_ok(g[k])
}

/// No transition dangles: every key recorded in any stored state's table is
/// itself a key of the graph.
pub open spec fn graph_closed(g: Map<usize, MiniBoard>) -> bool {
    forall|k: usize, i: int|
        g.dom().contains(k) && 0 <= i < 27 ==> g.dom().contains(#[trigger] g[k].childs@[i])
}

/// Some state still waiting in the traversal queue has key `h`.
pub open spec fn in_pending(q: Seq<MiniBoard>, h: usize) -> bool {
    exists|j: int| 0 <= j < q.len() && q[j].hash_value == h
}

/// A key pending in a prefix of a queue is still pending in the whole queue.
proof fn lemma_pending_monotone(q1: Seq<MiniBoard>, q2: Seq<MiniBoard>)
    requires
        q1.len() <= q2.len(),
        forall|j: int| 0 <= j < q1.len() ==> q2[j] == q1[j],
    ensures
        forall|c: usize| in_pending(q1, c) ==> in_pending(q2, c),
{
    assert forall|c: usize| in_pending(q1, c) implies in_pending(q2, c) by {
        let j: int = choose|j: int| 0 <= j < q1.len() && q1[j].hash_value == c;
        assert(q2[j].hash_value == c);
    };
}

/// A well-formed graph holds at most one state per possible canonical key.
proof fn lemma_graph_size(g: Map<usize, MiniBoard>)
    requires
        graph_wf(g),
        g.dom().finite(),
    ensures
        g.len() <= KEY_BOUND,
{
    let big = Set::<usize>::range(0, KEY_BOUND);
    assert forall|k: usize| g.dom().contains(k) implies big.contains(k) by {
        lemma_key_prefix_bounds(g[k].cells@, 9);
        lemma_pow3_9();
    };
    vstd::set_lib::range_set_properties::<usize>(0, KEY_BOUND);
    vstd::set_lib::lemma_len_subset(g.dom(), big);
}

/// Builds the full state graph by breadth-first traversal from the empty
/// board, exploring every mover in {X, O, Draw} at every Free cell of every
/// ongoing state, deduplicating by canonical key.
pub fn build_graph() -> (g: HashMap<usize, MiniBoard>)
    ensures
        graph_wf(g@),
        graph_transitions_ok(g@),
        graph_closed(g@),
        g@.dom().contains(0usize),
        g@[0usize].cells@ == Seq::new(9, |i: int| Player::Free),
{
    let mut g: HashMap<usize, MiniBoard> = HashMap::new();
    let mut q: VecDeque<MiniBoard> = VecDeque::new();
    let root = MiniBoard::new();
    q.push_back(root);
    proof {
        assert(q@[0] == root);
        assert(in_pending(q@, 0usize));
    }
    while q.len() != 0
        invariant
            graph_wf(g@),
            graph_transitions_ok(g@),
            forall|j: int|
                0 <= j < q@.len() ==> (#[trigger] q@[j]).wf() && q@[j].childs@ == Seq::new(
                    27,
                    |i: int| 0usize,
                ),
            forall|k: usize, i: int|
                g@.dom().contains(k) && 0 <= i < 27 ==> g@.dom().contains(
                    #[trigger] g@[k].childs@[i],
                ) || in_pending(q@, g@[k].childs@[i]),
            g@.dom().contains(0usize) || in_pending(q@, 0usize),
            g@.dom().contains(0usize) ==> g@[0usize].cells@ == Seq::new(9, |i: int| Player::Free),
            g@.len() <= KEY_BOUND,
        decreases KEY_BOUND - g@.len(), q@.len(),
    {
        let ghost q_before = q@;
        let node_opt = q.pop_front();
        let mut node = node_opt.unwrap();
        let h: usize = node.get_hash();
        proof {
            assert forall|c: usize| in_pending(q_before, c) implies in_pending(q@, c) || c == h by {
                let j: int = choose|j: int| 0 <= j < q_before.len() && q_before[j].hash_value == c;
                if j > 0 {
                    assert(q@[j - 1].hash_value == c);
                }
            };
        }
        if g.contains_key(&h) {
            proof {
                assert forall|k: usize, i: int|
                    g@.dom().contains(k) && 0 <= i < 27 implies g@.dom().contains(
                    #[trigger] g@[k].childs@[i],
                ) || in_pending(q@, g@[k].childs@[i]) by {
                    let c: usize = g@[k].childs@[i];
                    assert(g@.dom().contains(c) || in_pending(q_before, c));
                };
            }
            continue;
        }
        let ghost q_after_pop = q@;
        if !node.is_over() {
            let ghost g_snap = g@;
            let ghost node0 = node;
            let mut pos: usize = 0;
            while pos < 9
                invariant
                    g@ == g_snap,
                    node.wf(),
                    node.cells@ == node0.cells@,
                    node.winner == node0.winner,
                    node.hash_value == node0.hash_value,
                    node.actions@ == node0.actions@,
                    node0.winner is None,
                    node0.hash_value == h,
                    pos <= 9,
                    graph_wf(g@),
                    graph_transitions_ok(g@),
                    forall|j: int|
                        0 <= j < q@.len() ==> (#[trigger] q@[j]).wf() && q@[j].childs@ == Seq::new(
                            27,
                            |i: int| 0usize,
                        ),
                    forall|k: usize, i: int|
                        g@.dom().contains(k) && 0 <= i < 27 ==> g@.dom().contains(
                            #[trigger] g@[k].childs@[i],
                        ) || in_pending(q@, g@[k].childs@[i]) || g@[k].childs@[i] == h,
                    g@.dom().contains(0usize) || in_pending(q@, 0usize) || h == 0,
                    forall|p: Player, pp: int|
                        p != Player::Free && 0 <= pp < pos ==> #[trigger] spec_child_key(
                            node,
                            p,
                            pp,
                        ) == (if node0.cells@[pp] == Player::Free {
                            board_key(node0.cells@.update(pp, p))
                        } else {
                            0
                        }),
                    forall|p: Player, pp: int|
                        p != Player::Free && 0 <= pp < pos && node0.cells@[pp] == Player::Free
                            ==> in_pending(q@, #[trigger] spec_child_key(node, p, pp)),
                    forall|p: Player, pp: int|
                        p != Player::Free && pos <= pp < 9 ==> #[trigger] spec_child_key(
                            node,
                            p,
                            pp,
                        ) == 0,
                decreases 9 - pos,
            {
                let ghost q_iter = q@;
                let ghost node_iter = node;
                let rx = node.play(Player::X, pos);
                let ghost rxg = rx;
                if let Some(child) = rx {
                    q.push_back(child);
                }
                let ro = node.play(Player::O, pos);
                let ghost rog = ro;
                if let Some(child) = ro {
                    q.push_back(child);
                }
                let rd = node.play(Player::Draw, pos);
                let ghost rdg = rd;
                if let Some(child) = rd {
                    q.push_back(child);
                }
                proof {
                    lemma_pending_monotone(q_iter, q@);
                    assert forall|p: Player, pp: int|
                        p != Player::Free && 0 <= pp < 9 && pp != pos implies #[trigger] spec_child_key(
                        node,
                        p,
                        pp,
                    ) == spec_child_key(node_iter, p, pp) by {
                        assert(mover_offset(p) + pp != mover_offset(Player::X) + pos);
                        assert(mover_offset(p) + pp != mover_offset(Player::O) + pos);
                        assert(mover_offset(p) + pp != mover_offset(Player::Draw) + pos);
                    };
                    if node_iter.cells@[pos as int] == Player::Free {
                        let cx = rxg->Some_0;
                        let co = rog->Some_0;
                        let cd = rdg->Some_0;
                        assert(q@[q_iter.len() as int] == cx);
                        assert(q@[q_iter.len() as int + 1] == co);
                        assert(q@[q_iter.len() as int + 2] == cd);
                        assert(in_pending(q@, cx.hash_value));
                        assert(in_pending(q@, co.hash_value));
                        assert(in_pending(q@, cd.hash_value));
                        assert(cx.wf() && co.wf() && cd.wf());
                        assert(spec_child_key(node, Player::X, pos as int) == cx.hash_value);
                        assert(spec_child_key(node, Player::O, pos as int) == co.hash_value);
                        assert(spec_child_key(node, Player::Draw, pos as int) == cd.hash_value);
                        assert(cx.hash_value == board_key(node0.cells@.update(pos as int, Player::X)));
                        assert(co.hash_value == board_key(node0.cells@.update(pos as int, Player::O)));
                        assert(cd.hash_value == board_key(node0.cells@.update(pos as int, Player::Draw)));
                    } else {
                        assert(spec_child_key(node_iter, Player::X, pos as int) == 0);
                        assert(spec_child_key(node_iter, Player::O, pos as int) == 0);
                        assert(spec_child_key(node_iter, Player::Draw, pos as int) == 0);
                        assert(spec_child_key(node, Player::X, pos as int) == 0);
                        assert(spec_child_key(node, Player::O, pos as int) == 0);
                        assert(spec_child_key(node, Player::Draw, pos as int) == 0);
                    }
                    assert forall|p: Player, pp: int|
                        p != Player::Free && 0 <= pp < pos + 1 implies #[trigger] spec_child_key(
                        node,
                        p,
                        pp,
                    ) == (if node0.cells@[pp] == Player::Free {
                        board_key(node0.cells@.update(pp, p))
                    } else {
                        0
                    }) by {
                        if pp < pos {
                            assert(spec_child_key(node, p, pp) == spec_child_key(node_iter, p, pp));
                        }
                    };
                    assert forall|p: Player, pp: int|
                        p != Player::Free && pos + 1 <= pp < 9 implies #[trigger] spec_child_key(
                        node,
                        p,
                        pp,
                    ) == 0 by {
                        assert(spec_child_key(node, p, pp) == spec_child_key(node_iter, p, pp));
                    };
                }
                pos += 1;
            }
        }
        proof {
            // Every transition entry of the state about to be stored is
            // either still unexplored (0) or the key of a queued child.
            assert forall|i: int| 0 <= i < 27 implies node.childs@[i] == 0 || in_pending(
                q@,
                node.childs@[i],
            ) by {
                let p = if i < 9 {
                    Player::X
                } else if i < 18 {
                    Player::O
                } else {
                    Player::Draw
                };
                let pp: int = i - mover_offset(p);
                assert(node.childs@[i] == spec_child_key(node, p, pp));
                if node.winner is None && node.cells@[pp] == Player::Free {
                    assert(in_pending(q@, spec_child_key(node, p, pp)));
                }
            };
            if node.winner is Some {
                assert forall|p: Player, pp: int|
                    p != Player::Free && 0 <= pp < 9 implies #[trigger] spec_child_key(
                    node,
                    p,
                    pp,
                ) == 0 by {
                    assert(node.childs@[mover_offset(p) + pp] == 0);
                }
            }
            assert(node_transitions_ok(node));
            // On both paths the stored states' entries are in the map, still
            // queued, or equal to the key being inserted now.
            assert forall|k: usize, i: int|
                g@.dom().contains(k) && 0 <= i < 27 implies g@.dom().contains(
                #[trigger] g@[k].childs@[i],
            ) || in_pending(q@, g@[k].childs@[i]) || g@[k].childs@[i] == h by {
                if node.winner is Some {
                    let c: usize = g@[k].childs@[i];
                    assert(g@.dom().contains(c) || in_pending(q_before, c));
                }
            };
            assert(g@.dom().contains(0usize) || in_pending(q@, 0usize) || h == 0) by {
                if node.winner is Some && !g@.dom().contains(0usize) {
                    assert(in_pending(q_before, 0usize));
                }
            };
        }
        let ghost g_pre = g@;
        g.insert(h, node);
        proof {
            if h == 0 {
                lemma_key_zero_all_free(node.cells@, 9);
                assert(node.cells@ =~= Seq::new(9, |i: int| Player::Free));
            }
            assert forall|k: usize, i: int|
                g@.dom().contains(k) && 0 <= i < 27 implies g@.dom().contains(
                #[trigger] g@[k].childs@[i],
            ) || in_pending(q@, g@[k].childs@[i]) by {
                let c: usize = g@[k].childs@[i];
                if k == h {
                    assert(c == 0 || in_pending(q@, c));
                } else {
                    assert(g@[k] == g_pre[k]);
                    assert(g_pre.dom().contains(g_pre[k].childs@[i]) || in_pending(
                        q@,
                        g_pre[k].childs@[i],
                    ) || g_pre[k].childs@[i] == h);
                }
            };
            lemma_graph_size(g@);
        }
    }
    g
}

} // verus!
