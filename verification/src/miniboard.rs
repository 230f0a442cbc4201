//! One 3x3 tic-tac-toe grid: cell contents, terminal status, canonical key,
//! playable cells, and the per-state transition table.

use vstd::prelude::*;

verus! {

/// A cell mark or mover. `Draw` is never placed into a cell by a sub-board
/// move; it appears only as a board-level outcome, and as the pseudo-mover
/// that records a drawn sub-board on the outer meta-board.
#[derive(PartialEq, Eq, Structural, Clone, Copy, Debug)]
pub enum Player {
    X,
    O,
    Free,
    Draw,
}

/// Digit of a mark in the canonical key encoding.
pub open spec fn digit(p: Player) -> int {
    match p {
        Player::Free => 0,
        Player::X => 1,
        Player::O => 2,
        Player::Draw => 3,
    }
}

/// Canonical key of the first `n` cells, most significant digit first:
/// the key is accumulated as `key * 3 + digit(cell)` for cells 0..n.
pub open spec fn key_prefix(cells: Seq<Player>, n: int) -> int
    decreases n,
{
    if n <= 0 {
        0
    } else {
        key_prefix(cells, n - 1) * 3 + digit(cells[n - 1])
    }
}

/// Canonical key of a 9-cell board.
pub open spec fn board_key(cells: Seq<Player>) -> int {
    key_prefix(cells, 9)
}

pub open spec fn pow3(n: nat) -> int
    decreases n,
{
    if n == 0 {
        1
    } else {
        3 * pow3((n - 1) as nat)
    }
}

/// One more key than the largest canonical key of a 9-cell board
/// (all nine digits at their maximum of 3).
pub const KEY_BOUND: usize = 29524;

/// The cells at indices `a`, `b`, `c` carry the same non-Free mark.
pub open spec fn line_wins(cells: Seq<Player>, a: int, b: int, c: int) -> bool {
    &&& cells[a] != Player::Free
    &&& cells[a] == cells[b]
    &&& cells[b] == cells[c]
}

pub open spec fn board_full(cells: Seq<Player>) -> bool {
    forall|i: int| 0 <= i < 9 ==> cells[i] != Player::Free
}

/// `(a, b, c)` is one of the 8 winning lines: 3 columns, 3 rows, 2 diagonals,
/// in the fixed order in which the winner is determined.
pub open spec fn win_line(a: int, b: int, c: int) -> bool {
    ||| (a == 0 && b == 3 && c == 6)
    ||| (a == 1 && b == 4 && c == 7)
    ||| (a == 2 && b == 5 && c == 8)
    ||| (a == 0 && b == 1 && c == 2)
    ||| (a == 3 && b == 4 && c == 5)
    ||| (a == 6 && b == 7 && c == 8)
    ||| (a == 0 && b == 4 && c == 8)
    ||| (a == 2 && b == 4 && c == 6)
}

/// Terminal outcome of a board: the lines are checked in a fixed order
/// (columns, rows, then the two diagonals, first match wins); a full board
/// with no winning line is a draw; anything else is ongoing.
pub open spec fn winner_of(cells: Seq<Player>) -> Option<Player> {
    if line_wins(cells, 0, 3, 6) {
        Some(cells[0])
    } else if line_wins(cells, 1, 4, 7) {
        Some(cells[1])
    } else if line_wins(cells, 2, 5, 8) {
        Some(cells[2])
    } else if line_wins(cells, 0, 1, 2) {
        Some(cells[0])
    } else if line_wins(cells, 3, 4, 5) {
        Some(cells[3])
    } else if line_wins(cells, 6, 7, 8) {
        Some(cells[6])
    } else if line_wins(cells, 0, 4, 8) {
        Some(cells[4])
    } else if line_wins(cells, 2, 4, 6) {
        Some(cells[4])
    } else if board_full(cells) {
        Some(Player::Draw)
    } else {
        None
    }
}

/// The indices below `n` whose cell is Free, in ascending order.
pub open spec fn free_prefix(cells: Seq<Player>, n: int) -> Seq<usize>
    decreases n,
{
    if n <= 0 {
        Seq::empty()
    } else if cells[n - 1] == Player::Free {
        free_prefix(cells, n - 1).push((n - 1) as usize)
    } else {
        free_prefix(cells, n - 1)
    }
}

pub open spec fn free_cells(cells: Seq<Player>) -> Seq<usize> {
    free_prefix(cells, 9)
}

/// The playable cells of a board: its Free cells while ongoing, none once
/// terminal.
pub open spec fn actions_of(cells: Seq<Player>) -> Seq<usize> {
    if winner_of(cells) is Some {
        Seq::empty()
    } else {
        free_cells(cells)
    }
}

/// Block offset of a mover in the 27-entry transition table: X occupies
/// entries 0..9, O entries 9..18, Draw entries 18..27.
pub open spec fn mover_offset(p: Player) -> int {
    match p {
        Player::X => 0,
        Player::O => 9,
        Player::Draw => 18,
        Player::Free => 0,
    }
}

/// The transition-table entry of board `b` for `(p, pos)`: the key of the
/// board that playing `p` at cell `pos` leads to, or 0 while unexplored.
pub open spec fn spec_child_key(b: MiniBoard, p: Player, pos: int) -> usize {
    b.childs@[mover_offset(p) + pos]
}

/// One 3x3 grid's state. `cells`, `winner`, `hash_value` and `actions` are
/// fixed when the state is finalized; only the transition table `childs` is
/// filled in additively as moves from this state are explored.
pub struct MiniBoard {
    /// The 9 cells in row-major order.
    pub cells: Vec<Player>,
    /// Terminal outcome, `None` while ongoing.
    pub winner: Option<Player>,
    /// Transition table: entry `mover_offset(p) + pos` holds the key of the
    /// board reached by playing `p` at `pos`, or 0 while unexplored.
    pub childs: Vec<usize>,
    /// Cached canonical key of `cells`.
    pub hash_value: usize,
    /// Cached playable cells.
    pub actions: Vec<usize>,
}

impl MiniBoard {
    /// A finalized state: the cached winner, key and playable cells all agree
    /// with the cell contents.
    pub open spec fn wf(self) -> bool {
        &&& self.cells@.len() == 9
        &&& self.childs@.len() == 27
        &&& self.winner == winner_of(self.cells@)
        &&& self.hash_value == board_key(self.cells@)
        &&& self.actions@ == actions_of(self.cells@)
    }

    /// The empty board: all cells Free, ongoing, key 0, no transitions yet.
    pub fn new() -> (b: MiniBoard)
        ensures
            b.wf(),
            b.cells@ == Seq::new(9, |i: int| Player::Free),
            b.winner is None,
            b.hash_value == 0,
            b.childs@ == Seq::new(27, |i: int| 0usize),
    {
        let mut ans = MiniBoard {
            cells: vec![Player::Free; 9],
            winner: None,
            childs: vec![0usize; 27],
            hash_value: 0,
            actions: Vec::new(),
        };
        proof {
            assert(ans.cells@ =~= Seq::new(9, |i: int| Player::Free));
            assert(ans.childs@ =~= Seq::new(27, |i: int| 0usize));
            assert(winner_of(ans.cells@) is None);
            lemma_key_prefix_all_free(ans.cells@, 9);
        }
        ans.set_possible_actions();
        ans
    }

    /// If cell `pos` is Free, returns the finalized state that playing
    /// `player` there produces and records its key in this state's transition
    /// table; returns `None` without any change if the cell is occupied.
    pub fn play(&mut self, player: Player, pos: usize) -> (r: Option<MiniBoard>)
        requires
            old(self).wf(),
            pos < 9,
            player != Player::Free,
        ensures
            final(self).wf(),
            final(self).cells@ == old(self).cells@,
            final(self).winner == old(self).winner,
            final(self).hash_value == old(self).hash_value,
            final(self).actions@ == old(self).actions@,
            old(self).cells@[pos as int] != Player::Free ==> r is None && final(self).childs@
                == old(self).childs@,
            old(self).cells@[pos as int] == Player::Free ==> (r matches Some(child)
                && child.wf()
                && child.cells@ == old(self).cells@.update(pos as int, player)
                && child.childs@ == Seq::new(27, |i: int| 0usize)
                && final(self).childs@ == old(self).childs@.update(
                    mover_offset(player) + pos,
                    child.hash_value,
                )),
    {
        if self.cells[pos] == Player::Free {
            let mut child = MiniBoard {
                cells: copied_cells(&self.cells),
                winner: None,
                childs: vec![0usize; 27],
                hash_value: 0,
                actions: Vec::new(),
            };
            proof {
                assert(child.childs@ =~= Seq::new(27, |i: int| 0usize));
            }
            child.cells[pos] = player;
            child.set_winner();
            child.set_hash();
            child.set_possible_actions();
            let child_key: usize = child.get_hash();
            self.set_child(player, pos, child_key);
            Some(child)
        } else {
            None
        }
    }

    /// Records `child` as the key reached by playing `player` at `pos`.
    pub fn set_child(&mut self, player: Player, pos: usize, child: usize)
        requires
            old(self).childs@.len() == 27,
            pos < 9,
        ensures
            final(self).cells@ == old(self).cells@,
            final(self).winner == old(self).winner,
            final(self).hash_value == old(self).hash_value,
            final(self).actions@ == old(self).actions@,
            final(self).childs@ == old(self).childs@.update(mover_offset(player) + pos, child),
    {
        let offset: usize = match player {
            Player::X => 0,
            Player::O => 9,
            Player::Draw => 18,
            Player::Free => 0,
        };
        self.childs[offset + pos] = child;
    }

    /// Recomputes the cached key from the cells.
    pub fn set_hash(&mut self)
        requires
            old(self).cells@.len() == 9,
        ensures
            final(self).cells@ == old(self).cells@,
            final(self).winner == old(self).winner,
            final(self).childs@ == old(self).childs@,
            final(self).actions@ == old(self).actions@,
            final(self).hash_value == board_key(old(self).cells@),
    {
        let h: u64 = self.hash();
        proof {
            lemma_key_prefix_bounds(self.cells@, 9);
            lemma_pow3_9();
        }
        self.hash_value = h as usize;
    }

    pub fn get_hash(&self) -> (r: usize)
        ensures
            r == self.hash_value,
    {
        self.hash_value
    }

    /// The key recorded in the transition table for `(player, pos)`.
    pub fn get_child(&self, player: Player, pos: usize) -> (r: usize)
        requires
            self.childs@.len() == 27,
            pos < 9,
        ensures
            r == spec_child_key(*self, player, pos as int),
    {
        let offset: usize = match player {
            Player::X => 0,
            Player::O => 9,
            Player::Draw => 18,
            Player::Free => 0,
        };
        self.childs[offset + pos]
    }

    /// Fills the cached playable cells if the board is ongoing and the cache
    /// is still empty; leaves a non-empty or terminal cache alone.
    pub fn set_possible_actions(&mut self)
        requires
            old(self).cells@.len() == 9,
        ensures
            final(self).cells@ == old(self).cells@,
            final(self).winner == old(self).winner,
            final(self).childs@ == old(self).childs@,
            final(self).hash_value == old(self).hash_value,
            old(self).winner is Some || old(self).actions@.len() > 0 ==> final(self).actions@
                == old(self).actions@,
            old(self).winner is None && old(self).actions@.len() == 0 ==> final(self).actions@
                == free_cells(old(self).cells@),
    {
        if !self.is_over() && self.actions.len() == 0 {
            let mut i: usize = 0;
            while i < 9
                invariant
                    self.cells@.len() == 9,
                    i <= 9,
                    self.cells@ == old(self).cells@,
                    self.winner == old(self).winner,
                    self.childs@ == old(self).childs@,
                    self.hash_value == old(self).hash_value,
                    self.actions@ == free_prefix(self.cells@, i as int),
                decreases 9 - i,
            {
                if self.cells[i] == Player::Free {
                    self.actions.push(i);
                }
                i += 1;
            }
        }
    }

    /// The cached playable cells.
    pub fn get_possible_actions(&self) -> (r: Vec<usize>)
        ensures
            r@ == self.actions@,
    {
        let r = self.actions.clone();
        proof {
            assert(r@ =~= self.actions@);
        }
        r
    }

    /// The canonical key of the cells: base 3, most significant cell first,
    /// with Free = 0, X = 1, O = 2, Draw = 3.
    pub fn hash(&self) -> (r: u64)
        requires
            self.cells@.len() == 9,
        ensures
            r == board_key(self.cells@),
    {
        let mut ans: u64 = 0;
        let mut i: usize = 0;
        while i < 9
            invariant
                self.cells@.len() == 9,
                i <= 9,
                ans == key_prefix(self.cells@, i as int),
                2 * ans <= 3 * (pow3(i as nat) - 1),
            decreases 9 - i,
        {
            proof {
                lemma_key_prefix_bounds(self.cells@, i as int);
                lemma_key_prefix_bounds(self.cells@, i as int + 1);
                lemma_pow3_9();
                lemma_pow3_le(i as nat, 9);
                lemma_pow3_le(i as nat + 1, 9);
            }
            let val: u64 = match self.cells[i] {
                Player::X => 1,
                Player::O => 2,
                Player::Draw => 3,
                Player::Free => 0,
            };
            ans = ans * 3 + val;
            i += 1;
        }
        ans
    }

    /// Whether the board has a terminal outcome.
    pub fn is_over(&self) -> (r: bool)
        ensures
            r == (self.winner is Some),
    {
        self.winner.is_some()
    }

    /// Recomputes the terminal outcome from the cells: columns, rows, then
    /// the two diagonals, first match winning; a full board with no line is
    /// a draw.
    fn set_winner(&mut self)
        requires
            old(self).cells@.len() == 9,
        ensures
            final(self).cells@ == old(self).cells@,
            final(self).childs@ == old(self).childs@,
            final(self).hash_value == old(self).hash_value,
            final(self).actions@ == old(self).actions@,
            final(self).winner == winner_of(old(self).cells@),
    {
        // check columns
        if self.cells[0] != Player::Free && self.cells[0] == self.cells[3] && self.cells[3]
            == self.cells[6] {
            self.winner = Some(self.cells[0]);
            return;
        }
        if self.cells[1] != Player::Free && self.cells[1] == self.cells[4] && self.cells[4]
            == self.cells[7] {
            self.winner = Some(self.cells[1]);
            return;
        }
        if self.cells[2] != Player::Free && self.cells[2] == self.cells[5] && self.cells[5]
            == self.cells[8] {
            self.winner = Some(self.cells[2]);
            return;
        }
        // check rows
        if self.cells[0] != Player::Free && self.cells[0] == self.cells[1] && self.cells[1]
            == self.cells[2] {
            self.winner = Some(self.cells[0]);
            return;
        }
        if self.cells[3] != Player::Free && self.cells[3] == self.cells[4] && self.cells[4]
            == self.cells[5] {
            self.winner = Some(self.cells[3]);
            return;
        }
        if self.cells[6] != Player::Free && self.cells[6] == self.cells[7] && self.cells[7]
            == self.cells[8] {
            self.winner = Some(self.cells[6]);
            return;
        }
        // check diagonals
        if self.cells[0] != Player::Free && self.cells[0] == self.cells[4] && self.cells[4]
            == self.cells[8] {
            self.winner = Some(self.cells[4]);
            return;
        }
        if self.cells[2] != Player::Free && self.cells[2] == self.cells[4] && self.cells[4]
            == self.cells[6] {
            self.winner = Some(self.cells[4]);
            return;
        }
        // check draw
        let mut full = true;
        let mut i: usize = 0;
        while i < 9
            invariant
                self.cells@.len() == 9,
                i <= 9,
                self.cells@ == old(self).cells@,
                self.winner == old(self).winner,
                self.childs@ == old(self).childs@,
                self.hash_value == old(self).hash_value,
                self.actions@ == old(self).actions@,
                full == (forall|j: int| 0 <= j < i ==> self.cells@[j] != Player::Free),
            decreases 9 - i,
        {
            if self.cells[i] == Player::Free {
                full = false;
            }
            i += 1;
        }
        self.winner = if full {
            Some(Player::Draw)
        } else {
            None
        };
    }

    /// The terminal outcome, `None` while ongoing.
    pub fn get_winner(&self) -> (r: Option<Player>)
        ensures
            r == self.winner,
    {
        self.winner
    }
}

/// A fresh copy of a 9-cell vector.
fn copied_cells(v: &Vec<Player>) -> (r: Vec<Player>)
    requires
        v@.len() == 9,
    ensures
        r@ == v@,
{
    let mut r: Vec<Player> = Vec::new();
    proof {
        assert(r@ =~= v@.subrange(0, 0));
    }
    let mut i: usize = 0;
    while i < 9
        invariant
            v@.len() == 9,
            i <= 9,
            r@ == v@.subrange(0, i as int),
        decreases 9 - i,
    {
        let c = v[i];
        r.push(c);
        proof {
            assert(r@ =~= v@.subrange(0, i + 1));
        }
        i += 1;
    }
    proof {
        assert(v@.subrange(0, 9) =~= v@);
    }
    r
}

pub proof fn lemma_pow3_9()
    ensures
        pow3(9) == 19683,
{
    reveal_with_fuel(pow3, 10);
}

pub proof fn lemma_pow3_pos(n: nat)
    ensures
        pow3(n) >= 1,
    decreases n,
{
    if n > 0 {
        lemma_pow3_pos((n - 1) as nat);
    }
}

pub proof fn lemma_pow3_le(m: nat, n: nat)
    requires
        m <= n,
    ensures
        0 < pow3(m) <= pow3(n),
    decreases n,
{
    lemma_pow3_pos(m);
    if m < n {
        lemma_pow3_le(m, (n - 1) as nat);
    }
}

/// The canonical key of any prefix is non-negative and at most
/// `(3 * (pow3(n) - 1)) / 2`, every digit being at most 3.
pub proof fn lemma_key_prefix_bounds(cells: Seq<Player>, n: int)
    requires
        0 <= n,
    ensures
        0 <= key_prefix(cells, n),
        2 * key_prefix(cells, n) <= 3 * (pow3(n as nat) - 1),
    decreases n,
{
    if n > 0 {
        lemma_key_prefix_bounds(cells, n - 1);
        assert(pow3(n as nat) == 3 * pow3((n - 1) as nat));
    }
}

/// A board of Free cells has key 0.
pub proof fn lemma_key_prefix_all_free(cells: Seq<Player>, n: int)
    requires
        forall|i: int| 0 <= i < n ==> cells[i] == Player::Free,
    ensures
        key_prefix(cells, n) == 0,
    decreases n,
{
    if n > 0 {
        lemma_key_prefix_all_free(cells, n - 1);
    }
}

proof fn lemma_key_prefix_injective(c1: Seq<Player>, c2: Seq<Player>, n: int)
    requires
        0 <= n <= c1.len(),
        n <= c2.len(),
        forall|i: int| 0 <= i < n ==> c1[i] != Player::Draw,
        forall|i: int| 0 <= i < n ==> c2[i] != Player::Draw,
        key_prefix(c1, n) == key_prefix(c2, n),
    ensures
        forall|i: int| 0 <= i < n ==> c1[i] == c2[i],
    decreases n,
{
    if n > 0 {
        lemma_key_prefix_bounds(c1, n - 1);
        lemma_key_prefix_bounds(c2, n - 1);
        assert(0 <= digit(c1[n - 1]) < 3);
        assert(0 <= digit(c2[n - 1]) < 3);
        assert(key_prefix(c1, n - 1) == key_prefix(c2, n - 1));
        assert(digit(c1[n - 1]) == digit(c2[n - 1]));
        assert(c1[n - 1] == c2[n - 1]);
        lemma_key_prefix_injective(c1, c2, n - 1);
    }
}

/// Canonical key uniqueness: over boards that hold only Free, X and O marks,
/// two boards have the same canonical key exactly when they have the same
/// cells. (A Draw mark's digit equals the base, so boards that carry Draw
/// marks can collide.)
pub proof fn lemma_canonical_key_uniqueness(c1: Seq<Player>, c2: Seq<Player>)
    requires
        c1.len() == 9,
        c2.len() == 9,
        forall|i: int| 0 <= i < 9 ==> c1[i] != Player::Draw,
        forall|i: int| 0 <= i < 9 ==> c2[i] != Player::Draw,
    ensures
        board_key(c1) == board_key(c2) <==> c1 == c2,
{
    if board_key(c1) == board_key(c2) {
        lemma_key_prefix_injective(c1, c2, 9);
        assert(c1 =~= c2);
    }
}

/// Win detection symmetry: a board with one winning line filled uniformly by
/// X or by O and every other cell Free reports that mover as its winner,
/// whichever of the 8 lines it is.
pub proof fn lemma_win_detection(cells: Seq<Player>, a: int, b: int, c: int, p: Player)
    requires
        cells.len() == 9,
        win_line(a, b, c),
        p == Player::X || p == Player::O,
        cells[a] == p,
        cells[b] == p,
        cells[c] == p,
        forall|i: int| 0 <= i < 9 && i != a && i != b && i != c ==> cells[i] == Player::Free,
    ensures
        winner_of(cells) == Some(p),
{
}

/// Draw detection: a fully filled board with no uniform line is a draw.
pub proof fn lemma_draw_detection(cells: Seq<Player>)
    requires
        cells.len() == 9,
        forall|i: int| 0 <= i < 9 ==> cells[i] != Player::Free,
        forall|a: int, b: int, c: int|
            win_line(a, b, c) ==> !(cells[a] == cells[b] && cells[b] == cells[c]),
    ensures
        winner_of(cells) == Some(Player::Draw),
{
    assert(win_line(0, 3, 6));
    assert(win_line(1, 4, 7));
    assert(win_line(2, 5, 8));
    assert(win_line(0, 1, 2));
    assert(win_line(3, 4, 5));
    assert(win_line(6, 7, 8));
    assert(win_line(0, 4, 8));
    assert(win_line(2, 4, 6));
}

pub proof fn lemma_free_prefix_membership(cells: Seq<Player>, n: int, x: usize)
    requires
        0 <= n <= 9,
    ensures
        free_prefix(cells, n).contains(x) <==> (x < n && cells[x as int] == Player::Free),
    decreases n,
{
    if n > 0 {
        lemma_free_prefix_membership(cells, n - 1, x);
        let s = free_prefix(cells, n - 1);
        if cells[n - 1] == Player::Free {
            let t = free_prefix(cells, n);
            assert(t == s.push((n - 1) as usize));
            if x < n && cells[x as int] == Player::Free {
                if x == n - 1 {
                    assert(t[s.len() as int] == x);
                } else {
                    let i: int = choose|i: int| 0 <= i < s.len() && s[i] == x;
                    assert(t[i] == x);
                }
                assert(t.contains(x));
            }
            if t.contains(x) {
                let i: int = choose|i: int| 0 <= i < t.len() && t[i] == x;
                if i < s.len() {
                    assert(s[i] == x);
                    assert(s.contains(x));
                }
            }
        }
    }
}

/// Legal-move exhaustiveness: an ongoing board's playable cells are exactly
/// its Free cell indices; a terminal board has none.
pub proof fn lemma_legal_moves_exhaustive(b: MiniBoard)
    requires
        b.wf(),
    ensures
        b.winner is None ==> (forall|x: usize|
            #[trigger] b.actions@.contains(x) <==> (x < 9 && b.cells@[x as int] == Player::Free)),
        b.winner is Some ==> b.actions@ == Seq::<usize>::empty(),
{
    if b.winner is None {
        assert forall|x: usize|
            #[trigger] b.actions@.contains(x) <==> (x < 9 && b.cells@[x as int]
                == Player::Free) by {
            lemma_free_prefix_membership(b.cells@, 9, x);
        };
    }
}

/// Key 0 forces every cell to be Free: all digits are non-negative.
pub proof fn lemma_key_zero_all_free(cells: Seq<Player>, n: int)
    requires
        0 <= n,
        key_prefix(cells, n) == 0,
    ensures
        forall|i: int| 0 <= i < n ==> cells[i] == Player::Free,
    decreases n,
{
    if n > 0 {
        lemma_key_prefix_bounds(cells, n - 1);
        assert(key_prefix(cells, n - 1) == 0 && digit(cells[n - 1]) == 0);
        lemma_key_zero_all_free(cells, n - 1);
    }
}

} // verus!

