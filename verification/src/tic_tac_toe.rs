//! Tic-tac-toe: the bundled game implementation of the state contract.

use vstd::prelude::*;
use crate::game::GameState;
use crate::game::REWARD_WIN;
use crate::game::REWARD_DRAW;
use crate::game::REWARD_LOSS;

verus! {

/// One tic-tac-toe position: nine cells, each empty (0) or marked by
/// player 1 or player 2, and the player about to move.
///
/// A position in which a player has completed a line is terminal: it has no
/// legal actions.  `reward` follows the convention of `GameState`: it is the
/// outcome for the player about to move.
#[derive(Debug, Clone, Copy)]
pub struct TicTacToeState {
    pub board: [usize; 9],
    pub player: usize,
}

/// The other of the two players.
pub open spec fn other_player(p: usize) -> usize {
    if p == 1 {
        2usize
    } else {
        1usize
    }
}

/// Cells `i`, `j` and `k` all carry player `p`'s mark.
pub open spec fn spec_line(b: [usize; 9], p: usize, i: int, j: int, k: int) -> bool {
    b@[i] == p && b@[j] == p && b@[k] == p
}

/// Player `p` owns a full row, column or diagonal.
pub open spec fn spec_winner_is(b: [usize; 9], p: usize) -> bool {
    p != 0 && (spec_line(b, p, 0, 1, 2) || spec_line(b, p, 3, 4, 5) || spec_line(b, p, 6, 7, 8)
        || spec_line(b, p, 0, 3, 6) || spec_line(b, p, 1, 4, 7) || spec_line(b, p, 2, 5, 8)
        || spec_line(b, p, 0, 4, 8) || spec_line(b, p, 2, 4, 6))
}

/// Some player owns a full line.
pub open spec fn spec_has_winner(b: [usize; 9]) -> bool {
    spec_winner_is(b, 1) || spec_winner_is(b, 2)
}

/// The first `n` cells are all marked.
pub open spec fn spec_full_below(b: [usize; 9], n: int) -> bool {
    forall|i: int| 0 <= i < n ==> b@[i] != 0
}

/// The indices of the empty cells among the first `n`, in ascending order.
pub open spec fn empties_below(b: [usize; 9], n: int) -> Seq<usize>
    decreases n,
{
    if n <= 0 {
        Seq::empty()
    } else if b@[n - 1] == 0 {
        empties_below(b, n - 1).push((n - 1) as usize)
    } else {
        empties_below(b, n - 1)
    }
}

/// The board with cell `i` overwritten by `v`.
pub open spec fn board_set(b: [usize; 9], i: int, v: usize) -> [usize; 9] {
    [
        if i == 0 { v } else { b@[0] },
        if i == 1 { v } else { b@[1] },
        if i == 2 { v } else { b@[2] },
        if i == 3 { v } else { b@[3] },
        if i == 4 { v } else { b@[4] },
        if i == 5 { v } else { b@[5] },
        if i == 6 { v } else { b@[6] },
        if i == 7 { v } else { b@[7] },
        if i == 8 { v } else { b@[8] },
    ]
}

/// `empties_below` lists exactly the empty cells, each once.
pub proof fn lemma_empties(b: [usize; 9], n: int)
    requires
        0 <= n <= 9,
    ensures
        empties_below(b, n).no_duplicates(),
        forall|x: usize| #[trigger] empties_below(b, n).contains(x) <==> (x < n && b@[x as int]
            == 0),
    decreases n,
{
    if n > 0 {
        lemma_empties(b, n - 1);
        let prev = empties_below(b, n - 1);
        if b@[n - 1] == 0 {
            let cur = prev.push((n - 1) as usize);
            assert(!prev.contains((n - 1) as usize));
            assert forall|x: usize| #[trigger] cur.contains(x) <==> (x < n && b@[x as int]
                == 0) by {
                if cur.contains(x) {
                    let i = choose|i: int| 0 <= i < cur.len() && cur[i] == x;
                    if i < prev.len() {
                        assert(prev.contains(x));
                    }
                }
                if x < n && b@[x as int] == 0 {
                    if x < n - 1 {
                        assert(prev.contains(x));
                        let i = choose|i: int| 0 <= i < prev.len() && prev[i] == x;
                        assert(cur[i] == x);
                    } else {
                        assert(cur[cur.len() - 1] == x);
                    }
                }
            }
        } else {
            assert forall|x: usize| #[trigger] empties_below(b, n).contains(x) <==> (x < n
                && b@[x as int] == 0) by {
                if x < n && b@[x as int] == 0 {
                    assert(x < n - 1);
                }
            }
        }
    }
}

/// Marking an empty cell removes exactly that cell from the empties.
pub proof fn lemma_empties_update(b: [usize; 9], a: usize, v: usize, n: int)
    requires
        0 <= n <= 9,
        a < 9,
        b@[a as int] == 0,
        v != 0,
    ensures
        a < n ==> empties_below(board_set(b, a as int, v), n).len() + 1 == empties_below(
            b,
            n,
        ).len(),
        a >= n ==> empties_below(board_set(b, a as int, v), n) == empties_below(b, n),
    decreases n,
{
    if n > 0 {
        lemma_empties_update(b, a, v, n - 1);
    }
}

/// `board_set` is the pointwise update of the board.
pub proof fn lemma_board_set_view(b: [usize; 9], i: int, v: usize)
    requires
        0 <= i < 9,
    ensures
        board_set(b, i, v)@ == b@.update(i, v),
{
    assert(board_set(b, i, v)@ =~= b@.update(i, v));
}

impl TicTacToeState {
    /// Player `p` (1 or 2) owns a full row, column or diagonal.
    fn has_line(&self, p: usize) -> (r: bool)
        requires
            p == 1 || p == 2,
        ensures
            r == spec_winner_is(self.board, p),
    {
        let b = &self.board;
        (b[0] == p && b[1] == p && b[2] == p) || (b[3] == p && b[4] == p && b[5] == p) || (b[6] == p
            && b[7] == p && b[8] == p) || (b[0] == p && b[3] == p && b[6] == p) || (b[1] == p
            && b[4] == p && b[7] == p) || (b[2] == p && b[5] == p && b[8] == p) || (b[0] == p
            && b[4] == p && b[8] == p) || (b[2] == p && b[4] == p && b[6] == p)
    }
}

impl GameState for TicTacToeState {
    open spec fn inv(&self) -> bool {
        &&& (self.player == 1 || self.player == 2)
        &&& forall|i: int|
            0 <= i < 9 ==> (self.board@[i] == 0 || self.board@[i] == 1 || self.board@[i] == 2)
    }

    open spec fn spec_legal(&self) -> Seq<usize> {
        if spec_has_winner(self.board) {
            Seq::empty()
        } else {
            empties_below(self.board, 9)
        }
    }

    open spec fn spec_next(&self, action: usize) -> Self {
        TicTacToeState {
            board: board_set(self.board, action as int, self.player),
            player: other_player(self.player),
        }
    }

    open spec fn spec_reward(&self) -> Option<u64> {
        if spec_winner_is(self.board, self.player) {
            Some(REWARD_WIN)
        } else if spec_winner_is(self.board, other_player(self.player)) {
            Some(REWARD_LOSS)
        } else if spec_full_below(self.board, 9) {
            Some(REWARD_DRAW)
        } else {
            None
        }
    }

    open spec fn horizon(&self) -> nat {
        empties_below(self.board, 9).len()
    }

    proof fn laws(&self, action: usize) {
        lemma_empties(self.board, 9);
        if self.spec_legal().contains(action) {
            let next = self.spec_next(action);
            lemma_board_set_view(self.board, action as int, self.player);
            assert forall|i: int|
                0 <= i < 9 implies (next.board@[i] == 0 || next.board@[i] == 1 || next.board@[i]
                == 2) by {
                assert(next.board@ == self.board@.update(action as int, self.player));
            }
            lemma_empties_update(self.board, action, self.player, 9);
        }
    }

    fn new() -> (r: Self)
        ensures
            r == (TicTacToeState { board: [0, 0, 0, 0, 0, 0, 0, 0, 0], player: 1 }),
    {
        let r = TicTacToeState { board: [0, 0, 0, 0, 0, 0, 0, 0, 0], player: 1 };
        proof {
            assert forall|i: int| 0 <= i < 9 implies (r.board@[i] == 0 || r.board@[i] == 1
                || r.board@[i] == 2) by {
                assert(r.board@[0] == 0 && r.board@[1] == 0 && r.board@[2] == 0 && r.board@[3] == 0
                    && r.board@[4] == 0 && r.board@[5] == 0 && r.board@[6] == 0 && r.board@[7] == 0
                    && r.board@[8] == 0);
            }
        }
        r
    }

    fn duplicate(&self) -> (r: Self) {
        *self
    }

    fn reward(&self) -> (r: Option<u64>) {
        if self.has_line(self.player) {
            Some(REWARD_WIN)
        } else if self.has_line(if self.player == 1 {
            2
        } else {
            1
        }) {
            Some(REWARD_LOSS)
        } else {
            let mut i: usize = 0;
            let mut full = true;
            while i < 9
                invariant
                    i <= 9,
                    full == spec_full_below(self.board, i as int),
                decreases 9 - i,
            {
                if self.board[i] == 0 {
                    full = false;
                }
                i += 1;
            }
            if full {
                Some(REWARD_DRAW)
            } else {
                None
            }
        }
    }

    fn legal_actions(&self) -> (r: Vec<usize>)
    {
        if self.has_line(1) || self.has_line(2) {
            let r: Vec<usize> = Vec::new();
            assert(r@ =~= self.spec_legal());
            r
        } else {
            let mut r: Vec<usize> = Vec::new();
            let mut i: usize = 0;
            while i < 9
                invariant
                    i <= 9,
                    r@ == empties_below(self.board, i as int),
                decreases 9 - i,
            {
                if self.board[i] == 0 {
                    r.push(i);
                }
                i += 1;
            }
            r
        }
    }

    fn next_state(&self, action: usize) -> (r: Self) {
        proof {
            lemma_empties(self.board, 9);
        }
        let mut b = self.board;
        b[action] = self.player;
        let r = TicTacToeState {
            board: b,
            player: if self.player == 1 {
                2
            } else {
                1
            },
        };
        proof {
            lemma_board_set_view(self.board, action as int, self.player);
            assert(b@ =~= board_set(self.board, action as int, self.player)@);
            assert(b == board_set(self.board, action as int, self.player));
        }
        r
    }
}

} // verus!
