//! Tic-tac-toe: a 3x3 board searchable by the engine.
//!
//! The board is stored flat, row-major: cell `(i, j)` lives at index
//! `3 * i + j`. `'X'` moves first and carries the sign +1, `'O'` the sign
//! -1. The outcome is reported from the perspective of the player to move:
//! a completed line means the previous mover won, so the result is -1.
use vstd::prelude::*;
use crate::mcts::GameState;
use crate::policy::{uniform_unit, uniform_share};
use crate::board::{count_blanks, lemma_count_blanks_bounds, lemma_count_blanks_update,
    lemma_count_blanks_witness, lemma_count_blanks_nonzero};

verus! {

/// Three equal, non-blank cells.
pub open spec fn line_win(b: Seq<char>, p: int, q: int, r: int) -> bool {
    b[p] != ' ' && b[p] == b[q] && b[q] == b[r]
}

/// Some row, column or diagonal is complete.
pub open spec fn win(b: Seq<char>) -> bool {
    ||| line_win(b, 0, 1, 2)
    ||| line_win(b, 3, 4, 5)
    ||| line_win(b, 6, 7, 8)
    ||| line_win(b, 0, 3, 6)
    ||| line_win(b, 1, 4, 7)
    ||| line_win(b, 2, 5, 8)
    ||| line_win(b, 0, 4, 8)
    ||| line_win(b, 2, 4, 6)
}

/// No cell is blank.
pub open spec fn full(b: Seq<char>) -> bool {
    forall|k: int| 0 <= k < 9 ==> b[k] != ' '
}

/// A cell of the 3x3 board, named by row and column (both 0-based).
#[derive(Clone, Copy, PartialEq, Eq, Structural, Debug)]
pub struct Cell {
    /// Row index, 0 to 2.
    pub row: usize,
    /// Column index, 0 to 2.
    pub col: usize,
}

/// The legal cells from flat index `k` on, in row-major order.
pub open spec fn legal_cells_from(b: Seq<char>, k: int) -> Seq<Cell>
    decreases 9 - k when k <= 9
{
    if k >= 9 {
        Seq::empty()
    } else {
        (if b[k] == ' ' {
            seq![Cell { row: (k / 3) as usize, col: (k % 3) as usize }]
        } else {
            Seq::empty()
        }) + legal_cells_from(b, k + 1)
    }
}

/// A tic-tac-toe position: the nine cells and whose turn it is.
pub struct State {
    /// The cells, row-major: `(i, j)` at `3 * i + j`; `' '` is empty.
    pub board: Vec<char>,
    /// The player to move: `'X'` or `'O'`.
    pub player: char,
}

impl State {
    /// The empty board, with `'X'` to move.
    pub fn new() -> (s: State)
        ensures
            s.inv(),
            s.board@ =~= seq![' ', ' ', ' ', ' ', ' ', ' ', ' ', ' ', ' '],
            s.player == 'X',
            !s.is_terminal_spec(),
    {
        let mut board: Vec<char> = Vec::new();
        let mut k: usize = 0;
        while k < 9
            invariant
                k <= 9,
                board@.len() == k,
                forall|m: int| 0 <= m < k ==> board@[m] == ' ',
            decreases 9 - k,
        {
            board.push(' ');
            k = k + 1;
        }
        let s = State { board, player: 'X' };
        proof {
            assert(!win(s.board@));
            assert(!full(s.board@));
        }
        s
    }
}

impl GameState for State {
    type Action = Cell;

    open spec fn inv(&self) -> bool {
        self.board@.len() == 9 && (self.player == 'X' || self.player == 'O')
    }

    open spec fn is_terminal_spec(&self) -> bool {
        win(self.board@) || full(self.board@)
    }

    open spec fn player_turn_spec(&self) -> int {
        if self.player == 'X' {
            1
        } else {
            -1
        }
    }

    open spec fn is_legal(&self, a: Cell) -> bool {
        a.row < 3 && a.col < 3 && self.board@[3 * a.row + a.col] == ' '
    }

    open spec fn legal_actions_spec(&self) -> Seq<Cell> {
        legal_cells_from(self.board@, 0)
    }

    open spec fn policy_spec(&self, actions: Seq<Cell>) -> Seq<u64> {
        if actions.len() == 0 {
            Seq::empty()
        } else {
            Seq::new(actions.len(), |i: int| uniform_share(actions.len() as int, i))
        }
    }

    open spec fn is_next_state(&self, action: Cell, r: &State) -> bool {
        r.board@ == self.board@.update(3 * action.row + action.col, self.player) && r.player == (
        if self.player == 'X' {
            'O'
        } else {
            'X'
        })
    }

    open spec fn result_spec(&self) -> int {
        if win(self.board@) {
            -1
        } else {
            0
        }
    }

    open spec fn measure(&self) -> nat {
        count_blanks(self.board@, 9) as nat
    }

    fn is_terminal(&self) -> (r: bool) {
        if self.get_result() != 0 {
            return true;
        }
        let mut k: usize = 0;
        while k < 9
            invariant
                k <= 9,
                self.board@.len() == 9,
                !win(self.board@),
                forall|m: int| 0 <= m < k ==> self.board@[m] != ' ',
            decreases 9 - k,
        {
            if self.board[k] == ' ' {
                return false;
            }
            k = k + 1;
        }
        true
    }

    fn get_player_turn(&self) -> (r: i32) {
        if self.player == 'X' {
            1
        } else {
            -1
        }
    }

    fn get_legal_actions(&self) -> (r: Vec<Cell>) {
        let mut r: Vec<Cell> = Vec::new();
        proof {
            assert(Seq::<Cell>::empty() + legal_cells_from(self.board@, 0) =~= legal_cells_from(
                self.board@,
                0,
            ));
        }
        let mut i: usize = 0;
        while i < 3
            invariant
                i <= 3,
                self.inv(),
                r@.len() <= 3 * i,
                legal_cells_from(self.board@, 0) == r@ + legal_cells_from(
                    self.board@,
                    3 * i as int,
                ),
                forall|m: int| 0 <= m < r@.len() ==> self.is_legal(#[trigger] r@[m]),
                forall|x: usize, y: usize|
                    x < i && y < 3 && self.is_legal(Cell { row: x, col: y }) ==> r@.contains(
                        (Cell { row: x, col: y }),
                    ),
            decreases 3 - i,
        {
            let mut j: usize = 0;
            while j < 3
                invariant
                    i < 3,
                    j <= 3,
                    self.inv(),
                    r@.len() <= 3 * i + j,
                    legal_cells_from(self.board@, 0) == r@ + legal_cells_from(
                        self.board@,
                        3 * i + j as int,
                    ),
                    forall|m: int| 0 <= m < r@.len() ==> self.is_legal(#[trigger] r@[m]),
                    forall|x: usize, y: usize|
                        x < i && y < 3 && self.is_legal(Cell { row: x, col: y }) ==> r@.contains(
                        (Cell { row: x, col: y }),
                    ),
                    forall|y: usize|
                        y < j && self.is_legal(Cell { row: i, col: y }) ==> r@.contains(
                            (Cell { row: i, col: y }),
                        ),
                decreases 3 - j,
            {
                proof {
                    let b = self.board@;
                    let k: int = 3 * i + j;
                    assert((k / 3) as usize == i && (k % 3) as usize == j) by (nonlinear_arith)
                        requires
                            k == 3 * i + j,
                            i < 3,
                            j < 3,
                    {
                    }
                    if b[k] != ' ' {
                        assert(Seq::<Cell>::empty() + legal_cells_from(b, k + 1)
                            =~= legal_cells_from(b, k + 1));
                    }
                }
                if self.board[3 * i + j] == ' ' {
                    let ghost r0 = r@;
                    r.push(Cell { row: i, col: j });
                    proof {
                        assert forall|c: Cell| r0.contains(c) implies r@.contains(c) by {
                            let ii = choose|ii: int| 0 <= ii < r0.len() && r0[ii] == c;
                            assert(r@[ii] == c);
                        }
                        assert(r@[r@.len() - 1] == (Cell { row: i, col: j }));
                        assert(r@.contains(Cell { row: i, col: j }));
                        let b = self.board@;
                        let k: int = 3 * i + j;
                        assert(legal_cells_from(b, k) == seq![Cell { row: i, col: j }]
                            + legal_cells_from(b, k + 1));
                        assert(r@ =~= r0 + seq![Cell { row: i, col: j }]);
                        assert(r0 + legal_cells_from(b, k) =~= r@ + legal_cells_from(b, k + 1));
                    }
                }
                j = j + 1;
            }
            i = i + 1;
        }
        proof {
            if !self.is_terminal_spec() {
                assert(count_blanks(self.board@, 9) > 0) by {
                    if count_blanks(self.board@, 9) <= 0 {
                        lemma_count_blanks_bounds(self.board@, 9);
                        assert forall|k: int| 0 <= k < 9 implies self.board@[k] != ' ' by {
                            if self.board@[k] == ' ' {
                                lemma_count_blanks_nonzero(self.board@, k);
                            }
                        }
                    }
                }
                lemma_count_blanks_witness(self.board@, 9);
                let k = choose|k: int| 0 <= k < 9 && self.board@[k] == ' ';
                let x = k / 3;
                let y = k % 3;
                assert(3 * x + y == k) by (nonlinear_arith)
                    requires
                        x == k / 3,
                        y == k % 3,
                        0 <= k < 9,
                {
                }
                assert(0 <= x < 3 && 0 <= y < 3) by (nonlinear_arith)
                    requires
                        x == k / 3,
                        y == k % 3,
                        0 <= k < 9,
                {
                }
                assert(self.is_legal(Cell { row: x as usize, col: y as usize }));
                assert(r@.contains((Cell { row: x as usize, col: y as usize })));
            }
            assert(r@ + legal_cells_from(self.board@, 9) =~= r@);
        }
        r
    }

    fn get_policy(&self, actions: &Vec<Cell>) -> (r: Vec<u64>)
        ensures
            forall|i: int|
                0 <= i < r@.len() ==> r@[i] == uniform_share(actions@.len() as int, i),
    {
        if actions.len() == 0 {
            let r: Vec<u64> = Vec::new();
            proof {
                assert(r@ =~= self.policy_spec(actions@));
            }
            r
        } else {
            let r = uniform_unit(actions.len());
            proof {
                assert(r@ =~= self.policy_spec(actions@));
            }
            r
        }
    }

    fn get_next_state(&self, action: Cell) -> (r: State)
        ensures
            r.board@ == self.board@.update(3 * action.row + action.col, self.player),
            r.player == (if self.player == 'X' {
                'O'
            } else {
                'X'
            }),
    {
        let idx = 3 * action.row + action.col;
        let mut nb: Vec<char> = Vec::new();
        let mut k: usize = 0;
        while k < 9
            invariant
                k <= 9,
                idx == 3 * action.row + action.col < 9,
                self.board@.len() == 9,
                nb@.len() == k,
                forall|m: int|
                    0 <= m < k ==> nb@[m] == (if m == idx {
                        self.player
                    } else {
                        self.board@[m]
                    }),
            decreases 9 - k,
        {
            if k == idx {
                nb.push(self.player);
            } else {
                nb.push(self.board[k]);
            }
            k = k + 1;
        }
        let r = State {
            board: nb,
            player: if self.player == 'X' {
                'O'
            } else {
                'X'
            },
        };
        proof {
            assert(r.board@ =~= self.board@.update(idx as int, self.player));
            lemma_count_blanks_update(self.board@, idx as int, self.player, 9);
            lemma_count_blanks_nonzero(self.board@, idx as int);
            lemma_count_blanks_bounds(r.board@, 9);
        }
        r
    }

    fn get_result(&self) -> (r: i32) {
        let b = &self.board;
        if (b[0] != ' ' && b[0] == b[1] && b[1] == b[2]) || (b[3] != ' ' && b[3] == b[4] && b[4]
            == b[5]) || (b[6] != ' ' && b[6] == b[7] && b[7] == b[8]) || (b[0] != ' ' && b[0]
            == b[3] && b[3] == b[6]) || (b[1] != ' ' && b[1] == b[4] && b[4] == b[7]) || (b[2]
            != ' ' && b[2] == b[5] && b[5] == b[8]) || (b[0] != ' ' && b[0] == b[4] && b[4] == b[8])
            || (b[2] != ' ' && b[2] == b[4] && b[4] == b[6]) {
            -1
        } else {
            0
        }
    }
}

} // verus!
