//! Connect four: a 6-row, 7-column board searchable by the engine.
//!
//! The board is stored flat, row-major with row 0 at the bottom: cell
//! `(row, col)` lives at index `7 * row + col`. Pieces stack bottom-up
//! (the gravity invariant), `'X'` moves first and carries the sign +1. A
//! move names a column; the piece lands on that column's lowest blank row.
//! The outcome is reported from the perspective of the player to move: a
//! completed four-in-a-row means the previous mover won, so the result is
//! -1.
use vstd::prelude::*;
use crate::mcts::{GameState, MAX_ACTIONS};
use crate::policy::{distribute_unit, unit_share, lemma_count_true_pos};
use crate::board::{count_blanks, lemma_count_blanks_bounds, lemma_count_blanks_update,
    lemma_count_blanks_nonzero};

verus! {

/// The cell at `(row, col)`, row 0 at the bottom.
pub open spec fn at(b: Seq<char>, r: int, c: int) -> char {
    b[r * 7 + c]
}

/// Four equal, non-blank cells rightwards from `(r, c)`.
pub open spec fn horiz_win(b: Seq<char>, r: int, c: int) -> bool {
    0 <= r < 6 && 0 <= c < 4 && at(b, r, c) != ' ' && at(b, r, c) == at(b, r, c + 1) && at(b, r, c)
        == at(b, r, c + 2) && at(b, r, c) == at(b, r, c + 3)
}

/// Four equal, non-blank cells upwards from `(r, c)`.
pub open spec fn vert_win(b: Seq<char>, r: int, c: int) -> bool {
    0 <= r < 3 && 0 <= c < 7 && at(b, r, c) != ' ' && at(b, r, c) == at(b, r + 1, c) && at(b, r, c)
        == at(b, r + 2, c) && at(b, r, c) == at(b, r + 3, c)
}

/// Four equal, non-blank cells up-rightwards from `(r, c)`.
pub open spec fn diag_right_win(b: Seq<char>, r: int, c: int) -> bool {
    0 <= r < 3 && 0 <= c < 4 && at(b, r, c) != ' ' && at(b, r, c) == at(b, r + 1, c + 1) && at(
        b,
        r,
        c,
    ) == at(b, r + 2, c + 2) && at(b, r, c) == at(b, r + 3, c + 3)
}

/// Four equal, non-blank cells up-leftwards from `(r, c)`.
pub open spec fn diag_left_win(b: Seq<char>, r: int, c: int) -> bool {
    0 <= r < 3 && 3 <= c < 7 && at(b, r, c) != ' ' && at(b, r, c) == at(b, r + 1, c - 1) && at(
        b,
        r,
        c,
    ) == at(b, r + 2, c - 2) && at(b, r, c) == at(b, r + 3, c - 3)
}

/// Some line of four is complete.
pub open spec fn win(b: Seq<char>) -> bool {
    exists|r: int, c: int|
        horiz_win(b, r, c) || vert_win(b, r, c) || diag_right_win(b, r, c) || diag_left_win(b, r, c)
}

/// No cell is blank.
pub open spec fn board_full(b: Seq<char>) -> bool {
    forall|r: int, c: int| 0 <= r < 6 && 0 <= c < 7 ==> at(b, r, c) != ' '
}

/// Pieces stack from the bottom: a filled cell sits on a filled cell.
pub open spec fn gravity(b: Seq<char>) -> bool {
    forall|r: int, c: int| 1 <= r < 6 && 0 <= c < 7 && #[trigger] at(b, r, c) != ' ' ==> at(
        b,
        r - 1,
        c,
    ) != ' '
}

/// The lowest blank row of `col` at or above `r`, or 6 when the column is
/// full from `r` up.
pub open spec fn top_row_from(b: Seq<char>, col: int, r: int) -> int
    decreases 6 - r when r <= 6
{
    if r >= 6 {
        6
    } else if at(b, r, col) == ' ' {
        r
    } else {
        top_row_from(b, col, r + 1)
    }
}

/// The lowest blank row of `col`, or 6 when the column is full.
pub open spec fn top_row_spec(b: Seq<char>, col: int) -> int {
    top_row_from(b, col, 0)
}

/// The board after dropping `piece` into `col`: the column's lowest blank
/// cell is filled.
pub open spec fn spec_drop(b: Seq<char>, col: int, piece: char) -> Seq<char> {
    b.update(top_row_spec(b, col) * 7 + col, piece)
}

/// The other side.
pub open spec fn opponent(p: char) -> char {
    if p == 'X' {
        'O'
    } else {
        'X'
    }
}

/// Heuristic worth of dropping into `col`: a base of 100, plus 300 when
/// the move wins at once, plus 200 when the opponent moving there would
/// win (so the move blocks).
pub open spec fn move_score(s: State, col: int) -> int {
    100 + (if win(spec_drop(s.board@, col, s.player)) {
        300int
    } else {
        0int
    }) + (if win(spec_drop(s.board@, col, opponent(s.player))) {
        200int
    } else {
        0int
    })
}

/// Whether `actions[i]` scores at least as well as every listed action.
pub open spec fn is_top_action(s: State, actions: Seq<usize>, i: int) -> bool {
    forall|j: int|
        #![trigger actions[j]]
        0 <= j < actions.len() ==> move_score(s, actions[j] as int) <= move_score(
            s,
            actions[i] as int,
        )
}

/// Marks the best-scoring listed actions.
pub open spec fn top_mask(s: State, actions: Seq<usize>) -> Seq<bool> {
    Seq::new(actions.len(), |i: int| is_top_action(s, actions, i))
}

/// The playable columns from `c` on, in ascending order.
pub open spec fn legal_cols_from(b: Seq<char>, c: int) -> Seq<usize>
    decreases 7 - c when c <= 7
{
    if c >= 7 {
        Seq::empty()
    } else {
        (if at(b, 5, c) == ' ' {
            seq![c as usize]
        } else {
            Seq::empty()
        }) + legal_cols_from(b, c + 1)
    }
}

/// A connect-four position: the 42 cells and whose turn it is.
pub struct State {
    /// The cells, row-major from the bottom: `(row, col)` at
    /// `7 * row + col`; `' '` is empty.
    pub board: Vec<char>,
    /// The player to move: `'X'` or `'O'`.
    pub player: char,
}

/// Below a blank cell the gravity invariant keeps everything blank upwards.
proof fn lemma_blank_rises(b: Seq<char>, r: int, c: int)
    requires
        gravity(b),
        b.len() == 42,
        0 <= r < 6,
        0 <= c < 7,
        at(b, r, c) == ' ',
    ensures
        at(b, 5, c) == ' ',
    decreases 6 - r,
{
    if r < 5 {
        assert(at(b, r + 1, c) == ' ') by {
            if at(b, r + 1, c) != ' ' {
                assert(at(b, r, c) != ' ');
            }
        }
        lemma_blank_rises(b, r + 1, c);
    }
}

impl State {
    /// The empty board, with `'X'` to move.
    pub fn new() -> (s: State)
        ensures
            s.inv(),
            forall|k: int| 0 <= k < 42 ==> s.board@[k] == ' ',
            s.player == 'X',
            !s.is_terminal_spec(),
    {
        let mut board: Vec<char> = Vec::new();
        let mut k: usize = 0;
        while k < 42
            invariant
                k <= 42,
                board@.len() == k,
                forall|m: int| 0 <= m < k ==> board@[m] == ' ',
            decreases 42 - k,
        {
            board.push(' ');
            k = k + 1;
        }
        let s = State { board, player: 'X' };
        proof {
            assert(!win(s.board@)) by {
                if win(s.board@) {
                    let (r, c) = choose|r: int, c: int|
                        horiz_win(s.board@, r, c) || vert_win(s.board@, r, c) || diag_right_win(
                            s.board@,
                            r,
                            c,
                        ) || diag_left_win(s.board@, r, c);
                }
            }
            assert(at(s.board@, 0, 0) == ' ');
        }
        s
    }

    /// The lowest blank row of `col`, if the column is not full.
    pub fn get_top_row(&self, col: usize) -> (r: Option<usize>)
        requires
            self.inv(),
            col < 7,
        ensures
            match r {
                Some(row) => row < 6 && row as int == top_row_spec(self.board@, col as int),
                None => top_row_spec(self.board@, col as int) == 6,
            },
    {
        let mut row: usize = 0;
        while row < 6
            invariant
                row <= 6,
                self.inv(),
                col < 7,
                top_row_spec(self.board@, col as int) == top_row_from(
                    self.board@,
                    col as int,
                    row as int,
                ),
            decreases 6 - row,
        {
            if self.board[row * 7 + col] == ' ' {
                return Some(row);
            }
            row = row + 1;
        }
        None
    }
}

impl GameState for State {
    type Action = usize;

    open spec fn inv(&self) -> bool {
        self.board@.len() == 42 && (self.player == 'X' || self.player == 'O') && gravity(
            self.board@,
        )
    }

    open spec fn is_terminal_spec(&self) -> bool {
        win(self.board@) || board_full(self.board@)
    }

    open spec fn player_turn_spec(&self) -> int {
        if self.player == 'X' {
            1
        } else {
            -1
        }
    }

    open spec fn is_legal(&self, a: usize) -> bool {
        a < 7 && at(self.board@, 5, a as int) == ' '
    }

    open spec fn legal_actions_spec(&self) -> Seq<usize> {
        legal_cols_from(self.board@, 0)
    }

    open spec fn policy_spec(&self, actions: Seq<usize>) -> Seq<u64> {
        if actions.len() == 0 {
            Seq::empty()
        } else {
            Seq::new(actions.len(), |i: int| unit_share(top_mask(*self, actions), i))
        }
    }

    open spec fn is_next_state(&self, action: usize, r: &State) -> bool {
        r.board@ == spec_drop(self.board@, action as int, self.player) && r.player == opponent(
            self.player,
        )
    }

    open spec fn result_spec(&self) -> int {
        if win(self.board@) {
            -1
        } else {
            0
        }
    }

    open spec fn measure(&self) -> nat {
        count_blanks(self.board@, 42) as nat
    }

    fn is_terminal(&self) -> (r: bool) {
        if self.get_result() != 0 {
            return true;
        }
        let mut c: usize = 0;
        while c < 7
            invariant
                c <= 7,
                self.inv(),
                !win(self.board@),
                forall|c2: int| 0 <= c2 < c ==> at(self.board@, 5, c2) != ' ',
            decreases 7 - c,
        {
            if self.board[35 + c] == ' ' {
                proof {
                    assert(at(self.board@, 5, c as int) == ' ');
                }
                return false;
            }
            c = c + 1;
        }
        proof {
            assert forall|r: int, c2: int| 0 <= r < 6 && 0 <= c2 < 7 implies at(
                self.board@,
                r,
                c2,
            ) != ' ' by {
                if at(self.board@, r, c2) == ' ' {
                    lemma_blank_rises(self.board@, r, c2);
                }
            }
        }
        true
    }

    fn get_player_turn(&self) -> (r: i32) {
        if self.player == 'X' {
            1
        } else {
            -1
        }
    }

    fn get_legal_actions(&self) -> (r: Vec<usize>) {
        let mut r: Vec<usize> = Vec::new();
        proof {
            assert(Seq::<usize>::empty() + legal_cols_from(self.board@, 0) =~= legal_cols_from(
                self.board@,
                0,
            ));
        }
        let mut c: usize = 0;
        while c < 7
            invariant
                c <= 7,
                self.inv(),
                r@.len() <= c,
                legal_cols_from(self.board@, 0) == r@ + legal_cols_from(self.board@, c as int),
                forall|m: int| 0 <= m < r@.len() ==> self.is_legal(#[trigger] r@[m]),
                forall|a: usize| a < c && self.is_legal(a) ==> r@.contains(a),
            decreases 7 - c,
        {
            if self.board[35 + c] == ' ' {
                let ghost r0 = r@;
                r.push(c);
                proof {
                    assert forall|a: usize| r0.contains(a) implies r@.contains(a) by {
                        let ii = choose|ii: int| 0 <= ii < r0.len() && r0[ii] == a;
                        assert(r@[ii] == a);
                    }
                    assert(r@[r@.len() - 1] == c);
                    assert(at(self.board@, 5, c as int) == ' ');
                    assert(r@.contains(c));
                    assert(legal_cols_from(self.board@, c as int) == seq![c]
                        + legal_cols_from(self.board@, c + 1));
                    assert(r@ =~= r0 + seq![c]);
                    assert(r0 + legal_cols_from(self.board@, c as int) =~= r@ + legal_cols_from(
                        self.board@,
                        c + 1,
                    ));
                }
            } else {
                proof {
                    assert(at(self.board@, 5, c as int) != ' ');
                    assert(Seq::<usize>::empty() + legal_cols_from(self.board@, c + 1)
                        =~= legal_cols_from(self.board@, c + 1));
                }
            }
            c = c + 1;
        }
        proof {
            if !self.is_terminal_spec() {
                let (rr, cc) = choose|rr: int, cc: int|
                    0 <= rr < 6 && 0 <= cc < 7 && at(self.board@, rr, cc) == ' ';
                lemma_blank_rises(self.board@, rr, cc);
                assert(self.is_legal(cc as usize));
                assert(r@.contains(cc as usize));
            }
            assert(r@ + legal_cols_from(self.board@, 7) =~= r@);
        }
        r
    }

    fn get_policy(&self, actions: &Vec<usize>) -> (r: Vec<u64>)
        ensures
            forall|i: int|
                0 <= i < r@.len() ==> r@[i] == unit_share(top_mask(*self, actions@), i),
    {
        if actions.len() == 0 {
            let r: Vec<u64> = Vec::new();
            proof {
                assert(r@ =~= self.policy_spec(actions@));
            }
            return r;
        }
        let n = actions.len();
        let mut scores: Vec<u64> = Vec::new();
        let mut k: usize = 0;
        while k < n
            invariant
                k <= n,
                n == actions@.len() <= MAX_ACTIONS,
                self.inv(),
                forall|m: int| 0 <= m < n ==> self.is_legal(#[trigger] actions@[m]),
                scores@.len() == k,
                forall|m: int|
                    0 <= m < k ==> #[trigger] scores@[m] as int == move_score(
                        *self,
                        actions@[m] as int,
                    ),
            decreases n - k,
        {
            let a = actions[k];
            let mut score: u64 = 100;
            let mine = self.get_next_state(a);
            if mine.get_result() != 0 {
                score = score + 300;
            }
            let mut opp_board: Vec<char> = Vec::new();
            let mut m: usize = 0;
            while m < 42
                invariant
                    m <= 42,
                    self.board@.len() == 42,
                    opp_board@.len() == m,
                    forall|q: int| 0 <= q < m ==> opp_board@[q] == self.board@[q],
                decreases 42 - m,
            {
                opp_board.push(self.board[m]);
                m = m + 1;
            }
            let theirs_start = State {
                board: opp_board,
                player: if self.player == 'X' {
                    'O'
                } else {
                    'X'
                },
            };
            proof {
                assert(theirs_start.board@ =~= self.board@);
            }
            let theirs = theirs_start.get_next_state(a);
            if theirs.get_result() != 0 {
                score = score + 200;
            }
            scores.push(score);
            k = k + 1;
        }
        let mut max_score: u64 = scores[0];
        let mut k2: usize = 1;
        while k2 < n
            invariant
                1 <= k2 <= n,
                n == scores@.len(),
                forall|m: int| 0 <= m < k2 ==> scores@[m] <= max_score,
                exists|m: int| 0 <= m < k2 && scores@[m] == max_score,
            decreases n - k2,
        {
            if scores[k2] > max_score {
                max_score = scores[k2];
            }
            k2 = k2 + 1;
        }
        let mut mask: Vec<bool> = Vec::new();
        let mut k3: usize = 0;
        while k3 < n
            invariant
                k3 <= n,
                n == scores@.len() == actions@.len(),
                mask@.len() == k3,
                forall|m: int| 0 <= m < n ==> scores@[m] <= max_score,
                exists|m: int| 0 <= m < n && scores@[m] == max_score,
                forall|m: int|
                    0 <= m < n ==> #[trigger] scores@[m] as int == move_score(
                        *self,
                        actions@[m] as int,
                    ),
                forall|m: int| 0 <= m < k3 ==> #[trigger] mask@[m] == (scores@[m] == max_score),
            decreases n - k3,
        {
            mask.push(scores[k3] == max_score);
            k3 = k3 + 1;
        }
        proof {
            assert(mask@ =~= top_mask(*self, actions@)) by {
                assert forall|m: int| 0 <= m < n implies mask@[m] == is_top_action(
                    *self,
                    actions@,
                    m,
                ) by {
                    if scores@[m] == max_score {
                        assert forall|j: int| 0 <= j < n implies move_score(
                            *self,
                            #[trigger] actions@[j] as int,
                        ) <= move_score(*self, actions@[m] as int) by {
                            assert(scores@[j] as int == move_score(*self, actions@[j] as int));
                            assert(scores@[j] <= max_score);
                        }
                        assert(is_top_action(*self, actions@, m));
                    } else {
                        let w = choose|w: int| 0 <= w < n && scores@[w] == max_score;
                        assert(move_score(*self, actions@[w] as int) > move_score(
                            *self,
                            actions@[m] as int,
                        ));
                        assert(!is_top_action(*self, actions@, m));
                    }
                }
            }
            let w = choose|w: int| 0 <= w < n && scores@[w] == max_score;
            assert(mask@[w]);
            lemma_count_true_pos(mask@, w, n as int);
        }
        let r = distribute_unit(&mask);
        proof {
            assert(r@ =~= self.policy_spec(actions@));
        }
        r
    }

    fn get_next_state(&self, action: usize) -> (r: State)
        ensures
            r.board@ == spec_drop(self.board@, action as int, self.player),
            r.player == opponent(self.player),
    {
        let row = match self.get_top_row(action) {
            Some(row) => row,
            None => {
                proof {
                    lemma_top_row_full(self.board@, action as int, 0);
                    assert(false);
                }
                vstd::pervasive::unreached()
            },
        };
        let idx = row * 7 + action;
        let mut nb: Vec<char> = Vec::new();
        let mut k: usize = 0;
        while k < 42
            invariant
                k <= 42,
                idx == row * 7 + action,
                row < 6,
                action < 7,
                self.board@.len() == 42,
                nb@.len() == k,
                forall|m: int|
                    0 <= m < k ==> nb@[m] == (if m == idx {
                        self.player
                    } else {
                        self.board@[m]
                    }),
            decreases 42 - k,
        {
            if k == idx {
                nb.push(self.player);
            } else {
                nb.push(self.board[k]);
            }
            k = k + 1;
        }
        let r = State {
            board: nb,
            player: if self.player == 'X' {
                'O'
            } else {
                'X'
            },
        };
        proof {
            let b = self.board@;
            let ri = row as int;
            let ci = action as int;
            assert(r.board@ =~= b.update(ri * 7 + ci, self.player));
            assert(r.board@ =~= spec_drop(b, ci, self.player));
            lemma_top_row_blank_below(b, ci, 0, ri);
            assert(at(b, ri, ci) == ' ');
            assert(gravity(r.board@)) by {
                assert forall|r2: int, c2: int|
                    1 <= r2 < 6 && 0 <= c2 < 7 && #[trigger] at(r.board@, r2, c2)
                        != ' ' implies at(r.board@, r2 - 1, c2) != ' ' by {
                    if r2 * 7 + c2 == ri * 7 + ci {
                        assert(r2 == ri && c2 == ci) by (nonlinear_arith)
                            requires
                                r2 * 7 + c2 == ri * 7 + ci,
                                0 <= c2 < 7,
                                0 <= ci < 7,
                        {
                        }
                        assert((r2 - 1) * 7 + c2 != ri * 7 + ci) by (nonlinear_arith)
                            requires
                                r2 == ri,
                                c2 == ci,
                        {
                        }
                        assert(at(r.board@, r2 - 1, c2) == at(b, ri - 1, ci));
                        assert(at(b, ri - 1, ci) != ' ');
                    } else {
                        assert(at(r.board@, r2, c2) == at(b, r2, c2));
                        if (r2 - 1) * 7 + c2 == ri * 7 + ci {
                            assert(at(r.board@, r2 - 1, c2) == self.player);
                        } else {
                            assert(at(r.board@, r2 - 1, c2) == at(b, r2 - 1, c2));
                            assert(at(b, r2, c2) != ' ');
                            assert(at(b, r2 - 1, c2) != ' ');
                        }
                    }
                }
            }
            lemma_count_blanks_update(b, ri * 7 + ci, self.player, 42);
            lemma_count_blanks_nonzero(b, ri * 7 + ci);
            lemma_count_blanks_bounds(r.board@, 42);
        }
        r
    }

    fn get_result(&self) -> (r: i32) {
        let mut row: usize = 0;
        while row < 6
            invariant
                self.inv(),
                row <= 6,
                forall|r2: int, c2: int| 0 <= r2 < row && 0 <= c2 < 4 ==> !horiz_win(
                    self.board@, r2, c2),
            decreases 6 - row,
        {
            let mut col: usize = 0;
            while col < 4
                invariant
                    self.inv(),
                    row < 6,
                    col <= 4,
                    forall|r2: int, c2: int| 0 <= r2 < row && 0 <= c2 < 4 ==> !horiz_win(
                        self.board@, r2, c2),
                    forall|c2: int| 0 <= c2 < col ==> !horiz_win(self.board@, row as int, c2),
                decreases 4 - col,
            {
                let a = self.board[row * 7 + col];
                if a != ' ' && a == self.board[row * 7 + col + 1] && a == self.board[row * 7 + col
                    + 2] && a == self.board[row * 7 + col + 3] {
                    proof {
                        assert(horiz_win(self.board@, row as int, col as int));
                    }
                    return -1;
                }
                col = col + 1;
            }
            row = row + 1;
        }
        let mut row2: usize = 0;
        while row2 < 3
            invariant
                self.inv(),
                row2 <= 3,
                forall|r2: int, c2: int| !horiz_win(self.board@, r2, c2),
                forall|r2: int, c2: int| 0 <= r2 < row2 && 0 <= c2 < 7 ==> !vert_win(
                    self.board@, r2, c2),
            decreases 3 - row2,
        {
            let mut col: usize = 0;
            while col < 7
                invariant
                    self.inv(),
                    row2 < 3,
                    col <= 7,
                    forall|r2: int, c2: int| !horiz_win(self.board@, r2, c2),
                    forall|r2: int, c2: int| 0 <= r2 < row2 && 0 <= c2 < 7 ==> !vert_win(
                        self.board@, r2, c2),
                    forall|c2: int| 0 <= c2 < col ==> !vert_win(self.board@, row2 as int, c2),
                decreases 7 - col,
            {
                let a = self.board[row2 * 7 + col];
                if a != ' ' && a == self.board[(row2 + 1) * 7 + col] && a == self.board[(row2 + 2)
                    * 7 + col] && a == self.board[(row2 + 3) * 7 + col] {
                    proof {
                        assert(vert_win(self.board@, row2 as int, col as int));
                    }
                    return -1;
                }
                col = col + 1;
            }
            row2 = row2 + 1;
        }
        let mut row3: usize = 0;
        while row3 < 3
            invariant
                self.inv(),
                row3 <= 3,
                forall|r2: int, c2: int| !horiz_win(self.board@, r2, c2),
                forall|r2: int, c2: int| !vert_win(self.board@, r2, c2),
                forall|r2: int, c2: int| 0 <= r2 < row3 ==> !diag_right_win(self.board@, r2, c2)
                    && !diag_left_win(self.board@, r2, c2),
            decreases 3 - row3,
        {
            let mut col: usize = 0;
            while col < 7
                invariant
                    self.inv(),
                    row3 < 3,
                    col <= 7,
                    forall|r2: int, c2: int| !horiz_win(self.board@, r2, c2),
                    forall|r2: int, c2: int| !vert_win(self.board@, r2, c2),
                    forall|r2: int, c2: int| 0 <= r2 < row3 ==> !diag_right_win(
                        self.board@, r2, c2) && !diag_left_win(self.board@, r2, c2),
                    forall|c2: int| 0 <= c2 < col ==> !diag_right_win(self.board@, row3 as int, c2)
                        && !diag_left_win(self.board@, row3 as int, c2),
                decreases 7 - col,
            {
                if col <= 3 {
                    let a = self.board[row3 * 7 + col];
                    if a != ' ' && a == self.board[(row3 + 1) * 7 + col + 1] && a == self.board[(
                    row3 + 2) * 7 + col + 2] && a == self.board[(row3 + 3) * 7 + col + 3] {
                        proof {
                            assert(diag_right_win(self.board@, row3 as int, col as int));
                        }
                        return -1;
                    }
                }
                if col >= 3 {
                    let a = self.board[row3 * 7 + col];
                    if a != ' ' && a == self.board[(row3 + 1) * 7 + col - 1] && a == self.board[(
                    row3 + 2) * 7 + col - 2] && a == self.board[(row3 + 3) * 7 + col - 3] {
                        proof {
                            assert(diag_left_win(self.board@, row3 as int, col as int));
                        }
                        return -1;
                    }
                }
                col = col + 1;
            }
            row3 = row3 + 1;
        }
        proof {
            assert(!win(self.board@));
        }
        0
    }
}

/// A column whose top search came back empty is filled to the brim.
proof fn lemma_top_row_full(b: Seq<char>, col: int, from: int)
    requires
        0 <= from <= 6,
        0 <= col < 7,
        top_row_from(b, col, from) == 6,
    ensures
        forall|r2: int| from <= r2 < 6 ==> at(b, r2, col) != ' ',
    decreases 6 - from,
{
    if from < 6 {
        lemma_top_row_full(b, col, from + 1);
    }
}

/// Every row below the top blank row of a column is filled.
proof fn lemma_top_row_blank_below(b: Seq<char>, col: int, from: int, tr: int)
    requires
        0 <= from <= 6,
        0 <= col < 7,
        tr == top_row_from(b, col, from),
        tr < 6,
    ensures
        at(b, tr, col) == ' ',
        forall|r2: int| from <= r2 < tr ==> at(b, r2, col) != ' ',
    decreases 6 - from,
{
    if from < 6 && at(b, from, col) != ' ' {
        lemma_top_row_blank_below(b, col, from + 1, tr);
    }
}

} // verus!
