use mcts::mcts::GameState;
use mcts::ttt::Cell;

fn ttt_play(s: mcts::ttt::State, row: usize, col: usize) -> mcts::ttt::State {
    assert!(s.get_legal_actions().contains(&Cell { row, col }));
    s.get_next_state(Cell { row, col })
}

#[test]
fn ttt_empty_board_has_nine_actions() {
    let s = mcts::ttt::State::new();
    let mut expected = Vec::new();
    for row in 0..3 {
        for col in 0..3 {
            expected.push(Cell { row, col });
        }
    }
    assert_eq!(s.get_legal_actions(), expected);
    assert_eq!(s.get_legal_actions().len(), 9);
    assert!(!s.is_terminal());
    assert_eq!(s.get_result(), 0);
    assert_eq!(s.get_player_turn(), 1);
}

#[test]
fn ttt_x_completes_row_result_is_minus_one() {
    // X, O, X, O, X along the top row for X: three in a row.
    let mut s = mcts::ttt::State::new();
    s = ttt_play(s, 0, 0); // X
    s = ttt_play(s, 1, 0); // O
    s = ttt_play(s, 0, 1); // X
    s = ttt_play(s, 1, 1); // O
    s = ttt_play(s, 0, 2); // X completes the line
    // Opponent-relative sign convention: the player now to move has lost.
    assert_eq!(s.get_result(), -1);
    assert!(s.is_terminal());
    assert_eq!(s.get_player_turn(), -1); // O to move
}

#[test]
fn ttt_column_and_diagonal_wins() {
    let mut s = mcts::ttt::State::new();
    s = ttt_play(s, 0, 0); // X
    s = ttt_play(s, 0, 1); // O
    s = ttt_play(s, 1, 0); // X
    s = ttt_play(s, 1, 1); // O
    s = ttt_play(s, 2, 0); // X completes the left column
    assert_eq!(s.get_result(), -1);
    assert!(s.is_terminal());

    let mut d = mcts::ttt::State::new();
    d = ttt_play(d, 0, 0); // X
    d = ttt_play(d, 0, 1); // O
    d = ttt_play(d, 1, 1); // X
    d = ttt_play(d, 0, 2); // O
    d = ttt_play(d, 2, 2); // X completes the diagonal
    assert_eq!(d.get_result(), -1);
    assert!(d.is_terminal());
}

#[test]
fn ttt_uniform_policy_sums_to_one_unit() {
    let s = mcts::ttt::State::new();
    let actions = s.get_legal_actions();
    let probs = s.get_policy(&actions);
    assert_eq!(probs.len(), 9);
    // 1_000_000 = 9 * 111_111 + 1: the first action takes the remainder.
    assert_eq!(probs[0], 111_112);
    for k in 1..9 {
        assert_eq!(probs[k], 111_111);
    }
    let total: u64 = probs.iter().sum();
    assert_eq!(total, 1_000_000);
}

#[test]
fn ttt_applying_action_fills_cell_and_flips_player() {
    let s = mcts::ttt::State::new();
    let t = s.get_next_state(Cell { row: 1, col: 2 });
    assert_eq!(t.board[1 * 3 + 2], 'X');
    assert_eq!(t.player, 'O');
    assert_eq!(t.get_legal_actions().len(), 8);
    assert!(!t.get_legal_actions().contains(&Cell { row: 1, col: 2 }));
    // The remaining actions keep their row-major order.
    let mut expected = Vec::new();
    for row in 0..3 {
        for col in 0..3 {
            if !(row == 1 && col == 2) {
                expected.push(Cell { row, col });
            }
        }
    }
    assert_eq!(t.get_legal_actions(), expected);
}

#[test]
fn ttt_rollout_of_forced_draw_returns_zero() {
    // Eight moves leaving one blank cell; the only continuation is a draw.
    let mut s = mcts::ttt::State::new();
    s = ttt_play(s, 1, 1); // X
    s = ttt_play(s, 0, 0); // O
    s = ttt_play(s, 2, 0); // X
    s = ttt_play(s, 0, 2); // O
    s = ttt_play(s, 0, 1); // X
    s = ttt_play(s, 2, 1); // O
    s = ttt_play(s, 1, 2); // X
    s = ttt_play(s, 1, 0); // O
    assert!(!s.is_terminal());
    assert_eq!(s.get_legal_actions().len(), 1);
    assert_eq!(mcts::mcts::rollout(&s), 0);
    let done = ttt_play(s, 2, 2);
    assert!(done.is_terminal());
    assert_eq!(done.get_result(), 0);
}

#[test]
fn ttt_rollout_of_terminal_loss_reports_it() {
    let mut s = mcts::ttt::State::new();
    s = ttt_play(s, 0, 0);
    s = ttt_play(s, 1, 0);
    s = ttt_play(s, 0, 1);
    s = ttt_play(s, 1, 1);
    s = ttt_play(s, 0, 2);
    assert!(s.is_terminal());
    assert_eq!(mcts::mcts::rollout(&s), -1);
}

fn c4_play(s: mcts::connect4::State, col: usize) -> mcts::connect4::State {
    assert!(s.get_legal_actions().contains(&col));
    s.get_next_state(col)
}

#[test]
fn c4_empty_board_has_seven_actions() {
    let s = mcts::connect4::State::new();
    assert_eq!(s.get_legal_actions(), vec![0, 1, 2, 3, 4, 5, 6]);
    assert!(!s.is_terminal());
    assert_eq!(s.get_player_turn(), 1);
}

#[test]
fn c4_full_column_is_absent_from_legal_actions() {
    // Fill column 3 with six alternating pieces.
    let mut s = mcts::connect4::State::new();
    for _ in 0..6 {
        s = c4_play(s, 3);
    }
    assert_eq!(s.get_top_row(3), None);
    let actions = s.get_legal_actions();
    assert_eq!(actions, vec![0, 1, 2, 4, 5, 6]);
    assert!(!actions.contains(&3));
    assert!(!s.is_terminal());
}

#[test]
fn c4_pieces_stack_from_the_bottom() {
    let mut s = mcts::connect4::State::new();
    assert_eq!(s.get_top_row(2), Some(0));
    s = c4_play(s, 2); // X at (0, 2)
    assert_eq!(s.board[0 * 7 + 2], 'X');
    assert_eq!(s.get_top_row(2), Some(1));
    s = c4_play(s, 2); // O at (1, 2)
    assert_eq!(s.board[1 * 7 + 2], 'O');
    assert_eq!(s.get_top_row(2), Some(2));
}

#[test]
fn c4_vertical_win_is_terminal_with_result_minus_one() {
    let mut s = mcts::connect4::State::new();
    // X stacks column 0, O stacks column 1.
    s = c4_play(s, 0); // X
    s = c4_play(s, 1); // O
    s = c4_play(s, 0); // X
    s = c4_play(s, 1); // O
    s = c4_play(s, 0); // X
    s = c4_play(s, 1); // O
    s = c4_play(s, 0); // X: four in column 0
    assert_eq!(s.get_result(), -1);
    assert!(s.is_terminal());
    assert_eq!(s.get_player_turn(), -1);
}

#[test]
fn c4_horizontal_win_is_detected() {
    let mut s = mcts::connect4::State::new();
    s = c4_play(s, 0); // X
    s = c4_play(s, 0); // O
    s = c4_play(s, 1); // X
    s = c4_play(s, 1); // O
    s = c4_play(s, 2); // X
    s = c4_play(s, 2); // O
    s = c4_play(s, 3); // X: four along the bottom row
    assert_eq!(s.get_result(), -1);
    assert!(s.is_terminal());
}

#[test]
fn c4_policy_is_uniform_when_no_move_stands_out() {
    let s = mcts::connect4::State::new();
    let actions = s.get_legal_actions();
    let probs = s.get_policy(&actions);
    assert_eq!(probs.len(), 7);
    // 1_000_000 = 7 * 142_857 + 1.
    assert_eq!(probs[0], 142_858);
    for k in 1..7 {
        assert_eq!(probs[k], 142_857);
    }
    let total: u64 = probs.iter().sum();
    assert_eq!(total, 1_000_000);
}

#[test]
fn c4_policy_concentrates_on_the_winning_move() {
    let mut s = mcts::connect4::State::new();
    s = c4_play(s, 0); // X
    s = c4_play(s, 1); // O
    s = c4_play(s, 0); // X
    s = c4_play(s, 1); // O
    s = c4_play(s, 0); // X: three stacked in column 0
    s = c4_play(s, 2); // O elsewhere; X to move can win at column 0
    assert_eq!(s.player, 'X');
    let actions = s.get_legal_actions();
    let probs = s.get_policy(&actions);
    assert_eq!(actions[0], 0);
    assert_eq!(probs[0], 1_000_000);
    for k in 1..probs.len() {
        assert_eq!(probs[k], 0);
    }
}

#[test]
fn c4_policy_rewards_blocking_the_opponent() {
    let mut s = mcts::connect4::State::new();
    s = c4_play(s, 0); // X
    s = c4_play(s, 6); // O
    s = c4_play(s, 0); // X
    s = c4_play(s, 6); // O
    s = c4_play(s, 0); // X: three stacked in column 0
    // O to move: playing column 0 blocks X's win there.
    assert_eq!(s.player, 'O');
    let actions = s.get_legal_actions();
    let probs = s.get_policy(&actions);
    assert_eq!(actions[0], 0);
    assert_eq!(probs[0], 1_000_000);
}
