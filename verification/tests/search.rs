use mcts::mcts::{GameState, Node, Stats, Tree};
use mcts::ttt::Cell;

fn fresh_ttt_tree() -> Tree<mcts::ttt::State> {
    let root = Node::new(mcts::ttt::State::new(), None, None);
    Tree::new(root)
}

#[test]
fn fresh_tree_has_one_unvisited_root() {
    let tree = fresh_ttt_tree();
    assert_eq!(tree.nodes.len(), 1);
    assert_eq!(tree.stats[0].visit_count, 0);
    assert!(tree.children[0].is_empty());
    assert!(tree.nodes[0].parent.is_none());
}

#[test]
fn simulations_distribute_over_root_children() {
    let mut tree = fresh_ttt_tree();
    Node::best_action(&mut tree, 120);
    let total: u64 = tree.children[0]
        .iter()
        .map(|&c| tree.stats[c].visit_count)
        .sum();
    assert_eq!(total, 120);
}

#[test]
fn best_action_visits_root_exactly_n_times() {
    let mut tree = fresh_ttt_tree();
    let action = Node::best_action(&mut tree, 1000);
    assert_eq!(tree.stats[0].visit_count, 1000);
    let legal = tree.nodes[0].state.get_legal_actions();
    assert!(legal.contains(&action));
}

#[test]
fn best_action_on_connect4_returns_legal_column() {
    let root = Node::new(mcts::connect4::State::new(), None, None);
    let mut tree = Tree::new(root);
    let action = Node::best_action(&mut tree, 200);
    assert!(tree.nodes[0].state.get_legal_actions().contains(&action));
    assert_eq!(tree.stats[0].visit_count, 200);
}

#[test]
fn visit_counts_tally_outcome_counts_everywhere() {
    let mut tree = fresh_ttt_tree();
    Node::best_action(&mut tree, 300);
    for st in tree.stats.iter() {
        assert_eq!(
            st.visit_count,
            st.result_plus + st.result_zero + st.result_minus
        );
    }
}

#[test]
fn populated_child_lists_are_never_repopulated() {
    let mut tree = fresh_ttt_tree();
    Node::best_action(&mut tree, 50);
    let root_children = tree.children[0].clone();
    assert!(!root_children.is_empty());
    Node::best_action(&mut tree, 50);
    assert_eq!(tree.children[0], root_children);
    assert_eq!(tree.stats[0].visit_count, 100);
}

#[test]
fn backpropagation_alternates_the_sign_per_level() {
    let mut tree = fresh_ttt_tree();
    tree.expand(0);
    assert_eq!(tree.children[0].len(), 9);
    let child = tree.children[0][0];

    // An outcome of +1 observed at depth 1 reaches the root as -1.
    tree.backpropagate(child, 1);
    assert_eq!(tree.stats[child].visit_count, 1);
    assert_eq!(tree.stats[child].result_plus, 1);
    assert_eq!(tree.stats[0].visit_count, 1);
    assert_eq!(tree.stats[0].result_minus, 1);

    // A draw keeps its sign at every level.
    tree.backpropagate(child, 0);
    assert_eq!(tree.stats[child].result_zero, 1);
    assert_eq!(tree.stats[0].result_zero, 1);

    // At depth 2 a +1 comes back to the root unchanged.
    tree.expand(child);
    let grandchild = tree.children[child][0];
    tree.backpropagate(grandchild, 1);
    assert_eq!(tree.stats[grandchild].result_plus, 1);
    assert_eq!(tree.stats[child].result_minus, 1);
    assert_eq!(tree.stats[0].result_plus, 1);
    assert_eq!(tree.stats[0].visit_count, 3);
}

#[test]
fn backpropagation_at_the_root_credits_it_directly() {
    let mut tree = fresh_ttt_tree();
    tree.backpropagate(0, -1);
    assert_eq!(tree.stats[0].visit_count, 1);
    assert_eq!(tree.stats[0].result_minus, 1);
    assert_eq!(tree.stats[0].result_plus, 0);
}

#[test]
fn expansion_attaches_children_with_recorded_actions() {
    let mut tree = fresh_ttt_tree();
    tree.expand(0);
    assert_eq!(tree.children[0].len(), 9);
    for (k, &c) in tree.children[0].iter().enumerate() {
        assert_eq!(tree.nodes[c].parent, Some(0));
        let a = tree.nodes[c].parent_action.unwrap();
        assert_eq!(a, Cell { row: k / 3, col: k % 3 });
        assert_eq!(tree.stats[c].visit_count, 0);
        // The child's cell is now occupied in its own state.
        assert_eq!(tree.nodes[c].state.board[3 * a.row + a.col], 'X');
        assert_eq!(tree.nodes[c].state.player, 'O');
    }
}

#[test]
fn node_construction_records_priors_over_legal_actions() {
    let n = Node::new(mcts::ttt::State::new(), None, None);
    assert_eq!(n.action_probs.len(), 9);
    let total: u64 = n.action_probs.iter().map(|p| p.1).sum();
    assert_eq!(total, 1_000_000);
    assert_eq!(n.prior, 1_000_000);
    assert!(n.parent_action.is_none());
}

#[test]
fn unvisited_child_scores_a_full_value_unit() {
    // An unvisited node has the pessimistic mean of -1, so its value term
    // is a whole unit; with no parent visits the exploration term is zero.
    let st = Stats { visit_count: 0, result_plus: 0, result_zero: 0, result_minus: 0 };
    assert_eq!(mcts::mcts::uct_score(st, 500_000, 0), 1_000_000);
}

#[test]
fn fully_lost_child_still_gets_full_value_score() {
    // One visit, one loss: the mean is -1 and the value term is a whole
    // unit; a zero prior removes the exploration term.
    let st = Stats { visit_count: 1, result_plus: 0, result_zero: 0, result_minus: 1 };
    assert_eq!(mcts::mcts::uct_score(st, 0, 1), 1_000_000);
}

#[test]
fn fully_won_child_gets_zero_value_score() {
    let st = Stats { visit_count: 2, result_plus: 2, result_zero: 0, result_minus: 0 };
    assert_eq!(mcts::mcts::uct_score(st, 0, 2), 0);
}

#[test]
fn exploration_term_grows_with_the_prior() {
    let st = Stats { visit_count: 1, result_plus: 0, result_zero: 1, result_minus: 0 };
    let low = mcts::mcts::uct_score(st, 100_000, 10);
    let high = mcts::mcts::uct_score(st, 900_000, 10);
    assert!(high > low);
}

#[test]
fn fixed_point_sqrt_and_ln_hit_exact_values() {
    assert_eq!(mcts::fixed::isqrt(0), 0);
    assert_eq!(mcts::fixed::isqrt(144), 12);
    assert_eq!(mcts::fixed::isqrt(145), 12);
    assert_eq!(mcts::fixed::isqrt(1_000_000_000_000), 1_000_000);
    // ln(1) = 0 and ln(2) in millionths.
    assert_eq!(mcts::fixed::ln_fixed(1_000_000), 0);
    assert_eq!(mcts::fixed::ln_fixed(2_000_000), 693_147);
    assert_eq!(mcts::fixed::ln_fixed(4_000_000), 2 * 693_147);
}

#[test]
fn uniform_and_masked_distributions_sum_to_one_unit() {
    let u = mcts::policy::uniform_unit(3);
    assert_eq!(u, vec![333_334, 333_333, 333_333]);

    let mask = vec![false, true, false, true];
    let d = mcts::policy::distribute_unit(&mask);
    assert_eq!(d, vec![0, 500_000, 0, 500_000]);

    let lone = mcts::policy::distribute_unit(&vec![true]);
    assert_eq!(lone, vec![1_000_000]);
}

#[test]
fn search_prefers_the_immediate_win() {
    // X has two in the top row with the third cell open; the search should
    // find the winning completion.
    let mut s = mcts::ttt::State::new();
    s = s.get_next_state(Cell { row: 0, col: 0 }); // X
    s = s.get_next_state(Cell { row: 2, col: 0 }); // O
    s = s.get_next_state(Cell { row: 0, col: 1 }); // X
    s = s.get_next_state(Cell { row: 2, col: 1 }); // O
    assert_eq!(s.player, 'X');
    let root = Node::new(s, None, None);
    let mut tree = Tree::new(root);
    let action = Node::best_action(&mut tree, 800);
    assert_eq!(action, Cell { row: 0, col: 2 });
}
