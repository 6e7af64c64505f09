use checkers_mcts::board::Board;
use checkers_mcts::montecarlo::Tree;
use checkers_mcts::piece::{Action, Color, Piece};
use checkers_mcts::uct::{isqrt, log2_fp, uct_ge, UctValue};

#[test]
fn single_legal_action_returned_without_search() {
    let mut board = Board::new(Color::Black);
    board.set_piece(3, 3, Piece::Filled(Color::Black, false));
    board.set_piece(4, 4, Piece::Filled(Color::Red, false));
    let mut tree = Tree::new(board);
    let best = tree.get_monte_carlo_move(50);
    assert_eq!(best, Action::Capture(3, 3, 5, 5, 4, 4));
    // zero search iterations ran: the tree is untouched
    assert_eq!(tree.root_sims(), 0);
    assert_eq!(tree.root_child_count(), 0);
}

#[test]
fn visit_counts_of_root_children_sum_to_iterations() {
    let mut board = Board::new(Color::Black);
    board.reset();
    let mut tree = Tree::new(board);
    tree.expand(0);
    assert_eq!(tree.root_child_count(), 7);
    tree.run_iterations(25);
    let mut total = 0u64;
    for j in 0..tree.root_child_count() {
        total += tree.root_child_sims(j);
    }
    assert_eq!(total, 25);
    assert_eq!(tree.root_sims(), 25);
}

#[test]
fn best_move_is_a_most_visited_child_action() {
    let mut board = Board::new(Color::Black);
    board.reset();
    let mut tree = Tree::new(board);
    let best = tree.get_monte_carlo_move(40);
    let mut max_sims = 0u64;
    for j in 0..tree.root_child_count() {
        if tree.root_child_sims(j) > max_sims {
            max_sims = tree.root_child_sims(j);
        }
    }
    let mut found = false;
    for j in 0..tree.root_child_count() {
        if tree.root_child_sims(j) == max_sims && tree.root_child_action(j) == best {
            found = true;
        }
    }
    assert!(found);
    assert!(max_sims >= 1);
}

#[test]
fn expansion_creates_one_child_per_action_once() {
    let mut board = Board::new(Color::Black);
    board.set_piece(3, 3, Piece::Filled(Color::Black, false));
    let mut tree = Tree::new(board);
    tree.expand(0);
    assert_eq!(tree.root_child_count(), 2);
    // expanding again adds nothing
    tree.expand(0);
    assert_eq!(tree.root_child_count(), 2);
}

#[test]
fn terminal_leaf_stays_leaf() {
    // red to move with no red piece: no actions, no children
    let mut board = Board::new(Color::Red);
    board.set_piece(0, 7, Piece::Filled(Color::Black, true));
    let mut tree = Tree::new(board);
    tree.expand(0);
    assert_eq!(tree.root_child_count(), 0);
}

#[test]
fn playout_credits_the_path() {
    let mut board = Board::new(Color::Red);
    board.set_piece(0, 7, Piece::Filled(Color::Black, true));
    let mut tree = Tree::new(board);
    tree.play_out(0);
    assert_eq!(tree.root_sims(), 1);
}

#[test]
fn unvisited_node_outranks_any_visited_one() {
    assert!(uct_ge(UctValue::Infinite, UctValue::Finite(u64::MAX)));
    assert!(!uct_ge(UctValue::Finite(u64::MAX), UctValue::Infinite));
    assert!(uct_ge(UctValue::Infinite, UctValue::Infinite));
    assert!(uct_ge(UctValue::Finite(7), UctValue::Finite(7)));
    assert!(!uct_ge(UctValue::Finite(6), UctValue::Finite(7)));
}

#[test]
fn integer_square_root_values() {
    assert_eq!(isqrt(0), 0);
    assert_eq!(isqrt(1), 1);
    assert_eq!(isqrt(3), 1);
    assert_eq!(isqrt(4), 2);
    assert_eq!(isqrt(15), 3);
    assert_eq!(isqrt(16), 4);
    assert_eq!(isqrt(65536), 256);
    assert_eq!(isqrt(1 << 38), 1 << 19);
}

#[test]
fn fixed_point_log_of_powers_of_two() {
    // one fixed-point unit is 1 / 65536; log2(1) = 0, log2(2) = 1, ...
    assert_eq!(log2_fp(65536), 0);
    assert_eq!(log2_fp(131072), 65536);
    assert_eq!(log2_fp(262144), 2 * 65536);
    assert_eq!(log2_fp(1 << 26), 10 * 65536);
    // log2(3/2) = 0.58496...; in fixed point about 38336
    let mid = log2_fp(98304);
    assert!(mid > 38000 && mid < 38700);
}

#[test]
fn search_from_midgame_position_returns_legal_action() {
    let mut board = Board::new(Color::Red);
    board.set_piece(2, 2, Piece::Filled(Color::Black, false));
    board.set_piece(5, 5, Piece::Filled(Color::Red, false));
    board.set_piece(3, 5, Piece::Filled(Color::Red, false));
    let mut tree = Tree::new(board);
    let best = tree.get_monte_carlo_move(30);
    match best {
        Action::Move(x, y, _, _) => {
            // the mover must be one of Red's men
            assert!((x, y) == (5, 5) || (x, y) == (3, 5));
        }
        Action::Capture(..) => panic!("no capture exists in this position"),
    }
}

#[test]
fn expansion_children_follow_action_list_order() {
    let mut board = Board::new(Color::Black);
    board.reset();
    let mut mm = checkers_mcts::moves::MoveMemHandler::new();
    board.get_all_actions(&mut mm);
    let mut actions = Vec::new();
    let mut i = 0usize;
    while i < mm.len() {
        actions.push(mm.get(i));
        i += 1;
    }
    let mut tree = Tree::new(board);
    tree.expand(0);
    assert_eq!(tree.root_child_count(), actions.len());
    for j in 0..actions.len() {
        assert_eq!(tree.root_child_action(j), actions[j]);
        assert_eq!(tree.root_child_sims(j), 0);
    }
}
