use checkers_mcts::board::Board;
use checkers_mcts::list::StaticList;
use checkers_mcts::moves::MoveMemHandler;
use checkers_mcts::piece::{Action, Color, Piece};

fn collect_actions(board: &Board) -> Vec<Action> {
    let mut mm = MoveMemHandler::new();
    board.get_all_actions(&mut mm);
    let mut out = Vec::new();
    let mut i = 0usize;
    while i < mm.len() {
        out.push(mm.get(i));
        i += 1;
    }
    out
}

#[test]
fn reset_places_starting_men() {
    let mut board = Board::new(Color::Black);
    board.reset();
    let mut black_men = 0;
    let mut red_men = 0;
    for y in 0..8usize {
        for x in 0..8usize {
            let piece = board.get_piece(x, y).unwrap();
            match piece {
                Piece::Filled(Color::Black, king) => {
                    assert!(!king);
                    assert!((x + y) % 2 == 0);
                    assert!(y < 3);
                    black_men += 1;
                }
                Piece::Filled(Color::Red, king) => {
                    assert!(!king);
                    assert!((x + y) % 2 == 0);
                    assert!(y >= 5);
                    red_men += 1;
                }
                Piece::Empty => {
                    assert!((x + y) % 2 != 0 || (3..5).contains(&y));
                }
            }
        }
    }
    assert_eq!(black_men, 12);
    assert_eq!(red_men, 12);
}

#[test]
fn opening_position_has_seven_moves() {
    let mut board = Board::new(Color::Black);
    board.reset();
    let actions = collect_actions(&board);
    assert_eq!(actions.len(), 7);
    for a in &actions {
        assert!(matches!(a, Action::Move(..)));
    }
    // scan order: row-major squares, then directions (1,1), (-1,1)
    assert_eq!(actions[0], Action::Move(0, 2, 1, 3));
    assert_eq!(actions[1], Action::Move(2, 2, 3, 3));
    assert_eq!(actions[2], Action::Move(2, 2, 1, 3));
    assert_eq!(actions[6], Action::Move(6, 2, 5, 3));
}

#[test]
fn single_capture_is_forced() {
    let mut board = Board::new(Color::Black);
    board.set_piece(3, 3, Piece::Filled(Color::Black, false));
    board.set_piece(4, 4, Piece::Filled(Color::Red, false));
    let actions = collect_actions(&board);
    assert_eq!(actions.len(), 1);
    assert_eq!(actions[0], Action::Capture(3, 3, 5, 5, 4, 4));
}

#[test]
fn capture_anywhere_suppresses_all_moves() {
    let mut board = Board::new(Color::Black);
    // this man has two quiet moves
    board.set_piece(5, 5, Piece::Filled(Color::Black, false));
    // this one has a capture
    board.set_piece(1, 1, Piece::Filled(Color::Black, false));
    board.set_piece(2, 2, Piece::Filled(Color::Red, false));
    let actions = collect_actions(&board);
    assert_eq!(actions.len(), 1);
    assert_eq!(actions[0], Action::Capture(1, 1, 3, 3, 2, 2));
}

#[test]
fn man_moves_only_forward_king_all_four_ways() {
    let mut board = Board::new(Color::Red);
    board.set_piece(3, 3, Piece::Filled(Color::Red, false));
    let man_actions = collect_actions(&board);
    assert_eq!(man_actions.len(), 2);
    assert!(man_actions.contains(&Action::Move(3, 3, 4, 2)));
    assert!(man_actions.contains(&Action::Move(3, 3, 2, 2)));

    let mut board = Board::new(Color::Red);
    board.set_piece(3, 3, Piece::Filled(Color::Red, true));
    let king_actions = collect_actions(&board);
    assert_eq!(king_actions.len(), 4);
    assert!(king_actions.contains(&Action::Move(3, 3, 4, 4)));
    assert!(king_actions.contains(&Action::Move(3, 3, 2, 4)));
}

#[test]
fn king_captures_backward() {
    let mut board = Board::new(Color::Black);
    board.set_piece(4, 4, Piece::Filled(Color::Black, true));
    board.set_piece(3, 3, Piece::Filled(Color::Red, false));
    let actions = collect_actions(&board);
    assert_eq!(actions.len(), 1);
    assert_eq!(actions[0], Action::Capture(4, 4, 2, 2, 3, 3));
}

#[test]
fn move_to_back_rank_makes_king() {
    let mut board = Board::new(Color::Black);
    board.set_piece(2, 6, Piece::Filled(Color::Black, false));
    board.execute_action(Action::Move(2, 6, 3, 7));
    assert_eq!(board.get_piece(3, 7).unwrap(), Piece::Filled(Color::Black, true));
    assert_eq!(board.get_piece(2, 6).unwrap(), Piece::Empty);
}

#[test]
fn red_kings_on_row_zero() {
    let mut board = Board::new(Color::Red);
    board.set_piece(5, 1, Piece::Filled(Color::Red, false));
    board.execute_action(Action::Move(5, 1, 4, 0));
    assert_eq!(board.get_piece(4, 0).unwrap(), Piece::Filled(Color::Red, true));
}

#[test]
fn no_kinging_away_from_back_rank() {
    let mut board = Board::new(Color::Black);
    board.set_piece(3, 3, Piece::Filled(Color::Black, false));
    board.execute_action(Action::Move(3, 3, 4, 4));
    assert_eq!(board.get_piece(4, 4).unwrap(), Piece::Filled(Color::Black, false));
}

#[test]
fn king_stays_king() {
    let mut board = Board::new(Color::Black);
    board.set_piece(3, 3, Piece::Filled(Color::Black, true));
    board.execute_action(Action::Move(3, 3, 4, 4));
    assert_eq!(board.get_piece(4, 4).unwrap(), Piece::Filled(Color::Black, true));
    // and through a capture away from the back rank
    let mut board = Board::new(Color::Black);
    board.set_piece(2, 2, Piece::Filled(Color::Black, true));
    board.set_piece(3, 3, Piece::Filled(Color::Red, false));
    board.execute_action(Action::Capture(2, 2, 4, 4, 3, 3));
    assert_eq!(board.get_piece(4, 4).unwrap(), Piece::Filled(Color::Black, true));
}

#[test]
fn simple_move_passes_turn() {
    let mut board = Board::new(Color::Black);
    board.set_piece(3, 3, Piece::Filled(Color::Black, false));
    assert_eq!(board.get_last_turn(), None);
    board.execute_action(Action::Move(3, 3, 4, 4));
    assert_eq!(board.get_current_color(), Color::Red);
    assert_eq!(board.get_last_turn(), Some(Color::Black));
}

#[test]
fn capture_chain_retains_turn_until_done() {
    let mut board = Board::new(Color::Black);
    board.set_piece(0, 0, Piece::Filled(Color::Black, false));
    board.set_piece(1, 1, Piece::Filled(Color::Red, false));
    board.set_piece(3, 3, Piece::Filled(Color::Red, false));
    board.execute_action(Action::Capture(0, 0, 2, 2, 1, 1));
    // a further capture exists from (2,2), so Black keeps the turn
    assert_eq!(board.get_current_color(), Color::Black);
    assert_eq!(board.get_last_turn(), None);
    let actions = collect_actions(&board);
    assert_eq!(actions.len(), 1);
    assert_eq!(actions[0], Action::Capture(2, 2, 4, 4, 3, 3));
    board.execute_action(actions[0]);
    // chain over: turn passes and the move is recorded
    assert_eq!(board.get_current_color(), Color::Red);
    assert_eq!(board.get_last_turn(), Some(Color::Black));
    assert_eq!(board.get_piece(4, 4).unwrap(), Piece::Filled(Color::Black, false));
    assert_eq!(board.get_piece(3, 3).unwrap(), Piece::Empty);
    assert_eq!(board.get_piece(1, 1).unwrap(), Piece::Empty);
}

#[test]
fn stranded_side_loses_without_mutation() {
    let mut board = Board::new(Color::Red);
    board.set_piece(0, 7, Piece::Filled(Color::Black, true));
    let mut mm = MoveMemHandler::new();
    let result = board.make_random_move(&mut mm);
    assert_eq!(result, Some(Color::Black));
    assert_eq!(board.get_current_color(), Color::Red);
    assert_eq!(board.get_piece(0, 7).unwrap(), Piece::Filled(Color::Black, true));
}

#[test]
fn random_move_executes_the_only_action() {
    let mut board = Board::new(Color::Black);
    board.set_piece(3, 3, Piece::Filled(Color::Black, false));
    board.set_piece(4, 4, Piece::Filled(Color::Red, false));
    let mut mm = MoveMemHandler::new();
    let result = board.make_random_move(&mut mm);
    assert_eq!(result, None);
    assert_eq!(board.get_piece(5, 5).unwrap(), Piece::Filled(Color::Black, false));
    assert_eq!(board.get_piece(4, 4).unwrap(), Piece::Empty);
    assert_eq!(board.get_piece(3, 3).unwrap(), Piece::Empty);
}

#[test]
fn random_move_picks_a_legal_action() {
    for _ in 0..20 {
        let mut board = Board::new(Color::Black);
        board.set_piece(3, 3, Piece::Filled(Color::Black, false));
        let mut mm = MoveMemHandler::new();
        assert_eq!(board.make_random_move(&mut mm), None);
        let moved_left = board.get_piece(2, 4).unwrap() != Piece::Empty;
        let moved_right = board.get_piece(4, 4).unwrap() != Piece::Empty;
        assert!(moved_left ^ moved_right);
        assert_eq!(board.get_piece(3, 3).unwrap(), Piece::Empty);
        assert_eq!(board.get_current_color(), Color::Red);
    }
}

#[test]
fn get_piece_rejects_off_board_coordinates() {
    let board = Board::new(Color::Black);
    assert_eq!(board.get_piece(8, 0), None);
    assert_eq!(board.get_piece(0, 8), None);
    assert_eq!(board.get_piece(100, 100), None);
    assert_eq!(board.get_piece(7, 7), Some(Piece::Empty));
}

#[test]
fn clone_is_independent() {
    let mut board = Board::new(Color::Black);
    board.reset();
    let copy = board.clone();
    board.set_piece(0, 0, Piece::Empty);
    assert_eq!(copy.get_piece(0, 0).unwrap(), Piece::Filled(Color::Black, false));
    assert_eq!(board.get_piece(0, 0).unwrap(), Piece::Empty);
}

#[test]
fn piece_symbols() {
    assert_eq!(Piece::Filled(Color::Black, false).symbol(), 'b');
    assert_eq!(Piece::Filled(Color::Black, true).symbol(), 'B');
    assert_eq!(Piece::Filled(Color::Red, false).symbol(), 'r');
    assert_eq!(Piece::Filled(Color::Red, true).symbol(), 'R');
    assert_eq!(Piece::Empty.symbol(), '_');
}

#[test]
fn king_rows_per_color() {
    assert_eq!(Piece::Filled(Color::Black, false).king_y_con(), 7);
    assert_eq!(Piece::Filled(Color::Red, true).king_y_con(), 0);
    assert_eq!(Piece::Empty.king_y_con(), 4);
}

#[test]
fn opposite_is_an_involution() {
    assert_eq!(Color::Black.opposite(), Color::Red);
    assert_eq!(Color::Red.opposite(), Color::Black);
    assert_eq!(Color::Black.opposite().opposite(), Color::Black);
}

#[test]
fn static_list_push_get_clear() {
    let mut list: StaticList<u32> = StaticList::new();
    assert_eq!(list.len(), 0);
    list.push(10);
    list.push(20);
    list.push(30);
    assert_eq!(list.len(), 3);
    assert_eq!(list.get(0), 10);
    assert_eq!(list.get(2), 30);
    list.clear();
    assert_eq!(list.len(), 0);
}

#[test]
fn move_handler_prefers_captures() {
    let mut mm = MoveMemHandler::new();
    assert!(!mm.has_actions());
    mm.add_action(Action::Move(0, 2, 1, 3));
    assert!(mm.has_actions());
    assert!(!mm.contains_capture());
    assert_eq!(mm.len(), 1);
    mm.add_action(Action::Capture(1, 1, 3, 3, 2, 2));
    assert!(mm.contains_capture());
    assert_eq!(mm.len(), 1);
    assert_eq!(mm.get(0), Action::Capture(1, 1, 3, 3, 2, 2));
    // a move arriving after a capture is discarded
    mm.add_action(Action::Move(4, 2, 5, 3));
    assert_eq!(mm.len(), 1);
    let picked = mm.get_random_move();
    assert_eq!(picked, Action::Capture(1, 1, 3, 3, 2, 2));
    mm.clear();
    assert!(!mm.has_actions());
}

#[test]
fn blocked_man_has_no_actions() {
    // black men on every dark square: nobody can move or capture
    let mut board = Board::new(Color::Black);
    for y in 0..8usize {
        for x in 0..8usize {
            if (x + y) % 2 == 0 {
                board.set_piece(x, y, Piece::Filled(Color::Black, false));
            }
        }
    }
    let actions = collect_actions(&board);
    assert_eq!(actions.len(), 0);
}
