use chomp::board::BoardState;
use chomp::solver::Solver;

#[test]
fn single_cell_board_is_a_loss_with_no_move() {
    let b = BoardState::new(1, 1).unwrap();
    let mut solver = Solver::new();
    let (value, best) = b.minimax(&mut solver);
    assert_eq!(value, -1);
    assert_eq!(best, None);
}

#[test]
fn one_by_two_board_wins_by_taking_the_free_cell() {
    let b = BoardState::new(1, 2).unwrap();
    let mut solver = Solver::new();
    let (value, best) = b.minimax(&mut solver);
    assert_eq!(value, 1);
    assert_eq!(best, Some((0, 1)));
}

#[test]
fn two_by_one_board_wins_by_taking_the_free_cell() {
    let b = BoardState::new(2, 1).unwrap();
    let mut solver = Solver::new();
    let (value, best) = b.minimax(&mut solver);
    assert_eq!(value, 1);
    assert_eq!(best, Some((1, 0)));
}

#[test]
fn two_by_two_board_wins_by_taking_the_inner_cell() {
    let b = BoardState::new(2, 2).unwrap();
    let mut solver = Solver::new();
    let (value, best) = b.minimax(&mut solver);
    assert_eq!(value, 1);
    assert_eq!(best, Some((1, 1)));
}

#[test]
fn larger_boards_are_first_player_wins() {
    for (w, h) in [(2, 3), (3, 2), (3, 3), (4, 3)] {
        let b = BoardState::new(w, h).unwrap();
        let mut solver = Solver::new();
        let (value, best) = b.minimax(&mut solver);
        assert_eq!(value, 1);
        assert!(best.is_some());
    }
}

#[test]
fn seven_by_four_board_is_a_first_player_win() {
    let b = BoardState::new(7, 4).unwrap();
    let mut solver = Solver::new();
    let (value, best) = b.minimax(&mut solver);
    assert_eq!(value, 1);
    assert!(best.is_some());
}

#[test]
fn evaluation_is_idempotent() {
    let b = BoardState::new(3, 3).unwrap();
    let mut solver = Solver::new();
    let first = b.minimax(&mut solver);
    let second = b.minimax(&mut solver);
    assert_eq!(first, second);

    let mut fresh = Solver::new();
    let third = b.minimax(&mut fresh);
    assert_eq!(first, third);
}

#[test]
fn recommended_move_achieves_the_reported_value() {
    let b = BoardState::new(2, 2).unwrap();
    let mut solver = Solver::new();
    let (value, best) = b.minimax(&mut solver);
    let (x, y) = best.unwrap();
    let child = b.do_move(x, y).unwrap();
    let (child_value, _) = child.minimax(&mut solver);
    assert_eq!(-child_value, value);
}

#[test]
fn cache_returns_the_stored_value_without_recomputation() {
    let b = BoardState::new(2, 2).unwrap();
    let mut solver = Solver::new();
    assert!(solver.lookup(&b).is_none());
    let (value, best) = b.minimax(&mut solver);
    let cached = solver.lookup(&b);
    assert_eq!(cached, Some((value, best)));
}

#[test]
fn cache_keeps_entries_for_child_positions() {
    let b = BoardState::new(2, 2).unwrap();
    let mut solver = Solver::new();
    let (_, best) = b.minimax(&mut solver);
    let (x, y) = best.unwrap();
    let child = b.do_move(x, y).unwrap();
    let cached = solver.lookup(&child);
    assert!(cached.is_some());
    assert_eq!(cached.unwrap().0, -1);
}

#[test]
fn guided_game_ends_with_opponent_poisoned() {
    // A full game of 2 x 2 under the engine's guidance: the first player
    // takes (1, 1); whatever the opponent takes next, the reply leaves the
    // opponent only the poisoned piece.
    let b = BoardState::new(2, 2).unwrap();
    let mut solver = Solver::new();
    let (_, best) = b.minimax(&mut solver);
    let b = b.do_move(best.unwrap().0, best.unwrap().1).unwrap();
    // Opponent takes (0, 1); the reply must be (1, 0).
    let b = b.do_move(0, 1).unwrap();
    let (value, best) = b.minimax(&mut solver);
    assert_eq!(value, 1);
    assert_eq!(best, Some((1, 0)));
    let b = b.do_move(1, 0).unwrap();
    assert!(b.win_state().ended());
}
