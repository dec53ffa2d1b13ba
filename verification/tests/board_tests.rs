use chomp::board::{BoardState, ChompError, WinState};

fn count_pieces(b: &BoardState, width: usize, height: usize) -> usize {
    let mut n: usize = 0;
    for x in 0..width {
        for y in 0..height {
            if b.piece_at(x, y) {
                n += 1;
            }
        }
    }
    n
}

#[test]
fn new_rejects_zero_width() {
    assert!(matches!(BoardState::new(0, 4), Err(ChompError::InvalidDimension)));
}

#[test]
fn new_rejects_zero_height() {
    assert!(matches!(BoardState::new(7, 0), Err(ChompError::InvalidDimension)));
}

#[test]
fn fresh_single_cell_board_is_terminal() {
    let b = BoardState::new(1, 1).unwrap();
    let ws = b.win_state();
    assert!(matches!(ws, WinState::Loss));
    assert!(ws.ended());
}

#[test]
fn fresh_larger_boards_are_not_terminal() {
    for (w, h) in [(1, 2), (2, 1), (2, 2), (3, 3), (7, 4)] {
        let b = BoardState::new(w, h).unwrap();
        let ws = b.win_state();
        assert!(matches!(ws, WinState::NoWinner));
        assert!(!ws.ended());
    }
}

#[test]
fn win_state_converts_to_score() {
    assert_eq!(i32::from(WinState::Loss), -1);
    assert_eq!(i32::from(WinState::NoWinner), 0);
}

#[test]
fn out_of_range_move_fails() {
    let b = BoardState::new(2, 2).unwrap();
    assert!(matches!(b.do_move(5, 5), Err(ChompError::InvalidMove)));
    assert!(matches!(b.do_move(2, 0), Err(ChompError::InvalidMove)));
    assert!(matches!(b.do_move(0, 2), Err(ChompError::InvalidMove)));
}

#[test]
fn poisoned_move_fails() {
    let b = BoardState::new(2, 2).unwrap();
    assert!(matches!(b.do_move(0, 0), Err(ChompError::InvalidMove)));
}

#[test]
fn eaten_cell_move_fails() {
    let b = BoardState::new(2, 2).unwrap();
    let after = b.do_move(1, 1).unwrap();
    assert!(matches!(after.do_move(1, 1), Err(ChompError::InvalidMove)));
}

#[test]
fn failed_move_leaves_board_intact() {
    let b = BoardState::new(2, 2).unwrap();
    assert!(b.do_move(0, 0).is_err());
    assert!(b.do_move(9, 9).is_err());
    assert!(b == BoardState::new(2, 2).unwrap());
    assert_eq!(count_pieces(&b, 2, 2), 4);
}

#[test]
fn chomp_removes_upper_right_region() {
    let b = BoardState::new(3, 3).unwrap();
    let after = b.do_move(1, 1).unwrap();
    for x in 0..3 {
        for y in 0..3 {
            let expected = x < 1 || y < 1;
            assert_eq!(after.piece_at(x, y), expected);
        }
    }
}

#[test]
fn every_legal_move_strictly_shrinks_the_board() {
    let b = BoardState::new(3, 2).unwrap();
    let before = count_pieces(&b, 3, 2);
    for ((x, y), child) in b.moves() {
        let direct = b.do_move(x, y).unwrap();
        assert!(child == direct);
        assert!(count_pieces(&child, 3, 2) < before);
    }
}

#[test]
fn boards_compare_structurally() {
    let a = BoardState::new(2, 3).unwrap();
    let b = BoardState::new(2, 3).unwrap();
    assert!(a == b);
    assert!(a == a.duplicate());
    let c = a.do_move(1, 2).unwrap();
    assert!(a != c);
    let d = BoardState::new(3, 2).unwrap();
    assert!(a != d);
}

#[test]
fn moves_enumerates_in_row_major_order() {
    let b = BoardState::new(2, 2).unwrap();
    let mvs = b.moves();
    let coords: Vec<(usize, usize)> = mvs.iter().map(|m| m.0).collect();
    assert_eq!(coords, vec![(0, 1), (1, 0), (1, 1)]);
}

#[test]
fn moves_skips_eaten_cells() {
    let b = BoardState::new(2, 2).unwrap();
    let after = b.do_move(1, 1).unwrap();
    let coords: Vec<(usize, usize)> = after.moves().iter().map(|m| m.0).collect();
    assert_eq!(coords, vec![(0, 1), (1, 0)]);
}

#[test]
fn terminal_board_has_no_moves() {
    let b = BoardState::new(1, 1).unwrap();
    assert!(b.moves().is_empty());
}
