use gridentify::grid::{ActionValidation, State};

const SEEDED: [u32; 25] = [1, 1, 1, 2, 3, 3, 2, 3, 1, 3, 2, 1, 3, 2, 1, 2, 1, 2, 2, 2, 3, 1, 2, 2, 2];

#[test]
fn valid_moves_have_two_or_more_cells() {
    let state = State { board: SEEDED, score: 0 };
    let moves = state.valid_moves();
    assert_eq!(moves.len(), 148);
    assert_eq!(moves[0], vec![0, 1, 2]);
    assert_eq!(moves[1], vec![0, 1]);
    for m in &moves {
        assert!(m.len() >= 2);
        assert_eq!(state.validate_move(m), Ok(()));
    }
}

#[test]
fn validate_move_kinds() {
    let state = State { board: SEEDED, score: 0 };
    assert_eq!(state.validate_move(&vec![3]), Err(ActionValidation::TooShort));
    assert_eq!(state.validate_move(&vec![]), Err(ActionValidation::TooShort));
    assert_eq!(state.validate_move(&vec![25, 1]), Err(ActionValidation::OutOfBoard));
    assert_eq!(state.validate_move(&vec![0, 40]), Err(ActionValidation::OutOfBoard));
    assert_eq!(state.validate_move(&vec![0, 3]), Err(ActionValidation::ValueConflict));
    // This first form checks neither adjacency nor repetition.
    assert_eq!(state.validate_move(&vec![0, 2]), Ok(()));
    assert_eq!(state.validate_move(&vec![0, 1, 0]), Ok(()));
}

#[test]
fn grid_game_over() {
    let state = State { board: SEEDED, score: 0 };
    assert!(!state.is_game_over());
    let mut board = [0u32; 25];
    for i in 0..25 {
        board[i] = (i as u32 % 5 + i as u32 / 5) % 2 + 1;
    }
    let over = State { board, score: 0 };
    assert!(over.is_game_over());
    assert!(over.valid_moves().is_empty());
}

#[test]
fn grid_equal_neighbours() {
    let state = State { board: SEEDED, score: 0 };
    let lists = state.get_neighbours();
    assert_eq!(lists[0], vec![1]);
    assert_eq!(lists[12], vec![7]);
}
