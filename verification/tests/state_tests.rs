use gridentify::state::{neighbours, ActionValidation, State};

fn board_of(rows: [[u32; 5]; 5]) -> [u32; 25] {
    let mut board = [0u32; 25];
    for y in 0..5 {
        for x in 0..5 {
            board[y * 5 + x] = rows[y][x];
        }
    }
    board
}

#[test]
fn validate_action_kinds() {
    let state = State {
        board: board_of([[1, 1, 2, 3, 3], [2, 1, 3, 1, 2], [3, 2, 1, 2, 3], [1, 3, 2, 3, 1], [2, 1, 3, 1, 2]]),
        score: 0,
    };
    assert_eq!(state.validate_action(&[0]), Err(ActionValidation::TooShort));
    assert_eq!(state.validate_action(&[0, 1]), Ok(()));
    assert_eq!(state.validate_action(&[0, 1, 6]), Ok(()));
    assert_eq!(state.validate_action(&[30, 1]), Err(ActionValidation::OutOfBoard));
    assert_eq!(state.validate_action(&[0, 2]), Err(ActionValidation::ValueConflict));
    assert_eq!(state.validate_action(&[0, 1, 0]), Err(ActionValidation::AlreadyGotten));
    assert_eq!(state.validate_action(&[0, 6]), Err(ActionValidation::NotNextToEachOther));
}

const SEEDED: [u32; 25] = [1, 1, 1, 2, 3, 3, 2, 3, 1, 3, 2, 1, 3, 2, 1, 2, 1, 2, 2, 2, 3, 1, 2, 2, 2];

fn alternating_board() -> [u32; 25] {
    let mut board = [0u32; 25];
    for i in 0..25 {
        board[i] = if (i % 5 + i / 5) % 2 == 0 { 1 } else { 2 };
    }
    board
}

#[test]
fn actions_in_search_order() {
    let state = State { board: SEEDED, score: 0 };
    let actions = state.actions();
    assert_eq!(actions.len(), 173);
    assert_eq!(
        actions[0..6].to_vec(),
        vec![vec![0, 1, 2], vec![0, 1], vec![0], vec![1, 2], vec![1, 0], vec![1]]
    );
    assert_eq!(actions.iter().map(|a| a.len()).max(), Some(7));
}

#[test]
fn every_listed_path_of_two_or_more_validates() {
    let state = State { board: SEEDED, score: 0 };
    for action in state.actions() {
        if action.len() >= 2 {
            assert_eq!(state.validate_action(&action), Ok(()));
        } else {
            assert_eq!(state.validate_action(&action), Err(ActionValidation::TooShort));
        }
    }
}

#[test]
fn game_over_when_no_neighbours_match() {
    assert!(!State { board: SEEDED, score: 0 }.is_game_over());
    let over = State { board: alternating_board(), score: 7 };
    assert!(over.is_game_over());
    assert!(gridentify::state::stuck(&alternating_board()));
    assert_eq!(over.actions().len(), 25);
}

#[test]
fn next_states_refill_every_way() {
    let state = State { board: SEEDED, score: 4 };
    let states = state.next_states(&vec![0, 1, 2]);
    assert_eq!(states.len(), 9);
    assert_eq!(states[0].board[0..3].to_vec(), vec![1, 1, 3]);
    assert_eq!(states[1].board[0..3].to_vec(), vec![1, 2, 3]);
    assert_eq!(states[3].board[0..3].to_vec(), vec![2, 1, 3]);
    assert_eq!(states[8].board[0..3].to_vec(), vec![3, 3, 3]);
    for s in &states {
        assert_eq!(s.score, 7);
        assert_eq!(s.board[3..25].to_vec(), SEEDED[3..25].to_vec());
    }
    let single = state.next_states(&vec![4, 9]);
    assert_eq!(single.len(), 3);
    assert_eq!(single[2].board[9], 6);
    assert_eq!(single[2].board[4], 3);
    assert_eq!(single[2].score, 10);
}

#[test]
fn neighbours_right_down_left_up() {
    assert_eq!(neighbours(0), vec![1, 5]);
    assert_eq!(neighbours(12), vec![13, 17, 11, 7]);
    assert_eq!(neighbours(24), vec![23, 19]);
    assert_eq!(neighbours(4), vec![9, 3]);
}

#[test]
fn equal_neighbours_of_each_cell() {
    let state = State { board: SEEDED, score: 0 };
    let lists = state.get_neighbours();
    assert_eq!(lists[0], vec![1]);
    assert_eq!(lists[1], vec![2, 0]);
    assert_eq!(lists[4], vec![9]);
    assert_eq!(lists[18], vec![19, 23, 17, 13]);
}
