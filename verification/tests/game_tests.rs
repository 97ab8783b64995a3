use gridentify::action::action_picture;
use gridentify::bot::{checked_state_value, checked_value_tile, state_value, value_tile};
use gridentify::cells::{count_cells, holds_cell, lowest_cell, mask_of};
use gridentify::local::Local;
use gridentify::memo::Memo;
use gridentify::random::Random;
use gridentify::session::{GameSession, SessionError};
use gridentify::state::State;

const SEEDED: [u32; 25] = [1, 1, 1, 2, 3, 3, 2, 3, 1, 3, 2, 1, 3, 2, 1, 2, 1, 2, 2, 2, 3, 1, 2, 2, 2];

#[test]
fn seeded_generator_draws() {
    let mut seed: u64 = 123;
    assert_eq!(seed.new_num(), 1);
    assert_eq!(seed, 2067261);
    let mut seed: u64 = 123;
    assert_eq!(seed.new_board(), SEEDED);
    assert_eq!(seed, 1203162895);
    let draws: Vec<u32> = (0..5).map(|_| seed.new_num()).collect();
    assert_eq!(draws, vec![3, 1, 2, 2, 2]);
}

#[test]
fn thread_generator_draws_one_to_three() {
    let mut rng = rand::thread_rng();
    for _ in 0..200 {
        let v = rng.new_num();
        assert!((1..=3).contains(&v));
    }
    let board = rng.new_board();
    assert!(board.iter().all(|&v| (1..=3).contains(&v)));
}

#[test]
fn local_game_from_seed() {
    let mut local = Local::new(123u64);
    assert_eq!(local.state.board, SEEDED);
    assert_eq!(local.state.score, 0);
    local.make_move(&[0, 1, 2]);
    assert_eq!(local.state.board[0..5].to_vec(), vec![3, 1, 3, 2, 3]);
    assert_eq!(local.state.score, 3);
    assert_eq!(local.state.board[5..25].to_vec(), SEEDED[5..25].to_vec());
    local.make_move(&[4, 9]);
    assert_eq!(local.state.board[9], 6);
    assert_eq!(local.state.board[4], 2);
    assert_eq!(local.state.score, 9);
}

#[test]
fn bot_values_chains_from_corners() {
    assert_eq!(value_tile(&SEEDED, 4), 6);
    assert_eq!(value_tile(&SEEDED, 20), 3);
    let mut board = [1u32; 25];
    board[0] = 12;
    board[1] = 6;
    board[2] = 3;
    board[5] = 9;
    assert_eq!(value_tile(&board, 0), 12 + 9);
    board[5] = 1;
    assert_eq!(value_tile(&board, 0), 12 + 6 + 3);
    let state = State { board: SEEDED, score: 5 };
    assert_eq!(state_value(&state, 173), 9 * 173 + 5);
    assert_eq!(state_value(&State { board: [1; 25], score: 4 }, 10), 4);
}

#[test]
fn move_picture_numbers_cells_in_order() {
    let picture = action_picture(&vec![0, 1, 6]);
    let mut expected = [0usize; 25];
    expected[0] = 1;
    expected[1] = 2;
    expected[6] = 3;
    assert_eq!(picture, expected);
    assert_eq!(action_picture(&vec![]), [0usize; 25]);
}

#[test]
fn cell_masks() {
    assert_eq!(mask_of(&[0, 1, 2, 5]), 0b100111);
    assert_eq!(count_cells(0b100111), 4);
    assert_eq!(count_cells(0), 0);
    assert!(holds_cell(0b100111, 5));
    assert!(!holds_cell(0b100111, 3));
    assert_eq!(lowest_cell(0b100110), 1);
}

#[test]
fn memo_stores_and_replaces() {
    let mut memo = Memo::new();
    let key = vec![(3u32, Some((1u32, false))), (4u32, None)];
    assert_eq!(memo.get(&key), None);
    memo.insert(key.clone(), 7);
    assert_eq!(memo.get(&key), Some(7));
    let other = vec![(3u32, Some((1u32, true)))];
    assert_eq!(memo.get(&other), None);
    memo.insert(other.clone(), 11);
    memo.insert(key.clone(), 9);
    assert_eq!(memo.get(&key), Some(9));
    assert_eq!(memo.get(&other), Some(11));
    assert_eq!(memo.get(&vec![]), None);
}

#[test]
fn session_refuses_long_nickname() {
    let res = GameSession::start("a nickname far too long".to_string(), 123u64);
    assert!(matches!(res, Err(SessionError::NicknameTooLong(ref n)) if n == "a nickname far too long"));
    let res = GameSession::start("sixteen bytes ok".to_string(), 123u64);
    assert!(res.is_ok());
}

#[test]
fn session_plays_and_refuses_wrong_moves() {
    let mut session = match GameSession::start("ann".to_string(), 123u64) {
        Ok(s) => s,
        Err(_) => panic!("nickname refused"),
    };
    assert_eq!(session.board(), SEEDED);
    assert!(session.finished().is_none());
    assert!(matches!(session.play(&[0, 6]), Err(SessionError::WrongMove(ref n)) if n == "ann"));
    assert_eq!(session.board(), SEEDED);
    assert!(session.play(&[0, 1, 2]).is_ok());
    assert_eq!(session.board()[2], 3);
}

#[test]
fn moves_that_overflow_do_not_fit() {
    let mut board = [1u32; 25];
    board[0] = 3_000_000_000;
    board[1] = 3_000_000_000;
    let local = Local { random: 123u64, state: State { board, score: 0 } };
    assert!(!local.fits(&[0, 1]));
    assert!(local.fits(&[5, 6]));
    let rich = Local { random: 123u64, state: State { board: [1u32; 25], score: u32::MAX - 1 } };
    assert!(!rich.fits(&[5, 6]));
    assert!(rich.fits(&[5]));
}

#[test]
fn checked_values_report_overflow() {
    let mut board = [1u32; 25];
    board[0] = 3_000_000_000;
    board[1] = 3_000_000_000;
    assert_eq!(checked_value_tile(&board, 0), None);
    assert_eq!(checked_value_tile(&board, 4), Some(1));
    assert_eq!(checked_state_value(&State { board, score: 0 }, 1), None);
    assert_eq!(checked_state_value(&State { board: SEEDED, score: 5 }, 173), Some(9 * 173 + 5));
    assert_eq!(checked_state_value(&State { board: SEEDED, score: u32::MAX }, 1), None);
}

#[test]
fn session_fits_checks_valid_moves_only() {
    let session = match GameSession::start("cy".to_string(), 123u64) {
        Ok(s) => s,
        Err(_) => panic!("nickname refused"),
    };
    assert!(session.fits(&[0, 6]));
    assert!(session.fits(&[0, 1, 2]));
}
