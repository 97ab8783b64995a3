use gridentify::session::GameSession;
use gridentify::choice::choose_move;
use gridentify::local::Local;
use gridentify::lucid::{ActionData, CreateActions, LucidState};
use gridentify::state::State;
use gridentify::weigh::{power_of_three, sort_by_score, weigh};

const SEEDED: [u32; 25] = [1, 1, 1, 2, 3, 3, 2, 3, 1, 3, 2, 1, 3, 2, 1, 2, 1, 2, 2, 2, 3, 1, 2, 2, 2];

fn mask(cells: &[usize]) -> u32 {
    cells.iter().fold(0u32, |m, &c| m | (1 << c))
}

#[test]
fn local_move_is_among_next_states() {
    let mut local = Local::new(123u64);
    let states = local.state.next_states(&vec![0, 1, 2]);
    assert_eq!(states.len(), 9);
    local.make_move(&[0, 1, 2]);
    assert!(states
        .iter()
        .any(|s| s.board == local.state.board && s.score == local.state.score));
}

#[test]
fn same_seed_same_game() {
    let mut a = Local::new(99u64);
    let mut b = Local::new(99u64);
    assert_eq!(a.state.board, b.state.board);
    let action = a.state.actions().into_iter().find(|m| m.len() >= 2).unwrap();
    a.make_move(&action);
    b.make_move(&action);
    assert_eq!(a.state.board, b.state.board);
    assert_eq!(a.state.score, b.state.score);
    let c = Local::new(100u64);
    assert_ne!(a.state.board, c.state.board);
}

#[test]
fn choose_move_plays_until_stuck() {
    let data = ActionData::create();
    // Only cells 23 and 24 hold the same number side by side.
    let mut board = [0u32; 25];
    for i in 0..25 {
        board[i] = 7 + ((i % 5 + 2 * (i / 5)) % 3) as u32;
    }
    assert_eq!(choose_move(&State { board, score: 3 }, &data), None);
    board[24] = board[23];
    let open = State { board, score: 0 };
    let action = choose_move(&open, &data).unwrap();
    assert!(action == vec![24, 23] || action == vec![23, 24]);
    assert_eq!(open.validate_action(&action), Ok(()));
}

#[test]
fn look_ahead_one_move_deep() {
    let data = ActionData::create();
    let open = State { board: SEEDED, score: 0 };
    let mut lucid = LucidState::create(&open, &data);
    lucid.depth = 2;
    let action = lucid.best_action();
    assert_eq!(open.validate_action(&action), Ok(()));
}

#[test]
fn weigh_without_refilled_cells() {
    let joins = vec![(10u32, mask(&[0, 1]), 2u32)];
    assert_eq!(weigh(&joins, vec![], 5), 10);
    assert_eq!(weigh(&vec![], vec![], 5), 5);
}

#[test]
fn weigh_against_a_refilled_cell() {
    // The first join uses the refilled cell 0 as a 2, the second does not
    // touch it and counts for the two numbers it may still hold.
    let joins = vec![(30u32, mask(&[0, 1]), 2u32), (12u32, mask(&[5, 6]), 1u32)];
    assert_eq!(weigh(&joins, vec![(0, 0b1110)], 4), (30 + 2 * 12) / 3);
    // With no join left to end the count, the score counts for the rest.
    let joins = vec![(30u32, mask(&[0, 1]), 2u32)];
    assert_eq!(weigh(&joins, vec![(0, 0b1110)], 4), (30 + 2 * 4) / 3);
    // A refilled cell cannot hold a 5.
    let joins = vec![(30u32, mask(&[0, 1]), 5u32)];
    assert_eq!(weigh(&joins, vec![(0, 0b1110)], 4), (3 * 4) / 3);
}

#[test]
fn sort_by_score_is_stable() {
    let list = vec![(1, 10, 0), (3, 11, 0), (1, 12, 0), (3, 13, 0), (2, 14, 0)];
    assert_eq!(
        sort_by_score(list),
        vec![(3, 11, 0), (3, 13, 0), (2, 14, 0), (1, 10, 0), (1, 12, 0)]
    );
}

#[test]
fn powers_of_three_wrap() {
    assert_eq!(power_of_three(0), 1);
    assert_eq!(power_of_three(3), 27);
    assert_eq!(power_of_three(21), 1870418611);
}

fn flags_tell_refilled_cells(lucid: &LucidState) -> bool {
    let refilled = |c: usize| lucid.actions.get(&(1u32 << c)) == Some(&None);
    lucid.actions.iter().all(|(&k, v)| {
        let cells: Vec<usize> = (0..25).filter(|&c| k & (1 << c) != 0).collect();
        let marked = cells.iter().filter(|&&c| refilled(c)).count();
        match v {
            None => cells.len() == 1,
            Some((_, flag)) => *flag == (marked == 1) && marked <= 1,
        }
    })
}

#[test]
fn refilled_flags_follow_the_cells() {
    let local = Local::new(123u64);
    let data = ActionData::create();
    let lucid = LucidState::create(&local.state, &data);
    assert!(flags_tell_refilled_cells(&lucid));
    let one = lucid.next(mask(&[0, 1, 2]), 1, 2);
    assert!(flags_tell_refilled_cells(&one));
    let two = one.next(mask(&[12, 7]), 3, 7);
    assert!(flags_tell_refilled_cells(&two));
    assert!(two.actions.values().any(|v| matches!(v, Some((_, true)))));
}

#[test]
fn take_board_adds_the_end_number() {
    let mut state = State { board: SEEDED, score: 10 };
    let mut board = SEEDED;
    board[2] = 3;
    state.take_board(board, 2);
    assert_eq!(state.board, board);
    assert_eq!(state.score, 13);
}

#[test]
fn moves_are_listed_once() {
    let state = State { board: SEEDED, score: 0 };
    let listed = state.actions();
    for (i, a) in listed.iter().enumerate() {
        assert!(!listed[i + 1..].contains(a));
    }
    let grid = gridentify::grid::State { board: SEEDED, score: 0 };
    let moves = grid.valid_moves();
    assert!(!moves.is_empty());
    for (i, a) in moves.iter().enumerate() {
        assert!(!moves[i + 1..].contains(a));
    }
}

#[test]
fn no_moves_exactly_when_over() {
    let mut board = [0u32; 25];
    for i in 0..25 {
        board[i] = 7 + ((i % 5 + 2 * (i / 5)) % 3) as u32;
    }
    let stuck = gridentify::grid::State { board, score: 0 };
    assert!(stuck.is_game_over());
    assert!(stuck.valid_moves().is_empty());
    assert_eq!(State { board, score: 0 }.actions().len(), 25);
    let open = gridentify::grid::State { board: SEEDED, score: 0 };
    assert!(!open.is_game_over());
    assert!(!open.valid_moves().is_empty());
}

#[test]
fn planner_picks_legal_moves_until_stuck() {
    let planner = gridentify::choice::Planner::new();
    assert_eq!(planner.data().len(), ActionData::create().len());
    let mut board = [0u32; 25];
    for i in 0..25 {
        board[i] = 7 + ((i % 5 + 2 * (i / 5)) % 3) as u32;
    }
    assert_eq!(planner.pick_move(&State { board, score: 0 }), None);
    board[24] = board[23];
    let open = State { board, score: 0 };
    let action = planner.pick_move(&open).unwrap();
    assert!(action == vec![24, 23] || action == vec![23, 24]);
    assert_eq!(open.validate_action(&action), Ok(()));
}

#[test]
fn join_keeps_groups_in_the_data() {
    let local = Local::new(123u64);
    let data = ActionData::create();
    let lucid = LucidState::create(&local.state, &data);
    assert!(lucid.actions.keys().all(|k| data.contains_key(k)));
    let one = lucid.next(mask(&[0, 1, 2]), 1, 2);
    assert!(one.actions.keys().all(|k| data.contains_key(k)));
    let two = one.next(mask(&[12, 7]), 3, 7);
    assert!(two.actions.keys().all(|k| data.contains_key(k)));
}

#[test]
fn session_stores_only_the_last_board() {
    let mut session = GameSession::start(String::from("ann"), 123u64).ok().unwrap();
    let mut score = 0;
    let mut moves = 0;
    while session.finished().is_none() {
        let state = State { board: session.board(), score: 0 };
        let action = state.actions().into_iter().find(|m| m.len() >= 2).unwrap();
        assert!(session.fits(&action));
        let before = session.board();
        session.play(&action).ok().unwrap();
        score += session.board()[*action.last().unwrap()];
        assert_ne!(before, session.board());
        moves += 1;
    }
    assert!(moves > 0);
    let high = session.finished().unwrap();
    assert_eq!(high.name, "ann");
    assert_eq!(high.score, score);
    assert!(State { board: session.board(), score: 0 }.is_game_over());
}
