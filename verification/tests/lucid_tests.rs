use gridentify::choice::{find_action, reversed};
use gridentify::local::Local;
use gridentify::lucid::{ActionData, CreateActions, LucidState};

fn mask(cells: &[usize]) -> u32 {
    let mut m = 0u32;
    for &c in cells {
        m |= 1 << c;
    }
    m
}

#[test]
fn test_create() {
    let local = Local::new(123);
    let data = ActionData::create();
    assert_eq!(data.get(&mask(&[0, 1, 2, 5])), Some(&mask(&[2, 5])));
    println!("{:?}", local.state.board);

    let key1 = LucidState::create(&local.state, &data)
        .next(mask(&[0, 1, 2]), 1, 2)
        .next(mask(&[12, 7]), 3, 7)
        .create_key();

    let key2 = LucidState::create(&local.state, &data)
        .next(mask(&[12, 7]), 3, 7)
        .next(mask(&[0, 1, 2]), 1, 2)
        .create_key();

    assert_eq!(key1, key2);
}

#[test]
fn action_data_covers_short_paths() {
    let data = ActionData::create();
    assert_eq!(data.len(), 339);
    assert_eq!(data.get(&mask(&[0, 1])), Some(&mask(&[0, 1])));
    assert_eq!(data.get(&mask(&[7])), Some(&mask(&[7])));
    // A straight line of four ends on either end only.
    assert_eq!(data.get(&mask(&[0, 1, 2, 3])), Some(&mask(&[0, 3])));
    // Not connected, or five cells: no key.
    assert_eq!(data.get(&mask(&[0, 2])), None);
    assert_eq!(data.get(&mask(&[0, 1, 2, 3, 4])), None);
}

#[test]
fn create_lists_groups_of_the_board() {
    let local = Local::new(123);
    let data = ActionData::create();
    let lucid = LucidState::create(&local.state, &data);
    assert_eq!(lucid.actions.len(), 67);
    assert_eq!(lucid.score, 0);
    assert_eq!(lucid.depth, 0);
    assert_eq!(lucid.actions.get(&mask(&[0, 1, 2])), Some(&Some((1, false))));
    assert_eq!(lucid.actions.get(&mask(&[4, 9])), Some(&Some((3, false))));
    assert_eq!(lucid.actions.get(&mask(&[3])), Some(&Some((2, false))));
    assert_eq!(lucid.actions.get(&mask(&[2, 3])), None);
    let key = lucid.create_key();
    assert_eq!(key.len(), 67);
    let firsts: Vec<u32> = key.iter().take(8).map(|e| e.0).collect();
    // Groups are listed in the order of their cell lists: {0} {0,1} {0,1,2} {1} ...
    assert_eq!(firsts, vec![1, 3, 7, 2, 6, 4, 8, 16]);
}

#[test]
fn next_joins_and_refills() {
    let local = Local::new(123);
    let data = ActionData::create();
    let lucid = LucidState::create(&local.state, &data);
    let after = lucid.next(mask(&[0, 1, 2]), 1, 2);
    assert_eq!(after.score, 3);
    assert_eq!(after.depth, 1);
    assert_eq!(after.actions.get(&mask(&[2])), Some(&Some((3, false))));
    assert_eq!(after.actions.get(&mask(&[0])), Some(&None));
    assert_eq!(after.actions.get(&mask(&[1])), Some(&None));
    // The new 3 on cell 2 joins the 3s below it.
    assert_eq!(after.actions.get(&mask(&[2, 7])), Some(&Some((3, false))));
    assert_eq!(after.actions.get(&mask(&[2, 7, 12])), Some(&Some((3, false))));
    // A refilled neighbour may become a 3 as well.
    assert_eq!(after.actions.get(&mask(&[1, 2])), Some(&Some((3, true))));
    // Two refilled cells make no group together.
    assert_eq!(after.actions.get(&mask(&[0, 1])), None);
    // The old group of the joined cells is gone.
    assert_eq!(after.actions.get(&mask(&[0, 1, 2])), None);
}

#[test]
fn best_action_is_a_legal_move() {
    let local = Local::new(123);
    let data = ActionData::create();
    let mut lucid = LucidState::create(&local.state, &data);
    lucid.depth = 3;
    let action = lucid.best_action();
    assert!(action.len() >= 2);
    assert_eq!(local.state.validate_action(&action), Ok(()));
}

#[test]
fn find_action_walks_the_group() {
    assert_eq!(find_action(mask(&[0, 1, 2, 5]), vec![5]), Some(vec![5, 0, 1, 2]));
    assert_eq!(find_action(mask(&[0, 1, 2, 5]), vec![2]), Some(vec![2, 1, 0, 5]));
    assert_eq!(find_action(mask(&[0, 2]), vec![0]), None);
    assert_eq!(find_action(mask(&[6]), vec![6]), Some(vec![6]));
}

#[test]
fn reversed_turns_a_path_round() {
    assert_eq!(reversed(&vec![5, 0, 1, 2]), vec![2, 1, 0, 5]);
    assert_eq!(reversed(&vec![]), Vec::<usize>::new());
}

#[test]
fn key_lists_groups_in_cell_order() {
    let data = ActionData::create();
    let mut actions = std::collections::HashMap::new();
    actions.insert(mask(&[1]), Some((2u32, false)));
    actions.insert(mask(&[0, 5]), Some((3u32, false)));
    actions.insert(mask(&[0]), None);
    let lucid = LucidState { actions, score: 0, data: &data, depth: 0 };
    assert_eq!(
        lucid.create_key(),
        vec![(mask(&[0]), None), (mask(&[0, 5]), Some((3, false))), (mask(&[1]), Some((2, false)))]
    );
}
