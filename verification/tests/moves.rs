use grid_puzzle::{
    is_valid_state, make_move, possible_positions_from_position, possible_states_from_state,
    same_state, states_along_path, State, MOVES,
};

#[test]
fn move_table_has_nine_row_and_column_deltas() {
    assert_eq!(MOVES.len(), 9);
    for p in 0..9 {
        for i in 0..9 {
            let touched = p / 3 == i / 3 || p % 3 == i % 3;
            assert_eq!(MOVES[p][i], if touched { 1 } else { 0 });
        }
    }
}

#[test]
fn make_move_adds_modulo_three() {
    let state: State = [0, 1, 2, 0, 1, 2, 0, 1, 2];
    assert_eq!(make_move(state, MOVES[0]), [1, 2, 0, 1, 1, 2, 1, 1, 2]);
    assert_eq!(make_move(state, MOVES[4]), [0, 2, 2, 1, 2, 0, 0, 2, 2]);
    assert_eq!(make_move(state, [2; 9]), [2, 0, 1, 2, 0, 1, 2, 0, 1]);
}

#[test]
fn make_move_with_zero_delta_keeps_a_valid_state() {
    let state: State = [2, 1, 0, 0, 1, 2, 1, 1, 1];
    assert_eq!(make_move(state, [0; 9]), state);
}

#[test]
fn make_move_accepts_cells_out_of_range() {
    let state: State = [255, 254, 3, 4, 5, 6, 7, 8, 9];
    let delta: State = [255, 1, 0, 0, 0, 0, 0, 0, 2];
    assert_eq!(make_move(state, delta), [0, 0, 0, 1, 2, 0, 1, 2, 2]);
}

#[test]
fn twice_is_the_doubled_delta() {
    let state: State = [0, 1, 2, 2, 1, 0, 1, 1, 2];
    for p in 0..9 {
        let mut doubled: State = [0; 9];
        for i in 0..9 {
            doubled[i] = (2 * MOVES[p][i]) % 3;
        }
        assert_eq!(make_move(make_move(state, MOVES[p]), MOVES[p]), make_move(state, doubled));
    }
}

#[test]
fn thrice_is_the_identity() {
    let state: State = [0, 1, 2, 2, 1, 0, 1, 1, 2];
    for p in 0..9 {
        let once = make_move(state, MOVES[p]);
        let twice = make_move(once, MOVES[p]);
        assert_ne!(once, state);
        assert_eq!(make_move(twice, MOVES[p]), state);
    }
}

#[test]
fn moves_commute() {
    let state: State = [2, 2, 0, 1, 0, 1, 0, 2, 1];
    for p in 0..9 {
        for q in 0..9 {
            assert_eq!(
                make_move(make_move(state, MOVES[p]), MOVES[q]),
                make_move(make_move(state, MOVES[q]), MOVES[p])
            );
        }
    }
}

#[test]
fn same_state_compares_all_cells() {
    let a: State = [0, 1, 2, 0, 1, 2, 0, 1, 2];
    let mut b = a;
    assert!(same_state(&a, &b));
    b[8] = 0;
    assert!(!same_state(&a, &b));
    b[8] = 2;
    b[0] = 1;
    assert!(!same_state(&a, &b));
}

#[test]
fn is_valid_state_checks_the_range() {
    assert!(is_valid_state(&[0, 1, 2, 0, 1, 2, 0, 1, 2]));
    assert!(!is_valid_state(&[0, 1, 2, 0, 1, 2, 0, 1, 3]));
    assert!(!is_valid_state(&[255, 0, 0, 0, 0, 0, 0, 0, 0]));
}

#[test]
fn possible_states_are_one_move_away() {
    let state: State = [0, 1, 2, 0, 1, 2, 0, 1, 2];
    let states = possible_states_from_state(state);
    assert_eq!(states.len(), 9);
    for p in 0..9 {
        assert_eq!(states[p], make_move(state, MOVES[p]));
    }
    assert_eq!(states[0], [1, 2, 0, 1, 1, 2, 1, 1, 2]);
    assert_eq!(states[8], [0, 1, 0, 0, 1, 0, 1, 2, 0]);
}

#[test]
fn possible_positions_extend_the_path() {
    let state: State = [0, 1, 2, 0, 1, 2, 0, 1, 2];
    let positions = possible_positions_from_position((state, vec![4, 4]));
    assert_eq!(positions.len(), 9);
    for p in 0..9 {
        assert_eq!(positions[p].0, make_move(state, MOVES[p]));
        assert_eq!(positions[p].1, vec![4, 4, p as u8]);
    }
    let start = possible_positions_from_position(([0; 9], vec![]));
    assert_eq!(start[3], ([1, 0, 0, 1, 1, 1, 1, 0, 0], vec![3]));
}

#[test]
fn states_along_path_lists_every_step() {
    let initial: State = [0; 9];
    let states = states_along_path(initial, &vec![0, 5, 5, 8]);
    assert_eq!(
        states,
        vec![
            [1, 1, 1, 1, 0, 0, 1, 0, 0],
            [1, 1, 2, 2, 1, 1, 1, 0, 1],
            [1, 1, 0, 0, 2, 2, 1, 0, 2],
            [1, 1, 1, 0, 2, 0, 2, 1, 0],
        ]
    );
    assert!(states_along_path(initial, &vec![]).is_empty());
}

#[test]
fn permuted_paths_reach_the_same_state() {
    let initial: State = [0, 1, 2, 0, 1, 2, 0, 1, 2];
    let in_order = states_along_path(initial, &vec![0, 0, 1, 3, 8, 8]);
    let shuffled = states_along_path(initial, &vec![8, 1, 0, 8, 3, 0]);
    assert_eq!(in_order[5], shuffled[5]);
    assert_ne!(in_order[2], shuffled[2]);
}
