use grid_puzzle::{
    decode_index, encode_digits, position_at, positions_from_state, states_along_path, State,
    COMBINATIONS,
};

#[test]
fn there_are_three_to_the_ninth_combinations() {
    assert_eq!(COMBINATIONS, 19683);
}

#[test]
fn decode_index_gives_base_three_digits() {
    assert_eq!(decode_index(0), [0; 9]);
    assert_eq!(decode_index(1), [1, 0, 0, 0, 0, 0, 0, 0, 0]);
    assert_eq!(decode_index(5), [2, 1, 0, 0, 0, 0, 0, 0, 0]);
    assert_eq!(decode_index(7048), [1, 0, 0, 0, 0, 2, 0, 0, 1]);
    assert_eq!(decode_index(12345), [0, 2, 0, 1, 2, 2, 1, 2, 1]);
    assert_eq!(decode_index(19682), [2; 9]);
}

#[test]
fn decode_index_ignores_digits_above_the_ninth() {
    assert_eq!(decode_index(40000), [1, 1, 1, 2, 1, 2, 0, 0, 0]);
    assert_eq!(decode_index(19683), [0; 9]);
}

#[test]
fn encode_digits_weighs_by_powers_of_three() {
    assert_eq!(encode_digits(&[0; 9]), Some(0));
    assert_eq!(encode_digits(&[0, 0, 0, 0, 0, 0, 0, 0, 1]), Some(6561));
    assert_eq!(encode_digits(&[1, 0, 0, 0, 0, 2, 0, 0, 1]), Some(7048));
    assert_eq!(encode_digits(&[2; 9]), Some(19682));
}

#[test]
fn encode_digits_rejects_a_digit_out_of_range() {
    assert_eq!(encode_digits(&[0, 0, 0, 0, 3, 0, 0, 0, 0]), None);
    assert_eq!(encode_digits(&[0, 0, 0, 0, 0, 0, 0, 0, 255]), None);
}

#[test]
fn decoding_then_encoding_gives_the_index_back() {
    for index in 0..COMBINATIONS {
        assert_eq!(encode_digits(&decode_index(index)), Some(index));
    }
}

#[test]
fn encoding_then_decoding_gives_the_digits_back() {
    let digits = [2, 0, 1, 1, 0, 2, 2, 1, 0];
    let index = encode_digits(&digits).unwrap();
    assert_eq!(index, 2 + 9 + 27 + 2 * 243 + 2 * 729 + 2187);
    assert_eq!(decode_index(index), digits);
}

#[test]
fn index_zero_applies_no_move() {
    let state: State = [0, 1, 2, 0, 1, 2, 0, 1, 2];
    assert_eq!(position_at(state, 0), (state, vec![]));
    assert_eq!(position_at([0; 9], 0), ([0; 9], vec![]));
    let odd: State = [7, 1, 2, 0, 1, 2, 0, 1, 2];
    assert_eq!(position_at(odd, 0), (odd, vec![]));
}

#[test]
fn position_at_repeats_each_move_by_its_digit() {
    assert_eq!(position_at([0; 9], 1), ([1, 1, 1, 1, 0, 0, 1, 0, 0], vec![0]));
    assert_eq!(position_at([0; 9], 2), ([2, 2, 2, 2, 0, 0, 2, 0, 0], vec![0, 0]));
    assert_eq!(position_at([0; 9], 5), ([0, 0, 0, 2, 1, 0, 2, 1, 0], vec![0, 0, 1]));
    assert_eq!(position_at([0; 9], 7048), ([1, 1, 1, 0, 2, 0, 2, 1, 0], vec![0, 5, 5, 8]));
    let state: State = [0, 1, 2, 0, 1, 2, 0, 1, 2];
    assert_eq!(
        position_at(state, 12345),
        ([1, 1, 1, 0, 1, 2, 2, 0, 2], vec![1, 1, 3, 4, 4, 5, 5, 6, 7, 7, 8])
    );
}

#[test]
fn the_last_combination_applies_every_move_twice() {
    let (state, path) = position_at([0; 9], 19682);
    assert_eq!(state, [1; 9]);
    assert_eq!(path, vec![0, 0, 1, 1, 2, 2, 3, 3, 4, 4, 5, 5, 6, 6, 7, 7, 8, 8]);
}

#[test]
fn path_length_is_the_digit_sum() {
    for index in [0u16, 1, 2, 3, 80, 7048, 12345, 19682] {
        let digits = decode_index(index);
        let sum: usize = digits.iter().map(|d| *d as usize).sum();
        assert_eq!(position_at([0; 9], index).1.len(), sum);
    }
}

#[test]
fn position_state_is_the_replayed_path() {
    let state: State = [2, 0, 1, 1, 1, 0, 2, 2, 0];
    for index in [1u16, 13, 500, 7048, 19682] {
        let (reached, path) = position_at(state, index);
        let steps = states_along_path(state, &path);
        assert_eq!(steps[steps.len() - 1], reached);
    }
}

#[test]
fn positions_from_state_lists_every_combination() {
    let state: State = [0, 1, 2, 0, 1, 2, 0, 1, 2];
    let positions = positions_from_state(state);
    assert_eq!(positions.len(), 19683);
    assert_eq!(positions[0], (state, vec![]));
    assert_eq!(positions[3], ([1, 2, 0, 0, 2, 2, 0, 2, 2], vec![1]));
    assert_eq!(positions[13], ([0, 1, 2, 1, 2, 0, 1, 2, 0], vec![0, 1, 2]));
    for index in [0u16, 77, 4000, 19682] {
        assert_eq!(positions[index as usize], position_at(state, index));
    }
}

#[test]
fn every_combination_reaches_a_different_state() {
    let positions = positions_from_state([0; 9]);
    let mut seen = vec![false; 19683];
    for (state, _) in positions.iter() {
        let code = encode_digits(state).unwrap() as usize;
        assert!(!seen[code]);
        seen[code] = true;
    }
}

#[test]
fn path_applies_each_move_as_often_as_its_digit() {
    for index in [0u16, 5, 7048, 12345, 19682] {
        let digits = decode_index(index);
        let (_, path) = position_at([0; 9], index);
        for p in 0..9u8 {
            let count = path.iter().filter(|m| **m == p).count();
            assert_eq!(count, digits[p as usize] as usize);
        }
    }
}

#[test]
fn path_is_in_the_order_of_the_move_table() {
    for index in 0..COMBINATIONS {
        let (_, path) = position_at([0; 9], index);
        assert!(path.len() <= 18);
        assert!(path.iter().all(|m| *m < 9));
        assert!(path.windows(2).all(|pair| pair[0] <= pair[1]));
    }
}

#[test]
fn each_cell_is_the_start_plus_the_digits_of_the_moves_that_touch_it() {
    let state: State = [1, 0, 2, 2, 2, 0, 1, 1, 0];
    for index in [1u16, 26, 7048, 12345, 19682] {
        let digits = decode_index(index);
        let (reached, _) = position_at(state, index);
        for cell in 0..9 {
            let mut sum = state[cell] as u32;
            for p in 0..9 {
                if p / 3 == cell / 3 || p % 3 == cell % 3 {
                    sum += digits[p] as u32;
                }
            }
            assert_eq!(reached[cell] as u32, sum % 3);
        }
    }
}
