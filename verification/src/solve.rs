//! The search for a combination that turns one grid into another.

use crate::enumerate::{index_path, lemma_index_zero_is_identity, position_at};
use crate::grid::{same_state, valid_cells, State};
use crate::path::{replay, Position};
use crate::radix::COMBINATIONS;
use crate::reach::{
    is_first_match, lemma_every_target_is_reached, lemma_reaching_index_is_unique, reaches,
    solution_index, solvable,
};
use vstd::prelude::*;

verus! {

/// The message of the error that [`solve`] returns when no combination
/// leads to the target.
pub const NO_SOLUTION: &'static str = "Could not find solution to given positions";

/// Scans the combinations in increasing order of their index and returns
/// the index of the first one that leads from `initial_state` to
/// `solved_state`, or `None` when all 3^9 were tried without a match.
///
/// Between two well-formed states there is always a match, and only one.
pub fn find_first_match(initial_state: State, solved_state: State) -> (found: Option<u16>)
    ensures
        match found {
            Some(index) => is_first_match(initial_state@, solved_state@, index as nat),
            None => !solvable(initial_state@, solved_state@),
        },
        initial_state@ == solved_state@ ==> found == Some(0u16),
        valid_cells(initial_state@) && valid_cells(solved_state@) ==> found == Some(
            solution_index(initial_state@, solved_state@) as u16,
        ),
{
    let mut index: u16 = 0;
    proof {
        lemma_index_zero_is_identity(initial_state@);
        if valid_cells(initial_state@) && valid_cells(solved_state@) {
            lemma_every_target_is_reached(initial_state@, solved_state@);
        }
    }
    while index < COMBINATIONS
        invariant
            index <= COMBINATIONS,
            initial_state@ == solved_state@ ==> index == 0 && reaches(
                initial_state@,
                solved_state@,
                0,
            ),
            forall|earlier: nat|
                earlier < index ==> !#[trigger] reaches(
                    initial_state@,
                    solved_state@,
                    earlier,
                ),
        decreases COMBINATIONS - index,
    {
        let position = position_at(initial_state, index);
        if same_state(&position.0, &solved_state) {
            proof {
                if valid_cells(initial_state@) {
                    lemma_reaching_index_is_unique(
                        initial_state@,
                        solved_state@,
                        index as nat,
                    );
                }
            }
            return Some(index);
        }
        index += 1;
    }
    None
}

/// Finds the moves that turn `initial_state` into `solved_state`.
///
/// The combinations are tried in increasing order of their index, and the
/// position of the first match is returned: the target state and the path
/// of that combination. The error is returned exactly when none of the 3^9
/// combinations leads to the target, which does not happen between two
/// well-formed states. No claim is made that the path is a shortest one.
pub fn solve(initial_state: State, solved_state: State) -> (result: Result<Position, String>)
    ensures
        result is Ok <==> solvable(initial_state@, solved_state@),
        valid_cells(initial_state@) && valid_cells(solved_state@) ==> result is Ok,
        match result {
            Ok(position) => {
                &&& position.0@ == solved_state@
                &&& position.0@ == replay(initial_state@, position.1@)
                &&& exists|index: nat|
                    #[trigger] is_first_match(initial_state@, solved_state@, index)
                        && position.1@ == index_path(index)
                &&& valid_cells(initial_state@) ==> position.1@ == index_path(
                    solution_index(initial_state@, solved_state@),
                )
            },
            Err(message) => message@ == NO_SOLUTION@,
        },
        initial_state@ == solved_state@ ==> result is Ok && result->Ok_0.1@.len() == 0,
{
    match find_first_match(initial_state, solved_state) {
        Some(index) => {
            let position = position_at(initial_state, index);
            proof {
                assert(is_first_match(initial_state@, solved_state@, index as nat));
                if valid_cells(initial_state@) {
                    lemma_reaching_index_is_unique(
                        initial_state@,
                        solved_state@,
                        index as nat,
                    );
                }
            }
            Ok(position)
        },
        None => Err(NO_SOLUTION.to_string()),
    }
}

} // verus!
