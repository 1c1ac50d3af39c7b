//! Grid states, the move table, and the application of a single move.
//!
//! A grid is modelled by the sequence of its nine cells. All arithmetic on
//! cells is addition modulo 3, so the moves generate a commutative group in
//! which every element has order 1 or 3; the laws at the end of this module
//! state that.

use vstd::prelude::*;

verus! {

/// The nine cells of the grid in row-major order. A well-formed state holds
/// only the values 0, 1 and 2 (see [`valid_cells`]).
pub type State = [u8; 9];

/// The move table: entry `p` is the delta that move `p` adds to the grid.
/// Move `p` touches exactly the cells that share a row or a column with
/// cell `p`.
pub const MOVES: [State; 9] = [
    [1, 1, 1, 1, 0, 0, 1, 0, 0],
    [1, 1, 1, 0, 1, 0, 0, 1, 0],
    [1, 1, 1, 0, 0, 1, 0, 0, 1],
    [1, 0, 0, 1, 1, 1, 1, 0, 0],
    [0, 1, 0, 1, 1, 1, 0, 1, 0],
    [0, 0, 1, 1, 1, 1, 0, 0, 1],
    [1, 0, 0, 1, 0, 0, 1, 1, 1],
    [0, 1, 0, 0, 1, 0, 1, 1, 1],
    [0, 0, 1, 0, 0, 1, 1, 1, 1],
];

/// Nine cells, each one of 0, 1, 2.
pub open spec fn valid_cells(cells: Seq<u8>) -> bool {
    &&& cells.len() == 9
    &&& forall|i: int| 0 <= i < 9 ==> cells[i] < 3
}

/// Move `p` touches the cell `cell`: the two share a row or a column.
pub open spec fn touches(p: int, cell: int) -> bool {
    p / 3 == cell / 3 || p % 3 == cell % 3
}

/// The delta of move `p`, as a sequence of cells.
pub open spec fn move_delta(p: int) -> Seq<u8> {
    MOVES[p]@
}

/// The grid that results from adding `delta` to `cells`, cell by cell and
/// modulo 3.
pub open spec fn shifted(cells: Seq<u8>, delta: Seq<u8>) -> Seq<u8> {
    Seq::new(9, |i: int| ((cells[i] + delta[i]) % 3) as u8)
}

/// The delta that has the effect of applying `delta` twice.
pub open spec fn doubled(delta: Seq<u8>) -> Seq<u8> {
    Seq::new(9, |i: int| ((2 * delta[i]) % 3) as u8)
}

/// Applies one move: adds `m` to `state`, cell by cell and modulo 3.
///
/// The sum is formed in a wider type, so every pair of arrays is accepted
/// and the result is always a well-formed state.
pub fn make_move(state: State, m: State) -> (ret: State)
    ensures
        ret@ == shifted(state@, m@),
        valid_cells(ret@),
{
    let mut ret: State = state;
    let mut position: usize = 0;
    while position < 9
        invariant
            position <= 9,
            forall|i: int| 0 <= i < position ==> ret[i] == ((state[i] + m[i]) % 3) as u8,
        decreases 9 - position,
    {
        let sum: u16 = state[position] as u16 + m[position] as u16;
        ret[position] = (sum % 3) as u8;
        position += 1;
    }
    ret
}

/// Whether two states agree in all nine cells.
pub fn same_state(a: &State, b: &State) -> (same: bool)
    ensures
        same == (a@ == b@),
{
    let mut position: usize = 0;
    while position < 9
        invariant
            position <= 9,
            forall|i: int| 0 <= i < position ==> a[i] == b[i],
        decreases 9 - position,
    {
        if a[position] != b[position] {
            return false;
        }
        position += 1;
    }
    assert(a@ =~= b@);
    true
}

/// Whether every cell of `state` is one of 0, 1, 2.
pub fn is_valid_state(state: &State) -> (valid: bool)
    ensures
        valid == valid_cells(state@),
{
    let mut position: usize = 0;
    while position < 9
        invariant
            position <= 9,
            forall|i: int| 0 <= i < position ==> state[i] < 3,
        decreases 9 - position,
    {
        if state[position] >= 3 {
            return false;
        }
        position += 1;
    }
    true
}

/// The nine states that one move away from `initial_state`: entry `p` is the
/// result of move `p`.
pub fn possible_states_from_state(initial_state: State) -> (result: Vec<State>)
    ensures
        result@.len() == 9,
        forall|p: int| 0 <= p < 9 ==> (#[trigger] result@[p])@ == shifted(
            initial_state@,
            move_delta(p),
        ),
{
    let mut result: Vec<State> = Vec::new();
    let mut p: usize = 0;
    while p < 9
        invariant
            p <= 9,
            result@.len() == p,
            forall|q: int| 0 <= q < p ==> (#[trigger] result@[q])@ == shifted(
                initial_state@,
                move_delta(q),
            ),
        decreases 9 - p,
    {
        result.push(make_move(initial_state, MOVES[p]));
        p += 1;
    }
    result
}

/// Every entry of the move table is a well-formed delta.
pub proof fn lemma_moves_are_valid(p: int)
    requires
        0 <= p < 9,
    ensures
        valid_cells(move_delta(p)),
{
}

/// Move `p` adds 1 to the cells it touches and 0 to the others.
pub proof fn lemma_move_touches_row_and_column(p: int, cell: int)
    requires
        0 <= p < 9,
        0 <= cell < 9,
    ensures
        move_delta(p)[cell] == if touches(p, cell) {
            1int
        } else {
            0int
        },
{
}

/// Applying a delta twice is the same as applying its doubled delta once.
pub proof fn lemma_twice_is_doubled(cells: Seq<u8>, delta: Seq<u8>)
    ensures
        shifted(shifted(cells, delta), delta) == shifted(cells, doubled(delta)),
{
    assert(shifted(shifted(cells, delta), delta) =~= shifted(cells, doubled(delta)));
}

/// Applying a delta three times to a well-formed grid gives the grid back.
pub proof fn lemma_thrice_is_identity(cells: Seq<u8>, delta: Seq<u8>)
    requires
        valid_cells(cells),
    ensures
        shifted(shifted(shifted(cells, delta), delta), delta) == cells,
{
    assert(shifted(shifted(shifted(cells, delta), delta), delta) =~= cells);
}

/// The order of two deltas does not matter.
pub proof fn lemma_shift_commutes(cells: Seq<u8>, first: Seq<u8>, second: Seq<u8>)
    ensures
        shifted(shifted(cells, first), second) == shifted(shifted(cells, second), first),
{
    assert(shifted(shifted(cells, first), second) =~= shifted(shifted(cells, second), first));
}

/// Adding two deltas one after the other is adding their sum.
pub proof fn lemma_shift_associates(cells: Seq<u8>, first: Seq<u8>, second: Seq<u8>)
    ensures
        shifted(shifted(cells, first), second) == shifted(cells, shifted(first, second)),
{
    assert(shifted(shifted(cells, first), second) =~= shifted(cells, shifted(first, second)));
}

} // verus!
