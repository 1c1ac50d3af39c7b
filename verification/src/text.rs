//! The textual form of a grid state.
//!
//! A state is written as nine characters in row-major order, each one of
//! '1', '2', '3'; the character is the cell's value plus one.

use crate::grid::{valid_cells, State};
use vstd::prelude::*;

verus! {

/// The message of the error that [`state_from_string`] returns.
pub const INVALID_STATE: &'static str = "String provided is not a valid state description.";

/// `text` describes a state: nine characters, each one of '1', '2', '3'.
pub open spec fn describes_state(text: Seq<char>) -> bool {
    &&& text.len() == 9
    &&& forall|i: int| 0 <= i < 9 ==> '1' <= #[trigger] text[i] <= '3'
}

/// The cell that the character `c` stands for.
pub open spec fn cell_of(c: char) -> u8 {
    (c as u8 - '1' as u8) as u8
}

/// The character that stands for the cell value `cell`.
pub open spec fn char_of(cell: u8) -> char {
    if cell == 0 {
        '1'
    } else if cell == 1 {
        '2'
    } else {
        '3'
    }
}

/// The cells that `text` describes.
pub open spec fn cells_of(text: Seq<char>) -> Seq<u8> {
    Seq::new(9, |i: int| cell_of(text[i]))
}

/// The line that shows row `row` of the grid: its three cells as digits,
/// with bars between them.
pub open spec fn row_text(cells: Seq<u8>, row: int) -> Seq<char> {
    seq![char_of(cells[3 * row])] + " | "@ + seq![char_of(cells[3 * row + 1])] + " | "@
        + seq![char_of(cells[3 * row + 2])] + "\n"@
}

/// The picture of the grid: its three rows with a rule between them.
pub open spec fn grid_text(cells: Seq<u8>) -> Seq<char> {
    row_text(cells, 0) + "----------\n"@ + row_text(cells, 1) + "----------\n"@ + row_text(
        cells,
        2,
    )
}

/// Reads a state from its textual form.
///
/// The text is accepted exactly when it holds nine characters, each one of
/// '1', '2', '3'; the cells are then the digits minus one.
pub fn state_from_string(string: String) -> (result: Result<State, String>)
    ensures
        result is Ok <==> describes_state(string@),
        match result {
            Ok(state) => state@ == cells_of(string@) && valid_cells(state@),
            Err(message) => message@ == INVALID_STATE@,
        },
{
    let text = string.as_str();
    if text.unicode_len() != 9 {
        return Err(INVALID_STATE.to_string());
    }
    let mut ret: State = [0; 9];
    let mut i: usize = 0;
    while i < 9
        invariant
            i <= 9,
            text@ == string@,
            text@.len() == 9,
            forall|k: int| 0 <= k < i ==> '1' <= #[trigger] text@[k] <= '3',
            forall|k: int| 0 <= k < i ==> ret[k] == cell_of(text@[k]),
        decreases 9 - i,
    {
        let c = text.get_char(i);
        if c < '1' || c > '3' {
            return Err(INVALID_STATE.to_string());
        }
        ret[i] = (c as u8) - ('1' as u8);
        i += 1;
    }
    assert(ret@ =~= cells_of(string@));
    Ok(ret)
}

/// The digit that stands for a cell of a well-formed state.
fn cell_text(cell: u8) -> (text: &'static str)
    requires
        cell < 3,
    ensures
        text@ == seq![char_of(cell)],
{
    proof {
        reveal_strlit("1");
        reveal_strlit("2");
        reveal_strlit("3");
    }
    let text = if cell == 0 {
        "1"
    } else if cell == 1 {
        "2"
    } else {
        "3"
    };
    assert(text@ =~= seq![char_of(cell)]);
    text
}

/// Appends the line that shows row `row` of `state` to `text`.
fn append_row(text: &mut String, state: &State, row: usize)
    requires
        valid_cells(state@),
        row < 3,
    ensures
        final(text)@ == old(text)@ + row_text(state@, row as int),
{
    text.append(cell_text(state[3 * row]));
    text.append(" | ");
    text.append(cell_text(state[3 * row + 1]));
    text.append(" | ");
    text.append(cell_text(state[3 * row + 2]));
    text.append("\n");
    assert(text@ =~= old(text)@ + row_text(state@, row as int));
}

/// Draws a well-formed state as a grid of three lines of digits, with a
/// rule between the lines.
pub fn render_state(state: &State) -> (text: String)
    requires
        valid_cells(state@),
    ensures
        text@ == grid_text(state@),
{
    let mut text = String::new();
    append_row(&mut text, state, 0);
    text.append("----------\n");
    append_row(&mut text, state, 1);
    text.append("----------\n");
    append_row(&mut text, state, 2);
    assert(text@ =~= grid_text(state@));
    text
}

} // verus!
