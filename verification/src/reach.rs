//! Which grids can be reached from which.
//!
//! The nine moves are independent modulo 3: from every well-formed grid
//! every well-formed grid is reached, and by exactly one combination. This
//! module names that combination and proves both facts.
//!
//! The argument is linear algebra modulo 3. Move `p` adds 1 to the five
//! cells in the row or the column of cell `p`. Summing, for one move `p`,
//! over cell `p` and the four cells that `p` does not touch, counts move `p`
//! once and every other move three times; so that sum of what the cells
//! lack tells, modulo 3, how often move `p` is needed.

use crate::enumerate::{combined, index_path, lemma_combination_adds_digits};
use crate::grid::{touches, valid_cells};
use crate::path::{lemma_replay_valid, replay};
use crate::radix::{
    digits_of, index_of, lemma_decode_then_encode, lemma_encode_then_decode, valid_digits,
    COMBINATIONS,
};
use vstd::prelude::*;

verus! {

/// Combination `index` leads from `initial` to `target`.
pub open spec fn reaches(initial: Seq<u8>, target: Seq<u8>, index: nat) -> bool {
    replay(initial, index_path(index)) == target
}

/// Some combination leads from `initial` to `target`.
pub open spec fn solvable(initial: Seq<u8>, target: Seq<u8>) -> bool {
    exists|index: nat| index < COMBINATIONS && #[trigger] reaches(initial, target, index)
}

/// `index` is the smallest combination that leads from `initial` to
/// `target`.
pub open spec fn is_first_match(initial: Seq<u8>, target: Seq<u8>, index: nat) -> bool {
    &&& index < COMBINATIONS
    &&& reaches(initial, target, index)
    &&& forall|earlier: nat| earlier < index ==> !#[trigger] reaches(initial, target, earlier)
}

/// What each cell of `initial` lacks to arrive at `target`, up to a
/// multiple of 3.
pub open spec fn gaps(initial: Seq<u8>, target: Seq<u8>) -> Seq<int> {
    Seq::new(9, |cell: int| target[cell] + 2 * initial[cell])
}

/// The gap of `cell` counts towards move `p`: the cell is cell `p` itself,
/// or one that move `p` does not touch.
pub open spec fn counts_towards(p: int, cell: int) -> bool {
    p == cell || !touches(p, cell)
}

/// The sum of the gaps, among the first `cells` cells, that count towards
/// move `p`.
pub open spec fn gap_sum(gaps: Seq<int>, p: int, cells: nat) -> int
    decreases cells,
{
    if cells == 0 {
        0
    } else {
        gap_sum(gaps, p, (cells - 1) as nat) + if counts_towards(p, cells - 1) {
            gaps[cells - 1]
        } else {
            0
        }
    }
}

/// How often each move has to be applied to turn `initial` into `target`.
pub open spec fn needed_counts(initial: Seq<u8>, target: Seq<u8>) -> Seq<u8> {
    Seq::new(9, |p: int| (gap_sum(gaps(initial, target), p, 9) % 3) as u8)
}

/// The combination that turns `initial` into `target`.
pub open spec fn solution_index(initial: Seq<u8>, target: Seq<u8>) -> nat {
    index_of(needed_counts(initial, target))
}

/// From a well-formed grid every well-formed grid is reached, by the
/// combination that [`solution_index`] names.
pub proof fn lemma_every_target_is_reached(initial: Seq<u8>, target: Seq<u8>)
    requires
        valid_cells(initial),
        valid_cells(target),
    ensures
        solution_index(initial, target) < COMBINATIONS,
        reaches(initial, target, solution_index(initial, target)),
        solvable(initial, target),
{
    let counts = needed_counts(initial, target);
    let index = solution_index(initial, target);
    assert(valid_digits(counts));
    lemma_encode_then_decode(counts);
    assert forall|cell: int| 0 <= cell < 9 implies replay(initial, index_path(index))[cell]
        == target[cell] by {
        lemma_combination_adds_digits(initial, index, cell);
        lemma_needed_counts_close_gap(initial, target, cell);
    }
    lemma_replay_valid(initial, index_path(index));
    assert(replay(initial, index_path(index)) =~= target);
}

/// Only one combination leads from a well-formed grid to a given grid: the
/// one that [`solution_index`] names.
pub proof fn lemma_reaching_index_is_unique(initial: Seq<u8>, target: Seq<u8>, index: nat)
    requires
        valid_cells(initial),
        index < COMBINATIONS,
        reaches(initial, target, index),
    ensures
        index == solution_index(initial, target),
{
    let counts = digits_of(index);
    let lacking = gaps(initial, target);
    lemma_decode_then_encode(index);
    assert forall|cell: int| 0 <= cell < 9 implies #[trigger] lacking[cell] % 3 == combined(
        counts,
        9,
        cell,
    ) % 3 by {
        lemma_combination_adds_digits(initial, index, cell);
    }
    assert forall|p: int| 0 <= p < 9 implies needed_counts(initial, target)[p] == counts[p] by {
        lemma_counts_are_needed(lacking, counts, p);
    }
    assert(needed_counts(initial, target) =~= counts);
}

/// Between two well-formed grids the first match of the search is the
/// combination that [`solution_index`] names.
pub proof fn lemma_solution_is_first_match(initial: Seq<u8>, target: Seq<u8>)
    requires
        valid_cells(initial),
        valid_cells(target),
    ensures
        is_first_match(initial, target, solution_index(initial, target)),
{
    let index = solution_index(initial, target);
    lemma_every_target_is_reached(initial, target);
    assert forall|earlier: nat| earlier < index implies !#[trigger] reaches(
        initial,
        target,
        earlier,
    ) by {
        if reaches(initial, target, earlier) {
            lemma_reaching_index_is_unique(initial, target, earlier);
        }
    }
}

/// At most one index is the first match.
pub proof fn lemma_first_match_is_unique(
    initial: Seq<u8>,
    target: Seq<u8>,
    first: nat,
    second: nat,
)
    requires
        is_first_match(initial, target, first),
        is_first_match(initial, target, second),
    ensures
        first == second,
{
}

/// The gap sum of each move, written out: five gaps each.
proof fn lemma_gap_sums(g: Seq<int>)
    ensures
        gap_sum(g, 0, 9) == g[0] + g[4] + g[5] + g[7] + g[8],
        gap_sum(g, 1, 9) == g[1] + g[3] + g[5] + g[6] + g[8],
        gap_sum(g, 2, 9) == g[2] + g[3] + g[4] + g[6] + g[7],
        gap_sum(g, 3, 9) == g[1] + g[2] + g[3] + g[7] + g[8],
        gap_sum(g, 4, 9) == g[0] + g[2] + g[4] + g[6] + g[8],
        gap_sum(g, 5, 9) == g[0] + g[1] + g[5] + g[6] + g[7],
        gap_sum(g, 6, 9) == g[1] + g[2] + g[4] + g[5] + g[6],
        gap_sum(g, 7, 9) == g[0] + g[2] + g[3] + g[5] + g[7],
        gap_sum(g, 8, 9) == g[0] + g[1] + g[3] + g[4] + g[8],
{
    reveal_with_fuel(gap_sum, 10);
}

/// What a tuple of counts adds to each cell, written out: the counts of
/// the five moves that touch it.
proof fn lemma_combined_sums(c: Seq<u8>)
    ensures
        combined(c, 9, 0) == c[0] + c[1] + c[2] + c[3] + c[6],
        combined(c, 9, 1) == c[0] + c[1] + c[2] + c[4] + c[7],
        combined(c, 9, 2) == c[0] + c[1] + c[2] + c[5] + c[8],
        combined(c, 9, 3) == c[0] + c[3] + c[4] + c[5] + c[6],
        combined(c, 9, 4) == c[1] + c[3] + c[4] + c[5] + c[7],
        combined(c, 9, 5) == c[2] + c[3] + c[4] + c[5] + c[8],
        combined(c, 9, 6) == c[0] + c[3] + c[6] + c[7] + c[8],
        combined(c, 9, 7) == c[1] + c[4] + c[6] + c[7] + c[8],
        combined(c, 9, 8) == c[2] + c[5] + c[6] + c[7] + c[8],
{
    reveal_with_fuel(combined, 10);
}

/// A cell arrives at its target value when the five numbers added to it,
/// each reduced modulo 3, sum up to the cell's gap and a multiple of 3.
proof fn lemma_residues_close_gap(
    from: int,
    to: int,
    sums: (int, int, int, int, int),
    rest: int,
)
    requires
        0 <= from < 3,
        0 <= to < 3,
        sums.0 + sums.1 + sums.2 + sums.3 + sums.4 == to + 2 * from + 3 * rest,
    ensures
        (from + sums.0 % 3 + sums.1 % 3 + sums.2 % 3 + sums.3 % 3 + sums.4 % 3) % 3 == to,
{
}

/// The needed counts close the gap of the cell `cell`, given the five moves
/// that touch it and that their gap sums add up to the cell's gap and a
/// multiple of 3.
proof fn lemma_close_one(
    initial: Seq<u8>,
    target: Seq<u8>,
    cell: int,
    moves: (int, int, int, int, int),
    rest: int,
)
    requires
        valid_cells(initial),
        valid_cells(target),
        0 <= cell < 9,
        0 <= moves.0 < 9,
        0 <= moves.1 < 9,
        0 <= moves.2 < 9,
        0 <= moves.3 < 9,
        0 <= moves.4 < 9,
        ({
            let c = needed_counts(initial, target);
            combined(c, 9, cell) == c[moves.0] + c[moves.1] + c[moves.2] + c[moves.3]
                + c[moves.4]
        }),
        ({
            let g = gaps(initial, target);
            gap_sum(g, moves.0, 9) + gap_sum(g, moves.1, 9) + gap_sum(g, moves.2, 9) + gap_sum(
                g,
                moves.3,
                9,
            ) + gap_sum(g, moves.4, 9) == g[cell] + 3 * rest
        }),
    ensures
        (initial[cell] + combined(needed_counts(initial, target), 9, cell)) % 3 == target[cell],
{
    let c = needed_counts(initial, target);
    let g = gaps(initial, target);
    let sums = (
        gap_sum(g, moves.0, 9),
        gap_sum(g, moves.1, 9),
        gap_sum(g, moves.2, 9),
        gap_sum(g, moves.3, 9),
        gap_sum(g, moves.4, 9),
    );
    assert(c[moves.0] == sums.0 % 3);
    assert(c[moves.1] == sums.1 % 3);
    assert(c[moves.2] == sums.2 % 3);
    assert(c[moves.3] == sums.3 % 3);
    assert(c[moves.4] == sums.4 % 3);
    lemma_residues_close_gap(initial[cell] as int, target[cell] as int, sums, rest);
}

/// Applying each move as often as needed closes the gap of every cell.
proof fn lemma_needed_counts_close_gap(initial: Seq<u8>, target: Seq<u8>, cell: int)
    requires
        valid_cells(initial),
        valid_cells(target),
        0 <= cell < 9,
    ensures
        (initial[cell] + combined(needed_counts(initial, target), 9, cell)) % 3 == target[cell],
{
    let g = gaps(initial, target);
    let rest = g[0] + g[1] + g[2] + g[3] + g[4] + g[5] + g[6] + g[7] + g[8] - g[cell];
    lemma_gap_sums(g);
    lemma_combined_sums(needed_counts(initial, target));
    if cell == 0 {
        lemma_close_one(initial, target, cell, (0, 1, 2, 3, 6), rest);
    } else if cell == 1 {
        lemma_close_one(initial, target, cell, (0, 1, 2, 4, 7), rest);
    } else if cell == 2 {
        lemma_close_one(initial, target, cell, (0, 1, 2, 5, 8), rest);
    } else if cell == 3 {
        lemma_close_one(initial, target, cell, (0, 3, 4, 5, 6), rest);
    } else if cell == 4 {
        lemma_close_one(initial, target, cell, (1, 3, 4, 5, 7), rest);
    } else if cell == 5 {
        lemma_close_one(initial, target, cell, (2, 3, 4, 5, 8), rest);
    } else if cell == 6 {
        lemma_close_one(initial, target, cell, (0, 3, 6, 7, 8), rest);
    } else if cell == 7 {
        lemma_close_one(initial, target, cell, (1, 4, 6, 7, 8), rest);
    } else {
        lemma_close_one(initial, target, cell, (2, 5, 6, 7, 8), rest);
    }
}

/// The sum of five numbers has a given residue when the numbers agree
/// modulo 3 with five others whose sum is that residue and a multiple of 3.
proof fn lemma_residue_of_sum(
    gaps: (int, int, int, int, int),
    sums: (int, int, int, int, int),
    count: int,
    rest: int,
)
    requires
        0 <= count < 3,
        gaps.0 % 3 == sums.0 % 3,
        gaps.1 % 3 == sums.1 % 3,
        gaps.2 % 3 == sums.2 % 3,
        gaps.3 % 3 == sums.3 % 3,
        gaps.4 % 3 == sums.4 % 3,
        sums.0 + sums.1 + sums.2 + sums.3 + sums.4 == count + 3 * rest,
    ensures
        (gaps.0 + gaps.1 + gaps.2 + gaps.3 + gaps.4) % 3 == count,
{
}

/// The gap sum of move `p` is the count of that move, modulo 3, when the
/// counts account for the gap of every cell; given the five cells whose gaps
/// count towards `p`, and that what the counts add to them sums up to the
/// count of `p` and a multiple of 3.
proof fn lemma_count_one(
    g: Seq<int>,
    c: Seq<u8>,
    p: int,
    cells: (int, int, int, int, int),
    rest: int,
)
    requires
        0 <= p < 9,
        c[p] < 3,
        forall|cell: int| 0 <= cell < 9 ==> #[trigger] g[cell] % 3 == combined(c, 9, cell) % 3,
        0 <= cells.0 < 9,
        0 <= cells.1 < 9,
        0 <= cells.2 < 9,
        0 <= cells.3 < 9,
        0 <= cells.4 < 9,
        gap_sum(g, p, 9) == g[cells.0] + g[cells.1] + g[cells.2] + g[cells.3] + g[cells.4],
        combined(c, 9, cells.0) + combined(c, 9, cells.1) + combined(c, 9, cells.2) + combined(
            c,
            9,
            cells.3,
        ) + combined(c, 9, cells.4) == c[p] + 3 * rest,
    ensures
        gap_sum(g, p, 9) % 3 == c[p],
{
    lemma_residue_of_sum(
        (g[cells.0], g[cells.1], g[cells.2], g[cells.3], g[cells.4]),
        (
            combined(c, 9, cells.0),
            combined(c, 9, cells.1),
            combined(c, 9, cells.2),
            combined(c, 9, cells.3),
            combined(c, 9, cells.4),
        ),
        c[p] as int,
        rest,
    );
}

/// Counts that account for the gap of every cell are the needed counts.
proof fn lemma_counts_are_needed(g: Seq<int>, c: Seq<u8>, p: int)
    requires
        valid_digits(c),
        0 <= p < 9,
        forall|cell: int| 0 <= cell < 9 ==> #[trigger] g[cell] % 3 == combined(c, 9, cell) % 3,
    ensures
        gap_sum(g, p, 9) % 3 == c[p],
{
    let rest = c[0] + c[1] + c[2] + c[3] + c[4] + c[5] + c[6] + c[7] + c[8] - c[p];
    lemma_gap_sums(g);
    lemma_combined_sums(c);
    if p == 0 {
        lemma_count_one(g, c, p, (0, 4, 5, 7, 8), rest);
    } else if p == 1 {
        lemma_count_one(g, c, p, (1, 3, 5, 6, 8), rest);
    } else if p == 2 {
        lemma_count_one(g, c, p, (2, 3, 4, 6, 7), rest);
    } else if p == 3 {
        lemma_count_one(g, c, p, (1, 2, 3, 7, 8), rest);
    } else if p == 4 {
        lemma_count_one(g, c, p, (0, 2, 4, 6, 8), rest);
    } else if p == 5 {
        lemma_count_one(g, c, p, (0, 1, 5, 6, 7), rest);
    } else if p == 6 {
        lemma_count_one(g, c, p, (1, 2, 4, 5, 6), rest);
    } else if p == 7 {
        lemma_count_one(g, c, p, (0, 2, 3, 5, 7), rest);
    } else {
        lemma_count_one(g, c, p, (0, 1, 3, 4, 8), rest);
    }
}

} // verus!
