//! The enumeration of move combinations.
//!
//! Combination index `i` stands for the path that applies move 0 as often as
//! the lowest base-3 digit of `i` says, then move 1 as often as the next
//! digit says, and so on up to move 8.

use crate::grid::{
    lemma_move_touches_row_and_column, make_move, touches, valid_cells, State, MOVES,
};
use crate::path::{
    lemma_replay_adds_tally, lemma_replay_push, lemma_tally_concat, replay, tally, valid_path,
    Position,
};
use crate::radix::{decode_index, digit, digits_of, lemma_zero_has_zero_digits, COMBINATIONS};
use vstd::prelude::*;
use vstd::seq_lib::lemma_multiset_commutative;

verus! {

/// The path that applies move `p` exactly `count` times.
pub open spec fn repeated(p: u8, count: nat) -> Seq<u8> {
    Seq::new(count, |k: int| p)
}

/// The part of the path of `index` that is made of the first `moves` moves
/// of the table.
pub open spec fn path_prefix(index: nat, moves: nat) -> Seq<u8>
    decreases moves,
{
    if moves == 0 {
        Seq::empty()
    } else {
        path_prefix(index, (moves - 1) as nat) + repeated(
            (moves - 1) as u8,
            digit(index, (moves - 1) as nat),
        )
    }
}

/// The move path of combination `index`.
pub open spec fn index_path(index: nat) -> Seq<u8> {
    path_prefix(index, 9)
}

/// The sum of the nine low base-3 digits of `index`.
pub open spec fn digit_sum(index: nat) -> nat {
    digit(index, 0) + digit(index, 1) + digit(index, 2) + digit(index, 3) + digit(index, 4)
        + digit(index, 5) + digit(index, 6) + digit(index, 7) + digit(index, 8)
}

/// The sum of the digits of `index` below position `moves`.
pub open spec fn prefix_sum(index: nat, moves: nat) -> nat
    decreases moves,
{
    if moves == 0 {
        0
    } else {
        prefix_sum(index, (moves - 1) as nat) + digit(index, (moves - 1) as nat)
    }
}

/// The position that combination `index` leads to from `state`: the moves of
/// its path, and the state after applying them one by one.
///
/// Index 0 applies no move and hands `state` back as it is. Of an index of
/// 3^9 or more only the nine low digits count.
pub fn position_at(state: State, index: u16) -> (position: Position)
    ensures
        position.1@ == index_path(index as nat),
        position.0@ == replay(state@, index_path(index as nat)),
        position.1@.len() == digit_sum(index as nat),
        position.1@.len() <= 18,
        valid_path(position.1@),
        valid_cells(state@) ==> valid_cells(position.0@),
        index == 0 ==> position.0@ == state@ && position.1@.len() == 0,
{
    let digits = decode_index(index);
    let mut running: State = state;
    let mut path: Vec<u8> = Vec::new();
    let mut p: u8 = 0;
    while p < 9
        invariant
            p <= 9,
            digits@ == digits_of(index as nat),
            path@ == path_prefix(index as nat, p as nat),
            running@ == replay(state@, path@),
            path@.len() == prefix_sum(index as nat, p as nat),
            path@.len() <= 2 * p,
            valid_path(path@),
            valid_cells(state@) ==> valid_cells(running@),
            index == 0 ==> running@ == state@ && path@.len() == 0,
        decreases 9 - p,
    {
        let count: u8 = digits[p as usize];
        assert(count == digit(index as nat, p as nat));
        let ghost before = path@;
        let mut done: u8 = 0;
        while done < count
            invariant
                done <= count,
                count <= 2,
                p < 9,
                path@ == before + repeated(p, done as nat),
                running@ == replay(state@, path@),
                valid_path(before),
                valid_cells(state@) ==> valid_cells(running@),
            decreases count - done,
        {
            proof {
                lemma_replay_push(state@, path@, p);
                assert((before + repeated(p, done as nat)).push(p) =~= before + repeated(
                    p,
                    (done + 1) as nat,
                ));
            }
            path.push(p);
            running = make_move(running, MOVES[p as usize]);
            done += 1;
        }
        proof {
            assert(index == 0 ==> count == 0) by {
                if index == 0 {
                    lemma_zero_has_zero_digits();
                    assert(digits_of(0)[p as int] == 0);
                }
            }
            assert(count == 0 ==> path@ =~= before);
        }
        p += 1;
    }
    proof {
        lemma_prefix_sum_total(index as nat);
    }
    (running, path)
}

/// The positions of all 3^9 combinations from `state`, in the order of their
/// indices.
pub fn positions_from_state(state: State) -> (positions: Vec<Position>)
    ensures
        positions@.len() == COMBINATIONS,
        forall|i: int|
            0 <= i < COMBINATIONS ==> {
                &&& (#[trigger] positions@[i]).1@ == index_path(i as nat)
                &&& positions@[i].0@ == replay(state@, index_path(i as nat))
            },
{
    let mut positions: Vec<Position> = Vec::new();
    let mut index: u16 = 0;
    while index < COMBINATIONS
        invariant
            index <= COMBINATIONS,
            positions@.len() == index,
            forall|i: int|
                0 <= i < index ==> {
                    &&& (#[trigger] positions@[i]).1@ == index_path(i as nat)
                    &&& positions@[i].0@ == replay(state@, index_path(i as nat))
                },
        decreases COMBINATIONS - index,
    {
        positions.push(position_at(state, index));
        index += 1;
    }
    positions
}

/// Combination 0 applies no move: its path is empty, and it leads from
/// every grid to that grid itself.
pub proof fn lemma_index_zero_is_identity(cells: Seq<u8>)
    ensures
        index_path(0) == Seq::<u8>::empty(),
        replay(cells, index_path(0)) == cells,
{
    lemma_zero_has_zero_digits();
    assert forall|moves: nat| moves <= 9 implies #[trigger] path_prefix(0, moves).len()
        == 0 by {
        lemma_zero_prefix_is_empty(moves);
    }
    assert(index_path(0) =~= Seq::<u8>::empty());
}

/// No prefix of the path of combination 0 holds a move.
proof fn lemma_zero_prefix_is_empty(moves: nat)
    requires
        moves <= 9,
    ensures
        path_prefix(0, moves).len() == 0,
    decreases moves,
{
    if moves > 0 {
        lemma_zero_prefix_is_empty((moves - 1) as nat);
        lemma_zero_has_zero_digits();
        assert(digits_of(0)[moves - 1] == 0);
        assert(digit(0, (moves - 1) as nat) == 0);
    }
}

/// A run of one move holds that move as often as it is long, and no other.
proof fn lemma_repeated_counts(p: u8, count: nat, q: u8)
    ensures
        repeated(p, count).to_multiset().count(q) == if q == p {
            count
        } else {
            0
        },
    decreases count,
{
    if count == 0 {
        repeated(p, count).to_multiset_ensures();
        assert(repeated(p, count).to_multiset().len() == 0);
    } else {
        let shorter = repeated(p, (count - 1) as nat);
        lemma_repeated_counts(p, (count - 1) as nat, q);
        shorter.to_multiset_ensures();
        assert(shorter.push(p) =~= repeated(p, count));
    }
}

/// A prefix of the path of `index` holds each of its moves as often as the
/// digit of `index` for that move says, and no later move.
proof fn lemma_prefix_counts(index: nat, moves: nat, q: u8)
    requires
        moves <= 9,
    ensures
        path_prefix(index, moves).to_multiset().count(q) == if q < moves {
            digit(index, q as nat)
        } else {
            0
        },
    decreases moves,
{
    if moves == 0 {
        path_prefix(index, moves).to_multiset_ensures();
        assert(path_prefix(index, moves).to_multiset().len() == 0);
    } else {
        let p = (moves - 1) as nat;
        lemma_prefix_counts(index, p, q);
        lemma_repeated_counts(p as u8, digit(index, p), q);
        lemma_multiset_commutative(path_prefix(index, p), repeated(p as u8, digit(index, p)));
    }
}

/// The path of `index` applies move `p` exactly as often as the digit of
/// `index` at position `p` says.
pub proof fn lemma_path_counts_are_digits(index: nat, p: u8)
    requires
        p < 9,
    ensures
        index_path(index).to_multiset().count(p) == digit(index, p as nat),
{
    lemma_prefix_counts(index, 9, p);
}

/// A prefix of the path of `index` is in the order of the move table, and
/// holds only moves below its bound.
proof fn lemma_prefix_is_ordered(index: nat, moves: nat)
    requires
        moves <= 9,
    ensures
        forall|k: int| 0 <= k < path_prefix(index, moves).len() ==> path_prefix(index, moves)[k]
            < moves,
        forall|j: int, k: int|
            0 <= j <= k < path_prefix(index, moves).len() ==> path_prefix(index, moves)[j]
                <= path_prefix(index, moves)[k],
    decreases moves,
{
    let path = path_prefix(index, moves);
    if moves > 0 {
        let p = (moves - 1) as nat;
        let before = path_prefix(index, p);
        let run = repeated(p as u8, digit(index, p));
        lemma_prefix_is_ordered(index, p);
        assert(path == before + run);
        assert forall|k: int| 0 <= k < path.len() implies path[k] < moves && (k
            >= before.len() ==> path[k] == p) by {
            if k >= before.len() {
                assert(path[k] == run[k - before.len()]);
            } else {
                assert(path[k] == before[k]);
            }
        }
        assert forall|j: int, k: int| 0 <= j <= k < path.len() implies path[j] <= path[k] by {
            if k < before.len() {
                assert(path[j] == before[j] && path[k] == before[k]);
            } else if j < before.len() {
                assert(path[j] == before[j]);
            }
        }
    }
}

/// The path of `index` applies the moves in the order of the move table:
/// all applications of move 0 first, then those of move 1, and so on.
pub proof fn lemma_path_is_ordered(index: nat)
    ensures
        valid_path(index_path(index)),
        forall|j: int, k: int|
            0 <= j <= k < index_path(index).len() ==> index_path(index)[j] <= index_path(
                index,
            )[k],
{
    lemma_prefix_is_ordered(index, 9);
}

/// What the first `moves` moves of the table add to the cell `cell` when
/// move `p` is applied `counts[p]` times: the sum of the counts of those
/// moves that touch the cell.
pub open spec fn combined(counts: Seq<u8>, moves: nat, cell: int) -> int
    decreases moves,
{
    if moves == 0 {
        0
    } else {
        combined(counts, (moves - 1) as nat, cell) + if touches(moves - 1, cell) {
            counts[moves - 1] as int
        } else {
            0
        }
    }
}

/// Applying one move `count` times adds `count` to the cells it touches.
proof fn lemma_tally_repeated(p: u8, count: nat, cell: int)
    requires
        p < 9,
        0 <= cell < 9,
    ensures
        tally(repeated(p, count), cell) == if touches(p as int, cell) {
            count as int
        } else {
            0
        },
    decreases count,
{
    if count > 0 {
        lemma_tally_repeated(p, (count - 1) as nat, cell);
        lemma_move_touches_row_and_column(p as int, cell);
        assert(repeated(p, count).drop_last() =~= repeated(p, (count - 1) as nat));
    }
}

/// What a prefix of the path of `index` adds to a cell is what the digits
/// of `index` say.
proof fn lemma_tally_prefix(index: nat, moves: nat, cell: int)
    requires
        moves <= 9,
        0 <= cell < 9,
    ensures
        tally(path_prefix(index, moves), cell) == combined(digits_of(index), moves, cell),
    decreases moves,
{
    if moves > 0 {
        let p = (moves - 1) as nat;
        lemma_tally_prefix(index, p, cell);
        lemma_tally_repeated(p as u8, digit(index, p), cell);
        lemma_tally_concat(path_prefix(index, p), repeated(p as u8, digit(index, p)), cell);
        assert(digits_of(index)[p as int] == digit(index, p));
    }
}

/// Each cell reached by combination `index` is the starting cell plus the
/// digits of `index` for the moves that touch the cell, modulo 3: the order
/// in which the path applies the moves plays no part.
pub proof fn lemma_combination_adds_digits(cells: Seq<u8>, index: nat, cell: int)
    requires
        valid_cells(cells),
        0 <= cell < 9,
    ensures
        replay(cells, index_path(index))[cell] == (cells[cell] + combined(
            digits_of(index),
            9,
            cell,
        )) % 3,
{
    lemma_replay_adds_tally(cells, index_path(index), cell);
    lemma_tally_prefix(index, 9, cell);
}

/// The digit sum is the sum of all nine digits taken one by one.
proof fn lemma_prefix_sum_total(index: nat)
    ensures
        prefix_sum(index, 9) == digit_sum(index),
{
    reveal_with_fuel(prefix_sum, 10);
}

} // verus!
