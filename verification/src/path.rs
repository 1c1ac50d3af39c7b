//! Move paths: sequences of move indices, and the grid they lead to.

use crate::grid::{make_move, move_delta, shifted, valid_cells, State, MOVES};
use vstd::prelude::*;

verus! {

/// A grid state together with the moves that led to it.
pub type Position = (State, Vec<u8>);

/// Every entry of `path` names one of the nine moves.
pub open spec fn valid_path(path: Seq<u8>) -> bool {
    forall|k: int| 0 <= k < path.len() ==> path[k] < 9
}

/// The grid reached from `cells` by applying the moves of `path` in order.
pub open spec fn replay(cells: Seq<u8>, path: Seq<u8>) -> Seq<u8>
    decreases path.len(),
{
    if path.len() == 0 {
        cells
    } else {
        shifted(replay(cells, path.drop_last()), move_delta(path.last() as int))
    }
}

/// What the moves of `path` add to the cell `cell` in total, before
/// reduction modulo 3.
pub open spec fn tally(path: Seq<u8>, cell: int) -> int
    decreases path.len(),
{
    if path.len() == 0 {
        0
    } else {
        tally(path.drop_last(), cell) + move_delta(path.last() as int)[cell]
    }
}

/// The nine positions one move away from `initial_position`: entry `p` holds
/// the state after move `p` and the path extended by `p`.
pub fn possible_positions_from_position(initial_position: Position) -> (result: Vec<Position>)
    ensures
        result@.len() == 9,
        forall|p: int|
            0 <= p < 9 ==> {
                &&& (#[trigger] result@[p]).0@ == shifted(initial_position.0@, move_delta(p))
                &&& result@[p].1@ == initial_position.1@.push(p as u8)
            },
        forall|p: int|
            0 <= p < 9 ==> (#[trigger] result@[p]).0@ == replay(
                initial_position.0@,
                seq![p as u8],
            ),
{
    let mut result: Vec<Position> = Vec::new();
    let mut p: u8 = 0;
    while p < 9
        invariant
            p <= 9,
            result@.len() == p,
            forall|q: int|
                0 <= q < p ==> {
                    &&& (#[trigger] result@[q]).0@ == shifted(
                        initial_position.0@,
                        move_delta(q),
                    )
                    &&& result@[q].1@ == initial_position.1@.push(q as u8)
                },
        decreases 9 - p,
    {
        let mut new_path: Vec<u8> = initial_position.1.clone();
        new_path.push(p);
        result.push((make_move(initial_position.0, MOVES[p as usize]), new_path));
        p += 1;
    }
    proof {
        assert forall|q: int| 0 <= q < 9 implies (#[trigger] result@[q]).0@ == replay(
            initial_position.0@,
            seq![q as u8],
        ) by {
            lemma_replay_single(initial_position.0@, q as u8);
        }
    }
    result
}

/// The states passed through when the moves of `path` are applied to
/// `initial` in order: entry `k` is the state after the first `k + 1` moves.
pub fn states_along_path(initial: State, path: &Vec<u8>) -> (states: Vec<State>)
    requires
        valid_path(path@),
    ensures
        states@.len() == path@.len(),
        forall|k: int|
            0 <= k < path@.len() ==> (#[trigger] states@[k])@ == replay(
                initial@,
                path@.take(k + 1),
            ),
        path@.len() > 0 ==> states@[path@.len() - 1]@ == replay(initial@, path@),
{
    let mut states: Vec<State> = Vec::new();
    let mut current: State = initial;
    let mut k: usize = 0;
    while k < path.len()
        invariant
            k <= path@.len(),
            valid_path(path@),
            states@.len() == k,
            current@ == replay(initial@, path@.take(k as int)),
            forall|j: int|
                0 <= j < k ==> (#[trigger] states@[j])@ == replay(initial@, path@.take(j + 1)),
        decreases path@.len() - k,
    {
        let m: u8 = path[k];
        proof {
            let longer = path@.take(k + 1);
            assert(longer.drop_last() =~= path@.take(k as int));
            assert(longer.last() == m);
        }
        current = make_move(current, MOVES[m as usize]);
        states.push(current);
        k += 1;
    }
    proof {
        assert(path@.take(path@.len() as int) =~= path@);
    }
    states
}

/// A path of one move leads to the grid shifted by that move's delta.
pub proof fn lemma_replay_single(cells: Seq<u8>, p: u8)
    ensures
        replay(cells, seq![p]) == shifted(cells, move_delta(p as int)),
{
    let path = seq![p];
    assert(path.drop_last() =~= Seq::<u8>::empty());
    assert(replay(cells, path.drop_last()) == cells);
}

/// One more move at the end of a path shifts the grid it leads to.
pub proof fn lemma_replay_push(cells: Seq<u8>, path: Seq<u8>, p: u8)
    ensures
        replay(cells, path.push(p)) == shifted(replay(cells, path), move_delta(p as int)),
{
    assert(path.push(p).drop_last() =~= path);
}

/// Replaying the concatenation of two paths is replaying the first and
/// then the second.
pub proof fn lemma_replay_concat(cells: Seq<u8>, first: Seq<u8>, second: Seq<u8>)
    ensures
        replay(cells, first + second) == replay(replay(cells, first), second),
    decreases second.len(),
{
    if second.len() == 0 {
        assert(first + second =~= first);
    } else {
        lemma_replay_concat(cells, first, second.drop_last());
        assert((first + second).drop_last() =~= first + second.drop_last());
    }
}

/// A non-empty path leads to a well-formed grid, and so does any path that
/// starts from one.
pub proof fn lemma_replay_valid(cells: Seq<u8>, path: Seq<u8>)
    requires
        valid_cells(cells) || path.len() > 0,
    ensures
        valid_cells(replay(cells, path)),
{
}

/// Each cell reached by a path is the starting cell plus what the path adds
/// to it, modulo 3.
pub proof fn lemma_replay_adds_tally(cells: Seq<u8>, path: Seq<u8>, cell: int)
    requires
        0 <= cell < 9,
        valid_cells(cells) || path.len() > 0,
    ensures
        replay(cells, path)[cell] == (cells[cell] + tally(path, cell)) % 3,
    decreases path.len(),
{
    if path.len() > 0 {
        let before = path.drop_last();
        let delta = move_delta(path.last() as int);
        if before.len() > 0 {
            lemma_replay_adds_tally(cells, before, cell);
        }
        assert(replay(cells, before)[cell] % 3 == (cells[cell] + tally(before, cell)) % 3);
        assert(replay(cells, path) == shifted(replay(cells, before), delta));
        assert(replay(cells, path)[cell] == (replay(cells, before)[cell] + delta[cell]) % 3);
        assert(tally(path, cell) == tally(before, cell) + delta[cell]);
    }
}

/// What two paths add to a cell, one after the other, is the sum of what
/// each adds.
pub proof fn lemma_tally_concat(first: Seq<u8>, second: Seq<u8>, cell: int)
    ensures
        tally(first + second, cell) == tally(first, cell) + tally(second, cell),
    decreases second.len(),
{
    if second.len() == 0 {
        assert(first + second =~= first);
    } else {
        lemma_tally_concat(first, second.drop_last(), cell);
        assert((first + second).drop_last() =~= first + second.drop_last());
    }
}

/// Taking one move out of a path lowers what the path adds to a cell by
/// that move's delta.
proof fn lemma_tally_remove(path: Seq<u8>, k: int, cell: int)
    requires
        0 <= k < path.len(),
    ensures
        tally(path, cell) == tally(path.remove(k), cell) + move_delta(path[k] as int)[cell],
    decreases path.len(),
{
    if k == path.len() - 1 {
        assert(path.remove(k) =~= path.drop_last());
    } else {
        lemma_tally_remove(path.drop_last(), k, cell);
        assert(path.remove(k).drop_last() =~= path.drop_last().remove(k));
        assert(path.remove(k).last() == path.last());
    }
}

/// What a path adds to a cell depends only on how often each move occurs in
/// it, not on their order.
pub proof fn lemma_tally_of_permutation(a: Seq<u8>, b: Seq<u8>, cell: int)
    requires
        a.to_multiset() == b.to_multiset(),
    ensures
        tally(a, cell) == tally(b, cell),
    decreases a.len(),
{
    a.to_multiset_ensures();
    b.to_multiset_ensures();
    if a.len() > 0 {
        let x = a.last();
        let rest = a.drop_last();
        rest.to_multiset_ensures();
        assert(rest.push(x) =~= a);
        assert(a.to_multiset() =~= rest.to_multiset().insert(x));
        assert(b.to_multiset().count(x) > 0);
        assert(b.contains(x));
        let k = choose|k: int| 0 <= k < b.len() && b[k] == x;
        assert(b.remove(k).to_multiset() =~= b.to_multiset().remove(x));
        assert(b.remove(k).to_multiset() =~= rest.to_multiset());
        lemma_tally_of_permutation(rest, b.remove(k), cell);
        lemma_tally_remove(b, k, cell);
    }
}

/// Two paths that hold the same moves the same number of times, in whatever
/// order, lead from the same grid to the same grid.
pub proof fn lemma_replay_of_permutation(cells: Seq<u8>, a: Seq<u8>, b: Seq<u8>)
    requires
        a.to_multiset() == b.to_multiset(),
    ensures
        replay(cells, a) == replay(cells, b),
{
    a.to_multiset_ensures();
    b.to_multiset_ensures();
    if a.len() > 0 {
        assert forall|cell: int| 0 <= cell < 9 implies replay(cells, a)[cell] == replay(
            cells,
            b,
        )[cell] by {
            lemma_replay_adds_tally(cells, a, cell);
            lemma_replay_adds_tally(cells, b, cell);
            lemma_tally_of_permutation(a, b, cell);
        }
        assert(replay(cells, a) =~= replay(cells, b));
    }
}

} // verus!
