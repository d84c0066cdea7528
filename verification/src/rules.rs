//! The rules that a move must keep before it is laid on the board.
use vstd::prelude::*;
use crate::board::Board;
use crate::grid::{
    all_in_bounds, all_on_empty, at_cell, covered, covers_centre, direction_of, distinct_cells,
    gap_between, in_line, line_of, no_gaps, placement_error, pos_of, touches,
};
use crate::tiles::{Direction, SolverError, TilePlacement};

verus! {

/// The position of a placement along a line of direction `dir`.
pub fn position(dir: Direction, p: &TilePlacement) -> (k: usize)
    ensures
        k == pos_of(dir, *p),
{
    match dir {
        Direction::Horizontal => p.col,
        Direction::Vertical => p.row,
    }
}

/// The line of direction `dir` that a placement lies on.
pub fn line_index(dir: Direction, p: &TilePlacement) -> (l: usize)
    ensures
        l == line_of(dir, *p),
{
    match dir {
        Direction::Horizontal => p.row,
        Direction::Vertical => p.col,
    }
}

/// Tests whether every placement lies on a cell of the grid.
pub fn within_bounds(board: &Board, ps: &Vec<TilePlacement>) -> (b: bool)
    ensures
        b == all_in_bounds(board@, ps@),
{
    let mut i: usize = 0;
    while i < ps.len()
        invariant
            i <= ps.len(),
            forall|j: int| 0 <= j < i ==> board@.in_bounds((#[trigger] ps@[j]).row as int, ps@[j].col as int),
        decreases ps.len() - i,
    {
        if ps[i].row >= board.rows() || ps[i].col >= board.cols() {
            return false;
        }
        i += 1;
    }
    true
}

/// Tests whether every placement lies on a cell without a tile, and no two
/// on the same cell.
pub fn cells_free(board: &Board, ps: &Vec<TilePlacement>) -> (b: bool)
    requires
        board.wf(),
    ensures
        b == (all_on_empty(board@, ps@) && distinct_cells(ps@)),
{
    let mut i: usize = 0;
    while i < ps.len()
        invariant
            board.wf(),
            i <= ps.len(),
            forall|j: int| 0 <= j < i ==> !board@.occupied((#[trigger] ps@[j]).row as int, ps@[j].col as int),
            forall|s: int, t: int|
                0 <= s < t < i ==> !at_cell(#[trigger] ps@[s], (#[trigger] ps@[t]).row as int, ps@[t].col as int),
        decreases ps.len() - i,
    {
        if board.tile_at(ps[i].row, ps[i].col).is_some() {
            return false;
        }
        let mut j: usize = 0;
        while j < i
            invariant
                j <= i < ps.len(),
                forall|s: int|
                    0 <= s < j ==> !at_cell(#[trigger] ps@[s], ps@[i as int].row as int, ps@[i as int].col as int),
            decreases i - j,
        {
            if ps[j].row == ps[i].row && ps[j].col == ps[i].col {
                assert(at_cell(ps@[j as int], ps@[i as int].row as int, ps@[i as int].col as int));
                return false;
            }
            j += 1;
        }
        i += 1;
    }
    true
}

/// Tests whether all placements lie in one line of direction `dir`.
pub fn lies_in_line(dir: Direction, ps: &Vec<TilePlacement>) -> (b: bool)
    ensures
        b == in_line(dir, ps@),
{
    let mut i: usize = 1;
    while i < ps.len()
        invariant
            1 <= i,
            forall|j: int| 0 <= j < i && j < ps.len() ==> line_of(dir, #[trigger] ps@[j]) == line_of(dir, ps@[0]),
        decreases ps.len() - i,
    {
        if line_index(dir, &ps[i]) != line_index(dir, &ps[0]) {
            return false;
        }
        i += 1;
    }
    true
}

/// Tests whether a placement of the move lies at position `k` of its line.
pub fn has_position(dir: Direction, ps: &Vec<TilePlacement>, k: usize) -> (b: bool)
    ensures
        b == exists|t: int| 0 <= t < ps.len() && pos_of(dir, #[trigger] ps@[t]) == k,
{
    let mut i: usize = 0;
    while i < ps.len()
        invariant
            i <= ps.len(),
            forall|t: int| 0 <= t < i ==> pos_of(dir, #[trigger] ps@[t]) != k,
        decreases ps.len() - i,
    {
        if position(dir, &ps[i]) == k {
            return true;
        }
        i += 1;
    }
    false
}

/// Tests whether the move, all in one line of direction `dir`, leaves no
/// cell without a tile between two of its placements.
pub fn without_gaps(board: &Board, ps: &Vec<TilePlacement>, dir: Direction) -> (b: bool)
    requires
        board.wf(),
        all_in_bounds(board@, ps@),
        dir == direction_of(ps@),
    ensures
        b == no_gaps(board@, ps@),
{
    let n = ps.len();
    if n == 0 {
        return true;
    }
    let line = line_index(dir, &ps[0]);
    let mut lo: usize = position(dir, &ps[0]);
    let mut hi: usize = lo;
    let ghost mut a: int = 0;
    let ghost mut z: int = 0;
    let mut i: usize = 1;
    while i < n
        invariant
            n == ps.len(),
            1 <= i <= n,
            0 <= a < i,
            0 <= z < i,
            lo == pos_of(dir, ps@[a]),
            hi == pos_of(dir, ps@[z]),
            forall|t: int| 0 <= t < i ==> lo <= pos_of(dir, #[trigger] ps@[t]) <= hi,
        decreases n - i,
    {
        let k = position(dir, &ps[i]);
        if k < lo {
            lo = k;
            proof {
                a = i as int;
            }
        }
        if k > hi {
            hi = k;
            proof {
                z = i as int;
            }
        }
        i += 1;
    }
    let mut k: usize = lo;
    while k < hi
        invariant
            board.wf(),
            n == ps.len(),
            n > 0,
            dir == direction_of(ps@),
            lo <= k <= hi,
            0 <= a < n,
            0 <= z < n,
            lo == pos_of(dir, ps@[a]),
            hi == pos_of(dir, ps@[z]),
            line == line_of(dir, ps@[0]),
            forall|t: int| lo <= t < k ==> covered(board@, ps@, dir, line as int, t),
        decreases hi - k,
    {
        if board.tile_on(dir, line, k).is_none() && !has_position(dir, ps, k) {
            proof {
                assert(k != lo);
                assert(gap_between(dir, ps@[a], ps@[z], k as int));
            }
            return false;
        }
        k += 1;
    }
    proof {
        assert forall|i: int, j: int, t: int|
            0 <= i < ps@.len() && 0 <= j < ps@.len() && #[trigger] gap_between(
                dir,
                ps@[i],
                ps@[j],
                t,
            ) implies covered(board@, ps@, dir, line as int, t) by {
            assert(lo <= pos_of(dir, ps@[i]));
            assert(pos_of(dir, ps@[j]) <= hi);
        }
    }
    true
}

/// Tests whether a placement lies on the centre cell.
pub fn on_centre(board: &Board, ps: &Vec<TilePlacement>) -> (b: bool)
    ensures
        b == covers_centre(board@, ps@),
{
    let centre_row = board.rows() / 2;
    let centre_col = board.cols() / 2;
    let mut i: usize = 0;
    while i < ps.len()
        invariant
            i <= ps.len(),
            centre_row == board@.centre_row(),
            centre_col == board@.centre_col(),
            forall|t: int| 0 <= t < i ==> !at_cell(#[trigger] ps@[t], centre_row as int, centre_col as int),
        decreases ps.len() - i,
    {
        if ps[i].row == centre_row && ps[i].col == centre_col {
            assert(at_cell(ps@[i as int], board@.centre_row(), board@.centre_col()));
            return true;
        }
        i += 1;
    }
    false
}

/// Tests whether a placement lies next to a tile of the board.
pub fn next_to_tile(board: &Board, ps: &Vec<TilePlacement>) -> (b: bool)
    requires
        board.wf(),
        all_in_bounds(board@, ps@),
    ensures
        b == touches(board@, ps@),
{
    let mut i: usize = 0;
    while i < ps.len()
        invariant
            board.wf(),
            all_in_bounds(board@, ps@),
            i <= ps.len(),
            forall|t: int| 0 <= t < i ==> !board@.has_neighbour((#[trigger] ps@[t]).row as int, ps@[t].col as int),
        decreases ps.len() - i,
    {
        assert(board@.in_bounds(ps@[i as int].row as int, ps@[i as int].col as int));
        if board.has_neighbour(ps[i].row, ps[i].col) {
            return true;
        }
        i += 1;
    }
    false
}

/// Holds a move against the rules: `Ok` where it keeps them all, else the
/// first rule that it breaks.
pub fn check_move(board: &Board, ps: &Vec<TilePlacement>) -> (r: Result<(), SolverError>)
    requires
        board.wf(),
    ensures
        match r {
            Ok(()) => placement_error(board@, ps@) is None,
            Err(e) => placement_error(board@, ps@) == Some(e),
        },
{
    if !within_bounds(board, ps) {
        return Err(SolverError::OutOfBounds);
    }
    if !cells_free(board, ps) {
        return Err(SolverError::OccupiedCell);
    }
    let dir = if lies_in_line(Direction::Horizontal, ps) {
        Direction::Horizontal
    } else if lies_in_line(Direction::Vertical, ps) {
        Direction::Vertical
    } else {
        return Err(SolverError::DiscontiguousMove);
    };
    if !without_gaps(board, ps, dir) {
        return Err(SolverError::DiscontiguousMove);
    }
    if board.is_bare() {
        if on_centre(board, ps) && ps.len() >= 2 {
            Ok(())
        } else {
            Err(SolverError::IllegalFirstMove)
        }
    } else if next_to_tile(board, ps) {
        Ok(())
    } else {
        Err(SolverError::DisconnectedMove)
    }
}

} // verus!
