//! Static evaluation of a board: row and column heuristics and the place of the largest tile.
use vstd::prelude::*;
use crate::board::{cell, cells, get_cell, lemma_cells_injective};
use crate::moves::{line_of, read_line, Direction};
use crate::row::row_heuristic;
use crate::tables::RowTables;

verus! {

/// Reward per squared rank when the largest tile sits in a corner.
pub const CORNER_WEIGHT: i64 = 500;
/// Penalty per squared rank when the largest tile sits on an edge but in no corner.
pub const EDGE_WEIGHT: i64 = 1000;
/// Penalty per squared rank when the largest tile sits in the interior.
pub const INTERIOR_WEIGHT: i64 = 3000;

/// Smallest score that `evaluate` gives.
pub const EVAL_MIN: i64 = -57368000;
/// Largest score that `evaluate` gives.
pub const EVAL_MAX: i64 = 1743540;

/// Largest rank among the first `n` cells.
pub open spec fn max_below(b: u64, n: int) -> u8
    decreases n,
{
    if n <= 0 {
        0
    } else if cell(b, n - 1) > max_below(b, n - 1) {
        cell(b, n - 1)
    } else {
        max_below(b, n - 1)
    }
}

/// Largest rank of the board.
pub open spec fn max_rank(b: u64) -> u8 {
    max_below(b, 16)
}

pub open spec fn is_corner(i: int) -> bool {
    i == 0 || i == 3 || i == 12 || i == 15
}

pub open spec fn is_border(i: int) -> bool {
    i < 4 || i >= 12 || i % 4 == 0 || i % 4 == 3
}

/// Some corner holds a tile of the largest rank.
pub open spec fn max_in_corner(b: u64) -> bool {
    exists|i: int| 0 <= i < 16 && is_corner(i) && #[trigger] cell(b, i) == max_rank(b)
}

/// Some border cell holds a tile of the largest rank.
pub open spec fn max_on_border(b: u64) -> bool {
    exists|i: int| 0 <= i < 16 && is_border(i) && #[trigger] cell(b, i) == max_rank(b)
}

/// Positional term of the largest tile: a bonus in a corner, a penalty on an
/// edge, a larger penalty in the interior, each quadratic in its rank.
pub open spec fn corner_term(b: u64) -> int {
    let m = max_rank(b) as int;
    if max_in_corner(b) {
        CORNER_WEIGHT * (m * m)
    } else if max_on_border(b) {
        -(EDGE_WEIGHT * (m * m))
    } else {
        -(INTERIOR_WEIGHT * (m * m))
    }
}

/// Static score of a board: the heuristic of its four rows and four columns,
/// plus the positional term of its largest tile.
pub open spec fn evaluation(b: u64) -> int {
    row_heuristic(line_of(b, Direction::Left, 0)) + row_heuristic(line_of(b, Direction::Left, 1))
        + row_heuristic(line_of(b, Direction::Left, 2)) + row_heuristic(
        line_of(b, Direction::Left, 3),
    ) + row_heuristic(line_of(b, Direction::Up, 0)) + row_heuristic(line_of(b, Direction::Up, 1))
        + row_heuristic(line_of(b, Direction::Up, 2)) + row_heuristic(line_of(b, Direction::Up, 3))
        + corner_term(b)
}

/// Largest rank of a board.
fn largest_rank(b: u64) -> (m: u8)
    ensures
        m == max_rank(b),
        m <= 15,
{
    let mut m: u8 = 0;
    let mut i: usize = 0;
    while i < 16
        invariant
            i <= 16,
            m == max_below(b, i as int),
            m <= 15,
        decreases 16 - i,
    {
        let c = get_cell(b, i);
        if c > m {
            m = c;
        }
        i = i + 1;
    }
    m
}

/// Positional term of the largest tile.
fn corner_score(b: u64) -> (s: i64)
    ensures
        s == corner_term(b),
        -675000 <= s <= 112500,
{
    let m = largest_rank(b);
    let mut in_corner = false;
    let mut on_border = false;
    let mut i: usize = 0;
    while i < 16
        invariant
            i <= 16,
            m == max_rank(b),
            in_corner <==> exists|j: int|
                0 <= j < i && is_corner(j) && #[trigger] cell(b, j) == max_rank(b),
            on_border <==> exists|j: int|
                0 <= j < i && is_border(j) && #[trigger] cell(b, j) == max_rank(b),
        decreases 16 - i,
    {
        let c = get_cell(b, i);
        if c == m {
            if i == 0 || i == 3 || i == 12 || i == 15 {
                in_corner = true;
            }
            if i < 4 || i >= 12 || i % 4 == 0 || i % 4 == 3 {
                on_border = true;
            }
        }
        i = i + 1;
    }
    let mi = m as i64;
    assert(0 <= mi * mi <= 225) by (nonlinear_arith)
        requires
            0 <= mi <= 15,
    ;
    let sq = mi * mi;
    if in_corner {
        CORNER_WEIGHT * sq
    } else if on_border {
        0 - EDGE_WEIGHT * sq
    } else {
        0 - INTERIOR_WEIGHT * sq
    }
}

/// Static score of a board, with no search.
pub fn evaluate(t: &RowTables, b: u64) -> (s: i64)
    requires
        t.wf(),
    ensures
        s == evaluation(b),
        EVAL_MIN <= s <= EVAL_MAX,
{
    let rows = t.heuristic(read_line(b, Direction::Left, 0)) + t.heuristic(
        read_line(b, Direction::Left, 1),
    ) + t.heuristic(read_line(b, Direction::Left, 2)) + t.heuristic(
        read_line(b, Direction::Left, 3),
    );
    let cols = t.heuristic(read_line(b, Direction::Up, 0)) + t.heuristic(
        read_line(b, Direction::Up, 1),
    ) + t.heuristic(read_line(b, Direction::Up, 2)) + t.heuristic(read_line(b, Direction::Up, 3));
    let total = rows + cols;
    total + corner_score(b)
}

/// Boards with the same ranks get the same static score.
pub proof fn lemma_evaluation_deterministic(x: u64, y: u64)
    requires
        cells(x) == cells(y),
    ensures
        evaluation(x) == evaluation(y),
{
    lemma_cells_injective(x, y);
}

} // verus!
