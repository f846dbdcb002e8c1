//! Applying one of the four moves to a packed board through the row tables.
use vstd::prelude::*;
use crate::board::{cell, cells, get_cell, lemma_cells_injective, set_cell};
use crate::row::{
    compact, lemma_compact_props, lemma_merged_props, pack_row, ranks_ok, row_cells, slide_left,
    slide_right, slide_score, unpack_row,
};
use crate::tables::RowTables;

verus! {

/// A move, in the fixed order in which the search tries them.
#[derive(Clone, Copy, PartialEq, Eq, Structural, Debug)]
pub enum Direction {
    Up,
    Down,
    Left,
    Right,
}

/// The four directions in their fixed order.
pub open spec fn direction_at(d: int) -> Direction {
    if d == 0 {
        Direction::Up
    } else if d == 1 {
        Direction::Down
    } else if d == 2 {
        Direction::Left
    } else {
        Direction::Right
    }
}

/// Directions that move along rows.
pub open spec fn horizontal(dir: Direction) -> bool {
    dir == Direction::Left || dir == Direction::Right
}

/// Directions that slide towards the start of a line (the left of a row, the top of a column).
pub open spec fn towards_start(dir: Direction) -> bool {
    dir == Direction::Left || dir == Direction::Up
}

/// Index of cell `j` (0..4) of line `k` (0..4): rows for horizontal moves,
/// columns for vertical ones, read left to right or top to bottom.
pub open spec fn line_index(dir: Direction, k: int, j: int) -> int {
    if horizontal(dir) {
        4 * k + j
    } else {
        4 * j + k
    }
}

/// The line that holds cell `i`.
pub open spec fn line_k(dir: Direction, i: int) -> int {
    if horizontal(dir) {
        i / 4
    } else {
        i % 4
    }
}

/// Position of cell `i` in its line.
pub open spec fn line_j(dir: Direction, i: int) -> int {
    if horizontal(dir) {
        i % 4
    } else {
        i / 4
    }
}

/// Line `k` of a board for a move in `dir`.
pub open spec fn line_of(b: u64, dir: Direction, k: int) -> Seq<u8> {
    Seq::new(4, |j: int| cell(b, line_index(dir, k, j)))
}

/// A line after the move.
pub open spec fn slid(dir: Direction, s: Seq<u8>) -> Seq<u8> {
    if towards_start(dir) {
        slide_left(s)
    } else {
        slide_right(s)
    }
}

/// Points that the move earns on a line.
pub open spec fn line_gain(dir: Direction, s: Seq<u8>) -> nat {
    if towards_start(dir) {
        slide_score(s)
    } else {
        slide_score(s.reverse())
    }
}

/// The board after a move, cell by cell.
pub open spec fn moved_cells(b: u64, dir: Direction) -> Seq<u8> {
    Seq::new(16, |i: int| slid(dir, line_of(b, dir, line_k(dir, i)))[line_j(dir, i)])
}

/// The packed board after a move.
pub open spec fn moved_board(b: u64, dir: Direction) -> u64 {
    choose|h: u64| cells(h) == moved_cells(b, dir)
}

/// Points that a move earns on the whole board.
pub open spec fn move_gain(b: u64, dir: Direction) -> nat {
    line_gain(dir, line_of(b, dir, 0)) + line_gain(dir, line_of(b, dir, 1)) + line_gain(
        dir,
        line_of(b, dir, 2),
    ) + line_gain(dir, line_of(b, dir, 3))
}

/// What a move does to a board.
pub struct MoveOutcome {
    /// The board after the move.
    pub board: u64,
    /// Face value gained by the merges.
    pub score: u32,
    /// Whether the board changed, that is whether the move is legal.
    pub changed: bool,
}

/// Bound of the points of one line.
pub proof fn lemma_slide_score_bound(s: Seq<u8>)
    requires
        s.len() == 4,
        ranks_ok(s),
    ensures
        slide_score(s) <= 65536,
{
    lemma_compact_props(s);
    lemma_merged_props(compact(s));
}

fn line_idx(dir: Direction, k: usize, j: usize) -> (i: usize)
    requires
        k < 4,
        j < 4,
    ensures
        i == line_index(dir, k as int, j as int),
        i < 16,
{
    match dir {
        Direction::Left | Direction::Right => 4 * k + j,
        _ => 4 * j + k,
    }
}

/// Line `k` of a board for a move in `dir`, packed as a 16-bit row.
pub fn read_line(b: u64, dir: Direction, k: usize) -> (r: u16)
    requires
        k < 4,
    ensures
        row_cells(r) == line_of(b, dir, k as int),
{
    let line: [u8; 4] = [
        get_cell(b, line_idx(dir, k, 0)),
        get_cell(b, line_idx(dir, k, 1)),
        get_cell(b, line_idx(dir, k, 2)),
        get_cell(b, line_idx(dir, k, 3)),
    ];
    assert(line@ =~= line_of(b, dir, k as int));
    pack_row(&line)
}

fn mirror(a: &[u8; 4]) -> (m: [u8; 4])
    ensures
        m@ == a@.reverse(),
{
    let m = [a[3], a[2], a[1], a[0]];
    assert(m@ =~= a@.reverse());
    m
}

/// Applies a move: each line goes through the row tables (columns read top to
/// bottom for vertical moves). Returns the new board, the points gained and
/// whether the board changed.
pub fn apply_move(t: &RowTables, b: u64, dir: Direction) -> (r: MoveOutcome)
    requires
        t.wf(),
    ensures
        cells(r.board) == moved_cells(b, dir),
        r.board == moved_board(b, dir),
        r.score as nat == move_gain(b, dir),
        r.changed == (r.board != b),
        !r.changed ==> r.board == b,
{
    let mut nb: u64 = b;
    let mut total: u32 = 0;
    let mut k: usize = 0;
    while k < 4
        invariant
            t.wf(),
            k <= 4,
            forall|i: int|
                0 <= i < 16 ==> #[trigger] cell(nb, i) == if line_k(dir, i) < k {
                    moved_cells(b, dir)[i]
                } else {
                    cell(b, i)
                },
            total <= 65536 * k,
            total as nat == (if k > 0 { line_gain(dir, line_of(b, dir, 0)) } else { 0 }) + (if k
                > 1 {
                line_gain(dir, line_of(b, dir, 1))
            } else {
                0
            }) + (if k > 2 { line_gain(dir, line_of(b, dir, 2)) } else { 0 }) + (if k > 3 {
                line_gain(dir, line_of(b, dir, 3))
            } else {
                0
            }),
        decreases 4 - k,
    {
        let i0 = line_idx(dir, k, 0);
        let i1 = line_idx(dir, k, 1);
        let i2 = line_idx(dir, k, 2);
        let i3 = line_idx(dir, k, 3);
        let line: [u8; 4] = [get_cell(b, i0), get_cell(b, i1), get_cell(b, i2), get_cell(b, i3)];
        proof {
            assert(line@ =~= line_of(b, dir, k as int));
        }
        let row = pack_row(&line);
        let res: u16;
        let sc: u32;
        match dir {
            Direction::Left | Direction::Up => {
                res = t.left(row);
                sc = t.score(row);
            },
            _ => {
                res = t.right(row);
                let m = mirror(&line);
                proof {
                    assert(ranks_ok(m@));
                }
                sc = t.score(pack_row(&m));
            },
        }
        proof {
            lemma_slide_score_bound(line@);
            lemma_slide_score_bound(line@.reverse());
        }
        let out = unpack_row(res);
        assert(out@ == slid(dir, line_of(b, dir, k as int)));
        let ghost prev = nb;
        nb = set_cell(nb, i0, out[0]);
        nb = set_cell(nb, i1, out[1]);
        nb = set_cell(nb, i2, out[2]);
        nb = set_cell(nb, i3, out[3]);
        proof {
            assert forall|i: int| 0 <= i < 16 implies #[trigger] cell(nb, i) == if line_k(dir, i)
                < k + 1 {
                moved_cells(b, dir)[i]
            } else {
                cell(b, i)
            } by {
                if line_k(dir, i) == k {
                    let j = line_j(dir, i);
                    assert(i == line_index(dir, k as int, j));
                    assert(cell(nb, i) == out@[j]);
                } else {
                    assert(i != i0 && i != i1 && i != i2 && i != i3);
                    assert(cell(nb, i) == cell(prev, i));
                }
            }
        }
        total = total + sc;
        k = k + 1;
    }
    proof {
        assert(cells(nb) =~= moved_cells(b, dir));
        lemma_cells_injective(nb, moved_board(b, dir));
    }
    MoveOutcome { board: nb, score: total, changed: nb != b }
}

} // verus!
