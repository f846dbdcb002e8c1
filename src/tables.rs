//! Lookup tables indexed by a 16-bit row: slide results, merge score and heuristic score.
use vstd::prelude::*;
use crate::row::{
    compact, cube, cube_sum, lemma_compact_props, lemma_descent_bounds, lemma_row_cells_ok,
    line_empties, line_heuristic, merge_count, min_int, mono_left, mono_right, pack_row,
    paired_below, pow4, ranks_ok, row_cells, row_heuristic, slide_left, slide_line, slide_right,
    slide_score, unpack_row, EMPTY_WEIGHT, LOST_BASE, MERGE_WEIGHT, MONO_WEIGHT, SUM_WEIGHT,
};

verus! {

/// Number of distinct 16-bit rows.
pub const ROW_COUNT: usize = 65536;

/// Smallest heuristic score of a line.
pub const HEUR_MIN: i64 = -7086625;
/// Largest heuristic score of a line.
pub const HEUR_MAX: i64 = 203880;

/// The row tables: for every 16-bit row, its left slide, its right slide, the
/// score of its left slide and its heuristic score. Built once, read-only after.
pub struct RowTables {
    left: Vec<u16>,
    right: Vec<u16>,
    score: Vec<u32>,
    heur: Vec<i64>,
}

/// The row whose cells are those of `r` in the opposite order.
pub open spec fn mirrored(r: u16) -> Seq<u8> {
    row_cells(r).reverse()
}

proof fn lemma_paired_below_le(c: Seq<u8>, n: int)
    ensures
        paired_below(c, n) <= if n < 0 { 0 } else { n },
    decreases n,
{
    if n > 0 {
        lemma_paired_below_le(c, n - 1);
    }
}

/// Bounds of the heuristic score of a line of four ranks.
pub proof fn lemma_row_heuristic_bounds(s: Seq<u8>)
    requires
        s.len() == 4,
        ranks_ok(s),
    ensures
        HEUR_MIN <= row_heuristic(s) <= HEUR_MAX,
{
    lemma_compact_props(s);
    lemma_paired_below_le(compact(s), compact(s).len() as int);
    assert forall|i: int| 0 <= i < 4 implies 0 <= cube(#[trigger] s[i]) <= 3375 && 0 <= pow4(s[i]) <= 50625 by {
        let r = s[i];
        assert(0 <= cube(r) <= 3375) by (nonlinear_arith)
            requires
                r <= 15,
        ;
        assert(0 <= pow4(r) <= 50625) by (nonlinear_arith)
            requires
                r <= 15,
        ;
    }
    lemma_descent_bounds(s[0], s[1]);
    lemma_descent_bounds(s[1], s[2]);
    lemma_descent_bounds(s[2], s[3]);
    lemma_descent_bounds(s[1], s[0]);
    lemma_descent_bounds(s[2], s[1]);
    lemma_descent_bounds(s[3], s[2]);
    let m = min_int(mono_left(s), mono_right(s));
    assert(0 <= m <= 3 * 50625);
    let e = line_empties(s);
    let k = merge_count(s) as int;
    let c = cube_sum(s);
    assert(0 <= e <= 4 && 0 <= k <= 4 && 0 <= c <= 13500);
    assert(HEUR_MIN <= row_heuristic(s) <= HEUR_MAX) by (nonlinear_arith)
        requires
            0 <= e <= 4,
            0 <= k <= 4,
            0 <= c <= 13500,
            0 <= m <= 3 * 50625,
            row_heuristic(s) == LOST_BASE + EMPTY_WEIGHT * e + MERGE_WEIGHT * k - MONO_WEIGHT
                * m - SUM_WEIGHT * c,
    ;
}

fn mirror_line(a: &[u8; 4]) -> (m: [u8; 4])
    ensures
        m@ == a@.reverse(),
{
    let m = [a[3], a[2], a[1], a[0]];
    assert(m@ =~= a@.reverse());
    m
}

impl RowTables {
    /// Every entry of the four tables holds the value of its row.
    pub closed spec fn wf(&self) -> bool {
        &&& self.left@.len() == ROW_COUNT
        &&& self.right@.len() == ROW_COUNT
        &&& self.score@.len() == ROW_COUNT
        &&& self.heur@.len() == ROW_COUNT
        &&& forall|r: u16| #[trigger]
            row_cells(self.left@[r as int]) == slide_left(row_cells(r))
        &&& forall|r: u16| #[trigger]
            row_cells(self.right@[r as int]) == slide_right(row_cells(r))
        &&& forall|r: u16| #[trigger] self.score@[r as int] as nat == slide_score(row_cells(r))
        &&& forall|r: u16| #[trigger] self.heur@[r as int] as int == row_heuristic(row_cells(r))
    }

    /// The left-slide entry of row `r`.
    pub closed spec fn left_entry(&self, r: u16) -> u16 {
        self.left@[r as int]
    }

    /// The right-slide entry of row `r`.
    pub closed spec fn right_entry(&self, r: u16) -> u16 {
        self.right@[r as int]
    }

    /// Builds the four tables over all 16-bit rows.
    pub fn new() -> (t: RowTables)
        ensures
            t.wf(),
    {
        let mut left: Vec<u16> = Vec::with_capacity(ROW_COUNT);
        let mut right: Vec<u16> = Vec::with_capacity(ROW_COUNT);
        let mut score: Vec<u32> = Vec::with_capacity(ROW_COUNT);
        let mut heur: Vec<i64> = Vec::with_capacity(ROW_COUNT);
        let mut r: usize = 0;
        while r < ROW_COUNT
            invariant
                r <= ROW_COUNT,
                left@.len() == r,
                right@.len() == r,
                score@.len() == r,
                heur@.len() == r,
                forall|q: u16|
                    (q as int) < r ==> #[trigger] row_cells(left@[q as int]) == slide_left(
                        row_cells(q),
                    ),
                forall|q: u16|
                    (q as int) < r ==> #[trigger] row_cells(right@[q as int]) == slide_right(
                        row_cells(q),
                    ),
                forall|q: u16|
                    (q as int) < r ==> #[trigger] score@[q as int] as nat == slide_score(
                        row_cells(q),
                    ),
                forall|q: u16|
                    (q as int) < r ==> #[trigger] heur@[q as int] as int == row_heuristic(
                        row_cells(q),
                    ),
            decreases ROW_COUNT - r,
        {
            let row = r as u16;
            let cells = unpack_row(row);
            let (l, s) = slide_line(&cells);
            let m = mirror_line(&cells);
            proof {
                assert(ranks_ok(m@));
            }
            let (ml, _) = slide_line(&m);
            let rl = mirror_line(&ml);
            proof {
                assert(ranks_ok(rl@));
            }
            left.push(pack_row(&l));
            right.push(pack_row(&rl));
            score.push(s);
            heur.push(line_heuristic(&cells));
            r = r + 1;
        }
        RowTables { left, right, score, heur }
    }

    /// The row that a left slide makes of row `r`.
    pub fn left(&self, r: u16) -> (x: u16)
        requires
            self.wf(),
        ensures
            row_cells(x) == slide_left(row_cells(r)),
            x == self.left_entry(r),
    {
        self.left[r as usize]
    }

    /// The row that a right slide makes of row `r`.
    pub fn right(&self, r: u16) -> (x: u16)
        requires
            self.wf(),
        ensures
            row_cells(x) == slide_right(row_cells(r)),
            x == self.right_entry(r),
    {
        self.right[r as usize]
    }

    /// Face value gained by the merges of a left slide of row `r`.
    pub fn score(&self, r: u16) -> (x: u32)
        requires
            self.wf(),
        ensures
            x as nat == slide_score(row_cells(r)),
    {
        self.score[r as usize]
    }

    /// Heuristic score of row `r`.
    pub fn heuristic(&self, r: u16) -> (x: i64)
        requires
            self.wf(),
        ensures
            x as int == row_heuristic(row_cells(r)),
            HEUR_MIN <= x <= HEUR_MAX,
    {
        proof {
            lemma_row_cells_ok(r);
            lemma_row_heuristic_bounds(row_cells(r));
        }
        self.heur[r as usize]
    }
}

/// Direction symmetry: the right-slide entry of any row is the mirror image of
/// the left-slide entry of the mirrored row.
pub proof fn lemma_right_slide_mirrors_left(t: &RowTables, r: u16, m: u16)
    requires
        t.wf(),
        row_cells(m) == mirrored(r),
    ensures
        row_cells(t.right_entry(r)) == row_cells(t.left_entry(m)).reverse(),
{
    assert(row_cells(t.right@[r as int]) == slide_right(row_cells(r)));
    assert(row_cells(t.left@[m as int]) == slide_left(row_cells(m)));
    assert(slide_left(row_cells(r).reverse()).reverse().reverse() =~= slide_left(
        row_cells(r).reverse(),
    ));
}

} // verus!
