//! One line of four cells: sliding it towards its start, and the score of the merges.
use vstd::prelude::*;
use crate::board::{pow2, lemma_pow2_mono};

verus! {

/// Rank of the cell `j` (0..4) of a 16-bit row, cell 0 in the low nibble.
pub open spec fn row_cell(r: u16, j: int) -> u8 {
    ((r >> ((4 * j) as u16)) & 15u16) as u8
}

/// The four ranks of a 16-bit row.
pub open spec fn row_cells(r: u16) -> Seq<u8> {
    Seq::new(4, |j: int| row_cell(r, j))
}

/// The non-empty ranks of a line, in order.
pub open spec fn compact(s: Seq<u8>) -> Seq<u8>
    decreases s.len(),
{
    if s.len() == 0 {
        s
    } else if s.last() == 0 {
        compact(s.drop_last())
    } else {
        compact(s.drop_last()).push(s.last())
    }
}

/// Rank of the tile that two tiles of rank `r` merge into, capped at 15.
pub open spec fn bump(r: u8) -> u8 {
    if r < 15 {
        (r + 1) as u8
    } else {
        15
    }
}

/// Merges, from the start, each pair of equal neighbours of a compacted line.
pub open spec fn merged(s: Seq<u8>) -> Seq<u8>
    decreases s.len(),
{
    if s.len() >= 2 && s[0] == s[1] {
        seq![bump(s[0])] + merged(s.subrange(2, s.len() as int))
    } else if s.len() >= 1 {
        seq![s[0]] + merged(s.drop_first())
    } else {
        s
    }
}

/// Sum of the face values of the tiles that `merged` creates.
pub open spec fn merge_gain(s: Seq<u8>) -> nat
    decreases s.len(),
{
    if s.len() >= 2 && s[0] == s[1] {
        pow2(bump(s[0]) as nat) + merge_gain(s.subrange(2, s.len() as int))
    } else if s.len() >= 1 {
        merge_gain(s.drop_first())
    } else {
        0
    }
}

/// A line filled up with empty cells to length 4.
pub open spec fn pad4(s: Seq<u8>) -> Seq<u8> {
    s + Seq::new((4 - s.len()) as nat, |i: int| 0u8)
}

/// A line after sliding towards its start: compacted, merged, filled with empty cells.
pub open spec fn slide_left(s: Seq<u8>) -> Seq<u8> {
    pad4(merged(compact(s)))
}

/// A line after sliding towards its end: the mirror of the left slide of its mirror.
pub open spec fn slide_right(s: Seq<u8>) -> Seq<u8> {
    slide_left(s.reverse()).reverse()
}

/// Points that a left slide of the line earns.
pub open spec fn slide_score(s: Seq<u8>) -> nat {
    merge_gain(compact(s))
}

/// Every rank of the line is at most 15.
pub open spec fn ranks_ok(s: Seq<u8>) -> bool {
    forall|i: int| 0 <= i < s.len() ==> s[i] <= 15
}

pub proof fn lemma_compact_props(s: Seq<u8>)
    ensures
        compact(s).len() <= s.len(),
        ranks_ok(s) ==> ranks_ok(compact(s)),
        forall|i: int| 0 <= i < compact(s).len() ==> compact(s)[i] != 0,
    decreases s.len(),
{
    if s.len() > 0 {
        lemma_compact_props(s.drop_last());
    }
}

pub proof fn lemma_merged_props(s: Seq<u8>)
    requires
        ranks_ok(s),
    ensures
        merged(s).len() <= s.len(),
        ranks_ok(merged(s)),
        merge_gain(s) <= 16384 * s.len(),
    decreases s.len(),
{
    if s.len() >= 2 && s[0] == s[1] {
        let t = s.subrange(2, s.len() as int);
        lemma_merged_props(t);
        lemma_pow2_mono(bump(s[0]) as nat, 15);
        reveal_with_fuel(pow2, 16);
        assert(merged(s) =~= seq![bump(s[0])] + merged(t));
    } else if s.len() >= 1 {
        lemma_merged_props(s.drop_first());
        assert(merged(s) =~= seq![s[0]] + merged(s.drop_first()));
    }
}

proof fn lemma_row_nibbles(a: u16, b: u16, c: u16, d: u16)
    by (bit_vector)
    requires
        a < 16,
        b < 16,
        c < 16,
        d < 16,
    ensures
        (a | (b << 4u16) | (c << 8u16) | (d << 12u16)) >> 0u16 & 15u16 == a,
        (a | (b << 4u16) | (c << 8u16) | (d << 12u16)) >> 4u16 & 15u16 == b,
        (a | (b << 4u16) | (c << 8u16) | (d << 12u16)) >> 8u16 & 15u16 == c,
        (a | (b << 4u16) | (c << 8u16) | (d << 12u16)) >> 12u16 & 15u16 == d,
{
}

/// The cells of a 16-bit row are ranks.
pub proof fn lemma_row_cells_ok(r: u16)
    ensures
        ranks_ok(row_cells(r)),
        row_cells(r).len() == 4,
{
    assert forall|j: int| 0 <= j < 4 implies #[trigger] row_cells(r)[j] <= 15 by {
        let s = (4 * j) as u16;
        assert((r >> s) & 15u16 <= 15) by (bit_vector);
    }
}

/// Bounds of the fall from one rank to the next.
pub proof fn lemma_descent_bounds(a: u8, b: u8)
    requires
        a <= 15,
        b <= 15,
    ensures
        0 <= descent(a, b) <= 50625,
{
    if a > b {
        assert(pow4(a) >= pow4(b) && pow4(a) <= 50625 && pow4(b) >= 0) by (nonlinear_arith)
            requires
                a > b,
                a <= 15,
        ;
    }
}

/// Packs four ranks into a 16-bit row.
pub fn pack_row(s: &[u8; 4]) -> (r: u16)
    requires
        ranks_ok(s@),
    ensures
        row_cells(r) == s@,
{
    let a = s[0] as u16;
    let b = s[1] as u16;
    let c = s[2] as u16;
    let d = s[3] as u16;
    let r = a | (b << 4u16) | (c << 8u16) | (d << 12u16);
    proof {
        lemma_row_nibbles(a, b, c, d);
        assert(row_cells(r) =~= s@);
    }
    r
}

/// The four ranks of a 16-bit row.
pub fn unpack_row(r: u16) -> (s: [u8; 4])
    ensures
        s@ == row_cells(r),
        ranks_ok(s@),
{
    let s = [
        (r & 15u16) as u8,
        ((r >> 4u16) & 15u16) as u8,
        ((r >> 8u16) & 15u16) as u8,
        ((r >> 12u16) & 15u16) as u8,
    ];
    proof {
        assert(r & 15u16 <= 15 && r >> 0u16 == r) by (bit_vector);
        assert((r >> 4u16) & 15u16 <= 15) by (bit_vector);
        assert((r >> 8u16) & 15u16 <= 15) by (bit_vector);
        assert((r >> 12u16) & 15u16 <= 15) by (bit_vector);
        assert(s@ =~= row_cells(r));
    }
    s
}

/// The non-empty ranks of a line, in order.
fn compact_line(line: &[u8; 4]) -> (t: Vec<u8>)
    requires
        ranks_ok(line@),
    ensures
        t@ == compact(line@),
        t@.len() <= 4,
        ranks_ok(t@),
{
    let mut t: Vec<u8> = Vec::new();
    let mut i: usize = 0;
    while i < 4
        invariant
            i <= 4,
            t@ == compact(line@.subrange(0, i as int)),
        decreases 4 - i,
    {
        proof {
            let p = line@.subrange(0, i as int + 1);
            assert(p.drop_last() =~= line@.subrange(0, i as int));
        }
        if line[i] != 0 {
            t.push(line[i]);
        }
        i = i + 1;
    }
    proof {
        assert(line@.subrange(0, 4) =~= line@);
        lemma_compact_props(line@);
    }
    t
}

/// Merges each pair of equal neighbours of a compacted line, from its start.
fn merge_line(t: &Vec<u8>) -> (res: (Vec<u8>, u32))
    requires
        t@.len() <= 4,
        ranks_ok(t@),
    ensures
        res.0@ == merged(t@),
        res.1 as nat == merge_gain(t@),
{
    let n = t.len();
    let mut out: Vec<u8> = Vec::new();
    let mut score: u32 = 0;
    let mut i: usize = 0;
    proof {
        assert(t@.subrange(0, n as int) =~= t@);
        lemma_merged_props(t@);
    }
    while i < n
        invariant
            n == t@.len(),
            n <= 4,
            i <= n,
            ranks_ok(t@),
            merged(t@) == out@ + merged(t@.subrange(i as int, n as int)),
            merge_gain(t@) == score + merge_gain(t@.subrange(i as int, n as int)),
            merge_gain(t@) <= 16384 * 4,
        decreases n - i,
    {
        let ghost rest = t@.subrange(i as int, n as int);
        proof {
            assert forall|k: int| 0 <= k < rest.len() implies rest[k] <= 15 by {
                assert(rest[k] == t@[i + k]);
            }
            lemma_merged_props(rest);
        }
        if i + 1 < n && t[i] == t[i + 1] {
            let m: u8 = if t[i] < 15 {
                t[i] + 1
            } else {
                15
            };
            proof {
                assert(rest.subrange(2, rest.len() as int) =~= t@.subrange(i + 2, n as int));
                assert(out@.push(m) + merged(t@.subrange(i + 2, n as int)) =~= out@ + (seq![m]
                    + merged(t@.subrange(i + 2, n as int))));
                lemma_pow2_mono(m as nat, 15);
                reveal_with_fuel(pow2, 16);
                lemma_merged_props(t@.subrange(i + 2, n as int));
            }
            let g = pow2_u32(m);
            out.push(m);
            score = score + g;
            i = i + 2;
        } else {
            proof {
                assert(rest.drop_first() =~= t@.subrange(i + 1, n as int));
                assert(out@.push(t[i as int]) + merged(t@.subrange(i + 1, n as int)) =~= out@ + (
                seq![t[i as int]] + merged(t@.subrange(i + 1, n as int))));
            }
            out.push(t[i]);
            i = i + 1;
        }
    }
    proof {
        assert(t@.subrange(n as int, n as int) =~= Seq::<u8>::empty());
        assert(out@ + Seq::<u8>::empty() =~= out@);
    }
    (out, score)
}

/// Face value `2^r` of a rank of at most 15.
pub fn pow2_u32(r: u8) -> (v: u32)
    requires
        r <= 15,
    ensures
        v as nat == pow2(r as nat),
        v <= 32768,
{
    let mut v: u32 = 1;
    let mut k: u8 = 0;
    proof {
        reveal_with_fuel(pow2, 16);
    }
    while k < r
        invariant
            k <= r,
            r <= 15,
            v as nat == pow2(k as nat),
            v <= 32768,
            pow2(k as nat) <= pow2(15),
        decreases r - k,
    {
        proof {
            lemma_pow2_mono((k + 1) as nat, 15);
            reveal_with_fuel(pow2, 16);
        }
        v = v * 2;
        k = k + 1;
    }
    v
}

/// Slides a line towards its start, merging equal neighbours once each.
/// Returns the new line and the face value gained by the merges.
pub fn slide_line(line: &[u8; 4]) -> (res: ([u8; 4], u32))
    requires
        ranks_ok(line@),
    ensures
        res.0@ == slide_left(line@),
        res.1 as nat == slide_score(line@),
        ranks_ok(res.0@),
{
    let t = compact_line(line);
    let (m, score) = merge_line(&t);
    proof {
        lemma_merged_props(t@);
    }
    let mut out: [u8; 4] = [0u8; 4];
    let mut i: usize = 0;
    while i < m.len()
        invariant
            m@.len() <= 4,
            i <= m@.len(),
            ranks_ok(m@),
            forall|k: int| 0 <= k < i ==> out@[k] == m@[k],
            forall|k: int| i <= k < 4 ==> out@[k] == 0,
        decreases m@.len() - i,
    {
        out[i] = m[i];
        i = i + 1;
    }
    proof {
        assert(out@ =~= pad4(m@));
    }
    (out, score)
}

/// Baseline of every line's heuristic score.
pub const LOST_BASE: i64 = 200000;
/// Reward per empty cell of a line.
pub const EMPTY_WEIGHT: i64 = 270;
/// Reward per tile of a line that has an equal neighbour once the line is compacted.
pub const MERGE_WEIGHT: i64 = 700;
/// Penalty per unit of the smaller of the two monotonicity gradients (ranks to the fourth power).
pub const MONO_WEIGHT: i64 = 47;
/// Penalty per unit of the sum of the cubes of the ranks.
pub const SUM_WEIGHT: i64 = 11;

pub open spec fn pow4(r: u8) -> int {
    (r as int) * (r as int) * (r as int) * (r as int)
}

pub open spec fn cube(r: u8) -> int {
    (r as int) * (r as int) * (r as int)
}

/// How much the line falls from `a` to the next cell `b` (in fourth powers of ranks).
pub open spec fn descent(a: u8, b: u8) -> int {
    if a > b {
        pow4(a) - pow4(b)
    } else {
        0
    }
}

/// Gradient of a line read from its start: the sum of its falls.
pub open spec fn mono_left(s: Seq<u8>) -> int {
    descent(s[0], s[1]) + descent(s[1], s[2]) + descent(s[2], s[3])
}

/// Gradient of a line read from its end: the sum of its rises.
pub open spec fn mono_right(s: Seq<u8>) -> int {
    descent(s[1], s[0]) + descent(s[2], s[1]) + descent(s[3], s[2])
}

pub open spec fn is_empty_cell(r: u8) -> int {
    if r == 0 {
        1
    } else {
        0
    }
}

/// Number of empty cells of a line of four.
pub open spec fn line_empties(s: Seq<u8>) -> int {
    is_empty_cell(s[0]) + is_empty_cell(s[1]) + is_empty_cell(s[2]) + is_empty_cell(s[3])
}

/// Sum of the cubes of the ranks of a line of four.
pub open spec fn cube_sum(s: Seq<u8>) -> int {
    cube(s[0]) + cube(s[1]) + cube(s[2]) + cube(s[3])
}

/// Position `j` of `c` has an equal neighbour.
pub open spec fn paired(c: Seq<u8>, j: int) -> bool {
    (j > 0 && c[j - 1] == c[j]) || (j + 1 < c.len() && c[j + 1] == c[j])
}

/// Number of positions below `n` that have an equal neighbour.
pub open spec fn paired_below(c: Seq<u8>, n: int) -> nat
    decreases n,
{
    if n <= 0 {
        0
    } else {
        paired_below(c, n - 1) + if paired(c, n - 1) { 1nat } else { 0nat }
    }
}

/// Tiles of the line that belong to a run of two or more equal tiles, empty
/// cells skipped: a run of `k` tiles counts `k`.
pub open spec fn merge_count(s: Seq<u8>) -> nat {
    paired_below(compact(s), compact(s).len() as int)
}

pub open spec fn min_int(a: int, b: int) -> int {
    if a <= b {
        a
    } else {
        b
    }
}

/// Heuristic score of a line of four.
pub open spec fn row_heuristic(s: Seq<u8>) -> int {
    LOST_BASE + EMPTY_WEIGHT * line_empties(s) + MERGE_WEIGHT * merge_count(s) - MONO_WEIGHT
        * min_int(mono_left(s), mono_right(s)) - SUM_WEIGHT * cube_sum(s)
}

proof fn lemma_pow_bounds(r: u8)
    requires
        r <= 15,
    ensures
        0 <= cube(r) <= 3375,
        0 <= pow4(r) <= 50625,
{
    assert(0 <= cube(r) <= 3375) by (nonlinear_arith)
        requires
            r <= 15,
    ;
    assert(0 <= pow4(r) <= 50625) by (nonlinear_arith)
        requires
            r <= 15,
    ;
}

fn pow4_of(r: u8) -> (v: i64)
    requires
        r <= 15,
    ensures
        v == pow4(r),
{
    proof {
        lemma_pow_bounds(r);
    }
    let x = r as i64;
    assert(0 <= x * x <= 225 && 0 <= x * x * x <= 3375) by (nonlinear_arith)
        requires
            0 <= x <= 15,
    ;
    x * x * x * x
}

fn cube_of(r: u8) -> (v: i64)
    requires
        r <= 15,
    ensures
        v == cube(r),
{
    proof {
        lemma_pow_bounds(r);
    }
    let x = r as i64;
    assert(0 <= x * x <= 225) by (nonlinear_arith)
        requires
            0 <= x <= 15,
    ;
    x * x * x
}

fn descent_of(a: u8, b: u8) -> (v: i64)
    requires
        a <= 15,
        b <= 15,
    ensures
        v == descent(a, b),
        0 <= v <= 50625,
{
    proof {
        lemma_pow_bounds(a);
        lemma_pow_bounds(b);
        if a > b {
            assert(pow4(a) >= pow4(b)) by (nonlinear_arith)
                requires
                    a > b,
            ;
        }
    }
    if a > b {
        pow4_of(a) - pow4_of(b)
    } else {
        0
    }
}

/// Number of tiles of a compacted line that have an equal neighbour.
fn count_paired(t: &Vec<u8>) -> (n: u32)
    requires
        t@.len() <= 4,
    ensures
        n as nat == paired_below(t@, t@.len() as int),
        n <= 4,
{
    let len = t.len();
    let mut n: u32 = 0;
    let mut j: usize = 0;
    while j < len
        invariant
            len == t@.len(),
            len <= 4,
            j <= len,
            n as nat == paired_below(t@, j as int),
            n <= j,
        decreases len - j,
    {
        if (j > 0 && t[j - 1] == t[j]) || (j + 1 < len && t[j + 1] == t[j]) {
            n = n + 1;
        }
        j = j + 1;
    }
    n
}

/// Heuristic score of a line: baseline, plus the empty cells and the tiles
/// ready to merge, minus the smaller monotonicity gradient and the sum of cubes.
pub fn line_heuristic(line: &[u8; 4]) -> (h: i64)
    requires
        ranks_ok(line@),
    ensures
        h == row_heuristic(line@),
{
    let mut empties: i64 = 0;
    let mut cubes: i64 = 0;
    let mut i: usize = 0;
    while i < 4
        invariant
            i <= 4,
            ranks_ok(line@),
            0 <= empties <= i,
            0 <= cubes <= 3375 * i,
            empties == (if i > 0 { is_empty_cell(line@[0]) } else { 0 }) + (if i > 1 {
                is_empty_cell(line@[1])
            } else {
                0
            }) + (if i > 2 { is_empty_cell(line@[2]) } else { 0 }) + (if i > 3 {
                is_empty_cell(line@[3])
            } else {
                0
            }),
            cubes == (if i > 0 { cube(line@[0]) } else { 0 }) + (if i > 1 {
                cube(line@[1])
            } else {
                0
            }) + (if i > 2 { cube(line@[2]) } else { 0 }) + (if i > 3 {
                cube(line@[3])
            } else {
                0
            }),
        decreases 4 - i,
    {
        proof {
            lemma_pow_bounds(line@[i as int]);
        }
        if line[i] == 0 {
            empties = empties + 1;
        }
        cubes = cubes + cube_of(line[i]);
        i = i + 1;
    }
    let ml = descent_of(line[0], line[1]) + descent_of(line[1], line[2]) + descent_of(
        line[2],
        line[3],
    );
    let mr = descent_of(line[1], line[0]) + descent_of(line[2], line[1]) + descent_of(
        line[3],
        line[2],
    );
    let mono = if ml <= mr {
        ml
    } else {
        mr
    };
    let t = compact_line(line);
    let merges = count_paired(&t) as i64;
    LOST_BASE + EMPTY_WEIGHT * empties + MERGE_WEIGHT * merges - MONO_WEIGHT * mono - SUM_WEIGHT
        * cubes
}

} // verus!
