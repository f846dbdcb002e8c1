//! Packed boards: sixteen 4-bit ranks in one `u64`, row-major, cell 0 in the low nibble.
use vstd::prelude::*;

verus! {

/// Face value of a rank: `2^r`, and 0 for the empty rank 0.
pub open spec fn pow2(r: nat) -> nat
    decreases r,
{
    if r == 0 {
        1
    } else {
        2 * pow2((r - 1) as nat)
    }
}

/// The rank that the codec reads from a face value: the integer part of its
/// base-2 logarithm, and 0 for an empty cell.
pub open spec fn log2_floor(v: nat) -> nat
    decreases v,
{
    if v <= 1 {
        0
    } else {
        1 + log2_floor(v / 2)
    }
}

/// Rank of the cell `i` (0..16) of a packed board.
pub open spec fn cell(b: u64, i: int) -> u8 {
    ((b >> ((4 * i) as u64)) & 15u64) as u8
}

/// The sixteen ranks of a packed board, row-major.
pub open spec fn cells(b: u64) -> Seq<u8> {
    Seq::new(16, |i: int| cell(b, i))
}

proof fn lemma_cell_bound(b: u64, s: u64)
    ensures
        (b >> s) & 15u64 <= 15,
{
    assert((b >> s) & 15u64 <= 15) by (bit_vector);
}

proof fn lemma_set_nibble(b: u64, s: u64, v: u64, t: u64)
    requires
        v < 16,
        s % 4 == 0,
        t % 4 == 0,
        s < 64,
        t < 64,
    ensures
        ((b & !(15u64 << s)) | (v << s)) >> t & 15u64 == if t == s {
            v
        } else {
            (b >> t) & 15u64
        },
{
    assert(((b & !(15u64 << s)) | (v << s)) >> t & 15u64 == if t == s {
        v
    } else {
        (b >> t) & 15u64
    }) by (bit_vector)
        requires
            v < 16,
            s % 4 == 0,
            t % 4 == 0,
            s < 64,
            t < 64,
    ;
}

spec fn nibble(x: u64, i: int) -> u64 {
    (x >> ((4 * i) as u64)) & 15u64
}

proof fn lemma_nibbles_equal(x: u64, y: u64)
    by (bit_vector)
    requires
        (x >> 0u64) & 15u64 == (y >> 0u64) & 15u64,
        (x >> 4u64) & 15u64 == (y >> 4u64) & 15u64,
        (x >> 8u64) & 15u64 == (y >> 8u64) & 15u64,
        (x >> 12u64) & 15u64 == (y >> 12u64) & 15u64,
        (x >> 16u64) & 15u64 == (y >> 16u64) & 15u64,
        (x >> 20u64) & 15u64 == (y >> 20u64) & 15u64,
        (x >> 24u64) & 15u64 == (y >> 24u64) & 15u64,
        (x >> 28u64) & 15u64 == (y >> 28u64) & 15u64,
        (x >> 32u64) & 15u64 == (y >> 32u64) & 15u64,
        (x >> 36u64) & 15u64 == (y >> 36u64) & 15u64,
        (x >> 40u64) & 15u64 == (y >> 40u64) & 15u64,
        (x >> 44u64) & 15u64 == (y >> 44u64) & 15u64,
        (x >> 48u64) & 15u64 == (y >> 48u64) & 15u64,
        (x >> 52u64) & 15u64 == (y >> 52u64) & 15u64,
        (x >> 56u64) & 15u64 == (y >> 56u64) & 15u64,
        (x >> 60u64) & 15u64 == (y >> 60u64) & 15u64,
    ensures
        x == y,
{
}

/// A packed board is determined by its sixteen ranks.
pub proof fn lemma_cells_injective(x: u64, y: u64)
    requires
        cells(x) == cells(y),
    ensures
        x == y,
{
    assert forall|i: int| 0 <= i < 16 implies #[trigger] nibble(x, i) == nibble(y, i) by {
        assert(cells(x)[i] == cell(x, i));
        assert(cells(y)[i] == cell(y, i));
        assert(cell(x, i) == cell(y, i));
        lemma_cell_bound(x, (4 * i) as u64);
        lemma_cell_bound(y, (4 * i) as u64);
        assert(nibble(x, i) <= 15);
        assert(nibble(x, i) as u8 == cell(x, i));
    }
    assert(nibble(x, 0) == nibble(y, 0));
    assert(nibble(x, 1) == nibble(y, 1));
    assert(nibble(x, 2) == nibble(y, 2));
    assert(nibble(x, 3) == nibble(y, 3));
    assert(nibble(x, 4) == nibble(y, 4));
    assert(nibble(x, 5) == nibble(y, 5));
    assert(nibble(x, 6) == nibble(y, 6));
    assert(nibble(x, 7) == nibble(y, 7));
    assert(nibble(x, 8) == nibble(y, 8));
    assert(nibble(x, 9) == nibble(y, 9));
    assert(nibble(x, 10) == nibble(y, 10));
    assert(nibble(x, 11) == nibble(y, 11));
    assert(nibble(x, 12) == nibble(y, 12));
    assert(nibble(x, 13) == nibble(y, 13));
    assert(nibble(x, 14) == nibble(y, 14));
    assert(nibble(x, 15) == nibble(y, 15));
    lemma_nibbles_equal(x, y);
}

/// Rank held by cell `i`.
pub fn get_cell(b: u64, i: usize) -> (r: u8)
    requires
        i < 16,
    ensures
        r == cell(b, i as int),
        r <= 15,
{
    proof {
        lemma_cell_bound(b, (4 * i) as u64);
    }
    ((b >> ((4 * i) as u64)) & 15u64) as u8
}

/// The board `b` with cell `i` set to rank `v`.
pub open spec fn with_cell(b: u64, i: int, v: u8) -> u64 {
    (b & !(15u64 << ((4 * i) as u64))) | ((v as u64) << ((4 * i) as u64))
}

/// The board with cell `i` set to rank `v` and every other cell kept.
pub fn set_cell(b: u64, i: usize, v: u8) -> (r: u64)
    requires
        i < 16,
        v <= 15,
    ensures
        r == with_cell(b, i as int, v),
        cell(r, i as int) == v,
        forall|j: int| 0 <= j < 16 && j != i ==> cell(r, j) == cell(b, j),
        cells(r) == cells(b).update(i as int, v),
{
    let s: u64 = (4 * i) as u64;
    let r = (b & !(15u64 << s)) | ((v as u64) << s);
    proof {
        assert forall|j: int| 0 <= j < 16 implies cell(r, j) == if j == i {
            v
        } else {
            cell(b, j)
        } by {
            lemma_set_nibble(b, s, v as u64, (4 * j) as u64);
        }
        assert(cells(r) =~= cells(b).update(i as int, v));
    }
    r
}

/// Rank of a face value: the integer part of its base-2 logarithm (0 for an
/// empty cell). Exact for the powers of two that boards hold.
pub fn rank_of(v: u16) -> (r: u8)
    ensures
        r as nat == log2_floor(v as nat),
        r <= 15,
{
    let mut x: u16 = v;
    let mut r: u8 = 0;
    assert(pow2(0) == 1);
    while x > 1
        invariant
            1 <= v ==> 1 <= x,
            x <= v,
            r as nat + log2_floor(x as nat) == log2_floor(v as nat),
            (x as nat) * pow2(r as nat) <= v as nat,
            r <= 15,
            x as nat * pow2(r as nat) < 65536,
        decreases x,
    {
        proof {
            assert(pow2((r + 1) as nat) == 2 * pow2(r as nat));
            assert((x / 2) as nat * pow2((r + 1) as nat) <= x as nat * pow2(r as nat)) by (nonlinear_arith)
                requires
                    pow2((r + 1) as nat) == 2 * pow2(r as nat),
            ;
            lemma_pow2_ge(r as nat);
            assert(x >= 2);
            assert(pow2((r + 1) as nat) < 65536) by (nonlinear_arith)
                requires
                    pow2((r + 1) as nat) == 2 * pow2(r as nat),
                    x as nat * pow2(r as nat) < 65536,
                    x >= 2,
            ;
            lemma_pow2_bound((r + 1) as nat);
        }
        x = x / 2;
        r = r + 1;
    }
    r
}

pub(crate) proof fn lemma_pow2_ge(r: nat)
    ensures
        pow2(r) >= 1,
    decreases r,
{
    if r > 0 {
        lemma_pow2_ge((r - 1) as nat);
    }
}

proof fn lemma_pow2_bound(r: nat)
    requires
        pow2(r) < 65536,
    ensures
        r <= 15,
    decreases r,
{
    if r > 15 {
        lemma_pow2_mono(16, r);
        reveal_with_fuel(pow2, 17);
    }
}

pub(crate) proof fn lemma_pow2_mono(a: nat, b: nat)
    requires
        a <= b,
    ensures
        pow2(a) <= pow2(b),
    decreases b,
{
    if a < b {
        lemma_pow2_mono(a, (b - 1) as nat);
        lemma_pow2_ge((b - 1) as nat);
    }
}

/// The ranks of a grid of face values, row-major.
pub open spec fn grid_cells(board: [[u16; 4]; 4]) -> Seq<u8> {
    Seq::new(16, |i: int| log2_floor(board[i / 4][i % 4] as nat) as u8)
}

/// Packs a grid of face values into a board: cell `(r, c)` holds the rank of
/// `board[r][c]`.
pub fn board_hash(board: &[[u16; 4]; 4]) -> (h: u64)
    ensures
        cells(h) == grid_cells(*board),
        forall|r: int, c: int|
            0 <= r < 4 && 0 <= c < 4 ==> cell(h, 4 * r + c) as nat == log2_floor(
                board[r][c] as nat,
            ),
{
    let mut h: u64 = 0;
    proof {
        assert forall|j: int| 0 <= j < 16 implies cell(0u64, j) == 0 by {
            let t = (4 * j) as u64;
            assert((0u64 >> t) & 15u64 == 0) by (bit_vector);
        }
    }
    let mut r: usize = 0;
    while r < 4
        invariant
            r <= 4,
            forall|j: int| 4 * r <= j < 16 ==> cell(h, j) == 0,
            forall|rr: int, c: int|
                0 <= rr < r && 0 <= c < 4 ==> cell(h, 4 * rr + c) as nat == log2_floor(
                    board[rr][c] as nat,
                ),
        decreases 4 - r,
    {
        let mut c: usize = 0;
        while c < 4
            invariant
                r < 4,
                c <= 4,
                forall|j: int| 4 * r + c <= j < 16 ==> cell(h, j) == 0,
                forall|rr: int, cc: int|
                    (0 <= rr < r && 0 <= cc < 4) || (rr == r && 0 <= cc < c) ==> cell(
                        h,
                        4 * rr + cc,
                    ) as nat == log2_floor(board[rr][cc] as nat),
            decreases 4 - c,
        {
            let k = rank_of(board[r][c]);
            h = set_cell(h, 4 * r + c, k);
            c = c + 1;
        }
        r = r + 1;
    }
    proof {
        assert forall|i: int| 0 <= i < 16 implies #[trigger] cells(h)[i] == grid_cells(*board)[i] by {
            let rr = i / 4;
            let cc = i % 4;
            assert(i == 4 * rr + cc);
            lemma_log2_small(board[rr][cc] as nat);
        }
        assert(cells(h) =~= grid_cells(*board));
    }
    h
}

proof fn lemma_log2_small(v: nat)
    requires
        v < 65536,
    ensures
        log2_floor(v) <= 15,
{
    reveal_with_fuel(pow2, 17);
    lemma_log2_bound(v, 16);
}

proof fn lemma_log2_bound(v: nat, k: nat)
    requires
        v < pow2(k),
        k >= 1,
    ensures
        log2_floor(v) < k,
    decreases k,
{
    if v > 1 {
        if k == 1 {
            reveal_with_fuel(pow2, 2);
        } else {
            lemma_log2_bound(v / 2, (k - 1) as nat);
        }
    }
}

} // verus!
