//! Expectimax search: move states, spawn states, and the ranking of the moves of a board.
use vstd::prelude::*;
use crate::board::{
    board_hash, cell, cells, get_cell, grid_cells, lemma_cells_injective, set_cell, with_cell,
};
use crate::cache::{stored, usable, TranspositionCache};
use crate::eval::{evaluate, evaluation, EVAL_MIN};
use crate::moves::{apply_move, direction_at, move_gain, moved_board, moved_cells, Direction};
use crate::tables::RowTables;
use vstd::arithmetic::div_mod::lemma_hoist_over_denominator;

verus! {

/// Most empty cells that a spawn state branches on.
pub const MAX_CHANCE_CELLS: usize = 6;

/// Least depth that the adaptive policy raises a search to.
pub const ADAPTIVE_FLOOR: u32 = 2;

pub open spec fn occupied(b: u64, i: int) -> nat {
    if cell(b, i) != 0 {
        1
    } else {
        0
    }
}

/// Number of occupied orthogonal neighbours of cell `i`.
pub open spec fn occupied_neighbours(b: u64, i: int) -> nat {
    (if i >= 4 { occupied(b, i - 4) } else { 0 }) + (if i < 12 { occupied(b, i + 4) } else { 0 })
        + (if i % 4 > 0 { occupied(b, i - 1) } else { 0 }) + (if i % 4 < 3 {
        occupied(b, i + 1)
    } else {
        0
    })
}

/// Empty cells below `n` with exactly `a` occupied neighbours, in scan order.
pub open spec fn empties_with(b: u64, a: nat, n: int) -> Seq<u8>
    decreases n,
{
    if n <= 0 {
        Seq::empty()
    } else if cell(b, n - 1) == 0 && occupied_neighbours(b, n - 1) == a {
        empties_with(b, a, n - 1).push((n - 1) as u8)
    } else {
        empties_with(b, a, n - 1)
    }
}

/// The empty cells with at least `a` occupied neighbours, most first, ties in scan order.
pub open spec fn exposure_from(b: u64, a: int) -> Seq<u8>
    decreases 5 - a,
{
    if a >= 5 || a < 0 {
        Seq::empty()
    } else {
        exposure_from(b, a + 1) + empties_with(b, a as nat, 16)
    }
}

/// The empty cells, most occupied neighbours first, ties in scan order.
pub open spec fn exposure_order(b: u64) -> Seq<u8> {
    exposure_from(b, 0)
}

proof fn lemma_empties_with_cells(b: u64, a: nat, n: int)
    requires
        n <= 16,
    ensures
        forall|k: int|
            0 <= k < empties_with(b, a, n).len() ==> #[trigger] empties_with(b, a, n)[k] < 16
                && cell(b, empties_with(b, a, n)[k] as int) == 0,
    decreases n,
{
    if n > 0 {
        lemma_empties_with_cells(b, a, n - 1);
        let p = empties_with(b, a, n - 1);
        if cell(b, n - 1) == 0 && occupied_neighbours(b, n - 1) == a {
            assert forall|k: int| 0 <= k < p.len() + 1 implies #[trigger] p.push(
                (n - 1) as u8,
            )[k] < 16 && cell(b, p.push((n - 1) as u8)[k] as int) == 0 by {
                if k < p.len() {
                    assert(p.push((n - 1) as u8)[k] == p[k]);
                } else {
                    assert(((n - 1) as u8) as int == n - 1);
                }
            }
        }
    }
}

proof fn lemma_exposure_cells(b: u64, a: int)
    requires
        0 <= a <= 5,
    ensures
        forall|k: int|
            0 <= k < exposure_from(b, a).len() ==> #[trigger] exposure_from(b, a)[k] < 16 && cell(
                b,
                exposure_from(b, a)[k] as int,
            ) == 0,
    decreases 5 - a,
{
    if a < 5 {
        lemma_exposure_cells(b, a + 1);
        lemma_empties_with_cells(b, a as nat, 16);
        let p = exposure_from(b, a + 1);
        let q = empties_with(b, a as nat, 16);
        assert forall|k: int| 0 <= k < exposure_from(b, a).len() implies #[trigger] exposure_from(
            b,
            a,
        )[k] < 16 && cell(b, exposure_from(b, a)[k] as int) == 0 by {
            if k < p.len() {
                assert(exposure_from(b, a)[k] == p[k]);
            } else {
                assert(exposure_from(b, a)[k] == q[k - p.len()]);
            }
        }
    }
}

/// The cells that a spawn state branches on: the first `MAX_CHANCE_CELLS` of
/// the exposure order.
pub open spec fn spawn_cells(b: u64) -> Seq<u8> {
    if exposure_order(b).len() > MAX_CHANCE_CELLS {
        exposure_order(b).take(MAX_CHANCE_CELLS as int)
    } else {
        exposure_order(b)
    }
}

/// Rank `r` occurs on the board.
pub open spec fn rank_present(b: u64, r: int) -> bool {
    exists|i: int| 0 <= i < 16 && #[trigger] cell(b, i) == r
}

/// Number of ranks in `1..n` that occur on the board.
pub open spec fn present_below(b: u64, n: int) -> nat
    decreases n,
{
    if n <= 1 {
        0
    } else {
        present_below(b, n - 1) + if rank_present(b, n - 1) { 1nat } else { 0nat }
    }
}

/// Number of distinct non-empty ranks on the board.
pub open spec fn distinct_ranks(b: u64) -> nat {
    present_below(b, 16)
}

/// Depth that a search of the board runs at: the requested depth, raised to
/// the distinct ranks less two, and to `ADAPTIVE_FLOOR`.
pub open spec fn adaptive_depth(b: u64, depth: u32) -> int {
    let want = if distinct_ranks(b) - 2 > ADAPTIVE_FLOOR {
        distinct_ranks(b) - 2
    } else {
        ADAPTIVE_FLOOR as int
    };
    if depth >= want {
        depth as int
    } else {
        want
    }
}

/// Number of occupied orthogonal neighbours of cell `i`.
fn count_neighbours(b: u64, i: usize) -> (n: u8)
    requires
        i < 16,
    ensures
        n as nat == occupied_neighbours(b, i as int),
        n <= 4,
{
    let mut n: u8 = 0;
    if i >= 4 && get_cell(b, i - 4) != 0 {
        n = n + 1;
    }
    if i < 12 && get_cell(b, i + 4) != 0 {
        n = n + 1;
    }
    if i % 4 > 0 && get_cell(b, i - 1) != 0 {
        n = n + 1;
    }
    if i % 4 < 3 && get_cell(b, i + 1) != 0 {
        n = n + 1;
    }
    n
}

/// The cells that a spawn state branches on: empty cells with the most
/// occupied neighbours first, ties in scan order, at most `MAX_CHANCE_CELLS`.
pub fn chance_cells(b: u64) -> (r: Vec<u8>)
    ensures
        r@ == spawn_cells(b),
        r@.len() <= MAX_CHANCE_CELLS,
        forall|k: int| 0 <= k < r@.len() ==> r@[k] < 16 && cell(b, r@[k] as int) == 0,
{
    let mut order: Vec<u8> = Vec::new();
    let mut a: u8 = 5;
    while a > 0
        invariant
            a <= 5,
            order@ == exposure_from(b, a as int),
        decreases a,
    {
        a = a - 1;
        let ghost before = order@;
        assert(Seq::<u8>::empty() + empties_with(b, a as nat, 0) =~= Seq::<u8>::empty());
        assert(before =~= before + empties_with(b, a as nat, 0));
        let mut i: usize = 0;
        while i < 16
            invariant
                a <= 4,
                i <= 16,
                order@ == before + empties_with(b, a as nat, i as int),
            decreases 16 - i,
        {
            if get_cell(b, i) == 0 && count_neighbours(b, i) == a {
                order.push(i as u8);
            }
            i = i + 1;
        }
    }
    proof {
        lemma_exposure_cells(b, 0);
    }
    let mut r: Vec<u8> = Vec::new();
    let mut k: usize = 0;
    while k < order.len() && k < MAX_CHANCE_CELLS
        invariant
            k <= order@.len(),
            k <= MAX_CHANCE_CELLS,
            r@ == order@.take(k as int),
        decreases order@.len() - k,
    {
        r.push(order[k]);
        k = k + 1;
        assert(r@ =~= order@.take(k as int));
    }
    assert(r@ =~= spawn_cells(b));
    r
}

/// Rank `r` occurs on the board.
fn has_rank(b: u64, r: u8) -> (p: bool)
    ensures
        p == rank_present(b, r as int),
{
    let mut i: usize = 0;
    while i < 16
        invariant
            i <= 16,
            forall|j: int| 0 <= j < i ==> cell(b, j) != r,
        decreases 16 - i,
    {
        if get_cell(b, i) == r {
            return true;
        }
        i = i + 1;
    }
    false
}

/// Number of distinct non-empty ranks on the board.
pub fn count_distinct_ranks(b: u64) -> (n: u32)
    ensures
        n as nat == distinct_ranks(b),
        n <= 15,
{
    let mut n: u32 = 0;
    let mut r: u8 = 1;
    while r < 16
        invariant
            1 <= r <= 16,
            n as nat == present_below(b, r as int),
            n < r,
        decreases 16 - r,
    {
        if has_rank(b, r) {
            n = n + 1;
        }
        r = r + 1;
    }
    n
}

/// Depth that a search of the board runs at: the requested depth is a floor,
/// raised to the number of distinct ranks less two, and to `ADAPTIVE_FLOOR`.
pub fn effective_depth(b: u64, depth: u32) -> (e: u32)
    ensures
        e as int == adaptive_depth(b, depth),
        e >= depth,
        e >= ADAPTIVE_FLOOR,
        e >= distinct_ranks(b) - 2,
{
    let k = count_distinct_ranks(b);
    let want: u32 = if k >= 2 && k - 2 > ADAPTIVE_FLOOR {
        k - 2
    } else {
        ADAPTIVE_FLOOR
    };
    if depth >= want {
        depth
    } else {
        want
    }
}

/// A board with exactly five distinct ranks, searched at a requested depth of
/// one, runs at a depth of at least three.
pub proof fn lemma_five_ranks_search_deep(b: u64)
    requires
        distinct_ranks(b) == 5,
    ensures
        adaptive_depth(b, 1) >= 3,
{
}

/// Largest score that the search reports; sums that would pass it saturate.
pub const VALUE_CAP: i64 = 72057594037927936;

/// Weight of a spawned rank-1 tile, in tenths.
pub const SPAWN_ONE_WEIGHT: i64 = 9;
/// Weight of a spawned rank-2 tile, in tenths.
pub const SPAWN_TWO_WEIGHT: i64 = 1;

/// A score that the search can report.
pub open spec fn score_ok(v: int) -> bool {
    EVAL_MIN <= v <= VALUE_CAP
}

/// Every score in the cache is one that the search can report.
pub open spec fn entries_ok(m: Map<u64, (u32, i64)>) -> bool {
    forall|k: u64| #[trigger] m.contains_key(k) ==> score_ok(m[k].1 as int)
}

/// A move in `dir` changes the board.
pub open spec fn legal(b: u64, dir: Direction) -> bool {
    moved_cells(b, dir) != cells(b)
}

/// No move changes the board.
pub open spec fn stuck(b: u64) -> bool {
    forall|d: int| 0 <= d < 4 ==> !legal(b, #[trigger] direction_at(d))
}

/// `v`, saturated at `VALUE_CAP`.
pub open spec fn capped(v: int) -> int {
    if v > VALUE_CAP {
        VALUE_CAP as int
    } else {
        v
    }
}

/// Value of a move state searched `depth` deep with cache `m`, and the cache
/// after the search.
#[verifier::opaque]
pub open spec fn max_run(b: u64, depth: int, m: Map<u64, (u32, i64)>) -> (int, Map<u64, (u32, i64)>)
    decreases depth, 2int, 0int,
{
    if depth <= 0 {
        (evaluation(b), m)
    } else {
        let r = max_over(b, depth, m, 4);
        match r.0 {
            Some(v) => (v, r.1),
            None => (evaluation(b), r.1),
        }
    }
}

/// Best value over the legal moves among the first `d` directions, each the
/// spawn state that follows plus the move's points, and the cache after them.
#[verifier::opaque]
pub open spec fn max_over(b: u64, depth: int, m: Map<u64, (u32, i64)>, d: int) -> (
    Option<int>,
    Map<u64, (u32, i64)>,
)
    decreases depth, 1int, d,
{
    if depth <= 0 || d <= 0 {
        (None, m)
    } else {
        let prev = max_over(b, depth, m, d - 1);
        let dir = direction_at(d - 1);
        if !legal(b, dir) {
            prev
        } else {
            let c = chance_run(moved_board(b, dir), depth - 1, prev.1);
            let v = capped(c.0 + move_gain(b, dir));
            match prev.0 {
                Some(best) => if v > best {
                    (Some(v), c.1)
                } else {
                    (Some(best), c.1)
                },
                None => (Some(v), c.1),
            }
        }
    }
}

/// Value of a spawn state searched `depth` deep with cache `m`, and the cache
/// after the search: the static score at depth 0 or with no empty cell; the
/// cached score where the entry was searched at least as deep; otherwise the
/// weighted average over `spawn_cells`, rounded down, then stored.
#[verifier::opaque]
pub open spec fn chance_run(b: u64, depth: int, m: Map<u64, (u32, i64)>) -> (
    int,
    Map<u64, (u32, i64)>,
)
    decreases depth, 2int, 0int,
{
    if depth <= 0 || spawn_cells(b).len() == 0 {
        (evaluation(b), m)
    } else if usable(m, b, depth as u32) {
        (m[b].1 as int, m)
    } else {
        let n = spawn_cells(b).len() as int;
        let r = spawn_over(b, depth, m, n);
        let v = r.0 / (10 * n);
        (v, stored(r.1, b, depth as u32, v as i64))
    }
}

/// Weighted sum over the first `k` spawn cells of the move states after a
/// rank-1 tile (weight 9) and a rank-2 tile (weight 1), and the cache after them.
#[verifier::opaque]
pub open spec fn spawn_over(b: u64, depth: int, m: Map<u64, (u32, i64)>, k: int) -> (
    int,
    Map<u64, (u32, i64)>,
)
    decreases depth, 1int, k,
{
    if depth <= 0 || k <= 0 {
        (0, m)
    } else {
        let p = spawn_over(b, depth, m, k - 1);
        let i = spawn_cells(b)[k - 1] as int;
        let one = max_run(with_cell(b, i, 1), depth - 1, p.1);
        let two = max_run(with_cell(b, i, 2), depth - 1, one.1);
        (p.0 + SPAWN_ONE_WEIGHT * one.0 + SPAWN_TWO_WEIGHT * two.0, two.1)
    }
}

proof fn lemma_max_over_step(b: u64, depth: int, m: Map<u64, (u32, i64)>, d: int)
    requires
        depth > 0,
        d >= 0,
    ensures
        max_over(b, depth, m, 0) == (None::<int>, m),
        !legal(b, direction_at(d)) ==> max_over(b, depth, m, d + 1) == max_over(b, depth, m, d),
        legal(b, direction_at(d)) ==> {
            let prev = max_over(b, depth, m, d);
            let c = chance_run(moved_board(b, direction_at(d)), depth - 1, prev.1);
            let v = capped(c.0 + move_gain(b, direction_at(d)));
            max_over(b, depth, m, d + 1) == match prev.0 {
                Some(best) => if v > best {
                    (Some(v), c.1)
                } else {
                    (Some(best), c.1)
                },
                None => (Some(v), c.1),
            }
        },
{
    reveal(max_run);
    reveal(max_over);
    reveal(chance_run);
    reveal(spawn_over);
}

proof fn lemma_max_run_unfold(b: u64, depth: int, m: Map<u64, (u32, i64)>)
    ensures
        depth <= 0 ==> max_run(b, depth, m) == (evaluation(b), m),
        depth > 0 ==> max_run(b, depth, m) == match max_over(b, depth, m, 4).0 {
            Some(v) => (v, max_over(b, depth, m, 4).1),
            None => (evaluation(b), max_over(b, depth, m, 4).1),
        },
{
    reveal(max_run);
    reveal(max_over);
    reveal(chance_run);
    reveal(spawn_over);
}

proof fn lemma_spawn_over_step(b: u64, depth: int, m: Map<u64, (u32, i64)>, k: int)
    requires
        depth > 0,
        0 <= k < spawn_cells(b).len(),
    ensures
        spawn_over(b, depth, m, 0) == (0int, m),
        ({
            let p = spawn_over(b, depth, m, k);
            let i = spawn_cells(b)[k] as int;
            let one = max_run(with_cell(b, i, 1), depth - 1, p.1);
            let two = max_run(with_cell(b, i, 2), depth - 1, one.1);
            spawn_over(b, depth, m, k + 1) == (
                p.0 + SPAWN_ONE_WEIGHT * one.0 + SPAWN_TWO_WEIGHT * two.0,
                two.1,
            )
        }),
{
    reveal(max_run);
    reveal(max_over);
    reveal(chance_run);
    reveal(spawn_over);
}

proof fn lemma_chance_run_unfold(b: u64, depth: int, m: Map<u64, (u32, i64)>)
    ensures
        depth <= 0 || spawn_cells(b).len() == 0 ==> chance_run(b, depth, m) == (evaluation(b), m),
        depth > 0 && spawn_cells(b).len() > 0 && usable(m, b, depth as u32) ==> chance_run(
            b,
            depth,
            m,
        ) == (m[b].1 as int, m),
        depth > 0 && spawn_cells(b).len() > 0 && !usable(m, b, depth as u32) ==> ({
            let n = spawn_cells(b).len() as int;
            let r = spawn_over(b, depth, m, n);
            let v = r.0 / (10 * n);
            chance_run(b, depth, m) == (v, stored(r.1, b, depth as u32, v as i64))
        }),
{
    reveal(max_run);
    reveal(max_over);
    reveal(chance_run);
    reveal(spawn_over);
}

/// The direction with code `d` (0 up, 1 down, 2 left, 3 right).
pub fn direction_of(d: u8) -> (dir: Direction)
    requires
        d < 4,
    ensures
        dir == direction_at(d as int),
{
    if d == 0 {
        Direction::Up
    } else if d == 1 {
        Direction::Down
    } else if d == 2 {
        Direction::Left
    } else {
        Direction::Right
    }
}

/// `v + g`, saturated at `VALUE_CAP`.
fn add_capped(v: i64, g: u32) -> (r: i64)
    requires
        score_ok(v as int),
    ensures
        r == capped(v + g),
        score_ok(r as int),
{
    if v > VALUE_CAP - g as i64 {
        VALUE_CAP
    } else {
        v + g as i64
    }
}

proof fn lemma_average_bounds(shifted: int, n: int)
    requires
        n > 0,
        0 <= shifted <= (VALUE_CAP - EVAL_MIN) * n,
    ensures
        0 <= shifted / n <= VALUE_CAP - EVAL_MIN,
{
    assert(0 <= shifted / n <= VALUE_CAP - EVAL_MIN) by (nonlinear_arith)
        requires
            n > 0,
            0 <= shifted <= (VALUE_CAP - EVAL_MIN) * n,
    ;
}

proof fn lemma_store_keeps_entries_ok(m: Map<u64, (u32, i64)>, b: u64, depth: u32, v: i64)
    requires
        entries_ok(m),
        score_ok(v as int),
    ensures
        entries_ok(stored(m, b, depth, v)),
{
    let m2 = m.insert(b, (depth, v));
    assert forall|k: u64| #[trigger] m2.contains_key(k) implies score_ok(m2[k].1 as int) by {
        if k != b {
            assert(m.contains_key(k));
        }
    }
}

/// Value of a state where the engine picks the move: the best over the legal
/// moves of the spawn state that follows plus the move's points; the static
/// score at depth 0 or when no move is legal.
pub fn max_state(t: &RowTables, cache: &mut TranspositionCache, b: u64, depth: u32) -> (v: i64)
    requires
        t.wf(),
        entries_ok(old(cache)@),
    ensures
        (v as int, final(cache)@) == max_run(b, depth as int, old(cache)@),
        entries_ok(final(cache)@),
        score_ok(v as int),
        depth == 0 ==> v == evaluation(b),
        stuck(b) ==> v == evaluation(b),
    decreases depth, 1int,
{
    let ghost m0 = cache@;
    proof {
        lemma_max_run_unfold(b, depth as int, m0);
    }
    if depth == 0 {
        return evaluate(t, b);
    }
    let mut best: i64 = 0;
    let mut found = false;
    let mut d: u8 = 0;
    proof {
        lemma_max_over_step(b, depth as int, m0, 0);
    }
    while d < 4
        invariant
            t.wf(),
            entries_ok(cache@),
            d <= 4,
            depth > 0,
            (if found { Some(best as int) } else { None }, cache@) == max_over(
                b,
                depth as int,
                m0,
                d as int,
            ),
            found ==> score_ok(best as int),
            found <==> exists|k: int| 0 <= k < d && legal(b, #[trigger] direction_at(k)),
        decreases 4 - d,
    {
        let dir = direction_of(d);
        let o = apply_move(t, b, dir);
        proof {
            if o.board != b {
                if cells(o.board) == cells(b) {
                    lemma_cells_injective(o.board, b);
                }
            }
        }
        let ghost pm = cache@;
        proof {
            lemma_max_over_step(b, depth as int, m0, d as int);
        }
        if o.changed {
            let c = chance_state(t, cache, o.board, depth - 1);
            let v = add_capped(c, o.score);
            if !found || v > best {
                best = v;
            }
            found = true;
        }
        d = d + 1;
    }
    let v = if found {
        best
    } else {
        evaluate(t, b)
    };
    v
}

/// Value of a state where a tile spawns: over the cells of `spawn_cells`, a
/// rank-1 tile with weight 9 and a rank-2 tile with weight 1, the weighted
/// average of the move states that follow (rounded down). The static score at
/// depth 0 or with no empty cell. A cache entry searched at least as deep is
/// returned as it is; a computed value is stored.
pub fn chance_state(t: &RowTables, cache: &mut TranspositionCache, b: u64, depth: u32) -> (v: i64)
    requires
        t.wf(),
        entries_ok(old(cache)@),
    ensures
        entries_ok(final(cache)@),
        score_ok(v as int),
        depth == 0 ==> v == evaluation(b),
        (v as int, final(cache)@) == chance_run(b, depth as int, old(cache)@),
        depth > 0 && spawn_cells(b).len() == 0 ==> v == evaluation(b),
        depth > 0 && spawn_cells(b).len() > 0 && usable(old(cache)@, b, depth)
            ==> v == old(cache)@[b].1 && final(cache)@ == old(cache)@,
        depth > 0 && spawn_cells(b).len() > 0 && !usable(old(cache)@, b, depth)
            && final(cache)@.contains_key(b) ==> final(cache)@[b] == (depth, v),
    decreases depth, 0int,
{
    let ghost m0 = cache@;
    proof {
        lemma_chance_run_unfold(b, depth as int, m0);
    }
    if depth == 0 {
        return evaluate(t, b);
    }
    let spots = chance_cells(b);
    if spots.len() == 0 {
        return evaluate(t, b);
    }
    match cache.lookup(b, depth) {
        Some(s) => {
            return s;
        },
        None => {},
    }
    let n = spots.len();
    let mut total: i64 = 0;
    let mut k: usize = 0;
    proof {
        lemma_spawn_over_step(b, depth as int, m0, 0);
    }
    while k < n
        invariant
            t.wf(),
            spots@ == spawn_cells(b),
            (total as int, cache@) == spawn_over(b, depth as int, m0, k as int),
            entries_ok(cache@),
            depth > 0,
            n == spots@.len(),
            n <= MAX_CHANCE_CELLS,
            k <= n,
            forall|j: int| 0 <= j < n ==> spots@[j] < 16,
            -573680000 * k <= total <= 720575940379279360 * k,
        decreases n - k,
    {
        let i = spots[k] as usize;
        proof {
            lemma_spawn_over_step(b, depth as int, m0, k as int);
        }
        let one = max_state(t, cache, set_cell(b, i, 1), depth - 1);
        let two = max_state(t, cache, set_cell(b, i, 2), depth - 1);
        assert(-573680000 * (k + 1) <= total + 9 * one + two <= 720575940379279360 * (k + 1));
        total = total + SPAWN_ONE_WEIGHT * one + SPAWN_TWO_WEIGHT * two;
        k = k + 1;
    }
    let weight: i64 = 10 * n as i64;
    let shifted = total - EVAL_MIN * weight;
    proof {
        lemma_average_bounds(shifted as int, weight as int);
    }
    let v = shifted / weight + EVAL_MIN;
    proof {
        lemma_hoist_over_denominator(shifted as int, EVAL_MIN as int, weight as nat);
        assert(v == total as int / (10 * n as int));
    }
    let ghost before = cache@;
    cache.store(b, depth, v);
    proof {
        lemma_store_keeps_entries_ok(before, b, depth, v);
    }
    v
}

/// Number of legal moves among the first `d` directions.
pub open spec fn legal_below(b: u64, d: int) -> nat
    decreases d,
{
    if d <= 0 {
        0
    } else {
        legal_below(b, d - 1) + if legal(b, direction_at(d - 1)) { 1nat } else { 0nat }
    }
}

/// Number of legal moves of a board.
pub open spec fn legal_count(b: u64) -> nat {
    legal_below(b, 4)
}

/// Scores descending; among equal scores, directions in their fixed order.
pub open spec fn ranked(l: Seq<(i64, u8)>) -> bool {
    forall|i: int, j: int|
        0 <= i < j < l.len() ==> (#[trigger] l[i]).0 >= (#[trigger] l[j]).0 && (l[i].0 == l[j].0
            ==> l[i].1 < l[j].1)
}

/// The cache of a ranking after the legal moves among the first `d` directions
/// were searched `e` deep, from an empty cache.
pub open spec fn rank_cache(b: u64, e: int, d: int) -> Map<u64, (u32, i64)>
    decreases d,
{
    if d <= 0 {
        Map::empty()
    } else {
        let m = rank_cache(b, e, d - 1);
        let dir = direction_at(d - 1);
        if legal(b, dir) {
            chance_run(moved_board(b, dir), e, m).1
        } else {
            m
        }
    }
}

/// Score of the move with code `d` in a ranking searched `e` deep: the value of
/// the spawn state after it, plus its points, saturated at `VALUE_CAP`.
pub open spec fn move_score(b: u64, e: int, d: int) -> int {
    capped(
        chance_run(moved_board(b, direction_at(d)), e, rank_cache(b, e, d)).0 + move_gain(
            b,
            direction_at(d),
        ),
    )
}

/// What the ranking of a board writes: as many entries as legal moves, each a
/// distinct legal direction with its score, scores descending, equal scores in
/// the fixed direction order, and the slots past the count as they were.
pub open spec fn ranking_ok(
    b: u64,
    depth: u32,
    n: u32,
    s0: Seq<i64>,
    d0: Seq<u8>,
    s: Seq<i64>,
    d: Seq<u8>,
) -> bool {
    &&& n as nat == legal_count(b)
    &&& n <= 4
    &&& s.len() == 4 && d.len() == 4
    &&& forall|i: int|
        0 <= i < n ==> #[trigger] d[i] < 4 && legal(b, direction_at(d[i] as int)) && score_ok(
            s[i] as int,
        ) && s[i] == move_score(b, adaptive_depth(b, depth), d[i] as int)
    &&& forall|i: int, j: int| 0 <= i < j < n ==> #[trigger] d[i] != #[trigger] d[j]
    &&& forall|i: int, j: int| 0 <= i < j < n ==> #[trigger] s[i] >= #[trigger] s[j]
    &&& forall|i: int, j: int|
        0 <= i < j < n && s[i] == s[j] ==> #[trigger] d[i] < #[trigger] d[j]
    &&& forall|i: int| n <= i < 4 ==> #[trigger] s[i] == s0[i]
    &&& forall|i: int| n <= i < 4 ==> #[trigger] d[i] == d0[i]
}

/// Inserts `(s, d)` after every entry whose score is at least `s`.
fn insert_ranked(l: &mut Vec<(i64, u8)>, s: i64, d: u8)
    requires
        ranked(old(l)@),
        forall|i: int| 0 <= i < old(l)@.len() ==> (#[trigger] old(l)@[i]).1 < d,
        forall|i: int, j: int|
            0 <= i < j < old(l)@.len() ==> (#[trigger] old(l)@[i]).1 != (#[trigger] old(l)@[j]).1,
    ensures
        final(l)@.len() == old(l)@.len() + 1,
        ranked(final(l)@),
        forall|i: int|
            0 <= i < final(l)@.len() ==> ((#[trigger] final(l)@[i]).1 < d && exists|j: int|
                0 <= j < old(l)@.len() && old(l)@[j] == final(l)@[i]) || final(l)@[i] == (s, d),
        forall|i: int, j: int|
            0 <= i < j < final(l)@.len()
                ==> (#[trigger] final(l)@[i]).1 != (#[trigger] final(l)@[j]).1,
{
    let mut p: usize = 0;
    while p < l.len() && l[p].0 >= s
        invariant
            p <= l@.len(),
            forall|i: int| 0 <= i < p ==> (#[trigger] l@[i]).0 >= s,
        decreases l@.len() - p,
    {
        p = p + 1;
    }
    let ghost o = l@;
    l.insert(p, (s, d));
    assert forall|i: int| 0 <= i < l@.len() implies #[trigger] l@[i] == if i < p {
        o[i]
    } else if i == p {
        (s, d)
    } else {
        o[i - 1]
    } by {}
    assert forall|i: int| 0 <= i < l@.len() implies ((#[trigger] l@[i]).1 < d && exists|j: int|
        0 <= j < o.len() && o[j] == l@[i]) || l@[i] == (s, d) by {
        if i < p {
            assert(o[i] == l@[i]);
        } else if i > p {
            assert(o[i - 1] == l@[i]);
        }
    }
    assert forall|i: int, j: int| 0 <= i < j < l@.len() implies (#[trigger] l@[i]).0 >= (
    #[trigger] l@[j]).0 && (l@[i].0 == l@[j].0 ==> l@[i].1 < l@[j].1) by {
        if j == p {
            assert(l@[i] == o[i]);
        } else if i == p {
            assert(l@[j] == o[j - 1]);
            assert(o[p as int].0 < s);
            assert(o[p as int] == o[j - 1] || o[p as int].0 >= o[j - 1].0);
        }
    }
}

/// Ranks the moves of a packed board: runs the search on each legal move, at
/// the adaptive depth, from the spawn state that follows it, adds the move's
/// points, and writes the scores and direction codes (0 up, 1 down, 2 left,
/// 3 right) best first, ties in the fixed direction order. Returns how many
/// entries were written; the slots past that count are left as they were.
pub fn rank_moves(
    t: &RowTables,
    b: u64,
    depth: u32,
    scores_out: &mut [i64; 4],
    dirs_out: &mut [u8; 4],
) -> (n: u32)
    requires
        t.wf(),
    ensures
        ranking_ok(b, depth, n, old(scores_out)@, old(dirs_out)@, final(scores_out)@, final(dirs_out)@),
{
    let mut cache = TranspositionCache::new();
    let e = effective_depth(b, depth);
    let mut l: Vec<(i64, u8)> = Vec::new();
    let mut d: u8 = 0;
    while d < 4
        invariant
            t.wf(),
            entries_ok(cache@),
            d <= 4,
            l@.len() == legal_below(b, d as int),
            l@.len() <= d,
            ranked(l@),
            e as int == adaptive_depth(b, depth),
            cache@ == rank_cache(b, e as int, d as int),
            forall|i: int|
                0 <= i < l@.len() ==> (#[trigger] l@[i]).1 < d && legal(
                    b,
                    direction_at(l@[i].1 as int),
                ) && score_ok(l@[i].0 as int) && l@[i].0 == move_score(
                    b,
                    e as int,
                    l@[i].1 as int,
                ),
            forall|i: int, j: int|
                0 <= i < j < l@.len() ==> (#[trigger] l@[i]).1 != (#[trigger] l@[j]).1,
        decreases 4 - d,
    {
        let dir = direction_of(d);
        let o = apply_move(t, b, dir);
        proof {
            if o.board != b {
                if cells(o.board) == cells(b) {
                    lemma_cells_injective(o.board, b);
                }
            }
        }
        let ghost pm = cache@;
        if o.changed {
            let c = chance_state(t, &mut cache, o.board, e);
            let s = add_capped(c, o.score);
            assert(s == move_score(b, e as int, d as int));
            let ghost old_l = l@;
            insert_ranked(&mut l, s, d);
            proof {
                assert forall|i: int| 0 <= i < l@.len() implies (#[trigger] l@[i]).1 < d + 1 && legal(
                    b,
                    direction_at(l@[i].1 as int),
                ) && score_ok(l@[i].0 as int) && l@[i].0 == move_score(
                    b,
                    e as int,
                    l@[i].1 as int,
                ) by {
                    if l@[i].1 < d {
                        let j = choose|j: int| 0 <= j < old_l.len() && old_l[j] == l@[i];
                        assert(old_l[j].1 < d);
                    }
                }
            }
        }
        assert(cache@ == rank_cache(b, e as int, d + 1));
        d = d + 1;
    }
    let m = l.len();
    let mut i: usize = 0;
    while i < m
        invariant
            m == l@.len(),
            m <= 4,
            i <= m,
            forall|k: int| 0 <= k < i ==> #[trigger] scores_out@[k] == l@[k].0,
            forall|k: int| 0 <= k < i ==> #[trigger] dirs_out@[k] == l@[k].1,
            forall|k: int| i <= k < 4 ==> #[trigger] scores_out@[k] == old(scores_out)@[k],
            forall|k: int| i <= k < 4 ==> #[trigger] dirs_out@[k] == old(dirs_out)@[k],
        decreases m - i,
    {
        scores_out[i] = l[i].0;
        dirs_out[i] = l[i].1;
        i = i + 1;
    }
    m as u32
}

/// The packed board of a grid of face values.
pub open spec fn packed(board: [[u16; 4]; 4]) -> u64 {
    choose|h: u64| cells(h) == grid_cells(board)
}

/// Ranks the moves of a grid of face values (0 for an empty cell, else a power
/// of two): packs it, then ranks the moves of the packed board.
pub fn search_ranked_moves(
    t: &RowTables,
    board: &[[u16; 4]; 4],
    depth: u32,
    scores_out: &mut [i64; 4],
    dirs_out: &mut [u8; 4],
) -> (n: u32)
    requires
        t.wf(),
    ensures
        ranking_ok(
            packed(*board),
            depth,
            n,
            old(scores_out)@,
            old(dirs_out)@,
            final(scores_out)@,
            final(dirs_out)@,
        ),
{
    let h = board_hash(board);
    proof {
        let p = packed(*board);
        assert(cells(p) == grid_cells(*board));
        lemma_cells_injective(h, p);
    }
    rank_moves(t, h, depth, scores_out, dirs_out)
}

} // verus!
