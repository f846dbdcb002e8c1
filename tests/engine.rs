use search2048::board::{board_hash, get_cell, rank_of, set_cell};
use search2048::cache::TranspositionCache;
use search2048::eval::evaluate;
use search2048::moves::{apply_move, Direction};
use search2048::row::{line_heuristic, pack_row, pow2_u32, slide_line, unpack_row};
use search2048::search::{
    chance_cells, chance_state, count_distinct_ranks, direction_of, effective_depth, max_state,
    rank_moves, search_ranked_moves,
};
use search2048::tables::RowTables;

fn pack(ranks: [u8; 16]) -> u64 {
    let mut b: u64 = 0;
    for (i, r) in ranks.iter().enumerate() {
        b = set_cell(b, i, *r);
    }
    b
}

fn ranks(b: u64) -> [u8; 16] {
    let mut out = [0u8; 16];
    for i in 0..16 {
        out[i] = get_cell(b, i);
    }
    out
}

#[test]
fn slide_merges_two_pairs() {
    let (line, score) = slide_line(&[1, 1, 2, 2]);
    assert_eq!(line, [2, 3, 0, 0]);
    assert_eq!(score, 12);
}

#[test]
fn slide_merges_each_tile_once() {
    let (line, score) = slide_line(&[1, 1, 1, 1]);
    assert_eq!(line, [2, 2, 0, 0]);
    assert_eq!(score, 8);
    let (line, score) = slide_line(&[2, 2, 2, 0]);
    assert_eq!(line, [3, 2, 0, 0]);
    assert_eq!(score, 8);
}

#[test]
fn slide_compacts_across_gaps() {
    let (line, score) = slide_line(&[0, 3, 0, 3]);
    assert_eq!(line, [4, 0, 0, 0]);
    assert_eq!(score, 16);
    let (line, score) = slide_line(&[0, 0, 0, 0]);
    assert_eq!(line, [0, 0, 0, 0]);
    assert_eq!(score, 0);
}

#[test]
fn slide_caps_rank_at_fifteen() {
    let (line, score) = slide_line(&[15, 15, 0, 0]);
    assert_eq!(line, [15, 0, 0, 0]);
    assert_eq!(score, 32768);
}

#[test]
fn tables_match_direct_slides() {
    let t = RowTables::new();
    let row = pack_row(&[1, 1, 2, 2]);
    assert_eq!(unpack_row(t.left(row)), [2, 3, 0, 0]);
    assert_eq!(t.score(row), 12);
    assert_eq!(unpack_row(t.right(row)), [0, 0, 2, 3]);
}

#[test]
fn right_slide_is_mirrored_left_slide() {
    let t = RowTables::new();
    for cells in [[1u8, 1, 2, 0], [3, 0, 3, 3], [0, 5, 5, 5], [1, 2, 3, 4], [7, 7, 7, 7]] {
        let mirrored = [cells[3], cells[2], cells[1], cells[0]];
        let right = unpack_row(t.right(pack_row(&cells)));
        let left = unpack_row(t.left(pack_row(&mirrored)));
        assert_eq!(right, [left[3], left[2], left[1], left[0]]);
    }
    assert_eq!(unpack_row(t.right(pack_row(&[1, 1, 2, 0]))), [0, 0, 2, 2]);
}

#[test]
fn row_packing_round_trips() {
    let row = pack_row(&[1, 2, 3, 15]);
    assert_eq!(row, 0xF321);
    assert_eq!(unpack_row(row), [1, 2, 3, 15]);
}

#[test]
fn face_values_give_ranks() {
    assert_eq!(rank_of(0), 0);
    assert_eq!(rank_of(2), 1);
    assert_eq!(rank_of(4), 2);
    assert_eq!(rank_of(1024), 10);
    assert_eq!(rank_of(32768), 15);
}

#[test]
fn grid_packs_row_major() {
    let grid = [[2u16, 0, 0, 4], [0, 8, 0, 0], [0, 0, 0, 0], [1024, 0, 0, 32768]];
    let h = board_hash(&grid);
    assert_eq!(
        ranks(h),
        [1, 0, 0, 2, 0, 3, 0, 0, 0, 0, 0, 0, 10, 0, 0, 15]
    );
    assert_eq!(h & 0xF, 1);
    assert_eq!(h >> 60, 15);
}

#[test]
fn lone_corner_tile_moves() {
    let t = RowTables::new();
    let b = pack([1, 0, 0, 0, 0, 0, 0, 0, 0, 0, 0, 0, 0, 0, 0, 0]);
    let left = apply_move(&t, b, Direction::Left);
    assert!(!left.changed);
    assert_eq!(left.board, b);
    assert_eq!(left.score, 0);
    let right = apply_move(&t, b, Direction::Right);
    assert!(right.changed);
    assert_eq!(right.score, 0);
    assert_eq!(get_cell(right.board, 3), 1);
    assert_eq!(get_cell(right.board, 0), 0);
    let up = apply_move(&t, b, Direction::Up);
    assert!(!up.changed);
    let down = apply_move(&t, b, Direction::Down);
    assert!(down.changed);
    assert_eq!(ranks(down.board), [0, 0, 0, 0, 0, 0, 0, 0, 0, 0, 0, 0, 1, 0, 0, 0]);
}

#[test]
fn vertical_moves_merge_columns() {
    let t = RowTables::new();
    let b = pack([1, 0, 0, 2, 1, 0, 0, 2, 0, 0, 0, 2, 3, 0, 0, 0]);
    let up = apply_move(&t, b, Direction::Up);
    assert!(up.changed);
    assert_eq!(ranks(up.board), [2, 0, 0, 3, 3, 0, 0, 2, 0, 0, 0, 0, 0, 0, 0, 0]);
    assert_eq!(up.score, 4 + 8);
    let down = apply_move(&t, b, Direction::Down);
    assert_eq!(ranks(down.board), [0, 0, 0, 0, 0, 0, 0, 0, 2, 0, 0, 2, 3, 0, 0, 3]);
    assert_eq!(down.score, 4 + 8);
}

#[test]
fn unchanged_move_keeps_board() {
    let t = RowTables::new();
    let b = pack([1, 2, 3, 4, 0, 0, 0, 0, 0, 0, 0, 0, 0, 0, 0, 0]);
    let o = apply_move(&t, b, Direction::Left);
    assert!(!o.changed);
    assert_eq!(o.board, b);
    let o = apply_move(&t, b, Direction::Up);
    assert!(!o.changed);
    assert_eq!(o.board, b);
}

#[test]
fn line_heuristic_exact() {
    assert_eq!(line_heuristic(&[1, 1, 2, 2]), 202602);
    assert_eq!(line_heuristic(&[0, 0, 0, 0]), 201080);
    // falls 81-16 and 16-1 one way, nothing the other way; cubes 27+8+1
    assert_eq!(line_heuristic(&[3, 2, 1, 0]), 200000 + 270 - 0 - 11 * 36);
}

#[test]
fn empty_board_evaluation_exact() {
    let t = RowTables::new();
    assert_eq!(evaluate(&t, 0), 8 * 201080);
}

#[test]
fn evaluation_is_repeatable() {
    let t = RowTables::new();
    let b = pack([1, 2, 3, 4, 0, 5, 0, 0, 6, 0, 0, 1, 0, 0, 2, 9]);
    let c = pack(ranks(b));
    assert_eq!(evaluate(&t, b), evaluate(&t, c));
    assert_eq!(evaluate(&t, b), evaluate(&t, b));
}

#[test]
fn largest_tile_placement_matters() {
    let t = RowTables::new();
    let corner = pack([5, 0, 0, 0, 0, 0, 0, 0, 0, 0, 0, 0, 0, 0, 0, 0]);
    let edge = pack([0, 5, 0, 0, 0, 0, 0, 0, 0, 0, 0, 0, 0, 0, 0, 0]);
    let inner = pack([0, 0, 0, 0, 0, 5, 0, 0, 0, 0, 0, 0, 0, 0, 0, 0]);
    let c = evaluate(&t, corner);
    let e = evaluate(&t, edge);
    let i = evaluate(&t, inner);
    assert!(c > e);
    assert!(e > i);
    // the rows and columns differ only by position of the tile inside a line
    assert_eq!(c - 25 * 500, line_sum(&t, corner));
    assert_eq!(e + 25 * 1000, line_sum(&t, edge));
    assert_eq!(i + 25 * 3000, line_sum(&t, inner));
}

fn line_sum(t: &RowTables, b: u64) -> i64 {
    let r = ranks(b);
    let mut s: i64 = 0;
    for k in 0..4 {
        s += line_heuristic(&[r[4 * k], r[4 * k + 1], r[4 * k + 2], r[4 * k + 3]]);
        s += line_heuristic(&[r[k], r[k + 4], r[k + 8], r[k + 12]]);
    }
    let _ = t;
    s
}

#[test]
fn busy_empty_cell_is_chosen_first() {
    // occupied: (0,1), (1,0), (1,2); cell (1,1) has three occupied neighbours
    let b = pack([0, 1, 0, 0, 1, 0, 1, 0, 0, 0, 0, 0, 0, 0, 0, 0]);
    let cells = chance_cells(b);
    assert_eq!(cells, vec![5, 0, 2, 7, 8, 10]);
    assert!(!cells.contains(&15));
    assert_eq!(chance_cells(b), cells);
}

#[test]
fn few_empty_cells_are_all_chosen() {
    let b = pack([1, 2, 1, 2, 2, 1, 2, 1, 1, 2, 1, 2, 0, 0, 2, 0]);
    let mut cells = chance_cells(b);
    cells.sort();
    assert_eq!(cells, vec![12, 13, 15]);
    let full = pack([1, 2, 1, 2, 2, 1, 2, 1, 1, 2, 1, 2, 2, 1, 2, 1]);
    assert!(chance_cells(full).is_empty());
}

#[test]
fn adaptive_depth_rises_with_distinct_ranks() {
    let five = pack([1, 2, 3, 4, 5, 0, 0, 0, 0, 0, 0, 0, 0, 0, 0, 1]);
    assert_eq!(count_distinct_ranks(five), 5);
    assert_eq!(effective_depth(five, 1), 3);
    let two = pack([1, 2, 0, 0, 0, 0, 0, 0, 0, 0, 0, 0, 0, 0, 0, 0]);
    assert_eq!(effective_depth(two, 1), 2);
    assert_eq!(effective_depth(two, 7), 7);
    assert_eq!(count_distinct_ranks(0), 0);
}

#[test]
fn cache_answers_only_deep_enough_queries() {
    let mut c = TranspositionCache::new();
    assert_eq!(c.lookup(42, 1), None);
    c.store(42, 2, 100);
    assert_eq!(c.lookup(42, 2), Some(100));
    assert_eq!(c.lookup(42, 1), Some(100));
    assert_eq!(c.lookup(42, 3), None);
    c.store(42, 4, 7);
    assert_eq!(c.lookup(42, 3), Some(7));
    assert_eq!(c.len(), 1);
    c.clear();
    assert_eq!(c.lookup(42, 1), None);
}

#[test]
fn spawn_state_reuses_deeper_entry() {
    let t = RowTables::new();
    let b = pack([1, 0, 0, 0, 0, 0, 0, 0, 0, 0, 0, 0, 0, 0, 0, 0]);
    let mut c = TranspositionCache::new();
    c.store(b, 5, 123456);
    assert_eq!(chance_state(&t, &mut c, b, 3), 123456);
    let mut shallow = TranspositionCache::new();
    shallow.store(b, 1, 123456);
    let v = chance_state(&t, &mut shallow, b, 2);
    assert_ne!(v, 123456);
    assert_eq!(shallow.lookup(b, 2), Some(v));
}

#[test]
fn depth_zero_is_static_score() {
    let t = RowTables::new();
    let b = pack([1, 1, 0, 0, 0, 0, 0, 0, 0, 0, 0, 0, 0, 0, 0, 0]);
    let mut c = TranspositionCache::new();
    assert_eq!(max_state(&t, &mut c, b, 0), evaluate(&t, b));
    assert_eq!(chance_state(&t, &mut c, b, 0), evaluate(&t, b));
}

#[test]
fn stuck_board_has_no_moves() {
    let t = RowTables::new();
    let grid = [[2u16, 4, 2, 4], [4, 2, 4, 2], [2, 4, 2, 4], [4, 2, 4, 2]];
    let mut scores = [-1i64; 4];
    let mut dirs = [9u8; 4];
    let n = search_ranked_moves(&t, &grid, 3, &mut scores, &mut dirs);
    assert_eq!(n, 0);
    assert_eq!(scores, [-1; 4]);
    assert_eq!(dirs, [9; 4]);
    let b = board_hash(&grid);
    let mut c = TranspositionCache::new();
    assert_eq!(max_state(&t, &mut c, b, 2), evaluate(&t, b));
    assert_eq!(chance_state(&t, &mut c, b, 2), evaluate(&t, b));
}

#[test]
fn ranking_lists_legal_moves_best_first() {
    let t = RowTables::new();
    let b = pack([1, 0, 0, 0, 0, 0, 0, 0, 0, 0, 0, 0, 0, 0, 0, 0]);
    let mut scores = [0i64; 4];
    let mut dirs = [9u8; 4];
    let n = rank_moves(&t, b, 1, &mut scores, &mut dirs);
    assert_eq!(n, 2);
    let mut found = [dirs[0], dirs[1]];
    found.sort();
    assert_eq!(found, [1, 3]);
    assert!(scores[0] >= scores[1]);
    if scores[0] == scores[1] {
        assert!(dirs[0] < dirs[1]);
    }
    assert_eq!(dirs[2], 9);
    assert_eq!(dirs[3], 9);
}

#[test]
fn ranking_of_grid_matches_packed_board() {
    let t = RowTables::new();
    let grid = [[2u16, 2, 0, 0], [0, 4, 0, 0], [0, 0, 8, 0], [0, 0, 0, 0]];
    let mut s1 = [0i64; 4];
    let mut d1 = [0u8; 4];
    let n1 = search_ranked_moves(&t, &grid, 1, &mut s1, &mut d1);
    let mut s2 = [0i64; 4];
    let mut d2 = [0u8; 4];
    let n2 = rank_moves(&t, board_hash(&grid), 1, &mut s2, &mut d2);
    assert_eq!(n1, 4);
    assert_eq!(n1, n2);
    assert_eq!(s1, s2);
    assert_eq!(d1, d2);
    for i in 0..3 {
        assert!(s1[i] >= s1[i + 1]);
    }
}

#[test]
fn face_value_powers() {
    assert_eq!(pow2_u32(0), 1);
    assert_eq!(pow2_u32(1), 2);
    assert_eq!(pow2_u32(11), 2048);
    assert_eq!(pow2_u32(15), 32768);
}

#[test]
fn ranking_scores_are_search_values() {
    let t = RowTables::new();
    let b = pack([1, 1, 0, 2, 0, 3, 0, 0, 0, 0, 4, 0, 0, 0, 0, 5]);
    let e = effective_depth(b, 1);
    assert_eq!(e, 3);
    let mut cache = TranspositionCache::new();
    let mut expected: Vec<(i64, u8)> = Vec::new();
    for d in 0..4u8 {
        let o = apply_move(&t, b, direction_of(d));
        if o.changed {
            let v = chance_state(&t, &mut cache, o.board, e) + o.score as i64;
            expected.push((v, d));
        }
    }
    expected.sort_by(|x, y| y.0.cmp(&x.0));
    let mut scores = [0i64; 4];
    let mut dirs = [0u8; 4];
    let n = rank_moves(&t, b, 1, &mut scores, &mut dirs);
    assert_eq!(n as usize, expected.len());
    for i in 0..expected.len() {
        assert_eq!((scores[i], dirs[i]), expected[i]);
    }
}

#[test]
fn move_state_takes_best_move() {
    let t = RowTables::new();
    let b = pack([1, 1, 0, 0, 0, 0, 0, 0, 0, 0, 0, 0, 0, 0, 0, 0]);
    let mut best: Option<i64> = None;
    let mut c = TranspositionCache::new();
    for d in 0..4u8 {
        let o = apply_move(&t, b, direction_of(d));
        if o.changed {
            let v = chance_state(&t, &mut c, o.board, 1) + o.score as i64;
            best = Some(match best {
                Some(x) if x >= v => x,
                _ => v,
            });
        }
    }
    let mut fresh = TranspositionCache::new();
    assert_eq!(Some(max_state(&t, &mut fresh, b, 2)), best);
}
