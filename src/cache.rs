//! Transposition cache: search results keyed by the packed board.
use vstd::prelude::*;
use std::collections::HashMap;

verus! {

broadcast use vstd::std_specs::hash::group_hash_axioms;

/// Entry count above which the whole cache is dropped.
pub const CACHE_CEILING: usize = 2097152;

/// Search results keyed by the packed board: the depth searched and the score found.
pub struct TranspositionCache {
    map: HashMap<u64, (u32, i64)>,
}

impl View for TranspositionCache {
    type V = Map<u64, (u32, i64)>;

    closed spec fn view(&self) -> Map<u64, (u32, i64)> {
        self.map@
    }
}

/// The entry of `board` may answer a query at `depth`: it was searched at least as deep.
pub open spec fn usable(m: Map<u64, (u32, i64)>, board: u64, depth: u32) -> bool {
    m.contains_key(board) && m[board].0 >= depth
}

/// The cache after storing an entry: the entry added, then everything dropped
/// if the cache has grown past its ceiling.
pub open spec fn stored(m: Map<u64, (u32, i64)>, board: u64, depth: u32, score: i64) -> Map<
    u64,
    (u32, i64),
> {
    if m.insert(board, (depth, score)).len() > CACHE_CEILING {
        Map::empty()
    } else {
        m.insert(board, (depth, score))
    }
}

impl TranspositionCache {
    /// An empty cache.
    pub fn new() -> (c: TranspositionCache)
        ensures
            c@ == Map::<u64, (u32, i64)>::empty(),
    {
        TranspositionCache { map: HashMap::new() }
    }

    /// Drops every entry.
    pub fn clear(&mut self)
        ensures
            final(self)@ == Map::<u64, (u32, i64)>::empty(),
    {
        self.map.clear();
    }

    /// Number of entries.
    pub fn len(&self) -> (n: usize)
        ensures
            n == self@.len(),
    {
        self.map.len()
    }

    /// The stored score of `board`, only where it was searched at least `depth` deep.
    pub fn lookup(&self, board: u64, depth: u32) -> (r: Option<i64>)
        ensures
            r is Some <==> usable(self@, board, depth),
            r matches Some(s) ==> s == self@[board].1,
    {
        match self.map.get(&board) {
            Some(e) => {
                if e.0 >= depth {
                    Some(e.1)
                } else {
                    None
                }
            },
            None => None,
        }
    }

    /// Stores the score of `board` searched `depth` deep, replacing any earlier
    /// entry of it; drops the whole cache once it holds more than its ceiling.
    pub fn store(&mut self, board: u64, depth: u32, score: i64)
        ensures
            final(self)@ == stored(old(self)@, board, depth, score),
    {
        self.map.insert(board, (depth, score));
        if self.map.len() > CACHE_CEILING {
            self.map.clear();
        }
    }
}

/// An entry stored at some depth never answers a query at a greater depth.
pub proof fn lemma_deeper_query_misses(
    m: Map<u64, (u32, i64)>,
    b: u64,
    depth: u32,
    v: i64,
    deeper: u32,
)
    requires
        deeper > depth,
    ensures
        !usable(stored(m, b, depth, v), b, deeper),
{
}

} // verus!
