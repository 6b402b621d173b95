//! Counting the neighbours of a tile: the ids over all its letter-keyed
//! sets.

use vstd::prelude::*;
use vstd::set_lib::{lemma_len_subset, lemma_set_disjoint_lens, range_set_properties};
use crate::char_graph::{lists, tiles_wf, Tile};

verus! {

/// The number of ids filed under the symbols below `bound`, each counted
/// once for every set that holds it.
pub open spec fn occurrences_below(next: Map<u8, Set<usize>>, bound: int) -> nat
    decreases bound,
{
    if bound <= 0 {
        0
    } else {
        occurrences_below(next, bound - 1) + (if next.contains_key((bound - 1) as u8) {
            next[(bound - 1) as u8].len()
        } else {
            0
        })
    }
}

/// The number of neighbour ids over all the sets of `next`.
pub open spec fn occurrences(next: Map<u8, Set<usize>>) -> nat {
    occurrences_below(next, 256)
}

/// The tiles that tile `i` lists and whose letter is below `bound`.
pub open spec fn neighbors_below(tiles: Seq<Tile>, i: int, bound: int) -> Set<usize> {
    Set::new(
        |id: usize|
            id < tiles.len() && tiles[id as int].val < bound && lists(
                tiles,
                i,
                tiles[id as int].val,
                id,
            ),
    )
}

/// The tiles that tile `i` lists as its neighbours.
pub open spec fn neighbors(tiles: Seq<Tile>, i: int) -> Set<usize> {
    Set::new(|id: usize| id < tiles.len() && lists(tiles, i, tiles[id as int].val, id))
}

/// The ids below a bound are as many as the bound says.
proof fn lemma_ids_below(tiles: Seq<Tile>, ids: Set<usize>)
    requires
        tiles.len() <= usize::MAX,
        forall|id: usize| ids.contains(id) ==> id < tiles.len(),
    ensures
        ids.finite(),
        ids.len() <= tiles.len(),
{
    let all = Set::new(|id: usize| 0 <= id < tiles.len() as usize);
    range_set_properties::<usize>(0, tiles.len() as usize);
    assert(all =~= <usize as vstd::set_lib::FiniteRange>::range_set(0, tiles.len() as usize));
    assert(ids.subset_of(all));
    lemma_len_subset(ids, all);
}

/// Up to any symbol, the sets of a tile hold each listed neighbour once.
pub proof fn lemma_occurrences_below(tiles: Seq<Tile>, i: int, bound: int)
    requires
        tiles_wf(tiles),
        0 <= i < tiles.len(),
        0 <= bound <= 256,
    ensures
        neighbors_below(tiles, i, bound).finite(),
        occurrences_below(tiles[i].next, bound) == neighbors_below(tiles, i, bound).len(),
        occurrences_below(tiles[i].next, bound) <= tiles.len(),
    decreases bound,
{
    let now = neighbors_below(tiles, i, bound);
    lemma_ids_below(tiles, now);
    if bound == 0 {
        assert(now =~= Set::<usize>::empty());
    } else {
        lemma_occurrences_below(tiles, i, bound - 1);
        let sym = (bound - 1) as u8;
        let earlier = neighbors_below(tiles, i, bound - 1);
        if tiles[i].next.contains_key(sym) {
            let filed = tiles[i].next[sym];
            assert forall|id: usize| filed.contains(id) implies id < tiles.len()
                && tiles[id as int].val == sym by {
                assert(lists(tiles, i, sym, id));
            }
            assert(now =~= earlier + filed);
            assert(earlier.disjoint(filed));
            lemma_set_disjoint_lens(earlier, filed);
        } else {
            assert(now =~= earlier);
        }
    }
}

/// In a consistent graph, the sets of a tile hold each of its neighbours
/// exactly once: the occurrences are as many as the neighbours.
pub proof fn lemma_occurrences(tiles: Seq<Tile>, i: int)
    requires
        tiles_wf(tiles),
        0 <= i < tiles.len(),
    ensures
        neighbors(tiles, i).finite(),
        occurrences(tiles[i].next) == neighbors(tiles, i).len(),
        occurrences(tiles[i].next) <= tiles.len(),
{
    lemma_occurrences_below(tiles, i, 256);
    assert(neighbors(tiles, i) =~= neighbors_below(tiles, i, 256));
}

} // verus!
