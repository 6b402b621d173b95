//! The grid adjacency graph: an arena of tiles, found by coordinate, whose
//! neighbours are filed under the letter they bear.

use vstd::prelude::*;
use std::collections::HashMap;
use std::collections::HashSet;
use crate::neighbor_count::{lemma_occurrences_below, neighbors, occurrences, occurrences_below};

verus! {

/// What a tile is, apart from how it is stored: its letter, its place in the
/// grid, and the ids of its neighbours, filed under each neighbour's letter.
pub struct Tile {
    pub val: u8,
    pub coords: (usize, usize),
    pub next: Map<u8, Set<usize>>,
}

/// A node in the char graph, representing a single grid tile.
#[derive(Debug)]
pub struct CharGraphNode {
    /// The ID of this node (index in the nodes array)
    id: usize,
    /// The letter contained in this node
    val: u8,
    /// The (y, x) coordinates of this tile (only useful to consumer)
    coords: (usize, usize),
    /// A map of the next nodes, identified by their contained value
    next: HashMap<u8, HashSet<usize>>,
}

/// An undirected dense graph of characters, representing the grid.
#[derive(Debug, Clone)]
pub struct CharGraph {
    nodes: Vec<CharGraphNode>,
    /// Given row ind and col ind, get node id
    nodes_by_coord: HashMap<usize, HashMap<usize, usize>>,
}

/// The neighbour sets of a stored map, as mathematical sets.
pub open spec fn neighbor_sets(next: Map<u8, HashSet<usize>>) -> Map<u8, Set<usize>> {
    Map::new(|sym: u8| next.contains_key(sym), |sym: u8| next[sym]@)
}

/// Whether some tile lies at `coords`.
pub open spec fn occupied(tiles: Seq<Tile>, coords: (usize, usize)) -> bool {
    exists|i: int| 0 <= i < tiles.len() && (#[trigger] tiles[i]).coords == coords
}

/// Whether tile `from` lists the id `id` among its neighbours under `sym`.
pub open spec fn lists(tiles: Seq<Tile>, from: int, sym: u8, id: usize) -> bool {
    tiles[from].next.contains_key(sym) && tiles[from].next[sym].contains(id)
}

/// Whether tile `from` lists tile `to` as a neighbour, under the letter of
/// `to`.
pub open spec fn linked(tiles: Seq<Tile>, from: int, to: int) -> bool {
    &&& 0 <= from < tiles.len()
    &&& 0 <= to < tiles.len()
    &&& lists(tiles, from, tiles[to].val, to as usize)
}

/// The neighbour sets `next` with `id` added under `sym`.
pub open spec fn with_neighbor(next: Map<u8, Set<usize>>, sym: u8, id: usize) -> Map<u8, Set<usize>> {
    next.insert(
        sym,
        if next.contains_key(sym) {
            next[sym].insert(id)
        } else {
            Set::<usize>::empty().insert(id)
        },
    )
}

/// The tiles with `to` added to the neighbours of `from`.
pub open spec fn with_link(tiles: Seq<Tile>, from: int, to: int) -> Seq<Tile> {
    tiles.update(
        from,
        Tile {
            val: tiles[from].val,
            coords: tiles[from].coords,
            next: with_neighbor(tiles[from].next, tiles[to].val, to as usize),
        },
    )
}

/// The tiles with an undirected edge between `a` and `b`.
pub open spec fn with_edge(tiles: Seq<Tile>, a: int, b: int) -> Seq<Tile> {
    with_link(with_link(tiles, a, b), b, a)
}

/// What holds of the tiles of every graph: one tile per coordinate, every
/// listed neighbour exists and bears the letter it is filed under, no
/// letter is filed with an empty set, and adjacency is symmetric.
pub open spec fn tiles_wf(tiles: Seq<Tile>) -> bool {
    &&& tiles.len() <= usize::MAX
    &&& forall|i: int, j: int|
        0 <= i < j < tiles.len() ==> (#[trigger] tiles[i]).coords != (#[trigger] tiles[j]).coords
    &&& forall|i: int, sym: u8, id: usize|
        0 <= i < tiles.len() && #[trigger] lists(tiles, i, sym, id) ==> id < tiles.len()
            && tiles[id as int].val == sym
    &&& forall|i: int, sym: u8|
        0 <= i < tiles.len() && #[trigger] tiles[i].next.contains_key(sym) ==> tiles[i].next[sym].finite()
            && tiles[i].next[sym].len() > 0
    &&& forall|a: int, b: int| #[trigger] linked(tiles, a, b) ==> linked(tiles, b, a)
}

impl View for CharGraphNode {
    type V = Tile;

    closed spec fn view(&self) -> Tile {
        Tile { val: self.val, coords: self.coords, next: neighbor_sets(self.next@) }
    }
}

impl Clone for CharGraphNode {
    fn clone(&self) -> (copy: Self)
        ensures
            copy.ident() == self.ident(),
            copy@ == self@,
    {
        CharGraphNode {
            id: self.id,
            val: self.val,
            coords: (self.coords.0, self.coords.1),
            next: self.next.clone(),
        }
    }
}

impl CharGraphNode {
    /// The id of the tile: its place in the arena of its graph.
    pub closed spec fn ident(&self) -> usize {
        self.id
    }

    /// The ID of this node.
    pub fn id(&self) -> (id: usize)
        ensures
            id == self.ident(),
    {
        self.id
    }

    /// The letter contained in this node.
    pub fn val(&self) -> (val: u8)
        ensures
            val == self@.val,
    {
        self.val
    }

    /// The (y, x) coordinates of this tile.
    pub fn coords(&self) -> (coords: (usize, usize))
        ensures
            coords == self@.coords,
    {
        self.coords
    }

    /// The ids of the neighbours of this tile, filed under their letters.
    pub fn next(&self) -> (next: &HashMap<u8, HashSet<usize>>)
        ensures
            neighbor_sets(next@) == self@.next,
    {
        &self.next
    }
}

impl View for CharGraph {
    type V = Seq<Tile>;

    /// The tiles of the graph, by id.
    closed spec fn view(&self) -> Seq<Tile> {
        Seq::new(self.nodes@.len(), |i: int| self.nodes@[i]@)
    }
}

impl CharGraph {
    /// The id that the coordinate index gives for `(y, x)`.
    spec fn indexed(&self, y: usize, x: usize) -> Option<usize> {
        if self.nodes_by_coord@.contains_key(y) && self.nodes_by_coord@[y]@.contains_key(x) {
            Some(self.nodes_by_coord@[y]@[x])
        } else {
            None
        }
    }

    /// Every node holds its own index, and the coordinate index finds each
    /// node at its coordinates and nothing else.
    pub closed spec fn index_wf(&self) -> bool {
        &&& forall|i: int| 0 <= i < self.nodes@.len() ==> (#[trigger] self.nodes@[i]).id == i
        &&& forall|y: usize, x: usize|
            (#[trigger] self.indexed(y, x)) matches Some(id) ==> id < self.nodes@.len()
                && self.nodes@[id as int].coords == (y, x)
        &&& forall|i: int|
            0 <= i < self.nodes@.len() ==> self.indexed(
                (#[trigger] self.nodes@[i]).coords.0,
                self.nodes@[i].coords.1,
            ) == Some(i as usize)
    }

    /// The graph is consistent inside and out.
    pub open spec fn wf(&self) -> bool {
        self.index_wf() && tiles_wf(self@)
    }
}

impl Default for CharGraph {
    /// A graph without tiles.
    fn default() -> (graph: Self)
        ensures
            graph.wf(),
            graph@ == Seq::<Tile>::empty(),
    {
        let graph = CharGraph { nodes: Vec::new(), nodes_by_coord: HashMap::new() };
        proof {
            assert(graph@ =~= Seq::<Tile>::empty());
        }
        graph
    }
}

impl CharGraph {
    /// The number of tiles.
    pub fn len(&self) -> (n: usize)
        ensures
            n == self@.len(),
    {
        self.nodes.len()
    }

    /// The tile with the given id.
    pub fn node(&self, id: usize) -> (node: &CharGraphNode)
        requires
            self.wf(),
            id < self@.len(),
        ensures
            node@ == self@[id as int],
            node.ident() == id,
    {
        &self.nodes[id]
    }

    /// The number of neighbours of the tile `id`, counted over all its
    /// letter-keyed sets.
    pub fn num_neighbors(&self, id: usize) -> (count: usize)
        requires
            self.wf(),
            id < self@.len(),
        ensures
            count == occurrences(self@[id as int].next),
            count == neighbors(self@, id as int).len(),
    {
        let node = &self.nodes[id];
        let mut count: usize = 0;
        let mut bound: usize = 0;
        while bound < 256
            invariant
                bound <= 256,
                self.wf(),
                id < self@.len(),
                *node == self.nodes@[id as int],
                count == occurrences_below(self@[id as int].next, bound as int),
            decreases 256 - bound,
        {
            proof {
                lemma_occurrences_below(self@, id as int, bound + 1);
            }
            let sym = bound as u8;
            match node.next.get(&sym) {
                Some(set) => {
                    count += set.len();
                },
                None => {},
            }
            bound += 1;
        }
        proof {
            crate::neighbor_count::lemma_occurrences(self@, id as int);
        }
        count
    }

    /// The id of the tile at row `y`, column `x`, if there is one.
    pub fn node_id_at(&self, y: usize, x: usize) -> (found: Option<usize>)
        requires
            self.wf(),
        ensures
            match found {
                Some(id) => id < self@.len() && self@[id as int].coords == (y, x),
                None => !occupied(self@, (y, x)),
            },
    {
        let found = match self.nodes_by_coord.get(&y) {
            Some(row) => match row.get(&x) {
                Some(id) => Some(*id),
                None => None,
            },
            None => None,
        };
        proof {
            assert(found == self.indexed(y, x));
            if found is None && occupied(self@, (y, x)) {
                let i = choose|i: int| 0 <= i < self@.len() && (#[trigger] self@[i]).coords == (y, x);
                assert(self.nodes@[i].coords == (y, x));
            }
        }
        found
    }

    /// Add a node to the graph, return its id.
    pub fn add_node(&mut self, val: u8, coords: (usize, usize)) -> (id: usize)
        requires
            old(self).wf(),
            !occupied(old(self)@, coords),
        ensures
            final(self).wf(),
            id == old(self)@.len(),
            final(self)@ == old(self)@.push(
                Tile { val, coords, next: Map::<u8, Set<usize>>::empty() },
            ),
    {
        let ghost before = *self;
        let id = self.nodes.len();
        self.nodes.push(CharGraphNode { id, val, coords, next: HashMap::new() });
        self.nodes_by_coord.entry(coords.0).or_insert(HashMap::new()).insert(coords.1, id);
        proof {
            let fresh = Tile { val, coords, next: Map::<u8, Set<usize>>::empty() };
            assert(self.nodes@[id as int]@.next =~= fresh.next);
            assert(self@ =~= before@.push(fresh));
            assert forall|y: usize, x: usize|
                #[trigger] self.indexed(y, x) == (if (y, x) == coords {
                    Some(id)
                } else {
                    before.indexed(y, x)
                }) by {
                if (y, x) == coords && before.indexed(y, x) is Some {
                    assert(before@[before.indexed(y, x)->0 as int].coords == coords);
                }
            }
            assert forall|i: int| 0 <= i < self.nodes@.len() implies self.indexed(
                (#[trigger] self.nodes@[i]).coords.0,
                self.nodes@[i].coords.1,
            ) == Some(i as usize) by {
                if i < id {
                    assert(self.nodes@[i] == before.nodes@[i]);
                    assert(before@[i].coords == before.nodes@[i].coords);
                }
            }
            assert(self.index_wf());
            assert forall|i: int, j: int| 0 <= i < j < self@.len() implies (#[trigger] self@[i]).coords
                != (#[trigger] self@[j]).coords by {
                if j == id {
                    assert(before@[i].coords == self@[i].coords);
                }
            }
            assert forall|i: int, sym: u8, other: usize|
                0 <= i < self@.len() && #[trigger] lists(self@, i, sym, other) implies other
                < self@.len() && self@[other as int].val == sym by {
                assert(self@[i] == before@[i]);
                assert(lists(before@, i, sym, other));
                assert(self@[other as int] == before@[other as int]);
            }
            assert forall|i: int, sym: u8|
                0 <= i < self@.len() && #[trigger] self@[i].next.contains_key(sym) implies self@[i].next[sym].finite()
                && self@[i].next[sym].len() > 0 by {
                assert(self@[i] == before@[i]);
            }
            assert forall|a: int, b: int| #[trigger] linked(self@, a, b) implies linked(self@, b, a) by {
                if a < id {
                    assert(self@[a] == before@[a]);
                    assert(lists(before@, a, self@[b].val, b as usize));
                    assert(linked(before@, a, b));
                    assert(linked(before@, b, a));
                }
            }
            assert(self@.len() == self.nodes.len());
            assert(tiles_wf(self@));
        }
        id
    }

    /// Add a node to the graph unless its coordinates are taken: `None`, and
    /// the graph as it was, where a tile already lies at `coords`.
    pub fn try_add_node(&mut self, val: u8, coords: (usize, usize)) -> (added: Option<usize>)
        requires
            old(self).wf(),
        ensures
            final(self).wf(),
            added is None <==> occupied(old(self)@, coords),
            added is None ==> final(self)@ == old(self)@,
            added matches Some(id) ==> id == old(self)@.len() && final(self)@ == old(self)@.push(
                Tile { val, coords, next: Map::<u8, Set<usize>>::empty() },
            ),
    {
        match self.node_id_at(coords.0, coords.1) {
            Some(_) => None,
            None => Some(self.add_node(val, coords)),
        }
    }

    /// Add an undirected edge between two nodes. No-op if edge already exists.
    pub fn add_edge(&mut self, node_id_a: usize, node_id_b: usize)
        requires
            old(self).wf(),
            node_id_a < old(self)@.len(),
            node_id_b < old(self)@.len(),
        ensures
            final(self).wf(),
            final(self)@ == with_edge(old(self)@, node_id_a as int, node_id_b as int),
    {
        let ghost before = *self;
        let val_a = self.nodes[node_id_a].val;
        let val_b = self.nodes[node_id_b].val;
        self.nodes[node_id_a].next.entry(val_b).or_insert(HashSet::new()).insert(node_id_b);
        let ghost mid = *self;
        self.nodes[node_id_b].next.entry(val_a).or_insert(HashSet::new()).insert(node_id_a);
        proof {
            let a = node_id_a as int;
            let b = node_id_b as int;
            let half = with_link(before@, a, b);
            assert(mid.nodes@[a]@.next =~= half[a].next);
            assert(mid@ =~= half);
            let full = with_link(half, b, a);
            assert(self.nodes@[b]@.next =~= full[b].next);
            assert(self@ =~= full);
            assert forall|y: usize, x: usize| #[trigger] self.indexed(y, x) == before.indexed(y, x) by {}
            assert forall|i: int| 0 <= i < self.nodes@.len() implies self.indexed(
                (#[trigger] self.nodes@[i]).coords.0,
                self.nodes@[i].coords.1,
            ) == Some(i as usize) by {
                assert(self.nodes@[i].coords == before.nodes@[i].coords);
            }
            assert forall|y: usize, x: usize| (#[trigger] self.indexed(y, x)) is Some implies self.indexed(
                y,
                x,
            )->0 < self.nodes@.len() && self.nodes@[self.indexed(y, x)->0 as int].coords == (y, x) by {
                let id = before.indexed(y, x)->0;
                assert(self.nodes@[id as int].coords == before.nodes@[id as int].coords);
            }
            assert(self.index_wf());
            lemma_with_edge_wf(before@, a, b);
        }
    }
}

/// What an added edge changes: the two tiles list each other, each under
/// the other's letter, and nothing else differs.
pub proof fn lemma_with_edge_effect(tiles: Seq<Tile>, a: int, b: int)
    requires
        tiles.len() <= usize::MAX,
        0 <= a < tiles.len(),
        0 <= b < tiles.len(),
    ensures
        with_edge(tiles, a, b).len() == tiles.len(),
        forall|i: int|
            0 <= i < tiles.len() ==> (#[trigger] with_edge(tiles, a, b)[i]).val == tiles[i].val
                && with_edge(tiles, a, b)[i].coords == tiles[i].coords,
        forall|i: int, sym: u8|
            0 <= i < tiles.len() ==> (#[trigger] with_edge(tiles, a, b)[i].next.contains_key(sym) <==> (
            tiles[i].next.contains_key(sym) || (i == a && sym == tiles[b].val) || (i == b && sym
                == tiles[a].val))),
        forall|i: int, sym: u8, id: usize|
            0 <= i < tiles.len() ==> (#[trigger] lists(with_edge(tiles, a, b), i, sym, id) <==> lists(
                tiles,
                i,
                sym,
                id,
            ) || (i == a && sym == tiles[b].val && id == b) || (i == b && sym == tiles[a].val && id
                == a)),
{
    let half = with_link(tiles, a, b);
    let full = with_edge(tiles, a, b);
    assert forall|i: int, sym: u8, id: usize| 0 <= i < tiles.len() implies (#[trigger] lists(
        full,
        i,
        sym,
        id,
    ) <==> lists(tiles, i, sym, id) || (i == a && sym == tiles[b].val && id == b) || (i == b && sym
        == tiles[a].val && id == a)) by {
        assert(lists(half, i, sym, id) <==> lists(tiles, i, sym, id) || (i == a && sym
            == tiles[b].val && id == b));
        assert(half[a].val == tiles[a].val);
        assert(lists(full, i, sym, id) <==> lists(half, i, sym, id) || (i == b && sym == half[a].val
            && id == a));
    }
}

/// An added edge keeps the tiles consistent.
pub proof fn lemma_with_edge_wf(tiles: Seq<Tile>, a: int, b: int)
    requires
        tiles_wf(tiles),
        0 <= a < tiles.len(),
        0 <= b < tiles.len(),
    ensures
        tiles_wf(with_edge(tiles, a, b)),
{
    let after = with_edge(tiles, a, b);
    lemma_with_edge_effect(tiles, a, b);
    assert forall|i: int, j: int| 0 <= i < j < after.len() implies (#[trigger] after[i]).coords
        != (#[trigger] after[j]).coords by {
        assert(tiles[i].coords != tiles[j].coords);
    }
    assert forall|i: int, sym: u8, id: usize|
        0 <= i < after.len() && #[trigger] lists(after, i, sym, id) implies id < after.len()
        && after[id as int].val == sym by {
        if lists(tiles, i, sym, id) {
            assert(id < tiles.len() && tiles[id as int].val == sym);
        }
    }
    assert forall|i: int, sym: u8| 0 <= i < after.len() && #[trigger] after[i].next.contains_key(
        sym,
    ) implies after[i].next[sym].finite() && after[i].next[sym].len() > 0 by {
        let half = with_link(tiles, a, b);
        if tiles[i].next.contains_key(sym) {
            assert(tiles[i].next[sym].finite() && tiles[i].next[sym].len() > 0);
        }
        if half[i].next.contains_key(sym) {
            assert(half[i].next[sym].finite() && half[i].next[sym].len() > 0);
        }
    }
    assert forall|x: int, y: int| #[trigger] linked(after, x, y) implies linked(after, y, x) by {
        assert(lists(after, x, after[y].val, y as usize));
        if lists(tiles, x, tiles[y].val, y as usize) {
            assert(linked(tiles, x, y));
            assert(linked(tiles, y, x));
            assert(lists(tiles, y, tiles[x].val, x as usize));
        }
        assert(lists(after, y, after[x].val, x as usize));
    }
}

/// Adding an edge that is already there changes nothing.
pub proof fn lemma_add_edge_twice(tiles: Seq<Tile>, a: int, b: int)
    requires
        tiles.len() <= usize::MAX,
        0 <= a < tiles.len(),
        0 <= b < tiles.len(),
    ensures
        with_edge(with_edge(tiles, a, b), a, b) == with_edge(tiles, a, b),
{
    let once = with_edge(tiles, a, b);
    let twice = with_edge(once, a, b);
    lemma_with_edge_effect(tiles, a, b);
    lemma_with_edge_effect(once, a, b);
    assert forall|i: int| 0 <= i < once.len() implies twice[i] == once[i] by {
        assert forall|sym: u8| #[trigger]
            twice[i].next.contains_key(sym) implies twice[i].next[sym] =~= once[i].next[sym] by {
            assert forall|id: usize|
                twice[i].next[sym].contains(id) <==> once[i].next[sym].contains(id) by {
                assert(lists(twice, i, sym, id) <==> lists(once, i, sym, id));
            }
        }
        assert(twice[i].next =~= once[i].next);
    }
    assert(twice =~= once);
}

/// An edge is the same whichever end is named first.
pub proof fn lemma_add_edge_commutes(tiles: Seq<Tile>, a: int, b: int)
    requires
        tiles.len() <= usize::MAX,
        0 <= a < tiles.len(),
        0 <= b < tiles.len(),
    ensures
        with_edge(tiles, a, b) == with_edge(tiles, b, a),
{
    let ab = with_edge(tiles, a, b);
    let ba = with_edge(tiles, b, a);
    lemma_with_edge_effect(tiles, a, b);
    lemma_with_edge_effect(tiles, b, a);
    assert forall|i: int| 0 <= i < ab.len() implies ab[i] == ba[i] by {
        assert forall|sym: u8| #[trigger]
            ab[i].next.contains_key(sym) implies ab[i].next[sym] =~= ba[i].next[sym] by {
            assert forall|id: usize| ab[i].next[sym].contains(id) <==> ba[i].next[sym].contains(id) by {
                assert(lists(ab, i, sym, id) <==> lists(ba, i, sym, id));
            }
        }
        assert(ab[i].next =~= ba[i].next);
    }
    assert(ab =~= ba);
}

/// Adjacency is symmetric: a tile listed among the neighbours of another
/// bears the letter it is filed under and lists that other tile in turn,
/// under the other's letter.
pub proof fn lemma_adjacency_symmetric(tiles: Seq<Tile>, a: int, sym: u8, b: usize)
    requires
        tiles_wf(tiles),
        0 <= a < tiles.len(),
        lists(tiles, a, sym, b),
    ensures
        b < tiles.len(),
        tiles[b as int].val == sym,
        lists(tiles, b as int, tiles[a].val, a as usize),
{
    assert(linked(tiles, a, b as int));
    assert(linked(tiles, b as int, a));
}

} // verus!
