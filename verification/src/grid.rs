//! Building the adjacency graph of a square letter grid, in which every
//! tile touches the up to eight tiles around it.

use vstd::prelude::*;
use crate::char_graph::{
    lemma_with_edge_effect, lists, occupied, tiles_wf, with_edge, CharGraph, Tile,
};
use crate::neighbor_count::{lemma_occurrences, neighbors, occurrences};

verus! {

/// Whether two different cells touch, side by side or corner to corner.
pub open spec fn king_adjacent(a: (usize, usize), b: (usize, usize)) -> bool {
    &&& a != b
    &&& -1 <= a.0 - b.0 <= 1
    &&& -1 <= a.1 - b.1 <= 1
}

/// Whether the grid has as many columns in every row as it has rows.
pub open spec fn is_square(rows: Seq<Seq<u8>>) -> bool {
    forall|y: int| 0 <= y < rows.len() ==> (#[trigger] rows[y]).len() == rows.len()
}

/// The rows of a list of rows, each as a sequence of symbols.
pub open spec fn row_seqs(rows: Seq<Vec<u8>>) -> Seq<Seq<u8>> {
    rows.map_values(|row: Vec<u8>| row@)
}

/// The first `count` tiles are the first `count` cells of the grid in
/// row-major order, each with its letter and its coordinates.
pub open spec fn cells_placed(tiles: Seq<Tile>, rows: Seq<Seq<u8>>, count: int) -> bool {
    let n = rows.len() as int;
    &&& tiles.len() == count
    &&& forall|i: int|
        0 <= i < count ==> {
            &&& (#[trigger] tiles[i]).coords.0 < n
            &&& tiles[i].coords.1 < n
            &&& i == tiles[i].coords.0 * n + tiles[i].coords.1
            &&& tiles[i].val == rows[tiles[i].coords.0 as int][tiles[i].coords.1 as int]
        }
}

/// The tiles are those of the grid `rows`: one per cell, numbered row by
/// row, each listing exactly the tiles that touch it, every one under its
/// letter.
pub open spec fn is_grid_of(tiles: Seq<Tile>, rows: Seq<Seq<u8>>) -> bool {
    &&& cells_placed(tiles, rows, (rows.len() * rows.len()) as int)
    &&& forall|i: int, sym: u8, id: usize|
        0 <= i < tiles.len() ==> (#[trigger] lists(tiles, i, sym, id) <==> id < tiles.len()
            && tiles[id as int].val == sym && king_adjacent(tiles[i].coords, tiles[id as int].coords))
}

/// Whether the step from `from` to the touching cell `to` comes before the
/// place `(y, x, dy, dx)` when the cells are taken row by row and, for each
/// cell, the three by three offsets around it row by row.
spec fn stepped(
    from: (usize, usize),
    to: (usize, usize),
    y: int,
    x: int,
    dy: int,
    dx: int,
) -> bool {
    let oy = to.0 - from.0 + 1;
    let ox = to.1 - from.1 + 1;
    from.0 < y || (from.0 == y && (from.1 < x || (from.1 == x && (oy < dy || (oy == dy && ox
        < dx)))))
}

/// The tiles list exactly the touching pairs whose step, from either end,
/// comes before the place `(y, x, dy, dx)`.
spec fn edges_upto(tiles: Seq<Tile>, y: int, x: int, dy: int, dx: int) -> bool {
    forall|i: int, sym: u8, id: usize|
        0 <= i < tiles.len() ==> (#[trigger] lists(tiles, i, sym, id) <==> id < tiles.len()
            && tiles[id as int].val == sym && king_adjacent(tiles[i].coords, tiles[id as int].coords)
            && (stepped(tiles[i].coords, tiles[id as int].coords, y, x, dy, dx) || stepped(
            tiles[id as int].coords,
            tiles[i].coords,
            y,
            x,
            dy,
            dx,
        )))
}

/// A cell's number is below the number of the cells.
pub proof fn lemma_cell_number_bound(n: int, y: int, x: int)
    requires
        0 <= y < n,
        0 <= x < n,
    ensures
        0 <= y * n + x < n * n,
        y * n + x < (y + 1) * n,
        (y + 1) * n == y * n + n,
        (y + 1) * n <= n * n,
{
    assert(0 <= y * n) by (nonlinear_arith)
        requires
            0 <= y,
            0 <= n,
    ;
    assert((y + 1) * n == y * n + n) by (nonlinear_arith);
    assert((y + 1) * n <= n * n) by (nonlinear_arith)
        requires
            y + 1 <= n,
            0 <= n,
    ;
}

/// Two cells with the same number are the same cell.
pub proof fn lemma_cell_number_unique(n: int, y: int, x: int, cy: int, cx: int)
    requires
        0 <= y,
        0 <= cy,
        0 <= x < n,
        0 <= cx < n,
        y * n + x == cy * n + cx,
    ensures
        y == cy,
        x == cx,
{
    if y < cy {
        assert((y + 1) * n <= cy * n) by (nonlinear_arith)
            requires
                y + 1 <= cy,
                0 <= n,
        ;
        assert((y + 1) * n == y * n + n) by (nonlinear_arith);
    } else if cy < y {
        assert((cy + 1) * n <= y * n) by (nonlinear_arith)
            requires
                cy + 1 <= y,
                0 <= n,
        ;
        assert((cy + 1) * n == cy * n + n) by (nonlinear_arith);
    }
}

/// Once the cells are placed, the tile of the cell `(y, x)` is tile
/// `y * n + x`.
pub proof fn lemma_tile_of_cell(tiles: Seq<Tile>, rows: Seq<Seq<u8>>, y: int, x: int)
    requires
        cells_placed(tiles, rows, tiles.len() as int),
        0 <= y < rows.len(),
        0 <= x < rows.len(),
        y * rows.len() + x < tiles.len(),
    ensures
        0 <= y * rows.len() + x,
        tiles[y * rows.len() + x].coords == (y as usize, x as usize),
        tiles[y * rows.len() + x].val == rows[y][x],
{
    let n = rows.len() as int;
    lemma_cell_number_bound(n, y, x);
    let i = y * n + x;
    let c = tiles[i].coords;
    lemma_cell_number_unique(n, y, x, c.0 as int, c.1 as int);
}

/// Taking the step from the cell of tile `a` to the touching cell of tile
/// `b` by adding their edge moves the place one offset on.
proof fn lemma_step_taken(
    before: Seq<Tile>,
    rows: Seq<Seq<u8>>,
    y: int,
    x: int,
    dy: int,
    dx: int,
    a: int,
    b: int,
)
    requires
        cells_placed(before, rows, before.len() as int),
        before.len() <= usize::MAX,
        edges_upto(before, y, x, dy, dx),
        0 <= dy < 3,
        0 <= dx < 3,
        !(dy == 1 && dx == 1),
        0 <= a < before.len(),
        0 <= b < before.len(),
        before[a].coords == (y as usize, x as usize),
        before[b].coords == ((y + dy - 1) as usize, (x + dx - 1) as usize),
        0 <= y <= usize::MAX,
        0 <= x <= usize::MAX,
        0 <= y + dy - 1 <= usize::MAX,
        0 <= x + dx - 1 <= usize::MAX,
    ensures
        cells_placed(with_edge(before, a, b), rows, before.len() as int),
        edges_upto(with_edge(before, a, b), y, x, dy, dx + 1),
{
    let after = with_edge(before, a, b);
    lemma_with_edge_effect(before, a, b);
    assert forall|i: int, sym: u8, id: usize| 0 <= i < after.len() implies (#[trigger] lists(
        after,
        i,
        sym,
        id,
    ) <==> id < after.len() && after[id as int].val == sym && king_adjacent(
        after[i].coords,
        after[id as int].coords,
    ) && (stepped(after[i].coords, after[id as int].coords, y, x, dy, dx + 1) || stepped(
        after[id as int].coords,
        after[i].coords,
        y,
        x,
        dy,
        dx + 1,
    ))) by {
        let was = lists(before, i, sym, id);
        assert(lists(after, i, sym, id) <==> was || (i == a && sym == before[b].val && id == b) || (i
            == b && sym == before[a].val && id == a));
        if id < before.len() {
            let j = id as int;
            let ci = before[i].coords;
            let cj = before[j].coords;
            assert(after[i].coords == ci);
            assert(after[j].coords == cj);
            assert(after[j].val == before[j].val);
            assert(ci == before[a].coords ==> i == a);
            assert(cj == before[a].coords ==> j == a);
            assert(ci == before[b].coords ==> i == b);
            assert(cj == before[b].coords ==> j == b);
        }
    }
}

/// Where no cell lies at the offset `(dy, dx)` from the cell `(y, x)`, or
/// the offset is the cell itself, the place moves on with nothing to add.
proof fn lemma_step_skipped(tiles: Seq<Tile>, rows: Seq<Seq<u8>>, y: int, x: int, dy: int, dx: int)
    requires
        cells_placed(tiles, rows, tiles.len() as int),
        edges_upto(tiles, y, x, dy, dx),
        0 <= dy < 3,
        0 <= dx < 3,
        (dy == 1 && dx == 1) || y + dy - 1 < 0 || y + dy - 1 >= rows.len() || x + dx - 1 < 0 || x + dx
            - 1 >= rows.len(),
    ensures
        edges_upto(tiles, y, x, dy, dx + 1),
{
    assert forall|i: int, sym: u8, id: usize| 0 <= i < tiles.len() implies (#[trigger] lists(
        tiles,
        i,
        sym,
        id,
    ) <==> id < tiles.len() && tiles[id as int].val == sym && king_adjacent(
        tiles[i].coords,
        tiles[id as int].coords,
    ) && (stepped(tiles[i].coords, tiles[id as int].coords, y, x, dy, dx + 1) || stepped(
        tiles[id as int].coords,
        tiles[i].coords,
        y,
        x,
        dy,
        dx + 1,
    ))) by {
        if id < tiles.len() {
            let j = id as int;
            let ci = tiles[i].coords;
            let cj = tiles[j].coords;
            assert(cj.0 < rows.len() && cj.1 < rows.len());
            assert(ci.0 < rows.len() && ci.1 < rows.len());
        }
    }
}

/// Places that name the same point of the walk over cells and offsets hold
/// the same edges.
proof fn lemma_place_rolls_over(tiles: Seq<Tile>, rows: Seq<Seq<u8>>, y: int, x: int, dy: int)
    requires
        cells_placed(tiles, rows, tiles.len() as int),
    ensures
        edges_upto(tiles, y, x, dy, 3) ==> edges_upto(tiles, y, x, dy + 1, 0),
        edges_upto(tiles, y, x, 3, 0) ==> edges_upto(tiles, y, x + 1, 0, 0),
        edges_upto(tiles, y, rows.len() as int, 0, 0) ==> edges_upto(tiles, y + 1, 0, 0, 0),
{
    if edges_upto(tiles, y, x, dy, 3) {
        assert forall|i: int, sym: u8, id: usize| 0 <= i < tiles.len() implies (#[trigger] lists(
            tiles,
            i,
            sym,
            id,
        ) <==> id < tiles.len() && tiles[id as int].val == sym && king_adjacent(
            tiles[i].coords,
            tiles[id as int].coords,
        ) && (stepped(tiles[i].coords, tiles[id as int].coords, y, x, dy + 1, 0) || stepped(
            tiles[id as int].coords,
            tiles[i].coords,
            y,
            x,
            dy + 1,
            0,
        ))) by {}
    }
    if edges_upto(tiles, y, x, 3, 0) {
        assert forall|i: int, sym: u8, id: usize| 0 <= i < tiles.len() implies (#[trigger] lists(
            tiles,
            i,
            sym,
            id,
        ) <==> id < tiles.len() && tiles[id as int].val == sym && king_adjacent(
            tiles[i].coords,
            tiles[id as int].coords,
        ) && (stepped(tiles[i].coords, tiles[id as int].coords, y, x + 1, 0, 0) || stepped(
            tiles[id as int].coords,
            tiles[i].coords,
            y,
            x + 1,
            0,
            0,
        ))) by {}
    }
    if edges_upto(tiles, y, rows.len() as int, 0, 0) {
        assert forall|i: int, sym: u8, id: usize| 0 <= i < tiles.len() implies (#[trigger] lists(
            tiles,
            i,
            sym,
            id,
        ) <==> id < tiles.len() && tiles[id as int].val == sym && king_adjacent(
            tiles[i].coords,
            tiles[id as int].coords,
        ) && (stepped(tiles[i].coords, tiles[id as int].coords, y + 1, 0, 0, 0) || stepped(
            tiles[id as int].coords,
            tiles[i].coords,
            y + 1,
            0,
            0,
            0,
        ))) by {
            if id < tiles.len() {
                assert(tiles[id as int].coords.1 < rows.len());
                assert(tiles[i].coords.1 < rows.len());
            }
        }
    }
}

impl CharGraph {
    /// Build the graph of a square grid of letters: one tile per cell,
    /// numbered row by row, and an edge between every two cells that touch.
    pub fn from_grid(rows: &[Vec<u8>]) -> (graph: Self)
        requires
            is_square(row_seqs(rows@)),
            rows@.len() * rows@.len() <= usize::MAX,
        ensures
            graph.wf(),
            is_grid_of(graph@, row_seqs(rows@)),
    {
        let n = rows.len();
        let ghost cells = row_seqs(rows@);
        let mut graph = CharGraph::default();
        let mut y: usize = 0;
        while y < n
            invariant
                n == rows@.len(),
                cells == row_seqs(rows@),
                is_square(cells),
                n * n <= usize::MAX,
                y <= n,
                graph.wf(),
                cells_placed(graph@, cells, (y * n) as int),
                forall|i: int| 0 <= i < graph@.len() ==> (#[trigger] graph@[i]).next.dom() =~= Set::<u8>::empty(),
            decreases n - y,
        {
            let mut x: usize = 0;
            proof {
                lemma_cell_number_bound(n as int, y as int, 0);
            }
            while x < n
                invariant
                    n == rows@.len(),
                    cells == row_seqs(rows@),
                    is_square(cells),
                    n * n <= usize::MAX,
                    y < n,
                    x <= n,
                    graph.wf(),
                    cells_placed(graph@, cells, (y * n + x) as int),
                    forall|i: int| 0 <= i < graph@.len() ==> (#[trigger] graph@[i]).next.dom() =~= Set::<u8>::empty(),
                decreases n - x,
            {
                let ghost before = graph@;
                proof {
                    lemma_cell_number_bound(n as int, y as int, x as int);
                    if occupied(before, (y, x)) {
                        let i = choose|i: int|
                            0 <= i < before.len() && (#[trigger] before[i]).coords == (y, x);
                        assert(i == y * n + x);
                    }
                    assert(cells[y as int] == rows@[y as int]@);
                }
                graph.add_node(rows[y][x], (y, x));
                proof {
                    assert forall|i: int| 0 <= i < graph@.len() implies (#[trigger] graph@[i]).next.dom()
                        =~= Set::<u8>::empty() by {
                        if i < before.len() {
                            assert(graph@[i] == before[i]);
                        }
                    }
                    assert forall|i: int| 0 <= i < graph@.len() implies (#[trigger] graph@[i]).coords.0
                        < n && graph@[i].coords.1 < n && i == graph@[i].coords.0 * n
                        + graph@[i].coords.1 && graph@[i].val
                        == cells[graph@[i].coords.0 as int][graph@[i].coords.1 as int] by {
                        if i < before.len() {
                            assert(graph@[i] == before[i]);
                        }
                    }
                }
                x += 1;
            }
            proof {
                lemma_cell_number_bound(n as int, y as int, 0);
            }
            y += 1;
        }
        proof {
            assert forall|i: int, sym: u8, id: usize| 0 <= i < graph@.len() implies !(#[trigger] lists(
                graph@,
                i,
                sym,
                id,
            )) by {
                assert(graph@[i].next.dom() =~= Set::<u8>::empty());
                assert(!graph@[i].next.dom().contains(sym));
            }
            assert(edges_upto(graph@, 0, 0, 0, 0));
        }
        let mut y: usize = 0;
        while y < n
            invariant
                n == rows@.len(),
                cells.len() == n,
                n * n <= usize::MAX,
                y <= n,
                graph.wf(),
                cells_placed(graph@, cells, (n * n) as int),
                edges_upto(graph@, y as int, 0, 0, 0),
            decreases n - y,
        {
            let mut x: usize = 0;
            while x < n
                invariant
                    n == rows@.len(),
                    cells.len() == n,
                    n * n <= usize::MAX,
                    y < n,
                    x <= n,
                    graph.wf(),
                    cells_placed(graph@, cells, (n * n) as int),
                    edges_upto(graph@, y as int, x as int, 0, 0),
                decreases n - x,
            {
                let mut dy: usize = 0;
                while dy < 3
                    invariant
                        n == rows@.len(),
                        cells.len() == n,
                        n * n <= usize::MAX,
                        y < n,
                        x < n,
                        dy <= 3,
                        graph.wf(),
                        cells_placed(graph@, cells, (n * n) as int),
                        edges_upto(graph@, y as int, x as int, dy as int, 0),
                    decreases 3 - dy,
                {
                    let mut dx: usize = 0;
                    while dx < 3
                        invariant
                            n == rows@.len(),
                            cells.len() == n,
                            n * n <= usize::MAX,
                            y < n,
                            x < n,
                            dy < 3,
                            dx <= 3,
                            graph.wf(),
                            cells_placed(graph@, cells, (n * n) as int),
                            edges_upto(graph@, y as int, x as int, dy as int, dx as int),
                        decreases 3 - dx,
                    {
                        let skip = (dy == 1 && dx == 1) || (dy == 0 && y == 0) || (dy == 2 && y + 1
                            >= n) || (dx == 0 && x == 0) || (dx == 2 && x + 1 >= n);
                        if !skip {
                            let neighbor_y = y + dy - 1;
                            let neighbor_x = x + dx - 1;
                            let ghost before = graph@;
                            proof {
                                lemma_cell_number_bound(n as int, y as int, x as int);
                                lemma_cell_number_bound(n as int, neighbor_y as int, neighbor_x as int);
                                lemma_tile_of_cell(before, cells, y as int, x as int);
                                lemma_tile_of_cell(before, cells, neighbor_y as int, neighbor_x as int);
                            }
                            let node_id = graph.node_id_at(y, x).unwrap();
                            let neighbor_id = graph.node_id_at(neighbor_y, neighbor_x).unwrap();
                            graph.add_edge(node_id, neighbor_id);
                            proof {
                                lemma_step_taken(
                                    before,
                                    cells,
                                    y as int,
                                    x as int,
                                    dy as int,
                                    dx as int,
                                    node_id as int,
                                    neighbor_id as int,
                                );
                            }
                        } else {
                            proof {
                                lemma_step_skipped(
                                    graph@,
                                    cells,
                                    y as int,
                                    x as int,
                                    dy as int,
                                    dx as int,
                                );
                            }
                        }
                        dx += 1;
                    }
                    proof {
                        lemma_place_rolls_over(graph@, cells, y as int, x as int, dy as int);
                    }
                    dy += 1;
                }
                proof {
                    lemma_place_rolls_over(graph@, cells, y as int, x as int, 0);
                }
                x += 1;
            }
            proof {
                lemma_place_rolls_over(graph@, cells, y as int, 0, 0);
            }
            y += 1;
        }
        proof {
            assert(is_grid_of(graph@, cells));
        }
        graph
    }
}

/// The rows of a four by four grid.
pub open spec fn simple_rows(chars: [[u8; 4]; 4]) -> Seq<Seq<u8>> {
    Seq::new(4, |y: int| chars@[y]@)
}

impl CharGraph {
    /// Build a char graph for a simple 4x4 grid.
    pub fn from_simple_grid(chars: &[[u8; 4]; 4]) -> (graph: Self)
        ensures
            graph.wf(),
            is_grid_of(graph@, simple_rows(*chars)),
    {
        let mut rows: Vec<Vec<u8>> = Vec::new();
        let mut y: usize = 0;
        while y < 4
            invariant
                y <= 4,
                rows@.len() == y,
                forall|r: int| 0 <= r < y ==> (#[trigger] rows@[r])@ == chars@[r]@,
            decreases 4 - y,
        {
            let mut row: Vec<u8> = Vec::new();
            let mut x: usize = 0;
            while x < 4
                invariant
                    y < 4,
                    x <= 4,
                    row@.len() == x,
                    forall|c: int| 0 <= c < x ==> #[trigger] row@[c] == chars@[y as int]@[c],
                decreases 4 - x,
            {
                row.push(chars[y][x]);
                x += 1;
            }
            proof {
                assert(row@ =~= chars@[y as int]@);
            }
            rows.push(row);
            y += 1;
        }
        proof {
            assert(row_seqs(rows@) =~= simple_rows(*chars));
        }
        CharGraph::from_grid(rows.as_slice())
    }
}

/// Where the cell at the `k`-th of the nine offsets around `(y, x)`, taken
/// row by row, lies in a grid of side `n` and is not `(y, x)` itself.
spec fn offset_in_grid(n: int, y: int, x: int, k: int) -> bool {
    &&& k != 4
    &&& 0 <= y + k / 3 - 1 < n
    &&& 0 <= x + k % 3 - 1 < n
}

/// How many of the first `k` offsets around `(y, x)` lead to a cell of the
/// grid.
spec fn offsets_in_grid(n: int, y: int, x: int, k: int) -> nat
    decreases k,
{
    if k <= 0 {
        0
    } else {
        offsets_in_grid(n, y, x, k - 1) + (if offset_in_grid(n, y, x, k - 1) {
            1nat
        } else {
            0nat
        })
    }
}

/// The tiles that touch tile `i` at one of the first `k` offsets.
spec fn touching_below(tiles: Seq<Tile>, i: int, k: int) -> Set<usize> {
    Set::new(
        |id: usize|
            id < tiles.len() && king_adjacent(tiles[i].coords, tiles[id as int].coords) && (
            tiles[id as int].coords.0 - tiles[i].coords.0 + 1) * 3 + (tiles[id as int].coords.1
                - tiles[i].coords.1 + 1) < k,
    )
}

/// The tiles touching a tile at the first `k` offsets are as many as those
/// offsets that lead into the grid.
proof fn lemma_touching_below(tiles: Seq<Tile>, rows: Seq<Seq<u8>>, i: int, k: int)
    requires
        cells_placed(tiles, rows, (rows.len() * rows.len()) as int),
        tiles.len() <= usize::MAX,
        0 <= i < tiles.len(),
        0 <= k <= 9,
    ensures
        touching_below(tiles, i, k).finite(),
        touching_below(tiles, i, k).len() == offsets_in_grid(
            rows.len() as int,
            tiles[i].coords.0 as int,
            tiles[i].coords.1 as int,
            k,
        ),
    decreases k,
{
    let n = rows.len() as int;
    let y = tiles[i].coords.0 as int;
    let x = tiles[i].coords.1 as int;
    let now = touching_below(tiles, i, k);
    if k == 0 {
        assert(now =~= Set::<usize>::empty());
    } else {
        lemma_touching_below(tiles, rows, i, k - 1);
        let earlier = touching_below(tiles, i, k - 1);
        let o = k - 1;
        let ny = y + o / 3 - 1;
        let nx = x + o % 3 - 1;
        if offset_in_grid(n, y, x, o) {
            lemma_cell_number_bound(n, ny, nx);
            lemma_tile_of_cell(tiles, rows, ny, nx);
            let id = (ny * n + nx) as usize;
            assert(tiles[id as int].coords == (ny as usize, nx as usize));
            assert forall|other: usize| now.contains(other) implies earlier.insert(id).contains(
                other,
            ) by {
                let c = tiles[other as int].coords;
                if !earlier.contains(other) {
                    assert((c.0 - y + 1) * 3 + (c.1 - x + 1) == o);
                    assert(c.0 == ny && c.1 == nx);
                    assert(other == c.0 * n + c.1);
                }
            }
            assert(now.contains(id));
            assert(now =~= earlier.insert(id));
            assert(!earlier.contains(id));
        } else {
            assert forall|other: usize| now.contains(other) implies earlier.contains(other) by {
                let c = tiles[other as int].coords;
                if !earlier.contains(other) {
                    assert((c.0 - y + 1) * 3 + (c.1 - x + 1) == o);
                    assert(c.0 == ny && c.1 == nx);
                    assert(c.0 < n && c.1 < n);
                }
            }
            assert(now =~= earlier);
        }
    }
}

/// Neighbour count by position: in the graph of a grid of side two or
/// more, a corner tile lists three neighbours over all its sets, a tile on
/// an edge but in no corner five, and every other tile eight.
pub proof fn lemma_neighbor_count_by_position(tiles: Seq<Tile>, rows: Seq<Seq<u8>>, i: int)
    requires
        tiles_wf(tiles),
        is_grid_of(tiles, rows),
        rows.len() >= 2,
        0 <= i < tiles.len(),
    ensures
        ({
            let y_edge = tiles[i].coords.0 == 0 || tiles[i].coords.0 == rows.len() - 1;
            let x_edge = tiles[i].coords.1 == 0 || tiles[i].coords.1 == rows.len() - 1;
            occurrences(tiles[i].next) == (if y_edge && x_edge {
                3nat
            } else if y_edge || x_edge {
                5nat
            } else {
                8nat
            })
        }),
{
    let n = rows.len() as int;
    let y = tiles[i].coords.0 as int;
    let x = tiles[i].coords.1 as int;
    lemma_occurrences(tiles, i);
    lemma_touching_below(tiles, rows, i, 9);
    assert(neighbors(tiles, i) =~= touching_below(tiles, i, 9));
    reveal_with_fuel(offsets_in_grid, 10);
    assert(offsets_in_grid(n, y, x, 9) == (if (y == 0 || y == n - 1) && (x == 0 || x == n - 1) {
        3nat
    } else if (y == 0 || y == n - 1) || (x == 0 || x == n - 1) {
        5nat
    } else {
        8nat
    }));
}

/// In the graph of a grid, a tile listed among the neighbours of another
/// bears the letter it is filed under and lists that other tile in turn,
/// under the other's letter.
pub proof fn lemma_grid_adjacency_symmetric(
    tiles: Seq<Tile>,
    rows: Seq<Seq<u8>>,
    a: int,
    sym: u8,
    b: usize,
)
    requires
        is_grid_of(tiles, rows),
        0 <= a < tiles.len() <= usize::MAX,
        lists(tiles, a, sym, b),
    ensures
        b < tiles.len(),
        tiles[b as int].val == sym,
        lists(tiles, b as int, tiles[a].val, a as usize),
{
}

/// A grid has one graph only: its tiles, their order and every one of
/// their neighbour sets are determined by the rows.
pub proof fn lemma_grid_graph_determined(a: Seq<Tile>, b: Seq<Tile>, rows: Seq<Seq<u8>>)
    requires
        tiles_wf(a),
        tiles_wf(b),
        is_grid_of(a, rows),
        is_grid_of(b, rows),
    ensures
        a == b,
{
    let n = rows.len() as int;
    assert forall|i: int| 0 <= i < a.len() implies a[i] == b[i] by {
        let ca = a[i].coords;
        let cb = b[i].coords;
        lemma_cell_number_unique(n, ca.0 as int, ca.1 as int, cb.0 as int, cb.1 as int);
        assert forall|id: int| 0 <= id < a.len() implies (#[trigger] a[id]).coords == b[id].coords
            && a[id].val == b[id].val by {
            let da = a[id].coords;
            let db = b[id].coords;
            lemma_cell_number_unique(n, da.0 as int, da.1 as int, db.0 as int, db.1 as int);
        }
        assert forall|sym: u8, id: usize| lists(a, i, sym, id) <==> lists(b, i, sym, id) by {
            if id < a.len() {
                assert(a[id as int].coords == b[id as int].coords);
            }
        }
        assert forall|sym: u8| a[i].next.contains_key(sym) <==> b[i].next.contains_key(sym) by {
            if a[i].next.contains_key(sym) {
                let id = a[i].next[sym].choose();
                assert(lists(a, i, sym, id));
                assert(lists(b, i, sym, id));
            }
            if b[i].next.contains_key(sym) {
                let id = b[i].next[sym].choose();
                assert(lists(b, i, sym, id));
                assert(lists(a, i, sym, id));
            }
        }
        assert forall|sym: u8| #[trigger] a[i].next.contains_key(sym) implies a[i].next[sym]
            =~= b[i].next[sym] by {
            assert forall|id: usize| a[i].next[sym].contains(id) <==> b[i].next[sym].contains(id) by {
                assert(lists(a, i, sym, id) <==> lists(b, i, sym, id));
            }
        }
        assert(a[i].next =~= b[i].next);
    }
    assert(a =~= b);
}

} // verus!
