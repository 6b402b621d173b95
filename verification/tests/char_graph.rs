use std::collections::HashSet;

use solver::CharGraph;

fn numbered_grid(n: usize) -> Vec<Vec<u8>> {
    (0..n).map(|y| (0..n).map(|x| (y * n + x) as u8).collect()).collect()
}

fn neighbor_ids(graph: &CharGraph, id: usize) -> Vec<usize> {
    let mut ids: Vec<usize> =
        graph.node(id).next().values().flat_map(|set| set.iter().copied()).collect();
    ids.sort();
    ids
}

#[test]
fn test_char_graph_grid_num_neighbors() {
    let graph = CharGraph::from_simple_grid(&[
        [0, 1, 2, 3],
        [4, 5, 6, 7],
        [8, 9, 10, 11],
        [12, 13, 14, 15],
    ]);
    for y in 0..4 {
        for x in 0..4 {
            let y_edge = y == 0 || y == 3;
            let x_edge = x == 0 || x == 3;
            let node_id = graph.node_id_at(y, x).unwrap();
            let num_neighbors: usize =
                graph.node(node_id).next().values().map(|set| set.len()).sum();
            if y_edge && x_edge {
                assert_eq!(num_neighbors, 3);
            } else if y_edge || x_edge {
                assert_eq!(num_neighbors, 5);
            } else {
                assert_eq!(num_neighbors, 8);
            }
        }
    }
}

#[test]
fn simple_grid_corner_and_interior_tiles() {
    let graph = CharGraph::from_simple_grid(&[
        [0, 1, 2, 3],
        [4, 5, 6, 7],
        [8, 9, 10, 11],
        [12, 13, 14, 15],
    ]);
    assert_eq!(graph.len(), 16);
    let corner = graph.node_id_at(0, 0).unwrap();
    assert_eq!(corner, 0);
    assert_eq!(graph.num_neighbors(corner), 3);
    assert_eq!(neighbor_ids(&graph, corner), vec![1, 4, 5]);
    let mut letters: Vec<u8> = graph.node(corner).next().keys().copied().collect();
    letters.sort();
    assert_eq!(letters, vec![1, 4, 5]);
    let inner = graph.node_id_at(1, 1).unwrap();
    assert_eq!(inner, 5);
    assert_eq!(graph.num_neighbors(inner), 8);
    assert_eq!(neighbor_ids(&graph, inner), vec![0, 1, 2, 4, 6, 8, 9, 10]);
}

#[test]
fn simple_grid_tiles_keep_letter_and_place() {
    let chars = [[7u8, 7, 3, 0], [1, 2, 3, 4], [25, 24, 23, 22], [9, 9, 9, 9]];
    let graph = CharGraph::from_simple_grid(&chars);
    for y in 0..4 {
        for x in 0..4 {
            let id = graph.node_id_at(y, x).unwrap();
            assert_eq!(id, y * 4 + x);
            let node = graph.node(id);
            assert_eq!(node.id(), id);
            assert_eq!(node.val(), chars[y][x]);
            assert_eq!(node.coords(), (y, x));
        }
    }
    assert_eq!(graph.node_id_at(4, 0), None);
    assert_eq!(graph.node_id_at(0, 4), None);
}

#[test]
fn neighbors_count_by_position_in_larger_grids() {
    for n in 2..=6usize {
        let graph = CharGraph::from_grid(&numbered_grid(n));
        assert_eq!(graph.len(), n * n);
        for y in 0..n {
            for x in 0..n {
                let y_edge = y == 0 || y == n - 1;
                let x_edge = x == 0 || x == n - 1;
                let id = graph.node_id_at(y, x).unwrap();
                let expected = if y_edge && x_edge {
                    3
                } else if y_edge || x_edge {
                    5
                } else {
                    8
                };
                assert_eq!(graph.num_neighbors(id), expected);
                assert_eq!(neighbor_ids(&graph, id).len(), expected);
            }
        }
    }
}

#[test]
fn smallest_grids() {
    let none = CharGraph::from_grid(&[]);
    assert_eq!(none.len(), 0);
    let one = CharGraph::from_grid(&[vec![3]]);
    assert_eq!(one.len(), 1);
    assert_eq!(one.num_neighbors(0), 0);
    assert!(one.node(0).next().is_empty());
}

#[test]
fn same_letter_neighbors_share_a_set() {
    let graph = CharGraph::from_grid(&[vec![4, 4, 4], vec![4, 0, 4], vec![4, 4, 1]]);
    let center = graph.node_id_at(1, 1).unwrap();
    let next = graph.node(center).next();
    assert_eq!(next.len(), 2);
    let fours: HashSet<usize> = [0, 1, 2, 3, 5, 6, 7].into_iter().collect();
    assert_eq!(next[&4], fours);
    let ones: HashSet<usize> = [8].into_iter().collect();
    assert_eq!(next[&1], ones);
    assert_eq!(graph.num_neighbors(center), 8);
}

#[test]
fn adjacency_is_symmetric() {
    let graph = CharGraph::from_grid(&[vec![0, 1, 0, 2], vec![3, 3, 1, 0], vec![2, 2, 2, 2], vec![5, 0, 1, 5]]);
    for a in 0..graph.len() {
        let letter_a = graph.node(a).val();
        for (letter, set) in graph.node(a).next() {
            for b in set {
                assert_eq!(graph.node(*b).val(), *letter);
                assert!(graph.node(*b).next()[&letter_a].contains(&a));
            }
        }
    }
}

#[test]
fn add_node_numbers_tiles_in_order() {
    let mut graph = CharGraph::default();
    assert_eq!(graph.len(), 0);
    assert_eq!(graph.add_node(7, (2, 3)), 0);
    assert_eq!(graph.add_node(8, (0, 0)), 1);
    assert_eq!(graph.len(), 2);
    assert_eq!(graph.node_id_at(2, 3), Some(0));
    assert_eq!(graph.node_id_at(0, 0), Some(1));
    assert_eq!(graph.node_id_at(3, 2), None);
    assert_eq!(graph.node(0).val(), 7);
    assert_eq!(graph.node(0).coords(), (2, 3));
    assert!(graph.node(0).next().is_empty());
}

#[test]
fn second_tile_at_a_coordinate_is_refused() {
    let mut graph = CharGraph::default();
    assert_eq!(graph.try_add_node(1, (0, 0)), Some(0));
    assert_eq!(graph.try_add_node(2, (0, 1)), Some(1));
    assert_eq!(graph.try_add_node(3, (0, 0)), None);
    assert_eq!(graph.len(), 2);
    assert_eq!(graph.node_id_at(0, 0), Some(0));
    assert_eq!(graph.node(0).val(), 1);
    assert_eq!(graph.try_add_node(3, (1, 0)), Some(2));
}

#[test]
fn add_edge_files_each_end_under_the_others_letter() {
    let mut graph = CharGraph::default();
    let a = graph.add_node(10, (0, 0));
    let b = graph.add_node(20, (0, 1));
    let c = graph.add_node(20, (1, 0));
    graph.add_edge(a, b);
    graph.add_edge(a, c);
    let both: HashSet<usize> = [b, c].into_iter().collect();
    assert_eq!(graph.node(a).next().len(), 1);
    assert_eq!(graph.node(a).next()[&20], both);
    let only_a: HashSet<usize> = [a].into_iter().collect();
    assert_eq!(graph.node(b).next()[&10], only_a);
    assert_eq!(graph.node(c).next()[&10], only_a);
    assert_eq!(graph.num_neighbors(a), 2);
    assert_eq!(graph.num_neighbors(b), 1);
}

#[test]
fn add_edge_twice_changes_nothing() {
    let mut graph = CharGraph::default();
    let a = graph.add_node(1, (0, 0));
    let b = graph.add_node(2, (0, 1));
    graph.add_edge(a, b);
    graph.add_edge(a, b);
    graph.add_edge(b, a);
    assert_eq!(graph.num_neighbors(a), 1);
    assert_eq!(graph.num_neighbors(b), 1);
    assert_eq!(neighbor_ids(&graph, a), vec![b]);
    assert_eq!(neighbor_ids(&graph, b), vec![a]);
}
