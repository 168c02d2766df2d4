use graph_store::boruvka::{boruvka, cheapest_crossing};
use graph_store::components::{count_and_label, dfs};
use graph_store::second_best::{cheapest_bridge, second_best_mst};
use graph_store::weighted::Graph;

fn sample() -> Graph {
    let mut graph = Graph::new(5);
    graph.connect(0, 1, 8);
    graph.connect(0, 2, 2);
    graph.connect(0, 3, 12);
    graph.connect(1, 3, 9);
    graph.connect(1, 4, 24);
    graph.connect(2, 3, 4);
    graph.connect(3, 4, 18);
    graph
}

fn sorted(mut edges: Vec<(usize, usize, i32)>) -> Vec<(usize, usize, i32)> {
    edges.sort();
    edges
}

#[test]
fn new_graph_has_no_edges() {
    let graph = Graph::new(3);
    assert_eq!(graph.size(), 3);
    assert!(graph.all_edges().is_empty());
    assert!(graph.neighbors(0).is_empty());
    assert_eq!(graph.weight(), 0);
}

#[test]
fn connect_stores_both_halves() {
    let mut graph = Graph::new(3);
    graph.connect(2, 0, 7);
    assert_eq!(graph.neighbors(2), &[(0, 7)]);
    assert_eq!(graph.neighbors(0), &[(2, 7)]);
    assert_eq!(graph.get_weight(0, 2), Some(7));
    assert_eq!(graph.get_weight(2, 0), Some(7));
    assert_eq!(graph.get_weight(0, 1), None);
    assert_eq!(graph.all_edges(), vec![(0, 2, 7)]);
}

#[test]
fn connect_again_keeps_the_first_weight() {
    let mut graph = Graph::new(2);
    graph.connect(0, 1, 5);
    graph.connect(0, 1, 9);
    graph.connect(1, 0, 11);
    assert_eq!(graph.get_weight(0, 1), Some(5));
    assert_eq!(graph.get_weight(1, 0), Some(5));
    assert_eq!(graph.all_edges(), vec![(0, 1, 5)]);
}

#[test]
fn disconnect_removes_both_halves() {
    let mut graph = sample();
    graph.disconnect(3, 1);
    assert_eq!(graph.get_weight(1, 3), None);
    assert_eq!(graph.get_weight(3, 1), None);
    assert_eq!(graph.neighbors(1), &[(0, 8), (4, 24)]);
    graph.disconnect(3, 1);
    assert_eq!(graph.all_edges().len(), 6);
}

#[test]
fn all_edges_go_by_row_then_entry() {
    let graph = sample();
    assert_eq!(
        graph.all_edges(),
        vec![(0, 1, 8), (0, 2, 2), (0, 3, 12), (1, 3, 9), (1, 4, 24), (2, 3, 4), (3, 4, 18)]
    );
    assert_eq!(graph.weight(), 77);
}

#[test]
fn weight_adds_negative_weights() {
    let mut graph = Graph::new(3);
    graph.connect(0, 1, i32::MIN);
    graph.connect(1, 2, i32::MIN);
    assert_eq!(graph.weight(), 2 * (i32::MIN as i128));
}

#[test]
fn clone_is_independent() {
    let graph = sample();
    let mut copy = graph.clone();
    copy.disconnect(0, 1);
    assert_eq!(graph.get_weight(0, 1), Some(8));
    assert_eq!(copy.get_weight(0, 1), None);
}

#[test]
fn labels_follow_the_ascending_scan() {
    let mut graph = Graph::new(6);
    graph.connect(4, 1, 1);
    graph.connect(2, 5, 1);
    graph.connect(5, 3, 1);
    let (count, labels) = count_and_label(&graph);
    assert_eq!(count, 3);
    assert_eq!(labels, vec![0, 1, 2, 2, 1, 2]);
}

#[test]
fn labels_of_the_empty_graph() {
    let (count, labels) = count_and_label(&Graph::new(0));
    assert_eq!(count, 0);
    assert!(labels.is_empty());
}

#[test]
fn dfs_marks_what_it_reaches() {
    let mut graph = Graph::new(4);
    graph.connect(0, 1, 1);
    graph.connect(1, 2, 1);
    let mut visited = vec![false; 4];
    let mut label = vec![0; 4];
    dfs(&graph, 1, 7, &mut visited, &mut label);
    assert_eq!(visited, vec![true, true, true, false]);
    assert_eq!(label, vec![7, 7, 7, 0]);
}

#[test]
fn cheapest_crossing_takes_the_first_of_equal_weights() {
    let edges = vec![(0, 1, 5), (0, 2, 5), (1, 2, 3)];
    let labels = vec![0, 1, 2];
    let safe = cheapest_crossing(&edges, &labels, 3);
    assert_eq!(safe, vec![Some((0, 1, 5)), Some((1, 2, 3)), Some((1, 2, 3))]);
}

#[test]
fn cheapest_crossing_skips_edges_inside_a_component() {
    let edges = vec![(0, 1, 1), (2, 3, 9)];
    let labels = vec![0, 0, 1, 2];
    let safe = cheapest_crossing(&edges, &labels, 3);
    assert_eq!(safe, vec![None, Some((2, 3, 9)), Some((2, 3, 9))]);
}

#[test]
fn cheapest_bridge_leaves_out_the_removed_edge() {
    let edges = vec![(0, 1, 1), (0, 2, 4), (1, 2, 4)];
    let labels = vec![0, 1, 1];
    assert_eq!(cheapest_bridge(&edges, &labels, (0, 1, 1)), Some((0, 2, 4)));
    assert_eq!(cheapest_bridge(&edges, &labels, (1, 2, 4)), Some((0, 1, 1)));
    assert_eq!(cheapest_bridge(&edges, &vec![0, 0, 0], (0, 1, 1)), None);
}

#[test]
fn boruvka_on_the_sample_graph() {
    let graph = sample();
    let (mst, count) = boruvka(&graph);
    assert_eq!(count, 1);
    assert_eq!(sorted(mst.all_edges()), vec![(0, 1, 8), (0, 2, 2), (2, 3, 4), (3, 4, 18)]);
    assert_eq!(mst.weight(), 32);
}

#[test]
fn boruvka_without_edges() {
    let (forest, count) = boruvka(&Graph::new(4));
    assert_eq!(count, 4);
    assert!(forest.all_edges().is_empty());
    assert_eq!(forest.size(), 4);
}

#[test]
fn boruvka_without_vertices() {
    let (forest, count) = boruvka(&Graph::new(0));
    assert_eq!(count, 0);
    assert!(forest.all_edges().is_empty());
}

#[test]
fn boruvka_on_two_components() {
    let mut graph = Graph::new(5);
    graph.connect(0, 1, 3);
    graph.connect(1, 2, 1);
    graph.connect(0, 2, 2);
    graph.connect(3, 4, 6);
    let (forest, count) = boruvka(&graph);
    assert_eq!(count, 2);
    assert_eq!(forest.all_edges().len(), 5 - 2);
    assert_eq!(sorted(forest.all_edges()), vec![(0, 2, 2), (1, 2, 1), (3, 4, 6)]);
}

#[test]
fn boruvka_matches_a_sorted_edge_reference() {
    let mut graph = Graph::new(6);
    let list = [(0, 1, 7), (0, 2, 9), (1, 2, 10), (1, 3, 15), (2, 3, 11), (2, 5, 2), (3, 4, 6), (4, 5, 9), (0, 5, 14)];
    for &(u, v, w) in list.iter() {
        graph.connect(u, v, w);
    }
    let mut by_weight = list.to_vec();
    by_weight.sort_by_key(|e| e.2);
    let mut root: Vec<usize> = (0..6).collect();
    let mut expected: i128 = 0;
    for (u, v, w) in by_weight {
        let (mut a, mut b) = (u, v);
        while root[a] != a {
            a = root[a];
        }
        while root[b] != b {
            b = root[b];
        }
        if a != b {
            root[a] = b;
            expected += w as i128;
        }
    }
    let (mst, count) = boruvka(&graph);
    assert_eq!(count, 1);
    assert_eq!(mst.all_edges().len(), 5);
    assert_eq!(mst.weight(), expected);
}

#[test]
fn second_best_on_the_sample_graph() {
    let graph = sample();
    let (mst, _) = boruvka(&graph);
    let second = second_best_mst(&graph, &mst);
    assert_eq!(second.swap, Some(((0, 1, 8), (1, 3, 9))));
    assert_eq!(sorted(second.tree.all_edges()), vec![(0, 2, 2), (1, 3, 9), (2, 3, 4), (3, 4, 18)]);
    assert_eq!(second.weight, 33);
    assert!(second.weight >= mst.weight());
    assert_eq!(mst.weight(), 32);
}

#[test]
fn second_best_needs_two_tree_edges() {
    let mut graph = Graph::new(2);
    graph.connect(0, 1, 4);
    let (mst, _) = boruvka(&graph);
    let second = second_best_mst(&graph, &mst);
    assert_eq!(second.swap, None);
    assert_eq!(second.tree.all_edges(), vec![(0, 1, 4)]);
    assert_eq!(second.weight, 4);
}

#[test]
fn second_best_of_a_tree_has_no_swap() {
    let mut graph = Graph::new(3);
    graph.connect(0, 1, 4);
    graph.connect(1, 2, 5);
    let (mst, _) = boruvka(&graph);
    let second = second_best_mst(&graph, &mst);
    assert_eq!(second.swap, None);
    assert_eq!(second.weight, 9);
}

#[test]
fn second_best_with_a_swap_that_costs_nothing() {
    let mut graph = Graph::new(3);
    graph.connect(0, 1, 1);
    graph.connect(1, 2, 1);
    graph.connect(0, 2, 1);
    let (mst, _) = boruvka(&graph);
    let second = second_best_mst(&graph, &mst);
    assert!(second.swap.is_some());
    assert_eq!(second.weight, mst.weight());
}

#[test]
fn second_best_with_extreme_weights() {
    let mut graph = Graph::new(3);
    graph.connect(0, 1, i32::MIN);
    graph.connect(1, 2, i32::MIN);
    graph.connect(0, 2, i32::MAX);
    let (mst, _) = boruvka(&graph);
    let second = second_best_mst(&graph, &mst);
    assert_eq!(second.swap, Some(((0, 1, i32::MIN), (0, 2, i32::MAX))));
    assert_eq!(second.weight, i32::MIN as i128 + i32::MAX as i128);
}

#[test]
fn a_loop_is_stored_twice_and_never_listed() {
    let mut graph = Graph::new(2);
    graph.connect(1, 1, 3);
    assert_eq!(graph.neighbors(1), &[(1, 3), (1, 3)]);
    assert!(graph.all_edges().is_empty());
    graph.connect(1, 1, 4);
    assert_eq!(graph.get_weight(1, 1), Some(3));
    graph.disconnect(1, 1);
    assert!(graph.neighbors(1).is_empty());
}

#[test]
fn labels_join_what_an_edge_joins() {
    let mut graph = Graph::new(4);
    graph.connect(0, 3, 1);
    let (count, labels) = count_and_label(&graph);
    assert_eq!(count, 3);
    assert_eq!(labels, vec![0, 1, 2, 0]);
    graph.connect(1, 2, 1);
    graph.connect(2, 3, 1);
    let (count, labels) = count_and_label(&graph);
    assert_eq!(count, 1);
    assert_eq!(labels, vec![0, 0, 0, 0]);
}

#[test]
fn boruvka_keeps_the_weights_of_the_input() {
    let graph = sample();
    let (mst, _) = boruvka(&graph);
    for (u, v, w) in mst.all_edges() {
        assert_eq!(graph.get_weight(u, v), Some(w));
        assert_eq!(graph.get_weight(v, u), Some(w));
    }
}

#[test]
fn a_swap_changes_the_weight_by_its_difference() {
    let mut graph = Graph::new(4);
    graph.connect(0, 1, 1);
    graph.connect(1, 2, 2);
    graph.connect(2, 3, 3);
    graph.connect(0, 3, 10);
    graph.connect(0, 2, 7);
    let (mst, count) = boruvka(&graph);
    assert_eq!(count, 1);
    assert_eq!(mst.weight(), 6);
    let second = second_best_mst(&graph, &mst);
    assert_eq!(second.swap, Some(((1, 2, 2), (0, 2, 7))));
    assert_eq!(second.weight, 6 - 2 + 7);
    assert_eq!(second.tree.weight(), second.weight);
    assert_eq!(mst.all_edges().len(), 3);
}

#[test]
fn dfs_takes_any_marks() {
    let mut graph = Graph::new(2);
    graph.connect(0, 1, 1);
    let mut visited = vec![false, true];
    let mut label = vec![0, 5];
    dfs(&graph, 0, 2, &mut visited, &mut label);
    assert_eq!(visited, vec![true, true]);
    assert_eq!(label, vec![2, 5]);
}

#[test]
fn dfs_stops_at_visited_vertices() {
    let mut graph = Graph::new(5);
    graph.connect(0, 1, 1);
    graph.connect(1, 2, 1);
    graph.connect(2, 3, 1);
    graph.connect(0, 4, 1);
    let mut visited = vec![false, false, true, false, false];
    let mut label = vec![9, 9, 3, 9, 9];
    dfs(&graph, 0, 1, &mut visited, &mut label);
    assert_eq!(visited, vec![true, true, true, false, true]);
    assert_eq!(label, vec![1, 1, 3, 9, 1]);
}

#[test]
fn dfs_walks_a_long_path() {
    let n = 200_000;
    let mut graph = Graph::new(n);
    for a in 1..n {
        graph.connect(a - 1, a, 1);
    }
    let (count, labels) = count_and_label(&graph);
    assert_eq!(count, 1);
    assert_eq!(labels[n - 1], 0);
}
