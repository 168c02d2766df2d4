use graph_store::adjacency_list::AdjacencyList;
use graph_store::adjacency_matrix::AdjacencyMatrix;
use graph_store::fast_adjacency_list::FastAdjacencyList;
use graph_store::store::{footprint_of, occurs, push_upper, without, UndirectedGraph};

fn build<G: UndirectedGraph>() -> G {
    let mut g = G::new(5, 8);
    g.connect(3, 1);
    g.connect(0, 4);
    g.connect(1, 2);
    g.connect(3, 1);
    g.connect(2, 4);
    g.disconnect(1, 2);
    g
}

fn sorted<T: Ord>(mut items: Vec<T>) -> Vec<T> {
    items.sort();
    items
}

fn symmetric_after_connect<G: UndirectedGraph>() {
    let mut g = G::new(4, 0);
    assert!(!g.is_connected(1, 3));
    g.connect(1, 3);
    assert!(g.is_connected(1, 3));
    assert!(g.is_connected(3, 1));
    assert!(!g.is_connected(1, 2));
}

fn removal_is_idempotent<G: UndirectedGraph>() {
    let mut g = G::new(4, 0);
    g.connect(1, 3);
    g.connect(1, 3);
    g.connect(0, 1);
    g.disconnect(1, 3);
    assert!(!g.is_connected(1, 3));
    assert!(!g.is_connected(3, 1));
    let before = sorted(g.list_all_edges());
    g.disconnect(1, 3);
    assert_eq!(sorted(g.list_all_edges()), before);
    assert_eq!(before, vec![(0, 1)]);
}

#[test]
fn list_is_symmetric_after_connect() {
    symmetric_after_connect::<AdjacencyList>();
}

#[test]
fn set_is_symmetric_after_connect() {
    symmetric_after_connect::<FastAdjacencyList>();
}

#[test]
fn matrix_is_symmetric_after_connect() {
    symmetric_after_connect::<AdjacencyMatrix>();
}

#[test]
fn list_removal_is_idempotent() {
    removal_is_idempotent::<AdjacencyList>();
}

#[test]
fn set_removal_is_idempotent() {
    removal_is_idempotent::<FastAdjacencyList>();
}

#[test]
fn matrix_removal_is_idempotent() {
    removal_is_idempotent::<AdjacencyMatrix>();
}

#[test]
fn all_representations_list_the_same_edges() {
    let list: AdjacencyList = build();
    let set: FastAdjacencyList = build();
    let matrix: AdjacencyMatrix = build();
    let expected = vec![(0, 4), (1, 3), (2, 4)];
    assert_eq!(sorted(list.list_all_edges()), expected);
    assert_eq!(sorted(set.list_all_edges()), expected);
    assert_eq!(sorted(matrix.list_all_edges()), expected);
}

#[test]
fn list_keeps_insertion_order_and_duplicates() {
    let mut g = AdjacencyList::new(4, 0);
    g.connect(0, 3);
    g.connect(0, 1);
    g.connect(0, 3);
    assert_eq!(g.list_neighbors(0), vec![3, 1, 3]);
    assert_eq!(g.list_neighbors(3), vec![0, 0]);
    assert_eq!(g.list_all_edges(), vec![(0, 3), (0, 1)]);
    g.disconnect(0, 3);
    assert_eq!(g.list_neighbors(0), vec![1]);
    assert!(g.list_neighbors(3).is_empty());
}

#[test]
fn set_holds_each_neighbour_once() {
    let mut g = FastAdjacencyList::new(4, 0);
    g.connect(0, 3);
    g.connect(0, 1);
    g.connect(0, 3);
    assert_eq!(sorted(g.list_neighbors(0)), vec![1, 3]);
    assert_eq!(g.list_neighbors(3), vec![0]);
    g.disconnect(3, 0);
    assert_eq!(g.list_neighbors(0), vec![1]);
    assert!(g.list_neighbors(3).is_empty());
}

#[test]
fn matrix_lists_neighbours_ascending() {
    let mut g = AdjacencyMatrix::new(5, 0);
    g.connect(2, 4);
    g.connect(2, 0);
    g.connect(3, 2);
    assert_eq!(g.list_neighbors(2), vec![0, 3, 4]);
    assert_eq!(g.list_neighbors(1), Vec::<usize>::new());
    assert_eq!(g.list_all_edges(), vec![(0, 2), (2, 3), (2, 4)]);
}

#[test]
fn empty_graphs_have_no_edges() {
    assert!(AdjacencyList::new(0, 0).list_all_edges().is_empty());
    assert!(FastAdjacencyList::new(0, 0).list_all_edges().is_empty());
    assert!(AdjacencyMatrix::new(0, 0).list_all_edges().is_empty());
    assert!(AdjacencyMatrix::new(3, 0).list_all_edges().is_empty());
}

#[test]
fn matrix_memory_does_not_depend_on_edges() {
    let mut g = AdjacencyMatrix::new(10, 0);
    assert_eq!(g.memory_usage(), 100);
    g.connect(1, 2);
    g.connect(3, 4);
    assert_eq!(g.memory_usage(), 100);
}

#[test]
fn list_memory_grows_with_entries() {
    let mut g = AdjacencyList::new(10, 0);
    assert_eq!(g.memory_usage(), 24 * 10 + 24);
    g.connect(1, 2);
    assert_eq!(g.memory_usage(), 8 * 2 + 24 * 10 + 24);
    g.connect(1, 2);
    assert_eq!(g.memory_usage(), 8 * 4 + 24 * 10 + 24);
}

#[test]
fn set_memory_grows_with_entries() {
    let mut g = FastAdjacencyList::new(10, 0);
    assert_eq!(g.memory_usage(), 32 * 10 + 24);
    g.connect(1, 2);
    assert_eq!(g.memory_usage(), 8 * 2 + 32 * 10 + 24);
    g.connect(1, 2);
    assert_eq!(g.memory_usage(), 8 * 2 + 32 * 10 + 24);
}

#[test]
fn footprint_is_capped() {
    assert_eq!(footprint_of(usize::MAX, 1, 24), usize::MAX);
    assert_eq!(footprint_of(3, 2, 32), 8 * 3 + 32 * 2 + 24);
    assert_eq!(footprint_of(0, usize::MAX, usize::MAX), usize::MAX);
    assert_eq!(footprint_of(1, 3, 1000), 8 + 3000 + 24);
}

#[test]
fn without_drops_every_occurrence() {
    assert_eq!(without(&vec![4, 1, 4, 2, 4], 4), vec![1, 2]);
    assert_eq!(without(&vec![1, 2], 4), vec![1, 2]);
}

#[test]
fn occurs_looks_at_the_prefix_only() {
    assert!(occurs(&vec![5, 6, 7], 2, 6));
    assert!(!occurs(&vec![5, 6, 7], 2, 7));
    assert!(!occurs(&vec![5, 6, 7], 0, 5));
}

#[test]
fn push_upper_adds_each_higher_neighbour_once() {
    let mut out = vec![(0, 2)];
    push_upper(&mut out, 1, &vec![3, 0, 3, 2, 1]);
    assert_eq!(out, vec![(0, 2), (1, 3), (1, 2)]);
}
