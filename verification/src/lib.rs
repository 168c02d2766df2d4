//! Undirected graphs in three representations with one interface, and, on
//! weighted graphs, connected components, a spanning forest grown by
//! Boruvka's rounds, and the best spanning tree one edge swap away from it.

pub mod adjacency_list;
pub mod adjacency_matrix;
pub mod boruvka;
pub mod components;
pub mod fast_adjacency_list;
pub mod second_best;
pub mod store;
pub mod weighted;
