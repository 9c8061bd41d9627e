pub mod bidijkstra;
pub mod bitset;
pub mod cycle_cover;
pub mod dijkstra;
pub mod graph;
pub mod mcmc;
pub mod paths;
pub mod radixheap;
pub mod random;
pub mod search;
pub mod text;
pub mod utils;
pub mod weight;
