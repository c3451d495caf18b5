//! Classic data structures and algorithms, verified: stacks and queues,
//! symbol tables (sequential scan, binary search, hashing with linear
//! probing), sorting, and undirected-graph search.

pub mod fundamentals;
pub mod graphs;
pub mod searching;
pub mod sorting;
