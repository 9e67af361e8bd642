pub mod graph;
pub mod structure;
