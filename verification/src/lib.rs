//! Multicommodity flow routing over capacitated networks: the graph model,
//! route bookkeeping and the combinatorial searches that the flow methods use.
pub mod path;

pub mod nodes;
pub mod graph_pm;
pub mod multicommodity;
