use vstd::prelude::*;

verus! {

/// A network description as laid out in an SNDlib XML file: its nodes and
/// links, and the demands between nodes. `F` is the numeric type of the
/// capacities and demand values.
pub struct Network<F> {
    pub network_structure: NetworkStructure<F>,
    pub demands: Demands<F>,
}

pub struct NetworkStructure<F> {
    pub nodes: Nodes,
    pub links: Links<F>,
}

pub struct Nodes {
    pub nodes: Vec<Node>,
}

pub struct Node {
    pub id: String,
}

pub struct Links<F> {
    pub links: Vec<Link<F>>,
}

/// An undirected link between the nodes named `source` and `target`; its
/// capacity is that of the preinstalled module, or else that of the first
/// additional module.
pub struct Link<F> {
    pub id: String,
    pub source: String,
    pub target: String,
    pub capacity: Option<PreInstalledModule<F>>,
    pub modules: Option<AdditionalModules<F>>,
}

pub struct PreInstalledModule<F> {
    pub capacity: F,
}

pub struct Demands<F> {
    pub demands: Vec<Demand<F>>,
}

/// An amount `value` to be routed from the node named `source` to the node
/// named `target`.
pub struct Demand<F> {
    pub id: String,
    pub source: String,
    pub target: String,
    pub value: F,
}

pub struct AdditionalModules<F> {
    pub add_module: Vec<AddModule<F>>,
}

pub struct AddModule<F> {
    pub capacity: F,
}

} // verus!
