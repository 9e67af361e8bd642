use vstd::prelude::*;

use crate::graph_pm::structure_xml::{Demands, Nodes};

verus! {

/// A network description with link costs: like the plain description, but
/// each link may carry a routing cost and each module a cost as well as a
/// capacity.
pub struct Network<F> {
    pub network_structure: NetworkStructure<F>,
    pub demands: Demands<F>,
}

pub struct NetworkStructure<F> {
    pub nodes: Nodes,
    pub links: Links<F>,
}

pub struct Links<F> {
    pub links: Vec<Link<F>>,
}

pub struct Link<F> {
    pub id: String,
    pub source: String,
    pub target: String,
    pub capacity: Option<PreInstalledModule<F>>,
    pub modules: Option<AdditionalModules<F>>,
    pub routing_cost: Option<F>,
}

pub struct PreInstalledModule<F> {
    pub capacity: F,
    pub cost: F,
}

pub struct AdditionalModules<F> {
    pub add_module: Vec<AddModule<F>>,
}

pub struct AddModule<F> {
    pub capacity: F,
    pub cost: F,
}

} // verus!
