pub mod construction;
pub mod graph;
pub mod structure_xml;
