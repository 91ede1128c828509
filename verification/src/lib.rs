//! Verified core of a node-link graph canvas: the layered placement of
//! unpositioned nodes, the choice of an edge's outline and the grouping of a
//! frame's shapes into draw order.

pub mod topology;
pub mod hierarchical;
pub mod walk;
pub mod walk_laws;
pub mod walk_lemmas;
pub mod edge_shape;
pub mod layers;
