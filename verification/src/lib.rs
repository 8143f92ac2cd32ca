//! A minimal graph-database layer: directed, labeled, ordered edges held in a
//! backing table, fronted by a staging cache that separates ephemeral edges
//! from durable ones, a resolver for directional path expressions, and a small
//! interpreter for three-operand graph-editing instructions.

pub mod edge;
pub mod store;
pub mod graph;
pub mod data;
pub mod path;
pub mod db_data;
pub mod engine;
pub mod laws;
