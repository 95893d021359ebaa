//! Persistence for a materialized rule model, and the decisions around it.

pub mod columnar;
pub mod datavalues;
pub mod dictionary;
pub mod explain;
pub mod labeled_graph;
pub mod literals;
pub mod little_endian;
pub mod model_store;
pub mod parameters;
pub mod rules;
pub mod run;
pub mod selection_strategy;
pub mod tabular;
pub mod text;
