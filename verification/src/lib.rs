//! Reachability closure, target stubbing and partitioning of the concrete
//! instantiations behind one entry point.

pub mod collector;
pub mod fx;
pub mod graph;
pub mod item;
pub mod linkage;
pub mod partition;
pub mod pipeline;
pub mod program;
pub mod ranking;
pub mod report;
pub mod statics;
pub mod stubbing;
pub mod text;
pub mod values;
