pub mod node_graph;
pub mod execution_graph;
pub mod intermediate_buffer_cache;
pub mod util;
pub mod generator;
pub mod effect;
pub mod nodes;
pub mod parameter;
pub mod node_builder;
pub mod connectivity;
pub mod scratch_buffer_cache;
pub mod producer;
