//! Surfaces, and the graph of render tasks that draws them.

pub mod backdrop;
pub mod command_buffer;
pub mod deferral;
pub mod dependency_laws;
pub mod draw_laws;
pub mod edge_laws;
pub mod filter_chain;
pub mod filter_laws;
pub mod finish;
pub mod finish_laws;
pub mod fx_hash;
pub mod geometry;
pub mod growth;
pub mod info_laws;
pub mod laws;
pub mod merge;
pub mod merge_laws;
pub mod ready_laws;
pub mod render_task_graph;
pub mod resolve;
pub mod routing;
pub mod scalar;
pub mod simple_laws;
pub mod slice_laws;
pub mod spatial;
pub mod splice;
pub mod surface;
pub mod surface_info;
pub mod tile;
pub mod waiting_laws;
