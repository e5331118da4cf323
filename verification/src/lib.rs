//! Verified core of a node-based geometry editor: mesh topology, typed
//! attribute streams, index generation for procedural meshes, the USDA text
//! format, and the node graphs that drive evaluation.

pub mod text;
pub mod attribute;
pub mod mesh_index;
pub mod scatter;
pub mod dfs;
pub mod subnet;
pub mod scene;
pub mod operator_stack;
pub mod inspector;
pub mod usdz;
pub mod ice_nodes;
pub mod node_graph;
pub mod topology;
pub mod types;
pub mod geometry;
pub mod usd_loader;
