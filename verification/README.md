# bevy_dcc

The logic of a small node-based 3D content tool, written in Verus: every
function in `src/` carries a contract that Verus proves.

## Layout

- `src/node_graph.rs` — the operator graph: nodes, sockets, connections,
  selection and editing interactions, deletion, and the upstream evaluation
  order (a post-order of the nodes feeding a root).
- `src/subnet.rs` — subnetworks of point operators: their graphs, the store
  that holds them, execution order and the step planned for each node.
- `src/dfs.rs` — the theory of post-order traversals shared by both graphs.
- `src/scene.rs`, `src/operator_stack.rs`, `src/inspector.rs` — the scene
  explorer tree, the operator stack, and the spreadsheet's paging.
- `src/mesh_index.rs`, `src/scatter.rs`, `src/topology.rs`,
  `src/attribute.rs`, `src/ice_nodes.rs` — index buffers of generated
  meshes, the seeded scatter draw, topology and attribute containers.
- `src/usd_loader.rs` (with `lexer.rs` and `parser.rs`), `src/usdz.rs` —
  the USDA tokenizer and prim reader, fan triangulation, and the search for
  the layer inside a USDZ archive.
- `src/text.rs`, `src/types.rs` — text helpers and shared types.
- `tests/` — tests of the library.
- `app/` — the Bevy/egui application around the library: windows, drawing,
  float geometry and file access.
