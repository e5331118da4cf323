//! Identifiers and node kinds shared by the operator graph, the subnet
//! graphs and the scene views.

use vstd::prelude::*;

verus! {

/// Identifies a node within a graph.
#[derive(Debug, Clone, Copy, PartialEq, Eq, Hash, Structural)]
pub struct NodeId(pub usize);

/// Identifies a connection within a graph.
#[derive(Debug, Clone, Copy, PartialEq, Eq, Hash, Structural)]
pub struct ConnectionId(pub usize);

/// Identifies a subnet graph.
#[derive(Debug, Clone, Copy, PartialEq, Eq, Hash, Structural)]
pub struct SubnetId(pub usize);

/// Identifies an entry of the scene hierarchy.
#[derive(Debug, Clone, Copy, PartialEq, Eq, Hash, Structural)]
pub struct SceneObjectId(pub usize);

/// How a primvar is interpolated over a mesh (as in USD).
#[derive(Clone, Copy, Debug, PartialEq, Eq, Structural)]
pub enum PrimVarInterp {
    /// One value per vertex/point.
    Vertex,
    /// One value per face.
    Uniform,
    /// One value per face-vertex.
    FaceVarying,
    /// One value for the whole prim.
    Constant,
}

impl Default for PrimVarInterp {
    /// Per-vertex interpolation.
    fn default() -> (r: Self)
        ensures
            r == PrimVarInterp::Vertex,
    {
        PrimVarInterp::Vertex
    }
}

/// The operators of the top-level graph. `S` is the scalar type and `V` the
/// vector type of the operator parameters; the graph logic never reads them.
#[derive(Clone, Debug)]
pub enum NodeType<S, V> {
    CreateCube { size: S },
    CreateSphere { radius: S, segments: u32 },
    CreateGrid { rows: u32, cols: u32, size: S },
    LoadUsd { path: String },
    Transform { translation: V, rotation: V, scale: V },
    Merge,
    ScatterPoints { count: u32, seed: u32 },
    CopyToPoints,
    Subnet { id: SubnetId, name: String },
    Output,
}

/// The icon shown for an operator.
pub open spec fn spec_node_type_icon<S, V>(t: NodeType<S, V>) -> Seq<char> {
    match t {
        NodeType::CreateCube { .. } => "◼"@,
        NodeType::CreateSphere { .. } => "●"@,
        NodeType::CreateGrid { .. } => "⊞"@,
        NodeType::LoadUsd { .. } => "📂"@,
        NodeType::Transform { .. } => "⟲"@,
        NodeType::Merge => "⊕"@,
        NodeType::ScatterPoints { .. } => "⁙"@,
        NodeType::CopyToPoints => "❇"@,
        NodeType::Subnet { .. } => "▣"@,
        NodeType::Output => "▶"@,
    }
}

/// The icon shown for an operator.
pub fn node_type_icon<S, V>(t: &NodeType<S, V>) -> (s: &'static str)
    ensures
        s@ == spec_node_type_icon(*t),
{
    match t {
        NodeType::CreateCube { .. } => "◼",
        NodeType::CreateSphere { .. } => "●",
        NodeType::CreateGrid { .. } => "⊞",
        NodeType::LoadUsd { .. } => "📂",
        NodeType::Transform { .. } => "⟲",
        NodeType::Merge => "⊕",
        NodeType::ScatterPoints { .. } => "⁙",
        NodeType::CopyToPoints => "❇",
        NodeType::Subnet { .. } => "▣",
        NodeType::Output => "▶",
    }
}

/// The label shown for an operator.
pub open spec fn spec_node_type_label<S, V>(t: NodeType<S, V>) -> Seq<char> {
    match t {
        NodeType::CreateCube { .. } => "Create Cube"@,
        NodeType::CreateSphere { .. } => "Create Sphere"@,
        NodeType::CreateGrid { .. } => "Create Grid"@,
        NodeType::LoadUsd { .. } => "Load USD"@,
        NodeType::Transform { .. } => "Transform"@,
        NodeType::Merge => "Merge"@,
        NodeType::ScatterPoints { .. } => "Scatter Points"@,
        NodeType::CopyToPoints => "Copy to Points"@,
        NodeType::Subnet { .. } => "Subnet"@,
        NodeType::Output => "Output"@,
    }
}

/// The label shown for an operator.
pub fn node_type_label<S, V>(t: &NodeType<S, V>) -> (s: &'static str)
    ensures
        s@ == spec_node_type_label(*t),
{
    match t {
        NodeType::CreateCube { .. } => "Create Cube",
        NodeType::CreateSphere { .. } => "Create Sphere",
        NodeType::CreateGrid { .. } => "Create Grid",
        NodeType::LoadUsd { .. } => "Load USD",
        NodeType::Transform { .. } => "Transform",
        NodeType::Merge => "Merge",
        NodeType::ScatterPoints { .. } => "Scatter Points",
        NodeType::CopyToPoints => "Copy to Points",
        NodeType::Subnet { .. } => "Subnet",
        NodeType::Output => "Output",
    }
}

/// Which attribute a `GetAttribute` subnet node reads.
#[derive(Clone, Debug)]
pub enum GetAttributeTarget {
    P,
    N,
    PtIndex,
    PrimIndex,
    PtsNumber,
    PrimsNumber,
    Uv,
    Custom(String),
}

/// The nodes of a subnet graph. `S` is the scalar type and `V` the vector
/// type of the node parameters.
#[derive(Clone, Debug)]
pub enum SubnetNodeType<S, V> {
    SubInput,
    SubOutput,
    AddVec3,
    SubtractVec3,
    MultiplyVec3 { scalar: S },
    CrossProduct,
    Normalize,
    DotProduct,
    LerpVec3 { t: S },
    ConstVec3 { value: V },
    ConstFloat { value: S },
    ConstInt { value: i32 },
    ScatterPoints { count: u32, seed: u32 },
    GetTemplate,
    GetAttribute { target: GetAttributeTarget },
    CopyToPoints,
}

/// The icon shown for a subnet node.
pub open spec fn spec_subnet_node_icon<S, V>(t: SubnetNodeType<S, V>) -> Seq<char> {
    match t {
        SubnetNodeType::SubInput => "▶"@,
        SubnetNodeType::SubOutput => "◀"@,
        SubnetNodeType::AddVec3 => "＋"@,
        SubnetNodeType::SubtractVec3 => "－"@,
        SubnetNodeType::MultiplyVec3 { .. } => "✕"@,
        SubnetNodeType::CrossProduct => "×"@,
        SubnetNodeType::Normalize => "|v|"@,
        SubnetNodeType::DotProduct => "·"@,
        SubnetNodeType::LerpVec3 { .. } => "≈"@,
        SubnetNodeType::ConstVec3 { .. } => "→v"@,
        SubnetNodeType::ConstFloat { .. } => "→f"@,
        SubnetNodeType::ConstInt { .. } => "→i"@,
        SubnetNodeType::ScatterPoints { .. } => "⁙"@,
        SubnetNodeType::GetTemplate => "📄"@,
        SubnetNodeType::GetAttribute { .. } => "🔍"@,
        SubnetNodeType::CopyToPoints => "📦"@,
    }
}

/// The icon shown for a subnet node.
pub fn subnet_node_icon<S, V>(t: &SubnetNodeType<S, V>) -> (s: &'static str)
    ensures
        s@ == spec_subnet_node_icon(*t),
{
    match t {
        SubnetNodeType::SubInput => "▶",
        SubnetNodeType::SubOutput => "◀",
        SubnetNodeType::AddVec3 => "＋",
        SubnetNodeType::SubtractVec3 => "－",
        SubnetNodeType::MultiplyVec3 { .. } => "✕",
        SubnetNodeType::CrossProduct => "×",
        SubnetNodeType::Normalize => "|v|",
        SubnetNodeType::DotProduct => "·",
        SubnetNodeType::LerpVec3 { .. } => "≈",
        SubnetNodeType::ConstVec3 { .. } => "→v",
        SubnetNodeType::ConstFloat { .. } => "→f",
        SubnetNodeType::ConstInt { .. } => "→i",
        SubnetNodeType::ScatterPoints { .. } => "⁙",
        SubnetNodeType::GetTemplate => "📄",
        SubnetNodeType::GetAttribute { .. } => "🔍",
        SubnetNodeType::CopyToPoints => "📦",
    }
}

/// A mesh that came from a USD prim, with the prim's path.
#[derive(Clone, Debug)]
pub struct NamedMesh<M> {
    pub path: String,
    pub mesh: M,
}

/// What evaluating an operator gives: one mesh, or the meshes of a USD
/// stage, each with its prim path.
#[derive(Clone, Debug)]
pub enum EvalResult<M> {
    Single(M),
    Named(Vec<NamedMesh<M>>),
}

/// The operators that create geometry rather than transform it; only these
/// appear in the scene explorer.
pub open spec fn spec_is_generator<S, V>(t: NodeType<S, V>) -> bool {
    t is CreateCube || t is CreateSphere || t is CreateGrid || t is LoadUsd
}

/// Whether the operator creates geometry.
pub fn is_generator<S, V>(t: &NodeType<S, V>) -> (b: bool)
    ensures
        b == spec_is_generator(*t),
{
    match t {
        NodeType::CreateCube { .. } | NodeType::CreateSphere { .. } | NodeType::CreateGrid { .. }
        | NodeType::LoadUsd { .. } => true,
        _ => false,
    }
}

/// A named, typed data stream of a mesh, with how it is interpolated.
#[derive(Clone, Debug)]
pub struct Attribute<T> {
    pub name: String,
    pub interp: PrimVarInterp,
    pub values: Vec<T>,
}

impl<T> Attribute<T> {
    pub fn new(name: &str, interp: PrimVarInterp, values: Vec<T>) -> (a: Self)
        ensures
            a.name@ == name@,
            a.interp == interp,
            a.values@ == values@,
    {
        Attribute { name: String::from_str(name), interp, values }
    }

    /// A per-vertex stream.
    pub fn vertex(name: &str, values: Vec<T>) -> (a: Self)
        ensures
            a.name@ == name@,
            a.interp == PrimVarInterp::Vertex,
            a.values@ == values@,
    {
        Self::new(name, PrimVarInterp::Vertex, values)
    }

    /// A per-face stream.
    pub fn uniform(name: &str, values: Vec<T>) -> (a: Self)
        ensures
            a.name@ == name@,
            a.interp == PrimVarInterp::Uniform,
            a.values@ == values@,
    {
        Self::new(name, PrimVarInterp::Uniform, values)
    }

    pub fn len(&self) -> (n: usize)
        ensures
            n == self.values@.len(),
    {
        self.values.len()
    }

    pub fn is_empty(&self) -> (b: bool)
        ensures
            b == (self.values@.len() == 0),
    {
        self.values.len() == 0
    }
}

/// The tabs of the primitive inspector, one per interpolation class.
#[derive(Clone, Copy, Debug, PartialEq, Eq, Structural)]
pub enum PrimInspectorTab {
    Vertex,
    Uniform,
    FaceVarying,
    Constant,
}

impl Default for PrimInspectorTab {
    /// The vertex tab.
    fn default() -> (t: Self)
        ensures
            t == PrimInspectorTab::Vertex,
    {
        PrimInspectorTab::Vertex
    }
}

/// The primitive inspector: the open tab, the first row shown, and the
/// mesh last evaluated for a node at a graph version. `M` is the mesh type.
pub struct PrimInspectorState<M> {
    pub active_tab: PrimInspectorTab,
    pub row_offset: usize,
    pub cached_mesh: Option<M>,
    pub cached_node_id: Option<NodeId>,
    pub graph_version: u64,
}

impl<M> PrimInspectorState<M> {
    /// The vertex tab at the first row, nothing cached, version 0.
    pub fn new() -> (s: Self)
        ensures
            s.active_tab == PrimInspectorTab::Vertex,
            s.row_offset == 0,
            s.cached_mesh is None,
            s.cached_node_id is None,
            s.graph_version == 0,
    {
        PrimInspectorState {
            active_tab: PrimInspectorTab::Vertex,
            row_offset: 0,
            cached_mesh: None,
            cached_node_id: None,
            graph_version: 0,
        }
    }

    /// Whether the cache holds the result for `node_id` at `graph_version`.
    pub fn is_cache_valid(&self, node_id: Option<NodeId>, graph_version: u64) -> (b: bool)
        ensures
            b == (self.cached_node_id == node_id && self.graph_version == graph_version),
    {
        let same_node = match (self.cached_node_id, node_id) {
            (Some(a), Some(b)) => a.0 == b.0,
            (None, None) => true,
            _ => false,
        };
        same_node && self.graph_version == graph_version
    }

    /// Caches `mesh` as the result for `node_id` at `graph_version`.
    pub fn update_cache(&mut self, node_id: Option<NodeId>, mesh: M, graph_version: u64)
        ensures
            final(self).cached_mesh == Some(mesh),
            final(self).cached_node_id == node_id,
            final(self).graph_version == graph_version,
            final(self).active_tab == old(self).active_tab,
            final(self).row_offset == old(self).row_offset,
    {
        self.cached_mesh = Some(mesh);
        self.cached_node_id = node_id;
        self.graph_version = graph_version;
    }

    /// Drops the cached mesh and records `node_id` as the one shown.
    pub fn clear_cache(&mut self, node_id: Option<NodeId>)
        ensures
            final(self).cached_mesh is None,
            final(self).cached_node_id == node_id,
            final(self).graph_version == old(self).graph_version,
            final(self).active_tab == old(self).active_tab,
            final(self).row_offset == old(self).row_offset,
    {
        self.cached_node_id = node_id;
        self.cached_mesh = None;
    }

    /// The cached mesh, if any.
    pub fn get_cached_mesh(&self) -> (r: Option<&M>)
        ensures
            match self.cached_mesh {
                Some(m) => r matches Some(x) && *x == m,
                None => r is None,
            },
    {
        match &self.cached_mesh {
            Some(m) => Some(m),
            None => None,
        }
    }

    /// Switches to `tab`; switching to another tab goes back to the first
    /// row.
    pub fn set_active_tab(&mut self, tab: PrimInspectorTab)
        ensures
            final(self).active_tab == tab,
            final(self).row_offset == if old(self).active_tab != tab {
                0
            } else {
                old(self).row_offset
            },
            final(self).cached_mesh == old(self).cached_mesh,
            final(self).cached_node_id == old(self).cached_node_id,
            final(self).graph_version == old(self).graph_version,
    {
        if self.active_tab != tab {
            self.active_tab = tab;
            self.row_offset = 0;
        }
    }
}

/// The kind of data a subnet node works on, shown under its title.
pub open spec fn spec_socket_type_label<S, V>(t: SubnetNodeType<S, V>) -> Seq<char> {
    match t {
        SubnetNodeType::DotProduct => "Vec3 → Float"@,
        SubnetNodeType::MultiplyVec3 { .. } => "Vec3 × scalar"@,
        SubnetNodeType::LerpVec3 { .. } => "Vec3 lerp Vec3"@,
        SubnetNodeType::SubInput => "Mesh in"@,
        SubnetNodeType::SubOutput => "Mesh out"@,
        _ => "Vec3 → Vec3"@,
    }
}

/// The kind of data a subnet node works on.
pub fn socket_type_label<S, V>(t: &SubnetNodeType<S, V>) -> (s: &'static str)
    ensures
        s@ == spec_socket_type_label(*t),
{
    match t {
        SubnetNodeType::DotProduct => "Vec3 → Float",
        SubnetNodeType::MultiplyVec3 { .. } => "Vec3 × scalar",
        SubnetNodeType::LerpVec3 { .. } => "Vec3 lerp Vec3",
        SubnetNodeType::SubInput => "Mesh in",
        SubnetNodeType::SubOutput => "Mesh out",
        _ => "Vec3 → Vec3",
    }
}

/// The title of an operator on the graph canvas (a subnet shows as an
/// integrated creation engine).
pub open spec fn spec_canvas_label<S, V>(t: NodeType<S, V>) -> Seq<char> {
    match t {
        NodeType::Subnet { .. } => "Integrated Creation Engine"@,
        _ => spec_node_type_label(t),
    }
}

/// The title of an operator on the graph canvas.
pub fn canvas_label<S, V>(t: &NodeType<S, V>) -> (s: &'static str)
    ensures
        s@ == spec_canvas_label(*t),
{
    match t {
        NodeType::Subnet { .. } => "Integrated Creation Engine",
        _ => node_type_label(t),
    }
}

/// A value carried on a subnet socket. `M` is the mesh type, `F` the scalar
/// type and `V` the vector type.
#[derive(Clone, Debug)]
pub enum SubnetValue<M, F, V> {
    Mesh(M),
    Vec3(V),
    Float(F),
    Int(i32),
}

impl<M, F: Copy, V: Copy> SubnetValue<M, F, V> {
    /// The mesh, when the value is one.
    pub fn as_mesh(&self) -> (r: Option<&M>)
        ensures
            r == match *self {
                SubnetValue::Mesh(m) => Some(&m),
                _ => None,
            },
    {
        match self {
            SubnetValue::Mesh(m) => Some(m),
            _ => None,
        }
    }

    /// The vector, when the value is one.
    pub fn as_vec3(&self) -> (r: Option<V>)
        ensures
            r == match *self {
                SubnetValue::Vec3(v) => Some(v),
                _ => None,
            },
    {
        match self {
            SubnetValue::Vec3(v) => Some(*v),
            _ => None,
        }
    }

    /// The scalar, when the value is one.
    pub fn as_float(&self) -> (r: Option<F>)
        ensures
            r == match *self {
                SubnetValue::Float(f) => Some(f),
                _ => None,
            },
    {
        match self {
            SubnetValue::Float(f) => Some(*f),
            _ => None,
        }
    }

    /// The integer, when the value is one.
    pub fn as_int(&self) -> (r: Option<i32>)
        ensures
            r == match *self {
                SubnetValue::Int(i) => Some(i),
                _ => None,
            },
    {
        match self {
            SubnetValue::Int(i) => Some(*i),
            _ => None,
        }
    }
}

} // verus!
