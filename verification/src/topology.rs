//! Mesh connectivity: point clouds, polygon meshes and curves.

use vstd::prelude::*;
use crate::text::{spec_decimal, decimal_chars, push_all, push_str_chars, string_from_chars};

verus! {

/// Connectivity and structure of a geometry.
#[derive(Clone, Debug)]
pub enum Topology {
    /// Point cloud (no connectivity).
    Points,
    /// Polygon mesh.
    PolyMesh {
        /// Number of vertices per face.
        face_counts: Vec<usize>,
        /// Vertex indices, flattened face by face.
        face_indices: Vec<usize>,
    },
    /// Curves or lines.
    Curves {
        /// Number of points per curve.
        curve_counts: Vec<usize>,
    },
}

impl Default for Topology {
    /// A point cloud.
    fn default() -> (t: Self)
        ensures
            t is Points,
    {
        Topology::Points
    }
}

/// A sequence of `n` equal face sizes.
pub open spec fn uniform_counts(n: nat, size: usize) -> Seq<usize> {
    Seq::new(n, |_i: int| size)
}

impl Topology {
    /// Number of primitives: faces of a polygon mesh, curves of a curve set.
    pub open spec fn spec_primitive_count(&self) -> nat {
        match self {
            Topology::Points => 0,
            Topology::PolyMesh { face_counts, .. } => face_counts@.len(),
            Topology::Curves { curve_counts } => curve_counts@.len(),
        }
    }

    /// Number of face-vertex entries of a polygon mesh; zero otherwise.
    pub open spec fn spec_face_vertex_count(&self) -> nat {
        match self {
            Topology::PolyMesh { face_indices, .. } => face_indices@.len(),
            _ => 0,
        }
    }

    /// The polygon mesh with faces of `size` vertices over `indices`:
    /// one face per complete group of `size` indices.
    pub open spec fn is_uniform_polymesh(&self, indices: Seq<usize>, size: usize) -> bool {
        &&& self matches Topology::PolyMesh { face_counts, face_indices }
        &&& face_counts@ == uniform_counts(indices.len() / (size as nat), size)
        &&& face_indices@ == indices
    }

    fn uniform(indices: Vec<usize>, size: usize) -> (t: Self)
        requires
            size > 0,
        ensures
            t.is_uniform_polymesh(indices@, size),
    {
        let n = indices.len() / size;
        let mut face_counts: Vec<usize> = Vec::new();
        let mut i: usize = 0;
        while i < n
            invariant
                i <= n,
                face_counts@ == uniform_counts(i as nat, size),
            decreases n - i,
        {
            face_counts.push(size);
            i = i + 1;
            assert(face_counts@ =~= uniform_counts(i as nat, size));
        }
        Topology::PolyMesh { face_counts, face_indices: indices }
    }

    /// Triangle mesh topology: every three indices form a face; a trailing
    /// incomplete group forms no face but stays in the index list.
    pub fn triangles(indices: Vec<usize>) -> (t: Self)
        ensures
            t.is_uniform_polymesh(indices@, 3),
    {
        Self::uniform(indices, 3)
    }

    /// Quad mesh topology: every four indices form a face.
    pub fn quads(indices: Vec<usize>) -> (t: Self)
        ensures
            t.is_uniform_polymesh(indices@, 4),
    {
        Self::uniform(indices, 4)
    }

    /// Arbitrary polygon mesh.
    pub fn polymesh(face_counts: Vec<usize>, face_indices: Vec<usize>) -> (t: Self)
        ensures
            t matches Topology::PolyMesh { face_counts: fc, face_indices: fi }
                && fc@ == face_counts@ && fi@ == face_indices@,
    {
        Topology::PolyMesh { face_counts, face_indices }
    }

    /// A point cloud.
    pub fn points() -> (t: Self)
        ensures
            t is Points,
    {
        Topology::Points
    }

    /// Number of primitives (faces, curves; none for a point cloud).
    pub fn primitive_count(&self) -> (n: usize)
        ensures
            n == self.spec_primitive_count(),
    {
        match self {
            Topology::Points => 0,
            Topology::PolyMesh { face_counts, .. } => face_counts.len(),
            Topology::Curves { curve_counts } => curve_counts.len(),
        }
    }

    /// Total number of face-vertex pairs of a polygon mesh; zero otherwise.
    pub fn face_vertex_count(&self) -> (n: usize)
        ensures
            n == self.spec_face_vertex_count(),
    {
        match self {
            Topology::PolyMesh { face_indices, .. } => face_indices.len(),
            _ => 0,
        }
    }

    /// Whether this is a point cloud.
    pub fn is_points(&self) -> (b: bool)
        ensures
            b <==> self is Points,
    {
        match self {
            Topology::Points => true,
            _ => false,
        }
    }

    /// Whether this is a polygon mesh.
    pub fn is_polymesh(&self) -> (b: bool)
        ensures
            b <==> self is PolyMesh,
    {
        match self {
            Topology::PolyMesh { .. } => true,
            _ => false,
        }
    }

    /// The text shown for this topology: `Points`, `PolyMesh(<n> faces)` or
    /// `Curves(<n> curves)`.
    pub open spec fn spec_describe(&self) -> Seq<char> {
        match self {
            Topology::Points => seq!['P', 'o', 'i', 'n', 't', 's'],
            Topology::PolyMesh { face_counts, .. } => seq!['P', 'o', 'l', 'y', 'M', 'e', 's', 'h', '(']
                + spec_decimal(face_counts@.len()) + seq![' ', 'f', 'a', 'c', 'e', 's', ')'],
            Topology::Curves { curve_counts } => seq!['C', 'u', 'r', 'v', 'e', 's', '(']
                + spec_decimal(curve_counts@.len()) + seq![' ', 'c', 'u', 'r', 'v', 'e', 's', ')'],
        }
    }

    /// Renders the topology as text (see `spec_describe`).
    pub fn describe(&self) -> (s: String)
        ensures
            s@ == self.spec_describe(),
    {
        let mut v: Vec<char> = Vec::new();
        match self {
            Topology::Points => {
                push_str_chars(&mut v, "Points");
                proof { reveal_strlit("Points"); }
            },
            Topology::PolyMesh { face_counts, .. } => {
                push_str_chars(&mut v, "PolyMesh(");
                let d = decimal_chars(face_counts.len());
                push_all(&mut v, &d);
                push_str_chars(&mut v, " faces)");
                proof {
                    reveal_strlit("PolyMesh(");
                    reveal_strlit(" faces)");
                }
            },
            Topology::Curves { curve_counts } => {
                push_str_chars(&mut v, "Curves(");
                let d = decimal_chars(curve_counts.len());
                push_all(&mut v, &d);
                push_str_chars(&mut v, " curves)");
                proof {
                    reveal_strlit("Curves(");
                    reveal_strlit(" curves)");
                }
            },
        }
        assert(v@ =~= self.spec_describe());
        string_from_chars(&v)
    }
}

} // verus!
