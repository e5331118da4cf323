//! The subnet nodes that work on whole geometries: scattering points over
//! a polygon mesh and reading the template geometry, and how a subnet's
//! result becomes a triangle index buffer again.

use vstd::prelude::*;
use crate::topology::Topology;
use crate::usd_loader::{count_sum, lemma_count_sum_prefix};

verus! {

/// Reads the template geometry handed to a subnet. The template already
/// sits in the evaluation context, so the node itself does nothing; it
/// shows in the graph where the template enters.
#[derive(Clone, Copy, Debug, PartialEq, Eq, Structural)]
pub struct GetTemplate;

impl GetTemplate {
    pub fn new() -> (g: Self)
        ensures
            g == GetTemplate,
    {
        GetTemplate
    }

    /// Runs the node: it always succeeds and changes nothing.
    pub fn execute(&self) -> (r: Result<(), String>)
        ensures
            r is Ok,
    {
        Ok(())
    }
}

/// Scatters `count` points over the triangles of a polygon mesh, with a
/// generator seeded with `seed`.
#[derive(Clone, Copy, Debug, PartialEq, Eq, Structural)]
pub struct ScatterPoints {
    pub count: u32,
    pub seed: u32,
}

impl ScatterPoints {
    pub fn new(count: u32, seed: u32) -> (s: Self)
        ensures
            s.count == count,
            s.seed == seed,
    {
        ScatterPoints { count, seed }
    }
}

/// The triangles among the first `k` faces of a polygon mesh: faces of
/// exactly three vertices that lie within `indices` and refer only to
/// existing points, in order.
pub open spec fn mesh_triangles(counts: Seq<usize>, indices: Seq<usize>, n: nat, k: nat) -> Seq<(usize, usize, usize)>
    decreases k,
{
    if k == 0 {
        seq![]
    } else {
        let prev = mesh_triangles(counts, indices, n, (k - 1) as nat);
        let off = count_sum(counts.take(k - 1));
        if counts[k - 1] == 3 && off + 2 < indices.len() && indices[off] < n && indices[off + 1] < n
            && indices[off + 2] < n {
            prev.push((indices[off], indices[off + 1], indices[off + 2]))
        } else {
            prev
        }
    }
}

/// The error for geometry that is not a polygon mesh.
pub open spec fn not_polymesh_message() -> Seq<char> {
    "ScatterPoints requires PolyMesh topology"@
}

/// The error for a polygon mesh without a usable triangle.
pub open spec fn no_triangles_message() -> Seq<char> {
    "No valid triangles found for scattering"@
}

/// The triangles points can be scattered over: of a polygon mesh, its
/// three-vertex faces that lie within the index list and refer to one of
/// the `point_count` points. An error for other topologies, or when there
/// is no such triangle.
pub fn scatter_triangles(topology: &Topology, point_count: usize) -> (r: Result<Vec<(usize, usize, usize)>, String>)
    requires
        topology matches Topology::PolyMesh { face_counts, .. } ==> count_sum(face_counts@) <= usize::MAX,
    ensures
        match topology {
            Topology::PolyMesh { face_counts, face_indices } => {
                let tris = mesh_triangles(face_counts@, face_indices@, point_count as nat, face_counts@.len());
                if tris.len() == 0 {
                    r matches Err(e) && e@ == no_triangles_message()
                } else {
                    r matches Ok(v) && v@ == tris
                }
            },
            _ => r matches Err(e) && e@ == not_polymesh_message(),
        },
{
    match topology {
        Topology::PolyMesh { face_counts, face_indices } => {
            let mut tris: Vec<(usize, usize, usize)> = Vec::new();
            let mut idx: usize = 0;
            let mut k: usize = 0;
            assert(face_counts@.take(0) =~= seq![]);
            while k < face_counts.len()
                invariant
                    k <= face_counts@.len(),
                    count_sum(face_counts@) <= usize::MAX,
                    idx == count_sum(face_counts@.take(k as int)),
                    tris@ == mesh_triangles(face_counts@, face_indices@, point_count as nat, k as nat),
                decreases face_counts@.len() - k,
            {
                let count = face_counts[k];
                proof {
                    lemma_count_sum_prefix(face_counts@, k + 1);
                    assert(face_counts@.take(k + 1).drop_last() =~= face_counts@.take(k as int));
                    assert(face_counts@.take(k + 1).last() == count);
                }
                if count == 3 && idx + 2 < face_indices.len() {
                    let a = face_indices[idx];
                    let b = face_indices[idx + 1];
                    let c = face_indices[idx + 2];
                    if a < point_count && b < point_count && c < point_count {
                        tris.push((a, b, c));
                    }
                }
                idx = idx + count;
                k = k + 1;
            }
            assert(face_counts@.take(k as int) =~= face_counts@);
            if tris.len() == 0 {
                Err(String::from_str("No valid triangles found for scattering"))
            } else {
                Ok(tris)
            }
        },
        _ => Err(String::from_str("ScatterPoints requires PolyMesh topology")),
    }
}

/// The index buffer of a subnet's result: the face indices of a polygon
/// mesh (each taken as a `u32`), nothing for a point cloud, and the input
/// mesh's own indices otherwise.
pub fn result_indices(topology: &Topology, input_indices: &Vec<u32>) -> (out: Vec<u32>)
    ensures
        match topology {
            Topology::PolyMesh { face_indices, .. } => out@ == Seq::new(
                face_indices@.len(),
                |i: int| face_indices@[i] as u32,
            ),
            Topology::Points => out@.len() == 0,
            Topology::Curves { .. } => out@ == input_indices@,
        },
{
    match topology {
        Topology::PolyMesh { face_indices, .. } => {
            let mut out: Vec<u32> = Vec::new();
            let mut i: usize = 0;
            while i < face_indices.len()
                invariant
                    i <= face_indices@.len(),
                    out@ == Seq::new(i as nat, |j: int| face_indices@[j] as u32),
                decreases face_indices@.len() - i,
            {
                out.push(#[verifier::truncate] (face_indices[i] as u32));
                i = i + 1;
                assert(out@ =~= Seq::new(i as nat, |j: int| face_indices@[j] as u32));
            }
            out
        },
        Topology::Points => Vec::new(),
        Topology::Curves { .. } => input_indices.clone(),
    }
}

} // verus!
