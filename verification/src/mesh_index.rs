//! Index arithmetic of triangle meshes: which triangles are usable, how
//! index buffers combine when meshes are merged or instanced, the index
//! buffers of procedural grids and spheres, and the integer attributes
//! every mesh carries.

use vstd::prelude::*;

verus! {

// ── Usable triangles ────────────────────────────────────────────────────────

/// Triangle `t` (indices `3t`, `3t+1`, `3t+2`) refers only to existing
/// vertices.
pub open spec fn triangle_in_range(idx: Seq<u32>, t: int, n: nat) -> bool {
    idx[3 * t] < n && idx[3 * t + 1] < n && idx[3 * t + 2] < n
}

/// The complete triangles among the first `t` groups of three indices that
/// refer only to existing vertices, in order.
pub open spec fn usable_triangles(idx: Seq<u32>, n: nat, t: nat) -> Seq<(usize, usize, usize)>
    decreases t,
{
    if t == 0 {
        seq![]
    } else {
        let prev = usable_triangles(idx, n, (t - 1) as nat);
        let k = t - 1;
        if triangle_in_range(idx, k, n) {
            prev.push((idx[3 * k] as usize, idx[3 * k + 1] as usize, idx[3 * k + 2] as usize))
        } else {
            prev
        }
    }
}

/// The triangles of an index buffer that can be used: complete groups of
/// three whose indices are all below `vertex_count`; a trailing incomplete
/// group is ignored.
pub fn valid_triangles(indices: &Vec<u32>, vertex_count: usize) -> (tris: Vec<(usize, usize, usize)>)
    ensures
        tris@ == usable_triangles(indices@, vertex_count as nat, indices@.len() / 3),
{
    let mut tris: Vec<(usize, usize, usize)> = Vec::new();
    let len = indices.len();
    let ntri = len / 3;
    let mut t: usize = 0;
    while t < ntri
        invariant
            t <= ntri,
            ntri == indices@.len() / 3,
            len == indices@.len(),
            3 * ntri <= len,
            tris@ == usable_triangles(indices@, vertex_count as nat, t as nat),
        decreases ntri - t,
    {
        assert(3 * t + 2 < 3 * ntri);
        let a = indices[3 * t] as usize;
        let b = indices[3 * t + 1] as usize;
        let c = indices[3 * t + 2] as usize;
        if a < vertex_count && b < vertex_count && c < vertex_count {
            tris.push((a, b, c));
        }
        t = t + 1;
    }
    tris
}

/// Every usable triangle refers to existing vertices.
pub proof fn lemma_usable_triangles_in_range(idx: Seq<u32>, n: nat, t: nat, j: int)
    requires
        3 * t <= idx.len(),
        0 <= j < usable_triangles(idx, n, t).len(),
    ensures
        usable_triangles(idx, n, t)[j].0 < n,
        usable_triangles(idx, n, t)[j].1 < n,
        usable_triangles(idx, n, t)[j].2 < n,
    decreases t,
{
    if t > 0 {
        let prev = usable_triangles(idx, n, (t - 1) as nat);
        if j < prev.len() {
            lemma_usable_triangles_in_range(idx, n, (t - 1) as nat, j);
        }
    }
}

// ── Combining index buffers ─────────────────────────────────────────────────

/// Each index shifted by `off`.
pub open spec fn shifted(idx: Seq<u32>, off: int) -> Seq<u32> {
    Seq::new(idx.len(), |i: int| (idx[i] + off) as u32)
}

/// The index buffer of two meshes merged: the first mesh's indices, then
/// the second's shifted past the first mesh's `a_vertex_count` vertices
/// (the count taken modulo 2^32, as a `u32`).
pub fn merge_indices(a: &Vec<u32>, b: &Vec<u32>, a_vertex_count: usize) -> (out: Vec<u32>)
    requires
        forall|i: int| 0 <= i < b@.len() ==> b@[i] + (a_vertex_count as u32) <= u32::MAX,
    ensures
        out@ == a@ + shifted(b@, (a_vertex_count as u32) as int),
{
    let off = a_vertex_count as u32;
    let mut out: Vec<u32> = Vec::new();
    let mut i: usize = 0;
    while i < a.len()
        invariant
            i <= a.len(),
            out@ == a@.take(i as int),
        decreases a.len() - i,
    {
        out.push(a[i]);
        i = i + 1;
        assert(out@ =~= a@.take(i as int));
    }
    let mut j: usize = 0;
    while j < b.len()
        invariant
            j <= b.len(),
            i == a.len(),
            off == a_vertex_count as u32,
            forall|k: int| 0 <= k < b@.len() ==> b@[k] + off <= u32::MAX,
            out@ == a@ + shifted(b@, off as int).take(j as int),
        decreases b.len() - j,
    {
        out.push(b[j] + off);
        j = j + 1;
        assert(out@ =~= a@ + shifted(b@, off as int).take(j as int));
    }
    assert(shifted(b@, off as int).take(j as int) =~= shifted(b@, off as int));
    out
}

/// The offset of copy `k` when each copy has `tvc` vertices: `k * tvc`
/// taken as a `u32`.
pub open spec fn copy_offset(k: int, tvc: int) -> int {
    ((k * tvc) as u32) as int
}

/// Every index of `idx` plus `off` still fits in a `u32`.
pub open spec fn shift_fits(idx: Seq<u32>, off: int) -> bool {
    forall|i: int| 0 <= i < idx.len() ==> #[trigger] idx[i] + off <= u32::MAX
}

/// The index buffer of `copies` instances of a template mesh laid one
/// after another: copy `k` holds the template indices shifted by
/// `copy_offset(k, tvc)`.
pub open spec fn instanced(idx: Seq<u32>, tvc: nat, copies: nat) -> Seq<u32>
    decreases copies,
{
    if copies == 0 {
        seq![]
    } else {
        instanced(idx, tvc, (copies - 1) as nat) + shifted(idx, copy_offset(copies - 1, tvc as int))
    }
}

/// The index buffer of `point_count` copies of a template mesh with
/// `template_vertex_count` vertices and index buffer `template_indices`.
pub fn copy_indices(template_indices: &Vec<u32>, template_vertex_count: usize, point_count: usize) -> (out: Vec<u32>)
    requires
        point_count * template_vertex_count <= usize::MAX,
        forall|k: int|
            0 <= k < point_count ==> #[trigger] shift_fits(
                template_indices@,
                copy_offset(k, template_vertex_count as int),
            ),
    ensures
        out@ == instanced(template_indices@, template_vertex_count as nat, point_count as nat),
{
    let mut out: Vec<u32> = Vec::new();
    let mut k: usize = 0;
    let mut base: usize = 0;
    while k < point_count
        invariant
            k <= point_count,
            base == k * template_vertex_count,
            point_count * template_vertex_count <= usize::MAX,
            forall|kk: int|
                0 <= kk < point_count ==> #[trigger] shift_fits(
                    template_indices@,
                    copy_offset(kk, template_vertex_count as int),
                ),
            out@ == instanced(template_indices@, template_vertex_count as nat, k as nat),
        decreases point_count - k,
    {
        let off = base as u32;
        assert(shift_fits(template_indices@, copy_offset(k as int, template_vertex_count as int)));
        let ghost before = out@;
        let mut i: usize = 0;
        while i < template_indices.len()
            invariant
                i <= template_indices.len(),
                off as int == copy_offset(k as int, template_vertex_count as int),
                shift_fits(template_indices@, off as int),
                out@ == before + shifted(template_indices@, off as int).take(i as int),
            decreases template_indices.len() - i,
        {
            assert(template_indices@[i as int] + off <= u32::MAX);
            out.push(template_indices[i] + off);
            i = i + 1;
            assert(out@ =~= before + shifted(template_indices@, off as int).take(i as int));
        }
        assert(shifted(template_indices@, off as int).take(i as int) =~= shifted(template_indices@, off as int));
        proof {
            assert((k + 1) * template_vertex_count == k * template_vertex_count + template_vertex_count)
                by (nonlinear_arith);
            assert((k + 1) * template_vertex_count <= point_count * template_vertex_count)
                by (nonlinear_arith)
                requires
                    k + 1 <= point_count,
            ;
        }
        k = k + 1;
        base = base + template_vertex_count;
    }
    out
}

/// The copies of a template fit: their vertices are countable in a
/// `usize`, and every index of every copy fits in a `u32`.
pub open spec fn copies_fit(idx: Seq<u32>, tvc: nat, copies: nat) -> bool {
    &&& copies * tvc <= usize::MAX
    &&& forall|k: int| 0 <= k < copies ==> #[trigger] shift_fits(idx, copy_offset(k, tvc as int))
}

/// The index buffer of `copy_indices`, or `None` when the copies do not
/// fit (see `copies_fit`).
pub fn try_copy_indices(template_indices: &Vec<u32>, template_vertex_count: usize, point_count: usize) -> (r: Option<Vec<u32>>)
    ensures
        copies_fit(template_indices@, template_vertex_count as nat, point_count as nat) ==> (r matches Some(v)
            && v@ == instanced(template_indices@, template_vertex_count as nat, point_count as nat)),
        !copies_fit(template_indices@, template_vertex_count as nat, point_count as nat) ==> r is None,
{
    if point_count.checked_mul(template_vertex_count).is_none() {
        return None;
    }
    let mut k: usize = 0;
    while k < point_count
        invariant
            k <= point_count,
            point_count * template_vertex_count <= usize::MAX,
            forall|kk: int|
                0 <= kk < k ==> #[trigger] shift_fits(template_indices@, copy_offset(kk, template_vertex_count as int)),
        decreases point_count - k,
    {
        proof {
            assert(k * template_vertex_count <= point_count * template_vertex_count) by (nonlinear_arith)
                requires
                    k <= point_count,
            ;
        }
        let off = (k * template_vertex_count) as u32;
        let mut i: usize = 0;
        while i < template_indices.len()
            invariant
                i <= template_indices.len(),
                k < point_count,
                point_count * template_vertex_count <= usize::MAX,
                forall|kk: int|
                    0 <= kk < k ==> #[trigger] shift_fits(template_indices@, copy_offset(kk, template_vertex_count as int)),
                off as int == copy_offset(k as int, template_vertex_count as int),
                forall|j: int| 0 <= j < i ==> #[trigger] template_indices@[j] + off <= u32::MAX,
            decreases template_indices.len() - i,
        {
            if template_indices[i] > u32::MAX - off {
                proof {
                    let tv = template_vertex_count as nat;
                    assert(!shift_fits(template_indices@, copy_offset(k as int, template_vertex_count as int)));
                    assert(!shift_fits(template_indices@, copy_offset(k as int, tv as int)));
                    assert(!copies_fit(template_indices@, tv, point_count as nat));
                }
                return None;
            }
            i = i + 1;
        }
        assert(shift_fits(template_indices@, copy_offset(k as int, template_vertex_count as int)));
        k = k + 1;
    }
    Some(copy_indices(template_indices, template_vertex_count, point_count))
}

// ── Lattice index buffers ──────────────────────────────────────────────────

/// How a lattice cell is split into two triangles. The cell's corners are
/// `tl` (row `r`, column `c`), `tr = tl + 1`, `bl = tl + cc` and
/// `br = tl + cc + 1`, where `cc` is the number of vertices per row.
#[derive(Clone, Copy, PartialEq, Eq, Structural, Debug)]
pub enum CellSplit {
    /// `tl, bl, tr, tr, bl, br`: the winding of the ground grid.
    Grid,
    /// `tl, bl, tr, bl, br, tr`: the winding of the latitude/longitude sphere.
    Sphere,
}

/// Corner `j` (0..6) of cell (`r`, `c`) in a lattice with `cols` cells per
/// row, under the given split.
pub open spec fn cell_corner(split: CellSplit, cols: int, r: int, c: int, j: int) -> int {
    let cc = cols + 1;
    let tl = r * cc + c;
    let tr = tl + 1;
    let bl = tl + cc;
    let br = tl + cc + 1;
    match split {
        CellSplit::Grid => if j == 0 { tl } else if j == 1 { bl } else if j == 2 { tr }
            else if j == 3 { tr } else if j == 4 { bl } else { br },
        CellSplit::Sphere => if j == 0 { tl } else if j == 1 { bl } else if j == 2 { tr }
            else if j == 3 { bl } else if j == 4 { br } else { tr },
    }
}

/// Position of corner `j` of cell (`r`, `c`) in the index buffer: cells
/// row by row, six indices each.
pub open spec fn cell_slot(cols: int, r: int, c: int, j: int) -> int {
    6 * (r * cols + c) + j
}

/// The lattice index buffer is exactly the corners of its cells, in order.
pub open spec fn is_lattice_buffer(out: Seq<u32>, split: CellSplit, rows: int, cols: int) -> bool {
    &&& out.len() == 6 * rows * cols
    &&& forall|r: int, c: int, j: int|
        0 <= r < rows && 0 <= c < cols && 0 <= j < 6 ==> #[trigger] out[cell_slot(cols, r, c, j)]
            == cell_corner(split, cols, r, c, j)
}

proof fn lemma_cell_bounds(rows: int, cols: int, r: int, c: int)
    requires
        0 <= r < rows,
        0 <= c < cols,
    ensures
        0 <= r * (cols + 1) + c,
        r * (cols + 1) + c + (cols + 1) + 1 < (rows + 1) * (cols + 1),
        0 <= r * cols + c,
        6 * (r * cols + c) + 6 <= 6 * rows * cols,
        6 * rows * cols == 6 * (rows * cols),
        (r + 1) * (cols + 1) == r * (cols + 1) + cols + 1,
{
    assert(0 <= r * (cols + 1)) by (nonlinear_arith)
        requires
            0 <= r,
            0 <= cols,
    ;
    assert(0 <= r * cols) by (nonlinear_arith)
        requires
            0 <= r,
            0 <= cols,
    ;
    assert((r + 1) * (cols + 1) == r * (cols + 1) + cols + 1) by (nonlinear_arith);
    assert((r + 1) * (cols + 1) <= rows * (cols + 1)) by (nonlinear_arith)
        requires
            r + 1 <= rows,
            0 <= cols,
    ;
    assert((rows + 1) * (cols + 1) == rows * (cols + 1) + cols + 1) by (nonlinear_arith);
    assert(r * cols + c + 1 <= rows * cols) by (nonlinear_arith)
        requires
            0 <= r,
            r + 1 <= rows,
            0 <= c,
            c < cols,
    ;
    assert(6 * rows * cols == 6 * (rows * cols)) by (nonlinear_arith);
}

/// The index buffer of a lattice of `rows` by `cols` cells, whose
/// `(rows + 1) * (cols + 1)` vertices lie row by row; each cell gives two
/// triangles, split as `split` says.
pub fn lattice_indices(rows: u32, cols: u32, split: CellSplit) -> (out: Vec<u32>)
    requires
        cols < u32::MAX,
        (rows + 1) * (cols + 1) <= u32::MAX + 1,
        6 * rows * cols <= usize::MAX,
    ensures
        is_lattice_buffer(out@, split, rows as int, cols as int),
        forall|i: int| 0 <= i < out@.len() ==> #[trigger] out@[i] < (rows + 1) * (cols + 1),
{
    let cc: u32 = cols + 1;
    let mut out: Vec<u32> = Vec::new();
    let mut r: u32 = 0;
    while r < rows
        invariant
            r <= rows,
            cc == cols + 1,
            (rows + 1) * (cols + 1) <= u32::MAX + 1,
            6 * rows * cols <= usize::MAX,
            out@.len() == 6 * (r * cols),
            forall|rr: int, c: int, j: int|
                0 <= rr < r && 0 <= c < cols && 0 <= j < 6 ==> #[trigger] out@[cell_slot(cols as int, rr, c, j)]
                    == cell_corner(split, cols as int, rr, c, j),
            forall|i: int| 0 <= i < out@.len() ==> #[trigger] out@[i] < (rows + 1) * (cols + 1),
        decreases rows - r,
    {
        let mut c: u32 = 0;
        while c < cols
            invariant
                r < rows,
                c <= cols,
                cc == cols + 1,
                (rows + 1) * (cols + 1) <= u32::MAX + 1,
                6 * rows * cols <= usize::MAX,
                out@.len() == 6 * (r * cols + c),
                forall|rr: int, c2: int, j: int|
                    0 <= rr < r && 0 <= c2 < cols && 0 <= j < 6 ==> #[trigger] out@[cell_slot(cols as int, rr, c2, j)]
                        == cell_corner(split, cols as int, rr, c2, j),
                forall|c2: int, j: int|
                    0 <= c2 < c && 0 <= j < 6 ==> #[trigger] out@[cell_slot(cols as int, r as int, c2, j)]
                        == cell_corner(split, cols as int, r as int, c2, j),
                forall|i: int| 0 <= i < out@.len() ==> #[trigger] out@[i] < (rows + 1) * (cols + 1),
            decreases cols - c,
        {
            proof {
                lemma_cell_bounds(rows as int, cols as int, r as int, c as int);
            }
            let tl = r * cc + c;
            let tr = tl + 1;
            let bl = tl + cc;
            let br = tl + cc + 1;
            let ghost before = out@;
            match split {
                CellSplit::Grid => {
                    out.push(tl);
                    out.push(bl);
                    out.push(tr);
                    out.push(tr);
                    out.push(bl);
                    out.push(br);
                },
                CellSplit::Sphere => {
                    out.push(tl);
                    out.push(bl);
                    out.push(tr);
                    out.push(bl);
                    out.push(br);
                    out.push(tr);
                },
            }
            assert forall|j: int| 0 <= j < 6 implies #[trigger] out@[cell_slot(cols as int, r as int, c as int, j)]
                == cell_corner(split, cols as int, r as int, c as int, j) by {
                assert(cell_slot(cols as int, r as int, c as int, j) == before.len() + j);
            }
            assert forall|rr: int, c2: int, j: int|
                0 <= rr < r && 0 <= c2 < cols && 0 <= j < 6 implies #[trigger] out@[cell_slot(cols as int, rr, c2, j)]
                    == cell_corner(split, cols as int, rr, c2, j) by {
                lemma_cell_bounds(r as int, cols as int, rr, c2);
                assert(cell_slot(cols as int, rr, c2, j) < before.len());
                assert(out@[cell_slot(cols as int, rr, c2, j)] == before[cell_slot(cols as int, rr, c2, j)]);
            }
            assert forall|c2: int, j: int|
                0 <= c2 < c + 1 && 0 <= j < 6 implies #[trigger] out@[cell_slot(cols as int, r as int, c2, j)]
                    == cell_corner(split, cols as int, r as int, c2, j) by {
                if c2 < c {
                    assert(cell_slot(cols as int, r as int, c2, j) < before.len());
                    assert(out@[cell_slot(cols as int, r as int, c2, j)] == before[cell_slot(cols as int, r as int, c2, j)]);
                }
            }
            c = c + 1;
        }
        proof {
            assert((r + 1) * cols == r * cols + cols) by (nonlinear_arith);
        }
        r = r + 1;
    }
    proof {
        assert(6 * rows * cols == 6 * (rows * cols)) by (nonlinear_arith);
    }
    out
}

/// The index buffer of the ground grid of `rows` by `cols` cells.
pub fn grid_indices(rows: u32, cols: u32) -> (out: Vec<u32>)
    requires
        rows < u32::MAX,
        cols < u32::MAX,
        (rows + 1) * (cols + 1) <= u32::MAX + 1,
        6 * rows * cols <= usize::MAX,
    ensures
        is_lattice_buffer(out@, CellSplit::Grid, rows as int, cols as int),
        forall|i: int| 0 <= i < out@.len() ==> #[trigger] out@[i] < (rows + 1) * (cols + 1),
{
    lattice_indices(rows, cols, CellSplit::Grid)
}

/// The index buffer of a latitude/longitude sphere with `segments` bands
/// each way, whose `(segments + 1)^2` vertices lie latitude by latitude.
pub fn sphere_indices(segments: u32) -> (out: Vec<u32>)
    requires
        (segments + 1) * (segments + 1) <= u32::MAX + 1,
        6 * segments * segments <= usize::MAX,
    ensures
        is_lattice_buffer(out@, CellSplit::Sphere, segments as int, segments as int),
        forall|i: int| 0 <= i < out@.len() ==> #[trigger] out@[i] < (segments + 1) * (segments + 1),
{
    assert(segments < u32::MAX) by (nonlinear_arith)
        requires
            (segments + 1) * (segments + 1) <= u32::MAX + 1,
    ;
    lattice_indices(segments, segments, CellSplit::Sphere)
}

// ── Integer attributes ──────────────────────────────────────────────────────

/// `0, 1, ..., m - 1` where `m` is `n` taken as an `i32`; empty when that is
/// not positive (as `(0..n as i32).collect()` gives).
pub open spec fn index_range(n: nat) -> Seq<i32> {
    let m = (n as i32) as int;
    if m <= 0 {
        seq![]
    } else {
        Seq::new(m as nat, |i: int| i as i32)
    }
}

/// The values `0 .. (n as i32)`.
pub fn index_sequence(n: usize) -> (v: Vec<i32>)
    ensures
        v@ == index_range(n as nat),
{
    let m = #[verifier::truncate] (n as i32);
    let mut v: Vec<i32> = Vec::new();
    let mut i: i32 = 0;
    while i < m
        invariant
            0 <= i,
            m == #[verifier::truncate] (n as i32),
            i <= m || m <= 0,
            m <= 0 ==> i == 0,
            v@ == Seq::new(i as nat, |j: int| j as i32),
        decreases m - i,
    {
        v.push(i);
        i = i + 1;
        assert(v@ =~= Seq::new(i as nat, |j: int| j as i32));
    }
    assert(m <= 0 ==> v@ =~= seq![]);
    v
}

/// `n` copies of `value`.
pub fn repeat_i32(value: i32, n: usize) -> (v: Vec<i32>)
    ensures
        v@ == Seq::new(n as nat, |_i: int| value),
{
    let mut v: Vec<i32> = Vec::new();
    let mut i: usize = 0;
    while i < n
        invariant
            i <= n,
            v@ == Seq::new(i as nat, |_j: int| value),
        decreases n - i,
    {
        v.push(value);
        i = i + 1;
        assert(v@ =~= Seq::new(i as nat, |_j: int| value));
    }
    v
}

/// The integer attributes every mesh carries.
pub struct StandardIndexAttributes {
    /// `ptIndex`: the index of each point.
    pub pt_index: Vec<i32>,
    /// `primIndex`: the index of each triangle.
    pub prim_index: Vec<i32>,
    /// `ptsNumber`: the point count, once per point.
    pub pts_number: Vec<i32>,
    /// `primsNumber`: the triangle count, once per point.
    pub prims_number: Vec<i32>,
}

/// The standard integer attributes of a mesh with `point_count` points and
/// an index buffer of `index_count` entries (one triangle per complete
/// group of three); counts are taken as `i32`.
pub fn standard_index_attributes(point_count: usize, index_count: usize) -> (a: StandardIndexAttributes)
    ensures
        a.pt_index@ == index_range(point_count as nat),
        a.prim_index@ == index_range((index_count / 3) as nat),
        a.pts_number@ == Seq::new(point_count as nat, |_i: int| point_count as i32),
        a.prims_number@ == Seq::new(point_count as nat, |_i: int| (index_count / 3) as i32),
{
    let tri_count = index_count / 3;
    StandardIndexAttributes {
        pt_index: index_sequence(point_count),
        prim_index: index_sequence(tri_count),
        pts_number: repeat_i32(point_count as i32, point_count),
        prims_number: repeat_i32(tri_count as i32, point_count),
    }
}

} // verus!
