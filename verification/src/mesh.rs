//! Triangle index data of a mesh and its validation.

use vstd::prelude::*;

use crate::utils::{Result, TreeSupportError};

verus! {

/// A triangle in the mesh, referencing vertex indices.
#[derive(Debug, Clone, Copy, PartialEq, Eq, Structural)]
pub struct Triangle {
    /// Index of the first vertex.
    pub v0: u32,
    /// Index of the second vertex.
    pub v1: u32,
    /// Index of the third vertex.
    pub v2: u32,
}

/// The decimal digits of `n`, most significant first, without padding.
pub open spec fn decimal(n: nat) -> Seq<char>
    decreases n,
{
    let digit = (('0' as int) + (n % 10) as int) as char;
    if n < 10 {
        seq![digit]
    } else {
        decimal(n / 10).push(digit)
    }
}

/// The message reporting that triangle `triangle` holds the vertex index `index`,
/// which names no vertex.
pub open spec fn out_of_range_message(triangle: nat, index: nat) -> Seq<char> {
    "triangle "@ + decimal(triangle) + " has out-of-range index "@ + decimal(index)
}

/// Formats the out-of-range message with `std::format!`, which writes each
/// integer in decimal without padding.
#[verifier::external_body]
fn format_out_of_range(triangle: usize, index: u32) -> (s: String)
    ensures
        s@ == out_of_range_message(triangle as nat, index as nat),
{
    format!("triangle {} has out-of-range index {}", triangle, index)
}

/// Whether every index of every triangle is below `vertex_limit`.
pub open spec fn all_indices_below(triangles: Seq<[u32; 3]>, vertex_limit: u32) -> bool {
    forall|t: int, j: int|
        0 <= t < triangles.len() && 0 <= j < 3 ==> #[trigger] triangles[t][j] < vertex_limit
}

/// Whether `(t, j)` is the first position, in triangle order and then corner
/// order, that holds an index of at least `vertex_limit`.
pub open spec fn first_bad_index(
    triangles: Seq<[u32; 3]>,
    vertex_limit: u32,
    t: int,
    j: int,
) -> bool {
    &&& 0 <= t < triangles.len()
    &&& 0 <= j < 3
    &&& triangles[t][j] >= vertex_limit
    &&& forall|u: int, k: int|
        0 <= u < triangles.len() && 0 <= k < 3 && (u < t || (u == t && k < j))
            ==> #[trigger] triangles[u][k] < vertex_limit
}

/// Check the index data of a mesh with `vertex_count` vertices.
///
/// A mesh needs at least one vertex and one triangle, and every triangle index
/// must be below the vertex count taken as a `u32`. The first offending index,
/// in triangle order and then corner order, is reported.
pub fn check_mesh_indices(vertex_count: usize, triangles: &Vec<[u32; 3]>) -> (r: Result<()>)
    ensures
        r is Ok <==> (vertex_count > 0 && triangles@.len() > 0 && all_indices_below(
            triangles@,
            vertex_count as u32,
        )),
        vertex_count == 0 ==> (r matches Err(TreeSupportError::InvalidMesh(m)) && m@
            == "mesh has no vertices"@),
        vertex_count > 0 && triangles@.len() == 0 ==> (r matches Err(
            TreeSupportError::InvalidMesh(m),
        ) && m@ == "mesh has no triangles"@),
        vertex_count > 0 && triangles@.len() > 0 && !all_indices_below(
            triangles@,
            vertex_count as u32,
        ) ==> exists|t: int, j: int|
            #[trigger] first_bad_index(triangles@, vertex_count as u32, t, j) && (r matches Err(
                TreeSupportError::InvalidMesh(m),
            ) && m@ == out_of_range_message(t as nat, triangles@[t][j] as nat)),
{
    if vertex_count == 0 {
        return Err(TreeSupportError::InvalidMesh("mesh has no vertices".to_owned()));
    }
    if triangles.len() == 0 {
        return Err(TreeSupportError::InvalidMesh("mesh has no triangles".to_owned()));
    }
    let vcount = #[verifier::truncate] (vertex_count as u32);
    let n = triangles.len();
    let mut ti: usize = 0;
    while ti < n
        invariant
            n == triangles@.len(),
            vcount == vertex_count as u32,
            vertex_count > 0,
            0 <= ti <= n,
            forall|u: int, k: int|
                0 <= u < ti && 0 <= k < 3 ==> #[trigger] triangles@[u][k] < vcount,
        decreases n - ti,
    {
        let tri = triangles[ti];
        let mut j: usize = 0;
        while j < 3
            invariant
                n == triangles@.len(),
                vcount == vertex_count as u32,
                vertex_count > 0,
                0 <= ti < n,
                0 <= j <= 3,
                tri == triangles@[ti as int],
                forall|u: int, k: int|
                    0 <= u < ti && 0 <= k < 3 ==> #[trigger] triangles@[u][k] < vcount,
                forall|k: int| 0 <= k < j ==> #[trigger] tri[k] < vcount,
            decreases 3 - j,
        {
            let idx = tri[j];
            if idx >= vcount {
                assert(first_bad_index(triangles@, vcount, ti as int, j as int));
                return Err(TreeSupportError::InvalidMesh(format_out_of_range(ti, idx)));
            }
            j = j + 1;
        }
        ti = ti + 1;
    }
    Ok(())
}

} // verus!
