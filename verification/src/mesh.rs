//! Terrain mesh indexing: triangulating a heightmap grid into index
//! triples, cell by cell, with the diagonal choice handed in per cell.
//!
//! Vertices are laid out with the second raster axis innermost: vertex
//! `i` sits at row `i / raster_height`, column `i % raster_height`. Each
//! interior cell becomes two triangles; which diagonal splits the cell is
//! the caller's choice (the renderer picks the diagonal with the smaller
//! squared length, a floating-point measurement).

use vstd::prelude::*;
use vstd::string::StringExecFns;

verus! {

/// Why a mesh could not be indexed.
#[derive(Debug, Clone, Copy, PartialEq, Eq, Structural)]
pub enum MeshError {
    /// The vertex list does not hold exactly one vertex per raster cell:
    /// the grid is corrupted.
    VertexCountMismatch,
}

impl MeshError {
    /// The display text of this error.
    pub fn message(&self) -> (r: String)
        ensures
            r@ == "The length of produced vertices doesn't match the original raster width and height!"@,
    {
        String::from_str(
            "The length of produced vertices doesn't match the original raster width and height!",
        )
    }
}

/// Whether vertex `i` is the bottom-left corner of an interior cell.
pub open spec fn cell_emits(i: int, raster_width: int, raster_height: int) -> bool {
    raster_height > 0 && i % raster_height < raster_height - 1 && i / raster_height < raster_width
        - 1
}

/// The six indices of the two triangles of the cell at vertex `i`:
/// `split` picks which diagonal divides it, keeping the winding of the
/// corners.
pub open spec fn cell_indices(i: int, raster_height: int, split: bool) -> Seq<u32> {
    let bl = i as u32;
    let br = (i + 1) as u32;
    let tl = (i + raster_height) as u32;
    let tr = (i + raster_height + 1) as u32;
    if split {
        seq![br, bl, tl, tl, tr, br]
    } else {
        seq![tr, br, bl, bl, tl, tr]
    }
}

/// The index list of the grid, cells of the first `upto` vertices.
pub open spec fn grid_indices(
    raster_width: int,
    raster_height: int,
    splits: Seq<bool>,
    upto: int,
) -> Seq<u32>
    decreases upto,
{
    if upto <= 0 {
        Seq::empty()
    } else {
        grid_indices(raster_width, raster_height, splits, upto - 1) + if cell_emits(
            upto - 1,
            raster_width,
            raster_height,
        ) {
            cell_indices(upto - 1, raster_height, splits[upto - 1])
        } else {
            Seq::empty()
        }
    }
}

/// Triangulates the heightmap grid: for every interior cell the two
/// triangles split along the chosen diagonal. Fails when the vertex
/// count does not match the raster extent (grid corruption guard).
pub fn generate_indices(
    vertex_count: usize,
    raster_width: usize,
    raster_height: usize,
    splits: &Vec<bool>,
) -> (r: Result<Vec<u32>, MeshError>)
    requires
        splits@.len() == vertex_count,
        raster_width * raster_height <= u32::MAX,
    ensures
        r is Ok <==> vertex_count == raster_width * raster_height,
        r matches Ok(inds) ==> inds@ == grid_indices(
            raster_width as int,
            raster_height as int,
            splits@,
            vertex_count as int,
        ),
{
    proof {
        assert(raster_width * raster_height >= 0) by (nonlinear_arith);
    }
    let expected = raster_width * raster_height;
    if vertex_count != expected {
        return Err(MeshError::VertexCountMismatch);
    }
    let mut out: Vec<u32> = Vec::new();
    let mut i: usize = 0;
    proof {
        assert(out@ =~= grid_indices(raster_width as int, raster_height as int, splits@, 0));
    }
    while i < vertex_count
        invariant
            0 <= i <= vertex_count,
            splits@.len() == vertex_count,
            vertex_count == raster_width * raster_height,
            raster_width * raster_height <= u32::MAX,
            out@ == grid_indices(raster_width as int, raster_height as int, splits@, i as int),
        decreases vertex_count - i,
    {
        proof {
            if raster_height == 0 {
                assert(raster_width * raster_height == 0) by (nonlinear_arith)
                    requires
                        raster_height == 0,
                ;
            }
        }
        let row = i / raster_height;
        let col = i % raster_height;
        proof {
            vstd::arithmetic::div_mod::lemma_fundamental_div_mod(i as int, raster_height as int);
            vstd::arithmetic::div_mod::lemma_mod_bound(i as int, raster_height as int);
        }
        if col < raster_height - 1 && row < raster_width - 1 {
            proof {
                assert(i + raster_height + 1 < raster_width * raster_height) by (nonlinear_arith)
                    requires
                        raster_height > 0,
                        raster_width > 0,
                        i == raster_height * ((i as int) / (raster_height as int)) + ((
                        i as int) % (raster_height as int)),
                        ((i as int) % (raster_height as int)) < raster_height - 1,
                        ((i as int) / (raster_height as int)) < raster_width - 1,
                ;
            }
            let bl = i as u32;
            let br = (i + 1) as u32;
            let tl = (i + raster_height) as u32;
            let tr = (i + raster_height + 1) as u32;
            if splits[i] {
                out.push(br);
                out.push(bl);
                out.push(tl);
                out.push(tl);
                out.push(tr);
                out.push(br);
            } else {
                out.push(tr);
                out.push(br);
                out.push(bl);
                out.push(bl);
                out.push(tl);
                out.push(tr);
            }
            proof {
                assert(out@ =~= grid_indices(
                    raster_width as int,
                    raster_height as int,
                    splits@,
                    i + 1,
                ));
            }
        } else {
            proof {
                assert(out@ =~= grid_indices(
                    raster_width as int,
                    raster_height as int,
                    splits@,
                    i + 1,
                ));
            }
        }
        i = i + 1;
    }
    Ok(out)
}

/// How many compute workgroups cover the texture: the per-axis counts
/// are the extents divided by the workgroup extents, rounded up.
pub fn compute_work_group_count(size: (u32, u32), workgroup_size: (u32, u32)) -> (r: (u32, u32))
    requires
        workgroup_size.0 >= 1,
        workgroup_size.1 >= 1,
        size.0 + workgroup_size.0 - 1 <= u32::MAX,
        size.1 + workgroup_size.1 - 1 <= u32::MAX,
    ensures
        r.0 == (size.0 + workgroup_size.0 - 1) as int / workgroup_size.0 as int,
        r.1 == (size.1 + workgroup_size.1 - 1) as int / workgroup_size.1 as int,
        r.0 * workgroup_size.0 >= size.0,
        r.1 * workgroup_size.1 >= size.1,
{
    let x64 = ((size.0 as u64) + (workgroup_size.0 as u64) - 1) / (workgroup_size.0 as u64);
    let y64 = ((size.1 as u64) + (workgroup_size.1 as u64) - 1) / (workgroup_size.1 as u64);
    proof {
        lemma_ceil_div_covers(size.0 as int, workgroup_size.0 as int);
        lemma_ceil_div_covers(size.1 as int, workgroup_size.1 as int);
        vstd::arithmetic::div_mod::lemma_div_is_ordered(
            size.0 + workgroup_size.0 - 1,
            u32::MAX as int,
            workgroup_size.0 as int,
        );
        vstd::arithmetic::div_mod::lemma_div_is_ordered_by_denominator(
            u32::MAX as int,
            1,
            workgroup_size.0 as int,
        );
        vstd::arithmetic::div_mod::lemma_div_is_ordered(
            size.1 + workgroup_size.1 - 1,
            u32::MAX as int,
            workgroup_size.1 as int,
        );
        vstd::arithmetic::div_mod::lemma_div_is_ordered_by_denominator(
            u32::MAX as int,
            1,
            workgroup_size.1 as int,
        );
    }
    (x64 as u32, y64 as u32)
}

/// Rounding the quotient up covers the dividend.
proof fn lemma_ceil_div_covers(n: int, w: int)
    requires
        n >= 0,
        w >= 1,
    ensures
        ((n + w - 1) / w) * w >= n,
{
    vstd::arithmetic::div_mod::lemma_fundamental_div_mod(n + w - 1, w);
    vstd::arithmetic::div_mod::lemma_mod_bound(n + w - 1, w);
    let q = (n + w - 1) / w;
    assert(w * q == n + w - 1 - ((n + w - 1) % w));
    assert(w * q == q * w) by (nonlinear_arith);
}

} // verus!
