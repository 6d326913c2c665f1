//! Topology of a UV sphere.
//!
//! The sphere is a lattice of `ring_count` rings from pole to pole, each of
//! `sector_count` vertices. The poles are rings of coincident points and the
//! last sector repeats the first one's longitude, so the lattice needs no
//! wraparound cell: every cell joins ring `r`, sector `s` to ring `r + 1`,
//! sector `s + 1`.
use vstd::prelude::*;

verus! {

/// Position in the index list of the `j`-th index of the cell at ring `r`,
/// sector `s`; each cell emits six indices.
pub open spec fn slot(sectors: int, r: int, s: int, j: int) -> int {
    6 * (r * (sectors - 1) + s) + j
}

/// The `j`-th index (`0 <= j < 6`) that the cell at ring `r`, sector `s`
/// emits: the triangles `(lo, lo + 1, hi + 1)` and `(lo, hi + 1, hi)`, where
/// `lo` is the cell's corner on ring `r` and `hi` the one above it.
pub open spec fn cell_index(sectors: int, r: int, s: int, j: int) -> int {
    let lo = r * sectors + s;
    let hi = lo + sectors;
    if j == 0 {
        lo
    } else if j == 1 {
        lo + 1
    } else if j == 2 {
        hi + 1
    } else if j == 3 {
        lo
    } else if j == 4 {
        hi + 1
    } else {
        hi
    }
}

/// Ring and sector counts that describe a sphere with at least one cell.
pub open spec fn valid_topology(ring_count: int, sector_count: int) -> bool {
    ring_count >= 2 && sector_count >= 2
}

/// Every vertex index of such a lattice fits in an `i32`.
pub open spec fn fits_i32(ring_count: int, sector_count: int) -> bool {
    ring_count * sector_count <= i32::MAX
}

/// `indices` is the index list of the lattice: cells in ring-major order, six
/// indices each.
pub open spec fn is_sphere_indices(ring_count: int, sector_count: int, indices: Seq<i32>) -> bool {
    &&& indices.len() == 6 * (ring_count - 1) * (sector_count - 1)
    &&& forall|r: int, s: int, j: int|
        0 <= r < ring_count - 1 && 0 <= s < sector_count - 1 && 0 <= j < 6 ==> indices[#[trigger] slot(
            sector_count,
            r,
            s,
            j,
        )] == cell_index(sector_count, r, s, j)
}

proof fn lemma_slot_before(sectors: int, r1: int, s1: int, j: int, r2: int, s2: int)
    requires
        sectors >= 2,
        0 <= r1,
        0 <= s1 < sectors - 1,
        0 <= j < 6,
        0 <= s2,
        r1 < r2 || (r1 == r2 && s1 < s2),
    ensures
        0 <= slot(sectors, r1, s1, j) < 6 * (r2 * (sectors - 1) + s2),
{
    if r1 < r2 {
        assert(r1 * (sectors - 1) + s1 < r2 * (sectors - 1)) by (nonlinear_arith)
            requires
                0 <= r1 < r2,
                0 <= s1 < sectors - 1,
        ;
    }
    assert(0 <= r1 * (sectors - 1)) by (nonlinear_arith)
        requires
            0 <= r1,
            sectors >= 2,
    ;
}

/// Index list of the lattice with `ring_count` rings of `sector_count`
/// vertices: two triangles per cell, every index below
/// `ring_count * sector_count`.
pub fn generate_indices(ring_count: i32, sector_count: i32) -> (indices: Vec<i32>)
    requires
        valid_topology(ring_count as int, sector_count as int),
        fits_i32(ring_count as int, sector_count as int),
    ensures
        is_sphere_indices(ring_count as int, sector_count as int, indices@),
        forall|k: int|
            0 <= k < indices@.len() ==> 0 <= #[trigger] indices@[k] < ring_count * sector_count,
{
    let ghost rings = ring_count as int;
    let ghost sectors = sector_count as int;
    let mut indices: Vec<i32> = Vec::new();
    let mut r: i32 = 0;
    while r < ring_count - 1
        invariant
            valid_topology(rings, sectors),
            fits_i32(rings, sectors),
            rings == ring_count,
            sectors == sector_count,
            0 <= r <= ring_count - 1,
            indices@.len() == 6 * (r * (sectors - 1)),
            forall|r1: int, s1: int, j: int|
                0 <= r1 < r && 0 <= s1 < sectors - 1 && 0 <= j < 6 ==> indices@[#[trigger] slot(
                    sectors,
                    r1,
                    s1,
                    j,
                )] == cell_index(sectors, r1, s1, j),
            forall|k: int| 0 <= k < indices@.len() ==> 0 <= #[trigger] indices@[k] < rings * sectors,
        decreases ring_count - 1 - r,
    {
        let mut s: i32 = 0;
        while s < sector_count - 1
            invariant
                valid_topology(rings, sectors),
                fits_i32(rings, sectors),
                rings == ring_count,
                sectors == sector_count,
                0 <= r < ring_count - 1,
                0 <= s <= sector_count - 1,
                indices@.len() == 6 * (r * (sectors - 1) + s),
                forall|r1: int, s1: int, j: int|
                    (0 <= r1 < r && 0 <= s1 < sectors - 1 || r1 == r && 0 <= s1 < s) && 0 <= j
                        < 6 ==> indices@[#[trigger] slot(sectors, r1, s1, j)] == cell_index(
                        sectors,
                        r1,
                        s1,
                        j,
                    ),
                forall|k: int|
                    0 <= k < indices@.len() ==> 0 <= #[trigger] indices@[k] < rings * sectors,
            decreases sector_count - 1 - s,
        {
            assert(0 <= r * sectors && (r + 1) * sectors + s + 1 < rings * sectors) by (
            nonlinear_arith)
                requires
                    0 <= r < rings - 1,
                    0 <= s < sectors - 1,
                    sectors >= 2,
            ;
            assert((r + 1) * sectors == r * sectors + sectors) by (nonlinear_arith);
            let lo: i32 = r * sector_count + s;
            let hi: i32 = lo + sector_count;
            let ghost before = indices@;
            indices.push(lo);
            indices.push(lo + 1);
            indices.push(hi + 1);
            indices.push(lo);
            indices.push(hi + 1);
            indices.push(hi);
            assert forall|r1: int, s1: int, j: int|
                (0 <= r1 < r && 0 <= s1 < sectors - 1 || r1 == r && 0 <= s1 < s + 1) && 0 <= j
                    < 6 implies indices@[#[trigger] slot(sectors, r1, s1, j)] == cell_index(
                sectors,
                r1,
                s1,
                j,
            ) by {
                if r1 == r && s1 == s {
                    assert(slot(sectors, r1, s1, j) == before.len() + j);
                } else {
                    lemma_slot_before(sectors, r1, s1, j, r as int, s as int);
                    assert(indices@[slot(sectors, r1, s1, j)] == before[slot(sectors, r1, s1, j)]);
                }
            }
            s = s + 1;
        }
        assert(6 * (r * (sectors - 1) + (sectors - 1)) == 6 * ((r + 1) * (sectors - 1))) by (
        nonlinear_arith);
        r = r + 1;
    }
    assert(6 * (r * (sectors - 1)) == 6 * (rings - 1) * (sectors - 1)) by (nonlinear_arith)
        requires
            r == rings - 1,
    ;
    indices
}


/// A lattice vertex: its ring (from the south pole) and its sector (longitude
/// step). Ring `r` of `n` lies at latitude `-90 + 180 * r / (n - 1)` degrees,
/// sector `s` of `m` at longitude `360 * s / (m - 1)` degrees.
#[derive(Clone, Copy, Debug, PartialEq, Eq)]
pub struct GridPoint {
    pub ring: i32,
    pub sector: i32,
}

/// Position in the vertex list of the vertex at ring `r`, sector `s`.
pub open spec fn lattice_index(sectors: int, r: int, s: int) -> int {
    r * sectors + s
}

/// `vertices` lists the lattice ring by ring, each ring sector by sector.
pub open spec fn is_sphere_vertices(
    ring_count: int,
    sector_count: int,
    vertices: Seq<GridPoint>,
) -> bool {
    &&& vertices.len() == ring_count * sector_count
    &&& forall|r: int, s: int|
        0 <= r < ring_count && 0 <= s < sector_count ==> #[trigger] vertices[lattice_index(
            sector_count,
            r,
            s,
        )] == (GridPoint { ring: r as i32, sector: s as i32 })
}

/// Vertex list of the lattice with `ring_count` rings of `sector_count`
/// vertices.
pub fn generate_vertices(ring_count: i32, sector_count: i32) -> (vertices: Vec<GridPoint>)
    requires
        valid_topology(ring_count as int, sector_count as int),
        fits_i32(ring_count as int, sector_count as int),
    ensures
        is_sphere_vertices(ring_count as int, sector_count as int, vertices@),
{
    let ghost sectors = sector_count as int;
    let mut vertices: Vec<GridPoint> = Vec::new();
    let mut r: i32 = 0;
    while r < ring_count
        invariant
            valid_topology(ring_count as int, sectors),
            sectors == sector_count,
            0 <= r <= ring_count,
            vertices@.len() == r * sectors,
            forall|r1: int, s1: int|
                0 <= r1 < r && 0 <= s1 < sectors ==> #[trigger] vertices@[lattice_index(
                    sectors,
                    r1,
                    s1,
                )] == (GridPoint { ring: r1 as i32, sector: s1 as i32 }),
        decreases ring_count - r,
    {
        let mut s: i32 = 0;
        while s < sector_count
            invariant
                valid_topology(ring_count as int, sectors),
                sectors == sector_count,
                0 <= r < ring_count,
                0 <= s <= sector_count,
                vertices@.len() == r * sectors + s,
                forall|r1: int, s1: int|
                    (0 <= r1 < r && 0 <= s1 < sectors || r1 == r && 0 <= s1 < s)
                        ==> #[trigger] vertices@[lattice_index(sectors, r1, s1)] == (GridPoint {
                        ring: r1 as i32,
                        sector: s1 as i32,
                    }),
            decreases sector_count - s,
        {
            let ghost before = vertices@;
            vertices.push(GridPoint { ring: r, sector: s });
            assert forall|r1: int, s1: int|
                (0 <= r1 < r && 0 <= s1 < sectors || r1 == r && 0 <= s1 < s + 1)
                    implies #[trigger] vertices@[lattice_index(sectors, r1, s1)] == (GridPoint {
                    ring: r1 as i32,
                    sector: s1 as i32,
                }) by {
                if r1 < r {
                    assert(r1 * sectors + s1 < r * sectors) by (nonlinear_arith)
                        requires
                            0 <= r1 < r,
                            0 <= s1 < sectors,
                    ;
                }
                assert(0 <= r1 * sectors) by (nonlinear_arith)
                    requires
                        0 <= r1,
                        0 <= sectors,
                ;
            }
            s = s + 1;
        }
        assert(r * sectors + sectors == (r + 1) * sectors) by (nonlinear_arith);
        r = r + 1;
    }
    vertices
}

/// Why a sphere could not be generated.
#[derive(Clone, Copy, Debug, PartialEq, Eq)]
pub enum MeshError {
    /// Fewer than two rings or fewer than two sectors.
    InvalidTopology,
}

/// The rest pose of a UV sphere as a lattice: the vertices and the triangle
/// indices into them.
#[derive(Debug)]
pub struct Sphere {
    pub ring_count: i32,
    pub sector_count: i32,
    pub vertices: Vec<GridPoint>,
    pub indices: Vec<i32>,
}

impl Sphere {
    /// The sphere's vertices and indices are those of its lattice.
    pub open spec fn wf(&self) -> bool {
        &&& valid_topology(self.ring_count as int, self.sector_count as int)
        &&& fits_i32(self.ring_count as int, self.sector_count as int)
        &&& is_sphere_vertices(self.ring_count as int, self.sector_count as int, self.vertices@)
        &&& is_sphere_indices(self.ring_count as int, self.sector_count as int, self.indices@)
    }

    /// Generates the sphere with `ring_count` rings of `sector_count`
    /// vertices; fails on fewer than two of either.
    pub fn generate(ring_count: i32, sector_count: i32) -> (result: Result<Sphere, MeshError>)
        requires
            !valid_topology(ring_count as int, sector_count as int) || fits_i32(
                ring_count as int,
                sector_count as int,
            ),
        ensures
            match result {
                Ok(sphere) => {
                    &&& valid_topology(ring_count as int, sector_count as int)
                    &&& sphere.ring_count == ring_count
                    &&& sphere.sector_count == sector_count
                    &&& sphere.wf()
                    &&& forall|k: int|
                        0 <= k < sphere.indices@.len() ==> 0 <= #[trigger] sphere.indices@[k]
                            < sphere.vertices@.len()
                },
                Err(e) => e == MeshError::InvalidTopology && !valid_topology(
                    ring_count as int,
                    sector_count as int,
                ),
            },
    {
        if ring_count < 2 || sector_count < 2 {
            return Err(MeshError::InvalidTopology);
        }
        let vertices = generate_vertices(ring_count, sector_count);
        let indices = generate_indices(ring_count, sector_count);
        Ok(Sphere { ring_count, sector_count, vertices, indices })
    }
}

} // verus!
