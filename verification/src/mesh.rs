//! The integer side of mesh generation: the order of vertices and the
//! triangle lists that index them.
//!
//! Vertex positions are floating-point and computed by the application from
//! the grid coordinates given here.

use vstd::prelude::*;

verus! {

/// The vertex count of a UV sphere: a grid of `rings + 1` by `sectors + 1`.
pub open spec fn sphere_vertex_count(rings: nat, sectors: nat) -> nat {
    (rings + 1) * (sectors + 1)
}

/// The triangles of grid cell (`i`, `j`) of a UV sphere, where `k1` is the
/// cell's vertex on ring `i` and `k2` the one below it on ring `i + 1`: the
/// upper triangle (`k1`, `k2`, `k1 + 1`) except on the first ring, and the
/// lower triangle (`k1 + 1`, `k2`, `k2 + 1`) except on the last.
pub open spec fn sphere_cell(rings: nat, sectors: nat, i: nat, j: nat) -> Seq<u32> {
    let k1 = i * (sectors + 1) + j;
    let k2 = k1 + sectors + 1;
    let upper = if i != 0 { seq![k1 as u32, k2 as u32, (k1 + 1) as u32] } else { Seq::<u32>::empty() };
    let lower = if i + 1 != rings { seq![(k1 + 1) as u32, k2 as u32, (k2 + 1) as u32] } else { Seq::<u32>::empty() };
    upper + lower
}

/// The triangles of the first `j` cells of ring `i`.
pub open spec fn sphere_ring(rings: nat, sectors: nat, i: nat, j: nat) -> Seq<u32>
    decreases j,
{
    if j == 0 {
        Seq::empty()
    } else {
        sphere_ring(rings, sectors, i, (j - 1) as nat) + sphere_cell(rings, sectors, i, (j - 1) as nat)
    }
}

/// The triangles of the first `i` rings.
pub open spec fn sphere_rings(rings: nat, sectors: nat, i: nat) -> Seq<u32>
    decreases i,
{
    if i == 0 {
        Seq::empty()
    } else {
        sphere_rings(rings, sectors, (i - 1) as nat) + sphere_ring(rings, sectors, (i - 1) as nat, sectors)
    }
}

/// Whether every index of `s` names one of `count` vertices.
pub open spec fn indices_below(s: Seq<u32>, count: int) -> bool {
    forall|k: int| 0 <= k < s.len() ==> (#[trigger] s[k]) < count
}

proof fn lemma_ring(rings: nat, sectors: nat, i: nat, j: nat)
    requires
        i < rings,
        j <= sectors,
    ensures
        sphere_ring(rings, sectors, i, j).len() == (if i != 0 { 3 * j } else { 0 }) + (if i + 1 != rings { 3 * j } else { 0 }),
        indices_below(sphere_ring(rings, sectors, i, j), sphere_vertex_count(rings, sectors) as int),
    decreases j,
{
    if j > 0 {
        lemma_ring(rings, sectors, i, (j - 1) as nat);
        let a = sphere_ring(rings, sectors, i, (j - 1) as nat);
        let b = sphere_cell(rings, sectors, i, (j - 1) as nat);
        let k1 = i * (sectors + 1) + (j - 1);
        let k2 = k1 + sectors + 1;
        assert(k2 + 1 <= (i + 1) * (sectors + 1) + sectors) by (nonlinear_arith)
            requires
                k1 == i * (sectors + 1) + (j - 1),
                k2 == k1 + sectors + 1,
                j <= sectors,
        ;
        assert((i + 1) * (sectors + 1) + sectors < (rings + 1) * (sectors + 1)) by (nonlinear_arith)
            requires
                i < rings,
        ;
        assert(indices_below(b, sphere_vertex_count(rings, sectors) as int));
        assert forall|k: int| 0 <= k < (a + b).len() implies (#[trigger] (a + b)[k]) < sphere_vertex_count(rings, sectors) by {
            if k < a.len() {
                assert((a + b)[k] == a[k]);
            } else {
                assert((a + b)[k] == b[k - a.len()]);
            }
        }
    }
}

proof fn lemma_rings(rings: nat, sectors: nat, i: nat)
    requires
        i <= rings,
    ensures
        sphere_rings(rings, sectors, i).len() == (if i == 0 {
            0
        } else if i < rings {
            6 * sectors * i - 3 * sectors
        } else {
            6 * sectors * i - 6 * sectors
        }),
        indices_below(sphere_rings(rings, sectors, i), sphere_vertex_count(rings, sectors) as int),
    decreases i,
{
    if i > 0 {
        lemma_rings(rings, sectors, (i - 1) as nat);
        lemma_ring(rings, sectors, (i - 1) as nat, sectors);
        let a = sphere_rings(rings, sectors, (i - 1) as nat);
        let b = sphere_ring(rings, sectors, (i - 1) as nat, sectors);
        assert(6 * sectors * i == 6 * sectors * (i - 1) + 6 * sectors) by (nonlinear_arith)
            requires
                i > 0,
        ;
        assert forall|k: int| 0 <= k < (a + b).len() implies (#[trigger] (a + b)[k]) < sphere_vertex_count(rings, sectors) by {
            if k < a.len() {
                assert((a + b)[k] == a[k]);
            } else {
                assert((a + b)[k] == b[k - a.len()]);
            }
        }
    }
}

/// A shorter ring of a sphere is the start of a longer one.
proof fn lemma_ring_prefix(rings: nat, sectors: nat, i: nat, a: nat, b: nat)
    requires
        a <= b,
    ensures
        sphere_ring(rings, sectors, i, a).len() <= sphere_ring(rings, sectors, i, b).len(),
        forall|k: int| 0 <= k < sphere_ring(rings, sectors, i, a).len() ==> #[trigger] sphere_ring(rings, sectors, i, b)[k] == sphere_ring(rings, sectors, i, a)[k],
    decreases b,
{
    if a < b {
        lemma_ring_prefix(rings, sectors, i, a, (b - 1) as nat);
    }
}

/// The first rings of a sphere are the start of its triangle list.
proof fn lemma_rings_prefix(rings: nat, sectors: nat, a: nat, b: nat)
    requires
        a <= b,
    ensures
        sphere_rings(rings, sectors, a).len() <= sphere_rings(rings, sectors, b).len(),
        forall|k: int| 0 <= k < sphere_rings(rings, sectors, a).len() ==> #[trigger] sphere_rings(rings, sectors, b)[k] == sphere_rings(rings, sectors, a)[k],
    decreases b,
{
    if a < b {
        lemma_rings_prefix(rings, sectors, a, (b - 1) as nat);
    }
}

/// Sphere law: in the triangle list of a sphere, grid cell (`i`, `j`), with
/// corners `k1 = i * (sectors + 1) + j` and `k1 + 1` on ring `i` and
/// `k2 = k1 + sectors + 1` and `k2 + 1` below them, is covered by the upper
/// triangle (`k1`, `k2`, `k1 + 1`) unless it lies on the first ring and the
/// lower triangle (`k1 + 1`, `k2`, `k2 + 1`) unless it lies on the last, in
/// that order, after the triangles of the earlier rings (three indices per
/// cell on the first and last ring, six on the others) and of the earlier
/// cells of its ring.
pub proof fn lemma_sphere_cell_triangles(rings: nat, sectors: nat, r: Seq<u32>, i: nat, j: nat)
    requires
        sphere_vertex_count(rings, sectors) <= u32::MAX,
        r == sphere_rings(rings, sectors, rings),
        i < rings,
        j < sectors,
    ensures
        ({
            let k1 = i * (sectors + 1) + j;
            let k2 = k1 + sectors + 1;
            let ring_start = if i == 0 { 0 } else { 6 * sectors * i - 3 * sectors };
            let at = ring_start + (if i != 0 { 3 * j } else { 0 }) + (if i + 1 != rings { 3 * j } else { 0 });
            let low = at + (if i != 0 { 3int } else { 0 });
            &&& i != 0 ==> r[at] == k1 && r[at + 1] == k2 && r[at + 2] == k1 + 1
            &&& i + 1 != rings ==> r[low] == k1 + 1 && r[low + 1] == k2 && r[low + 2] == k2 + 1
        }),
{
    let k1 = i * (sectors + 1) + j;
    let k2 = k1 + sectors + 1;
    assert(k2 + 1 <= (i + 1) * (sectors + 1) + sectors) by (nonlinear_arith)
        requires
            k1 == i * (sectors + 1) + j,
            k2 == k1 + sectors + 1,
            j < sectors,
    ;
    assert((i + 1) * (sectors + 1) + sectors < (rings + 1) * (sectors + 1)) by (nonlinear_arith)
        requires
            i < rings,
    ;
    lemma_rings(rings, sectors, i);
    lemma_ring(rings, sectors, i, j);
    lemma_rings_prefix(rings, sectors, i + 1, rings);
    lemma_ring_prefix(rings, sectors, i, j + 1, sectors);
    let before = sphere_rings(rings, sectors, i);
    let ring = sphere_ring(rings, sectors, i, sectors);
    let part = sphere_ring(rings, sectors, i, j);
    let cell = sphere_cell(rings, sectors, i, j);
    assert(sphere_rings(rings, sectors, i + 1) == before + ring);
    assert(sphere_ring(rings, sectors, i, j + 1) == part + cell);
    let ring_start = if i == 0 { 0 } else { 6 * sectors * i - 3 * sectors };
    assert(before.len() == ring_start);
    let at = ring_start + part.len();
    assert forall|t: int| 0 <= t < cell.len() implies r[at + t] == cell[t] by {
        assert((part + cell)[part.len() + t] == cell[t]);
        assert(ring[part.len() + t] == cell[t]);
        assert((before + ring)[at + t] == ring[part.len() + t]);
    }
}

/// The triangle list of a UV sphere with `rings` rings and `sectors`
/// sectors, ring by ring and cell by cell (see `sphere_cell`). It has
/// `6 * sectors * (rings - 1)` indices when `rings` is positive, and every
/// index names one of the sphere's vertices.
pub fn sphere_indices(rings: u32, sectors: u32) -> (r: Vec<u32>)
    requires
        sphere_vertex_count(rings as nat, sectors as nat) <= u32::MAX,
    ensures
        r@ == sphere_rings(rings as nat, sectors as nat, rings as nat),
        r@.len() == (if rings == 0 { 0 } else { 6 * sectors * (rings - 1) }),
        indices_below(r@, sphere_vertex_count(rings as nat, sectors as nat) as int),
{
    proof {
        lemma_rings(rings as nat, sectors as nat, rings as nat);
        if rings > 0 {
            assert(6 * sectors * rings - 6 * sectors == 6 * sectors * (rings - 1)) by (nonlinear_arith);
        }
    }
    let mut indices: Vec<u32> = Vec::new();
    let mut i: u32 = 0;
    while i < rings
        invariant
            i <= rings,
            sphere_vertex_count(rings as nat, sectors as nat) <= u32::MAX,
            indices@ == sphere_rings(rings as nat, sectors as nat, i as nat),
        decreases rings - i,
    {
        proof {
            assert((i + 1) * (sectors + 1) <= (rings + 1) * (sectors + 1)) by (nonlinear_arith)
                requires
                    i < rings,
            ;
            assert((i + 1) * (sectors + 1) == i * (sectors + 1) + sectors + 1) by (nonlinear_arith);
            assert(i * (sectors + 1) >= 0) by (nonlinear_arith);
        }
        let mut k1: u32 = i * (sectors + 1);
        let mut k2: u32 = k1 + sectors + 1;
        let mut j: u32 = 0;
        while j < sectors
            invariant
                i < rings,
                j <= sectors,
                sphere_vertex_count(rings as nat, sectors as nat) <= u32::MAX,
                (i + 1) * (sectors + 1) <= (rings + 1) * (sectors + 1),
                k1 == i * (sectors + 1) + j,
                k2 == k1 + sectors + 1,
                indices@ == sphere_rings(rings as nat, sectors as nat, i as nat) + sphere_ring(
                    rings as nat,
                    sectors as nat,
                    i as nat,
                    j as nat,
                ),
            decreases sectors - j,
        {
            proof {
                assert(k2 + 1 <= (i + 1) * (sectors + 1) + sectors) by (nonlinear_arith)
                    requires
                        k1 == i * (sectors + 1) + j,
                        k2 == k1 + sectors + 1,
                        j < sectors,
                ;
                assert((i + 1) * (sectors + 1) + sectors < (rings + 1) * (sectors + 1)) by (nonlinear_arith)
                    requires
                        i < rings,
                ;
            }
            let ghost before = indices@;
            if i != 0 {
                indices.push(k1);
                indices.push(k2);
                indices.push(k1 + 1);
            }
            if i != rings - 1 {
                indices.push(k1 + 1);
                indices.push(k2);
                indices.push(k2 + 1);
            }
            proof {
                let cell = sphere_cell(rings as nat, sectors as nat, i as nat, j as nat);
                assert(indices@ =~= before + cell);
                assert(sphere_ring(rings as nat, sectors as nat, i as nat, j as nat + 1)
                    == sphere_ring(rings as nat, sectors as nat, i as nat, j as nat) + cell);
                assert(indices@ =~= sphere_rings(rings as nat, sectors as nat, i as nat) + sphere_ring(
                    rings as nat,
                    sectors as nat,
                    i as nat,
                    j as nat + 1,
                ));
            }
            k1 = k1 + 1;
            k2 = k2 + 1;
            j = j + 1;
        }
        i = i + 1;
    }
    indices
}

/// The grid coordinates (ring, sector) of a UV sphere's vertices, ring by
/// ring: `(rings + 1) * (sectors + 1)` of them, vertex `k` at ring
/// `k / (sectors + 1)` and sector `k % (sectors + 1)`.
pub fn sphere_grid(rings: u32, sectors: u32) -> (r: Vec<(u32, u32)>)
    requires
        sphere_vertex_count(rings as nat, sectors as nat) <= u32::MAX,
    ensures
        r@.len() == sphere_vertex_count(rings as nat, sectors as nat),
        forall|k: int| 0 <= k < r@.len() ==> (#[trigger] r@[k]) == ((k / (sectors + 1)) as u32, (k % (sectors + 1)) as u32),
{
    proof {
        assert(rings + 1 <= (rings + 1) * (sectors + 1)) by (nonlinear_arith);
        assert(sectors + 1 <= (rings + 1) * (sectors + 1)) by (nonlinear_arith);
    }
    let row: u32 = sectors + 1;
    let mut r: Vec<(u32, u32)> = Vec::new();
    let mut i: u32 = 0;
    while i < rings + 1
        invariant
            i <= rings + 1,
            row == sectors + 1,
            rings + 1 <= u32::MAX,
            r@.len() == i * row,
            forall|k: int| 0 <= k < r@.len() ==> (#[trigger] r@[k]) == ((k / (sectors + 1)) as u32, (k % (sectors + 1)) as u32),
        decreases rings + 1 - i,
    {
        let mut j: u32 = 0;
        while j < row
            invariant
                i < rings + 1,
                j <= row,
                row == sectors + 1,
                rings + 1 <= u32::MAX,
                r@.len() == i * row + j,
                forall|k: int| 0 <= k < r@.len() ==> (#[trigger] r@[k]) == ((k / (sectors + 1)) as u32, (k % (sectors + 1)) as u32),
            decreases row - j,
        {
            let ghost k = r@.len() as int;
            proof {
                vstd::arithmetic::div_mod::lemma_fundamental_div_mod_converse(k, row as int, i as int, j as int);
            }
            r.push((i, j));
            j = j + 1;
        }
        proof {
            assert(i * row + row == (i + 1) * row) by (nonlinear_arith);
        }
        i = i + 1;
    }
    r
}

/// The triangle list of a cube of six faces with four vertices each: two
/// triangles per face, (a, b, c) and (c, d, a) over its vertices a..d.
pub fn cube_indices() -> (r: Vec<u32>)
    ensures
        r@ == seq![
            0u32, 1, 2, 2, 3, 0,
            4, 5, 6, 6, 7, 4,
            8, 9, 10, 10, 11, 8,
            12, 13, 14, 14, 15, 12,
            16, 17, 18, 18, 19, 16,
            20, 21, 22, 22, 23, 20,
        ],
        r@.len() == 36,
        indices_below(r@, 24),
{
    let r: Vec<u32> = vec![
        0, 1, 2, 2, 3, 0,
        4, 5, 6, 6, 7, 4,
        8, 9, 10, 10, 11, 8,
        12, 13, 14, 14, 15, 12,
        16, 17, 18, 18, 19, 16,
        20, 21, 22, 22, 23, 20,
    ];
    r
}

/// The triangle list of the front and back faces of a cube of eight
/// vertices.
pub fn two_face_indices() -> (r: Vec<u32>)
    ensures
        r@ == seq![0u32, 1, 2, 2, 3, 0, 4, 5, 6, 6, 7, 4],
        indices_below(r@, 8),
{
    let r: Vec<u32> = vec![0, 1, 2, 2, 3, 0, 4, 5, 6, 6, 7, 4];
    r
}

/// The triangle list of a skybox cube over its eight corners, two triangles
/// for each of the six faces.
pub fn skybox_indices() -> (r: Vec<u16>)
    ensures
        r@ == seq![
            0u16, 1, 2, 2, 3, 0,
            4, 5, 6, 6, 7, 4,
            0, 3, 5, 5, 4, 0,
            1, 7, 6, 6, 2, 1,
            3, 2, 6, 6, 5, 3,
            0, 4, 7, 7, 1, 0,
        ],
        r@.len() == 36,
        forall|k: int| 0 <= k < r@.len() ==> (#[trigger] r@[k]) < 8,
{
    let r: Vec<u16> = vec![
        0, 1, 2, 2, 3, 0,
        4, 5, 6, 6, 7, 4,
        0, 3, 5, 5, 4, 0,
        1, 7, 6, 6, 2, 1,
        3, 2, 6, 6, 5, 3,
        0, 4, 7, 7, 1, 0,
    ];
    r
}

} // verus!
