//! Assembling the buffers of a mesh from the corner indices of its
//! triangles.
//!
//! Positions are kept in grid units: `x` is the column and `z` the row of a
//! vertex, both at most `extent`, the side of the grid less one, and `y` is
//! the sample of the vertex multiplied by the height scale. Dividing `x` and
//! `z` by `extent` puts them in the unit square.

use vstd::prelude::*;
use crate::extract::{law_at_most_finest, lemma_extracted_triples};
use crate::error_map::error_map;
use crate::heightmaps::{
    generate_heightmap_data, grid_of_bytes, mesh_of, scaled, valid_grid, HeightGrid,
    Heightfield, TerrainError,
};

verus! {

/// The largest side of a grid whose finest mesh still has no more corners
/// than a 32-bit index can count.
pub const MAX_MESH_SIDE: u32 = 16385;

/// A vertex of the mesh, in grid units.
#[derive(Clone, Copy, Debug, PartialEq, Eq)]
pub struct Position {
    pub x: u32,
    pub y: u64,
    pub z: u32,
}

/// The buffers of a mesh: one position, normal and texture coordinate for
/// every corner of every triangle, and an index buffer that lists the
/// corners in their order.
#[derive(Debug)]
pub struct MeshBuffers {
    pub extent: u32,
    pub positions: Vec<Position>,
    pub normals: Vec<(u8, u8, u8)>,
    pub uvs: Vec<(u8, u8)>,
    pub indices: Vec<u32>,
}

/// What the buffers of a mesh hold.
pub struct MeshView {
    pub extent: nat,
    pub positions: Seq<Position>,
    pub normals: Seq<(u8, u8, u8)>,
    pub uvs: Seq<(u8, u8)>,
    pub indices: Seq<u32>,
}

impl View for MeshBuffers {
    type V = MeshView;

    open spec fn view(&self) -> MeshView {
        MeshView {
            extent: self.extent as nat,
            positions: self.positions@,
            normals: self.normals@,
            uvs: self.uvs@,
            indices: self.indices@,
        }
    }
}

/// The vertex with flat index `index` on a grid of side `n`, at height zero.
pub open spec fn plane_position(n: nat, index: usize) -> Position {
    Position { x: (index as int % n as int) as u32, y: 0, z: (index as int / n as int) as u32 }
}

/// The vertices of a list of flat indices, at height zero.
pub open spec fn plane_positions(indices: Seq<usize>, n: nat) -> Seq<Position> {
    Seq::new(indices.len(), |i: int| plane_position(n, indices[i]))
}

/// The vertex `p` at the height that the grid has in row `p.z` and column
/// `p.x`: the sample multiplied by the height scale.
pub open spec fn lifted(p: Position, grid: HeightGrid, height_scale: u32) -> Position {
    Position {
        x: p.x,
        y: (grid.samples[p.z * grid.side + p.x] * height_scale) as u64,
        z: p.z,
    }
}

/// The vertices of a list, each at the height that the grid has there.
pub open spec fn lifted_positions(
    verts: Seq<Position>,
    grid: HeightGrid,
    height_scale: u32,
) -> Seq<Position> {
    Seq::new(verts.len(), |i: int| lifted(verts[i], grid, height_scale))
}

/// The numbers from zero up to `num`, without `num`.
pub open spec fn index_run(num: nat) -> Seq<u32> {
    Seq::new(num, |i: int| i as u32)
}

/// The buffers for a list of corner indices: the lifted vertex of every
/// index, an upward normal and a zero texture coordinate for each, and the
/// running index buffer.
pub open spec fn assembled(indices: Seq<usize>, grid: HeightGrid, height_scale: u32) -> MeshView {
    MeshView {
        extent: (grid.side - 1) as nat,
        positions: lifted_positions(plane_positions(indices, grid.side), grid, height_scale),
        normals: Seq::new(indices.len(), |i: int| (0u8, 1u8, 0u8)),
        uvs: Seq::new(indices.len(), |i: int| (0u8, 0u8)),
        indices: index_run(indices.len()),
    }
}

/// The buffers of the mesh of a grid, or `MeshTooLarge` where the side of
/// the grid is above `MAX_MESH_SIDE`.
pub open spec fn mesh_buffers_of(grid: HeightGrid, height_scale: u32, max_error: u64) -> Result<
    MeshView,
    TerrainError,
> {
    if grid.side <= MAX_MESH_SIDE {
        Ok(assembled(mesh_of(grid, height_scale, max_error), grid, height_scale))
    } else {
        Err(TerrainError::MeshTooLarge)
    }
}

/// The buffers of the mesh of the grid that is read from the bytes of an
/// encoded image, or the error that reading the grid or building the mesh
/// gives.
pub open spec fn chunk_of(bytes: Seq<u8>, height_scale: u32, max_error: u64) -> Result<
    MeshView,
    TerrainError,
> {
    match grid_of_bytes(bytes) {
        Ok(grid) => mesh_buffers_of(grid, height_scale, max_error),
        Err(e) => Err(e),
    }
}

/// `r` holds the buffers `expected`, or is the error `expected`.
pub open spec fn builds_as(
    r: Result<MeshBuffers, TerrainError>,
    expected: Result<MeshView, TerrainError>,
) -> bool {
    match r {
        Ok(mesh) => expected == Ok::<MeshView, TerrainError>(mesh@),
        Err(e) => expected == Err::<MeshView, TerrainError>(e),
    }
}

/// The vertices of a list of flat indices on a grid of side `map_size`, at
/// height zero.
pub fn convert_indices(indices: &Vec<usize>, map_size: u32) -> (verts: Vec<Position>)
    requires
        map_size >= 1,
        forall|i: int| 0 <= i < indices.len() ==> indices[i] < map_size * map_size,
    ensures
        verts@ == plane_positions(indices@, map_size as nat),
        forall|i: int|
            0 <= i < verts.len() ==> (#[trigger] verts[i]).x < map_size && verts[i].z < map_size,
{
    let mut verts: Vec<Position> = Vec::new();
    let mut i: usize = 0;
    while i < indices.len()
        invariant
            i <= indices.len(),
            map_size >= 1,
            verts.len() == i,
            forall|k: int| 0 <= k < indices.len() ==> indices[k] < map_size * map_size,
            forall|k: int|
                0 <= k < i ==> #[trigger] verts[k] == plane_position(map_size as nat, indices[k]),
            forall|k: int| 0 <= k < i ==> (#[trigger] verts[k]).x < map_size && verts[k].z < map_size,
        decreases indices.len() - i,
    {
        let index: usize = indices[i];
        proof {
            let q = index as int / map_size as int;
            let r = index as int % map_size as int;
            vstd::arithmetic::div_mod::lemma_fundamental_div_mod(index as int, map_size as int);
            assert(q < map_size) by (nonlinear_arith)
                requires
                    index == map_size * q + r,
                    0 <= r,
                    index < map_size * map_size,
                    map_size >= 1,
            ;
        }
        let x: usize = index % map_size as usize;
        let z: usize = index / map_size as usize;
        verts.push(Position { x: x as u32, y: 0, z: z as u32 });
        i = i + 1;
    }
    proof {
        assert(verts@ =~= plane_positions(indices@, map_size as nat));
    }
    verts
}

/// Puts every vertex at the height that the grid has in its row `z` and
/// column `x`, multiplied by `height_scale`.
pub fn apply_heightmap(verts: &mut Vec<Position>, field: &Heightfield, height_scale: u32)
    requires
        forall|i: int|
            0 <= i < old(verts).len() ==> (#[trigger] old(verts)[i]).x < field@.side && old(
                verts,
            )[i].z < field@.side,
    ensures
        final(verts)@ == lifted_positions(old(verts)@, field@, height_scale),
{
    let ghost before = verts@;
    let map_size = field.side();
    let mut i: usize = 0;
    while i < verts.len()
        invariant
            i <= verts.len(),
            verts.len() == before.len(),
            map_size == field@.side,
            valid_grid(field@),
            forall|k: int|
                0 <= k < before.len() ==> (#[trigger] before[k]).x < field@.side && before[k].z
                    < field@.side,
            forall|k: int| 0 <= k < i ==> #[trigger] verts[k] == lifted(before[k], field@, height_scale),
            forall|k: int| i <= k < verts.len() ==> #[trigger] verts[k] == before[k],
        decreases verts.len() - i,
    {
        let vert: Position = verts[i];
        let sample: u8 = field.sample(vert.z, vert.x);
        assert(sample * height_scale <= 255 * 0xffff_ffff) by (nonlinear_arith)
            requires
                sample <= 255,
                height_scale <= 0xffff_ffff,
        ;
        let yval: u64 = sample as u64 * height_scale as u64;
        verts.set(i, Position { x: vert.x, y: yval, z: vert.z });
        i = i + 1;
    }
    proof {
        assert(verts@ =~= lifted_positions(before, field@, height_scale));
    }
}

/// The index buffer of a mesh with `num` corners: the numbers below `num`,
/// in order.
pub fn getindexcount(num: u32) -> (vect: Vec<u32>)
    ensures
        vect@ == index_run(num as nat),
{
    let mut vect: Vec<u32> = Vec::new();
    let mut x: u32 = 0;
    while x < num
        invariant
            x <= num,
            vect.len() == x,
            forall|k: int| 0 <= k < x ==> #[trigger] vect[k] == k,
        decreases num - x,
    {
        vect.push(x);
        x = x + 1;
    }
    proof {
        assert(vect@ =~= index_run(num as nat));
    }
    vect
}

/// The vertex at place `k` of the plane of `side * side` unit squares: each
/// square, column by column of the outer walk, gives the corners of the
/// triangle `(i, j)`, `(i + 1, j)`, `(i + 1, j + 1)` and then of the triangle
/// `(i, j)`, `(i + 1, j + 1)`, `(i, j + 1)`.
pub open spec fn plane_corner(side: nat, k: int) -> Position {
    let cell = k / 6;
    let corner = k % 6;
    let i = cell / side as int;
    let j = cell % side as int;
    let right: int = if corner == 1 || corner == 2 || corner == 4 {
        1
    } else {
        0
    };
    let up: int = if corner == 2 || corner == 4 || corner == 5 {
        1
    } else {
        0
    };
    Position { x: (i + right) as u32, y: 0, z: (j + up) as u32 }
}

/// The vertices of a flat plane that is cut into `4^detail` squares of two
/// triangles each, in units of one square.
pub open spec fn plane_vertices(detail: nat) -> Seq<Position> {
    let side = vstd::arithmetic::power2::pow2(detail);
    Seq::new(6 * (side * side), |k: int| plane_corner(side, k))
}

/// The vertices of a flat plane of `4^detail` squares, two triangles for
/// each square, in units of one square: the plane has `2^detail` squares
/// along each side, and a vertex multiplied by the size of a square is a
/// point of the plane.
pub fn generate_plane_vertices(detail: u32) -> (verts: Vec<Position>)
    requires
        detail < 16,
    ensures
        verts@ == plane_vertices(detail as nat),
{
    let mut squares_inside: u32 = 1;
    let mut level: u32 = 0;
    proof {
        vstd::arithmetic::power2::lemma2_to64();
    }
    while level < detail
        invariant
            level <= detail < 16,
            squares_inside == vstd::arithmetic::power2::pow2(level as nat),
            squares_inside <= 0x8000,
        decreases detail - level,
    {
        proof {
            vstd::arithmetic::power2::lemma_pow2_unfold((level + 1) as nat);
            vstd::arithmetic::power2::lemma2_to64();
            if level + 1 < 15 {
                vstd::arithmetic::power2::lemma_pow2_strictly_increases((level + 1) as nat, 15);
            }
        }
        squares_inside = squares_inside * 2;
        level = level + 1;
    }
    let side = squares_inside;
    let mut verts: Vec<Position> = Vec::new();
    let mut i: u32 = 0;
    while i < side
        invariant
            i <= side <= 0x8000,
            verts.len() == 6 * (i * side),
            forall|k: int| 0 <= k < verts.len() ==> #[trigger] verts[k] == plane_corner(side as nat, k),
        decreases side - i,
    {
        let mut j: u32 = 0;
        while j < side
            invariant
                i < side <= 0x8000,
                j <= side,
                verts.len() == 6 * (i * side + j),
                forall|k: int|
                    0 <= k < verts.len() ==> #[trigger] verts[k] == plane_corner(side as nat, k),
            decreases side - j,
        {
            let ghost base = verts.len() as int;
            proof {
                let cell = i * side + j;
                vstd::arithmetic::div_mod::lemma_fundamental_div_mod_converse(
                    cell,
                    side as int,
                    i as int,
                    j as int,
                );
                assert((base + 0) / 6 == cell && (base + 0) % 6 == 0);
                assert((base + 1) / 6 == cell && (base + 1) % 6 == 1);
                assert((base + 2) / 6 == cell && (base + 2) % 6 == 2);
                assert((base + 3) / 6 == cell && (base + 3) % 6 == 3);
                assert((base + 4) / 6 == cell && (base + 4) % 6 == 4);
                assert((base + 5) / 6 == cell && (base + 5) % 6 == 5);
            }
            // Triangle 1
            verts.push(Position { x: i, y: 0, z: j });
            verts.push(Position { x: i + 1, y: 0, z: j });
            verts.push(Position { x: i + 1, y: 0, z: j + 1 });
            // Triangle 2
            verts.push(Position { x: i, y: 0, z: j });
            verts.push(Position { x: i + 1, y: 0, z: j + 1 });
            verts.push(Position { x: i, y: 0, z: j + 1 });
            j = j + 1;
        }
        assert((i + 1) * side == i * side + side) by (nonlinear_arith);
        i = i + 1;
    }
    proof {
        assert(verts@ =~= plane_vertices(detail as nat));
    }
    verts
}

/// As many copies of `value` as `count` says.
fn repeated<T: Copy>(value: T, count: usize) -> (list: Vec<T>)
    ensures
        list@ == Seq::new(count as nat, |i: int| value),
{
    let mut list: Vec<T> = Vec::new();
    let mut i: usize = 0;
    while i < count
        invariant
            i <= count,
            list.len() == i,
            forall|k: int| 0 <= k < i ==> #[trigger] list[k] == value,
        decreases count - i,
    {
        list.push(value);
        i = i + 1;
    }
    proof {
        assert(list@ =~= Seq::new(count as nat, |i: int| value));
    }
    list
}

/// Assembles the buffers of a mesh from the corner indices of its
/// triangles, which must be indices of grid vertices and no more than a
/// 32-bit index can count.
pub fn assemble_mesh(indices: &Vec<usize>, field: &Heightfield, height_scale: u32) -> (mesh:
    MeshBuffers)
    requires
        indices.len() <= u32::MAX,
        forall|i: int| 0 <= i < indices.len() ==> indices[i] < field@.side * field@.side,
    ensures
        mesh@ == assembled(indices@, field@, height_scale),
{
    let map_size = field.side();
    let mut planechunk = convert_indices(indices, map_size);
    let tri: usize = planechunk.len();
    apply_heightmap(&mut planechunk, field, height_scale);
    let normals = repeated((0u8, 1u8, 0u8), tri);
    let uvs = repeated((0u8, 0u8), tri);
    let mesh = MeshBuffers {
        extent: map_size - 1,
        positions: planechunk,
        normals,
        uvs,
        indices: getindexcount(tri as u32),
    };
    mesh
}

/// Builds the mesh of a height grid for a height scale and a tolerance: the
/// triangles are cut from the tree and their corners are assembled into
/// buffers. A grid with a side above `MAX_MESH_SIDE` is refused.
pub fn build_mesh(field: &Heightfield, height_scale: u32, max_error: u64) -> (r: Result<
    MeshBuffers,
    TerrainError,
>)
    ensures
        builds_as(r, mesh_buffers_of(field@, height_scale, max_error)),
{
    let side = field.side();
    if side > MAX_MESH_SIDE {
        return Err(TerrainError::MeshTooLarge);
    }
    let indices = field.mesh_indices(height_scale, max_error);
    proof {
        let grid = field@;
        let errors = error_map(scaled(grid.samples, height_scale), grid.side);
        lemma_extracted_triples(errors, grid.side, max_error);
        lemma_mesh_fits(grid, height_scale, max_error);
    }
    Ok(assemble_mesh(&indices, field, height_scale))
}

/// Decodes an image, reads its height grid and builds the mesh of the grid
/// for a height scale and a tolerance.
pub fn create_mesh_chunk(bytes: &[u8], height_scale: u32, max_error: u64) -> (r: Result<
    MeshBuffers,
    TerrainError,
>)
    ensures
        builds_as(r, chunk_of(bytes@, height_scale, max_error)),
{
    match generate_heightmap_data(bytes) {
        Ok(field) => build_mesh(&field, height_scale, max_error),
        Err(e) => Err(e),
    }
}

/// The four buffers of a mesh have one length, three entries for each
/// emitted triangle, and the index buffer counts the entries in order.
pub proof fn law_buffer_lengths(grid: HeightGrid, height_scale: u32, max_error: u64)
    requires
        valid_grid(grid),
        mesh_buffers_of(grid, height_scale, max_error) is Ok,
    ensures
        ({
            let mesh = mesh_buffers_of(grid, height_scale, max_error)->Ok_0;
            let corners = mesh_of(grid, height_scale, max_error).len();
            &&& corners % 3 == 0
            &&& corners >= 6
            &&& mesh.indices.len() == 3 * (corners / 3)
            &&& mesh.positions.len() == mesh.indices.len()
            &&& mesh.normals.len() == mesh.indices.len()
            &&& mesh.uvs.len() == mesh.indices.len()
            &&& forall|i: int| 0 <= i < mesh.indices.len() ==> #[trigger] mesh.indices[i] == i
        }),
{
    let errors = error_map(scaled(grid.samples, height_scale), grid.side);
    lemma_extracted_triples(errors, grid.side, max_error);
    lemma_mesh_fits(grid, height_scale, max_error);
}

/// The mesh of a grid whose side is at most `MAX_MESH_SIDE` has no more
/// corners than a 32-bit index can count.
pub proof fn lemma_mesh_fits(grid: HeightGrid, height_scale: u32, max_error: u64)
    requires
        valid_grid(grid),
        grid.side <= MAX_MESH_SIDE,
    ensures
        mesh_of(grid, height_scale, max_error).len() <= u32::MAX,
{
    let side = grid.side;
    law_at_most_finest(error_map(scaled(grid.samples, height_scale), side), side, max_error);
    assert((side - 1) * (side - 1) <= 16384 * 16384) by (nonlinear_arith)
        requires
            1 <= side <= 16385,
    ;
}

/// Every position of a mesh is a vertex of the grid, so that `x` and `z`
/// divided by the extent lie in the unit interval, and its height is the
/// sample of that vertex multiplied by the height scale.
pub proof fn law_positions_on_grid(grid: HeightGrid, height_scale: u32, max_error: u64, i: int)
    requires
        valid_grid(grid),
        mesh_buffers_of(grid, height_scale, max_error) is Ok,
        0 <= i < mesh_of(grid, height_scale, max_error).len(),
    ensures
        ({
            let mesh = mesh_buffers_of(grid, height_scale, max_error)->Ok_0;
            let p = mesh.positions[i];
            &&& mesh.extent == grid.side - 1
            &&& p.x <= mesh.extent
            &&& p.z <= mesh.extent
            &&& p.z * grid.side + p.x == mesh_of(grid, height_scale, max_error)[i]
            &&& p.y == grid.samples[p.z * grid.side + p.x] * height_scale
        }),
{
    let n = grid.side;
    let indices = mesh_of(grid, height_scale, max_error);
    lemma_extracted_triples(error_map(scaled(grid.samples, height_scale), n), n, max_error);
    let index = indices[i];
    assert(index < n * n);
    let q = index as int / n as int;
    let r = index as int % n as int;
    vstd::arithmetic::div_mod::lemma_fundamental_div_mod(index as int, n as int);
    assert(q < n && q * n == n * q) by (nonlinear_arith)
        requires
            index == n * q + r,
            0 <= r,
            index < n * n,
            n >= 1,
    ;
    let sample = grid.samples[q * n + r];
    assert(sample * height_scale <= 255 * 0xffff_ffff) by (nonlinear_arith)
        requires
            sample <= 255,
            height_scale <= 0xffff_ffff,
    ;
}

/// Two runs on the same input with the same parameters give the same
/// buffers, or the same error: nothing but the input decides the result.
pub proof fn law_repeatable(
    expected: Result<MeshView, TerrainError>,
    first: Result<MeshBuffers, TerrainError>,
    second: Result<MeshBuffers, TerrainError>,
)
    requires
        builds_as(first, expected),
        builds_as(second, expected),
    ensures
        first is Ok <==> second is Ok,
        first is Ok ==> first->Ok_0@ == second->Ok_0@,
        first is Ok ==> first->Ok_0.positions@ == second->Ok_0.positions@ && first->Ok_0.indices@
            == second->Ok_0.indices@,
        first is Err ==> first->Err_0 == second->Err_0,
{
}

} // verus!
