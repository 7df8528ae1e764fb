use vstd::prelude::*;

use crate::chunk::{padded_index, ChunkPos};
use crate::worldgen::BlockType;

verus! {

/// One corner of a block face. Positions are world block coordinates; normal and
/// color are unit components (the color is white, `(1, 1, 1)`).
#[derive(Clone, Copy, PartialEq, Eq, Debug)]
pub struct Vertex {
    pub position: (i32, i32, i32),
    pub normal: (i32, i32, i32),
    pub color: (i32, i32, i32),
}

/// The six faces of a block.
#[derive(Clone, Copy, PartialEq, Eq, Structural, Debug)]
pub enum Face {
    Top,
    Bottom,
    Left,
    Right,
    Front,
    Back,
}

/// A visible face of the solid block in padded cell `(x, y, z)`.
#[derive(Clone, Copy, PartialEq, Eq, Debug)]
pub struct Quad {
    pub x: usize,
    pub y: usize,
    pub z: usize,
    pub face: Face,
}

/// Offset from a cell to the cell that its `face` touches.
pub open spec fn face_offset(face: Face) -> (int, int, int) {
    match face {
        Face::Right => (1, 0, 0),
        Face::Left => (-1, 0, 0),
        Face::Top => (0, 1, 0),
        Face::Bottom => (0, -1, 0),
        Face::Front => (0, 0, 1),
        Face::Back => (0, 0, -1),
    }
}

/// Corner `k` (0..4) of `face` of the unit cube at the origin, in drawing order.
pub open spec fn face_corner(face: Face, k: int) -> (int, int, int) {
    match face {
        Face::Top => if k == 0 {
            (0, 1, 0)
        } else if k == 1 {
            (0, 1, 1)
        } else if k == 2 {
            (1, 1, 1)
        } else {
            (1, 1, 0)
        },
        Face::Bottom => if k == 0 {
            (0, 0, 0)
        } else if k == 1 {
            (1, 0, 0)
        } else if k == 2 {
            (1, 0, 1)
        } else {
            (0, 0, 1)
        },
        Face::Right => if k == 0 {
            (1, 0, 0)
        } else if k == 1 {
            (1, 1, 0)
        } else if k == 2 {
            (1, 1, 1)
        } else {
            (1, 0, 1)
        },
        Face::Left => if k == 0 {
            (0, 0, 1)
        } else if k == 1 {
            (0, 1, 1)
        } else if k == 2 {
            (0, 1, 0)
        } else {
            (0, 0, 0)
        },
        Face::Front => if k == 0 {
            (1, 0, 1)
        } else if k == 1 {
            (1, 1, 1)
        } else if k == 2 {
            (0, 1, 1)
        } else {
            (0, 0, 1)
        },
        Face::Back => if k == 0 {
            (0, 0, 0)
        } else if k == 1 {
            (0, 1, 0)
        } else if k == 2 {
            (1, 1, 0)
        } else {
            (1, 0, 0)
        },
    }
}

/// The normal stored with the vertices of `face`.
pub open spec fn face_normal(face: Face) -> (i32, i32, i32) {
    match face {
        Face::Top => (0, 1, 0),
        Face::Bottom => (0, -1i32, 0),
        Face::Right => (1, 0, 0),
        Face::Left => (-1i32, 0, 0),
        Face::Front => (0, 0, -1i32),
        Face::Back => (0, 0, 1),
    }
}

/// Corner `k` of `face` of the block whose minimum corner is `(px, py, pz)`.
pub open spec fn face_vertex(px: int, py: int, pz: int, face: Face, k: int) -> Vertex {
    let c = face_corner(face, k);
    Vertex {
        position: ((px + c.0) as i32, (py + c.1) as i32, (pz + c.2) as i32),
        normal: face_normal(face),
        color: (1, 1, 1),
    }
}

/// The four vertices of `face` of the block whose minimum corner is `(px, py, pz)`.
pub open spec fn face_vertices(px: int, py: int, pz: int, face: Face) -> Seq<Vertex> {
    seq![
        face_vertex(px, py, pz, face, 0),
        face_vertex(px, py, pz, face, 1),
        face_vertex(px, py, pz, face, 2),
        face_vertex(px, py, pz, face, 3),
    ]
}

/// The two triangles of a face whose first vertex is at `base`.
pub open spec fn face_indices(base: int) -> Seq<u32> {
    seq![
        base as u32,
        (base + 1) as u32,
        (base + 2) as u32,
        base as u32,
        (base + 2) as u32,
        (base + 3) as u32,
    ]
}

/// Whether `face` of padded cell `(x, y, z)` touches an air cell.
pub open spec fn exposed(blocks: Seq<BlockType>, x: int, y: int, z: int, face: Face) -> bool {
    let d = face_offset(face);
    blocks[padded_index(x + d.0, y + d.1, z + d.2)] == BlockType::Air
}

pub open spec fn quad_if_exposed(
    blocks: Seq<BlockType>,
    x: usize,
    y: usize,
    z: usize,
    face: Face,
) -> Seq<Quad> {
    if exposed(blocks, x as int, y as int, z as int, face) {
        seq![Quad { x, y, z, face }]
    } else {
        seq![]
    }
}

/// The visible faces of padded cell `(x, y, z)`: none for air; for a solid block,
/// each face whose neighbour is air, in the order right, left, top, bottom, front, back.
pub open spec fn cell_quads(blocks: Seq<BlockType>, x: usize, y: usize, z: usize) -> Seq<Quad> {
    if blocks[padded_index(x as int, y as int, z as int)] == BlockType::Air {
        seq![]
    } else {
        quad_if_exposed(blocks, x, y, z, Face::Right) + quad_if_exposed(blocks, x, y, z, Face::Left)
            + quad_if_exposed(blocks, x, y, z, Face::Top) + quad_if_exposed(
            blocks,
            x,
            y,
            z,
            Face::Bottom,
        ) + quad_if_exposed(blocks, x, y, z, Face::Front) + quad_if_exposed(
            blocks,
            x,
            y,
            z,
            Face::Back,
        )
    }
}

/// Visible faces of cells `(x, y, 1)` .. `(x, y, z_end - 1)`.
pub open spec fn row_quads(blocks: Seq<BlockType>, x: usize, y: usize, z_end: usize) -> Seq<Quad>
    decreases z_end,
{
    if z_end <= 1 {
        seq![]
    } else {
        row_quads(blocks, x, y, (z_end - 1) as usize) + cell_quads(
            blocks,
            x,
            y,
            (z_end - 1) as usize,
        )
    }
}

/// Visible faces of the interior cells with this `x` and `1 <= y < y_end`.
pub open spec fn layer_quads(blocks: Seq<BlockType>, x: usize, y_end: usize) -> Seq<Quad>
    decreases y_end,
{
    if y_end <= 1 {
        seq![]
    } else {
        layer_quads(blocks, x, (y_end - 1) as usize) + row_quads(
            blocks,
            x,
            (y_end - 1) as usize,
            17,
        )
    }
}

/// Visible faces of the interior cells with `1 <= x < x_end`.
pub open spec fn grid_quads(blocks: Seq<BlockType>, x_end: usize) -> Seq<Quad>
    decreases x_end,
{
    if x_end <= 1 {
        seq![]
    } else {
        grid_quads(blocks, (x_end - 1) as usize) + layer_quads(blocks, (x_end - 1) as usize, 17)
    }
}

/// Every visible face of the chunk proper (padded cells 1..=16 on each axis),
/// ordered by `x`, then `y`, then `z`.
pub open spec fn mesh_quads(blocks: Seq<BlockType>) -> Seq<Quad> {
    grid_quads(blocks, 17)
}

/// World position of the minimum corner of the block of `q` in the chunk at `pos`.
pub open spec fn quad_origin(pos: ChunkPos, q: Quad) -> (int, int, int) {
    (pos.x * 16 + q.x - 1, pos.y * 16 + q.y - 1, pos.z * 16 + q.z - 1)
}

/// The vertices of the faces `quads` of the chunk at `pos`, four per face, in order.
pub open spec fn mesh_vertices(pos: ChunkPos, quads: Seq<Quad>) -> Seq<Vertex>
    decreases quads.len(),
{
    if quads.len() == 0 {
        seq![]
    } else {
        let q = quads.last();
        let o = quad_origin(pos, q);
        mesh_vertices(pos, quads.drop_last()) + face_vertices(o.0, o.1, o.2, q.face)
    }
}

/// The triangle indices of the faces `quads`, six per face, each face's indices
/// pointing at its own four vertices.
pub open spec fn mesh_indices(quads: Seq<Quad>) -> Seq<u32>
    decreases quads.len(),
{
    if quads.len() == 0 {
        seq![]
    } else {
        mesh_indices(quads.drop_last()) + face_indices(4 * (quads.len() - 1))
    }
}

/// Every index refers to one of the vertices.
pub open spec fn indices_in_bounds(indices: Seq<u32>, vertex_count: int) -> bool {
    forall|i: int| 0 <= i < indices.len() ==> (#[trigger] indices[i]) < vertex_count
}

pub proof fn lemma_mesh_push(pos: ChunkPos, quads: Seq<Quad>, q: Quad)
    ensures
        mesh_vertices(pos, quads.push(q)) == mesh_vertices(pos, quads) + face_vertices(
            quad_origin(pos, q).0,
            quad_origin(pos, q).1,
            quad_origin(pos, q).2,
            q.face,
        ),
        mesh_indices(quads.push(q)) == mesh_indices(quads) + face_indices(4 * quads.len() as int),
{
    assert(quads.push(q).drop_last() =~= quads);
}

/// The mesh of `n` faces has `4 n` vertices and `6 n` indices.
pub proof fn lemma_mesh_lengths(pos: ChunkPos, quads: Seq<Quad>)
    ensures
        mesh_vertices(pos, quads).len() == 4 * quads.len(),
        mesh_indices(quads).len() == 6 * quads.len(),
    decreases quads.len(),
{
    if quads.len() > 0 {
        lemma_mesh_lengths(pos, quads.drop_last());
    }
}

/// Every index of a mesh names one of its vertices, as long as the vertex count fits in `u32`.
pub proof fn lemma_mesh_indices_in_bounds(pos: ChunkPos, quads: Seq<Quad>)
    requires
        4 * quads.len() <= u32::MAX + 1,
    ensures
        indices_in_bounds(mesh_indices(quads), mesh_vertices(pos, quads).len() as int),
    decreases quads.len(),
{
    lemma_mesh_lengths(pos, quads);
    if quads.len() > 0 {
        let rest = quads.drop_last();
        lemma_mesh_indices_in_bounds(pos, rest);
        lemma_mesh_lengths(pos, rest);
        let n = 4 * rest.len() as int;
        let ind = mesh_indices(quads);
        assert forall|i: int| 0 <= i < ind.len() implies (#[trigger] ind[i]) < 4 * quads.len() by {
            if i < mesh_indices(rest).len() {
                assert(ind[i] == mesh_indices(rest)[i]);
            } else {
                assert(ind[i] == face_indices(n)[i - mesh_indices(rest).len()]);
            }
        }
    }
}

/// At most six faces per cell.
pub proof fn lemma_cell_quads_len(blocks: Seq<BlockType>, x: usize, y: usize, z: usize)
    ensures
        cell_quads(blocks, x, y, z).len() <= 6,
{
}

pub proof fn lemma_row_quads_len(blocks: Seq<BlockType>, x: usize, y: usize, z_end: usize)
    requires
        z_end >= 1,
    ensures
        row_quads(blocks, x, y, z_end).len() <= 6 * (z_end - 1),
    decreases z_end,
{
    if z_end > 1 {
        lemma_row_quads_len(blocks, x, y, (z_end - 1) as usize);
        lemma_cell_quads_len(blocks, x, y, (z_end - 1) as usize);
    }
}

pub proof fn lemma_layer_quads_len(blocks: Seq<BlockType>, x: usize, y_end: usize)
    requires
        y_end >= 1,
    ensures
        layer_quads(blocks, x, y_end).len() <= 96 * (y_end - 1),
    decreases y_end,
{
    if y_end > 1 {
        lemma_layer_quads_len(blocks, x, (y_end - 1) as usize);
        lemma_row_quads_len(blocks, x, (y_end - 1) as usize, 17);
    }
}

pub proof fn lemma_grid_quads_len(blocks: Seq<BlockType>, x_end: usize)
    requires
        x_end >= 1,
    ensures
        grid_quads(blocks, x_end).len() <= 1536 * (x_end - 1),
    decreases x_end,
{
    if x_end > 1 {
        lemma_grid_quads_len(blocks, (x_end - 1) as usize);
        lemma_layer_quads_len(blocks, (x_end - 1) as usize, 17);
    }
}

/// Whether `face` of padded cell `(x, y, z)` belongs in the chunk's mesh: the cell lies
/// in the chunk proper, holds a solid block, and the cell across that face is air.
pub open spec fn visible_face(blocks: Seq<BlockType>, x: int, y: int, z: int, face: Face) -> bool {
    &&& 1 <= x <= 16
    &&& 1 <= y <= 16
    &&& 1 <= z <= 16
    &&& blocks[padded_index(x, y, z)] != BlockType::Air
    &&& exposed(blocks, x, y, z, face)
}

proof fn lemma_concat_contains<A>(a: Seq<A>, b: Seq<A>, q: A)
    ensures
        (a + b).contains(q) <==> (a.contains(q) || b.contains(q)),
{
    if (a + b).contains(q) {
        let i = choose|i: int| 0 <= i < (a + b).len() && (a + b)[i] == q;
        if i < a.len() {
            assert(a[i] == q);
        } else {
            assert(b[i - a.len()] == q);
        }
    }
    if a.contains(q) {
        let i = choose|i: int| 0 <= i < a.len() && a[i] == q;
        assert((a + b)[i] == q);
    }
    if b.contains(q) {
        let i = choose|i: int| 0 <= i < b.len() && b[i] == q;
        assert((a + b)[a.len() + i] == q);
    }
}

proof fn lemma_concat_no_duplicates<A>(a: Seq<A>, b: Seq<A>)
    requires
        a.no_duplicates(),
        b.no_duplicates(),
        forall|q: A| a.contains(q) ==> !b.contains(q),
    ensures
        (a + b).no_duplicates(),
{
    let c = a + b;
    assert forall|i: int, j: int| 0 <= i < c.len() && 0 <= j < c.len() && i != j implies c[i] != c[j] by {
        if i < a.len() && j >= a.len() {
            assert(a.contains(c[i]));
            assert(b[j - a.len()] == c[j]);
        } else if j < a.len() && i >= a.len() {
            assert(a.contains(c[j]));
            assert(b[i - a.len()] == c[i]);
        }
    }
}

/// The faces of one cell: exactly its visible faces, each once.
proof fn lemma_cell_quads_faces(blocks: Seq<BlockType>, x: usize, y: usize, z: usize)
    requires
        1 <= x <= 16,
        1 <= y <= 16,
        1 <= z <= 16,
    ensures
        forall|q: Quad|
            cell_quads(blocks, x, y, z).contains(q) <==> (q.x == x && q.y == y && q.z == z
                && visible_face(blocks, x as int, y as int, z as int, q.face)),
        cell_quads(blocks, x, y, z).no_duplicates(),
{
    let c = cell_quads(blocks, x, y, z);
    if blocks[padded_index(x as int, y as int, z as int)] != BlockType::Air {
        let f1 = quad_if_exposed(blocks, x, y, z, Face::Right);
        let f2 = quad_if_exposed(blocks, x, y, z, Face::Left);
        let f3 = quad_if_exposed(blocks, x, y, z, Face::Top);
        let f4 = quad_if_exposed(blocks, x, y, z, Face::Bottom);
        let f5 = quad_if_exposed(blocks, x, y, z, Face::Front);
        let f6 = quad_if_exposed(blocks, x, y, z, Face::Back);
        assert forall|q: Quad| c.contains(q) <==> (q.x == x && q.y == y && q.z == z && visible_face(
            blocks,
            x as int,
            y as int,
            z as int,
            q.face,
        )) by {
            lemma_concat_contains(f1, f2, q);
            lemma_concat_contains(f1 + f2, f3, q);
            lemma_concat_contains(f1 + f2 + f3, f4, q);
            lemma_concat_contains(f1 + f2 + f3 + f4, f5, q);
            lemma_concat_contains(f1 + f2 + f3 + f4 + f5, f6, q);
            if f1.contains(q) { assert(f1[0] == q); }
            if f2.contains(q) { assert(f2[0] == q); }
            if f3.contains(q) { assert(f3[0] == q); }
            if f4.contains(q) { assert(f4[0] == q); }
            if f5.contains(q) { assert(f5[0] == q); }
            if f6.contains(q) { assert(f6[0] == q); }
            if q.x == x && q.y == y && q.z == z && visible_face(blocks, x as int, y as int, z as int, q.face) {
                match q.face {
                    Face::Right => { assert(f1[0] == q); }
                    Face::Left => { assert(f2[0] == q); }
                    Face::Top => { assert(f3[0] == q); }
                    Face::Bottom => { assert(f4[0] == q); }
                    Face::Front => { assert(f5[0] == q); }
                    Face::Back => { assert(f6[0] == q); }
                }
            }
        }
        assert(c.no_duplicates());
    } else {
        assert forall|q: Quad| c.contains(q) <==> (q.x == x && q.y == y && q.z == z && visible_face(
            blocks,
            x as int,
            y as int,
            z as int,
            q.face,
        )) by {}
    }
}

proof fn lemma_row_quads_faces(blocks: Seq<BlockType>, x: usize, y: usize, z_end: usize)
    requires
        1 <= x <= 16,
        1 <= y <= 16,
        z_end <= 17,
    ensures
        forall|q: Quad|
            row_quads(blocks, x, y, z_end).contains(q) <==> (q.x == x && q.y == y && q.z < z_end
                && visible_face(blocks, x as int, y as int, q.z as int, q.face)),
        row_quads(blocks, x, y, z_end).no_duplicates(),
    decreases z_end,
{
    if z_end > 1 {
        let z = (z_end - 1) as usize;
        lemma_row_quads_faces(blocks, x, y, z);
        lemma_cell_quads_faces(blocks, x, y, z);
        let a = row_quads(blocks, x, y, z);
        let b = cell_quads(blocks, x, y, z);
        assert forall|q: Quad| row_quads(blocks, x, y, z_end).contains(q) <==> (q.x == x && q.y == y
            && q.z < z_end && visible_face(blocks, x as int, y as int, q.z as int, q.face)) by {
            lemma_concat_contains(a, b, q);
        }
        lemma_concat_no_duplicates(a, b);
    } else {
        assert forall|q: Quad| row_quads(blocks, x, y, z_end).contains(q) <==> (q.x == x && q.y == y
            && q.z < z_end && visible_face(blocks, x as int, y as int, q.z as int, q.face)) by {}
    }
}

proof fn lemma_layer_quads_faces(blocks: Seq<BlockType>, x: usize, y_end: usize)
    requires
        1 <= x <= 16,
        y_end <= 17,
    ensures
        forall|q: Quad|
            layer_quads(blocks, x, y_end).contains(q) <==> (q.x == x && q.y < y_end && visible_face(
                blocks,
                x as int,
                q.y as int,
                q.z as int,
                q.face,
            )),
        layer_quads(blocks, x, y_end).no_duplicates(),
    decreases y_end,
{
    if y_end > 1 {
        let y = (y_end - 1) as usize;
        lemma_layer_quads_faces(blocks, x, y);
        lemma_row_quads_faces(blocks, x, y, 17);
        let a = layer_quads(blocks, x, y);
        let b = row_quads(blocks, x, y, 17);
        assert forall|q: Quad| layer_quads(blocks, x, y_end).contains(q) <==> (q.x == x && q.y < y_end
            && visible_face(blocks, x as int, q.y as int, q.z as int, q.face)) by {
            lemma_concat_contains(a, b, q);
        }
        lemma_concat_no_duplicates(a, b);
    } else {
        assert forall|q: Quad| layer_quads(blocks, x, y_end).contains(q) <==> (q.x == x && q.y < y_end
            && visible_face(blocks, x as int, q.y as int, q.z as int, q.face)) by {}
    }
}

proof fn lemma_grid_quads_faces(blocks: Seq<BlockType>, x_end: usize)
    requires
        x_end <= 17,
    ensures
        forall|q: Quad|
            grid_quads(blocks, x_end).contains(q) <==> (q.x < x_end && visible_face(
                blocks,
                q.x as int,
                q.y as int,
                q.z as int,
                q.face,
            )),
        grid_quads(blocks, x_end).no_duplicates(),
    decreases x_end,
{
    if x_end > 1 {
        let x = (x_end - 1) as usize;
        lemma_grid_quads_faces(blocks, x);
        lemma_layer_quads_faces(blocks, x, 17);
        let a = grid_quads(blocks, x);
        let b = layer_quads(blocks, x, 17);
        assert forall|q: Quad| grid_quads(blocks, x_end).contains(q) <==> (q.x < x_end && visible_face(
            blocks,
            q.x as int,
            q.y as int,
            q.z as int,
            q.face,
        )) by {
            lemma_concat_contains(a, b, q);
        }
        lemma_concat_no_duplicates(a, b);
    } else {
        assert forall|q: Quad| grid_quads(blocks, x_end).contains(q) <==> (q.x < x_end && visible_face(
            blocks,
            q.x as int,
            q.y as int,
            q.z as int,
            q.face,
        )) by {}
    }
}

/// The mesh holds exactly the visible faces of the chunk, each once: a face of a solid
/// block of the chunk proper is drawn if and only if the cell across it is air.
pub proof fn law_mesh_faces_are_visible_faces(blocks: Seq<BlockType>)
    ensures
        forall|q: Quad|
            mesh_quads(blocks).contains(q) <==> visible_face(
                blocks,
                q.x as int,
                q.y as int,
                q.z as int,
                q.face,
            ),
        mesh_quads(blocks).no_duplicates(),
{
    lemma_grid_quads_faces(blocks, 17);
}

/// Appends `face` of the block whose minimum corner is `pos`: four vertices and the
/// six indices of its two triangles.
pub fn add_face(vertices: &mut Vec<Vertex>, indices: &mut Vec<u32>, pos: (i32, i32, i32), face: Face)
    requires
        old(vertices)@.len() + 4 <= u32::MAX + 1,
        pos.0 < i32::MAX,
        pos.1 < i32::MAX,
        pos.2 < i32::MAX,
    ensures
        final(vertices)@ == old(vertices)@ + face_vertices(
            pos.0 as int,
            pos.1 as int,
            pos.2 as int,
            face,
        ),
        final(indices)@ == old(indices)@ + face_indices(old(vertices)@.len() as int),
{
    let base = vertices.len() as u32;
    let (corners, normal): ([(i32, i32, i32); 4], (i32, i32, i32)) = match face {
        Face::Top => ([(0, 1, 0), (0, 1, 1), (1, 1, 1), (1, 1, 0)], (0, 1, 0)),
        Face::Bottom => ([(0, 0, 0), (1, 0, 0), (1, 0, 1), (0, 0, 1)], (0, -1, 0)),
        Face::Right => ([(1, 0, 0), (1, 1, 0), (1, 1, 1), (1, 0, 1)], (1, 0, 0)),
        Face::Left => ([(0, 0, 1), (0, 1, 1), (0, 1, 0), (0, 0, 0)], (-1, 0, 0)),
        Face::Front => ([(1, 0, 1), (1, 1, 1), (0, 1, 1), (0, 0, 1)], (0, 0, -1)),
        Face::Back => ([(0, 0, 0), (0, 1, 0), (1, 1, 0), (1, 0, 0)], (0, 0, 1)),
    };
    let ghost old_vertices = vertices@;
    let mut k: usize = 0;
    while k < 4
        invariant
            k <= 4,
            vertices@.len() == old_vertices.len() + k,
            forall|j: int| 0 <= j < old_vertices.len() ==> vertices@[j] == old_vertices[j],
            forall|j: int|
                0 <= j < k ==> vertices@[old_vertices.len() + j] == face_vertex(
                    pos.0 as int,
                    pos.1 as int,
                    pos.2 as int,
                    face,
                    j,
                ),
            forall|j: int|
                0 <= j < 4 ==> (#[trigger] corners@[j]).0 as int == face_corner(face, j).0 && corners@[j].1 as int
                    == face_corner(face, j).1 && corners@[j].2 as int == face_corner(face, j).2,
            normal == face_normal(face),
            pos.0 < i32::MAX,
            pos.1 < i32::MAX,
            pos.2 < i32::MAX,
        decreases 4 - k,
    {
        let c = corners[k];
        assert(corners@[k as int] == c);
        vertices.push(
            Vertex {
                position: (pos.0 + c.0, pos.1 + c.1, pos.2 + c.2),
                normal,
                color: (1, 1, 1),
            },
        );
        k = k + 1;
    }
    assert(vertices@ =~= old_vertices + face_vertices(pos.0 as int, pos.1 as int, pos.2 as int, face));
    indices.push(base);
    indices.push(base + 1);
    indices.push(base + 2);
    indices.push(base);
    indices.push(base + 2);
    indices.push(base + 3);
    assert(indices@ =~= old(indices)@ + face_indices(old_vertices.len() as int));
}


/// Appending a face keeps a mesh well formed: if every index named one of the old
/// vertices, every index names one of the new vertices.
pub proof fn law_add_face_keeps_indices_in_bounds(
    vertices: Seq<Vertex>,
    indices: Seq<u32>,
    px: int,
    py: int,
    pz: int,
    face: Face,
)
    requires
        indices_in_bounds(indices, vertices.len() as int),
        vertices.len() + 4 <= u32::MAX + 1,
    ensures
        indices_in_bounds(
            indices + face_indices(vertices.len() as int),
            (vertices + face_vertices(px, py, pz, face)).len() as int,
        ),
        (vertices + face_vertices(px, py, pz, face)).len() == vertices.len() + 4,
        (indices + face_indices(vertices.len() as int)).len() == indices.len() + 6,
{
    let all = indices + face_indices(vertices.len() as int);
    assert forall|i: int| 0 <= i < all.len() implies (#[trigger] all[i]) < vertices.len() + 4 by {
        if i < indices.len() {
            assert(all[i] == indices[i]);
        } else {
            assert(all[i] == face_indices(vertices.len() as int)[i - indices.len()]);
        }
    }
}


/// Each face is a side of the unit cube named as the face is, and the neighbour that
/// decides whether it is drawn lies across that side: the four corners are four distinct
/// corners of the cube, all on the named side (bottom `y = 0`, top `y = 1`, left `x = 0`,
/// right `x = 1`, back `z = 0`, front `z = 1`), and the tested neighbour is one step out of
/// the cube through that side.
pub proof fn law_face_geometry(f: Face)
    ensures
        forall|j: int, k: int|
            0 <= j < 4 && 0 <= k < 4 && j != k ==> face_corner(f, j) != face_corner(f, k),
        forall|k: int|
            0 <= k < 4 ==> 0 <= (#[trigger] face_corner(f, k)).0 <= 1 && 0 <= face_corner(f, k).1 <= 1
                && 0 <= face_corner(f, k).2 <= 1,
        f == Face::Bottom ==> face_offset(f) == (0int, -1int, 0int) && forall|k: int|
            0 <= k < 4 ==> face_corner(f, k).1 == 0,
        f == Face::Top ==> face_offset(f) == (0int, 1int, 0int) && forall|k: int|
            0 <= k < 4 ==> face_corner(f, k).1 == 1,
        f == Face::Left ==> face_offset(f) == (-1int, 0int, 0int) && forall|k: int|
            0 <= k < 4 ==> face_corner(f, k).0 == 0,
        f == Face::Right ==> face_offset(f) == (1int, 0int, 0int) && forall|k: int|
            0 <= k < 4 ==> face_corner(f, k).0 == 1,
        f == Face::Back ==> face_offset(f) == (0int, 0int, -1int) && forall|k: int|
            0 <= k < 4 ==> face_corner(f, k).2 == 0,
        f == Face::Front ==> face_offset(f) == (0int, 0int, 1int) && forall|k: int|
            0 <= k < 4 ==> face_corner(f, k).2 == 1,
{
}

/// The four vertices that `add_face` appends for `face` of the block at `(px, py, pz)` are
/// four distinct corners of that block, all in the plane of the named side, and the cell
/// that decides the face lies on the far side of that plane.
pub proof fn law_face_vertices_on_side(px: int, py: int, pz: int, face: Face)
    requires
        i32::MIN <= px < i32::MAX,
        i32::MIN <= py < i32::MAX,
        i32::MIN <= pz < i32::MAX,
    ensures
        face_vertices(px, py, pz, face).len() == 4,
        forall|j: int, k: int|
            0 <= j < 4 && 0 <= k < 4 && j != k ==> face_vertices(px, py, pz, face)[j].position
                != face_vertices(px, py, pz, face)[k].position,
        forall|k: int|
            0 <= k < 4 ==> {
                let v = (#[trigger] face_vertices(px, py, pz, face)[k]).position;
                let d = face_offset(face);
                &&& px <= v.0 <= px + 1
                &&& py <= v.1 <= py + 1
                &&& pz <= v.2 <= pz + 1
                &&& (d.0 == 1 ==> v.0 == px + 1)
                &&& (d.0 == -1 ==> v.0 == px)
                &&& (d.1 == 1 ==> v.1 == py + 1)
                &&& (d.1 == -1 ==> v.1 == py)
                &&& (d.2 == 1 ==> v.2 == pz + 1)
                &&& (d.2 == -1 ==> v.2 == pz)
            },
{
    law_face_geometry(face);
    let vs = face_vertices(px, py, pz, face);
    assert forall|j: int, k: int|
        0 <= j < 4 && 0 <= k < 4 && j != k implies vs[j].position != vs[k].position by {
        assert(face_corner(face, j) != face_corner(face, k));
    }
}


/// Every face in a chunk's mesh borders air on the side where its corners lie: a front
/// face (corners at `z = 1`) has air at `z + 1`, a back face (`z = 0`) at `z - 1`, and so
/// on; so no drawn face lies in a plane shared with another solid block.
pub proof fn law_mesh_faces_border_air(blocks: Seq<BlockType>)
    ensures
        forall|q: Quad|
            #[trigger] mesh_quads(blocks).contains(q) ==> {
                let (x, y, z) = (q.x as int, q.y as int, q.z as int);
                &&& blocks[padded_index(x, y, z)] != BlockType::Air
                &&& (q.face == Face::Front ==> blocks[padded_index(x, y, z + 1)] == BlockType::Air)
                &&& (q.face == Face::Back ==> blocks[padded_index(x, y, z - 1)] == BlockType::Air)
                &&& (q.face == Face::Top ==> blocks[padded_index(x, y + 1, z)] == BlockType::Air)
                &&& (q.face == Face::Bottom ==> blocks[padded_index(x, y - 1, z)] == BlockType::Air)
                &&& (q.face == Face::Right ==> blocks[padded_index(x + 1, y, z)] == BlockType::Air)
                &&& (q.face == Face::Left ==> blocks[padded_index(x - 1, y, z)] == BlockType::Air)
            },
{
    law_mesh_faces_are_visible_faces(blocks);
}

} // verus!
