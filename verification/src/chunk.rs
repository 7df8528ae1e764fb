use vstd::prelude::*;

use crate::mesh::{
    add_face, cell_quads, grid_quads, indices_in_bounds, layer_quads, lemma_grid_quads_len,
    lemma_layer_quads_len, lemma_mesh_indices_in_bounds, lemma_mesh_lengths, lemma_mesh_push,
    lemma_row_quads_len, mesh_indices, mesh_quads, mesh_vertices, quad_if_exposed, quad_origin,
    row_quads, Face, Quad, Vertex,
};
use crate::worldgen::BlockType;

verus! {

/// Edge length of a chunk, in blocks.
pub const CHUNK_SIZE: i32 = 16;

/// Edge length of the stored block grid: the chunk plus a one-block border.
pub const PADDED_SIZE: usize = 18;

/// Number of cells in the padded block grid.
pub const PADDED_VOLUME: usize = 5832;

/// Smallest chunk coordinate whose blocks have world coordinates that fit in `i32`.
pub const MIN_CHUNK_COORD: i32 = -134217727;

/// Largest chunk coordinate whose blocks have world coordinates that fit in `i32`.
pub const MAX_CHUNK_COORD: i32 = 134217726;

/// Position of a chunk, in chunk coordinates.
#[derive(Clone, Copy, PartialEq, Eq, Structural, Debug)]
pub struct ChunkPos {
    pub x: i32,
    pub y: i32,
    pub z: i32,
}

/// A chunk coordinate whose padded world coordinates `16 * c - 1 ..= 16 * c + 16` fit in `i32`.
pub open spec fn coord_in_world(c: int) -> bool {
    MIN_CHUNK_COORD <= c <= MAX_CHUNK_COORD
}

pub open spec fn pos_in_world(p: ChunkPos) -> bool {
    coord_in_world(p.x as int) && coord_in_world(p.y as int) && coord_in_world(p.z as int)
}

/// Linear position of padded cell `(x, y, z)` in the block grid.
pub open spec fn padded_index(x: int, y: int, z: int) -> int {
    (x * 18 + y) * 18 + z
}

pub open spec fn in_padded(x: int, y: int, z: int) -> bool {
    0 <= x < 18 && 0 <= y < 18 && 0 <= z < 18
}

/// World coordinate of padded cell `padded` of a chunk at chunk coordinate `c`.
pub open spec fn padded_world_coord_spec(c: int, padded: int) -> int {
    c * 16 + padded - 1
}

impl ChunkPos {
    pub fn new(x: i32, y: i32, z: i32) -> (p: ChunkPos)
        ensures
            p.x == x && p.y == y && p.z == z,
    {
        ChunkPos { x, y, z }
    }

    /// Whether every block of the chunk, border included, has world coordinates that fit in `i32`.
    pub fn in_world(&self) -> (b: bool)
        ensures
            b == pos_in_world(*self),
    {
        MIN_CHUNK_COORD <= self.x && self.x <= MAX_CHUNK_COORD && MIN_CHUNK_COORD <= self.y
            && self.y <= MAX_CHUNK_COORD && MIN_CHUNK_COORD <= self.z && self.z <= MAX_CHUNK_COORD
    }
}

/// World coordinate of padded cell `padded` of a chunk at chunk coordinate `c`
/// (the border cell 0 lies one block before the chunk).
pub fn padded_world_coord(c: i32, padded: usize) -> (w: i32)
    requires
        coord_in_world(c as int),
        padded < PADDED_SIZE,
    ensures
        w == padded_world_coord_spec(c as int, padded as int),
{
    c * CHUNK_SIZE + padded as i32 - 1
}

/// A cube of blocks with a one-block border, and the mesh built from it.
pub struct Chunk {
    /// Padded block grid, cell `(x, y, z)` at `padded_index(x, y, z)`.
    pub blocks: Vec<BlockType>,
    /// In chunk coordinates.
    pub position: ChunkPos,
    pub vertices: Vec<Vertex>,
    pub indices: Vec<u32>,
    pub dirty: bool,
}

impl Chunk {
    pub open spec fn wf(&self) -> bool {
        self.blocks@.len() == PADDED_VOLUME
    }

    /// The block in padded cell `(x, y, z)`.
    pub open spec fn cell(&self, x: int, y: int, z: int) -> BlockType {
        self.blocks@[padded_index(x, y, z)]
    }

    /// An empty chunk: all air, no mesh yet, marked for meshing.
    pub fn new(position: ChunkPos) -> (c: Chunk)
        ensures
            c.wf(),
            c.position == position,
            forall|i: int| 0 <= i < PADDED_VOLUME ==> c.blocks@[i] == BlockType::Air,
            c.vertices@.len() == 0,
            c.indices@.len() == 0,
            c.dirty,
    {
        let mut blocks: Vec<BlockType> = Vec::new();
        let mut i: usize = 0;
        while i < PADDED_VOLUME
            invariant
                i <= PADDED_VOLUME,
                blocks@.len() == i,
                forall|j: int| 0 <= j < i ==> blocks@[j] == BlockType::Air,
            decreases PADDED_VOLUME - i,
        {
            blocks.push(BlockType::Air);
            i = i + 1;
        }
        Chunk { blocks, position, vertices: Vec::new(), indices: Vec::new(), dirty: true }
    }

    /// Writes block `(x, y, z)` of the chunk proper (padded cell `(x + 1, y + 1, z + 1)`)
    /// and marks the chunk for meshing.
    pub fn set_block(&mut self, x: usize, y: usize, z: usize, block: BlockType)
        requires
            old(self).wf(),
            x + 1 < PADDED_SIZE,
            y + 1 < PADDED_SIZE,
            z + 1 < PADDED_SIZE,
        ensures
            final(self).wf(),
            final(self).blocks@ == old(self).blocks@.update(
                padded_index(x + 1, y + 1, z + 1),
                block,
            ),
            final(self).position == old(self).position,
            final(self).vertices@ == old(self).vertices@,
            final(self).indices@ == old(self).indices@,
            final(self).dirty,
    {
        let i = ((x + 1) * PADDED_SIZE + (y + 1)) * PADDED_SIZE + (z + 1);
        self.blocks.set(i, block);
        self.dirty = true;
    }

    /// The block in padded cell `(x, y, z)`.
    pub fn block(&self, x: usize, y: usize, z: usize) -> (b: BlockType)
        requires
            self.wf(),
            x < PADDED_SIZE,
            y < PADDED_SIZE,
            z < PADDED_SIZE,
        ensures
            b == self.cell(x as int, y as int, z as int),
    {
        self.blocks[(x * PADDED_SIZE + y) * PADDED_SIZE + z]
    }
}


/// The vertices of the mesh of the chunk at `pos` with padded block grid `blocks`.
pub open spec fn chunk_mesh_vertices(pos: ChunkPos, blocks: Seq<BlockType>) -> Seq<Vertex> {
    mesh_vertices(pos, mesh_quads(blocks))
}

/// The triangle indices of the mesh of a chunk with padded block grid `blocks`.
pub open spec fn chunk_mesh_indices(blocks: Seq<BlockType>) -> Seq<u32> {
    mesh_indices(mesh_quads(blocks))
}

/// Appends `face` of padded cell `(x, y, z)` when it touches air.
fn emit_if_exposed(
    blocks: &Vec<BlockType>,
    pos: ChunkPos,
    x: usize,
    y: usize,
    z: usize,
    origin: (i32, i32, i32),
    face: Face,
    vertices: &mut Vec<Vertex>,
    indices: &mut Vec<u32>,
    Ghost(quads): Ghost<Seq<Quad>>,
) -> (out: Ghost<Seq<Quad>>)
    requires
        blocks@.len() == PADDED_VOLUME,
        1 <= x <= 16,
        1 <= y <= 16,
        1 <= z <= 16,
        pos_in_world(pos),
        origin == ((pos.x * 16 + x - 1) as i32, (pos.y * 16 + y - 1) as i32, (pos.z * 16 + z - 1) as i32),
        old(vertices)@ == mesh_vertices(pos, quads),
        old(indices)@ == mesh_indices(quads),
        4 * quads.len() + 4 <= u32::MAX + 1,
    ensures
        out@ == quads + quad_if_exposed(blocks@, x, y, z, face),
        out@.len() <= quads.len() + 1,
        final(vertices)@ == mesh_vertices(pos, out@),
        final(indices)@ == mesh_indices(out@),
{
    proof {
        lemma_mesh_lengths(pos, quads);
    }
    let (nx, ny, nz): (usize, usize, usize) = match face {
        Face::Right => (x + 1, y, z),
        Face::Left => (x - 1, y, z),
        Face::Top => (x, y + 1, z),
        Face::Bottom => (x, y - 1, z),
        Face::Front => (x, y, z + 1),
        Face::Back => (x, y, z - 1),
    };
    if blocks[(nx * PADDED_SIZE + ny) * PADDED_SIZE + nz] == BlockType::Air {
        let q = Quad { x, y, z, face };
        add_face(vertices, indices, origin, face);
        proof {
            lemma_mesh_push(pos, quads, q);
            assert(quads.push(q) =~= quads + quad_if_exposed(blocks@, x, y, z, face));
        }
        Ghost(quads.push(q))
    } else {
        proof {
            assert(quads =~= quads + quad_if_exposed(blocks@, x, y, z, face));
        }
        Ghost(quads)
    }
}

proof fn lemma_concat_six<A>(a: Seq<A>, f1: Seq<A>, f2: Seq<A>, f3: Seq<A>, f4: Seq<A>, f5: Seq<A>, f6: Seq<A>)
    ensures
        a + f1 + f2 + f3 + f4 + f5 + f6 == a + (f1 + f2 + f3 + f4 + f5 + f6),
{
    assert(a + f1 + f2 + f3 + f4 + f5 + f6 =~= a + (f1 + f2 + f3 + f4 + f5 + f6));
}

/// Appends the visible faces of padded cell `(x, y, z)`.
fn emit_cell(
    blocks: &Vec<BlockType>,
    pos: ChunkPos,
    x: usize,
    y: usize,
    z: usize,
    cw: (i32, i32, i32),
    vertices: &mut Vec<Vertex>,
    indices: &mut Vec<u32>,
    Ghost(quads): Ghost<Seq<Quad>>,
) -> (out: Ghost<Seq<Quad>>)
    requires
        blocks@.len() == PADDED_VOLUME,
        1 <= x <= 16,
        1 <= y <= 16,
        1 <= z <= 16,
        pos_in_world(pos),
        cw.0 == pos.x * 16,
        cw.1 == pos.y * 16,
        cw.2 == pos.z * 16,
        old(vertices)@ == mesh_vertices(pos, quads),
        old(indices)@ == mesh_indices(quads),
        4 * quads.len() + 24 <= u32::MAX + 1,
    ensures
        out@ == quads + cell_quads(blocks@, x, y, z),
        final(vertices)@ == mesh_vertices(pos, out@),
        final(indices)@ == mesh_indices(out@),
{
    if blocks[(x * PADDED_SIZE + y) * PADDED_SIZE + z] == BlockType::Air {
        proof {
            assert(quads =~= quads + cell_quads(blocks@, x, y, z));
        }
        return Ghost(quads);
    }
    let origin = (cw.0 + (x - 1) as i32, cw.1 + (y - 1) as i32, cw.2 + (z - 1) as i32);
    let Ghost(q1) = emit_if_exposed(blocks, pos, x, y, z, origin, Face::Right, vertices, indices, Ghost(quads));
    let Ghost(q2) = emit_if_exposed(blocks, pos, x, y, z, origin, Face::Left, vertices, indices, Ghost(q1));
    let Ghost(q3) = emit_if_exposed(blocks, pos, x, y, z, origin, Face::Top, vertices, indices, Ghost(q2));
    let Ghost(q4) = emit_if_exposed(blocks, pos, x, y, z, origin, Face::Bottom, vertices, indices, Ghost(q3));
    let Ghost(q5) = emit_if_exposed(blocks, pos, x, y, z, origin, Face::Front, vertices, indices, Ghost(q4));
    let Ghost(q6) = emit_if_exposed(blocks, pos, x, y, z, origin, Face::Back, vertices, indices, Ghost(q5));
    proof {
        lemma_concat_six(
            quads,
            quad_if_exposed(blocks@, x, y, z, Face::Right),
            quad_if_exposed(blocks@, x, y, z, Face::Left),
            quad_if_exposed(blocks@, x, y, z, Face::Top),
            quad_if_exposed(blocks@, x, y, z, Face::Bottom),
            quad_if_exposed(blocks@, x, y, z, Face::Front),
            quad_if_exposed(blocks@, x, y, z, Face::Back),
        );
    }
    Ghost(q6)
}

impl Chunk {
    /// Rebuilds the mesh from the blocks of the chunk proper (padded cells 1..=16 on
    /// each axis): for every solid block, one face towards each neighbouring air cell
    /// (border cells included), and clears the mark.
    pub fn rebuild_mesh(&mut self)
        requires
            old(self).wf(),
            pos_in_world(old(self).position),
        ensures
            final(self).wf(),
            final(self).blocks@ == old(self).blocks@,
            final(self).position == old(self).position,
            final(self).vertices@ == chunk_mesh_vertices(old(self).position, old(self).blocks@),
            final(self).indices@ == chunk_mesh_indices(old(self).blocks@),
            !final(self).dirty,
    {
        let mut vertices: Vec<Vertex> = Vec::new();
        let mut indices: Vec<u32> = Vec::new();
        let pos = self.position;
        let cwx = pos.x * CHUNK_SIZE;
        let cwy = pos.y * CHUNK_SIZE;
        let cwz = pos.z * CHUNK_SIZE;
        let ghost blocks = self.blocks@;
        let ghost mut quads: Seq<Quad> = seq![];
        let mut x: usize = 1;
        while x <= 16
            invariant
                1 <= x <= 17,
                self.blocks@ == blocks,
                blocks.len() == PADDED_VOLUME,
                self.position == pos,
                pos_in_world(pos),
                cwx == pos.x * 16,
                cwy == pos.y * 16,
                cwz == pos.z * 16,
                quads == grid_quads(blocks, x),
                vertices@ == mesh_vertices(pos, quads),
                indices@ == mesh_indices(quads),
            decreases 17 - x,
        {
            let mut y: usize = 1;
            while y <= 16
                invariant
                    1 <= x <= 16,
                    1 <= y <= 17,
                    self.blocks@ == blocks,
                    blocks.len() == PADDED_VOLUME,
                    self.position == pos,
                    pos_in_world(pos),
                    cwx == pos.x * 16,
                    cwy == pos.y * 16,
                    cwz == pos.z * 16,
                    quads == grid_quads(blocks, x) + layer_quads(blocks, x, y),
                    vertices@ == mesh_vertices(pos, quads),
                    indices@ == mesh_indices(quads),
                decreases 17 - y,
            {
                let mut z: usize = 1;
                while z <= 16
                    invariant
                        1 <= x <= 16,
                        1 <= y <= 16,
                        1 <= z <= 17,
                        self.blocks@ == blocks,
                        blocks.len() == PADDED_VOLUME,
                        self.position == pos,
                        pos_in_world(pos),
                        cwx == pos.x * 16,
                        cwy == pos.y * 16,
                        cwz == pos.z * 16,
                        quads == grid_quads(blocks, x) + layer_quads(blocks, x, y) + row_quads(
                            blocks,
                            x,
                            y,
                            z,
                        ),
                        vertices@ == mesh_vertices(pos, quads),
                        indices@ == mesh_indices(quads),
                    decreases 17 - z,
                {
                    proof {
                        lemma_grid_quads_len(blocks, x);
                        lemma_layer_quads_len(blocks, x, y);
                        lemma_row_quads_len(blocks, x, y, z);
                    }
                    let Ghost(next) = emit_cell(&self.blocks, pos, x, y, z, (cwx, cwy, cwz), &mut vertices, &mut indices, Ghost(quads));
                    let ghost before = quads;
                    proof {
                        quads = next;
                    }
                    proof {
                        assert(row_quads(blocks, x, y, (z + 1) as usize) == row_quads(blocks, x, y, z)
                            + cell_quads(blocks, x, y, z));
                        assert(quads =~= grid_quads(blocks, x) + layer_quads(blocks, x, y) + row_quads(
                            blocks,
                            x,
                            y,
                            (z + 1) as usize,
                        ));
                    }
                    z = z + 1;
                }
                proof {
                    assert(layer_quads(blocks, x, (y + 1) as usize) == layer_quads(blocks, x, y)
                        + row_quads(blocks, x, y, 17));
                    assert(quads =~= grid_quads(blocks, x) + layer_quads(blocks, x, (y + 1) as usize));
                }
                y = y + 1;
            }
            proof {
                assert(grid_quads(blocks, (x + 1) as usize) == grid_quads(blocks, x) + layer_quads(
                    blocks,
                    x,
                    17,
                ));
                assert(quads =~= grid_quads(blocks, (x + 1) as usize));
            }
            x = x + 1;
        }
        self.vertices = vertices;
        self.indices = indices;
        self.dirty = false;
    }
}

/// A rebuilt mesh is well formed: four vertices and six indices per visible face, and
/// every index names one of the vertices.
pub proof fn law_chunk_mesh_well_formed(pos: ChunkPos, blocks: Seq<BlockType>)
    ensures
        chunk_mesh_vertices(pos, blocks).len() == 4 * mesh_quads(blocks).len(),
        chunk_mesh_indices(blocks).len() == 6 * mesh_quads(blocks).len(),
        mesh_quads(blocks).len() <= 6 * 4096,
        indices_in_bounds(chunk_mesh_indices(blocks), chunk_mesh_vertices(pos, blocks).len() as int),
{
    lemma_grid_quads_len(blocks, 17);
    lemma_mesh_lengths(pos, mesh_quads(blocks));
    lemma_mesh_indices_in_bounds(pos, mesh_quads(blocks));
}

} // verus!
