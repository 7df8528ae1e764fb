use vstd::prelude::*;

use crate::chunk::{
    in_padded, padded_index, padded_world_coord, padded_world_coord_spec, pos_in_world, Chunk,
    PADDED_SIZE, PADDED_VOLUME,
};

verus! {

/// What occupies one cell of a chunk.
#[derive(Clone, Copy, PartialEq, Eq, Structural, Debug)]
pub enum BlockType {
    Air,
    Solid,
}

/// Number of columns of a padded chunk.
pub const PADDED_COLUMNS: usize = 324;

/// The block that terrain puts at height `world_y` of a column whose surface is at
/// `surface`: air above the surface and in caves, solid otherwise.
pub open spec fn terrain_block(surface: int, world_y: int, cave: bool) -> BlockType {
    if world_y > surface {
        BlockType::Air
    } else if cave {
        BlockType::Air
    } else {
        BlockType::Solid
    }
}

/// Terrain noise sampled over one padded chunk: the surface height of every column
/// (padded `(x, z)` at `x * 18 + z`) and whether each padded cell lies in a cave.
pub struct TerrainSample {
    pub surface: Vec<i32>,
    pub cave: Vec<bool>,
}

impl TerrainSample {
    pub open spec fn wf(&self) -> bool {
        self.surface@.len() == PADDED_COLUMNS && self.cave@.len() == PADDED_VOLUME
    }

    /// The block that this sample puts in padded cell `(x, y, z)` of the chunk at chunk
    /// height `chunk_y`.
    pub open spec fn block_at(&self, chunk_y: int, x: int, y: int, z: int) -> BlockType {
        terrain_block(
            self.surface@[x * 18 + z] as int,
            padded_world_coord_spec(chunk_y, y),
            self.cave@[padded_index(x, y, z)],
        )
    }

    /// A sample with every surface at height 0 and no caves.
    pub fn new() -> (t: TerrainSample)
        ensures
            t.wf(),
            forall|i: int| 0 <= i < PADDED_COLUMNS ==> t.surface@[i] == 0,
            forall|i: int| 0 <= i < PADDED_VOLUME ==> !t.cave@[i],
    {
        let mut surface: Vec<i32> = Vec::new();
        let mut i: usize = 0;
        while i < PADDED_COLUMNS
            invariant
                i <= PADDED_COLUMNS,
                surface@.len() == i,
                forall|j: int| 0 <= j < i ==> surface@[j] == 0,
            decreases PADDED_COLUMNS - i,
        {
            surface.push(0);
            i = i + 1;
        }
        let mut cave: Vec<bool> = Vec::new();
        let mut i: usize = 0;
        while i < PADDED_VOLUME
            invariant
                i <= PADDED_VOLUME,
                cave@.len() == i,
                forall|j: int| 0 <= j < i ==> !cave@[j],
            decreases PADDED_VOLUME - i,
        {
            cave.push(false);
            i = i + 1;
        }
        TerrainSample { surface, cave }
    }

    /// Records the surface height of padded column `(x, z)`.
    pub fn set_surface(&mut self, x: usize, z: usize, height: i32)
        requires
            old(self).wf(),
            x < PADDED_SIZE,
            z < PADDED_SIZE,
        ensures
            final(self).wf(),
            final(self).surface@ == old(self).surface@.update(x * 18 + z, height),
            final(self).cave@ == old(self).cave@,
    {
        self.surface.set(x * PADDED_SIZE + z, height);
    }

    /// Records whether padded cell `(x, y, z)` lies in a cave.
    pub fn set_cave(&mut self, x: usize, y: usize, z: usize, cave: bool)
        requires
            old(self).wf(),
            x < PADDED_SIZE,
            y < PADDED_SIZE,
            z < PADDED_SIZE,
        ensures
            final(self).wf(),
            final(self).cave@ == old(self).cave@.update(padded_index(x as int, y as int, z as int), cave),
            final(self).surface@ == old(self).surface@,
    {
        self.cave.set((x * PADDED_SIZE + y) * PADDED_SIZE + z, cave);
    }

    /// Fills every padded cell of `chunk`, border included: air above the column's
    /// surface or in a cave, solid otherwise. The mesh and the mark are left as they are.
    pub fn generate_chunk(&self, chunk: &mut Chunk)
        requires
            self.wf(),
            old(chunk).wf(),
            pos_in_world(old(chunk).position),
        ensures
            final(chunk).wf(),
            forall|x: int, y: int, z: int|
                in_padded(x, y, z) ==> #[trigger] final(chunk).blocks@[padded_index(x, y, z)]
                    == self.block_at(old(chunk).position.y as int, x, y, z),
            final(chunk).position == old(chunk).position,
            final(chunk).vertices@ == old(chunk).vertices@,
            final(chunk).indices@ == old(chunk).indices@,
            final(chunk).dirty == old(chunk).dirty,
    {
        let cy = chunk.position.y;
        let mut x: usize = 0;
        while x < PADDED_SIZE
            invariant
                self.wf(),
                chunk.wf(),
                chunk.position == old(chunk).position,
                chunk.vertices@ == old(chunk).vertices@,
                chunk.indices@ == old(chunk).indices@,
                chunk.dirty == old(chunk).dirty,
                pos_in_world(chunk.position),
                cy == chunk.position.y,
                x <= PADDED_SIZE,
                forall|a: int, b: int, c: int|
                    in_padded(a, b, c) && a < x ==> #[trigger] chunk.blocks@[padded_index(a, b, c)]
                        == self.block_at(cy as int, a, b, c),
            decreases PADDED_SIZE - x,
        {
            let mut z: usize = 0;
            while z < PADDED_SIZE
                invariant
                    self.wf(),
                    chunk.wf(),
                    chunk.position == old(chunk).position,
                    chunk.vertices@ == old(chunk).vertices@,
                    chunk.indices@ == old(chunk).indices@,
                    chunk.dirty == old(chunk).dirty,
                    pos_in_world(chunk.position),
                    cy == chunk.position.y,
                    x < PADDED_SIZE,
                    z <= PADDED_SIZE,
                    forall|a: int, b: int, c: int|
                        in_padded(a, b, c) && (a < x || (a == x && c < z))
                            ==> #[trigger] chunk.blocks@[padded_index(a, b, c)] == self.block_at(
                            cy as int,
                            a,
                            b,
                            c,
                        ),
                decreases PADDED_SIZE - z,
            {
                let surface = self.surface[x * PADDED_SIZE + z];
                let mut y: usize = 0;
                while y < PADDED_SIZE
                    invariant
                        self.wf(),
                        chunk.wf(),
                        chunk.position == old(chunk).position,
                        chunk.vertices@ == old(chunk).vertices@,
                        chunk.indices@ == old(chunk).indices@,
                        chunk.dirty == old(chunk).dirty,
                        pos_in_world(chunk.position),
                        cy == chunk.position.y,
                        x < PADDED_SIZE,
                        z < PADDED_SIZE,
                        y <= PADDED_SIZE,
                        surface == self.surface@[x * 18 + z],
                        forall|a: int, b: int, c: int|
                            in_padded(a, b, c) && (a < x || (a == x && c < z) || (a == x && c == z
                                && b < y)) ==> #[trigger] chunk.blocks@[padded_index(a, b, c)]
                                == self.block_at(cy as int, a, b, c),
                    decreases PADDED_SIZE - y,
                {
                    let world_y = padded_world_coord(cy, y);
                    let i = (x * PADDED_SIZE + y) * PADDED_SIZE + z;
                    let block = if world_y > surface {
                        BlockType::Air
                    } else if self.cave[i] {
                        BlockType::Air
                    } else {
                        BlockType::Solid
                    };
                    let ghost before = chunk.blocks@;
                    chunk.blocks.set(i, block);
                    proof {
                        assert forall|a: int, b: int, c: int|
                            in_padded(a, b, c) && (a < x || (a == x && c < z) || (a == x && c == z
                                && b < y + 1)) implies #[trigger] chunk.blocks@[padded_index(a, b, c)]
                                == self.block_at(cy as int, a, b, c) by {
                            if a == x && b == y && c == z {
                            } else {
                                assert(padded_index(a, b, c) != i);
                                assert(chunk.blocks@[padded_index(a, b, c)] == before[padded_index(a, b, c)]);
                            }
                        }
                    }
                    y = y + 1;
                }
                z = z + 1;
            }
            x = x + 1;
        }
    }
}


/// Neighbouring chunks agree along their seam when their samples agree there: for chunks
/// at the same height, padded layer `x = 16` of the lower chunk and layer `x = 0` of the
/// upper one (the same world blocks) get the same block when the two samples hold the same
/// surface and cave values for them; likewise layer 17 and layer 1.
pub proof fn law_seam_agrees(a: TerrainSample, b: TerrainSample, chunk_y: int, y: int, z: int, k: int)
    requires
        a.wf(),
        b.wf(),
        0 <= y < 18,
        0 <= z < 18,
        0 <= k < 2,
        a.surface@[(16 + k) * 18 + z] == b.surface@[k * 18 + z],
        a.cave@[padded_index(16 + k, y, z)] == b.cave@[padded_index(k, y, z)],
    ensures
        a.block_at(chunk_y, 16 + k, y, z) == b.block_at(chunk_y, k, y, z),
{
}


/// The block of every padded cell, border included, depends only on its column's surface,
/// its world height and its cave flag: it is air exactly when the cell lies above the
/// surface or in a cave. So two cells, of any samples and chunks, with the same surface,
/// world height and cave flag get the same block.
pub proof fn law_terrain_block_depends_on_height_and_cave(
    a: TerrainSample,
    ay: int,
    ax: int,
    ayy: int,
    az: int,
    b: TerrainSample,
    by_: int,
    bx: int,
    byy: int,
    bz: int,
)
    requires
        a.wf(),
        b.wf(),
        in_padded(ax, ayy, az),
        in_padded(bx, byy, bz),
    ensures
        (a.block_at(ay, ax, ayy, az) == BlockType::Air) <==> (ay * 16 + ayy - 1 > a.surface@[ax * 18
            + az] || a.cave@[padded_index(ax, ayy, az)]),
        (a.surface@[ax * 18 + az] == b.surface@[bx * 18 + bz] && ay * 16 + ayy == by_ * 16 + byy
            && a.cave@[padded_index(ax, ayy, az)] == b.cave@[padded_index(bx, byy, bz)]) ==> a.block_at(
            ay,
            ax,
            ayy,
            az,
        ) == b.block_at(by_, bx, byy, bz),
{
}

} // verus!
