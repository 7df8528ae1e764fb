use vstd::prelude::*;

use crate::chunk::{
    chunk_mesh_indices, chunk_mesh_vertices, padded_index, pos_in_world, Chunk, ChunkPos,
    CHUNK_SIZE, MAX_CHUNK_COORD, MIN_CHUNK_COORD,
};
use crate::mesh::{indices_in_bounds, Vertex};
use crate::worldgen::BlockType;

verus! {

/// Radius, in chunks, of the cube of chunks kept loaded around the camera.
pub const RENDER_DISTANCE: i32 = 8;

/// Lowest chunk layer that is ever loaded.
pub const Y_DIST_MIN: i32 = -6;

/// Highest chunk layer that is ever loaded.
pub const Y_DIST_MAX: i32 = 6;

/// Extra distance, in chunks, beyond the render distance before a chunk is unloaded.
pub const UNLOAD_PADDING: i32 = 2;

/// A request to a chunk generation worker.
pub enum ChunkRequest {
    Load(ChunkPos),
}

/// A worker's answer: the generated and meshed chunk for a requested position.
pub enum ChunkResponse {
    Loaded(ChunkPos, Chunk),
}

/// A loaded chunk and the position it is stored under.
pub struct ChunkEntry {
    pub pos: ChunkPos,
    pub chunk: Chunk,
}

/// No position is stored twice.
pub open spec fn keys_unique(s: Seq<ChunkEntry>) -> bool {
    forall|i: int, j: int| 0 <= i < s.len() && 0 <= j < s.len() && i != j ==> s[i].pos != s[j].pos
}

pub open spec fn has_key(s: Seq<ChunkEntry>, p: ChunkPos) -> bool {
    exists|i: int| 0 <= i < s.len() && s[i].pos == p
}

/// The index at which `p` is stored (meaningful when `has_key(s, p)`).
pub open spec fn key_index(s: Seq<ChunkEntry>, p: ChunkPos) -> int {
    choose|i: int| 0 <= i < s.len() && s[i].pos == p
}

/// The entries after storing `c` under `p`: replaced in place, or appended.
pub open spec fn map_insert(s: Seq<ChunkEntry>, p: ChunkPos, c: Chunk) -> Seq<ChunkEntry> {
    if has_key(s, p) {
        s.update(key_index(s, p), ChunkEntry { pos: p, chunk: c })
    } else {
        s.push(ChunkEntry { pos: p, chunk: c })
    }
}

/// The entries after removing the one stored under `p`, if any.
pub open spec fn map_remove(s: Seq<ChunkEntry>, p: ChunkPos) -> Seq<ChunkEntry> {
    if has_key(s, p) {
        s.remove(key_index(s, p))
    } else {
        s
    }
}

pub proof fn lemma_key_index(s: Seq<ChunkEntry>, i: int)
    requires
        keys_unique(s),
        0 <= i < s.len(),
    ensures
        has_key(s, s[i].pos),
        key_index(s, s[i].pos) == i,
{
    let p = s[i].pos;
    assert(has_key(s, p));
    let j = key_index(s, p);
    assert(s[j].pos == p);
}

/// Chunks stored by position, in insertion order.
pub struct ChunkMap {
    entries: Vec<ChunkEntry>,
}

impl View for ChunkMap {
    type V = Seq<ChunkEntry>;

    closed spec fn view(&self) -> Seq<ChunkEntry> {
        self.entries@
    }
}

impl ChunkMap {
    pub open spec fn wf(&self) -> bool {
        &&& keys_unique(self@)
        &&& forall|i: int| 0 <= i < self@.len() ==> (#[trigger] self@[i]).chunk.wf()
    }

    pub fn new() -> (m: ChunkMap)
        ensures
            m.wf(),
            m@ == Seq::<ChunkEntry>::empty(),
    {
        ChunkMap { entries: Vec::new() }
    }

    pub fn len(&self) -> (n: usize)
        ensures
            n == self@.len(),
    {
        self.entries.len()
    }

    /// The index at which `pos` is stored.
    pub fn find(&self, pos: ChunkPos) -> (r: Option<usize>)
        requires
            self.wf(),
        ensures
            r matches Some(i) ==> i < self@.len() && self@[i as int].pos == pos && key_index(
                self@,
                pos,
            ) == i,
            r is None <==> !has_key(self@, pos),
    {
        let mut i: usize = 0;
        while i < self.entries.len()
            invariant
                self.wf(),
                i <= self.entries@.len(),
                forall|j: int| 0 <= j < i ==> self.entries@[j].pos != pos,
            decreases self.entries@.len() - i,
        {
            if self.entries[i].pos == pos {
                proof {
                    lemma_key_index(self@, i as int);
                }
                return Some(i);
            }
            i = i + 1;
        }
        None
    }

    pub fn contains_key(&self, pos: ChunkPos) -> (b: bool)
        requires
            self.wf(),
        ensures
            b == has_key(self@, pos),
    {
        self.find(pos).is_some()
    }

    /// The chunk stored under `pos`.
    pub fn get(&self, pos: ChunkPos) -> (r: Option<&Chunk>)
        requires
            self.wf(),
        ensures
            r matches Some(c) ==> has_key(self@, pos) && *c == self@[key_index(self@, pos)].chunk,
            r is None <==> !has_key(self@, pos),
    {
        match self.find(pos) {
            Some(i) => Some(&self.entries[i].chunk),
            None => None,
        }
    }

    /// Stores `chunk` under `pos`, replacing the chunk stored there before.
    pub fn insert(&mut self, pos: ChunkPos, chunk: Chunk)
        requires
            old(self).wf(),
            chunk.wf(),
        ensures
            final(self).wf(),
            final(self)@ == map_insert(old(self)@, pos, chunk),
    {
        match self.find(pos) {
            Some(i) => {
                self.entries.set(i, ChunkEntry { pos, chunk });
            },
            None => {
                self.entries.push(ChunkEntry { pos, chunk });
            },
        }
    }

    /// Removes and returns the chunk stored under `pos`.
    pub fn remove(&mut self, pos: ChunkPos) -> (r: Option<Chunk>)
        requires
            old(self).wf(),
        ensures
            final(self).wf(),
            final(self)@ == map_remove(old(self)@, pos),
            r matches Some(c) ==> has_key(old(self)@, pos) && c == old(self)@[key_index(
                old(self)@,
                pos,
            )].chunk,
            r is None <==> !has_key(old(self)@, pos),
    {
        match self.find(pos) {
            Some(i) => {
                let e = self.entries.remove(i);
                proof {
                    let s = old(self)@;
                    let t = self@;
                    assert forall|a: int, b: int|
                        0 <= a < t.len() && 0 <= b < t.len() && a != b implies t[a].pos
                        != t[b].pos by {
                        let a2 = if a < i { a } else { a + 1 };
                        let b2 = if b < i { b } else { b + 1 };
                        assert(t[a] == s[a2]);
                        assert(t[b] == s[b2]);
                    }
                    assert forall|a: int| 0 <= a < t.len() implies (#[trigger] t[a]).chunk.wf() by {
                        let a2 = if a < i { a } else { a + 1 };
                        assert(t[a] == s[a2]);
                    }
                }
                Some(e.chunk)
            },
            None => None,
        }
    }
}

impl Chunk {
    /// The block at chunk coordinates `(x, y, z)`, which lives in padded cell
    /// `(x + 1, y + 1, z + 1)` (the cell `set_block` writes). Inside `0..16` on every axis it
    /// is read from this chunk; otherwise from the adjacent chunk in `chunks` (one step per
    /// axis that lies outside), at the coordinates shifted by 16, or it is air if that
    /// chunk is not loaded.
    pub fn get_block(&self, x: i32, y: i32, z: i32, chunks: &ChunkMap) -> (b: BlockType)
        requires
            self.wf(),
            chunks.wf(),
            x < 0 ==> self.position.x > i32::MIN,
            x >= CHUNK_SIZE ==> self.position.x < i32::MAX,
            y < 0 ==> self.position.y > i32::MIN,
            y >= CHUNK_SIZE ==> self.position.y < i32::MAX,
            z < 0 ==> self.position.z > i32::MIN,
            z >= CHUNK_SIZE ==> self.position.z < i32::MAX,
            !in_chunk(x as int, y as int, z as int) && has_key(
                chunks@,
                neighbor_target(self.position, x as int, y as int, z as int),
            ) ==> {
                &&& -CHUNK_SIZE - 1 <= x < 2 * CHUNK_SIZE + 1
                &&& -CHUNK_SIZE - 1 <= y < 2 * CHUNK_SIZE + 1
                &&& -CHUNK_SIZE - 1 <= z < 2 * CHUNK_SIZE + 1
            },
        ensures
            b == get_block_spec(*self, x as int, y as int, z as int, chunks@),
    {
        if x >= 0 && x < CHUNK_SIZE && y >= 0 && y < CHUNK_SIZE && z >= 0 && z < CHUNK_SIZE {
            // Offset for padding
            return self.blocks[(((x + 1) as usize) * 18 + ((y + 1) as usize)) * 18 + ((z + 1) as usize)];
        }
        let mut target = self.position;
        let mut lx = x;
        let mut ly = y;
        let mut lz = z;

        if lx < 0 {
            target.x = target.x - 1;
            lx = lx + CHUNK_SIZE;
        } else if lx >= CHUNK_SIZE {
            target.x = target.x + 1;
            lx = lx - CHUNK_SIZE;
        }
        if ly < 0 {
            target.y = target.y - 1;
            ly = ly + CHUNK_SIZE;
        } else if ly >= CHUNK_SIZE {
            target.y = target.y + 1;
            ly = ly - CHUNK_SIZE;
        }
        if lz < 0 {
            target.z = target.z - 1;
            lz = lz + CHUNK_SIZE;
        } else if lz >= CHUNK_SIZE {
            target.z = target.z + 1;
            lz = lz - CHUNK_SIZE;
        }
        assert(target == neighbor_target(self.position, x as int, y as int, z as int));
        match chunks.get(target) {
            Some(neighbor) => {
                proof {
                    assert(chunks@[key_index(chunks@, target)].chunk.wf());
                }
                neighbor.blocks[(((lx + 1) as usize) * 18 + ((ly + 1) as usize)) * 18 + ((lz + 1) as usize)]
            },
            None => BlockType::Air,
        }
    }
}

/// Whether chunk coordinates `(x, y, z)` lie inside the chunk proper.
pub open spec fn in_chunk(x: int, y: int, z: int) -> bool {
    0 <= x < 16 && 0 <= y < 16 && 0 <= z < 16
}

/// The chunk coordinate step and local coordinate of block coordinate `v` relative to a chunk.
pub open spec fn split_coord(v: int) -> (int, int) {
    if v < 0 {
        (-1, v + 16)
    } else if v >= 16 {
        (1, v - 16)
    } else {
        (0, v)
    }
}

/// The chunk adjacent to the chunk at `pos` that block `(x, y, z)` falls into.
pub open spec fn neighbor_target(pos: ChunkPos, x: int, y: int, z: int) -> ChunkPos {
    ChunkPos {
        x: (pos.x + split_coord(x).0) as i32,
        y: (pos.y + split_coord(y).0) as i32,
        z: (pos.z + split_coord(z).0) as i32,
    }
}

pub open spec fn get_block_spec(c: Chunk, x: int, y: int, z: int, chunks: Seq<ChunkEntry>) -> BlockType {
    if in_chunk(x, y, z) {
        c.blocks@[padded_index(x + 1, y + 1, z + 1)]
    } else {
        let target = neighbor_target(c.position, x, y, z);
        if has_key(chunks, target) {
            chunks[key_index(chunks, target)].chunk.blocks@[padded_index(
                split_coord(x).1 + 1,
                split_coord(y).1 + 1,
                split_coord(z).1 + 1,
            )]
        } else {
            BlockType::Air
        }
    }
}

/// A block written with `set_block` reads back through `get_block`: `set_block` stores
/// chunk block `(x, y, z)` at padded cell `(x + 1, y + 1, z + 1)`, where `get_block` reads it.
pub proof fn law_set_block_then_get_block(
    before: Chunk,
    after: Chunk,
    x: int,
    y: int,
    z: int,
    b: BlockType,
    chunks: Seq<ChunkEntry>,
)
    requires
        before.wf(),
        in_chunk(x, y, z),
        after.blocks@ == before.blocks@.update(padded_index(x + 1, y + 1, z + 1), b),
    ensures
        get_block_spec(after, x, y, z, chunks) == b,
{
}

/// Whether `p` lies in one of the layers that are ever loaded.
pub open spec fn in_layers(p: ChunkPos) -> bool {
    Y_DIST_MIN <= p.y <= Y_DIST_MAX
}

/// Whether `p` lies in the cube of chunks to load around the camera chunk `cam`:
/// within the render distance on every axis, and within the loaded layers.
pub open spec fn in_load_range(cam: ChunkPos, p: ChunkPos) -> bool {
    &&& -RENDER_DISTANCE <= p.x - cam.x <= RENDER_DISTANCE
    &&& -RENDER_DISTANCE <= p.y - cam.y <= RENDER_DISTANCE
    &&& -RENDER_DISTANCE <= p.z - cam.z <= RENDER_DISTANCE
    &&& Y_DIST_MIN <= p.y <= Y_DIST_MAX
}

/// The order in which load requests are issued: by `x`, then `z`, then `y`.
pub open spec fn load_before(a: ChunkPos, b: ChunkPos) -> bool {
    ||| a.x < b.x
    ||| (a.x == b.x && a.z < b.z)
    ||| (a.x == b.x && a.z == b.z && a.y < b.y)
}

/// A camera chunk around which every column of the load cube lies inside the world.
/// The height is free: only layers `Y_DIST_MIN..=Y_DIST_MAX` are ever loaded.
pub open spec fn cam_in_range(cam: ChunkPos) -> bool {
    &&& MIN_CHUNK_COORD + RENDER_DISTANCE <= cam.x <= MAX_CHUNK_COORD - RENDER_DISTANCE
    &&& MIN_CHUNK_COORD + RENDER_DISTANCE <= cam.z <= MAX_CHUNK_COORD - RENDER_DISTANCE
}

/// Whether the camera chunk `cam` is one that the world can stream chunks around.
pub fn camera_in_range(cam: ChunkPos) -> (b: bool)
    ensures
        b == cam_in_range(cam),
{
    let lo = MIN_CHUNK_COORD + RENDER_DISTANCE;
    let hi = MAX_CHUNK_COORD - RENDER_DISTANCE;
    lo <= cam.x && cam.x <= hi && lo <= cam.z && cam.z <= hi
}

/// Whether `v` holds `p`.
fn list_contains(v: &Vec<ChunkPos>, p: ChunkPos) -> (b: bool)
    ensures
        b == v@.contains(p),
{
    let mut i: usize = 0;
    while i < v.len()
        invariant
            i <= v@.len(),
            forall|j: int| 0 <= j < i ==> v@[j] != p,
        decreases v@.len() - i,
    {
        if v[i] == p {
            return true;
        }
        i = i + 1;
    }
    false
}


/// Whether `p` lies farther than the render distance plus the unload padding from
/// the camera chunk `cam` on some axis.
pub open spec fn far_from(cam: ChunkPos, p: ChunkPos) -> bool {
    let m = RENDER_DISTANCE + UNLOAD_PADDING;
    ||| p.x - cam.x > m
    ||| p.x - cam.x < -m
    ||| p.z - cam.z > m
    ||| p.z - cam.z < -m
    ||| p.y - cam.y > m
    ||| p.y - cam.y < -m
}

/// Whether `a` and `p` share a face: they differ by one along exactly one axis.
pub open spec fn touching(a: ChunkPos, p: ChunkPos) -> bool {
    let dx = a.x - p.x;
    let dy = a.y - p.y;
    let dz = a.z - p.z;
    ||| ((dx == 1 || dx == -1) && dy == 0 && dz == 0)
    ||| (dx == 0 && (dy == 1 || dy == -1) && dz == 0)
    ||| (dx == 0 && dy == 0 && (dz == 1 || dz == -1))
}

/// Whether a chunk of `s` that is far from `cam` shares a face with `p`.
pub open spec fn touches_far(s: Seq<ChunkEntry>, cam: ChunkPos, p: ChunkPos) -> bool {
    exists|i: int| 0 <= i < s.len() && far_from(cam, s[i].pos) && touching(s[i].pos, p)
}

/// `e` with its chunk's mark set to `d`.
pub open spec fn with_dirty(e: ChunkEntry, d: bool) -> ChunkEntry {
    ChunkEntry {
        pos: e.pos,
        chunk: Chunk {
            blocks: e.chunk.blocks,
            position: e.chunk.position,
            vertices: e.chunk.vertices,
            indices: e.chunk.indices,
            dirty: d,
        },
    }
}

/// What unloading around `cam` leaves of the first `n` entries of `s`: the chunks that
/// are not far, in order, each also marked when a far chunk of `s` shares a face with it.
pub open spec fn unload_prefix(s: Seq<ChunkEntry>, cam: ChunkPos, n: int) -> Seq<ChunkEntry>
    decreases n,
{
    if n <= 0 {
        seq![]
    } else {
        let rest = unload_prefix(s, cam, n - 1);
        let e = s[n - 1];
        if far_from(cam, e.pos) {
            rest
        } else {
            rest.push(with_dirty(e, e.chunk.dirty || touches_far(s, cam, e.pos)))
        }
    }
}

/// The loaded chunks after unloading the chunks far from `cam`.
pub open spec fn after_unload(s: Seq<ChunkEntry>, cam: ChunkPos) -> Seq<ChunkEntry> {
    unload_prefix(s, cam, s.len() as int)
}

pub proof fn lemma_unload_prefix(s: Seq<ChunkEntry>, cam: ChunkPos, n: int)
    requires
        0 <= n <= s.len(),
    ensures
        unload_prefix(s, cam, n).len() <= n,
        forall|i: int|
            0 <= i < unload_prefix(s, cam, n).len() ==> exists|j: int|
                0 <= j < n && !far_from(cam, s[j].pos) && #[trigger] unload_prefix(s, cam, n)[i]
                    == with_dirty(s[j], s[j].chunk.dirty || touches_far(s, cam, s[j].pos)),
        forall|j: int|
            0 <= j < n && !far_from(cam, s[j].pos) ==> #[trigger] has_key(
                unload_prefix(s, cam, n),
                s[j].pos,
            ),
        keys_unique(s) ==> keys_unique(unload_prefix(s, cam, n)),
    decreases n,
{
    if n > 0 {
        lemma_unload_prefix(s, cam, n - 1);
        let rest = unload_prefix(s, cam, n - 1);
        let r = unload_prefix(s, cam, n);
        let e = s[n - 1];
        if !far_from(cam, e.pos) {
            let ne = with_dirty(e, e.chunk.dirty || touches_far(s, cam, e.pos));
            assert(r == rest.push(ne));
            assert forall|i: int| 0 <= i < r.len() implies exists|j: int|
                0 <= j < n && !far_from(cam, s[j].pos) && #[trigger] r[i] == with_dirty(
                    s[j],
                    s[j].chunk.dirty || touches_far(s, cam, s[j].pos),
                ) by {
                if i < rest.len() {
                    assert(r[i] == rest[i]);
                } else {
                    assert(r[i] == ne);
                }
            }
            assert forall|j: int| 0 <= j < n && !far_from(cam, s[j].pos) implies #[trigger] has_key(
                r,
                s[j].pos,
            ) by {
                if j < n - 1 {
                    assert(has_key(rest, s[j].pos));
                    let k = choose|k: int| 0 <= k < rest.len() && rest[k].pos == s[j].pos;
                    assert(r[k] == rest[k]);
                } else {
                    assert(r[rest.len() as int] == ne);
                }
            }
            if keys_unique(s) {
                assert forall|a: int, b: int|
                    0 <= a < r.len() && 0 <= b < r.len() && a != b implies r[a].pos != r[b].pos by {
                    if a < rest.len() && b < rest.len() {
                        assert(r[a] == rest[a]);
                        assert(r[b] == rest[b]);
                    } else if a < rest.len() {
                        assert(r[a] == rest[a]);
                        let j = choose|j: int|
                            0 <= j < n - 1 && !far_from(cam, s[j].pos) && #[trigger] rest[a]
                                == with_dirty(s[j], s[j].chunk.dirty || touches_far(s, cam, s[j].pos));
                        assert(r[b] == ne);
                    } else if b < rest.len() {
                        assert(r[b] == rest[b]);
                        let j = choose|j: int|
                            0 <= j < n - 1 && !far_from(cam, s[j].pos) && #[trigger] rest[b]
                                == with_dirty(s[j], s[j].chunk.dirty || touches_far(s, cam, s[j].pos));
                        assert(r[a] == ne);
                    }
                }
            }
        } else {
            assert forall|j: int| 0 <= j < n && !far_from(cam, s[j].pos) implies #[trigger] has_key(
                r,
                s[j].pos,
            ) by {
                assert(j < n - 1);
            }
            assert forall|i: int| 0 <= i < r.len() implies exists|j: int|
                0 <= j < n && !far_from(cam, s[j].pos) && #[trigger] r[i] == with_dirty(
                    s[j],
                    s[j].chunk.dirty || touches_far(s, cam, s[j].pos),
                ) by {
                let j = choose|j: int|
                    0 <= j < n - 1 && !far_from(cam, s[j].pos) && #[trigger] rest[i] == with_dirty(
                        s[j],
                        s[j].chunk.dirty || touches_far(s, cam, s[j].pos),
                    );
            }
        }
    }
}


/// `new` is `old` after rebuilding its chunk's mesh when it was marked, and unchanged otherwise.
pub open spec fn rebuilt_entry(old: ChunkEntry, new: ChunkEntry) -> bool {
    if old.chunk.dirty {
        &&& new.pos == old.pos
        &&& new.chunk.blocks@ == old.chunk.blocks@
        &&& new.chunk.position == old.chunk.position
        &&& new.chunk.vertices@ == chunk_mesh_vertices(old.chunk.position, old.chunk.blocks@)
        &&& new.chunk.indices@ == chunk_mesh_indices(old.chunk.blocks@)
        &&& !new.chunk.dirty
    } else {
        new == old
    }
}


/// The vertices of all loaded chunks' meshes, concatenated in load order.
pub open spec fn super_vertices(s: Seq<ChunkEntry>) -> Seq<Vertex>
    decreases s.len(),
{
    if s.len() == 0 {
        seq![]
    } else {
        super_vertices(s.drop_last()) + s.last().chunk.vertices@
    }
}

/// `ind` with `off` added to every index.
pub open spec fn shifted(ind: Seq<u32>, off: int) -> Seq<u32> {
    ind.map_values(|i: u32| (i + off) as u32)
}

/// The indices of all loaded chunks' meshes, concatenated in load order, each chunk's
/// indices shifted by the number of vertices before its own.
pub open spec fn super_indices(s: Seq<ChunkEntry>) -> Seq<u32>
    decreases s.len(),
{
    if s.len() == 0 {
        seq![]
    } else {
        super_indices(s.drop_last()) + shifted(
            s.last().chunk.indices@,
            super_vertices(s.drop_last()).len() as int,
        )
    }
}

/// Every vertex offset and every shifted index of the combined mesh fits in `u32`.
pub open spec fn super_mesh_fits(s: Seq<ChunkEntry>) -> bool
    decreases s.len(),
{
    if s.len() == 0 {
        true
    } else {
        let off = super_vertices(s.drop_last()).len();
        &&& super_mesh_fits(s.drop_last())
        &&& off <= u32::MAX
        &&& forall|j: int|
            0 <= j < s.last().chunk.indices@.len() ==> (#[trigger] s.last().chunk.indices@[j]) + off
                <= u32::MAX
    }
}

/// The mesh of every loaded chunk combined into one vertex and index buffer.
pub struct SuperMesh {
    pub vertices: Vec<Vertex>,
    pub indices: Vec<u32>,
    /// Number of indices to draw.
    pub num_indices: u32,
}

pub proof fn lemma_super_vertices_take(s: Seq<ChunkEntry>, k: int)
    requires
        0 <= k < s.len(),
    ensures
        super_vertices(s.take(k + 1)) == super_vertices(s.take(k)) + s[k].chunk.vertices@,
        super_indices(s.take(k + 1)) == super_indices(s.take(k)) + shifted(
            s[k].chunk.indices@,
            super_vertices(s.take(k)).len() as int,
        ),
        super_mesh_fits(s.take(k + 1)) == (super_mesh_fits(s.take(k)) && super_vertices(s.take(k)).len()
            <= u32::MAX && forall|j: int|
            0 <= j < s[k].chunk.indices@.len() ==> (#[trigger] s[k].chunk.indices@[j])
                + super_vertices(s.take(k)).len() <= u32::MAX),
{
    assert(s.take(k + 1).drop_last() =~= s.take(k));
    assert(s.take(k + 1).last() == s[k]);
}

/// When every chunk's mesh is well formed and all vertices together fit in `u32`
/// indices, the combined mesh fits and is well formed.
pub proof fn law_super_mesh_well_formed(s: Seq<ChunkEntry>)
    requires
        forall|i: int|
            0 <= i < s.len() ==> indices_in_bounds(
                (#[trigger] s[i]).chunk.indices@,
                s[i].chunk.vertices@.len() as int,
            ),
        super_vertices(s).len() <= u32::MAX,
    ensures
        super_mesh_fits(s),
        indices_in_bounds(super_indices(s), super_vertices(s).len() as int),
    decreases s.len(),
{
    if s.len() > 0 {
        let r = s.drop_last();
        assert forall|i: int|
            0 <= i < r.len() implies indices_in_bounds(
                (#[trigger] r[i]).chunk.indices@,
                r[i].chunk.vertices@.len() as int,
            ) by {
            assert(r[i] == s[i]);
        }
        lemma_super_vertices_len_mono(s);
        law_super_mesh_well_formed(r);
        let last = s.last();
        assert(indices_in_bounds(last.chunk.indices@, last.chunk.vertices@.len() as int));
        let off = super_vertices(r).len();
        let si = super_indices(s);
        assert forall|j: int| 0 <= j < si.len() implies (#[trigger] si[j]) < super_vertices(s).len() by {
            if j < super_indices(r).len() {
                assert(si[j] == super_indices(r)[j]);
            } else {
                let t = j - super_indices(r).len();
                assert(si[j] == shifted(last.chunk.indices@, off as int)[t]);
                assert(last.chunk.indices@[t] < last.chunk.vertices@.len());
            }
        }
    }
}

pub proof fn lemma_super_vertices_len_mono(s: Seq<ChunkEntry>)
    requires
        s.len() > 0,
    ensures
        super_vertices(s.drop_last()).len() + s.last().chunk.vertices@.len() == super_vertices(s).len(),
{
}


pub proof fn lemma_super_mesh_fits_prefix(s: Seq<ChunkEntry>, k: int)
    requires
        0 <= k <= s.len(),
    ensures
        super_mesh_fits(s) ==> forall|m: int| 0 <= m <= k ==> #[trigger] super_mesh_fits(s.take(m)),
        !super_mesh_fits(s.take(k)) ==> !super_mesh_fits(s),
    decreases s.len() - k,
{
    if k < s.len() {
        lemma_super_mesh_fits_prefix(s, k + 1);
        lemma_super_vertices_take(s, k);
    } else {
        assert(s.take(k) =~= s);
    }
    if super_mesh_fits(s) {
        assert forall|m: int| 0 <= m <= k implies #[trigger] super_mesh_fits(s.take(m)) by {
            lemma_fits_down(s, m, k);
        }
    }
}

proof fn lemma_fits_down(s: Seq<ChunkEntry>, m: int, k: int)
    requires
        0 <= m <= k <= s.len(),
        super_mesh_fits(s),
    ensures
        super_mesh_fits(s.take(m)),
    decreases s.len() - m,
{
    if m < s.len() {
        lemma_fits_down(s, m + 1, if k > m + 1 { k } else { m + 1 });
        lemma_super_vertices_take(s, m);
    } else {
        assert(s.take(m) =~= s);
    }
}

/// The elements of `v`, last first.
fn reverse_vec<T>(v: Vec<T>) -> (r: Vec<T>)
    ensures
        r@.len() == v@.len(),
        forall|i: int| 0 <= i < v@.len() ==> r@[i] == v@[v@.len() - 1 - i],
{
    let ghost orig = v@;
    let mut v = v;
    let mut r: Vec<T> = Vec::new();
    while v.len() > 0
        invariant
            r@.len() + v@.len() == orig.len(),
            forall|j: int| 0 <= j < v@.len() ==> v@[j] == orig[j],
            forall|i: int| 0 <= i < r@.len() ==> r@[i] == orig[orig.len() - 1 - i],
        decreases v@.len(),
    {
        let x = v.pop().unwrap();
        r.push(x);
    }
    r
}

/// The loaded chunks and the chunks whose generation has been requested.
pub struct World {
    chunks: ChunkMap,
    pending: Vec<ChunkPos>,
}

impl World {
    /// The loaded chunks, in load order.
    pub closed spec fn loaded(&self) -> Seq<ChunkEntry> {
        self.chunks@
    }

    /// The positions whose chunks have been requested and not yet received.
    pub closed spec fn pending(&self) -> Seq<ChunkPos> {
        self.pending@
    }

    pub open spec fn wf(&self) -> bool {
        &&& keys_unique(self.loaded())
        &&& forall|i: int|
            0 <= i < self.loaded().len() ==> {
                &&& (#[trigger] self.loaded()[i]).chunk.wf()
                &&& pos_in_world(self.loaded()[i].pos)
                &&& pos_in_world(self.loaded()[i].chunk.position)
            }
        &&& self.pending().no_duplicates()
        &&& forall|i: int|
            0 <= i < self.pending().len() ==> pos_in_world(#[trigger] self.pending()[i])
                && !has_key(self.loaded(), self.pending()[i])
    }

    /// The store as the streaming keeps it: well formed, every chunk stored under its own
    /// position, and every loaded or pending position in the loaded layers.
    pub open spec fn consistent(&self) -> bool {
        &&& self.wf()
        &&& forall|i: int|
            0 <= i < self.loaded().len() ==> (#[trigger] self.loaded()[i]).chunk.position
                == self.loaded()[i].pos && in_layers(self.loaded()[i].pos)
        &&& forall|i: int| 0 <= i < self.pending().len() ==> in_layers(#[trigger] self.pending()[i])
    }

    proof fn lemma_map_wf(&self)
        requires
            self.wf(),
        ensures
            self.chunks.wf(),
    {
        assert forall|i: int| 0 <= i < self.chunks@.len() implies (#[trigger] self.chunks@[i]).chunk.wf() by {
            assert(self.loaded()[i].chunk.wf());
        }
    }

    /// A world with no chunks loaded or requested.
    pub fn new() -> (w: World)
        ensures
            w.wf(),
            w.consistent(),
            w.loaded() == Seq::<ChunkEntry>::empty(),
            w.pending() == Seq::<ChunkPos>::empty(),
    {
        World { chunks: ChunkMap::new(), pending: Vec::new() }
    }

    pub fn chunk_count(&self) -> (n: usize)
        ensures
            n == self.loaded().len(),
    {
        self.chunks.len()
    }

    pub fn is_loaded(&self, pos: ChunkPos) -> (b: bool)
        requires
            self.wf(),
        ensures
            b == has_key(self.loaded(), pos),
    {
        proof {
            self.lemma_map_wf();
        }
        self.chunks.contains_key(pos)
    }

    pub fn is_pending(&self, pos: ChunkPos) -> (b: bool)
        ensures
            b == self.pending().contains(pos),
    {
        list_contains(&self.pending, pos)
    }

    /// The loaded chunks.
    pub fn chunks(&self) -> (m: &ChunkMap)
        ensures
            m@ == self.loaded(),
    {
        &self.chunks
    }

    /// Marks every chunk of the load cube around `cam` that is neither loaded nor
    /// pending as pending, and returns those positions in request order.
    pub fn request_chunks(&mut self, cam: ChunkPos) -> (requested: Vec<ChunkPos>)
        requires
            old(self).wf(),
            cam_in_range(cam),
        ensures
            final(self).wf(),
            final(self).loaded() == old(self).loaded(),
            final(self).pending() == old(self).pending() + requested@,
            old(self).consistent() ==> final(self).consistent(),
            forall|p: ChunkPos|
                requested@.contains(p) <==> wanted(old(self).loaded(), old(self).pending(), cam, p),
            forall|i: int, j: int|
                0 <= i < j < requested@.len() ==> load_before(requested@[i], requested@[j]),
    {
        proof {
            self.lemma_map_wf();
        }
        let ghost old_pending = self.pending@;
        let ghost loaded = self.chunks@;
        let mut requested: Vec<ChunkPos> = Vec::new();
        let radius = RENDER_DISTANCE;
        let mut x: i32 = -radius;
        while x <= radius
            invariant
                self.wf(),
                self.chunks@ == loaded,
                self.pending@ == old_pending + requested@,
                cam_in_range(cam),
                radius == RENDER_DISTANCE,
                -radius <= x <= radius + 1,
                forall|p: ChunkPos|
                    requested@.contains(p) <==> (in_load_range(cam, p) && p.x - cam.x < x
                        && !has_key(loaded, p) && !old_pending.contains(p)),
                forall|i: int, j: int|
                    0 <= i < j < requested@.len() ==> load_before(requested@[i], requested@[j]),
                forall|i: int| 0 <= i < requested@.len() ==> requested@[i].x - cam.x < x,
            decreases radius + 1 - x,
        {
            let mut z: i32 = -radius;
            while z <= radius
                invariant
                    self.wf(),
                    self.chunks@ == loaded,
                    self.pending@ == old_pending + requested@,
                    cam_in_range(cam),
                    radius == RENDER_DISTANCE,
                    -radius <= x <= radius,
                    -radius <= z <= radius + 1,
                    forall|p: ChunkPos|
                        requested@.contains(p) <==> (in_load_range(cam, p) && (p.x - cam.x < x
                            || (p.x - cam.x == x && p.z - cam.z < z)) && !has_key(loaded, p)
                            && !old_pending.contains(p)),
                    forall|i: int, j: int|
                        0 <= i < j < requested@.len() ==> load_before(requested@[i], requested@[j]),
                    forall|i: int|
                        0 <= i < requested@.len() ==> (requested@[i].x - cam.x < x || (
                        requested@[i].x - cam.x == x && requested@[i].z - cam.z < z)),
                decreases radius + 1 - z,
            {
                let mut y: i32 = -radius;
                while y <= radius
                    invariant
                        self.wf(),
                        self.chunks@ == loaded,
                        self.pending@ == old_pending + requested@,
                        cam_in_range(cam),
                        radius == RENDER_DISTANCE,
                        -radius <= x <= radius,
                        -radius <= z <= radius,
                        -radius <= y <= radius + 1,
                        forall|p: ChunkPos|
                            requested@.contains(p) <==> (in_load_range(cam, p) && (p.x - cam.x < x
                                || (p.x - cam.x == x && p.z - cam.z < z) || (p.x - cam.x == x
                                && p.z - cam.z == z && p.y - cam.y < y)) && !has_key(loaded, p)
                                && !old_pending.contains(p)),
                        forall|i: int, j: int|
                            0 <= i < j < requested@.len() ==> load_before(
                                requested@[i],
                                requested@[j],
                            ),
                        forall|i: int|
                            0 <= i < requested@.len() ==> (requested@[i].x - cam.x < x || (
                            requested@[i].x - cam.x == x && requested@[i].z - cam.z < z) || (
                            requested@[i].x - cam.x == x && requested@[i].z - cam.z == z
                                && requested@[i].y - cam.y < y)),
                    decreases radius + 1 - y,
                {
                    let py = cam.y as i64 + y as i64;
                    if py < Y_DIST_MIN as i64 || py > Y_DIST_MAX as i64 {
                    } else {
                    let pos = ChunkPos { x: cam.x + x, y: py as i32, z: cam.z + z };
                    if self.chunks.contains_key(pos) || list_contains(&self.pending, pos) {
                        proof {
                            if !has_key(loaded, pos) {
                                assert(self.pending@.contains(pos));
                                let k = choose|k: int| 0 <= k < self.pending@.len() && self.pending@[k] == pos;
                                if k >= old_pending.len() {
                                    assert(requested@[k - old_pending.len()] == pos);
                                    assert(false);
                                } else {
                                    assert(old_pending[k] == pos);
                                }
                            }
                        }
                    } else {
                        proof {
                            assert(!old_pending.contains(pos)) by {
                                if old_pending.contains(pos) {
                                    let k = choose|k: int| 0 <= k < old_pending.len() && old_pending[k] == pos;
                                    assert(self.pending@[k] == pos);
                                }
                            }
                        }
                        let ghost prev = requested@;
                        self.pending.push(pos);
                        requested.push(pos);
                        proof {
                            assert(self.pending@ =~= old_pending + requested@);
                            assert forall|p: ChunkPos|
                                requested@.contains(p) <==> (in_load_range(cam, p) && (p.x - cam.x < x
                                    || (p.x - cam.x == x && p.z - cam.z < z) || (p.x - cam.x == x
                                    && p.z - cam.z == z && p.y - cam.y < y + 1)) && !has_key(loaded, p)
                                    && !old_pending.contains(p)) by {
                                if requested@.contains(p) {
                                    let k = choose|k: int| 0 <= k < requested@.len() && requested@[k] == p;
                                    if k < prev.len() {
                                        assert(prev[k] == p);
                                        assert(prev.contains(p));
                                    }
                                }
                                if p != pos && in_load_range(cam, p) && (p.x - cam.x < x
                                    || (p.x - cam.x == x && p.z - cam.z < z) || (p.x - cam.x == x
                                    && p.z - cam.z == z && p.y - cam.y < y + 1)) && !has_key(loaded, p)
                                    && !old_pending.contains(p) {
                                    assert(prev.contains(p));
                                    let k = choose|k: int| 0 <= k < prev.len() && prev[k] == p;
                                    assert(requested@[k] == p);
                                }
                                if p == pos {
                                    assert(requested@[requested@.len() - 1] == p);
                                }
                            }
                        }
                    }
                    }
                    y = y + 1;
                }
                z = z + 1;
            }
            x = x + 1;
        }
        proof {
            assert forall|i: int| 0 <= i < self.pending@.len() && !(i < old_pending.len())
                implies in_layers(#[trigger] self.pending@[i]) by {
                assert(self.pending@[i] == requested@[i - old_pending.len()]);
                assert(requested@.contains(requested@[i - old_pending.len()]));
            }
            assert forall|i: int| 0 <= i < old_pending.len() implies self.pending@[i] == old_pending[i] by {}
        }
        requested
    }

    /// Unloads every chunk far from the camera chunk `cam` (beyond the render distance
    /// plus the unload padding on some axis), marks for meshing the loaded chunks that
    /// shared a face with an unloaded one, and reports whether any chunk was unloaded.
    pub fn unload_far(&mut self, cam: ChunkPos) -> (unloaded: bool)
        requires
            old(self).wf(),
        ensures
            final(self).wf(),
            final(self).loaded() == after_unload(old(self).loaded(), cam),
            final(self).pending() == old(self).pending(),
            old(self).consistent() ==> final(self).consistent(),
            unloaded == exists|i: int|
                0 <= i < old(self).loaded().len() && far_from(cam, #[trigger] old(self).loaded()[i].pos),
    {
        let ghost all = self.chunks@;
        let ghost old_pending = self.pending@;
        let max_dist = (RENDER_DISTANCE + UNLOAD_PADDING) as i64;
        let n = self.chunks.entries.len();

        // Identify chunks outside view distance
        let mut far_keys: Vec<ChunkPos> = Vec::new();
        let mut i: usize = 0;
        while i < n
            invariant
                self.wf(),
                self.chunks@ == all,
                n == all.len(),
                i <= n,
                max_dist == RENDER_DISTANCE + UNLOAD_PADDING,
                forall|q: ChunkPos|
                    far_keys@.contains(q) <==> exists|j: int|
                        0 <= j < i && all[j].pos == q && far_from(cam, q),
            decreases n - i,
        {
            let p = self.chunks.entries[i].pos;
            assert(self.loaded()[i as int].pos == p);
            let dx = p.x as i64 - cam.x as i64;
            let dy = p.y as i64 - cam.y as i64;
            let dz = p.z as i64 - cam.z as i64;
            if dx > max_dist || dx < -max_dist || dz > max_dist || dz < -max_dist || dy > max_dist
                || dy < -max_dist {
                let ghost prev = far_keys@;
                far_keys.push(p);
                proof {
                    assert forall|q: ChunkPos|
                        far_keys@.contains(q) <==> exists|j: int|
                            0 <= j < i + 1 && all[j].pos == q && far_from(cam, q) by {
                        if far_keys@.contains(q) {
                            let k = choose|k: int| 0 <= k < far_keys@.len() && far_keys@[k] == q;
                            if k < prev.len() {
                                assert(prev[k] == q);
                                assert(prev.contains(q));
                            } else {
                                assert(all[i as int].pos == q);
                            }
                        }
                        if exists|j: int| 0 <= j < i + 1 && all[j].pos == q && far_from(cam, q) {
                            let j = choose|j: int| 0 <= j < i + 1 && all[j].pos == q && far_from(cam, q);
                            if j < i {
                                assert(prev.contains(q));
                                let k = choose|k: int| 0 <= k < prev.len() && prev[k] == q;
                                assert(far_keys@[k] == q);
                            } else {
                                assert(far_keys@[prev.len() as int] == q);
                            }
                        }
                    }
                }
            } else {
                proof {
                    assert(!far_from(cam, all[i as int].pos));
                }
            }
            i = i + 1;
        }

        let mut old_entries: Vec<ChunkEntry> = Vec::new();
        std::mem::swap(&mut old_entries, &mut self.chunks.entries);
        assert(old_entries@ == all);
        let mut rev = reverse_vec(old_entries);
        let mut kept: Vec<ChunkEntry> = Vec::new();
        let mut k: usize = 0;
        while k < n
            invariant
                n == all.len(),
                k <= n,
                rev@.len() == n - k,
                forall|j: int| 0 <= j < n - k ==> rev@[j] == all[n - 1 - j],
                kept@ == unload_prefix(all, cam, k as int),
                max_dist == RENDER_DISTANCE + UNLOAD_PADDING,
                forall|j: int| 0 <= j < n ==> pos_in_world(#[trigger] all[j].pos),
                forall|q: ChunkPos|
                    far_keys@.contains(q) <==> exists|j: int|
                        0 <= j < n && all[j].pos == q && far_from(cam, q),
            decreases n - k,
        {
            let mut e = rev.pop().unwrap();
            assert(e == all[k as int]);
            let p = e.pos;
            let dx = p.x as i64 - cam.x as i64;
            let dy = p.y as i64 - cam.y as i64;
            let dz = p.z as i64 - cam.z as i64;
            if dx > max_dist || dx < -max_dist || dz > max_dist || dz < -max_dist || dy > max_dist
                || dy < -max_dist {
                // dropped
            } else {
                let n1 = ChunkPos { x: p.x + 1, y: p.y, z: p.z };
                let n2 = ChunkPos { x: p.x - 1, y: p.y, z: p.z };
                let n3 = ChunkPos { x: p.x, y: p.y + 1, z: p.z };
                let n4 = ChunkPos { x: p.x, y: p.y - 1, z: p.z };
                let n5 = ChunkPos { x: p.x, y: p.y, z: p.z + 1 };
                let n6 = ChunkPos { x: p.x, y: p.y, z: p.z - 1 };
                let touches = list_contains(&far_keys, n1) || list_contains(&far_keys, n2)
                    || list_contains(&far_keys, n3) || list_contains(&far_keys, n4)
                    || list_contains(&far_keys, n5) || list_contains(&far_keys, n6);
                proof {
                    if touches_far(all, cam, p) {
                        let j = choose|j: int|
                            0 <= j < all.len() && far_from(cam, all[j].pos) && touching(all[j].pos, p);
                        let r = all[j].pos;
                        assert(far_keys@.contains(r));
                        assert(r == n1 || r == n2 || r == n3 || r == n4 || r == n5 || r == n6);
                    }
                    if touches {
                        let q = if far_keys@.contains(n1) {
                            n1
                        } else if far_keys@.contains(n2) {
                            n2
                        } else if far_keys@.contains(n3) {
                            n3
                        } else if far_keys@.contains(n4) {
                            n4
                        } else if far_keys@.contains(n5) {
                            n5
                        } else {
                            n6
                        };
                        assert(far_keys@.contains(q));
                        let j = choose|j: int| 0 <= j < n && all[j].pos == q && far_from(cam, q);
                        assert(touching(all[j].pos, p));
                    }
                    assert(touches == touches_far(all, cam, p));
                }
                if touches {
                    e.chunk.dirty = true;
                }
                assert(e == with_dirty(all[k as int], all[k as int].chunk.dirty || touches_far(all, cam, p)));
                kept.push(e);
            }
            k = k + 1;
        }
        self.chunks.entries = kept;
        proof {
            lemma_unload_prefix(all, cam, n as int);
            let l = self.loaded();
            assert forall|j: int|
                0 <= j < l.len() implies {
                    &&& (#[trigger] l[j]).chunk.wf()
                    &&& pos_in_world(l[j].pos)
                    &&& pos_in_world(l[j].chunk.position)
                } by {
                let m = choose|m: int|
                    0 <= m < n && !far_from(cam, all[m].pos) && #[trigger] l[j] == with_dirty(
                        all[m],
                        all[m].chunk.dirty || touches_far(all, cam, all[m].pos),
                    );
                assert(all[m].chunk.wf());
            }
            assert forall|j: int|
                0 <= j < old_pending.len() implies !has_key(l, #[trigger] old_pending[j]) by {
                if has_key(l, old_pending[j]) {
                    let a = choose|a: int| 0 <= a < l.len() && l[a].pos == old_pending[j];
                    let m = choose|m: int|
                        0 <= m < n && !far_from(cam, all[m].pos) && #[trigger] l[a] == with_dirty(
                            all[m],
                            all[m].chunk.dirty || touches_far(all, cam, all[m].pos),
                        );
                    assert(has_key(all, old_pending[j]));
                }
            }
            if far_keys@.len() > 0 {
                assert(far_keys@.contains(far_keys@[0]));
            }
            if exists|j: int| 0 <= j < all.len() && far_from(cam, #[trigger] all[j].pos) {
                let j = choose|j: int| 0 <= j < all.len() && far_from(cam, #[trigger] all[j].pos);
                assert(far_keys@.contains(all[j].pos));
            }
        }
        far_keys.len() > 0
    }

    /// Rebuilds the mesh of every loaded chunk marked for meshing, and reports whether
    /// any was.
    pub fn rebuild_dirty(&mut self) -> (rebuilt: bool)
        requires
            old(self).wf(),
        ensures
            final(self).wf(),
            final(self).pending() == old(self).pending(),
            old(self).consistent() ==> final(self).consistent(),
            final(self).loaded().len() == old(self).loaded().len(),
            forall|i: int|
                0 <= i < old(self).loaded().len() ==> rebuilt_entry(
                    old(self).loaded()[i],
                    #[trigger] final(self).loaded()[i],
                ),
            rebuilt == exists|i: int|
                0 <= i < old(self).loaded().len() && (#[trigger] old(self).loaded()[i]).chunk.dirty,
    {
        let ghost all = self.chunks@;
        let n = self.chunks.entries.len();
        let mut any = false;
        let mut i: usize = 0;
        while i < n
            invariant
                n == all.len(),
                i <= n,
                self.chunks@.len() == n,
                self.pending@ == old(self).pending@,
                forall|j: int| 0 <= j < n ==> pos_in_world((#[trigger] all[j]).chunk.position) && all[j].chunk.wf(),
                forall|j: int| 0 <= j < i ==> rebuilt_entry(all[j], #[trigger] self.chunks@[j]),
                forall|j: int| i <= j < n ==> #[trigger] self.chunks@[j] == all[j],
                any == exists|j: int| 0 <= j < i && (#[trigger] all[j]).chunk.dirty,
            decreases n - i,
        {
            assert(self.chunks@[i as int] == all[i as int]);
            assert(self.chunks.entries@[i as int] == all[i as int]);
            assert(all[i as int].chunk.wf() && pos_in_world(all[i as int].chunk.position));
            if self.chunks.entries[i].chunk.dirty {
                self.chunks.entries[i].chunk.rebuild_mesh();
                any = true;
            }
            i = i + 1;
        }
        proof {
            let l = self.loaded();
            assert forall|j: int| 0 <= j < n implies (#[trigger] l[j]).pos == all[j].pos by {
                assert(rebuilt_entry(all[j], l[j]));
            }
        }
        any
    }

    /// Whether the meshes of the loaded chunks can be combined into one mesh with `u32`
    /// indices.
    #[verifier::loop_isolation(false)]
    pub fn super_mesh_fits(&self) -> (b: bool)
        ensures
            b == super_mesh_fits(self.loaded()),
    {
        let ghost s = self.chunks@;
        let n = self.chunks.entries.len();
        let mut off: u64 = 0;
        let mut k: usize = 0;
        while k < n
            invariant
                n == s.len(),
                k <= n,
                k < n ==> off == super_vertices(s.take(k as int)).len(),
                off <= u32::MAX,
                super_mesh_fits(s.take(k as int)),
            decreases n - k,
        {
            proof {
                lemma_super_vertices_take(s, k as int);
            }
            let c = &self.chunks.entries[k].chunk;
            assert(*c == s[k as int].chunk);
            let mut j: usize = 0;
            while j < c.indices.len()
                invariant
                    j <= c.indices@.len(),
                    forall|t: int| 0 <= t < j ==> (#[trigger] c.indices@[t]) + off <= u32::MAX,
                decreases c.indices@.len() - j,
            {
                if c.indices[j] as u64 > u32::MAX as u64 - off {
                    proof {
                        assert(!super_mesh_fits(s.take(k as int + 1)));
                        lemma_super_mesh_fits_prefix(s, k as int + 1);
                        assert(s.take(n as int) =~= s);
                    }
                    return false;
                }
                j = j + 1;
            }
            let nv = c.vertices.len() as u64;
            if k + 1 < n {
                proof {
                    lemma_super_vertices_take(s, k as int + 1);
                }
                if nv > u32::MAX as u64 - off {
                    proof {
                        assert(!super_mesh_fits(s.take(k as int + 2)));
                        lemma_super_mesh_fits_prefix(s, k as int + 2);
                        assert(s.take(n as int) =~= s);
                    }
                    return false;
                }
                off = off + nv;
            }
            k = k + 1;
        }
        assert(s.take(n as int) =~= s);
        true
    }

    /// The meshes of all loaded chunks combined into one mesh, or `None` when they hold
    /// no vertex.
    pub fn build_super_mesh(&self) -> (r: Option<SuperMesh>)
        requires
            super_mesh_fits(self.loaded()),
        ensures
            r is None <==> super_vertices(self.loaded()).len() == 0,
            r matches Some(m) ==> {
                &&& m.vertices@ == super_vertices(self.loaded())
                &&& m.indices@ == super_indices(self.loaded())
                &&& m.num_indices == super_indices(self.loaded()).len() as u32
            },
    {
        let ghost s = self.chunks@;
        let n = self.chunks.entries.len();
        let mut vertices: Vec<Vertex> = Vec::new();
        let mut indices: Vec<u32> = Vec::new();
        proof {
            lemma_super_mesh_fits_prefix(s, n as int);
            assert(s.take(n as int) =~= s);
        }
        let mut k: usize = 0;
        while k < n
            invariant
                s == self.chunks@,
                n == s.len(),
                k <= n,
                super_mesh_fits(s),
                forall|m: int| 0 <= m <= n ==> #[trigger] super_mesh_fits(s.take(m)),
                vertices@ == super_vertices(s.take(k as int)),
                indices@ == super_indices(s.take(k as int)),
            decreases n - k,
        {
            proof {
                lemma_super_vertices_take(s, k as int);
                assert(super_mesh_fits(s.take(k as int + 1)));
            }
            let c = &self.chunks.entries[k].chunk;
            assert(*c == s[k as int].chunk);
            let vertex_offset = vertices.len() as u32;
            let ghost vbefore = vertices@;
            let ghost ibefore = indices@;
            let mut j: usize = 0;
            while j < c.vertices.len()
                invariant
                    j <= c.vertices@.len(),
                    vertices@ == vbefore + c.vertices@.take(j as int),
                decreases c.vertices@.len() - j,
            {
                vertices.push(c.vertices[j]);
                proof {
                    assert(c.vertices@.take(j as int + 1) =~= c.vertices@.take(j as int).push(c.vertices@[j as int]));
                }
                j = j + 1;
            }
            assert(c.vertices@.take(c.vertices@.len() as int) =~= c.vertices@);
            let mut j: usize = 0;
            while j < c.indices.len()
                invariant
                    j <= c.indices@.len(),
                    vertex_offset == vbefore.len(),
                    forall|t: int| 0 <= t < c.indices@.len() ==> (#[trigger] c.indices@[t]) + vertex_offset <= u32::MAX,
                    indices@ == ibefore + shifted(c.indices@.take(j as int), vertex_offset as int),
                decreases c.indices@.len() - j,
            {
                indices.push(c.indices[j] + vertex_offset);
                proof {
                    assert(shifted(c.indices@.take(j as int + 1), vertex_offset as int) =~= shifted(
                        c.indices@.take(j as int),
                        vertex_offset as int,
                    ).push((c.indices@[j as int] + vertex_offset) as u32));
                }
                j = j + 1;
            }
            assert(c.indices@.take(c.indices@.len() as int) =~= c.indices@);
            k = k + 1;
        }
        assert(s.take(n as int) =~= s);
        if vertices.len() == 0 {
            None
        } else {
            let num_indices = indices.len() as u32;
            Some(SuperMesh { vertices, indices, num_indices })
        }
    }

    /// Stores a generated chunk under `pos` and drops `pos` from the pending requests.
    pub fn receive_chunk(&mut self, pos: ChunkPos, chunk: Chunk)
        requires
            old(self).wf(),
            chunk.wf(),
            pos_in_world(pos),
            pos_in_world(chunk.position),
        ensures
            final(self).wf(),
            final(self).loaded() == map_insert(old(self).loaded(), pos, chunk),
            final(self).pending() == old(self).pending().remove_value(pos),
            old(self).consistent() && chunk.position == pos && in_layers(pos)
                ==> final(self).consistent(),
    {
        proof {
            self.lemma_map_wf();
        }
        let ghost old_pending = self.pending@;
        let mut i: usize = 0;
        while i < self.pending.len() && self.pending[i] != pos
            invariant
                self.pending@ == old_pending,
                self.chunks.wf(),
                i <= self.pending@.len(),
                forall|j: int| 0 <= j < i ==> self.pending@[j] != pos,
            decreases self.pending@.len() - i,
        {
            i = i + 1;
        }
        proof {
            old_pending.index_of_first_ensures(pos);
        }
        if i < self.pending.len() {
            self.pending.remove(i);
            proof {
                let idx = old_pending.index_of_first(pos).unwrap();
                assert(old_pending[i as int] == pos);
                assert(idx == i);
            }
        }
        let ghost old_loaded = self.chunks@;
        self.chunks.insert(pos, chunk);
        proof {
            let l = self.chunks@;
            let pd = self.pending@;
            assert(pd == old_pending.remove_value(pos));
            // every pending position was pending before and differs from `pos`
            assert forall|k: int| 0 <= k < pd.len() implies old_pending.contains(#[trigger] pd[k])
                && pd[k] != pos by {
                if i < old_pending.len() {
                    let k2 = if k < i { k } else { k + 1 };
                    assert(pd[k] == old_pending[k2]);
                    assert(k2 != i);
                } else {
                    assert(pd[k] == old_pending[k]);
                }
            }
            assert forall|a: int, b: int|
                0 <= a < pd.len() && 0 <= b < pd.len() && a != b implies pd[a] != pd[b] by {
                if i < old_pending.len() {
                    let a2 = if a < i { a } else { a + 1 };
                    let b2 = if b < i { b } else { b + 1 };
                    assert(pd[a] == old_pending[a2]);
                    assert(pd[b] == old_pending[b2]);
                }
            }
            assert forall|k: int|
                0 <= k < pd.len() implies pos_in_world(#[trigger] pd[k]) && !has_key(l, pd[k]) by {
                let q = pd[k];
                let k2 = choose|k2: int| 0 <= k2 < old_pending.len() && old_pending[k2] == q;
                assert(pos_in_world(old_pending[k2]));
                assert(!has_key(old_loaded, q));
                if has_key(l, q) {
                    let j = choose|j: int| 0 <= j < l.len() && l[j].pos == q;
                    if has_key(old_loaded, pos) {
                        assert(l[j].pos == old_loaded[j].pos || j == key_index(old_loaded, pos));
                    } else {
                        if j < old_loaded.len() {
                            assert(l[j] == old_loaded[j]);
                        }
                    }
                }
            }
            assert forall|j: int|
                0 <= j < l.len() implies {
                    &&& (#[trigger] l[j]).chunk.wf()
                    &&& pos_in_world(l[j].pos)
                    &&& pos_in_world(l[j].chunk.position)
                } by {
                if has_key(old_loaded, pos) {
                    if j != key_index(old_loaded, pos) {
                        assert(l[j] == old_loaded[j]);
                    }
                } else {
                    if j < old_loaded.len() {
                        assert(l[j] == old_loaded[j]);
                    }
                }
            }
        }
    }
}


/// Whether the chunk at `p` still has to be requested: it lies in the load cube around
/// `cam` and is neither loaded nor pending.
pub open spec fn wanted(loaded: Seq<ChunkEntry>, pending: Seq<ChunkPos>, cam: ChunkPos, p: ChunkPos) -> bool {
    in_load_range(cam, p) && !has_key(loaded, p) && !pending.contains(p)
}

/// Once the missing chunks have been requested, nothing is left to request for the
/// same camera chunk: a chunk is never requested twice while it is pending.
pub proof fn law_requests_not_repeated(
    loaded: Seq<ChunkEntry>,
    pending: Seq<ChunkPos>,
    cam: ChunkPos,
    requested: Seq<ChunkPos>,
)
    requires
        forall|p: ChunkPos| requested.contains(p) <==> wanted(loaded, pending, cam, p),
    ensures
        forall|p: ChunkPos| !wanted(loaded, pending + requested, cam, p),
{
    assert forall|p: ChunkPos| !wanted(loaded, pending + requested, cam, p) by {
        if wanted(loaded, pending, cam, p) {
            assert(requested.contains(p));
            let k = choose|k: int| 0 <= k < requested.len() && requested[k] == p;
            assert((pending + requested)[pending.len() + k] == p);
        } else if in_load_range(cam, p) && !has_key(loaded, p) {
            let k = choose|k: int| 0 <= k < pending.len() && pending[k] == p;
            assert((pending + requested)[k] == p);
        }
    }
}

/// A stored chunk can be found again: after storing `c` under `p`, `p` is a key, it
/// leads to `c`, and no key is stored twice.
pub proof fn law_insert_then_get(s: Seq<ChunkEntry>, p: ChunkPos, c: Chunk)
    requires
        keys_unique(s),
    ensures
        has_key(map_insert(s, p, c), p),
        map_insert(s, p, c)[key_index(map_insert(s, p, c), p)].chunk == c,
        keys_unique(map_insert(s, p, c)),
        forall|q: ChunkPos| q != p ==> (has_key(map_insert(s, p, c), q) <==> has_key(s, q)),
{
    let t = map_insert(s, p, c);
    if has_key(s, p) {
        let i = key_index(s, p);
        assert(t[i].pos == p);
        assert forall|a: int, b: int| 0 <= a < t.len() && 0 <= b < t.len() && a != b implies t[a].pos
            != t[b].pos by {
            if a != i && b != i {
                assert(t[a] == s[a] && t[b] == s[b]);
            } else if a == i {
                assert(t[b] == s[b]);
            } else {
                assert(t[a] == s[a]);
            }
        }
        lemma_key_index(t, i);
        assert forall|q: ChunkPos| q != p implies (has_key(t, q) <==> has_key(s, q)) by {
            if has_key(t, q) {
                let j = choose|j: int| 0 <= j < t.len() && t[j].pos == q;
                assert(t[j] == s[j]);
            }
            if has_key(s, q) {
                let j = choose|j: int| 0 <= j < s.len() && s[j].pos == q;
                assert(j != i);
                assert(t[j] == s[j]);
            }
        }
    } else {
        let i = s.len() as int;
        assert(t[i].pos == p);
        assert forall|a: int, b: int| 0 <= a < t.len() && 0 <= b < t.len() && a != b implies t[a].pos
            != t[b].pos by {
            if a < i && b < i {
                assert(t[a] == s[a] && t[b] == s[b]);
            } else if a < i {
                assert(t[a] == s[a]);
            } else {
                assert(t[b] == s[b]);
            }
        }
        lemma_key_index(t, i);
        assert forall|q: ChunkPos| q != p implies (has_key(t, q) <==> has_key(s, q)) by {
            if has_key(t, q) {
                let j = choose|j: int| 0 <= j < t.len() && t[j].pos == q;
                assert(t[j] == s[j]);
            }
            if has_key(s, q) {
                let j = choose|j: int| 0 <= j < s.len() && s[j].pos == q;
                assert(t[j] == s[j]);
            }
        }
    }
}

/// A removed chunk is gone: after removing `p`, `p` is no longer a key.
pub proof fn law_remove_then_absent(s: Seq<ChunkEntry>, p: ChunkPos)
    requires
        keys_unique(s),
    ensures
        !has_key(map_remove(s, p), p),
{
    if has_key(s, p) {
        let i = key_index(s, p);
        let t = map_remove(s, p);
        if has_key(t, p) {
            let j = choose|j: int| 0 <= j < t.len() && t[j].pos == p;
            let j2 = if j < i { j } else { j + 1 };
            assert(t[j] == s[j2]);
        }
    }
}

/// A received position is no longer pending.
pub proof fn law_received_not_pending(pending: Seq<ChunkPos>, p: ChunkPos)
    requires
        pending.no_duplicates(),
    ensures
        !pending.remove_value(p).contains(p),
{
    pending.index_of_first_ensures(p);
    if pending.contains(p) {
        let i = pending.index_of_first(p).unwrap();
        let t = pending.remove_value(p);
        if t.contains(p) {
            let j = choose|j: int| 0 <= j < t.len() && t[j] == p;
            let j2 = if j < i { j } else { j + 1 };
            assert(t[j] == pending[j2]);
        }
    }
}

/// Unloading keeps exactly the chunks near the camera: no kept chunk is far from `cam`,
/// every chunk that was near is still loaded, and each kept chunk is unchanged but for
/// its mark, which is set when a far chunk shared a face with it.
pub proof fn law_unload_keeps_near(s: Seq<ChunkEntry>, cam: ChunkPos)
    requires
        keys_unique(s),
    ensures
        forall|i: int| 0 <= i < after_unload(s, cam).len() ==> !far_from(cam, (#[trigger] after_unload(s, cam)[i]).pos),
        forall|j: int| 0 <= j < s.len() && !far_from(cam, s[j].pos) ==> #[trigger] has_key(after_unload(s, cam), s[j].pos),
        forall|i: int|
            0 <= i < after_unload(s, cam).len() ==> exists|j: int|
                0 <= j < s.len() && #[trigger] after_unload(s, cam)[i] == with_dirty(
                    s[j],
                    s[j].chunk.dirty || touches_far(s, cam, s[j].pos),
                ),
        keys_unique(after_unload(s, cam)),
{
    lemma_unload_prefix(s, cam, s.len() as int);
    let r = after_unload(s, cam);
    assert forall|i: int| 0 <= i < r.len() implies !far_from(cam, (#[trigger] r[i]).pos) by {
        let j = choose|j: int|
            0 <= j < s.len() && !far_from(cam, s[j].pos) && #[trigger] r[i] == with_dirty(
                s[j],
                s[j].chunk.dirty || touches_far(s, cam, s[j].pos),
            );
    }
}

/// After rebuilding, no loaded chunk is marked, and every chunk that was rebuilt has a
/// well-formed mesh.
pub proof fn law_rebuild_leaves_clean(old: Seq<ChunkEntry>, new: Seq<ChunkEntry>)
    requires
        old.len() == new.len(),
        forall|i: int| 0 <= i < old.len() ==> rebuilt_entry(old[i], #[trigger] new[i]),
    ensures
        forall|i: int| 0 <= i < new.len() ==> !(#[trigger] new[i]).chunk.dirty,
        forall|i: int|
            0 <= i < new.len() && old[i].chunk.dirty ==> indices_in_bounds(
                (#[trigger] new[i]).chunk.indices@,
                new[i].chunk.vertices@.len() as int,
            ),
{
    assert forall|i: int|
        0 <= i < new.len() && old[i].chunk.dirty implies indices_in_bounds(
            (#[trigger] new[i]).chunk.indices@,
            new[i].chunk.vertices@.len() as int,
        ) by {
        crate::chunk::law_chunk_mesh_well_formed(old[i].chunk.position, old[i].chunk.blocks@);
    }
}


/// Requesting the missing chunks and then unloading the far ones, around the same camera
/// chunk, leaves every chunk of the load cube either loaded or pending.
pub proof fn law_load_cube_covered(
    loaded: Seq<ChunkEntry>,
    pending: Seq<ChunkPos>,
    cam: ChunkPos,
    requested: Seq<ChunkPos>,
)
    requires
        keys_unique(loaded),
        forall|p: ChunkPos| requested.contains(p) <==> wanted(loaded, pending, cam, p),
    ensures
        forall|p: ChunkPos|
            in_load_range(cam, p) ==> has_key(after_unload(loaded, cam), p) || (pending
                + requested).contains(p),
{
    law_requests_not_repeated(loaded, pending, cam, requested);
    law_unload_keeps_near(loaded, cam);
    assert forall|p: ChunkPos| in_load_range(cam, p) implies has_key(after_unload(loaded, cam), p)
        || (pending + requested).contains(p) by {
        if has_key(loaded, p) {
            let j = choose|j: int| 0 <= j < loaded.len() && loaded[j].pos == p;
            assert(!far_from(cam, loaded[j].pos));
            assert(has_key(after_unload(loaded, cam), loaded[j].pos));
        } else {
            assert(!wanted(loaded, pending + requested, cam, p));
        }
    }
}


proof fn lemma_unload_nothing_far(t: Seq<ChunkEntry>, cam: ChunkPos, n: int)
    requires
        0 <= n <= t.len(),
        forall|i: int| 0 <= i < t.len() ==> !far_from(cam, (#[trigger] t[i]).pos),
    ensures
        unload_prefix(t, cam, n) == t.take(n),
    decreases n,
{
    if n > 0 {
        lemma_unload_nothing_far(t, cam, n - 1);
        let e = t[n - 1];
        assert(!far_from(cam, e.pos));
        assert(!touches_far(t, cam, e.pos));
        assert(with_dirty(e, e.chunk.dirty || touches_far(t, cam, e.pos)) == e);
        assert(t.take(n) =~= t.take(n - 1).push(e));
    } else {
        assert(t.take(0) =~= Seq::<ChunkEntry>::empty());
    }
}

/// Unloading a second time around the same camera chunk changes nothing: the first
/// unload left no far chunk, so nothing is removed and nothing is marked.
pub proof fn law_unload_twice(s: Seq<ChunkEntry>, cam: ChunkPos)
    requires
        keys_unique(s),
    ensures
        after_unload(after_unload(s, cam), cam) == after_unload(s, cam),
{
    let t = after_unload(s, cam);
    law_unload_keeps_near(s, cam);
    lemma_unload_nothing_far(t, cam, t.len() as int);
    assert(t.take(t.len() as int) =~= t);
}


/// After unloading, a chunk is loaded exactly when it was loaded before and lies within
/// the render distance plus the padding of the camera chunk on every axis, in both
/// directions: `|p.x - cam.x| <= 10`, `|p.y - cam.y| <= 10` and `|p.z - cam.z| <= 10`.
pub proof fn law_unload_distance(s: Seq<ChunkEntry>, cam: ChunkPos)
    requires
        keys_unique(s),
    ensures
        forall|i: int|
            0 <= i < after_unload(s, cam).len() ==> {
                let p = (#[trigger] after_unload(s, cam)[i]).pos;
                &&& -10 <= p.x - cam.x <= 10
                &&& -10 <= p.y - cam.y <= 10
                &&& -10 <= p.z - cam.z <= 10
                &&& has_key(s, p)
            },
        forall|j: int|
            0 <= j < s.len() ==> (#[trigger] has_key(after_unload(s, cam), s[j].pos) <==> (-10 <= s[j].pos.x
                - cam.x <= 10 && -10 <= s[j].pos.y - cam.y <= 10 && -10 <= s[j].pos.z - cam.z <= 10)),
{
    law_unload_keeps_near(s, cam);
    let t = after_unload(s, cam);
    assert forall|i: int| 0 <= i < t.len() implies has_key(s, (#[trigger] t[i]).pos) by {
        let j = choose|j: int|
            0 <= j < s.len() && #[trigger] t[i] == with_dirty(
                s[j],
                s[j].chunk.dirty || touches_far(s, cam, s[j].pos),
            );
        assert(s[j].pos == t[i].pos);
    }
    assert forall|j: int| 0 <= j < s.len() implies (#[trigger] has_key(t, s[j].pos) <==> (-10
        <= s[j].pos.x - cam.x <= 10 && -10 <= s[j].pos.y - cam.y <= 10 && -10 <= s[j].pos.z
        - cam.z <= 10)) by {
        if has_key(t, s[j].pos) {
            let i = choose|i: int| 0 <= i < t.len() && t[i].pos == s[j].pos;
            assert(!far_from(cam, t[i].pos));
        }
    }
}

/// Each index of the combined mesh is, as a number, the chunk's own index plus the number
/// of vertices of all chunks before it, and each vertex is the chunk's own vertex at the
/// same shift; so every index names in the combined buffer the vertex it named in its chunk.
pub proof fn law_super_mesh_layout(s: Seq<ChunkEntry>, k: int)
    requires
        super_mesh_fits(s),
        0 <= k < s.len(),
    ensures
        super_indices(s).len() >= super_indices(s.take(k)).len() + s[k].chunk.indices@.len(),
        super_vertices(s).len() >= super_vertices(s.take(k)).len() + s[k].chunk.vertices@.len(),
        forall|j: int|
            0 <= j < s[k].chunk.indices@.len() ==> super_indices(s)[super_indices(s.take(k)).len() + j]
                as int == (#[trigger] s[k].chunk.indices@[j]) as int + super_vertices(s.take(k)).len(),
        forall|j: int|
            0 <= j < s[k].chunk.vertices@.len() ==> super_vertices(s)[super_vertices(s.take(k)).len()
                + j] == #[trigger] s[k].chunk.vertices@[j],
    decreases s.len(),
{
    let r = s.drop_last();
    lemma_super_vertices_len_mono(s);
    if k < s.len() - 1 {
        assert(super_mesh_fits(r));
        law_super_mesh_layout(r, k);
        assert(r.take(k) =~= s.take(k));
        assert(r[k] == s[k]);
        let si = super_indices(s);
        let sv = super_vertices(s);
        assert forall|j: int| 0 <= j < s[k].chunk.indices@.len() implies si[super_indices(s.take(k)).len() + j]
            as int == (#[trigger] s[k].chunk.indices@[j]) as int + super_vertices(s.take(k)).len() by {
            assert(si[super_indices(s.take(k)).len() + j] == super_indices(r)[super_indices(r.take(k)).len() + j]);
        }
        assert forall|j: int| 0 <= j < s[k].chunk.vertices@.len() implies sv[super_vertices(s.take(k)).len()
            + j] == #[trigger] s[k].chunk.vertices@[j] by {
            assert(sv[super_vertices(s.take(k)).len() + j] == super_vertices(r)[super_vertices(r.take(k)).len() + j]);
        }
    } else {
        assert(s.take(k) =~= r);
        let off = super_vertices(r).len();
        let si = super_indices(s);
        assert forall|j: int| 0 <= j < s[k].chunk.indices@.len() implies si[super_indices(s.take(k)).len() + j]
            as int == (#[trigger] s[k].chunk.indices@[j]) as int + super_vertices(s.take(k)).len() by {
            assert(si[super_indices(r).len() + j] == shifted(s.last().chunk.indices@, off as int)[j]);
            assert(s.last().chunk.indices@[j] + off <= u32::MAX);
        }
    }
}

} // verus!
