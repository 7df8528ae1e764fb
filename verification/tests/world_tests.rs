use voxel_sim::chunk::{Chunk, ChunkPos, MAX_CHUNK_COORD};
use voxel_sim::world::{camera_in_range, ChunkMap, World};
use voxel_sim::worldgen::BlockType;

fn p(x: i32, y: i32, z: i32) -> ChunkPos {
    ChunkPos::new(x, y, z)
}

fn meshed_chunk(pos: ChunkPos) -> Chunk {
    let mut c = Chunk::new(pos);
    c.set_block(0, 0, 0, BlockType::Solid);
    c.rebuild_mesh();
    c
}

#[test]
fn request_chunks_covers_the_load_cube_in_order() {
    let mut w = World::new();
    let req = w.request_chunks(p(0, 0, 0));
    assert_eq!(req.len(), 17 * 17 * 13);
    assert_eq!(req[0], p(-8, -6, -8));
    assert_eq!(req[1], p(-8, -5, -8));
    assert_eq!(req[13], p(-8, -6, -7));
    assert_eq!(*req.last().unwrap(), p(8, 6, 8));
    assert!(w.is_pending(p(0, 0, 0)));
    assert!(!w.is_pending(p(0, 7, 0)));
    assert_eq!(w.chunk_count(), 0);
}

#[test]
fn request_chunks_twice_requests_nothing() {
    let mut w = World::new();
    let first = w.request_chunks(p(0, 0, 0));
    assert!(!first.is_empty());
    let second = w.request_chunks(p(0, 0, 0));
    assert!(second.is_empty());
}

#[test]
fn request_chunks_respects_layer_limits() {
    let mut w = World::new();
    let req = w.request_chunks(p(0, 10, 0));
    assert_eq!(req.len(), 17 * 17 * 5);
    assert!(req.iter().all(|q| q.y >= 2 && q.y <= 6));
}

#[test]
fn request_chunks_skips_loaded_chunks() {
    let mut w = World::new();
    w.receive_chunk(p(0, 0, 0), meshed_chunk(p(0, 0, 0)));
    let req = w.request_chunks(p(0, 0, 0));
    assert_eq!(req.len(), 17 * 17 * 13 - 1);
    assert!(!req.contains(&p(0, 0, 0)));
}

#[test]
fn receive_chunk_moves_from_pending_to_loaded() {
    let mut w = World::new();
    w.request_chunks(p(0, 0, 0));
    assert!(w.is_pending(p(1, 2, 3)));
    w.receive_chunk(p(1, 2, 3), meshed_chunk(p(1, 2, 3)));
    assert!(!w.is_pending(p(1, 2, 3)));
    assert!(w.is_loaded(p(1, 2, 3)));
    assert_eq!(w.chunk_count(), 1);
    // receiving again replaces the chunk
    w.receive_chunk(p(1, 2, 3), Chunk::new(p(1, 2, 3)));
    assert_eq!(w.chunk_count(), 1);
    assert!(w.chunks().get(p(1, 2, 3)).unwrap().vertices.is_empty());
}

#[test]
fn unload_far_removes_far_chunks_and_marks_neighbours() {
    let mut w = World::new();
    for pos in [p(0, 0, 0), p(10, 0, 0), p(11, 0, 0)] {
        w.receive_chunk(pos, meshed_chunk(pos));
    }
    assert!(!w.rebuild_dirty());
    assert!(w.unload_far(p(0, 0, 0)));
    assert_eq!(w.chunk_count(), 2);
    assert!(!w.is_loaded(p(11, 0, 0)));
    assert!(w.chunks().get(p(10, 0, 0)).unwrap().dirty);
    assert!(!w.chunks().get(p(0, 0, 0)).unwrap().dirty);
    assert!(!w.unload_far(p(0, 0, 0)));
}

#[test]
fn unload_far_on_every_axis() {
    let mut w = World::new();
    for pos in [p(0, -11, 0), p(0, 0, 11), p(0, 0, -10)] {
        w.receive_chunk(pos, meshed_chunk(pos));
    }
    assert!(w.unload_far(p(0, 0, 0)));
    assert!(!w.is_loaded(p(0, -11, 0)));
    assert!(!w.is_loaded(p(0, 0, 11)));
    assert!(w.is_loaded(p(0, 0, -10)));
}

#[test]
fn rebuild_dirty_meshes_marked_chunks() {
    let mut w = World::new();
    let mut c = Chunk::new(p(0, 0, 0));
    c.set_block(2, 2, 2, BlockType::Solid);
    w.receive_chunk(p(0, 0, 0), c);
    assert!(w.rebuild_dirty());
    let c = w.chunks().get(p(0, 0, 0)).unwrap();
    assert_eq!(c.vertices.len(), 24);
    assert!(!c.dirty);
    assert!(!w.rebuild_dirty());
}

#[test]
fn super_mesh_concatenates_and_offsets() {
    let mut w = World::new();
    assert!(w.build_super_mesh().is_none());
    w.receive_chunk(p(0, 0, 0), meshed_chunk(p(0, 0, 0)));
    w.receive_chunk(p(1, 0, 0), meshed_chunk(p(1, 0, 0)));
    assert!(w.super_mesh_fits());
    let m = w.build_super_mesh().unwrap();
    assert_eq!(m.vertices.len(), 48);
    assert_eq!(m.indices.len(), 72);
    assert_eq!(m.num_indices, 72);
    assert_eq!(&m.indices[36..42], &[24, 25, 26, 24, 26, 27]);
    assert_eq!(m.vertices[24].position, (17, 0, 0));
    assert!(m.indices.iter().all(|i| (*i as usize) < m.vertices.len()));
}

#[test]
fn super_mesh_of_chunks_without_faces_is_none() {
    let mut w = World::new();
    let mut c = Chunk::new(p(0, 0, 0));
    c.rebuild_mesh();
    w.receive_chunk(p(0, 0, 0), c);
    assert!(w.build_super_mesh().is_none());
}

#[test]
fn camera_range_limits() {
    assert!(camera_in_range(p(0, 0, 0)));
    assert!(camera_in_range(p(MAX_CHUNK_COORD - 8, 0, 0)));
    assert!(!camera_in_range(p(MAX_CHUNK_COORD - 7, 0, 0)));
    assert!(!camera_in_range(p(0, 0, MAX_CHUNK_COORD)));
}

#[test]
fn chunk_map_insert_get_remove() {
    let mut m = ChunkMap::new();
    m.insert(p(1, 1, 1), Chunk::new(p(1, 1, 1)));
    m.insert(p(2, 2, 2), Chunk::new(p(2, 2, 2)));
    assert_eq!(m.len(), 2);
    assert!(m.contains_key(p(1, 1, 1)));
    assert_eq!(m.get(p(2, 2, 2)).unwrap().position, p(2, 2, 2));
    assert!(m.get(p(3, 3, 3)).is_none());
    assert!(m.remove(p(1, 1, 1)).is_some());
    assert!(m.remove(p(1, 1, 1)).is_none());
    assert!(!m.contains_key(p(1, 1, 1)));
    assert_eq!(m.len(), 1);
}

#[test]
fn get_block_reads_own_and_neighbour_chunks() {
    let mut own = Chunk::new(p(0, 0, 0));
    own.set_block(0, 0, 0, BlockType::Solid);
    let mut west = Chunk::new(p(-1, 0, 0));
    west.set_block(15, 2, 3, BlockType::Solid);
    let mut m = ChunkMap::new();
    m.insert(p(-1, 0, 0), west);
    // a block written with set_block reads back at the same chunk coordinates
    assert_eq!(own.get_block(0, 0, 0, &m), BlockType::Solid);
    assert_eq!(own.get_block(1, 1, 1, &m), BlockType::Air);
    // outside, the neighbour's block at the coordinates shifted by 16
    assert_eq!(own.get_block(-1, 2, 3, &m), BlockType::Solid);
    assert_eq!(own.get_block(-1, 2, 4, &m), BlockType::Air);
    // a missing neighbour reads as air, however far the coordinates
    assert_eq!(own.get_block(16, 1, 1, &m), BlockType::Air);
    assert_eq!(own.get_block(1000, -500, 3, &m), BlockType::Air);
}

#[test]
fn set_block_then_get_block_round_trip() {
    let m = ChunkMap::new();
    for (x, y, z) in [(0, 0, 0), (15, 15, 15), (3, 9, 12)] {
        let mut c = Chunk::new(p(0, 0, 0));
        c.set_block(x as usize, y as usize, z as usize, BlockType::Solid);
        assert_eq!(c.get_block(x, y, z, &m), BlockType::Solid);
    }
}

#[test]
fn camera_height_is_free() {
    let mut w = World::new();
    assert!(camera_in_range(p(0, i32::MAX, 0)));
    assert!(w.request_chunks(p(0, 1000, 0)).is_empty());
    assert!(w.request_chunks(p(0, i32::MIN, 0)).is_empty());
    w.receive_chunk(p(0, 0, 0), meshed_chunk(p(0, 0, 0)));
    assert!(w.unload_far(p(0, i32::MAX, 0)));
    assert_eq!(w.chunk_count(), 0);
}

#[test]
fn second_update_changes_nothing() {
    let mut w = World::new();
    let cam = p(0, 0, 0);
    let req = w.request_chunks(cam);
    for pos in req.iter().take(5) {
        w.receive_chunk(*pos, meshed_chunk(*pos));
    }
    w.receive_chunk(p(20, 0, 0), meshed_chunk(p(20, 0, 0)));
    assert!(w.unload_far(cam));
    w.rebuild_dirty();
    assert!(w.request_chunks(cam).is_empty());
    assert!(!w.unload_far(cam));
    assert!(!w.rebuild_dirty());
    assert_eq!(w.chunk_count(), 5);
}
