use voxel_sim::chunk::{padded_world_coord, Chunk, ChunkPos, PADDED_SIZE, PADDED_VOLUME};
use voxel_sim::worldgen::BlockType;

#[test]
fn new_chunk_is_all_air_and_dirty() {
    let c = Chunk::new(ChunkPos::new(3, -2, 7));
    assert_eq!(c.blocks.len(), PADDED_VOLUME);
    assert!(c.blocks.iter().all(|b| *b == BlockType::Air));
    assert_eq!(c.position, ChunkPos { x: 3, y: -2, z: 7 });
    assert!(c.vertices.is_empty());
    assert!(c.indices.is_empty());
    assert!(c.dirty);
}

#[test]
fn set_block_reads_back_at_padded_cell() {
    let mut c = Chunk::new(ChunkPos::new(0, 0, 0));
    c.dirty = false;
    c.set_block(0, 5, 15, BlockType::Solid);
    assert_eq!(c.block(1, 6, 16), BlockType::Solid);
    assert_eq!(c.block(0, 5, 15), BlockType::Air);
    assert_eq!(c.blocks[(1 * PADDED_SIZE + 6) * PADDED_SIZE + 16], BlockType::Solid);
    let solid = c.blocks.iter().filter(|b| **b == BlockType::Solid).count();
    assert_eq!(solid, 1);
    assert!(c.dirty);
}

#[test]
fn set_block_overwrites() {
    let mut c = Chunk::new(ChunkPos::new(0, 0, 0));
    c.set_block(16, 16, 16, BlockType::Solid);
    assert_eq!(c.block(17, 17, 17), BlockType::Solid);
    c.set_block(16, 16, 16, BlockType::Air);
    assert_eq!(c.block(17, 17, 17), BlockType::Air);
}

#[test]
fn padded_world_coord_values() {
    assert_eq!(padded_world_coord(2, 0), 31);
    assert_eq!(padded_world_coord(2, 1), 32);
    assert_eq!(padded_world_coord(2, 17), 48);
    assert_eq!(padded_world_coord(-1, 0), -17);
    assert_eq!(padded_world_coord(0, 1), 0);
}

#[test]
fn chunk_pos_in_world_limits() {
    assert!(ChunkPos::new(0, 0, 0).in_world());
    assert!(ChunkPos::new(134217726, -134217727, 0).in_world());
    assert!(!ChunkPos::new(134217727, 0, 0).in_world());
    assert!(!ChunkPos::new(0, -134217728, 0).in_world());
}
