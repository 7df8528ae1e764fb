use voxel_sim::chunk::{Chunk, ChunkPos};
use voxel_sim::mesh::Vertex;
use voxel_sim::worldgen::{BlockType, TerrainSample};

#[test]
fn flat_sample_fills_below_surface() {
    let t = TerrainSample::new();
    let mut c = Chunk::new(ChunkPos::new(0, 0, 0));
    t.generate_chunk(&mut c);
    // padded y is world y + 1: the surface at height 0 is padded y 1
    for x in 0..18 {
        for z in 0..18 {
            assert_eq!(c.block(x, 0, z), BlockType::Solid);
            assert_eq!(c.block(x, 1, z), BlockType::Solid);
            assert_eq!(c.block(x, 2, z), BlockType::Air);
        }
    }
    assert!(c.dirty);
}

#[test]
fn surface_heights_and_caves() {
    let mut t = TerrainSample::new();
    t.set_surface(3, 4, 5);
    t.set_cave(3, 2, 4, true);
    t.set_cave(3, 10, 4, true);
    let mut c = Chunk::new(ChunkPos::new(0, 0, 0));
    t.generate_chunk(&mut c);
    assert_eq!(c.block(3, 6, 4), BlockType::Solid);
    assert_eq!(c.block(3, 7, 4), BlockType::Air);
    assert_eq!(c.block(3, 2, 4), BlockType::Air);
    assert_eq!(c.block(3, 3, 4), BlockType::Solid);
    assert_eq!(c.block(3, 10, 4), BlockType::Air);
    assert_eq!(c.block(4, 6, 4), BlockType::Air);
}

#[test]
fn higher_chunk_is_all_air() {
    let t = TerrainSample::new();
    let mut c = Chunk::new(ChunkPos::new(0, 1, 0));
    t.generate_chunk(&mut c);
    assert!(c.blocks.iter().all(|b| *b == BlockType::Air));
}

#[test]
fn flat_terrain_mesh_is_one_top_face_per_column() {
    let t = TerrainSample::new();
    let mut c = Chunk::new(ChunkPos::new(0, 0, 0));
    t.generate_chunk(&mut c);
    c.rebuild_mesh();
    assert_eq!(c.vertices.len(), 256 * 4);
    assert_eq!(c.indices.len(), 256 * 6);
    assert!(c.vertices.iter().all(|v: &Vertex| v.normal == (0, 1, 0) && v.position.1 == 1));
}

#[test]
fn generation_keeps_mesh_and_mark() {
    let t = TerrainSample::new();
    let mut c = Chunk::new(ChunkPos::new(0, 0, 0));
    c.dirty = false;
    t.generate_chunk(&mut c);
    assert!(!c.dirty);
    assert!(c.vertices.is_empty());
}
