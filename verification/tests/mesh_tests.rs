use voxel_sim::chunk::{Chunk, ChunkPos, PADDED_SIZE};
use voxel_sim::mesh::{add_face, Face, Vertex};
use voxel_sim::worldgen::BlockType;

fn v(p: (i32, i32, i32), n: (i32, i32, i32)) -> Vertex {
    Vertex { position: p, normal: n, color: (1, 1, 1) }
}

#[test]
fn add_face_top_exact_values() {
    let mut vs = Vec::new();
    let mut is = Vec::new();
    add_face(&mut vs, &mut is, (2, 3, 4), Face::Top);
    assert_eq!(
        vs,
        vec![
            v((2, 4, 4), (0, 1, 0)),
            v((2, 4, 5), (0, 1, 0)),
            v((3, 4, 5), (0, 1, 0)),
            v((3, 4, 4), (0, 1, 0)),
        ]
    );
    assert_eq!(is, vec![0, 1, 2, 0, 2, 3]);
}

#[test]
fn add_face_offsets_indices_by_existing_vertices() {
    let mut vs = Vec::new();
    let mut is = Vec::new();
    add_face(&mut vs, &mut is, (0, 0, 0), Face::Front);
    add_face(&mut vs, &mut is, (0, 0, 0), Face::Back);
    assert_eq!(vs.len(), 8);
    assert_eq!(&is[6..], &[4, 5, 6, 4, 6, 7]);
    assert_eq!(vs[0], v((1, 0, 1), (0, 0, -1)));
    assert_eq!(vs[4], v((0, 0, 0), (0, 0, 1)));
}

#[test]
fn add_face_each_normal() {
    let faces = [
        (Face::Bottom, (0, -1, 0), (0, 0, 0)),
        (Face::Right, (1, 0, 0), (1, 0, 0)),
        (Face::Left, (-1, 0, 0), (0, 0, 1)),
    ];
    for (face, normal, first) in faces {
        let mut vs = Vec::new();
        let mut is = Vec::new();
        add_face(&mut vs, &mut is, (10, 20, 30), face);
        assert_eq!(vs[0].normal, normal);
        assert_eq!(vs[0].position, (10 + first.0, 20 + first.1, 30 + first.2));
    }
}

#[test]
fn single_block_has_six_faces() {
    let mut c = Chunk::new(ChunkPos::new(0, 0, 0));
    c.set_block(0, 0, 0, BlockType::Solid);
    c.rebuild_mesh();
    assert!(!c.dirty);
    assert_eq!(c.vertices.len(), 24);
    assert_eq!(c.indices.len(), 36);
    // faces come in the order right, left, top, bottom, front, back
    assert_eq!(c.vertices[0], v((1, 0, 0), (1, 0, 0)));
    assert_eq!(c.vertices[4], v((0, 0, 1), (-1, 0, 0)));
    assert_eq!(c.vertices[8], v((0, 1, 0), (0, 1, 0)));
    assert_eq!(c.vertices[12], v((0, 0, 0), (0, -1, 0)));
    assert_eq!(c.vertices[16], v((1, 0, 1), (0, 0, -1)));
    assert_eq!(c.vertices[20], v((0, 0, 0), (0, 0, 1)));
    assert_eq!(&c.indices[0..12], &[0, 1, 2, 0, 2, 3, 4, 5, 6, 4, 6, 7]);
    assert!(c.indices.iter().all(|i| (*i as usize) < c.vertices.len()));
}

#[test]
fn block_positions_are_in_world_coordinates() {
    let mut c = Chunk::new(ChunkPos::new(1, -1, 2));
    c.set_block(3, 4, 5, BlockType::Solid);
    c.rebuild_mesh();
    assert_eq!(c.vertices.len(), 24);
    // top face: first corner at (0, 1, 0) of the block at world (19, -12, 37)
    assert_eq!(c.vertices[8], v((19, -11, 37), (0, 1, 0)));
}

#[test]
fn adjacent_blocks_hide_shared_faces() {
    let mut c = Chunk::new(ChunkPos::new(0, 0, 0));
    c.set_block(0, 0, 0, BlockType::Solid);
    c.set_block(1, 0, 0, BlockType::Solid);
    c.rebuild_mesh();
    assert_eq!(c.vertices.len(), 40);
    assert_eq!(c.indices.len(), 60);
    // the first block has no right face: its first face is the left one
    assert_eq!(c.vertices[0].normal, (-1, 0, 0));
    // the second block begins with its right face
    assert_eq!(c.vertices[20], v((2, 0, 0), (1, 0, 0)));
}

#[test]
fn border_cells_hide_faces_but_are_not_drawn() {
    let mut c = Chunk::new(ChunkPos::new(0, 0, 0));
    c.set_block(0, 0, 0, BlockType::Solid);
    c.blocks[(0 * PADDED_SIZE + 1) * PADDED_SIZE + 1] = BlockType::Solid;
    c.rebuild_mesh();
    assert_eq!(c.vertices.len(), 20);
    assert!(c.vertices.iter().all(|vx| vx.normal != (-1, 0, 0)));
}

#[test]
fn empty_chunk_has_empty_mesh() {
    let mut c = Chunk::new(ChunkPos::new(5, 5, 5));
    c.vertices.push(v((0, 0, 0), (0, 0, 0)));
    c.indices.push(7);
    c.rebuild_mesh();
    assert!(c.vertices.is_empty());
    assert!(c.indices.is_empty());
    assert!(!c.dirty);
}

#[test]
fn rebuilding_twice_gives_same_mesh() {
    let mut c = Chunk::new(ChunkPos::new(0, 0, 0));
    c.set_block(4, 4, 4, BlockType::Solid);
    c.set_block(4, 5, 4, BlockType::Solid);
    c.rebuild_mesh();
    let first = (c.vertices.clone(), c.indices.clone());
    c.rebuild_mesh();
    assert_eq!(first, (c.vertices.clone(), c.indices.clone()));
}
