# voxel_sim

A voxel terrain renderer whose core is verified with Verus.

- `src/` is the verified library:
  - `chunk.rs`: chunk positions, the padded 18³ block grid, block edits, and
    face meshing (`Chunk::rebuild_mesh`), whose output is specified face by face.
  - `mesh.rs`: integer vertices, `add_face`, the specification of a chunk mesh,
    and the law that a mesh holds exactly the visible faces of a chunk.
  - `worldgen.rs`: block types and filling a chunk from sampled terrain noise.
  - `world.rs`: the chunk store and the streaming decisions around the camera:
    which chunks to request, accepting generated chunks, unloading far chunks,
    remeshing marked chunks, and combining all meshes into one buffer.
  - `input.rs`: the set of held keys.
- `app/` is the program: window and event loop (winit), GPU rendering (wgpu),
  noise sampling (fastnoise-lite, in `f32`), worker threads and channels, and the
  floating-point camera.
