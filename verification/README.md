# b3d2glb

Convert Blitz3D `.b3d` models to glTF 2.0 (`.glb`, or `.gltf` + `.bin` +
textures).

## Layout

- `src/` — the verified core (Verus):
  - `b3d.rs` — the model read from a `.b3d` file; extraction of the mesh
    (winding reversed), the skeleton in pre-order with per-vertex bone
    bindings, and the animation clips.
  - `buffers.rs` — little-endian writers for vertex, skin, index, key and
    matrix data, with Z negated where coordinates change handedness.
  - `materials.rs` — the brush map, the textures to load, and the materials
    (colours, textures, alpha mode, user factors).
  - `writer.rs` — the glTF document: buffer views, accessors, nodes, skin,
    animations and embedded images over one binary buffer, with laws on
    the soundness of every index (every primitive's material included) and
    the extent and 4-byte alignment of every buffer view.
  - `glb.rs` — padding and the `.glb` container.
  - `texture.rs`, `paths.rs` — texture names and search order, output
    naming.
  - `cli.rs` — command-line parsing.
  - `math.rs` — handedness conversion on IEEE-754 bit patterns.
- `app/` — the program: file and directory handling, reading `.b3d` files
  (crate `b3d`), texture decoding (crate `image`), single-precision maths
  (bind matrices, key times, bounds, missing normals), JSON output
  (crate `serde_json`) and the `Converter` entry point.
- `tests/` — tests of the library.

Single-precision values are carried through the library as their bit
patterns; the only operations done on them there (sign flips, reordering,
copying) are exact on the bits.
