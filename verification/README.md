# vpin

Pieces of the Visual Pinball table format (`.vpx`), written in Verus and
proved against their contracts.

## Layout

- `src/vpx/latin1.rs`: strings that a Latin-1 record can carry, their
  bytes and the lossy conversion.
- `src/vpx/lzw.rs`: GIF-style block framing and the bitmap compression
  done with the `weezl` crate.
- `src/vpx/lzw_reader.rs`, `src/vpx/lzw_writer.rs`: the LZW decoder and
  encoder that Visual Pinball itself uses for bitmaps; `probe.rs` holds the
  facts about the encoder's hash table, `bitstream.rs` the bit reading, and
  `lzw_round_trip.rs` the proof that what the encoder writes the decoder
  reads back.
- `src/vpx/gltf.rs`: the GLB container (header, JSON chunk, binary chunk),
  bounds-checked slices of its binary buffer, and the index section of a
  mesh's buffer.
- `src/vpx/gameitem/`, `src/vpx/material.rs`: the enumerations stored in
  game items, with their raw values and JSON names, and the fixed-size
  Latin-1 string fields of materials.
- `src/vpx/mesh/`: the layout and triangles of the builtin primitive mesh
  and the choice of trigger mesh.
- `src/vpx/mod.rs`: paths of the files that sit beside a table.

`app/` holds what the verified library leaves to ordinary Rust: file I/O,
serde forms of the library's types, and the floating-point coordinates of
meshes.
