//! Reading and writing the data formats of Visual Pinball tables: Latin-1
//! text records, the LZW compressed bitmaps and their GIF block framing,
//! the open enums that game items store as raw numbers, and the procedural
//! layout of builtin primitives.

pub mod vpx;
