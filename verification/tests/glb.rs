use vpin::vpx::gltf::gltf_index_bytes;
use vpin::vpx::obj::VpxFace;
use vpin::vpx::gltf::{bin_slice, glb_bin_chunk, glb_bytes, glb_json_chunk, GlbError};

#[test]
fn glb_round_trips_json_and_binary_chunk() {
    let json = br#"{"a":1}"#;
    let bin = [1u8, 2, 3, 4, 5];
    let glb = glb_bytes(json, &bin);
    // 12 header bytes, 8 + 8 JSON bytes (7 padded with one space), 8 + 5 binary bytes
    assert_eq!(glb.len(), 12 + 8 + 8 + 8 + 5);
    assert_eq!(&glb[0..4], b"glTF");
    assert_eq!(&glb[4..8], &[2, 0, 0, 0]);
    assert_eq!(&glb[8..12], &[41, 0, 0, 0]);
    let (start, len) = glb_json_chunk(&glb).unwrap();
    assert_eq!((start, len), (20, 8));
    assert_eq!(&glb[start..start + len], br#"{"a":1} "#);
    let (bin_start, bin_len) = glb_bin_chunk(&glb, start + len).unwrap();
    assert_eq!(&glb[bin_start..bin_start + bin_len], &bin);
}

#[test]
fn glb_header_errors() {
    assert_eq!(glb_json_chunk(b"glT"), Err(GlbError::UnexpectedEof));
    assert_eq!(glb_json_chunk(b"gltf\x02\0\0\0"), Err(GlbError::InvalidMagic));
    assert_eq!(glb_json_chunk(b"glTF\x01\0"), Err(GlbError::UnexpectedEof));
    assert_eq!(
        glb_json_chunk(b"glTF\x01\0\0\0"),
        Err(GlbError::UnsupportedVersion(1))
    );
    assert_eq!(
        glb_json_chunk(b"glTF\x02\0\0\0\0\0\0\0\0\0\0\0BIN\0"),
        Err(GlbError::ExpectedJsonChunk)
    );
    let glb = glb_bytes(b"{}", &[]);
    assert_eq!(glb_bin_chunk(&glb, 20), Err(GlbError::ExpectedBinChunk));
    assert_eq!(glb_bin_chunk(&glb, glb.len() - 2), Err(GlbError::UnexpectedEof));
}

#[test]
fn bin_slice_checks_bounds() {
    let data = [0u8, 1, 2, 3];
    assert_eq!(bin_slice(&data, 1, 2, "x").unwrap(), &[1, 2]);
    let e = bin_slice(&data, 3, 2, "positions").unwrap_err();
    assert_eq!((e.what.as_str(), e.offset, e.len, e.buffer_len), ("positions", 3, 2, 4));
    assert!(bin_slice(&data, usize::MAX, 2, "x").is_err());
}

#[test]
fn index_buffer_is_u16_padded_to_four_bytes() {
    let faces = vec![VpxFace::new(0, 1, 2)];
    assert_eq!(gltf_index_bytes(&faces, 3, false), vec![0, 0, 1, 0, 2, 0, 0, 0]);
    assert_eq!(gltf_index_bytes(&faces, 3, true), vec![0, 0, 2, 0, 1, 0, 0, 0]);
    let two = vec![VpxFace::new(0, 1, 2), VpxFace::new(2, 300, 0)];
    assert_eq!(
        gltf_index_bytes(&two, 301, false),
        vec![0, 0, 1, 0, 2, 0, 2, 0, 44, 1, 0, 0]
    );
}

#[test]
fn index_buffer_is_u32_above_65535_vertices() {
    let faces = vec![VpxFace::new(70000, 1, 65536)];
    assert_eq!(gltf_index_bytes(&faces, 65535, false).len(), 8);
    assert_eq!(
        gltf_index_bytes(&faces, 70001, true),
        vec![0x70, 0x11, 0x01, 0, 0, 0, 1, 0, 1, 0, 0, 0]
    );
}
