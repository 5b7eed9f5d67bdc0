use std::collections::HashSet;
use vpin::vpx::lzw::{
    from_blocks, from_lzw_blocks, is_block_framed, to_blocks, to_lzw_blocks, try_from_lzw_blocks,
};

fn lzw_blocks_to_codes(compressed: &[u8]) -> Vec<u16> {
    let unblocked = from_blocks(compressed);
    lzw_to_codes(&unblocked)
}

/// Convert compressed bytes to codes, for checking what was written.
fn lzw_to_codes(compressed: &[u8]) -> Vec<u16> {
    let mut codes: Vec<u16> = vec![];
    let start_code_width = 9;
    let mut code_width = start_code_width;

    let mut current_code: u16 = 0;
    let mut current_code_width: u8 = 0;
    let mut increase_width_on = 1 << (start_code_width - 1);

    let clear_code = 1 << (start_code_width - 1);
    let eof_code = clear_code + 1;
    let mut unique_codes: HashSet<u16> = HashSet::new();
    for byte in compressed.iter() {
        for bit in 0..8 {
            current_code |= ((byte >> bit) as u16 & 1) << current_code_width;
            current_code_width += 1;
            if current_code_width == code_width {
                if current_code == clear_code {
                    code_width = start_code_width;
                } else {
                    unique_codes.insert(current_code);
                }
                codes.push(current_code);
                if unique_codes.len() + 1 == increase_width_on {
                    if increase_width_on != 512 {
                        code_width += 1;
                    }
                    increase_width_on <<= 1;
                    assert!(code_width <= 12, "code_size should not exceed 12");
                }
                current_code = 0;
                current_code_width = 0;
            }
        }
    }
    if current_code_width > 0 {
        assert_eq!(current_code, 0);
    }
    assert_eq!(codes.last().unwrap(), &eof_code);
    codes
}

#[test]
fn lzw_test_to_blocks_from_blocks() {
    let compressed = vec![1, 2, 3, 4, 5, 6, 7, 8, 9, 10];
    let max_block_len = 3;
    let blocks = to_blocks(&compressed, max_block_len);
    let uncompressed = from_blocks(&blocks);
    assert_eq!(uncompressed, compressed);
}

#[test]
fn lzw_test_to_blocks_empty() {
    let compressed = vec![];
    let max_block_len = 3;
    let blocks = to_blocks(&compressed, max_block_len);
    assert_eq!(blocks, [0u8; 0]);
}

#[test]
fn lzw_test_lzw_writer_four_0() {
    let bits = vec![0; 4];
    let compressed_blocks = to_lzw_blocks(&bits);
    assert_eq!(compressed_blocks, [6, 0, 1, 8, 4, 16, 16]);
    let codes = lzw_blocks_to_codes(&compressed_blocks);
    assert_eq!(codes, vec![256, 0, 258, 0, 257]);
}

#[test]
fn lzw_test_lzw_writer_four_255() {
    let bits = vec![255; 4];
    let compressed = to_lzw_blocks(&bits);
    assert_eq!(compressed, [6, 0, 255, 9, 252, 23, 16]);
    let compressed_blocks = to_lzw_blocks(&bits);
    assert_eq!(compressed_blocks, [6, 0, 255, 9, 252, 23, 16]);
    let codes = lzw_blocks_to_codes(&compressed);
    assert_eq!(codes, [256, 255, 258, 255, 257]);
}

#[test]
fn lzw_test_lzw_writer_minimal() {
    let bits = vec![
        0xFF, 0xAA, 0xAA, 0xFF, // red
        0xAA, 0xFF, 0xAA, 0xFF, // green
        0xAA, 0xAA, 0xFF, 0xFF, // blue
        0xFF, 0xFF, 0xFF, 0xFF // white
    ];
    let compressed = to_lzw_blocks(&bits);
    assert_eq!(
        compressed,
        [13, 0, 255, 169, 82, 37, 176, 224, 192, 127, 8, 19, 6, 4,]
    );
    let compressed_blocks = to_lzw_blocks(&bits);
    assert_eq!(
        compressed_blocks,
        [13, 0, 255, 169, 82, 37, 176, 224, 192, 127, 8, 19, 6, 4,]
    );
    let codes = lzw_blocks_to_codes(&compressed);
    assert_eq!(
        codes,
        [256, 255, 170, 170, 258, 261, 259, 255, 264, 265, 257]
    );
}

#[test]
fn lzw_test_to_codes() {
    let end = 255;
    let bits: Vec<u8> = (0..=end).collect();
    let compressed_blocks = to_lzw_blocks(&bits);
    let compressed = from_blocks(&compressed_blocks);
    let codes = lzw_to_codes(&compressed);
    let expected: Vec<u16> = std::iter::once(256u16)
        .chain(0..=end as u16)
        .chain(std::iter::once(257u16))
        .collect();
    assert_eq!(codes, expected);
}

#[test]
fn lzw_test_codes_zeroes() {
    // first one that makes the code size increase to 11
    let bits: Vec<u8> = vec![0; 200_029];
    let compressed = from_blocks(&to_lzw_blocks(&bits));
    let codes = lzw_to_codes(&compressed);
    let unique_codes: HashSet<u16> = codes.iter().cloned().collect();
    assert_eq!(unique_codes.len(), 634);
}

#[test]
fn lzw_test_lzw_write_read() {
    let width: u32 = 222;
    let height: u32 = 1;
    let bytes_per_pixel: u8 = 4;
    let bits_size = (width * height * bytes_per_pixel as u32) as usize;
    let mut bits = vec![0; bits_size];
    for i in 0..width * height {
        bits[i as usize * bytes_per_pixel as usize] = (i % 256) as u8;
        bits[i as usize * bytes_per_pixel as usize + 1] = ((i + 1) % 256) as u8;
        bits[i as usize * bytes_per_pixel as usize + 2] = ((i + 2) % 256) as u8;
    }
    let compressed_blocks = to_lzw_blocks(&bits);
    let decompressed = from_lzw_blocks(&compressed_blocks);
    assert_eq!(bits, decompressed);
}

#[test]
fn blocks_are_at_most_254_bytes() {
    let data: Vec<u8> = (0..600u32).map(|i| (i * 7 % 256) as u8).collect();
    let framed = to_blocks(&data, 254);
    assert_eq!(framed[0], 254);
    assert_eq!(framed[255], 254);
    assert_eq!(framed[510], 92);
    assert_eq!(framed.len(), 600 + 3);
    assert!(is_block_framed(&framed));
    assert_eq!(from_blocks(&framed), data);
}

#[test]
fn truncated_or_invalid_streams_are_rejected() {
    // the last block announces 5 bytes but holds 2
    assert!(!is_block_framed(&[5, 1, 2]));
    assert_eq!(try_from_lzw_blocks(&[5, 1, 2]), None);
    // a complete block that holds no end code
    assert_eq!(try_from_lzw_blocks(&[1, 0]), None);
    let framed = to_lzw_blocks(b"hello hello hello");
    assert_eq!(try_from_lzw_blocks(&framed), Some(b"hello hello hello".to_vec()));
}

#[test]
fn empty_input_round_trips() {
    let framed = to_lzw_blocks(&[]);
    assert_eq!(from_lzw_blocks(&framed), Vec::<u8>::new());
}
