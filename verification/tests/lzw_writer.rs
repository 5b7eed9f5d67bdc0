use std::collections::HashSet;
use vpin::vpx::lzw::{from_blocks, to_blocks};
use vpin::vpx::lzw_writer::{
    from_lzw_blocks, from_lzw_blocks_old, to_lzw_blocks, to_lzw_blocks_old, try_from_lzw_blocks_old,
};

fn lzw_blocks_to_codes(compressed: &[u8]) -> Vec<u16> {
    let unblocked = from_blocks(compressed);
    lzw_to_codes(&unblocked)
}

/// Convert compressed bytes to codes, for checking what was written.
fn lzw_to_codes(compressed: &[u8]) -> Vec<u16> {
    let mut codes: Vec<u16> = vec![];
    let start_code_width = 9;
    let mut code_width = start_code_width;

    let mut current_code: u16 = 0;
    let mut current_code_width: u8 = 0;
    let mut increase_width_on = 1 << (start_code_width - 1);

    let clear_code = 1 << (start_code_width - 1);
    let eof_code = clear_code + 1;
    let mut unique_codes: HashSet<u16> = HashSet::new();
    for byte in compressed.iter() {
        for bit in 0..8 {
            current_code |= ((byte >> bit) as u16 & 1) << current_code_width;
            current_code_width += 1;
            if current_code_width == code_width {
                if current_code == clear_code {
                    code_width = start_code_width;
                } else {
                    unique_codes.insert(current_code);
                }
                codes.push(current_code);
                if unique_codes.len() + 1 == increase_width_on {
                    if increase_width_on != 512 {
                        code_width += 1;
                    }
                    increase_width_on <<= 1;
                    assert!(code_width <= 12, "code_size should not exceed 12");
                }
                current_code = 0;
                current_code_width = 0;
            }
        }
    }
    if current_code_width > 0 {
        assert_eq!(current_code, 0);
    }
    assert_eq!(codes.last().unwrap(), &eof_code);
    codes
}

#[test]
fn lzw_writer_test_to_blocks_from_blocks() {
    let compressed = vec![1, 2, 3, 4, 5, 6, 7, 8, 9, 10];
    let max_block_len = 3;
    let blocks = to_blocks(&compressed, max_block_len);
    let uncompressed = from_blocks(&blocks);
    assert_eq!(uncompressed, compressed);
}

#[test]
fn lzw_writer_test_to_blocks_empty() {
    let compressed = vec![];
    let max_block_len = 3;
    let blocks = to_blocks(&compressed, max_block_len);
    assert_eq!(blocks, [0u8; 0]);
}

#[test]
fn lzw_writer_test_lzw_writer_four_0() {
    let bits = vec![0; 4];
    let width = 2;
    let height = 1;
    let bytes_per_pixel = 2;
    let compressed_blocks_old = to_lzw_blocks_old(&bits, width, height, bytes_per_pixel);
    assert_eq!(compressed_blocks_old, vec![6, 0, 1, 8, 4, 16, 16]);

    let codes_old = lzw_blocks_to_codes(&compressed_blocks_old);
    assert_eq!(codes_old, vec![256, 0, 258, 0, 257]);

    let compressed_blocks = to_lzw_blocks(&bits);
    assert_eq!(compressed_blocks, [6, 0, 1, 8, 4, 16, 16]);
}

#[test]
fn lzw_writer_test_lzw_writer_four_255() {
    let bits = vec![255; 4];
    let width = 2;
    let height = 1;
    let bytes_per_pixel = 2;
    let compressed = to_lzw_blocks_old(&bits, width, height, bytes_per_pixel);
    assert_eq!(compressed, [6, 0, 255, 9, 252, 23, 16]);

    let compressed_blocks = to_lzw_blocks(&bits);
    assert_eq!(compressed_blocks, [6, 0, 255, 9, 252, 23, 16]);

    let codes = lzw_blocks_to_codes(&compressed);
    assert_eq!(codes, [256, 255, 258, 255, 257]);
}

#[test]
fn lzw_writer_test_lzw_writer_minimal() {
    // the alpha channel stays at 0xAA because other tests drop it
    let bits = vec![
        0xFF, 0xAA, 0xAA, 0xFF, // red
        0xAA, 0xFF, 0xAA, 0xFF, // green
        0xAA, 0xAA, 0xFF, 0xFF, // blue
        0xFF, 0xFF, 0xFF, 0xFF, // white
    ];
    let width = 2;
    let height = 2;
    let bytes_per_pixel = 4;
    let compressed = to_lzw_blocks_old(&bits, width, height, bytes_per_pixel);
    assert_eq!(
        compressed,
        [13, 0, 255, 169, 82, 37, 176, 224, 192, 127, 8, 19, 6, 4,]
    );

    let compressed_blocks = to_lzw_blocks(&bits);
    assert_eq!(
        compressed_blocks,
        [13, 0, 255, 169, 82, 37, 176, 224, 192, 127, 8, 19, 6, 4,]
    );

    let codes = lzw_blocks_to_codes(&compressed);
    assert_eq!(
        codes,
        [256, 255, 170, 170, 258, 261, 259, 255, 264, 265, 257]
    );
}

#[test]
fn lzw_writer_test_to_codes() {
    let end = 255;
    let bits: Vec<u8> = (0..=end).collect();

    let compressed_blocks = to_lzw_blocks_old(&bits, end as u32 + 1, 1, 1);
    let compressed = from_blocks(&compressed_blocks);

    let compressed2 = from_blocks(&to_lzw_blocks(&bits));
    assert_eq!(compressed, compressed2);

    let codes = lzw_to_codes(&compressed);
    let expected: Vec<u16> = std::iter::once(256u16)
        .chain(0..=end as u16)
        .chain(std::iter::once(257u16))
        .collect();
    assert_eq!(codes, expected);
}

#[test]
fn lzw_writer_test_codes_zeroes() {
    // the first length that makes the codes 11 bits wide
    let bits: Vec<u8> = vec![0; 200_029];
    let compressed = from_blocks(&to_lzw_blocks(&bits));
    let codes = lzw_to_codes(&compressed);
    let unique_codes: HashSet<u16> = codes.iter().cloned().collect();
    assert_eq!(unique_codes.len(), 634);

    let compressed_old = to_lzw_blocks_old(&bits, 200_029, 1, 1);
    let codes_old = lzw_blocks_to_codes(&compressed_old);

    assert_eq!(codes, codes_old);
}

#[test]
fn lzw_writer_test_lzw_write_read() {
    let width: u32 = 222;
    let height: u32 = 1;
    let bytes_per_pixel: u8 = 4;

    let bits_size = (width * height * bytes_per_pixel as u32) as usize;
    let mut bits = vec![0; bits_size];
    for i in 0..width * height {
        bits[i as usize * bytes_per_pixel as usize] = (i % 256) as u8;
        bits[i as usize * bytes_per_pixel as usize + 1] = ((i + 1) % 256) as u8;
        bits[i as usize * bytes_per_pixel as usize + 2] = ((i + 2) % 256) as u8;
    }

    let compressed_blocks = to_lzw_blocks(&bits);
    let decompressed = from_lzw_blocks(&compressed_blocks);
    assert_eq!(bits, decompressed);

    let compressed = to_lzw_blocks_old(&bits, width, height, bytes_per_pixel);
    let blocks = lzw_blocks_to_codes(&compressed);
    println!("blocks: {:?}", blocks);

    assert_eq!(compressed, compressed_blocks);

    let decompressed = from_lzw_blocks_old(&compressed, width, height, bytes_per_pixel);
    assert_eq!(bits, decompressed);
}

#[test]
fn test_lzw_reader_minimal() {
    let compressed_data: Vec<u8> = vec![13, 0, 255, 169, 82, 37, 176, 224, 192, 127, 8, 19, 6, 4];
    let decompressed_data = from_lzw_blocks_old(&compressed_data, 2, 2, 4);
    let expected = vec![
        0xFF, 0xAA, 0xAA, 0xFF, // red
        0xAA, 0xFF, 0xAA, 0xFF, // green
        0xAA, 0xAA, 0xFF, 0xFF, // blue
        0xFF, 0xFF, 0xFF, 0xFF, // white
    ];
    assert_eq!(decompressed_data, expected);
}

#[test]
fn old_writer_output_is_read_back_by_old_reader() {
    let bits: Vec<u8> = (0..600u32).map(|i| (i % 7) as u8).collect();
    let compressed = to_lzw_blocks_old(&bits, 20, 10, 3);
    assert_eq!(from_lzw_blocks_old(&compressed, 20, 10, 3), bits);
}

#[test]
fn old_writer_reads_only_the_pixels_of_the_image() {
    let mut bits = vec![9u8; 8];
    bits.extend_from_slice(&[1, 2, 3]);
    assert_eq!(to_lzw_blocks_old(&bits, 4, 2, 1), to_lzw_blocks_old(&vec![9u8; 8], 4, 2, 1));
}

#[test]
fn old_writer_clears_a_full_dictionary() {
    // distinct pairs fill the free codes twice over, so the dictionary is cleared
    let mut bits: Vec<u8> = Vec::new();
    for a in 0..=255u8 {
        for b in 0..16u8 {
            bits.push(a);
            bits.push(b.wrapping_mul(17));
        }
    }
    let compressed = to_lzw_blocks_old(&bits, bits.len() as u32, 1, 1);
    assert_eq!(compressed.len(), 11394);
    assert_eq!(compressed.iter().map(|&b| b as u64).sum::<u64>(), 1033720);
    assert_eq!(&compressed[..12], &[254, 0, 1, 8, 140, 0, 64, 4, 128, 25, 0, 136]);
    assert_eq!(&compressed[compressed.len() - 6..], &[243, 143, 59, 163, 6, 4]);
    assert_eq!(from_lzw_blocks_old(&compressed, bits.len() as u32, 1, 1), bits);
}

#[test]
fn old_reader_pads_a_short_image_with_zeros() {
    let compressed = to_lzw_blocks_old(&[5u8, 5, 5], 3, 1, 1);
    assert_eq!(from_lzw_blocks_old(&compressed, 5, 1, 1), vec![5, 5, 5, 0, 0]);
}

#[test]
fn old_writer_round_trip_on_wide_codes_that_keep_their_bits() {
    // the 888 bytes reach 10-bit codes
    let bits: Vec<u8> = (0..888u32).map(|i| ((i * i) % 251) as u8).collect();
    let compressed = to_lzw_blocks_old(&bits, 888, 1, 1);
    assert_eq!(from_lzw_blocks_old(&compressed, 888, 1, 1), bits);
}

#[test]
fn old_writer_keeps_every_bit_of_wide_codes() {
    // a 10-bit code written after 7 pending bits spans more than 16 bits
    let bits: Vec<u8> = (0..1560u32).map(|i| (i % 256) as u8).collect();
    let compressed = to_lzw_blocks_old(&bits, 1560, 1, 1);
    assert_eq!(from_lzw_blocks_old(&compressed, 1560, 1, 1), bits);
}

#[test]
fn old_reader_refuses_an_image_too_small_for_the_stream() {
    let bits: Vec<u8> = (0..600u32).map(|i| (i % 7) as u8).collect();
    let compressed = to_lzw_blocks_old(&bits, 20, 10, 3);
    assert_eq!(try_from_lzw_blocks_old(&compressed, 20, 10, 3), Some(bits));
    assert_eq!(try_from_lzw_blocks_old(&compressed, 10, 10, 3), None);
    assert_eq!(try_from_lzw_blocks_old(&[], 2, 2, 1), None);
}
