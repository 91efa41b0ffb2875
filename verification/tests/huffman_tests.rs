//! Unit tests of the Huffman utilities, the RFC code tables and the
//! block splitter.

use deflater::deflate::block_splitter::block_split;
use deflater::deflate::block_splitter::Block;
use deflater::deflate::deflate_code_of_dist;
use deflater::deflate::deflate_code_of_len;
use deflater::deflate::lempel_ziv::lempel_ziv;
use deflater::deflate::Token;
use deflater::huffman::calc_codes;
use deflater::huffman::gen_lengths;
use deflater::huffman::HuffmanError;

#[test]
fn canonical_codes_for_known_lengths() {
    // Lengths [2,1,3,3]: canonical codes 10, 0, 110, 111, then
    // bit-reversed within their own lengths.
    let codes = calc_codes(&[2, 1, 3, 3]);
    assert_eq!(codes.len(), 4);
    assert_eq!((codes[0].code, codes[0].length), (0b01, 2));
    assert_eq!((codes[1].code, codes[1].length), (0b0, 1));
    assert_eq!((codes[2].code, codes[2].length), (0b011, 3));
    assert_eq!((codes[3].code, codes[3].length), (0b111, 3));
}

#[test]
fn canonical_codes_skip_unused_symbols() {
    let codes = calc_codes(&[0, 1, 0, 1]);
    assert_eq!((codes[0].code, codes[0].length), (0, 0));
    assert_eq!((codes[1].code, codes[1].length), (0, 1));
    assert_eq!((codes[2].code, codes[2].length), (0, 0));
    assert_eq!((codes[3].code, codes[3].length), (1, 1));
}

#[test]
fn gen_lengths_tight_bound_forces_balance() {
    // Four live symbols under a 2-bit bound: only all-2 satisfies Kraft.
    let lens = gen_lengths(&[5, 1, 1, 1], 2).unwrap();
    assert_eq!(lens, vec![2, 2, 2, 2]);
}

#[test]
fn gen_lengths_two_symbols() {
    let lens = gen_lengths(&[3, 1], 5).unwrap();
    assert_eq!(lens, vec![1, 1]);
}

#[test]
fn gen_lengths_single_live_symbol_gets_length_one() {
    let lens = gen_lengths(&[0, 7, 0], 15).unwrap();
    assert_eq!(lens, vec![0, 1, 0]);
}

#[test]
fn gen_lengths_no_live_symbols() {
    let lens = gen_lengths(&[0, 0, 0], 15).unwrap();
    assert_eq!(lens, vec![0, 0, 0]);
}

#[test]
fn gen_lengths_infeasible_bound_is_rejected() {
    let r = gen_lengths(&[1, 1, 1, 1, 1], 2);
    assert_eq!(r, Err(HuffmanError::LengthLimitInfeasible));
}

#[test]
fn gen_lengths_kraft_equality_on_mixed_weights() {
    let weights: Vec<u64> = vec![90, 2, 0, 24, 1, 1, 7, 0, 0, 3, 13, 5, 1, 1, 2, 61];
    let lens = gen_lengths(&weights, 15).unwrap();
    let mut kraft: u64 = 0;
    for (w, l) in weights.iter().zip(lens.iter()) {
        assert_eq!(*w == 0, *l == 0);
        assert!(*l <= 15);
        if *l > 0 {
            kraft += 1u64 << (15 - l);
        }
    }
    assert_eq!(kraft, 1 << 15);
}

#[test]
fn gen_lengths_respects_the_bound() {
    // Fibonacci-like weights force deep trees without a bound; with one,
    // every length stays within it and Kraft still holds with equality.
    let weights: Vec<u64> = vec![1, 1, 2, 3, 5, 8, 13, 21, 34, 55, 89, 144, 233, 377, 610, 987];
    let lens = gen_lengths(&weights, 7).unwrap();
    let mut kraft: u64 = 0;
    for l in &lens {
        assert!(1 <= *l && *l <= 7);
        kraft += 1u64 << (7 - l);
    }
    assert_eq!(kraft, 1 << 7);
}

#[test]
fn length_code_table_edges() {
    assert_eq!(deflate_code_of_len(3), (0, 0, 257));
    assert_eq!(deflate_code_of_len(10), (0, 0, 264));
    assert_eq!(deflate_code_of_len(11), (0, 1, 265));
    assert_eq!(deflate_code_of_len(130), (15, 4, 280));
    assert_eq!(deflate_code_of_len(257), (30, 5, 284));
    assert_eq!(deflate_code_of_len(258), (0, 0, 285));
}

#[test]
fn distance_code_table_edges() {
    assert_eq!(deflate_code_of_dist(1), (0, 0, 0));
    assert_eq!(deflate_code_of_dist(4), (0, 0, 3));
    assert_eq!(deflate_code_of_dist(5), (0, 1, 4));
    assert_eq!(deflate_code_of_dist(768), (255, 8, 18));
    assert_eq!(deflate_code_of_dist(24577), (0, 13, 29));
    assert_eq!(deflate_code_of_dist(32768), (8191, 13, 29));
}

#[test]
fn blocks_partition_the_token_stream() {
    let mut input = Vec::new();
    for i in 0..4000u32 {
        input.push((i % 17) as u8);
        input.push((i % 3) as u8);
    }
    let tokens = lempel_ziv(&input);
    let blocks = block_split(&tokens);
    let mut rebuilt: Vec<Token> = Vec::new();
    for b in &blocks {
        match b {
            Block::FixedCodes { tokens } => rebuilt.extend_from_slice(tokens),
            Block::DynamicCodes { tokens, .. } => rebuilt.extend_from_slice(tokens),
        }
    }
    assert_eq!(rebuilt, tokens);
}

#[test]
fn dynamic_blocks_carry_well_formed_lengths() {
    let mut input = Vec::new();
    for i in 0..30000u32 {
        input.push((i % 11) as u8);
        input.push(b'e');
        input.push((i % 29) as u8);
    }
    let tokens = lempel_ziv(&input);
    let blocks = block_split(&tokens);
    assert!(blocks.len() >= 1);
    let mut saw_dynamic = false;
    for b in &blocks {
        if let Block::DynamicCodes {
            tokens: _,
            literal_code_lens,
            distance_code_lens,
            clen_code_lens,
        } = b
        {
            saw_dynamic = true;
            assert_eq!(literal_code_lens.len(), 286);
            assert_eq!(distance_code_lens.len(), 30);
            assert_eq!(clen_code_lens.len(), 19);
            assert!(literal_code_lens[256] != 0);
            assert!(literal_code_lens.iter().all(|l| *l <= 15));
            assert!(distance_code_lens.iter().all(|l| *l <= 15));
            assert!(clen_code_lens.iter().all(|l| *l <= 7));
        }
    }
    assert!(saw_dynamic);
}
