//! End-to-end scenarios: the DEFLATE payload must be decodable by an
//! independent RFC 1951 decoder, and the gzip-framed output by an
//! RFC 1952 decoder, reproducing the input exactly.

use std::io::Read;

use deflater::deflate::deflate;
use deflater::deflate::lempel_ziv::lempel_ziv;
use deflater::deflate::Token;

/// CRC-32 (IEEE, reflected) over the whole buffer, bit by bit.
fn crc32(data: &[u8]) -> u32 {
    let mut crc: u32 = 0xFFFF_FFFF;
    for &b in data {
        crc ^= b as u32;
        for _ in 0..8 {
            if crc & 1 == 1 {
                crc = (crc >> 1) ^ 0xEDB8_8320;
            } else {
                crc >>= 1;
            }
        }
    }
    !crc
}

/// Wraps a DEFLATE payload in the fixed gzip framing.
fn gzip_wrap(input: &[u8], payload: &[u8]) -> Vec<u8> {
    let mut out = vec![0x1F, 0x8B, 0x08, 0x00, 0x00, 0x00, 0x00, 0x00, 0x00, 0xFF];
    out.extend_from_slice(payload);
    out.extend_from_slice(&crc32(input).to_le_bytes());
    out.extend_from_slice(&(input.len() as u32).to_le_bytes());
    out
}

fn inflate_raw(payload: &[u8]) -> Vec<u8> {
    let mut decoder = flate2::read::DeflateDecoder::new(payload);
    let mut out = Vec::new();
    decoder.read_to_end(&mut out).expect("payload must be a valid DEFLATE stream");
    out
}

fn gunzip(framed: &[u8]) -> Vec<u8> {
    let mut decoder = flate2::read::GzDecoder::new(framed);
    let mut out = Vec::new();
    decoder.read_to_end(&mut out).expect("framed output must be a valid gzip file");
    out
}

fn assert_round_trip(input: &[u8]) -> Vec<u8> {
    let payload = deflate(input);
    assert_eq!(inflate_raw(&payload), input);
    assert_eq!(gunzip(&gzip_wrap(input, &payload)), input);
    payload
}

#[test]
fn empty_input_single_final_block() {
    let payload = assert_round_trip(b"");
    assert!(payload.len() >= 1);
    // BFINAL set, BTYPE is fixed Huffman codes.
    assert_eq!(payload[0] & 1, 1);
    assert_eq!((payload[0] >> 1) & 3, 1);
}

#[test]
fn single_byte() {
    let payload = assert_round_trip(b"a");
    let btype = (payload[0] >> 1) & 3;
    assert!(btype == 1 || btype == 2);
    let tokens = lempel_ziv(b"a");
    assert_eq!(tokens.len(), 1);
    assert!(matches!(tokens[0], Token::Literal(b'a')));
}

#[test]
fn run_of_twelve_uses_distance_one() {
    let input = b"aaaaaaaaaaaa";
    assert_round_trip(input);
    let tokens = lempel_ziv(input);
    let has_dist_one = tokens.iter().any(|t| matches!(t, Token::Repeat(_, 1)));
    assert!(has_dist_one);
}

#[test]
fn periodic_input_uses_len_nine_dist_three() {
    let input = b"abcabcabcabc";
    assert_round_trip(input);
    let tokens = lempel_ziv(input);
    let has_nine_three = tokens.iter().any(|t| matches!(t, Token::Repeat(9, 3)));
    assert!(has_nine_three);
}

#[test]
fn all_byte_values_encode_as_literals() {
    let input: Vec<u8> = (0u8..=255).collect();
    assert_round_trip(&input);
    let tokens = lempel_ziv(&input);
    assert_eq!(tokens.len(), 256);
    for (i, t) in tokens.iter().enumerate() {
        assert!(matches!(t, Token::Literal(b) if *b == i as u8));
    }
}

#[test]
fn incompressible_data_stays_within_two_percent() {
    // 64 KiB of fixed-seed pseudo-random bytes (xorshift64*).
    let mut state: u64 = 0x9E37_79B9_7F4A_7C15;
    let mut input = Vec::with_capacity(65536);
    while input.len() < 65536 {
        state ^= state >> 12;
        state ^= state << 25;
        state ^= state >> 27;
        let word = state.wrapping_mul(0x2545_F491_4F6C_DD1D);
        input.extend_from_slice(&word.to_le_bytes());
    }
    let payload = assert_round_trip(&input);
    assert!(payload.len() <= input.len() + input.len() / 50 + 64);
}

#[test]
fn longer_text_round_trips() {
    let mut input = Vec::new();
    for i in 0..2000u32 {
        input.extend_from_slice(b"the quick brown fox jumps over the lazy dog ");
        input.extend_from_slice(i.to_string().as_bytes());
    }
    let payload = assert_round_trip(&input);
    // Repetitive text must actually compress.
    assert!(payload.len() < input.len() / 2);
}

#[test]
fn encoding_is_deterministic() {
    let mut input = Vec::new();
    for i in 0..5000u32 {
        input.push((i % 251) as u8);
        input.push((i % 7) as u8);
    }
    let first = deflate(&input);
    let second = deflate(&input);
    assert_eq!(first, second);
}

#[test]
fn header_never_stored_or_reserved() {
    let samples: Vec<Vec<u8>> = vec![
        b"".to_vec(),
        b"x".to_vec(),
        b"hello hello hello hello".to_vec(),
        (0u8..=255).collect(),
        vec![7u8; 5000],
    ];
    for input in samples {
        let payload = deflate(&input);
        let btype = (payload[0] >> 1) & 3;
        assert!(btype == 1 || btype == 2);
    }
}

#[test]
fn match_correctness_of_tokens() {
    let mut input = Vec::new();
    for i in 0..600u32 {
        input.extend_from_slice(b"abcabcXabc");
        input.push((i % 13) as u8);
    }
    let tokens = lempel_ziv(&input);
    // Replay the tokens with an LZ77 decoder and compare.
    let mut out: Vec<u8> = Vec::new();
    for t in &tokens {
        match t {
            Token::Literal(b) => out.push(*b),
            Token::Repeat(len, dist) => {
                let d = *dist as usize;
                assert!(1 <= d && d <= out.len());
                assert!(3 <= *len && *len <= 258);
                for _ in 0..*len {
                    let b = out[out.len() - d];
                    out.push(b);
                }
            },
        }
    }
    assert_eq!(out, input);
}
