//! A DEFLATE (RFC 1951) compressor core.
//!
//! The crate turns an input byte buffer into a DEFLATE bitstream:
//! LZ77 factorization over a 32 KiB sliding window, length-limited
//! Huffman code construction, block splitting with an exact fixed/dynamic
//! cost comparison, and LSB-first bit packing.  The gzip framing around
//! the payload (header, CRC-32 trailer) is left to the caller.

pub mod bitstream;
pub mod deflate;
pub mod huffman;
