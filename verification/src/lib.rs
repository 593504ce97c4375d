//! Compression building blocks with machine-checked contracts: bit vectors,
//! checksums, circular buffers, move-to-front coders and Huffman tables.

pub mod bit_vector;
pub mod bit_reader;
pub mod bit_writer;
pub mod bitio;
pub mod error;
pub mod bzip2;
pub mod lzhuf_compression;
pub mod adler32;
pub mod crc32;
pub mod xxhash;
pub mod cbuffer;
pub mod internal;
pub mod bitset;
pub mod read;
pub mod huffman_encoder;
pub mod suffix_array;
pub mod lzss;
pub mod deflate;
pub mod gzip;
pub mod lz4;
pub mod lzhuf;
pub mod compress;
pub mod io_queue;
pub mod huffman;
