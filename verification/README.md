# lib: compression codecs verified with Verus

Encoders and decoders for DEFLATE, gzip, bzip2, LZ4 frames and LZHUF, with
the pieces they are made of: bit readers and writers, canonical Huffman
tables and decoders, LZSS windows and matchers, a suffix-array (SA-IS) based
Burrows-Wheeler transform, move-to-front coding, and the CRC-32, Adler-32
and xxHash32 checksums.

Every function in `src/` is verified; its contract (`requires`/`ensures`)
says what it computes over mathematical models (`Seq`, `int`, spec
functions). Encoders and decoders work a byte at a time: each has a `next`
method that takes its input source and returns the next output byte.

## Layout

- `src/bit_reader.rs`, `src/bit_writer.rs`, `src/bit_vector.rs`,
  `src/bitio/`: bit-level I/O, most or least significant bit first, with a
  round-trip law between writer and reader.
- `src/huffman/`, `src/huffman_encoder.rs`, `src/internal/`: code length
  tables (length-limited), canonical codes, table-driven decoding with a law
  of unique decoding.
- `src/lzss/`: the sliding dictionary, the LZSS encoder (with a law that
  its codes expand back to the input) and decoder.
- `src/deflate/`, `src/gzip/`: DEFLATE (RFC 1951) and gzip (RFC 1952).
- `src/bzip2/`, `src/suffix_array/`: bzip2 and the sorted rotations it is
  built on; move-to-front with its round-trip law.
- `src/lz4/`: the LZ4 frame format, with the law that the decoder reads
  back, block by block, the frame the encoder writes.
- `src/adler32.rs`, `src/crc32.rs`, `src/xxhash.rs`: checksums, each
  specified by a spec function over the bytes hashed.
- `tests/`: scenario and round-trip tests for every codec.
