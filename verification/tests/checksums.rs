use lib::adler32::Adler32;
use lib::crc32::{ieee_normal, ieee_reverse};
use lib::xxhash::XXH32;

fn xxh32(seed: u32, input: &[u8]) -> u64 {
    let mut digest = XXH32::new(seed);
    digest.write(input);
    digest.finish()
}

fn xxh32_check(seed: u32, input: &[u8], result: u32) {
    assert_eq!(xxh32(seed, input), u64::from(result));
}

#[test]
fn test_ieee_reverse() {
    let mut hasher = ieee_reverse().build_hasher();
    hasher.write(b"123456789");
    assert_eq!(hasher.finish(), 0xcbf4_3926);
}

#[test]
fn crc32_normal_check_value() {
    // CRC-32/BZIP2 check value.
    let mut hasher = ieee_normal().build_hasher();
    hasher.write(b"123456789");
    assert_eq!(hasher.finish(), 0xfc89_1918);
}

#[test]
fn crc32_bytewise_equals_slice() {
    let mut a = ieee_reverse().build_hasher();
    let mut b = ieee_reverse().build_hasher();
    a.write(b"hello world");
    for &c in b"hello world" {
        b.write_u8(c);
    }
    assert_eq!(a.finish(), b.finish());
}

#[test]
fn test_xxh32() {
    xxh32_check(12345, b"test", 3834992036);
    xxh32_check(0, b"a", 1426945110);
    xxh32_check(1, b"a", 4111757423);
    xxh32_check(0xFFFF_FFFF, b"a", 3443684653);
}

#[test]
fn xxh32_update() {
    let mut digest = XXH32::default();
    digest.write_u8(b'a');
    assert_eq!(digest.finish(), xxh32(0, b"a"));
    digest.write_u8(b'b');
    assert_eq!(digest.finish(), xxh32(0, b"ab"));
    digest.write_u8(b'c');
    assert_eq!(digest.finish(), xxh32(0, b"abc"));
    digest.write_u8(b'd');
    assert_eq!(digest.finish(), xxh32(0, b"abcd"));
    digest.write_u8(b'e');
    assert_eq!(digest.finish(), xxh32(0, b"abcde"));
    digest.write_u8(b'f');
    assert_eq!(digest.finish(), xxh32(0, b"abcdef"));
    digest.write_u8(b'g');
    assert_eq!(digest.finish(), xxh32(0, b"abcdefg"));
    digest.write_u8(b'h');
    assert_eq!(digest.finish(), xxh32(0, b"abcdefgh"));
    digest.write_u8(b'i');
    assert_eq!(digest.finish(), xxh32(0, b"abcdefghi"));
    digest.write_u8(b'j');
    assert_eq!(digest.finish(), xxh32(0, b"abcdefghij"));
    digest.write_u8(b'k');
    assert_eq!(digest.finish(), xxh32(0, b"abcdefghijk"));
    digest.write_u8(b'l');
    assert_eq!(digest.finish(), xxh32(0, b"abcdefghijkl"));
    digest.write_u8(b'm');
    digest.write_u8(b'n');
    digest.write_u8(b'o');
    assert_eq!(digest.finish(), xxh32(0, b"abcdefghijklmno"));
    digest.write_u8(b'p');
    assert_eq!(digest.finish(), xxh32(0, b"abcdefghijklmnop"));
    digest.write_u8(b'q');
    assert_eq!(digest.finish(), xxh32(0, b"abcdefghijklmnopq"));
    digest.write_u8(b'r');
    digest.write_u8(b's');
    digest.write_u8(b't');
    assert_eq!(
        digest.finish(),
        xxh32(0, b"abcdefghijklmnopqrst")
    );
}
#[test]
fn xxh32_empty_and_long() {
    xxh32_check(0, b"", 0x02cc_5d05);
    let long: Vec<u8> = (0..100u8).collect();
    let mut split = XXH32::new(7);
    split.write(&long[..33]);
    split.write(&long[33..]);
    assert_eq!(split.finish(), xxh32(7, &long));
}

#[test]
fn adler32_known_value() {
    let mut a = Adler32::new();
    a.write(b"Wikipedia");
    assert_eq!(a.finish(), 0x11E6_0398);
    let mut e = Adler32::new();
    e.write(b"");
    assert_eq!(e.finish(), 1);
}

#[test]
fn adler32_split_writes() {
    let mut a = Adler32::new();
    a.write(b"Wiki");
    a.write_u8(b'p');
    a.write(b"edia");
    assert_eq!(a.finish(), 0x11E6_0398);
}

#[test]
fn xxh32_large_length_wraps() {
    let input = vec![0xABu8; 100000];
    let h1 = xxh32(7, &input);
    let mut digest = XXH32::new(7);
    digest.write(&input[..33333]);
    digest.write(&input[33333..]);
    assert_eq!(digest.finish(), h1);
}
