use lib::read::{Read, ReadError, Take};

#[test]
fn read_to_end() {
    let mut c: &[u32] = &[];
    let mut v = Vec::new();
    assert_eq!(c.read_to_end(&mut v).unwrap(), 0);
    assert_eq!(v, []);

    let mut c: &[u32] = &[1];
    let mut v = Vec::new();
    assert_eq!(c.read_to_end(&mut v).unwrap(), 1);
    assert_eq!(v, [1]);

    let cap = 1024 * 1024;
    let data = (0..cap).map(|i| (i / 3) as u32).collect::<Vec<_>>();
    let mut v = Vec::new();
    let (a, b) = data.split_at(data.len() / 2);
    assert_eq!(a.clone().read_to_end(&mut v).unwrap(), a.len());
    assert_eq!(b.clone().read_to_end(&mut v).unwrap(), b.len());
    assert_eq!(v, data);
}

#[test]
fn read_exact() {
    let mut buf = [0_u32; 4];

    let mut c: &[u32] = &[];
    assert_eq!(c.read_exact(&mut buf).unwrap_err(), ReadError::UnexpectedEof);

    let c1: &[u32] = &[1, 2, 3];
    let c2: &[u32] = &[4, 5, 6, 7, 8, 9];
    let mut c = c1.chain(c2);
    c.read_exact(&mut buf).unwrap();
    assert_eq!(&buf, &[1, 2, 3, 4]);
    c.read_exact(&mut buf).unwrap();
    assert_eq!(&buf, &[5, 6, 7, 8]);
    assert_eq!(c.read_exact(&mut buf).unwrap_err(), ReadError::UnexpectedEof);
}

#[test]
fn read_exact_slice() {
    let mut buf = [0; 4];

    let mut c = &b""[..];
    assert_eq!(c.read_exact(&mut buf).unwrap_err(), ReadError::UnexpectedEof);

    let mut c = &b"123"[..];
    assert_eq!(c.read_exact(&mut buf).unwrap_err(), ReadError::UnexpectedEof);

    let mut c = &b"1234"[..];
    c.read_exact(&mut buf).unwrap();
    assert_eq!(&buf, b"1234");

    let mut c = &b"56789"[..];
    c.read_exact(&mut buf).unwrap();
    assert_eq!(&buf, b"5678");
    assert_eq!(c, b"9");
}

struct R;

impl Read<u32> for R {
    fn read(&mut self, _: &mut [u32]) -> Result<usize, ReadError> {
        Err(ReadError::Other)
    }
}

#[test]
fn take_eof() {
    let mut buf = [0; 1];
    assert_eq!(0, R.take(0).read(&mut buf).unwrap());
}

#[test]
fn take_limits_items() {
    let data: &[u8] = &[1, 2, 3, 4, 5, 6];
    let mut t: Take<&[u8]> = data.take(4);
    let mut buf = [0u8; 3];
    assert_eq!(t.read(&mut buf).unwrap(), 3);
    assert_eq!(t.limit(), 1);
    assert_eq!(t.read(&mut buf).unwrap(), 1);
    assert_eq!(buf, [4, 2, 3]);
    assert_eq!(t.read(&mut buf).unwrap(), 0);
    t.set_limit(5);
    assert_eq!(t.read(&mut buf).unwrap(), 2);
    assert_eq!(buf, [5, 6, 3]);
    assert_eq!(*t.get_ref(), &[][..]);
}

#[test]
fn vec_reader_drains_front() {
    let mut v: Vec<u16> = vec![10, 20, 30];
    let mut buf = [0u16; 2];
    assert_eq!(v.read(&mut buf).unwrap(), 2);
    assert_eq!(buf, [10, 20]);
    assert_eq!(v, vec![30]);
    assert_eq!(v.read(&mut buf).unwrap(), 1);
    assert_eq!(buf, [30, 20]);
    assert!(v.is_empty());
}

#[test]
fn chain_parts_and_error_propagation() {
    let c1: &[u32] = &[1];
    let mut c = c1.chain(R);
    let mut buf = [0u32; 2];
    assert_eq!(c.read(&mut buf).unwrap(), 1);
    assert_eq!(c.read(&mut buf).unwrap_err(), ReadError::Other);
    let (first, _second) = c.get_ref();
    assert!(first.is_empty());
    let (first, _second) = c.into_inner();
    assert!(first.is_empty());
}

#[test]
fn initializer_flags() {
    let mut buf = [7u32; 3];
    let z = lib::read::Initializer::zeroing();
    assert!(z.should_initialize());
    z.initialize(&mut buf);
    assert_eq!(buf, [0, 0, 0]);
    let mut buf = [7u32; 3];
    let n = lib::read::Initializer::nop();
    assert!(!n.should_initialize());
    n.initialize(&mut buf);
    assert_eq!(buf, [7, 7, 7]);
}
