use lib::cbuffer::CircularBuffer;
use lib::internal::circular_buffer::CircularBuffer as RingBuffer;

#[test]
fn cbuffer_add() {
    let mut buf = CircularBuffer::new(16);
    for d in 0..17usize {
        buf.push(d);
    }

    let mut it = buf.clone().into_iter();
    for d in 0..16usize {
        let i = it.next().unwrap();
        assert_eq!(i, 16 - d);
    }

    for d in 17..21usize {
        buf.push(d);
    }

    let mut it = buf.clone().into_iter();
    for d in 0..16usize {
        let i = it.next().unwrap();
        assert_eq!(i, 20 - d);
    }
}

#[test]
fn cbuffer_append() {
    let mut buf = CircularBuffer::new(16);
    buf.append(&(1..17).collect::<Vec<usize>>());

    let mut it = buf.clone().into_iter();
    for d in 0..16usize {
        assert_eq!(it.next().unwrap(), 16 - d);
    }

    buf.append(&(17..21).collect::<Vec<usize>>());

    let mut it = buf.clone().into_iter();
    for d in 0..16usize {
        assert_eq!(it.next().unwrap(), 20 - d);
    }

    buf.append(&(1..17).collect::<Vec<usize>>());

    let mut it = buf.clone().into_iter();
    for d in 0..16usize {
        assert_eq!(it.next().unwrap(), 16 - d);
    }
}

#[test]
fn circular_buffer_add() {
    let mut buf = RingBuffer::new(16);
    for d in 0..17usize {
        buf.push(d);
    }

    for d in 0..16usize {
        assert_eq!(*buf.get(d), 16 - d);
    }

    for d in 17..21usize {
        buf.push(d);
    }

    for d in 0..16usize {
        assert_eq!(*buf.get(d), 20 - d);
    }
}

#[test]
fn circular_buffer_append() {
    let mut buf = RingBuffer::new(16);
    buf.append(&(1..17).collect::<Vec<usize>>());

    for d in 0..16usize {
        assert_eq!(*buf.get(d), 16 - d);
    }

    buf.append(&(17..21).collect::<Vec<usize>>());

    for d in 0..16usize {
        assert_eq!(*buf.get(d), 20 - d);
    }

    buf.append(&(1..17).collect::<Vec<usize>>());

    for d in 0..16usize {
        assert_eq!(*buf.get(d), 16 - d);
    }
}

#[test]
fn cbuffer_len_and_cap() {
    let mut buf: CircularBuffer<u8> = CircularBuffer::new(4);
    assert_eq!(buf.cap(), 4);
    assert_eq!(buf.len(), 0);
    buf.push(1);
    buf.push(2);
    assert_eq!(buf.len(), 2);
    for b in 3..10u8 {
        buf.push(b);
    }
    assert_eq!(buf.len(), 4);
    assert_eq!(*buf.get(0), 9);
    assert_eq!(*buf.get(3), 6);
}
