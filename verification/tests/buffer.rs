use cipher_modes::buffer::FixedBuffer;

// push_slice copies only what fits and reports the count; callers loop.
#[test]
fn push_slice_fills_to_capacity() {
    let mut buf = FixedBuffer::new(4);
    assert!(buf.is_empty());
    assert!(!buf.is_full());
    assert_eq!(buf.capacity(), 4);

    assert_eq!(buf.push_slice(&[1, 2, 3, 4, 5, 6]), 4);
    assert!(buf.is_full());
    assert_eq!(buf.len(), 4);
    assert_eq!(buf.push_slice(&[7]), 0);

    let block = buf.extract();
    assert_eq!(block, vec![1, 2, 3, 4]);
    assert!(buf.is_empty());
    assert_eq!(buf.capacity(), 4);
}

// A partial push leaves room that a later push keeps filling in order.
#[test]
fn push_slice_accumulates_in_order() {
    let mut buf = FixedBuffer::new(4);
    assert_eq!(buf.push_slice(&[9]), 1);
    assert_eq!(buf.push_slice(&[8, 7]), 2);
    assert!(!buf.is_full());
    assert_eq!(buf.push_slice(&[6, 5]), 1);
    assert_eq!(buf.extract(), vec![9, 8, 7, 6]);
}

// override_contents replaces contents and length outright, as a fresh
// buffer filled with one push would stand.
#[test]
fn override_contents_resets_state() {
    let mut buf = FixedBuffer::new(4);
    buf.push_slice(&[1, 2, 3]);
    buf.override_contents(&[4, 5, 6, 7]);
    assert!(buf.is_full());
    assert_eq!(buf.extract(), vec![4, 5, 6, 7]);

    buf.override_contents(&[]);
    assert!(buf.is_empty());
}
