use kawa::ring_buffer::{new, RbState, RingBuffer, Step};

#[test]
fn test_rb_write() {
    let (w, _r) = new(10);
    w.write(&vec![1; 8]).unwrap();
    assert_eq!(w.rp(), 0);
    assert_eq!(w.wp(), 8);
    w.write(&vec![1; 2]).unwrap();
    assert_eq!(w.wp(), 0);
}

#[test]
fn test_rb_read() {
    let (w, r) = new(10);
    w.write(&vec![1; 8]).unwrap();

    r.read(&mut vec![0; 5]).unwrap();
    assert_eq!(w.rp(), 5);
    assert_eq!(w.len(), 3);

    w.write(&vec![1; 6]).unwrap();
    assert_eq!(w.wp(), 4);
    assert_eq!(w.len(), 9);

    assert_eq!(w.try_write_ring(&vec![1; 5]), 1);
    assert_eq!(w.wp(), w.rp());
    assert_eq!(w.len(), 10);

    r.read(&mut vec![0; 5]).unwrap();
    assert_eq!(w.rp(), 0);
    assert_eq!(w.len(), 5);
}

#[test]
fn ring_gives_bytes_back_in_order_across_the_wrap() {
    let mut rb = RingBuffer::new(4);
    assert_eq!(rb.try_write(&[1, 2, 3]), 3);
    let mut out = [0u8; 2];
    assert_eq!(rb.try_read(&mut out), 2);
    assert_eq!(out, [1, 2]);
    // Only three bytes fit: one is held, three are free.
    assert_eq!(rb.try_write(&[4, 5, 6, 7]), 3);
    assert_eq!(rb.len(), 4);
    let mut all = [9u8; 6];
    assert_eq!(rb.try_read(&mut all), 4);
    assert_eq!(all, [3, 4, 5, 6, 9, 9]);
    assert_eq!(rb.len(), 0);
    assert_eq!(rb.cap(), 4);
}

#[test]
fn ring_of_no_room_takes_nothing() {
    let mut rb = RingBuffer::new(0);
    assert_eq!(rb.try_write(&[1, 2]), 0);
    let mut out = [7u8; 2];
    assert_eq!(rb.try_read(&mut out), 0);
    assert_eq!(out, [7, 7]);
}

#[test]
fn state_writes_go_to_the_ring_and_read_back_in_order() {
    let mut st = RbState::new(8);
    st.header_written();
    assert_eq!(st.write(&[1, 2, 3]), Ok(3));
    assert_eq!(st.take_header(), Vec::<u8>::new());
    let mut out = [0u8; 4];
    assert_eq!(st.read(&mut out), Ok(3));
    assert_eq!(out, [1, 2, 3, 0]);
    assert!(!st.done());
    st.cancel();
    assert!(st.done());
    assert_eq!(st.read(&mut out), Err(()));
}

#[test]
fn a_canceled_ring_refuses_once_empty() {
    let (w, r) = new(4);
    assert_eq!(w.write(&[1, 2]), Ok(2));
    r.cancel();
    assert!(w.stopped());
    assert!(r.stopped());
    assert!(!r.done());
    let mut out = [0u8; 4];
    assert_eq!(r.read(&mut out), Ok(2));
    assert!(r.done());
    assert_eq!(r.read(&mut out), Err(()));
    assert_eq!(w.write(&[1, 2, 3, 4, 5]), Ok(4));
    assert_eq!(w.write(&[1]), Err(()));
}

#[test]
fn blocking_steps_fill_the_buffer_then_finish() {
    let (w, r) = new(4);
    let data = [1u8, 2, 3, 4, 5, 6];
    assert!(matches!(w.write_step(&data, 0), Step::Moved(4)));
    assert!(matches!(w.write_step(&data, 4), Step::Wait));
    let mut out = [0u8; 3];
    assert!(matches!(r.read_step(&mut out, 0), Step::Moved(3)));
    assert_eq!(out, [1, 2, 3]);
    assert!(matches!(r.read_step(&mut out, 3), Step::Finished(3)));
    assert!(matches!(w.write_step(&data, 4), Step::Moved(6)));
    assert!(matches!(w.write_step(&data, 6), Step::Finished(6)));
    let mut out = [9u8; 4];
    assert!(matches!(r.read_step(&mut out, 1), Step::Moved(4)));
    assert_eq!(out, [9, 4, 5, 6]);
}

#[test]
fn blocking_read_waits_until_canceled_and_drained() {
    let (w, r) = new(4);
    let mut out = [0u8; 2];
    assert!(matches!(r.read_step(&mut out, 0), Step::Wait));
    assert!(matches!(w.write_step(&[7u8], 0), Step::Moved(1)));
    w.cancel();
    assert!(matches!(r.read_step(&mut out, 0), Step::Moved(1)));
    assert!(matches!(r.read_step(&mut out, 1), Step::Finished(1)));
    assert_eq!(out, [7, 0]);
}
