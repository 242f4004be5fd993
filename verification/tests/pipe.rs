use rcore_os::pipe::{Pipe, PipeIo, PipeRingBuffer, RING_BUFFER_SIZE};

fn ring_with_writer() -> PipeRingBuffer {
    let mut ring = PipeRingBuffer::new();
    ring.set_write_end(7);
    ring
}

#[test]
fn a_new_ring_is_empty() {
    let ring = PipeRingBuffer::new();
    assert!(ring.check());
    assert_eq!(ring.available_read(), 0);
    assert_eq!(ring.available_write(), RING_BUFFER_SIZE);
    assert_eq!(ring.write_end(), None);
    assert_eq!(RING_BUFFER_SIZE, 32);
}

#[test]
fn what_can_be_read_and_written_adds_up() {
    let mut ring = ring_with_writer();
    for round in 0..100usize {
        assert_eq!(ring.available_read() + ring.available_write(), 32);
        if round % 3 == 2 {
            if ring.available_read() > 0 {
                ring.read_byte();
            }
        } else if ring.available_write() > 0 {
            ring.write_byte(round as u8);
        }
        assert!(ring.check());
    }
}

#[test]
fn bytes_leave_the_ring_in_the_order_they_came() {
    let mut ring = ring_with_writer();
    let mut next_in: u8 = 0;
    let mut next_out: u8 = 0;
    // fill, drain a part, fill again: the positions wrap round
    for _ in 0..10 {
        while ring.available_write() > 0 {
            ring.write_byte(next_in);
            next_in = next_in.wrapping_add(1);
        }
        assert_eq!(ring.available_read(), 32);
        for _ in 0..21 {
            assert_eq!(ring.read_byte(), next_out);
            next_out = next_out.wrapping_add(1);
        }
        assert_eq!(ring.available_read(), 11);
        assert_eq!(ring.available_write(), 21);
    }
    while ring.available_read() > 0 {
        assert_eq!(ring.read_byte(), next_out);
        next_out = next_out.wrapping_add(1);
    }
    assert_eq!(next_in, next_out);
    assert_eq!(ring.available_write(), 32);
}

#[test]
fn the_write_end_is_closed_when_no_handle_is_left() {
    let ring = ring_with_writer();
    assert_eq!(ring.write_end(), Some(7));
    assert!(ring.all_write_ends_closed(0));
    assert!(!ring.all_write_ends_closed(1));
    assert!(!ring.all_write_ends_closed(3));
}

#[test]
fn the_two_ends_of_a_pipe() {
    let read_end = Pipe::read_end_with_buffer(4);
    let write_end = Pipe::write_end_with_buffer(4);
    assert!(read_end.readable() && !read_end.writable());
    assert!(write_end.writable() && !write_end.readable());
    assert_eq!(read_end.buffer(), 4);
    assert_eq!(write_end.buffer(), 4);
}

#[test]
fn a_write_fills_the_ring_and_then_waits() {
    let mut ring = ring_with_writer();
    let write_end = Pipe::write_end_with_buffer(0);
    let read_end = Pipe::read_end_with_buffer(0);
    let data: Vec<u8> = (100..170u8).collect();
    assert_eq!(write_end.write(&mut ring, &data, 0), PipeIo::Suspend(32));
    assert_eq!(write_end.write(&mut ring, &data, 32), PipeIo::Suspend(32));
    let mut buf = [0u8; 16];
    assert_eq!(read_end.read(&mut ring, &mut buf, 0, 1), PipeIo::Done(16));
    assert_eq!(buf.to_vec(), (100..116u8).collect::<Vec<u8>>());
    assert_eq!(write_end.write(&mut ring, &data, 32), PipeIo::Suspend(48));
    let mut all = [0u8; 70];
    all[..16].copy_from_slice(&buf);
    assert_eq!(read_end.read(&mut ring, &mut all, 16, 1), PipeIo::Suspend(48));
    assert_eq!(write_end.write(&mut ring, &data, 48), PipeIo::Done(70));
    assert_eq!(read_end.read(&mut ring, &mut all, 48, 1), PipeIo::Suspend(70));
    assert_eq!(all.to_vec(), data);
    // nothing is written once the data is out
    assert_eq!(write_end.write(&mut ring, &data, 70), PipeIo::Done(70));
    assert_eq!(ring.available_read(), 0);
}

#[test]
fn a_read_returns_when_its_buffer_is_full_or_the_writers_are_gone() {
    let mut ring = ring_with_writer();
    let write_end = Pipe::write_end_with_buffer(0);
    let read_end = Pipe::read_end_with_buffer(0);
    assert_eq!(write_end.write(&mut ring, b"abcdef", 0), PipeIo::Done(6));
    let mut buf = [b'.'; 4];
    assert_eq!(read_end.read(&mut ring, &mut buf, 1, 1), PipeIo::Done(4));
    assert_eq!(&buf, b".abc");
    // the buffer is full at the start: nothing is taken
    assert_eq!(read_end.read(&mut ring, &mut buf, 4, 1), PipeIo::Done(4));
    assert_eq!(ring.available_read(), 3);
    // the writers are gone: what is left, then nothing
    let mut buf = [b'.'; 8];
    assert_eq!(read_end.read(&mut ring, &mut buf, 0, 0), PipeIo::Done(3));
    assert_eq!(&buf, b"def.....");
    assert_eq!(read_end.read(&mut ring, &mut buf, 0, 0), PipeIo::Done(0));
    assert_eq!(&buf, b"def.....");
    // with a writer left the reader waits
    assert_eq!(read_end.read(&mut ring, &mut buf, 0, 2), PipeIo::Suspend(0));
}
