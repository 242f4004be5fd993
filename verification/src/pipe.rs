//! Pipes: a ring buffer of 32 bytes with a read end and a write end.
//!
//! Bytes leave the buffer in the order in which they entered it. A read
//! that finds the buffer empty, or a write that finds it full, does not
//! wait here: it says how far it came and asks to be called again after
//! the caller has let other threads run.
use vstd::prelude::*;

verus! {

/// Number of bytes a pipe holds.
pub const RING_BUFFER_SIZE: usize = 32;

/// Whether head and tail of the ring coincide because it is full or because
/// it is empty.
#[derive(Copy, Clone, PartialEq, Eq, Structural, Debug)]
pub enum RingBufferStatus {
    Full,
    Empty,
    Normal,
}

/// The ring buffer that the two ends of a pipe share.
pub struct PipeRingBuffer {
    arr: [u8; 32],
    head: usize,
    tail: usize,
    status: RingBufferStatus,
    write_end: Option<usize>,
}

/// How a read or a write on a pipe ended.
#[derive(Copy, Clone, PartialEq, Eq, Structural, Debug)]
pub enum PipeIo {
    /// The call is over; so many bytes were moved in all.
    Done(usize),
    /// So many bytes were moved so far; let other threads run, then call
    /// again with this count.
    Suspend(usize),
}

impl View for PipeRingBuffer {
    type V = Seq<u8>;

    /// The bytes in the buffer, oldest first.
    closed spec fn view(&self) -> Seq<u8> {
        Seq::new(self.spec_count() as nat, |i: int| self.arr@[(self.head + i) % 32])
    }
}

impl PipeRingBuffer {
    /// Number of bytes in the buffer.
    pub closed spec fn spec_count(&self) -> int {
        match self.status {
            RingBufferStatus::Empty => 0,
            RingBufferStatus::Full => 32,
            RingBufferStatus::Normal => if self.tail > self.head {
                self.tail - self.head
            } else {
                32 - self.head + self.tail
            },
        }
    }

    /// The place of the write end in the table of open files, once the
    /// write end was registered.
    pub closed spec fn spec_write_end(&self) -> Option<usize> {
        self.write_end
    }

    /// The invariant of the ring: head and tail lie in it, and they
    /// coincide exactly when it is full or empty.
    pub closed spec fn wf(&self) -> bool {
        &&& self.head < 32
        &&& self.tail < 32
        &&& (self.status == RingBufferStatus::Normal) == (self.head != self.tail)
    }

    /// A well-formed ring holds at most 32 bytes.
    pub proof fn lemma_len(&self)
        requires
            self.wf(),
        ensures
            self@.len() == self.spec_count(),
            0 <= self@.len() <= 32,
    {
    }

    /// Does the invariant of the ring hold?
    pub fn check(&self) -> (ok: bool)
        ensures
            ok == self.wf(),
    {
        self.head < RING_BUFFER_SIZE && self.tail < RING_BUFFER_SIZE && ((self.status
            == RingBufferStatus::Normal) == (self.head != self.tail))
    }

    /// An empty buffer without a write end.
    pub fn new() -> (ring: Self)
        ensures
            ring.wf(),
            ring@ == Seq::<u8>::empty(),
            ring.spec_write_end() is None,
    {
        let ring = Self {
            arr: [0u8; 32],
            head: 0,
            tail: 0,
            status: RingBufferStatus::Empty,
            write_end: None,
        };
        assert(ring@ =~= Seq::<u8>::empty());
        ring
    }

    /// Takes the oldest byte out of the buffer, which must not be empty.
    pub fn read_byte(&mut self) -> (b: u8)
        requires
            old(self).wf(),
            old(self)@.len() > 0,
        ensures
            final(self).wf(),
            b == old(self)@[0],
            final(self)@ == old(self)@.drop_first(),
            final(self).spec_write_end() == old(self).spec_write_end(),
    {
        self.status = RingBufferStatus::Normal;
        let b: u8 = self.arr[self.head];
        self.head = (self.head + 1) % RING_BUFFER_SIZE;
        if self.head == self.tail {
            self.status = RingBufferStatus::Empty;
        }
        assert(self@ =~= old(self)@.drop_first()) by {
            assert(self.spec_count() == old(self).spec_count() - 1);
            assert forall|i: int| 0 <= i < self.spec_count() implies self@[i] == old(self)@[i + 1] by {
                assert((self.head + i) % 32 == (old(self).head + i + 1) % 32);
            }
        }
        b
    }

    /// Puts `b` into the buffer, which must not be full.
    pub fn write_byte(&mut self, b: u8)
        requires
            old(self).wf(),
            old(self)@.len() < 32,
        ensures
            final(self).wf(),
            final(self)@ == old(self)@.push(b),
            final(self).spec_write_end() == old(self).spec_write_end(),
    {
        let ghost count = self.spec_count();
        self.status = RingBufferStatus::Normal;
        self.arr[self.tail] = b;
        self.tail = (self.tail + 1) % RING_BUFFER_SIZE;
        if self.head == self.tail {
            self.status = RingBufferStatus::Full;
        }
        assert(self@ =~= old(self)@.push(b)) by {
            assert(self.spec_count() == count + 1);
            assert((self.head + count) % 32 == old(self).tail);
            assert forall|i: int| 0 <= i < count implies self@[i] == old(self)@[i] by {
                assert((self.head + i) % 32 != old(self).tail);
            }
        }
    }

    /// Number of bytes that can be read.
    pub fn available_read(&self) -> (n: usize)
        requires
            self.wf(),
        ensures
            n == self@.len(),
    {
        if self.status == RingBufferStatus::Empty {
            0
        } else if self.tail > self.head {
            self.tail - self.head
        } else {
            RING_BUFFER_SIZE - self.head + self.tail
        }
    }

    /// Number of bytes that can be written.
    pub fn available_write(&self) -> (n: usize)
        requires
            self.wf(),
        ensures
            n == 32 - self@.len(),
    {
        if self.status == RingBufferStatus::Full {
            0
        } else {
            RING_BUFFER_SIZE - self.available_read()
        }
    }

    /// Is no file descriptor of the write end open any more, given that
    /// `handles` of them are open? The write end must have been
    /// registered.
    pub fn all_write_ends_closed(&self, handles: usize) -> (closed: bool)
        requires
            self.spec_write_end() is Some,
        ensures
            closed == (handles == 0),
    {
        handles == 0
    }

    /// Registers the write end, which has place `write_end` in the table
    /// of open files.
    pub fn set_write_end(&mut self, write_end: usize)
        ensures
            final(self).spec_write_end() == Some(write_end),
            final(self)@ == old(self)@,
            final(self).wf() == old(self).wf(),
    {
        self.write_end = Some(write_end);
    }

    /// The place of the write end in the table of open files.
    pub fn write_end(&self) -> (write_end: Option<usize>)
        ensures
            write_end == self.spec_write_end(),
    {
        self.write_end
    }
}

/// Bytes written to a pipe are read in the order in which they were
/// written: after `written` has gone into a buffer that held `held`, the
/// reads give first `held`, then `written`.
pub proof fn lemma_pipe_fifo(held: Seq<u8>, written: Seq<u8>, i: int)
    requires
        0 <= i < written.len(),
    ensures
        spec_after_writes(held, written) == held + written,
        spec_after_reads(spec_after_writes(held, written), held.len() + i)[0] == written[i],
        spec_after_reads(
            spec_after_writes(held, written),
            (held.len() + written.len()) as int,
        )
            == Seq::<u8>::empty(),
    decreases written.len(),
{
    lemma_after_writes(held, written);
    lemma_after_reads(held + written, held.len() + i);
    lemma_after_reads(held + written, (held.len() + written.len()) as int);
    assert((held + written).subrange(
        (held.len() + written.len()) as int,
        (held + written).len() as int,
    ) =~= Seq::<u8>::empty());
}

/// What a buffer holds after the bytes of `written` went in one by one.
pub open spec fn spec_after_writes(held: Seq<u8>, written: Seq<u8>) -> Seq<u8>
    decreases written.len(),
{
    if written.len() == 0 {
        held
    } else {
        spec_after_writes(held.push(written[0]), written.drop_first())
    }
}

/// What a buffer holds after `n` bytes were taken out one by one.
pub open spec fn spec_after_reads(held: Seq<u8>, n: int) -> Seq<u8>
    decreases n,
{
    if n <= 0 {
        held
    } else {
        spec_after_reads(held.drop_first(), n - 1)
    }
}

/// Writing byte by byte appends.
pub proof fn lemma_after_writes(held: Seq<u8>, written: Seq<u8>)
    ensures
        spec_after_writes(held, written) == held + written,
    decreases written.len(),
{
    if written.len() == 0 {
        assert(held + written =~= held);
    } else {
        lemma_after_writes(held.push(written[0]), written.drop_first());
        assert(held.push(written[0]) + written.drop_first() =~= held + written);
    }
}

/// Reading byte by byte takes from the front.
pub proof fn lemma_after_reads(held: Seq<u8>, n: int)
    requires
        0 <= n <= held.len(),
    ensures
        spec_after_reads(held, n) == held.subrange(n, held.len() as int),
    decreases n,
{
    if n <= 0 {
        assert(held.subrange(0, held.len() as int) =~= held);
    } else {
        lemma_after_reads(held.drop_first(), n - 1);
        assert(held.drop_first().subrange(n - 1, held.len() - 1) =~= held.subrange(
            n,
            held.len() as int,
        ));
    }
}

/// One end of a pipe.
#[derive(Copy, Clone, PartialEq, Eq, Structural, Debug)]
pub struct Pipe {
    readable: bool,
    writable: bool,
    buffer: usize,
}

impl Pipe {
    /// Can the end be read from?
    pub closed spec fn spec_readable(&self) -> bool {
        self.readable
    }

    /// Can the end be written to?
    pub closed spec fn spec_writable(&self) -> bool {
        self.writable
    }

    /// The place of the buffer of the pipe in the table of pipes.
    pub closed spec fn spec_buffer(&self) -> usize {
        self.buffer
    }

    /// The read end of the pipe with buffer `buffer`.
    pub fn read_end_with_buffer(buffer: usize) -> (pipe: Self)
        ensures
            pipe.spec_readable(),
            !pipe.spec_writable(),
            pipe.spec_buffer() == buffer,
    {
        Self { readable: true, writable: false, buffer }
    }

    /// The write end of the pipe with buffer `buffer`.
    pub fn write_end_with_buffer(buffer: usize) -> (pipe: Self)
        ensures
            !pipe.spec_readable(),
            pipe.spec_writable(),
            pipe.spec_buffer() == buffer,
    {
        Self { readable: false, writable: true, buffer }
    }

    /// The place of the buffer of the pipe in the table of pipes.
    pub fn buffer(&self) -> (buffer: usize)
        ensures
            buffer == self.spec_buffer(),
    {
        self.buffer
    }

    /// Can the end be read from?
    pub fn readable(&self) -> (r: bool)
        ensures
            r == self.spec_readable(),
    {
        self.readable
    }

    /// Can the end be written to?
    pub fn writable(&self) -> (w: bool)
        ensures
            w == self.spec_writable(),
    {
        self.writable
    }

    /// Moves bytes from the buffer `ring` of the pipe to `buf[read_size..]`.
    ///
    /// `read_size` is the number of bytes that earlier calls of the same
    /// read have moved already, and `write_handles` the number of file
    /// descriptors of the write end that are open. The call takes as many
    /// bytes as the ring has and `buf` has room for. It is over when `buf`
    /// had room for fewer bytes than the ring held, or when the ring is
    /// drained and the write end is closed. Otherwise the ring is empty
    /// and a writer may still come: the caller suspends and calls again.
    pub fn read(
        &self,
        ring: &mut PipeRingBuffer,
        buf: &mut [u8],
        read_size: usize,
        write_handles: usize,
    ) -> (io: PipeIo)
        requires
            self.spec_readable(),
            old(ring).wf(),
            old(ring).spec_write_end() is Some,
            read_size <= old(buf)@.len(),
        ensures
            final(ring).wf(),
            final(ring).spec_write_end() == old(ring).spec_write_end(),
            final(buf)@.len() == old(buf)@.len(),
            ({
                let held = old(ring)@;
                let room = old(buf)@.len() - read_size;
                let n = if held.len() <= room {
                    held.len() as int
                } else {
                    room
                };
                &&& final(ring)@ == held.subrange(n, held.len() as int)
                &&& final(buf)@ == crate::codec::spec_splice(
                    old(buf)@,
                    read_size as int,
                    held.subrange(0, n),
                )
                &&& io == (if held.len() > room {
                    PipeIo::Done((read_size + n) as usize)
                } else if write_handles == 0 {
                    PipeIo::Done((read_size + n) as usize)
                } else {
                    PipeIo::Suspend((read_size + n) as usize)
                })
            }),
    {
        let ghost held = ring@;
        let len: usize = buf.len();
        let mut total: usize = read_size;
        let loop_read_size: usize = ring.available_read();
        let mut i: usize = 0;
        assert(buf@ =~= crate::codec::spec_splice(old(buf)@, read_size as int, held.subrange(0, 0)));
        assert(ring@ =~= held.subrange(0, held.len() as int));
        while i < loop_read_size
            invariant
                i <= loop_read_size,
                loop_read_size == held.len(),
                held == old(ring)@,
                ring.wf(),
                ring.spec_write_end() == old(ring).spec_write_end(),
                len == buf@.len(),
                len == old(buf)@.len(),
                total == read_size + i,
                total <= len,
                ring@ == held.subrange(i as int, held.len() as int),
                buf@ == crate::codec::spec_splice(
                    old(buf)@,
                    read_size as int,
                    held.subrange(0, i as int),
                ),
            decreases loop_read_size - i,
        {
            if total < len {
                let b: u8 = ring.read_byte();
                buf[total] = b;
                total += 1;
                i += 1;
                assert(ring@ =~= held.subrange(i as int, held.len() as int));
                assert(buf@ =~= crate::codec::spec_splice(
                    old(buf)@,
                    read_size as int,
                    held.subrange(0, i as int),
                ));
            } else {
                return PipeIo::Done(total);
            }
        }
        if ring.all_write_ends_closed(write_handles) {
            PipeIo::Done(total)
        } else {
            PipeIo::Suspend(total)
        }
    }

    /// Moves bytes from `buf[write_size..]` to the buffer `ring` of the pipe.
    ///
    /// `write_size` is the number of bytes that earlier calls of the same
    /// write have moved already. The call puts in as many bytes as `buf`
    /// has left and the ring has room for. It is over when the ring had
    /// room for more bytes than were left. Otherwise the ring is full: the
    /// caller suspends and calls again.
    pub fn write(&self, ring: &mut PipeRingBuffer, buf: &[u8], write_size: usize) -> (io: PipeIo)
        requires
            self.spec_writable(),
            old(ring).wf(),
            write_size <= buf@.len(),
        ensures
            final(ring).wf(),
            final(ring).spec_write_end() == old(ring).spec_write_end(),
            ({
                let room = 32 - old(ring)@.len();
                let left = buf@.len() - write_size;
                let n = if left <= room {
                    left
                } else {
                    room
                };
                &&& final(ring)@ == old(ring)@ + buf@.subrange(write_size as int, write_size + n)
                &&& io == (if left < room {
                    PipeIo::Done((write_size + n) as usize)
                } else {
                    PipeIo::Suspend((write_size + n) as usize)
                })
            }),
    {
        let ghost held = ring@;
        proof {
            ring.lemma_len();
        }
        let len: usize = buf.len();
        let mut total: usize = write_size;
        let loop_write_size: usize = ring.available_write();
        let mut i: usize = 0;
        assert(held + buf@.subrange(write_size as int, write_size as int) =~= held);
        while i < loop_write_size
            invariant
                i <= loop_write_size,
                loop_write_size == 32 - held.len(),
                held == old(ring)@,
                ring.wf(),
                ring.spec_write_end() == old(ring).spec_write_end(),
                len == buf@.len(),
                total == write_size + i,
                total <= len,
                ring@ == held + buf@.subrange(write_size as int, total as int),
            decreases loop_write_size - i,
        {
            if total < len {
                ring.write_byte(buf[total]);
                total += 1;
                i += 1;
                assert(ring@ =~= held + buf@.subrange(write_size as int, total as int));
            } else {
                return PipeIo::Done(total);
            }
        }
        PipeIo::Suspend(total)
    }
}

} // verus!
