//! Pipes: a fixed ring buffer shared by a read end and a write end.
use vstd::prelude::*;

verus! {

/// Capacity of a pipe's ring buffer in bytes.
pub const RING_BUFFER_SIZE: usize = 32;

/// Fill state of the ring buffer; it tells a full buffer from an empty one
/// when head and tail meet.
#[derive(Clone, Copy, PartialEq, Eq, Structural, Debug)]
pub enum RingBufferStatus {
    Full,
    Empty,
    Normal,
}

/// The byte queue of a pipe.
pub struct PipeRingBuffer {
    arr: Vec<u8>,
    head: usize,
    tail: usize,
    status: RingBufferStatus,
    /// Whether a write end was ever attached.
    has_write_end: bool,
    /// Number of write-end handles still open.
    write_refs: usize,
}

/// Result of one transfer round on a pipe end.
#[derive(Clone, Copy, PartialEq, Eq, Structural, Debug)]
pub enum PipeProgress {
    /// The transfer is over: the value is the total number of bytes moved.
    Done(usize),
    /// The buffer stopped the transfer; the task yields and runs the round again.
    Pending,
}

impl PipeRingBuffer {
    /// Number of bytes queued, read off head, tail and status.
    pub closed spec fn count(&self) -> nat {
        match self.status {
            RingBufferStatus::Empty => 0,
            RingBufferStatus::Full => RING_BUFFER_SIZE as nat,
            RingBufferStatus::Normal => ((self.tail + RING_BUFFER_SIZE - self.head) % (
            RING_BUFFER_SIZE as int)) as nat,
        }
    }

    pub closed spec fn wf(&self) -> bool {
        &&& self.arr@.len() == RING_BUFFER_SIZE
        &&& self.head < RING_BUFFER_SIZE
        &&& self.tail < RING_BUFFER_SIZE
        &&& (self.status == RingBufferStatus::Normal <==> self.head != self.tail)
    }

    /// The queued bytes, oldest first.
    pub closed spec fn contents(&self) -> Seq<u8> {
        Seq::new(self.count(), |i: int| self.arr@[(self.head + i) % (RING_BUFFER_SIZE as int)])
    }

    pub closed spec fn writer_attached(&self) -> bool {
        self.has_write_end
    }

    pub closed spec fn open_writers(&self) -> nat {
        self.write_refs as nat
    }

    pub fn new() -> (r: Self)
        ensures
            r.wf(),
            r.contents() == Seq::<u8>::empty(),
            !r.writer_attached(),
            r.open_writers() == 0,
    {
        Self {
            arr: vec![0u8; RING_BUFFER_SIZE],
            head: 0,
            tail: 0,
            status: RingBufferStatus::Empty,
            has_write_end: false,
            write_refs: 0,
        }
    }

    /// Records the pipe's write end: one write handle is now open.
    pub fn set_write_end(&mut self, write_end: &Pipe)
        requires
            write_end.is_write_end(),
        ensures
            final(self).contents() == old(self).contents(),
            final(self).wf() == old(self).wf(),
            final(self).writer_attached(),
            final(self).open_writers() == 1,
    {
        self.has_write_end = true;
        self.write_refs = 1;
    }

    /// One more handle on the write end (a duplicated descriptor).
    pub fn add_writer(&mut self)
        requires
            old(self).writer_attached(),
            old(self).open_writers() < usize::MAX,
        ensures
            final(self).contents() == old(self).contents(),
            final(self).wf() == old(self).wf(),
            final(self).writer_attached(),
            final(self).open_writers() == old(self).open_writers() + 1,
    {
        self.write_refs = self.write_refs + 1;
    }

    /// A handle on the write end was closed.
    pub fn drop_writer(&mut self)
        requires
            old(self).open_writers() > 0,
        ensures
            final(self).contents() == old(self).contents(),
            final(self).wf() == old(self).wf(),
            final(self).writer_attached() == old(self).writer_attached(),
            final(self).open_writers() == old(self).open_writers() - 1,
    {
        self.write_refs = self.write_refs - 1;
    }

    pub fn write_byte(&mut self, byte: u8)
        requires
            old(self).wf(),
            old(self).contents().len() < RING_BUFFER_SIZE,
        ensures
            final(self).wf(),
            final(self).contents() == old(self).contents().push(byte),
            final(self).writer_attached() == old(self).writer_attached(),
            final(self).open_writers() == old(self).open_writers(),
    {
        let ghost old_c = self.contents();
        self.status = RingBufferStatus::Normal;
        self.arr.set(self.tail, byte);
        self.tail = (self.tail + 1) % RING_BUFFER_SIZE;
        if self.tail == self.head {
            self.status = RingBufferStatus::Full;
        }
        assert(self.contents() =~= old_c.push(byte));
    }

    /// Takes the oldest byte; the buffer must not be empty.
    pub fn read_byte(&mut self) -> (c: u8)
        requires
            old(self).wf(),
            old(self).contents().len() > 0,
        ensures
            final(self).wf(),
            c == old(self).contents()[0],
            final(self).contents() == old(self).contents().drop_first(),
            final(self).writer_attached() == old(self).writer_attached(),
            final(self).open_writers() == old(self).open_writers(),
    {
        let ghost old_c = self.contents();
        self.status = RingBufferStatus::Normal;
        let c = self.arr[self.head];
        self.head = (self.head + 1) % RING_BUFFER_SIZE;
        if self.head == self.tail {
            self.status = RingBufferStatus::Empty;
        }
        assert(self.contents() =~= old_c.drop_first());
        c
    }

    /// Bytes that can be read now.
    pub fn available_read(&self) -> (r: usize)
        requires
            self.wf(),
        ensures
            r == self.contents().len(),
    {
        if self.status == RingBufferStatus::Empty {
            0
        } else if self.tail > self.head {
            self.tail - self.head
        } else {
            self.tail + RING_BUFFER_SIZE - self.head
        }
    }

    /// Free room, in bytes.
    pub fn available_write(&self) -> (r: usize)
        requires
            self.wf(),
        ensures
            r == RING_BUFFER_SIZE - self.contents().len(),
    {
        if self.status == RingBufferStatus::Full {
            0
        } else {
            RING_BUFFER_SIZE - self.available_read()
        }
    }

    /// Whether a write end was ever attached.
    pub fn writer_attached_exec(&self) -> (r: bool)
        ensures
            r == self.writer_attached(),
    {
        self.has_write_end
    }

    /// Whether every write end has been closed; the write end must have been attached.
    pub fn all_write_ends_closed(&self) -> (r: bool)
        requires
            self.writer_attached(),
        ensures
            r == (self.open_writers() == 0),
    {
        self.write_refs == 0
    }
}

/// One end of a pipe. The buffer it reads or fills is handed to its methods.
#[derive(Clone, Copy, PartialEq, Eq, Structural, Debug)]
pub struct Pipe {
    readable: bool,
    writable: bool,
    /// Index of the shared ring buffer in the kernel's pipe table.
    buffer: usize,
}

impl Pipe {
    pub open spec fn is_read_end(&self) -> bool {
        self.can_read() && !self.can_write()
    }

    pub open spec fn is_write_end(&self) -> bool {
        self.can_write() && !self.can_read()
    }

    pub closed spec fn can_read(&self) -> bool {
        self.readable
    }

    pub closed spec fn can_write(&self) -> bool {
        self.writable
    }

    pub closed spec fn buffer_id(&self) -> usize {
        self.buffer
    }

    /// The read end of the pipe whose buffer is `buffer`.
    pub fn read_end_with_buffer(buffer: usize) -> (r: Self)
        ensures
            r.is_read_end(),
            r.can_read(),
            !r.can_write(),
            r.buffer_id() == buffer,
    {
        Self { readable: true, writable: false, buffer }
    }

    /// The write end of the pipe whose buffer is `buffer`.
    pub fn write_end_with_buffer(buffer: usize) -> (r: Self)
        ensures
            r.is_write_end(),
            r.can_write(),
            !r.can_read(),
            r.buffer_id() == buffer,
    {
        Self { readable: false, writable: true, buffer }
    }

    pub fn readable(&self) -> (r: bool)
        ensures
            r == self.can_read(),
    {
        self.readable
    }

    pub fn writable(&self) -> (r: bool)
        ensures
            r == self.can_write(),
    {
        self.writable
    }

    pub fn buffer(&self) -> (r: usize)
        ensures
            r == self.buffer_id(),
    {
        self.buffer
    }

    /// One round of a read of `want` bytes into `buf`, which holds what the
    /// earlier rounds read. It takes as many queued bytes as are wanted and
    /// there. The read is over once `want` bytes are in `buf`, or the buffer is
    /// empty and every writer has closed; else the reader must yield and retry.
    pub fn read(&self, ring: &mut PipeRingBuffer, want: usize, buf: &mut Vec<u8>) -> (r:
        PipeProgress)
        requires
            self.is_read_end(),
            old(ring).wf(),
            old(ring).writer_attached(),
            old(buf)@.len() <= want,
        ensures
            final(ring).wf(),
            final(ring).writer_attached(),
            final(ring).open_writers() == old(ring).open_writers(),
            ({
                let k = if old(ring).contents().len() < want - old(buf)@.len() {
                    old(ring).contents().len() as int
                } else {
                    want - old(buf)@.len()
                };
                &&& final(buf)@ == old(buf)@ + old(ring).contents().take(k)
                &&& final(ring).contents() == old(ring).contents().skip(k)
                &&& r == if final(buf)@.len() == want || (old(ring).contents().len() == 0
                    && old(ring).open_writers() == 0) {
                    PipeProgress::Done(final(buf)@.len() as usize)
                } else {
                    PipeProgress::Pending
                }
            }),
    {
        let ghost c0 = ring.contents();
        let ghost b0 = buf@;
        let avail = ring.available_read();
        if avail == 0 {
            if want == buf.len() || ring.all_write_ends_closed() {
                return PipeProgress::Done(buf.len());
            }
            return PipeProgress::Pending;
        }
        let remaining = want - buf.len();
        let k = if avail < remaining {
            avail
        } else {
            remaining
        };
        let mut i: usize = 0;
        while i < k
            invariant
                i <= k,
                k <= c0.len(),
                k <= remaining,
                remaining == want - b0.len(),
                ring.wf(),
                ring.writer_attached(),
                ring.open_writers() == old(ring).open_writers(),
                ring.contents() == c0.skip(i as int),
                buf@ == b0 + c0.take(i as int),
            decreases k - i,
        {
            let c = ring.read_byte();
            buf.push(c);
            i = i + 1;
            assert(ring.contents() =~= c0.skip(i as int));
            assert(buf@ =~= b0 + c0.take(i as int));
        }
        if buf.len() == want {
            PipeProgress::Done(buf.len())
        } else {
            PipeProgress::Pending
        }
    }

    /// One round of a write of `data`, of which `done` bytes went out in
    /// earlier rounds. It queues as many of the rest as there is room for.
    /// The write is over once all of `data` is out; else the writer must yield
    /// and retry. The returned count is how far into `data` the write got.
    pub fn write(&self, ring: &mut PipeRingBuffer, data: &Vec<u8>, done: usize) -> (r: (
        PipeProgress,
        usize,
    ))
        requires
            self.is_write_end(),
            old(ring).wf(),
            done <= data@.len(),
        ensures
            final(ring).wf(),
            final(ring).writer_attached() == old(ring).writer_attached(),
            final(ring).open_writers() == old(ring).open_writers(),
            ({
                let room = RING_BUFFER_SIZE - old(ring).contents().len();
                let k = if room < data@.len() - done {
                    room
                } else {
                    data@.len() - done
                };
                &&& r.1 == done + k
                &&& final(ring).contents() == old(ring).contents() + data@.subrange(
                    done as int,
                    done + k,
                )
                &&& r.0 == if r.1 == data@.len() {
                    PipeProgress::Done(data@.len() as usize)
                } else {
                    PipeProgress::Pending
                }
            }),
    {
        let ghost c0 = ring.contents();
        let room = ring.available_write();
        let rest = data.len() - done;
        let k = if room < rest {
            room
        } else {
            rest
        };
        let mut i: usize = 0;
        while i < k
            invariant
                i <= k,
                k <= room,
                room == RING_BUFFER_SIZE - c0.len(),
                k <= rest,
                rest == data@.len() - done,
                done <= data@.len(),
                data@.len() <= usize::MAX,
                ring.wf(),
                ring.writer_attached() == old(ring).writer_attached(),
                ring.open_writers() == old(ring).open_writers(),
                ring.contents() == c0 + data@.subrange(done as int, done + i),
            decreases k - i,
        {
            ring.write_byte(data[done + i]);
            i = i + 1;
            assert(ring.contents() =~= c0 + data@.subrange(done as int, done + i));
        }
        let total = done + k;
        if total == data.len() {
            (PipeProgress::Done(data.len()), total)
        } else {
            (PipeProgress::Pending, total)
        }
    }
}


impl crate::file::File for Pipe {
    fn readable(&self) -> bool {
        self.readable
    }

    fn writable(&self) -> bool {
        self.writable
    }
}

} // verus!
