use vstd::prelude::*;
use crate::sched::wait_queue::WaitQueue;
use crate::subsystem::fs::inode::{FsError, FsResult};
use crate::utils::deque::Deque;

verus! {

pub const PIPE_SIZE: usize = 1024;

/// What a pipe operation comes to.
pub enum PipeOutcome {
    /// The operation finished with `result`; the tasks in `wake` become runnable.
    Done { result: FsResult<usize>, wake: Vec<u32> },
    /// The task was queued to sleep; it tries again once woken.
    Wait,
}

/// A buffer of bytes between writers and readers.
pub struct Pipe {
    pub buf: Deque<u8, PIPE_SIZE>,
    /// Readers waiting for bytes.
    pub tx_waiters: WaitQueue,
    /// Writers waiting for room.
    pub rx_waiters: WaitQueue,
    pub senders: u32,
    pub receivers: u32,
}

impl Pipe {
    pub open spec fn wf(&self) -> bool {
        self.buf.wf()
    }

    /// An empty pipe with no ends.
    pub fn new() -> (r: Self)
        ensures
            r.wf(),
            r.buf@.len() == 0,
            r.senders == 0,
            r.receivers == 0,
    {
        Pipe { buf: Deque::new(), tx_waiters: WaitQueue::new(), rx_waiters: WaitQueue::new(), senders: 0, receivers: 0 }
    }

    /// An empty pipe with one reading and one writing end, both naming pipe `id`.
    pub fn pipe(id: usize) -> (r: (ReadPipe, WritePipe, Pipe))
        ensures
            r.0 == ReadPipe(id),
            r.1 == WritePipe(id),
            r.2.wf(),
            r.2.buf@.len() == 0,
            r.2.senders == 1,
            r.2.receivers == 1,
    {
        let inner = Pipe {
            buf: Deque::new(),
            tx_waiters: WaitQueue::new(),
            rx_waiters: WaitQueue::new(),
            senders: 1,
            receivers: 1,
        };
        (ReadPipe(id), WritePipe(id), inner)
    }

    /// Reads for task `reader`: the oldest bytes, as many as `buffer` holds, waking the
    /// writers; with nothing to read, end of file once no writer is left, else the reader
    /// waits.
    pub fn read(&mut self, buffer: &mut Vec<u8>, reader: u32) -> (r: PipeOutcome)
        requires
            old(self).wf(),
        ensures
            final(self).wf(),
            read_outcome(*old(self), old(buffer)@, reader, *final(self), final(buffer)@, r),
    {
        if self.buf.is_empty() {
            if self.senders == 0 {
                return PipeOutcome::Done { result: Err(FsError::EndOfFile), wake: Vec::new() };
            }
            self.tx_waiters.enqueue(reader);
            return PipeOutcome::Wait;
        }
        let available: usize = PIPE_SIZE - self.buf.free();
        let n = if available < buffer.len() { available } else { buffer.len() };
        let mut i: usize = 0;
        while i < n
            invariant
                self.wf(),
                self.buf@ == old(self).buf@,
                n <= self.buf@.len(),
                n <= old(buffer)@.len(),
                i <= n,
                buffer@.len() == old(buffer)@.len(),
                forall|k: int| 0 <= k < i ==> buffer@[k] == self.buf@[k],
                forall|k: int| i <= k < buffer@.len() ==> buffer@[k] == old(buffer)@[k],
                self.tx_waiters == old(self).tx_waiters,
                self.rx_waiters == old(self).rx_waiters,
                self.senders == old(self).senders,
                self.receivers == old(self).receivers,
            decreases n - i,
        {
            let b = *self.buf.get(i);
            buffer.set(i, b);
            i += 1;
        }
        assert(buffer@.subrange(0, n as int) =~= old(self).buf@.subrange(0, n as int));
        assert(buffer@.subrange(n as int, buffer@.len() as int) =~= old(buffer)@.subrange(n as int, old(buffer)@.len() as int));
        self.buf.pop_many(n);
        let wake = self.rx_waiters.unblock_all();
        PipeOutcome::Done { result: Ok(n), wake }
    }

    /// Writes for task `writer`: bytes of `buffer` until it is all in or the pipe is full,
    /// waking the readers; with no room, end of file once no reader is left, else the writer
    /// waits.
    pub fn write(&mut self, buffer: &[u8], writer: u32) -> (r: PipeOutcome)
        requires
            old(self).wf(),
            write_fits(*old(self), buffer@.len() as int),
        ensures
            final(self).wf(),
            write_outcome(*old(self), buffer@, writer, *final(self), r),
    {
        if self.buf.free() == 0 {
            if self.receivers == 0 {
                return PipeOutcome::Done { result: Err(FsError::EndOfFile), wake: Vec::new() };
            }
            self.rx_waiters.enqueue(writer);
            return PipeOutcome::Wait;
        }
        let _n = buffer.len();
        let mut bytes: usize = 0;
        while !self.buf.is_full() && bytes < buffer.len()
            invariant
                self.wf(),
                bytes <= buffer@.len(),
                self.buf@ == old(self).buf@ + buffer@.subrange(0, bytes as int),
                self.buf.end == old(self).buf.end + bytes,
                write_fits(*old(self), buffer@.len() as int),
                old(self).buf@.len() < PIPE_SIZE,
                self.tx_waiters == old(self).tx_waiters,
                self.rx_waiters == old(self).rx_waiters,
                self.senders == old(self).senders,
                self.receivers == old(self).receivers,
            decreases buffer@.len() - bytes,
        {
            self.buf.push(buffer[bytes]);
            bytes += 1;
            assert(self.buf@ =~= old(self).buf@ + buffer@.subrange(0, bytes as int));
        }
        let wake = self.tx_waiters.unblock_all();
        PipeOutcome::Done { result: Ok(bytes), wake }
    }
}

/// Whether writing `len` bytes to `p` stays within the slots of its ring: the bytes that fit
/// go to the positions from `end` on, and the ring has no slot at position `PIPE_SIZE`.
pub open spec fn write_fits(p: Pipe, len: int) -> bool {
    p.buf@.len() < PIPE_SIZE ==> p.buf.end + vstd::math::min(PIPE_SIZE - p.buf@.len(), len) <= PIPE_SIZE
}

/// What a read by task `reader` into a buffer holding `buffer` does to pipe `p`, leaving `q`
/// and the buffer holding `after`: the oldest bytes, as many as the buffer holds, move into
/// its front and the writers waiting for room wake; with nothing queued, end of file once no
/// writer is left, else the reader joins the readers' queue; nothing else changes.
pub open spec fn read_outcome(p: Pipe, buffer: Seq<u8>, reader: u32, q: Pipe, after: Seq<u8>, r: PipeOutcome) -> bool {
    &&& q.senders == p.senders
    &&& q.receivers == p.receivers
    &&& if p.buf@.len() == 0 {
        &&& q.buf@ == p.buf@
        &&& after == buffer
        &&& q.rx_waiters.waiters() == p.rx_waiters.waiters()
        &&& if p.senders == 0 {
            &&& r matches PipeOutcome::Done { result, wake }
            &&& result == Err::<usize, FsError>(FsError::EndOfFile)
            &&& wake@.len() == 0
            &&& q.tx_waiters.waiters() == p.tx_waiters.waiters()
        } else {
            &&& r is Wait
            &&& q.tx_waiters.waiters() == p.tx_waiters.waiters().push(reader)
        }
    } else {
        let n = vstd::math::min(p.buf@.len() as int, buffer.len() as int);
        &&& r matches PipeOutcome::Done { result, wake }
        &&& result == Ok::<usize, FsError>(n as usize)
        &&& wake@ == p.rx_waiters.waiters()
        &&& q.rx_waiters.waiters().len() == 0
        &&& q.tx_waiters.waiters() == p.tx_waiters.waiters()
        &&& q.buf@ == p.buf@.skip(n)
        &&& after.len() == buffer.len()
        &&& after.subrange(0, n) == p.buf@.subrange(0, n)
        &&& after.subrange(n, after.len() as int) == buffer.subrange(n, buffer.len() as int)
    }
}

/// What a write of `bytes` by task `writer` does to pipe `p`, leaving `q`: bytes go in at the
/// back until all are in or the pipe is full, and the readers waiting for bytes wake; with no
/// room, end of file once no reader is left, else the writer joins the writers' queue; nothing
/// else changes.
pub open spec fn write_outcome(p: Pipe, bytes: Seq<u8>, writer: u32, q: Pipe, r: PipeOutcome) -> bool {
    &&& q.senders == p.senders
    &&& q.receivers == p.receivers
    &&& if p.buf@.len() == PIPE_SIZE {
        &&& q.buf@ == p.buf@
        &&& q.tx_waiters.waiters() == p.tx_waiters.waiters()
        &&& if p.receivers == 0 {
            &&& r matches PipeOutcome::Done { result, wake }
            &&& result == Err::<usize, FsError>(FsError::EndOfFile)
            &&& wake@.len() == 0
            &&& q.rx_waiters.waiters() == p.rx_waiters.waiters()
        } else {
            &&& r is Wait
            &&& q.rx_waiters.waiters() == p.rx_waiters.waiters().push(writer)
        }
    } else {
        let n = vstd::math::min(PIPE_SIZE - p.buf@.len(), bytes.len() as int);
        &&& r matches PipeOutcome::Done { result, wake }
        &&& result == Ok::<usize, FsError>(n as usize)
        &&& wake@ == p.tx_waiters.waiters()
        &&& q.tx_waiters.waiters().len() == 0
        &&& q.rx_waiters.waiters() == p.rx_waiters.waiters()
        &&& q.buf@ == p.buf@ + bytes.subrange(0, n)
    }
}

/// The reading end of pipe number `0` in the caller's table of pipes.
#[derive(Debug, Clone, Copy, PartialEq, Eq, Structural)]
pub struct ReadPipe(pub usize);

impl ReadPipe {
    /// One more reading end; the count wraps as the atomic one does.
    pub fn clone_end(&self, pipe: &mut Pipe) -> (r: ReadPipe)
        ensures
            r == *self,
            final(pipe).receivers == old(pipe).receivers.wrapping_add(1),
            final(pipe).buf == old(pipe).buf,
            final(pipe).senders == old(pipe).senders,
    {
        pipe.receivers = pipe.receivers.wrapping_add(1);
        ReadPipe(self.0)
    }

    /// Closes this end; when it was the last, the writers waiting for room wake, to find end
    /// of file.
    pub fn release(self, pipe: &mut Pipe) -> (r: Vec<u32>)
        ensures
            final(pipe).receivers == old(pipe).receivers.wrapping_sub(1),
            old(pipe).receivers == 1 ==> r@ == old(pipe).rx_waiters.waiters(),
            old(pipe).receivers != 1 ==> r@.len() == 0,
            final(pipe).buf == old(pipe).buf,
    {
        let before = pipe.receivers;
        pipe.receivers = pipe.receivers.wrapping_sub(1);
        if before == 1 {
            pipe.rx_waiters.unblock_all()
        } else {
            Vec::new()
        }
    }

    /// Reads through this end, as `Pipe::read` does.
    pub fn read(&self, pipe: &mut Pipe, buffer: &mut Vec<u8>, reader: u32) -> (r: PipeOutcome)
        requires
            old(pipe).wf(),
        ensures
            final(pipe).wf(),
            read_outcome(*old(pipe), old(buffer)@, reader, *final(pipe), final(buffer)@, r),
    {
        pipe.read(buffer, reader)
    }
}

/// The writing end of pipe number `0` in the caller's table of pipes.
#[derive(Debug, Clone, Copy, PartialEq, Eq, Structural)]
pub struct WritePipe(pub usize);

impl WritePipe {
    /// One more writing end; the count wraps as the atomic one does.
    pub fn clone_end(&self, pipe: &mut Pipe) -> (r: WritePipe)
        ensures
            r == *self,
            final(pipe).senders == old(pipe).senders.wrapping_add(1),
            final(pipe).buf == old(pipe).buf,
            final(pipe).receivers == old(pipe).receivers,
    {
        pipe.senders = pipe.senders.wrapping_add(1);
        WritePipe(self.0)
    }

    /// Closes this end; when it was the last, the readers waiting for bytes wake, to find end
    /// of file.
    pub fn release(self, pipe: &mut Pipe) -> (r: Vec<u32>)
        ensures
            final(pipe).senders == old(pipe).senders.wrapping_sub(1),
            old(pipe).senders == 1 ==> r@ == old(pipe).tx_waiters.waiters(),
            old(pipe).senders != 1 ==> r@.len() == 0,
            final(pipe).buf == old(pipe).buf,
    {
        let before = pipe.senders;
        pipe.senders = pipe.senders.wrapping_sub(1);
        if before == 1 {
            pipe.tx_waiters.unblock_all()
        } else {
            Vec::new()
        }
    }

    /// Writes through this end, as `Pipe::write` does.
    pub fn write(&self, pipe: &mut Pipe, buffer: &[u8], writer: u32) -> (r: PipeOutcome)
        requires
            old(pipe).wf(),
            write_fits(*old(pipe), buffer@.len() as int),
        ensures
            final(pipe).wf(),
            write_outcome(*old(pipe), buffer@, writer, *final(pipe), r),
    {
        pipe.write(buffer, writer)
    }
}

} // verus!
