//! The output of a started process, gathered while it runs and handed out by polling.
use vstd::prelude::*;

verus! {

/// Bytes read from a process's pipe; the client takes what is new since its last poll.
pub struct OutputBuffer {
    data: Vec<u8>,
    cursor: usize,
}

impl OutputBuffer {
    /// The read position never passes the end of the data.
    pub closed spec fn wf(&self) -> bool {
        self.cursor <= self.data@.len()
    }

    /// Every byte appended so far, in order.
    pub closed spec fn received(&self) -> Seq<u8> {
        self.data@
    }

    /// The bytes handed out by `drain` so far, in order.
    pub closed spec fn delivered(&self) -> Seq<u8> {
        self.data@.take(self.cursor as int)
    }

    /// The bytes not handed out yet.
    pub closed spec fn pending(&self) -> Seq<u8> {
        self.data@.skip(self.cursor as int)
    }

    /// Every byte received is handed out once, in order: what was delivered, then what is
    /// pending, make up exactly what was received.
    pub proof fn law_delivered_then_pending(&self)
        requires
            self.wf(),
        ensures
            self.delivered() + self.pending() == self.received(),
    {
        assert(self.data@.take(self.cursor as int) + self.data@.skip(self.cursor as int) =~= self.data@);
    }

    pub fn new() -> (b: Self)
        ensures
            b.wf(),
            b.received() == Seq::<u8>::empty(),
            b.delivered() == Seq::<u8>::empty(),
            b.pending() == Seq::<u8>::empty(),
    {
        let b = OutputBuffer { data: Vec::new(), cursor: 0 };
        assert(b.data@.take(0) =~= Seq::<u8>::empty());
        assert(b.data@.skip(0) =~= Seq::<u8>::empty());
        b
    }

    /// Adds bytes read from the pipe.
    pub fn append(&mut self, chunk: &[u8])
        requires
            old(self).wf(),
        ensures
            final(self).wf(),
            final(self).received() == old(self).received() + chunk@,
            final(self).delivered() == old(self).delivered(),
            final(self).pending() == old(self).pending() + chunk@,
    {
        let ghost before = self.data@;
        let ghost c0 = self.cursor;
        let mut i: usize = 0;
        while i < chunk.len()
            invariant
                0 <= i <= chunk@.len(),
                self.data@ == before + chunk@.take(i as int),
                self.cursor == c0,
                c0 <= before.len(),
            decreases chunk@.len() - i,
        {
            self.data.push(chunk[i]);
            assert(chunk@.take(i + 1) =~= chunk@.take(i as int).push(chunk@[i as int]));
            i = i + 1;
        }
        assert(chunk@.take(i as int) =~= chunk@);
        assert(self.data@.take(self.cursor as int) =~= before.take(self.cursor as int));
        assert(self.data@.skip(self.cursor as int) =~= before.skip(self.cursor as int) + chunk@);
    }

    /// Hands out the bytes received since the last drain, and marks them delivered.
    pub fn drain(&mut self) -> (r: Vec<u8>)
        requires
            old(self).wf(),
        ensures
            final(self).wf(),
            r@ == old(self).pending(),
            final(self).received() == old(self).received(),
            final(self).delivered() == old(self).delivered() + r@,
            final(self).delivered() == final(self).received(),
            final(self).pending() == Seq::<u8>::empty(),
    {
        let ghost before = self.data@;
        let mut r: Vec<u8> = Vec::new();
        if self.cursor >= self.data.len() {
            assert(before.take(self.cursor as int) =~= before);
            assert(before.skip(self.cursor as int) =~= Seq::<u8>::empty());
            assert(before.take(self.cursor as int) + r@ =~= before);
            return r;
        }
        let mut i = self.cursor;
        while i < self.data.len()
            invariant
                self.data@ == before,
                self.cursor <= i <= before.len(),
                r@ == before.subrange(self.cursor as int, i as int),
            decreases before.len() - i,
        {
            r.push(self.data[i]);
            assert(before.subrange(self.cursor as int, i + 1)
                =~= before.subrange(self.cursor as int, i as int).push(before[i as int]));
            i = i + 1;
        }
        let ghost old_cursor = self.cursor;
        self.cursor = self.data.len();
        assert(before.skip(old_cursor as int) =~= r@);
        assert(before.take(old_cursor as int) + r@ =~= before);
        assert(before.take(self.cursor as int) =~= before);
        assert(before.skip(self.cursor as int) =~= Seq::<u8>::empty());
        r
    }
}

/// What one read from a pipe gave: some bytes (none at the end of the stream), or an error.
pub enum PipeRead {
    Bytes(Vec<u8>),
    Failed,
}

/// One round of the loop that copies a process's pipe into its buffer: bytes are kept and
/// reading goes on; the end of the stream or an error stops it.
pub fn pipe_reader_step(buf: &mut OutputBuffer, read: PipeRead) -> (go_on: bool)
    requires
        old(buf).wf(),
    ensures
        final(buf).wf(),
        go_on == (read matches PipeRead::Bytes(b) && b@.len() > 0),
        read matches PipeRead::Bytes(b) ==> final(buf).received() == old(buf).received() + b@,
        read is Failed ==> final(buf).received() == old(buf).received(),
        final(buf).delivered() == old(buf).delivered(),
{
    match read {
        PipeRead::Bytes(b) => {
            if b.len() == 0 {
                assert(old(buf).received() + b@ =~= old(buf).received());
                false
            } else {
                buf.append(b.as_slice());
                true
            }
        },
        PipeRead::Failed => false,
    }
}

} // verus!
