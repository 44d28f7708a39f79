use vstd::prelude::*;

verus! {

/// Error reported by a stream that refused a DATA frame (for instance after a
/// reset); `reason` is the HTTP/2 error code.
#[derive(Clone, Copy, Debug, PartialEq, Eq, Structural)]
pub struct SendError {
    pub reason: u32,
}

/// The single capability that both client-issued and server-accepted HTTP/2
/// streams offer to the copy adapters: send one chunk, optionally ending the
/// stream.
pub trait SendData {
    fn send_data(&mut self, data: Vec<u8>, end_of_stream: bool) -> Result<(), SendError>;
}

/// One DATA frame: its bytes, and whether it ends the stream.
pub struct Frame {
    pub data: Vec<u8>,
    pub end_of_stream: bool,
}

/// The frame that carries one transport read: the bytes read, ending the
/// stream exactly when the read returned nothing (end of file).
pub fn frame_for_read(chunk: Vec<u8>) -> (f: Frame)
    ensures
        f.data@ == chunk@,
        f.end_of_stream == (chunk@.len() == 0),
{
    let end_of_stream = chunk.len() == 0;
    Frame { data: chunk, end_of_stream }
}

/// Total number of bytes in a sequence of chunks.
pub open spec fn total_len(chunks: Seq<Seq<u8>>) -> nat
    decreases chunks.len(),
{
    if chunks.len() == 0 {
        0
    } else {
        total_len(chunks.drop_last()) + chunks.last().len()
    }
}

/// The chunks laid end to end.
pub open spec fn joined(chunks: Seq<Seq<u8>>) -> Seq<u8>
    decreases chunks.len(),
{
    if chunks.len() == 0 {
        Seq::empty()
    } else {
        joined(chunks.drop_last()) + chunks.last()
    }
}

/// The frames sent for a sequence of transport reads: one frame per read,
/// carrying exactly the bytes read, and marked end-of-stream exactly when
/// the read hit end of file (returned no bytes).
pub open spec fn frames_for(reads: Seq<Seq<u8>>) -> Seq<(Seq<u8>, bool)> {
    reads.map_values(|r: Seq<u8>| (r, r.len() == 0))
}

/// The data carried by a sequence of frames.
pub open spec fn frame_data(frames: Seq<(Seq<u8>, bool)>) -> Seq<Seq<u8>> {
    frames.map_values(|f: (Seq<u8>, bool)| f.0)
}

/// A complete run of reads from a transport: every read but the last
/// returned some bytes, and the last one returned none (end of file).
pub open spec fn is_complete_run(reads: Seq<Seq<u8>>) -> bool {
    &&& reads.len() > 0
    &&& reads.last().len() == 0
    &&& forall|i: int| 0 <= i < reads.len() - 1 ==> #[trigger] reads[i].len() > 0
}

/// State of one copy from a transport into an HTTP/2 stream.
///
/// The caller reads from the transport into a buffer and hands each read to
/// `on_read`, which gives back the frame to send on the stream; the stream's
/// answer then goes to `on_sent`. A read of zero bytes is end of file: its
/// frame is the final, end-of-stream one, and once the stream takes it the
/// copy is finished.
pub struct CopyToH2 {
    counter: usize,
    last_len: usize,
    awaiting: bool,
    finished: bool,
    failed: bool,
    reads: Ghost<Seq<Seq<u8>>>,
}

impl CopyToH2 {
    /// Every read handed to `on_read` so far, in order.
    pub closed spec fn reads(&self) -> Seq<Seq<u8>> {
        self.reads@
    }

    /// The frames that `on_read` has given out so far, in order.
    pub open spec fn frames(&self) -> Seq<(Seq<u8>, bool)> {
        frames_for(self.reads())
    }

    /// Bytes of the frames that the stream has taken.
    pub closed spec fn total(&self) -> nat {
        self.counter as nat
    }

    /// Whether a frame was given out and the stream's answer is awaited.
    pub closed spec fn awaiting(&self) -> bool {
        self.awaiting
    }

    pub closed spec fn finished(&self) -> bool {
        self.finished
    }

    pub closed spec fn failed(&self) -> bool {
        self.failed
    }

    pub open spec fn running(&self) -> bool {
        !self.finished() && !self.failed()
    }

    pub closed spec fn wf(&self) -> bool {
        &&& self.awaiting ==> {
            &&& !self.finished && !self.failed
            &&& self.reads@.len() > 0
            &&& self.last_len as nat == self.reads@.last().len()
            &&& self.counter + self.last_len <= usize::MAX
            &&& self.counter as nat == total_len(self.reads@.drop_last())
            &&& forall|i: int|
                0 <= i < self.reads@.len() - 1 ==> #[trigger] self.reads@[i].len() > 0
        }
        &&& !self.awaiting && !self.failed ==> self.counter as nat == total_len(self.reads@)
        &&& self.finished ==> !self.failed && is_complete_run(self.reads@)
        &&& !self.awaiting && !self.finished && !self.failed ==> forall|i: int|
            0 <= i < self.reads@.len() ==> #[trigger] self.reads@[i].len() > 0
    }

    pub fn new() -> (r: CopyToH2)
        ensures
            r.wf(),
            r.running(),
            !r.awaiting(),
            r.reads() == Seq::<Seq<u8>>::empty(),
            r.total() == 0,
    {
        CopyToH2 {
            counter: 0,
            last_len: 0,
            awaiting: false,
            finished: false,
            failed: false,
            reads: Ghost(Seq::empty()),
        }
    }

    /// Takes one transport read and gives back the frame to send for it:
    /// exactly the bytes read, ending the stream exactly when the read
    /// returned nothing (end of file).
    pub fn on_read(&mut self, chunk: Vec<u8>) -> (f: Frame)
        requires
            old(self).wf(),
            old(self).running(),
            !old(self).awaiting(),
            old(self).total() + chunk@.len() <= usize::MAX,
        ensures
            final(self).wf(),
            final(self).running(),
            final(self).awaiting(),
            f.data@ == chunk@,
            f.end_of_stream == (chunk@.len() == 0),
            final(self).reads() == old(self).reads().push(chunk@),
            final(self).frames() == old(self).frames().push((f.data@, f.end_of_stream)),
            final(self).total() == old(self).total(),
    {
        let ghost data = chunk@;
        self.last_len = chunk.len();
        self.awaiting = true;
        proof {
            self.reads@ = self.reads@.push(data);
            assert(self.reads@.drop_last() =~= old(self).reads@);
            assert(frames_for(self.reads@) =~= frames_for(old(self).reads@).push(
                (data, data.len() == 0),
            ));
        }
        frame_for_read(chunk)
    }

    /// The stream's answer to the frame last given out. `Ok(true)` when that
    /// was the final frame and the copy is finished, `Ok(false)` when the copy
    /// goes on, and the stream's own error when it refused the frame.
    pub fn on_sent(&mut self, sent: Result<(), SendError>) -> (r: Result<bool, SendError>)
        requires
            old(self).wf(),
            old(self).awaiting(),
        ensures
            final(self).wf(),
            !final(self).awaiting(),
            final(self).reads() == old(self).reads(),
            match sent {
                Ok(()) => {
                    &&& r == Ok::<bool, SendError>(old(self).reads().last().len() == 0)
                    &&& final(self).finished() == (old(self).reads().last().len() == 0)
                    &&& !final(self).failed()
                    &&& final(self).total() == old(self).total() + old(self).reads().last().len()
                },
                Err(e) => {
                    &&& r == Err::<bool, SendError>(e)
                    &&& final(self).failed()
                    &&& !final(self).finished()
                },
            },
            final(self).running() ==> forall|i: int|
                0 <= i < final(self).frames().len() ==> !(#[trigger] final(self).frames()[i]).1,
    {
        self.awaiting = false;
        match sent {
            Ok(()) => {
                self.counter = self.counter + self.last_len;
                self.finished = self.last_len == 0;
                proof {
                    let rs = self.reads@;
                    assert(rs =~= rs.drop_last().push(rs.last()));
                }
                Ok(self.finished)
            },
            Err(e) => {
                self.failed = true;
                Err(e)
            },
        }
    }

    /// The number of bytes that the stream has taken so far.
    pub fn bytes_copied(&self) -> (r: usize)
        ensures
            r == self.total(),
    {
        self.counter
    }

    /// The number of bytes copied, once the copy has finished.
    pub fn result(&self) -> (r: Option<usize>)
        requires
            self.wf(),
        ensures
            r == (if self.finished() {
                Some(self.total() as usize)
            } else {
                None::<usize>
            }),
            r is Some ==> self.total() == total_len(self.reads()) && is_complete_run(self.reads()),
    {
        if self.finished {
            Some(self.counter)
        } else {
            None
        }
    }
}

/// A copy of a nonempty byte stream into an HTTP/2 stream: the reads that
/// returned bytes, followed by end of file, give frames that carry the same
/// bytes in the same order, exactly the last of which ends the stream, and the
/// count of bytes copied is the number of bytes read.
pub proof fn lemma_copy_to_h2_keeps_bytes(chunks: Seq<Seq<u8>>)
    requires
        chunks.len() > 0,
        forall|i: int| 0 <= i < chunks.len() ==> #[trigger] chunks[i].len() > 0,
    ensures
        is_complete_run(chunks.push(Seq::empty())),
        joined(frame_data(frames_for(chunks.push(Seq::empty())))) == joined(chunks),
        frames_for(chunks.push(Seq::empty())).last().1,
        forall|i: int|
            0 <= i < chunks.len() ==> !(#[trigger] frames_for(chunks.push(Seq::empty()))[i]).1,
        total_len(chunks.push(Seq::empty())) == total_len(chunks),
{
    let reads = chunks.push(Seq::<u8>::empty());
    let data = frame_data(frames_for(reads));
    assert(data =~= reads);
    assert(reads.drop_last() =~= chunks);
    assert(joined(reads) =~= joined(chunks) + Seq::<u8>::empty());
    assert forall|i: int| 0 <= i < chunks.len() implies !(#[trigger] frames_for(reads)[i]).1 by {
        assert(reads[i] == chunks[i]);
    }
}

/// A copy from a transport that is at end of file at once sends exactly one
/// frame, empty and marked end-of-stream, and copies no bytes.
pub proof fn lemma_copy_to_h2_empty_source()
    ensures
        is_complete_run(seq![Seq::<u8>::empty()]),
        frames_for(seq![Seq::<u8>::empty()]) == seq![(Seq::<u8>::empty(), true)],
        total_len(seq![Seq::<u8>::empty()]) == 0,
{
    let reads = seq![Seq::<u8>::empty()];
    assert(reads.drop_last() =~= Seq::<Seq<u8>>::empty());
    assert(total_len(reads.drop_last()) == 0);
    assert(frames_for(reads) =~= seq![(Seq::<u8>::empty(), true)]);
}

/// Where a copy from an HTTP/2 body into a transport stands.
#[derive(Clone, Copy, Debug, PartialEq, Eq, Structural)]
pub enum FromH2Phase {
    /// Waiting for the next chunk of the body.
    AwaitChunk,
    /// Writing the current chunk to the transport.
    Writing,
    /// The body ended; the transport's write side is being shut down.
    ShuttingDown,
    /// The shutdown completed; the copy is over.
    Done,
}

/// What the driver of a copy from an HTTP/2 body must do next.
#[derive(Debug, PartialEq, Eq)]
pub enum FromH2Action {
    /// Write these bytes to the transport and report how many were taken.
    Write(Vec<u8>),
    /// Pull the next chunk of the body.
    PullNext,
    /// Shut down the write direction of the transport.
    Shutdown,
}

/// State of one copy from an HTTP/2 body into a transport.
///
/// Each chunk is written fully before the next one is pulled, and after the
/// last chunk the transport's write direction is shut down exactly once.
pub struct CopyFromH2 {
    phase: FromH2Phase,
    pending: Vec<u8>,
    counter: usize,
    received: Ghost<Seq<u8>>,
    written: Ghost<Seq<u8>>,
    shutdowns: Ghost<nat>,
}

impl CopyFromH2 {
    pub closed spec fn phase(&self) -> FromH2Phase {
        self.phase
    }

    /// Bytes of the body received so far, in order.
    pub closed spec fn received(&self) -> Seq<u8> {
        self.received@
    }

    /// Bytes that the transport accepted so far, in order.
    pub closed spec fn written(&self) -> Seq<u8> {
        self.written@
    }

    /// Bytes of the current chunk that the transport has not taken yet.
    pub closed spec fn pending(&self) -> Seq<u8> {
        self.pending@
    }

    /// How many shutdowns of the transport have been asked for.
    pub closed spec fn shutdowns(&self) -> nat {
        self.shutdowns@
    }

    pub closed spec fn total(&self) -> nat {
        self.counter as nat
    }

    pub closed spec fn wf(&self) -> bool {
        &&& self.counter as nat == self.written@.len()
        &&& self.received@ == self.written@ + self.pending@
        &&& (self.phase == FromH2Phase::Writing) == (self.pending@.len() > 0)
        &&& self.shutdowns@ == (if self.phase == FromH2Phase::ShuttingDown || self.phase
            == FromH2Phase::Done {
            1nat
        } else {
            0nat
        })
    }

    pub fn new() -> (r: CopyFromH2)
        ensures
            r.wf(),
            r.phase() == FromH2Phase::AwaitChunk,
            r.received() == Seq::<u8>::empty(),
            r.written() == Seq::<u8>::empty(),
            r.shutdowns() == 0,
            r.total() == 0,
    {
        CopyFromH2 {
            phase: FromH2Phase::AwaitChunk,
            pending: Vec::new(),
            counter: 0,
            received: Ghost(Seq::empty()),
            written: Ghost(Seq::empty()),
            shutdowns: Ghost(0),
        }
    }

    /// The number of bytes written so far.
    pub fn bytes_copied(&self) -> (r: usize)
        ensures
            r == self.total(),
    {
        self.counter
    }

    /// A chunk of the body arrived: write it, or pull the next one if it is
    /// empty.
    pub fn on_chunk(&mut self, chunk: Vec<u8>) -> (r: FromH2Action)
        requires
            old(self).wf(),
            old(self).phase() == FromH2Phase::AwaitChunk,
        ensures
            final(self).wf(),
            final(self).received() == old(self).received() + chunk@,
            final(self).written() == old(self).written(),
            final(self).total() == old(self).total(),
            if chunk@.len() == 0 {
                &&& r == FromH2Action::PullNext
                &&& final(self).phase() == FromH2Phase::AwaitChunk
            } else {
                &&& r matches FromH2Action::Write(w) && w@ == chunk@
                &&& final(self).phase() == FromH2Phase::Writing
                &&& final(self).pending() == chunk@
            },
    {
        proof {
            self.received@ = self.received@ + chunk@;
            assert(self.pending@.len() == 0);
            assert(old(self).written@ + old(self).pending@ =~= old(self).written@);
        }
        if chunk.len() == 0 {
            assert(self.received@ =~= old(self).received@);
            FromH2Action::PullNext
        } else {
            let out = chunk.clone();
            self.pending = chunk;
            self.phase = FromH2Phase::Writing;
            FromH2Action::Write(out)
        }
    }

    /// The transport took the first `n` bytes of what it was asked to write:
    /// write the rest, or pull the next chunk once the current one is out.
    pub fn on_written(&mut self, n: usize) -> (r: FromH2Action)
        requires
            old(self).wf(),
            old(self).phase() == FromH2Phase::Writing,
            0 < n <= old(self).pending().len(),
            old(self).total() + n <= usize::MAX,
        ensures
            final(self).wf(),
            final(self).received() == old(self).received(),
            final(self).written() == old(self).written() + old(self).pending().take(n as int),
            final(self).pending() == old(self).pending().skip(n as int),
            final(self).total() == old(self).total() + n,
            if n == old(self).pending().len() {
                &&& r == FromH2Action::PullNext
                &&& final(self).phase() == FromH2Phase::AwaitChunk
            } else {
                &&& r matches FromH2Action::Write(w) && w@ == old(self).pending().skip(n as int)
                &&& final(self).phase() == FromH2Phase::Writing
            },
    {
        let len = self.pending.len();
        let mut rest: Vec<u8> = Vec::new();
        let mut i: usize = n;
        while i < len
            invariant
                n <= i <= len,
                len == self.pending@.len(),
                rest@ == self.pending@.subrange(n as int, i as int),
            decreases len - i,
        {
            rest.push(self.pending[i]);
            i = i + 1;
        }
        proof {
            let p = old(self).pending@;
            self.written@ = self.written@ + p.take(n as int);
            assert(p =~= p.take(n as int) + p.skip(n as int));
            assert(rest@ =~= p.skip(n as int));
            assert(self.written@ + p.skip(n as int) =~= old(self).written@ + p);
        }
        self.counter = self.counter + n;
        if n == len {
            self.pending = rest;
            self.phase = FromH2Phase::AwaitChunk;
            FromH2Action::PullNext
        } else {
            let out = rest.clone();
            self.pending = rest;
            FromH2Action::Write(out)
        }
    }

    /// The body ended: shut down the transport's write direction.
    pub fn on_end(&mut self) -> (r: FromH2Action)
        requires
            old(self).wf(),
            old(self).phase() == FromH2Phase::AwaitChunk,
        ensures
            final(self).wf(),
            r == FromH2Action::Shutdown,
            final(self).phase() == FromH2Phase::ShuttingDown,
            final(self).received() == old(self).received(),
            final(self).written() == old(self).written(),
            final(self).total() == old(self).total(),
            final(self).shutdowns() == old(self).shutdowns() + 1,
    {
        self.phase = FromH2Phase::ShuttingDown;
        proof {
            self.shutdowns@ = self.shutdowns@ + 1;
        }
        FromH2Action::Shutdown
    }

    /// The shutdown completed: the copy is over, and this is the number of
    /// bytes written.
    pub fn on_shutdown_done(&mut self) -> (r: usize)
        requires
            old(self).wf(),
            old(self).phase() == FromH2Phase::ShuttingDown,
        ensures
            final(self).wf(),
            final(self).phase() == FromH2Phase::Done,
            final(self).received() == old(self).received(),
            final(self).written() == old(self).written(),
            final(self).shutdowns() == old(self).shutdowns(),
            r == old(self).total(),
            r == old(self).written().len(),
    {
        self.phase = FromH2Phase::Done;
        self.counter
    }
}

/// A copy from an HTTP/2 body that has finished has written to the transport
/// exactly the bytes received, in order, and has shut the transport's write
/// direction down exactly once; the shutdown is never asked for while bytes of
/// a chunk are still unwritten.
pub proof fn lemma_copy_from_h2_complete(c: CopyFromH2)
    requires
        c.wf(),
    ensures
        c.phase() == FromH2Phase::Done ==> c.written() == c.received() && c.shutdowns() == 1
            && c.total() == c.received().len(),
        c.shutdowns() > 0 ==> c.pending().len() == 0 && c.written() == c.received(),
        c.phase() == FromH2Phase::AwaitChunk || c.phase() == FromH2Phase::Writing ==> c.shutdowns()
            == 0,
{
    if c.pending().len() == 0 {
        assert(c.written() + c.pending() =~= c.written());
    }
}

} // verus!
