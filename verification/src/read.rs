//! Reading through a chunked buffer queue.
//!
//! A background party ([`BackgroundReader`]) fills [`Buffer`]s from the
//! wrapped reader ([`Buffer::start_refill`], [`Buffer::refill`]); the
//! foreground [`Reader`] hands their bytes out in order and gives each
//! drained buffer back for refilling.

use crate::ending::Ending;
use vstd::prelude::*;

verus! {

/// What a buffer holds, as seen by its users.
#[verifier::ext_equal]
pub struct BufferView {
    /// Every byte of the buffer; its length is the buffer's capacity.
    pub data: Seq<u8>,
    /// Length of the filled part at the front, which the reading party
    /// hands out.
    pub end: nat,
    /// How many bytes the refill under way has read into the front so far.
    pub progress: nat,
    /// Whether the last completed refill stopped at an `Interrupted` error.
    pub interrupted: bool,
}

impl BufferView {
    /// A new buffer of `size` bytes: all zero, nothing filled.
    pub open spec fn fresh(size: nat) -> BufferView {
        BufferView { data: Seq::new(size, |i: int| 0u8), end: 0, progress: 0, interrupted: false }
    }

    /// Number of bytes the buffer can hold.
    pub open spec fn capacity(self) -> nat {
        self.data.len()
    }

    /// The filled bytes, in the order they were read.
    pub open spec fn filled(self) -> Seq<u8> {
        self.data.subrange(0, self.end as int)
    }

    /// What holds of every [`Buffer`]: it holds at least one byte, and at
    /// most `usize::MAX`, and the filled part and the progress of a refill
    /// lie within it.
    pub open spec fn wf(self) -> bool {
        &&& 0 < self.data.len() <= usize::MAX
        &&& self.end <= self.data.len()
        &&& self.progress <= self.data.len()
    }

    /// Whether a read of `bytes` completes the refill under way: it reached
    /// the end of input (no bytes) or it filled the buffer up.
    pub open spec fn completes(self, bytes: Seq<u8>) -> bool {
        bytes.len() == 0 || self.progress + bytes.len() == self.data.len()
    }

    /// The buffer after the refill under way read `bytes`: they are stored
    /// behind the bytes it read before.  When the read completes the refill,
    /// all the bytes it read become the filled part.
    pub open spec fn with_read(self, bytes: Seq<u8>) -> BufferView {
        let p = self.progress + bytes.len();
        BufferView {
            data: self.data.subrange(0, self.progress as int) + bytes + self.data.subrange(
                p as int,
                self.data.len() as int,
            ),
            end: if self.completes(bytes) {
                p
            } else {
                self.end
            },
            progress: p,
            interrupted: self.interrupted,
        }
    }

    /// The buffer after the refill under way hit an `Interrupted` error:
    /// the bytes it read become the filled part, marked as interrupted.
    pub open spec fn with_interruption(self) -> BufferView {
        BufferView { data: self.data, end: self.progress, progress: self.progress, interrupted: true }
    }
}

/// A fixed-size chunk of data that travels between the two parties.
#[derive(Debug)]
pub struct Buffer {
    data: Vec<u8>,
    end: usize,
    progress: usize,
    interrupted: bool,
}

impl Buffer {
    #[verifier::type_invariant]
    spec fn well_formed(&self) -> bool {
        &&& 0 < self.data@.len() <= usize::MAX
        &&& self.end <= self.data@.len()
        &&& self.progress <= self.data@.len()
    }
}

impl View for Buffer {
    type V = BufferView;

    closed spec fn view(&self) -> BufferView {
        BufferView {
            data: self.data@,
            end: self.end as nat,
            progress: self.progress as nat,
            interrupted: self.interrupted,
        }
    }
}

/// What one call of the wrapped reader's `read` produced.
pub enum ReadOutcome {
    /// The call succeeded with these bytes; no bytes means the end of input.
    Bytes(Vec<u8>),
    /// The call failed with an error of kind `Interrupted`.
    Interrupted,
    /// The call failed with an error of any other kind.
    Failed,
}

/// What the filling party does after a step of [`Buffer::refill`].
pub enum RefillStep {
    /// Call `read` again, with room for at most this many bytes.
    Read(usize),
    /// The buffer is ready to be handed to the reading party.
    Ready,
    /// The refill failed: hand the error on in place of the buffer.
    Failed,
}

impl Buffer {
    /// A new buffer of `size` bytes, all zero.
    pub fn new(size: usize) -> (buffer: Buffer)
        requires
            size > 0,
        ensures
            buffer@ == BufferView::fresh(size as nat),
            buffer@.wf(),
            buffer@.capacity() == size,
            buffer@.filled() == Seq::<u8>::empty(),
            buffer@.progress == 0,
            !buffer@.interrupted,
            forall|i: int| 0 <= i < size ==> buffer@.data[i] == 0u8,
    {
        let mut data: Vec<u8> = Vec::new();
        let mut i: usize = 0;
        while i < size
            invariant
                i <= size,
                data@ == Seq::new(i as nat, |j: int| 0u8),
            decreases size - i,
        {
            data.push(0u8);
            i = i + 1;
            proof {
                assert(data@ =~= Seq::new(i as nat, |j: int| 0u8));
            }
        }
        Buffer { data, end: 0, progress: 0, interrupted: false }
    }

    /// Starts a refill: nothing read yet, no interruption.  The filled part
    /// stays as it is until the refill completes.  Returns how many bytes
    /// the first `read` may produce.
    pub fn start_refill(&mut self) -> (room: usize)
        ensures
            final(self)@ == (BufferView {
                data: old(self)@.data,
                end: old(self)@.end,
                progress: 0,
                interrupted: false,
            }),
            old(self)@.wf(),
            final(self)@.wf(),
            room == old(self)@.capacity(),
            room > 0,
    {
        proof {
            use_type_invariant(&*self);
        }
        self.progress = 0;
        self.interrupted = false;
        self.data.len()
    }

    /// One step of filling the whole buffer, using as many reads as needed.
    ///
    /// The bytes of a successful read are stored behind those read before.
    /// An empty read (the end of input), a read that fills the buffer up and
    /// an `Interrupted` error (which marks the buffer) complete the refill:
    /// the bytes read become the filled part and the buffer is ready.  Any
    /// other error fails the refill and leaves the buffer as it was.
    pub fn refill(&mut self, outcome: ReadOutcome) -> (step: RefillStep)
        requires
            !old(self)@.interrupted,
            old(self)@.progress < old(self)@.capacity(),
            outcome matches ReadOutcome::Bytes(bytes) ==> bytes@.len() <= old(self)@.capacity()
                - old(self)@.progress,
        ensures
            old(self)@.wf(),
            final(self)@.wf(),
            match outcome {
                ReadOutcome::Bytes(bytes) => {
                    &&& final(self)@ == old(self)@.with_read(bytes@)
                    &&& if old(self)@.completes(bytes@) {
                        step is Ready
                    } else {
                        step == RefillStep::Read(
                            (final(self)@.capacity() - final(self)@.progress) as usize,
                        )
                    }
                },
                ReadOutcome::Interrupted => {
                    &&& final(self)@ == old(self)@.with_interruption()
                    &&& step is Ready
                },
                ReadOutcome::Failed => {
                    &&& final(self)@ == old(self)@
                    &&& step is Failed
                },
            },
            // The same, said in terms of the bytes read.
            final(self)@.capacity() == old(self)@.capacity(),
            outcome matches ReadOutcome::Bytes(bytes) ==> {
                &&& final(self)@.progress == old(self)@.progress + bytes@.len()
                &&& final(self)@.data.subrange(0, final(self)@.progress as int)
                    == old(self)@.data.subrange(0, old(self)@.progress as int) + bytes@
                &&& !final(self)@.interrupted
                &&& (step is Ready <==> (bytes@.len() == 0 || final(self)@.progress
                    == final(self)@.capacity()))
                &&& step is Ready ==> final(self)@.filled() == old(self)@.data.subrange(
                    0,
                    old(self)@.progress as int,
                ) + bytes@
                &&& step is Read ==> final(self)@.end == old(self)@.end
            },
            outcome is Interrupted ==> {
                &&& final(self)@.filled() == old(self)@.data.subrange(0, old(self)@.progress as int)
                &&& final(self)@.interrupted
            },
    {
        proof {
            use_type_invariant(&*self);
        }
        match outcome {
            ReadOutcome::Bytes(bytes) => {
                let start = self.progress;
                let cap = self.data.len();
                let mut i: usize = 0;
                while i < bytes.len()
                    invariant
                        start == old(self).progress,
                        0 < cap,
                        old(self).end <= cap,
                        start + bytes@.len() <= cap,
                        self.data@.len() == cap,
                        old(self).data@.len() == cap,
                        self.end == old(self).end,
                        self.progress == start,
                        self.interrupted == old(self).interrupted,
                        i <= bytes@.len(),
                        self.data@.subrange(0, start as int) == old(self).data@.subrange(
                            0,
                            start as int,
                        ),
                        self.data@.subrange(start as int, start + i) == bytes@.subrange(0, i as int),
                        self.data@.subrange(start + i, cap as int) == old(self).data@.subrange(
                            start + i,
                            cap as int,
                        ),
                    decreases bytes@.len() - i,
                {
                    let ghost before = self.data@;
                    self.data[start + i] = bytes[i];
                    i = i + 1;
                    proof {
                        assert forall|k: int| start + i <= k < cap implies self.data@[k] == old(
                            self,
                        ).data@[k] by {
                            assert(before[k] == before.subrange(start + i - 1, cap as int)[k - (
                            start + i - 1)]);
                        }
                        assert(self.data@.subrange(0, start as int) =~= old(self).data@.subrange(
                            0,
                            start as int,
                        ));
                        assert(self.data@.subrange(start as int, start + i) =~= bytes@.subrange(
                            0,
                            i as int,
                        ));
                        assert(self.data@.subrange(start + i, cap as int) =~= old(
                            self,
                        ).data@.subrange(start + i, cap as int));
                    }
                }
                let p = start + bytes.len();
                self.progress = p;
                proof {
                    assert(bytes@.subrange(0, bytes@.len() as int) =~= bytes@);
                    assert(self.data@ =~= self.data@.subrange(0, start as int)
                        + self.data@.subrange(start as int, p as int) + self.data@.subrange(
                        p as int,
                        cap as int,
                    ));
                }
                proof {
                    assert(self.data@.subrange(0, p as int) =~= self.data@.subrange(0, start as int)
                        + self.data@.subrange(start as int, p as int));
                }
                if bytes.len() == 0 || p == cap {
                    self.end = p;
                    RefillStep::Ready
                } else {
                    RefillStep::Read(cap - p)
                }
            },
            ReadOutcome::Interrupted => {
                self.end = self.progress;
                self.interrupted = true;
                RefillStep::Ready
            },
            ReadOutcome::Failed => RefillStep::Failed,
        }
    }
}

/// A new buffer holds nothing to report: nothing filled, no refill under
/// way, no interruption; it has the size asked for, all zero.
pub proof fn law_fresh_buffer_is_empty(size: nat)
    ensures
        BufferView::fresh(size).filled() == Seq::<u8>::empty(),
        BufferView::fresh(size).end == 0,
        BufferView::fresh(size).progress == 0,
        !BufferView::fresh(size).interrupted,
        BufferView::fresh(size).capacity() == size,
        forall|i: int| 0 <= i < size ==> BufferView::fresh(size).data[i] == 0u8,
{
    assert(BufferView::fresh(size).filled() =~= Seq::<u8>::empty());
}

/// What one successful read does to a refill under way: its bytes are
/// stored right behind the bytes read before, and nothing else of the
/// buffer changes.  A read that fills the buffer up, or reaches the end of
/// input (no bytes), completes the refill: the filled part becomes exactly
/// the bytes read since the refill started, so after a filling read every
/// byte of the buffer is filled.  Any other read leaves the filled part's
/// length as it was.
pub proof fn law_refill_read_step(v: BufferView, bytes: Seq<u8>)
    requires
        v.wf(),
        v.progress + bytes.len() <= v.capacity(),
    ensures
        ({
            let w = v.with_read(bytes);
            let read = v.data.subrange(0, v.progress as int) + bytes;
            &&& w.wf()
            &&& w.capacity() == v.capacity()
            &&& w.progress == v.progress + bytes.len()
            &&& w.data.subrange(0, w.progress as int) == read
            &&& w.data.subrange(w.progress as int, w.capacity() as int) == v.data.subrange(
                w.progress as int,
                v.capacity() as int,
            )
            &&& w.interrupted == v.interrupted
            &&& v.progress + bytes.len() == v.capacity() ==> {
                &&& w.filled() == read
                &&& w.filled().len() == v.capacity()
            }
            &&& bytes.len() == 0 ==> w.filled() == v.data.subrange(0, v.progress as int)
            &&& (bytes.len() > 0 && v.progress + bytes.len() < v.capacity()) ==> w.end == v.end
        }),
{
    let w = v.with_read(bytes);
    assert(w.data.subrange(0, w.progress as int) =~= v.data.subrange(0, v.progress as int)
        + bytes);
    assert(w.data.subrange(w.progress as int, w.capacity() as int) =~= v.data.subrange(
        w.progress as int,
        v.capacity() as int,
    ));
}

/// An `Interrupted` error completes the refill under way: the bytes read
/// since it started become the filled part, marked as interrupted, and the
/// buffer's bytes stay as they are.
pub proof fn law_interruption_completes_refill(v: BufferView)
    requires
        v.wf(),
    ensures
        v.with_interruption().filled() == v.data.subrange(0, v.progress as int),
        v.with_interruption().interrupted,
        v.with_interruption().data == v.data,
        v.with_interruption().wf(),
{
}

/// The bytes of `chunks`, one chunk after the other.
pub open spec fn concat(chunks: Seq<Seq<u8>>) -> Seq<u8>
    decreases chunks.len(),
{
    if chunks.len() == 0 {
        Seq::empty()
    } else {
        chunks[0] + concat(chunks.drop_first())
    }
}

/// The buffer after the refill under way read each of `chunks` in turn,
/// each step as [`Buffer::refill`] states it for a successful read.
pub open spec fn read_in_turn(v: BufferView, chunks: Seq<Seq<u8>>) -> BufferView
    decreases chunks.len(),
{
    if chunks.len() == 0 {
        v
    } else {
        read_in_turn(v.with_read(chunks[0]), chunks.drop_first())
    }
}

/// A refill keeps the reads in order: successive successful reads are
/// stored one behind the other, behind what the refill read before, and
/// once the end of input completes the refill, exactly those bytes are the
/// filled part.  Started from the buffer [`Buffer::start_refill`] leaves
/// (nothing read yet), the filled part is the reads' bytes themselves.
pub proof fn law_refill_keeps_read_order(v: BufferView, chunks: Seq<Seq<u8>>)
    requires
        v.wf(),
        v.progress + concat(chunks).len() <= v.capacity(),
    ensures
        ({
            let w = read_in_turn(v, chunks);
            let read = v.data.subrange(0, v.progress as int) + concat(chunks);
            &&& w.wf()
            &&& w.capacity() == v.capacity()
            &&& w.interrupted == v.interrupted
            &&& w.progress == read.len()
            &&& w.data.subrange(0, w.progress as int) == read
            &&& w.with_read(Seq::empty()).filled() == read
            &&& (w.progress == w.capacity() && (concat(chunks).len() > 0 || v.end == v.progress))
                ==> w.filled() == read && w.filled().len() == w.capacity()
        }),
    decreases chunks.len(),
{
    if chunks.len() == 0 {
        assert(v.data.subrange(0, v.progress as int) + concat(chunks) =~= v.data.subrange(
            0,
            v.progress as int,
        ));
        assert(v.with_read(Seq::empty()).data =~= v.data);
    } else {
        let c = chunks[0];
        let next = v.with_read(c);
        assert(concat(chunks).len() == c.len() + concat(chunks.drop_first()).len());
        assert(next.data.subrange(0, next.progress as int) =~= v.data.subrange(
            0,
            v.progress as int,
        ) + c);
        law_refill_keeps_read_order(next, chunks.drop_first());
        assert(v.data.subrange(0, v.progress as int) + c + concat(chunks.drop_first())
            =~= v.data.subrange(0, v.progress as int) + concat(chunks));
    }
}


/// What a reading caller is told, one item at a time: a byte, an
/// interruption of the wrapped reader, or its failure.
pub enum Event {
    Byte(u8),
    Interruption,
    Failure,
}

/// `bytes`, as events.
pub open spec fn bytes_events(bytes: Seq<u8>) -> Seq<Event> {
    bytes.map_values(|b: u8| Event::Byte(b))
}

/// The reading party's state, as seen by its users.
#[verifier::ext_equal]
pub struct ReaderView {
    /// The buffer being drained, if any.
    pub current: Option<BufferView>,
    /// How many of its filled bytes were handed out already.
    pub pos: nat,
    /// Whether an error of the filling party was handed out.
    pub failed: bool,
}

impl ReaderView {
    /// What holds of every [`Reader`]: its buffer is well formed and the
    /// position lies within the filled part (and is zero without a buffer).
    pub open spec fn valid(self) -> bool {
        match self.current {
            Some(b) => b.wf() && self.pos <= b.end,
            None => self.pos == 0,
        }
    }

    /// The bytes of the current buffer that were not handed out yet.
    pub open spec fn unread(self) -> Seq<u8> {
        match self.current {
            Some(b) => b.filled().subrange(self.pos as int, b.filled().len() as int),
            None => Seq::empty(),
        }
    }

    /// What the current buffer still has to report: its unread bytes, then
    /// its interruption, if its refill was interrupted.
    pub open spec fn pending(self) -> Seq<Event> {
        match self.current {
            Some(b) => bytes_events(self.unread()) + if b.interrupted {
                seq![Event::Interruption]
            } else {
                Seq::empty()
            },
            None => Seq::empty(),
        }
    }

    /// Whether the next read reports an interruption instead of bytes: the
    /// current buffer's refill was interrupted and its bytes are all out.
    pub open spec fn reports_interruption(self) -> bool {
        &&& self.current matches Some(b)
        &&& b.interrupted
        &&& self.unread().len() == 0
    }

    /// How many bytes a read into a slice of `room` bytes hands out.
    pub open spec fn read_count(self, room: nat) -> nat {
        if room < self.unread().len() {
            room
        } else {
            self.unread().len()
        }
    }

    /// Whether a read into a slice of `room` bytes gives the current buffer
    /// back: once nothing is left to report from it.
    pub open spec fn gives_back(self, room: nat) -> bool {
        &&& self.current matches Some(b)
        &&& {
            ||| self.reports_interruption()
            ||| (self.read_count(room) == self.unread().len() && !b.interrupted)
        }
    }

    /// The state after a read into a slice of `room` bytes.
    pub open spec fn after_read(self, room: nat) -> ReaderView {
        if self.gives_back(room) {
            ReaderView { current: None, pos: 0, failed: self.failed }
        } else {
            ReaderView {
                current: self.current,
                pos: self.pos + self.read_count(room),
                failed: self.failed,
            }
        }
    }

    /// What a read into a slice of `room` bytes tells its caller.
    pub open spec fn read_events(self, room: nat) -> Seq<Event> {
        if self.reports_interruption() {
            seq![Event::Interruption]
        } else {
            bytes_events(self.unread().take(self.read_count(room) as int))
        }
    }
}

/// What one read of the reading party gives its caller.
pub enum ReadReply {
    /// This many bytes were copied to the front of the caller's slice.
    Bytes(usize),
    /// The wrapped reader was interrupted at this point of the stream.
    Interrupted,
}

/// The reading party: hands out the bytes of the buffers it receives, in
/// order, and gives back each buffer once it is drained.
#[derive(Debug)]
pub struct Reader {
    buffer: Option<Buffer>,
    pos: usize,
    failed: bool,
}

impl Reader {
    #[verifier::type_invariant]
    spec fn well_formed(&self) -> bool {
        match self.buffer {
            Some(b) => self.pos <= b.end,
            None => self.pos == 0,
        }
    }
}

impl View for Reader {
    type V = ReaderView;

    closed spec fn view(&self) -> ReaderView {
        ReaderView {
            current: match self.buffer {
                Some(b) => Some(b@),
                None => None,
            },
            pos: self.pos as nat,
            failed: self.failed,
        }
    }
}

impl Reader {
    /// A reading party with no buffer yet, and the `queuelen` new buffers of
    /// `bufsize` bytes that the filling party starts with.
    pub fn new(bufsize: usize, queuelen: usize) -> (res: (Reader, Vec<Buffer>))
        requires
            queuelen > 0 ==> bufsize > 0,
        ensures
            res.0@ == (ReaderView { current: None, pos: 0, failed: false }),
            res.1@.len() == queuelen,
            forall|i: int|
                0 <= i < queuelen ==> (#[trigger] res.1@[i])@ == BufferView::fresh(bufsize as nat),
            forall|i: int|
                0 <= i < queuelen ==> {
                    &&& (#[trigger] res.1@[i])@.capacity() == bufsize
                    &&& res.1@[i]@.filled() == Seq::<u8>::empty()
                    &&& res.1@[i]@.progress == 0
                    &&& !res.1@[i]@.interrupted
                },
    {
        let mut buffers: Vec<Buffer> = Vec::new();
        let mut i: usize = 0;
        while i < queuelen
            invariant
                queuelen > 0 ==> bufsize > 0,
                i <= queuelen,
                buffers@.len() == i,
                forall|j: int|
                    0 <= j < i ==> (#[trigger] buffers@[j])@ == BufferView::fresh(bufsize as nat),
            decreases queuelen - i,
        {
            buffers.push(Buffer::new(bufsize));
            i = i + 1;
        }
        (Reader { buffer: None, pos: 0, failed: false }, buffers)
    }

    /// Whether the next read needs a buffer from the filling party first.
    pub fn needs_buffer(&self) -> (b: bool)
        ensures
            b == (self@.current is None),
            self@.valid(),
    {
        proof {
            use_type_invariant(self);
            if let Some(buffer) = &self.buffer {
                use_type_invariant(buffer);
            }
        }
        self.buffer.is_none()
    }

    /// Takes a filled buffer, whose bytes the following reads hand out.
    pub fn install(&mut self, buffer: Buffer)
        requires
            old(self)@.current is None,
        ensures
            final(self)@ == (ReaderView { current: Some(buffer@), pos: 0, failed: old(self)@.failed }),
            final(self)@.valid(),
    {
        proof {
            use_type_invariant(&*self);
            use_type_invariant(&buffer);
        }
        self.buffer = Some(buffer);
        self.pos = 0;
    }

    /// Notes that the filling party's error was handed out in place of a
    /// buffer: from then on no buffer can come, and reading on is an error
    /// of the caller.
    pub fn record_failure(&mut self)
        requires
            old(self)@.current is None,
        ensures
            final(self)@ == (ReaderView { current: None, pos: 0, failed: true }),
    {
        proof {
            use_type_invariant(&*self);
        }
        self.failed = true;
    }

    /// Whether a read may follow: not once the filling party's error was
    /// handed out and no buffer is left.
    pub fn can_read(&self) -> (b: bool)
        ensures
            b == !(self@.current is None && self@.failed),
    {
        !(self.buffer.is_none() && self.failed)
    }

    /// Empties the reading party, returning the buffer it held.
    fn give_back(&mut self) -> (recycled: Option<Buffer>)
        ensures
            final(self)@ == (ReaderView { current: None, pos: 0, failed: old(self)@.failed }),
            match recycled {
                Some(b) => old(self)@.current == Some(b@),
                None => old(self)@.current is None,
            },
    {
        let mut drained = Reader { buffer: None, pos: 0, failed: self.failed };
        std::mem::swap(self, &mut drained);
        let Reader { buffer, pos: _, failed: _ } = drained;
        buffer
    }

    /// Copies as many unread bytes as fit to the front of `buf`.
    ///
    /// A buffer whose refill was interrupted reports the interruption once
    /// its bytes are all handed out.  The buffer is given back (second
    /// result) as soon as nothing is left to report from it.  Without a
    /// buffer (none could be had: the filling party is gone without an
    /// error) the read reports the end of input.
    pub fn read(&mut self, buf: &mut [u8]) -> (res: (ReadReply, Option<Buffer>))
        requires
            !(old(self)@.current is None && old(self)@.failed),
        ensures
            ({
                let before = old(self)@;
                let n = before.read_count(old(buf)@.len());
                &&& res.0 == if before.reports_interruption() {
                    ReadReply::Interrupted
                } else {
                    ReadReply::Bytes(n as usize)
                }
                &&& final(buf)@ == before.unread().take(n as int) + old(buf)@.skip(n as int)
                &&& final(self)@ == before.after_read(old(buf)@.len())
                &&& before.valid()
                &&& final(self)@.valid()
                &&& match res.1 {
                    Some(b) => before.gives_back(old(buf)@.len()) && before.current == Some(b@),
                    None => !before.gives_back(old(buf)@.len()),
                }
            }),
            // The same, said in terms of the bytes handed out.
            ({
                let unread = old(self)@.unread();
                let room = old(buf)@.len();
                let interruption = old(self)@.current matches Some(b) && b.interrupted
                    && unread.len() == 0;
                &&& (res.0 is Interrupted) == interruption
                &&& interruption ==> final(buf)@ == old(buf)@ && res.1 is Some
                &&& res.0 matches ReadReply::Bytes(n) ==> {
                    &&& n <= room && n <= unread.len()
                    &&& (n == room || n == unread.len())
                    &&& final(buf)@.subrange(0, n as int) == unread.subrange(0, n as int)
                    &&& final(buf)@.subrange(n as int, room as int) == old(buf)@.subrange(
                        n as int,
                        room as int,
                    )
                    &&& final(buf)@.len() == room
                    &&& match res.1 {
                        Some(b) => n == unread.len() && !b@.interrupted && final(self)@.current is None,
                        None => {
                            &&& final(self)@.current == old(self)@.current
                            &&& final(self)@.unread() == unread.subrange(n as int, unread.len() as int)
                            &&& (old(self)@.current is None || n < unread.len()
                                || old(self)@.current->0.interrupted)
                        },
                    }
                }
            }),
    {
        proof {
            use_type_invariant(&*self);
        }
        if self.buffer.is_none() {
            proof {
                assert(buf@ =~= old(self)@.unread().take(0) + old(buf)@.skip(0));
            }
            return (ReadReply::Bytes(0), None);
        }
        let source = self.buffer.as_ref().unwrap();
        proof {
            use_type_invariant(source);
        }
        let pos = self.pos;
        let end = source.end;
        if source.interrupted && pos == end {
            return (ReadReply::Interrupted, self.give_back());
        }
        let avail = end - pos;
        let n = if buf.len() < avail {
            buf.len()
        } else {
            avail
        };
        let mut i: usize = 0;
        while i < n
            invariant
                i <= n,
                n <= buf@.len(),
                pos + n <= end,
                end <= source.data@.len(),
                buf@.len() == old(buf)@.len(),
                buf@.subrange(0, i as int) == source.data@.subrange(pos as int, pos + i),
                buf@.subrange(n as int, buf@.len() as int) == old(buf)@.subrange(
                    n as int,
                    old(buf)@.len() as int,
                ),
            decreases n - i,
        {
            buf[i] = source.data[pos + i];
            i = i + 1;
            proof {
                assert(buf@.subrange(0, i as int) =~= source.data@.subrange(pos as int, pos + i));
                assert(buf@.subrange(n as int, buf@.len() as int) =~= old(buf)@.subrange(
                    n as int,
                    old(buf)@.len() as int,
                ));
            }
        }
        let interrupted = source.interrupted;
        proof {
            let unread = old(self)@.unread();
            assert(unread.take(n as int) =~= source.data@.subrange(pos as int, pos + n));
            assert(buf@ =~= buf@.subrange(0, n as int) + buf@.subrange(n as int, buf@.len() as int));
            assert(old(buf)@.skip(n as int) =~= old(buf)@.subrange(n as int, old(buf)@.len() as int));
        }
        if pos + n == end && !interrupted {
            (ReadReply::Bytes(n), self.give_back())
        } else {
            self.pos = pos + n;
            (ReadReply::Bytes(n), None)
        }
    }
}

/// A queue entry as the filling party hands it over: a filled buffer, or
/// (`None`) the error of a failed refill.
pub type Handover = Option<BufferView>;

/// What a filled buffer is reported as: its filled bytes, then its
/// interruption, if its refill was interrupted.
pub open spec fn buffer_events(b: BufferView) -> Seq<Event> {
    bytes_events(b.filled()) + if b.interrupted {
        seq![Event::Interruption]
    } else {
        Seq::empty()
    }
}

/// What the entries of `queue` are reported as, in order; the first error
/// is reported as a failure, and nothing after it.
pub open spec fn queued_events(queue: Seq<Handover>) -> Seq<Event>
    decreases queue.len(),
{
    if queue.len() == 0 {
        Seq::empty()
    } else {
        match queue[0] {
            Some(b) => buffer_events(b) + queued_events(queue.drop_first()),
            None => seq![Event::Failure],
        }
    }
}

/// How many reads into non-empty slices are enough to report everything of
/// `queue`: one per byte and one more per entry.
pub open spec fn queue_reads(queue: Seq<Handover>) -> nat
    decreases queue.len(),
{
    if queue.len() == 0 {
        0
    } else {
        match queue[0] {
            Some(b) => b.filled().len() + 1 + queue_reads(queue.drop_first()),
            None => 1,
        }
    }
}

/// How many reads into non-empty slices are enough to report everything
/// the reading party `r` holds and everything of `queue`.
pub open spec fn reads_needed(r: ReaderView, queue: Seq<Handover>) -> nat {
    (if r.current is Some {
        r.unread().len() + 1
    } else {
        0
    }) + queue_reads(queue)
}

/// The state a read starts from: a reader without a buffer first takes the
/// next buffer of the queue, if that is one.
pub open spec fn with_next_buffer(r: ReaderView, queue: Seq<Handover>) -> (ReaderView, Seq<
    Handover,
>) {
    if r.current is None && queue.len() > 0 && queue[0] is Some {
        (ReaderView { current: queue[0], pos: 0, failed: r.failed }, queue.drop_first())
    } else {
        (r, queue)
    }
}

/// What successive reads into slices of `rooms` bytes tell the caller,
/// starting from `r`, while the entries of `queue` arrive in order.  A read
/// without a current buffer takes the next one; when the next entry is an
/// error, that read reports the failure and reading ends; with no entry
/// left, reads report the end of input and nothing more.
pub open spec fn events(r: ReaderView, queue: Seq<Handover>, rooms: Seq<nat>) -> Seq<Event>
    decreases rooms.len(),
{
    if rooms.len() == 0 {
        Seq::empty()
    } else {
        let (r0, q0) = with_next_buffer(r, queue);
        if r0.current is None {
            if queue.len() > 0 {
                seq![Event::Failure]
            } else {
                Seq::empty()
            }
        } else {
            r0.read_events(rooms[0]) + events(r0.after_read(rooms[0]), q0, rooms.drop_first())
        }
    }
}

proof fn lemma_bytes_events_split(s: Seq<u8>, n: int)
    requires
        0 <= n <= s.len(),
    ensures
        bytes_events(s) == bytes_events(s.take(n)) + bytes_events(s.skip(n)),
        bytes_events(s).len() == s.len(),
{
    assert(bytes_events(s) =~= bytes_events(s.take(n)) + bytes_events(s.skip(n)));
}

/// One read into a non-empty slice of a reader with a buffer loses,
/// duplicates and reorders nothing: what it reports, followed by what is
/// left to report, is what was left before.  It reports the interruption
/// alone once the interrupted buffer's bytes are out, and otherwise as many
/// bytes as fit, at most what is left and at least one while something is
/// left; fewer reads are then needed.
pub proof fn law_one_read(r: ReaderView, queue: Seq<Handover>, room: nat)
    requires
        r.valid(),
        r.current is Some,
        room > 0,
    ensures
        r.pending() == r.read_events(room) + r.after_read(room).pending(),
        r.after_read(room).valid(),
        reads_needed(r.after_read(room), queue) < reads_needed(r, queue),
        (r.current->0.interrupted && r.unread().len() == 0) ==> r.read_events(room) == seq![
            Event::Interruption,
        ],
        !(r.current->0.interrupted && r.unread().len() == 0) ==> r.read_events(room)
            == bytes_events(
            r.unread().subrange(
                0,
                if room < r.unread().len() {
                    room as int
                } else {
                    r.unread().len() as int
                },
            ),
        ),
{
    let b = r.current->0;
    let unread = r.unread();
    let n = r.read_count(room);
    let r1 = r.after_read(room);
    lemma_bytes_events_split(unread, n as int);
    if r.reports_interruption() {
        assert(bytes_events(unread) =~= Seq::<Event>::empty());
        assert(r.pending() =~= seq![Event::Interruption]);
        assert(r1.pending() =~= Seq::<Event>::empty());
    } else if r.gives_back(room) {
        assert(unread.take(n as int) =~= unread);
        assert(r.pending() =~= bytes_events(unread));
        assert(r1.pending() =~= Seq::<Event>::empty());
    } else {
        assert(n >= 1);
        assert(r1.unread() =~= unread.skip(n as int));
        assert(r.pending() =~= r.read_events(room) + r1.pending());
    }
}

/// Reading loses, duplicates and reorders nothing, and reports each
/// interruption and the failure at their place in the stream: reads into
/// non-empty slices, enough of them, report exactly what the current buffer
/// still holds, then what each queued entry holds, in queue order, up to the
/// first failure, whatever the slice sizes.
#[verifier::spinoff_prover]
#[verifier::rlimit(80)]
pub proof fn law_reading_reports_everything(r: ReaderView, queue: Seq<Handover>, rooms: Seq<nat>)
    requires
        r.valid(),
        forall|i: int| 0 <= i < queue.len() ==> (#[trigger] queue[i] matches Some(b) ==> b.wf()),
        forall|i: int| 0 <= i < rooms.len() ==> #[trigger] rooms[i] > 0,
        rooms.len() >= reads_needed(r, queue),
    ensures
        events(r, queue, rooms) == r.pending() + queued_events(queue),
    decreases rooms.len(),
{
    if rooms.len() == 0 {
        if queue.len() > 0 {
            assert(queue_reads(queue) >= 1);
        }
        assert(r.pending() + queued_events(queue) =~= Seq::<Event>::empty());
        return;
    }
    let (r0, q0) = with_next_buffer(r, queue);
    if r0.current is None {
        if queue.len() > 0 {
            assert(queued_events(queue) == seq![Event::Failure]);
        }
        assert(r.pending() + queued_events(queue) =~= events(r, queue, rooms));
        return;
    }
    assert(r0.valid() && r0.pending() + queued_events(q0) == r.pending() + queued_events(queue)
        && reads_needed(r0, q0) == reads_needed(r, queue)) by {
        if r.current is None {
            let b = queue[0]->0;
            assert(queue[0] matches Some(x) ==> x.wf());
            assert(r0.unread() =~= b.filled());
            assert(r0.pending() =~= buffer_events(b));
            assert(r.pending() =~= Seq::<Event>::empty());
            assert(r.pending() + queued_events(queue) =~= r0.pending() + queued_events(q0));
        }
    }
    let room = rooms[0];
    assert(room > 0);
    law_one_read(r0, q0, room);
    let r1 = r0.after_read(room);
    assert forall|i: int| 0 <= i < q0.len() implies (#[trigger] q0[i] matches Some(b) ==> b.wf()) by {
        if r.current is None {
            assert(q0[i] == queue[i + 1]);
        }
    }
    assert forall|i: int| 0 <= i < rooms.drop_first().len() implies #[trigger] rooms.drop_first()[i]
        > 0 by {
        assert(rooms.drop_first()[i] == rooms[i + 1]);
    }
    law_reading_reports_everything(r1, q0, rooms.drop_first());
    assert(events(r, queue, rooms) == r0.read_events(room) + events(r1, q0, rooms.drop_first()));
    assert(r0.read_events(room) + (r1.pending() + queued_events(q0)) =~= r0.pending()
        + queued_events(q0));
}

/// Once the wrapped reader is used up, every read reports the end of input:
/// when nothing is left to report and the filling party only hands over
/// buffers with nothing filled in, no read reports anything.
pub proof fn law_end_of_input_repeats(r: ReaderView, queue: Seq<Handover>, rooms: Seq<nat>)
    requires
        r.valid(),
        r.pending().len() == 0,
        forall|i: int|
            0 <= i < queue.len() ==> (#[trigger] queue[i] matches Some(b) && b.wf()
                && b.filled().len() == 0 && !b.interrupted),
    ensures
        events(r, queue, rooms) == Seq::<Event>::empty(),
    decreases rooms.len(),
{
    if rooms.len() == 0 {
        return;
    }
    let (r0, q0) = with_next_buffer(r, queue);
    if r0.current is None {
        assert(queue.len() == 0 || queue[0] is Some);
        return;
    }
    if r.current is None {
        assert(queue[0] matches Some(b) && b.wf() && b.filled().len() == 0 && !b.interrupted);
    } else {
        assert(bytes_events(r.unread()).len() == r.unread().len());
    }
    assert(r0.unread().len() == 0);
    assert(!r0.current->0.interrupted);
    let r1 = r0.after_read(rooms[0]);
    assert(r1.current is None);
    assert(r0.read_events(rooms[0]) =~= Seq::<Event>::empty());
    assert forall|i: int| 0 <= i < q0.len() implies (#[trigger] q0[i] matches Some(b) && b.wf()
        && b.filled().len() == 0 && !b.interrupted) by {
        if r.current is None {
            assert(q0[i] == queue[i + 1]);
        }
    }
    law_end_of_input_repeats(r1, q0, rooms.drop_first());
}

/// What each of successive reads into slices of `rooms` bytes tells the
/// caller, one entry per read, starting from `r` while the entries of
/// `queue` arrive in order, as [`events`] counts them: a read without a
/// buffer and with nothing left in the queue reports the end of input (an
/// empty entry), and the listing stops there or at a failure.
pub open spec fn reports(r: ReaderView, queue: Seq<Handover>, rooms: Seq<nat>) -> Seq<Seq<Event>>
    decreases rooms.len(),
{
    if rooms.len() == 0 {
        Seq::empty()
    } else {
        let (r0, q0) = with_next_buffer(r, queue);
        if r0.current is None {
            if queue.len() > 0 {
                seq![seq![Event::Failure]]
            } else {
                seq![Seq::empty()]
            }
        } else {
            seq![r0.read_events(rooms[0])] + reports(r0.after_read(rooms[0]), q0, rooms.drop_first())
        }
    }
}

/// The reports of `rs`, one after the other.
pub open spec fn flatten_reports(rs: Seq<Seq<Event>>) -> Seq<Event>
    decreases rs.len(),
{
    if rs.len() == 0 {
        Seq::empty()
    } else {
        rs[0] + flatten_reports(rs.drop_first())
    }
}

/// A queue as the filling party produces it from a wrapped reader: refilled
/// buffers, the first `m` of which have something to report, and then only
/// buffers filled at the end of input (nothing filled, no interruption).
pub open spec fn refilled_queue(queue: Seq<Handover>, m: nat) -> bool {
    &&& m <= queue.len()
    &&& forall|i: int|
        0 <= i < queue.len() ==> (#[trigger] queue[i] matches Some(b) && b.wf() && (i < m
            <==> buffer_events(b).len() > 0))
}

proof fn lemma_read_reports_something(r: ReaderView, room: nat)
    requires
        r.valid(),
        r.current is Some,
        r.pending().len() > 0,
        room > 0,
    ensures
        r.read_events(room).len() > 0,
        r.after_read(room).current is Some ==> r.after_read(room).pending().len() > 0,
{
    lemma_bytes_events_split(r.unread(), r.read_count(room) as int);
    if !r.reports_interruption() {
        assert(r.unread().len() > 0);
        assert(bytes_events(r.unread().take(r.read_count(room) as int)).len() == r.read_count(
            room,
        ));
    }
    let r1 = r.after_read(room);
    if r1.current is Some {
        assert(r1.unread() =~= r.unread().skip(r.read_count(room) as int));
        lemma_bytes_events_split(r1.unread(), 0);
    }
}

/// No read reports nothing before the end of input: when the reading party
/// has something left (or nothing at all) and the filling party hands over
/// refilled buffers, those with something to report first, then a caller
/// that stops at its first read that reports nothing has been told
/// everything: the rest of the current buffer and all of the buffers with
/// something to report, in order.
#[verifier::spinoff_prover]
#[verifier::rlimit(80)]
pub proof fn law_first_empty_read_is_the_end(
    r: ReaderView,
    queue: Seq<Handover>,
    m: nat,
    rooms: Seq<nat>,
)
    requires
        r.valid(),
        r.current is Some ==> r.pending().len() > 0,
        refilled_queue(queue, m),
        forall|i: int| 0 <= i < rooms.len() ==> #[trigger] rooms[i] > 0,
    ensures
        forall|i: int|
            0 <= i < reports(r, queue, rooms).len() && reports(r, queue, rooms)[i].len() == 0 && (
            forall|j: int| 0 <= j < i ==> #[trigger] reports(r, queue, rooms)[j].len() > 0)
                ==> flatten_reports(reports(r, queue, rooms).take(i)) == r.pending()
                + queued_events(queue.take(m as int)),
    decreases rooms.len(),
{
    let rep = reports(r, queue, rooms);
    let everything = r.pending() + queued_events(queue.take(m as int));
    if rooms.len() == 0 {
        return;
    }
    let (r0, q0) = with_next_buffer(r, queue);
    if r0.current is None {
        assert(queue.len() == 0 || queue[0] is Some);
        assert(queue.len() == 0);
        assert(queue.take(m as int) =~= Seq::<Handover>::empty());
        assert(rep =~= seq![Seq::<Event>::empty()]);
        assert forall|i: int|
            0 <= i < rep.len() && rep[i].len() == 0 && (forall|j: int|
                0 <= j < i ==> #[trigger] rep[j].len() > 0) implies flatten_reports(rep.take(i))
            == everything by {
            assert(rep.take(i) =~= Seq::<Seq<Event>>::empty());
            assert(everything =~= Seq::<Event>::empty());
        }
        return;
    }
    let room = rooms[0];
    assert(room > 0);
    if r.current is None && m == 0 {
        // The next buffer was filled at the end of input: this read reports
        // nothing, and nothing was left to report.
        assert(queue[0] matches Some(b) && b.wf() && buffer_events(b).len() == 0);
        let b = queue[0]->0;
        assert(bytes_events(b.filled()).len() == b.filled().len());
        assert(r0.unread() =~= b.filled());
        assert(r0.read_events(room) =~= Seq::<Event>::empty());
        assert(rep[0] == r0.read_events(room));
        assert(queue.take(0) =~= Seq::<Handover>::empty());
        assert forall|i: int|
            0 <= i < rep.len() && rep[i].len() == 0 && (forall|j: int|
                0 <= j < i ==> #[trigger] rep[j].len() > 0) implies flatten_reports(rep.take(i))
            == everything by {
            if i > 0 {
                assert(rep[0].len() > 0);
            }
            assert(rep.take(i) =~= Seq::<Seq<Event>>::empty());
            assert(everything =~= Seq::<Event>::empty());
        }
        return;
    }
    // The read starts from a buffer with something to report.
    let m0: nat = if r.current is None {
        (m - 1) as nat
    } else {
        m
    };
    assert(r0.valid() && r0.pending().len() > 0 && refilled_queue(q0, m0) && r0.pending()
        + queued_events(q0.take(m0 as int)) == everything) by {
        if r.current is None {
            let b = queue[0]->0;
            assert(queue[0] matches Some(x) && x.wf() && buffer_events(x).len() > 0);
            assert(r0.unread() =~= b.filled());
            assert(r0.pending() =~= buffer_events(b));
            assert forall|i: int| 0 <= i < q0.len() implies (#[trigger] q0[i] matches Some(x)
                && x.wf() && (i < m0 <==> buffer_events(x).len() > 0)) by {
                assert(q0[i] == queue[i + 1]);
            }
            assert(queue.take(m as int).drop_first() =~= q0.take(m0 as int));
            assert(queue.take(m as int)[0] == queue[0]);
            assert(r.pending() =~= Seq::<Event>::empty());
            assert(everything =~= r0.pending() + queued_events(q0.take(m0 as int)));
        }
    }
    lemma_read_reports_something(r0, room);
    law_one_read(r0, q0, room);
    let r1 = r0.after_read(room);
    let rest = reports(r1, q0, rooms.drop_first());
    assert forall|i: int| 0 <= i < rooms.drop_first().len() implies #[trigger] rooms.drop_first()[i]
        > 0 by {
        assert(rooms.drop_first()[i] == rooms[i + 1]);
    }
    law_first_empty_read_is_the_end(r1, q0, m0, rooms.drop_first());
    assert(rep == seq![r0.read_events(room)] + rest);
    assert forall|i: int|
        0 <= i < rep.len() && rep[i].len() == 0 && (forall|j: int|
            0 <= j < i ==> #[trigger] rep[j].len() > 0) implies flatten_reports(rep.take(i))
        == everything by {
        assert(i > 0);
        assert(rep[i] == rest[i - 1]);
        assert forall|j: int| 0 <= j < i - 1 implies #[trigger] rest[j].len() > 0 by {
            assert(rest[j] == rep[j + 1]);
        }
        assert(rep.take(i).drop_first() =~= rest.take(i - 1));
        assert(rep.take(i)[0] == r0.read_events(room));
        assert(flatten_reports(rep.take(i)) == r0.read_events(room) + flatten_reports(
            rest.take(i - 1),
        ));
        assert(r0.read_events(room) + (r1.pending() + queued_events(q0.take(m0 as int)))
            =~= r0.pending() + queued_events(q0.take(m0 as int)));
    }
}

/// The filling party's state, as seen by its users: whether it has stopped.
#[derive(Debug)]
pub struct BackgroundReader {
    stopped: bool,
}

impl View for BackgroundReader {
    type V = bool;

    closed spec fn view(&self) -> bool {
        self.stopped
    }
}

impl BackgroundReader {
    /// A filling party that waits for buffers.
    pub fn new() -> (r: BackgroundReader)
        ensures
            !r@,
    {
        BackgroundReader { stopped: false }
    }

    /// Whether the filling party has stopped.
    pub fn stopped(&self) -> (b: bool)
        ensures
            b == self@,
    {
        self.stopped
    }

    /// What arrived from the reading party: a buffer (`Some`) is to be
    /// refilled; the request to stop, or the reading party being gone
    /// (`None`), stops the filling party.
    pub fn receive(&mut self, arrival: Option<Buffer>) -> (to_fill: Option<Buffer>)
        requires
            !old(self)@,
        ensures
            to_fill == arrival,
            final(self)@ == (arrival is None),
    {
        if arrival.is_none() {
            self.stopped = true;
        }
        arrival
    }

    /// After a refill was handed over: the filling party goes on after a
    /// ready buffer and stops after a failed refill's error, so that the
    /// wrapped reader is not read again.
    pub fn refilled(&mut self, failed: bool)
        requires
            !old(self)@,
        ensures
            final(self)@ == failed,
    {
        self.stopped = failed;
    }
}


/// What a drain loop does after a step of [`read_chunks`].
pub enum ChunkStep {
    /// Call `read` again.
    ReadAgain,
    /// The end of input was reached; `out` holds everything read.
    Finished,
    /// Stop and hand on the error of the last read.
    Failed,
}

/// One step of draining a reader into `out`: the bytes of a successful read
/// are appended, and an empty read ends the drain.  An `Interrupted` error
/// is skipped when `resume` is set and fails the drain otherwise; any other
/// error fails it.
pub fn read_chunks(out: &mut Vec<u8>, outcome: ReadOutcome, resume: bool) -> (step: ChunkStep)
    requires
        outcome matches ReadOutcome::Bytes(bytes) ==> old(out)@.len() + bytes@.len() <= usize::MAX,
    ensures
        match outcome {
            ReadOutcome::Bytes(bytes) => {
                &&& final(out)@ == old(out)@ + bytes@
                &&& if bytes@.len() == 0 {
                    step is Finished
                } else {
                    step is ReadAgain
                }
            },
            ReadOutcome::Interrupted => {
                &&& final(out)@ == old(out)@
                &&& if resume {
                    step is ReadAgain
                } else {
                    step is Failed
                }
            },
            ReadOutcome::Failed => {
                &&& final(out)@ == old(out)@
                &&& step is Failed
            },
        },
{
    match outcome {
        ReadOutcome::Bytes(bytes) => {
            let mut i: usize = 0;
            while i < bytes.len()
                invariant
                    i <= bytes@.len(),
                    old(out)@.len() + bytes@.len() <= usize::MAX,
                    out@ == old(out)@ + bytes@.subrange(0, i as int),
                decreases bytes@.len() - i,
            {
                out.push(bytes[i]);
                i = i + 1;
                proof {
                    assert(out@ =~= old(out)@ + bytes@.subrange(0, i as int));
                }
            }
            proof {
                assert(bytes@.subrange(0, bytes@.len() as int) =~= bytes@);
            }
            if bytes.len() == 0 {
                ChunkStep::Finished
            } else {
                ChunkStep::ReadAgain
            }
        },
        ReadOutcome::Interrupted => {
            if resume {
                ChunkStep::ReadAgain
            } else {
                ChunkStep::Failed
            }
        },
        ReadOutcome::Failed => ChunkStep::Failed,
    }
}

/// Decides the result of a reading run once the caller's closure has
/// returned (`main`), the background party has been joined (`background`)
/// and the I/O errors still queued were looked at (`leftover`, the first of
/// them).
///
/// A panic of the closure comes first, then one of the background party;
/// then the closure's own error; then an error from setting up the wrapped
/// reader; then a queued I/O error.  Only when all succeeded is the
/// closure's value returned.
pub fn finish_reading<O, E, IoE, P>(
    main: Result<Result<O, E>, P>,
    background: Result<Result<(), E>, P>,
    leftover: Option<IoE>,
) -> (ending: Ending<O, E, IoE, P>)
    ensures
        match (main, background) {
            (Err(p), _) => ending == Ending::<O, E, IoE, P>::MainPanicked(p),
            (Ok(_), Err(p)) => ending == Ending::<O, E, IoE, P>::BackgroundPanicked(p),
            (Ok(Err(e)), Ok(_)) => ending == Ending::<O, E, IoE, P>::Failed(e),
            (Ok(Ok(_)), Ok(Err(e))) => ending == Ending::<O, E, IoE, P>::Failed(e),
            (Ok(Ok(out)), Ok(Ok(()))) => match leftover {
                Some(e) => ending == Ending::<O, E, IoE, P>::IoFailed(e),
                None => ending == Ending::<O, E, IoE, P>::Finished(out),
            },
        },
{
    match main {
        Err(p) => Ending::MainPanicked(p),
        Ok(res) => match background {
            Err(p) => Ending::BackgroundPanicked(p),
            Ok(setup) => match res {
                Err(e) => Ending::Failed(e),
                Ok(out) => match setup {
                    Err(e) => Ending::Failed(e),
                    Ok(()) => match leftover {
                        Some(e) => Ending::IoFailed(e),
                        None => Ending::Finished(out),
                    },
                },
            },
        },
    }
}

} // verus!
