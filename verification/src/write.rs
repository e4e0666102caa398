//! Writing through a chunked buffer queue.
//!
//! The foreground [`Writer`] collects written bytes in a [`Chunk`]; a full
//! chunk is exchanged for an empty one from the background party and sent
//! on as a [`Message`].  The background party ([`BackgroundWriter`]) writes
//! each chunk it receives to the wrapped writer and gives it back.

use crate::ending::Ending;
use vstd::prelude::*;
use vstd::slice::slice_subrange;

verus! {

/// What a chunk holds, as seen by its users.
#[verifier::ext_equal]
pub struct ChunkView {
    /// Every byte of the chunk; its length is the chunk's capacity.
    pub data: Seq<u8>,
    /// Length of the part at the front that was written into.
    pub len: nat,
}

impl ChunkView {
    /// A new chunk of `size` bytes: all zero, nothing written.
    pub open spec fn fresh(size: nat) -> ChunkView {
        ChunkView { data: Seq::new(size, |i: int| 0u8), len: 0 }
    }

    /// Number of bytes the chunk can hold.
    pub open spec fn capacity(self) -> nat {
        self.data.len()
    }

    /// The bytes written into the chunk, in order.
    pub open spec fn filled(self) -> Seq<u8> {
        self.data.subrange(0, self.len as int)
    }

    /// What holds of every [`Chunk`]: it holds at least one byte, and at most
    /// `usize::MAX`, and the written part lies within it.
    pub open spec fn wf(self) -> bool {
        &&& 0 < self.data.len() <= usize::MAX
        &&& self.len <= self.data.len()
    }

    /// How many of `rest` more bytes fit into the chunk.
    pub open spec fn take_count(self, rest: nat) -> nat {
        let room = self.capacity() - self.len;
        if room < rest {
            room as nat
        } else {
            rest
        }
    }

    /// The chunk after `bytes` were written behind what it holds.
    pub open spec fn with_taken(self, bytes: Seq<u8>) -> ChunkView {
        ChunkView {
            data: self.data.subrange(0, self.len as int) + bytes + self.data.subrange(
                (self.len + bytes.len()) as int,
                self.data.len() as int,
            ),
            len: self.len + bytes.len(),
        }
    }

    /// The chunk with nothing written into it; its bytes stay as they are.
    pub open spec fn emptied(self) -> ChunkView {
        ChunkView { data: self.data, len: 0 }
    }
}

/// A fixed-size buffer that travels between the two parties.
#[derive(Debug)]
pub struct Chunk {
    data: Vec<u8>,
    len: usize,
}

impl Chunk {
    #[verifier::type_invariant]
    spec fn well_formed(&self) -> bool {
        &&& 0 < self.data@.len() <= usize::MAX
        &&& self.len <= self.data@.len()
    }
}

impl View for Chunk {
    type V = ChunkView;

    closed spec fn view(&self) -> ChunkView {
        ChunkView { data: self.data@, len: self.len as nat }
    }
}

impl Chunk {
    /// A new chunk of `size` bytes, all zero.
    pub fn new(size: usize) -> (chunk: Chunk)
        requires
            size > 0,
        ensures
            chunk@ == ChunkView::fresh(size as nat),
            chunk@.wf(),
            chunk@.capacity() == size,
            chunk@.len == 0,
            chunk@.filled() == Seq::<u8>::empty(),
            forall|i: int| 0 <= i < size ==> chunk@.data[i] == 0u8,
    {
        let mut data: Vec<u8> = Vec::new();
        let mut i: usize = 0;
        while i < size
            invariant
                i <= size,
                data@ == Seq::new(i as nat, |j: int| 0u8),
            decreases size - i,
        {
            data.push(0u8);
            i = i + 1;
            proof {
                assert(data@ =~= Seq::new(i as nat, |j: int| 0u8));
            }
        }
        Chunk { data, len: 0 }
    }

    /// The bytes written into the chunk.
    pub fn filled(&self) -> (bytes: &[u8])
        ensures
            bytes@ == self@.filled(),
            self@.wf(),
    {
        proof {
            use_type_invariant(self);
        }
        slice_subrange(self.data.as_slice(), 0, self.len)
    }
}

/// What the writing party does after a step of [`Writer::write`].
pub enum WriteStep {
    /// All input was taken; the write reports this many bytes written.
    Finished(usize),
    /// The chunk is full and this many bytes of the input were taken: the
    /// full chunk has to be exchanged for an empty one before going on.
    Exchange(usize),
}

/// The writing party: collects written bytes into the current chunk.
#[derive(Debug)]
pub struct Writer {
    current: Chunk,
}

impl View for Writer {
    type V = ChunkView;

    closed spec fn view(&self) -> ChunkView {
        self.current@
    }
}

impl Writer {
    /// A writing party whose first chunk is a new one of `bufsize` bytes.
    pub fn new(bufsize: usize) -> (writer: Writer)
        requires
            bufsize > 0,
        ensures
            writer@ == ChunkView::fresh(bufsize as nat),
            writer@.wf(),
            writer@.capacity() == bufsize,
            writer@.filled() == Seq::<u8>::empty(),
    {
        Writer { current: Chunk::new(bufsize) }
    }

    /// Takes as much of `input[written..]` as the current chunk has room for.
    ///
    /// The result says how far into `input` the write got, and whether the
    /// chunk must be exchanged before the rest can be taken.
    pub fn write(&mut self, input: &[u8], written: usize) -> (step: WriteStep)
        requires
            written <= input@.len(),
        ensures
            old(self)@.wf(),
            final(self)@.wf(),
            ({
                let n = old(self)@.take_count((input@.len() - written) as nat);
                &&& final(self)@ == old(self)@.with_taken(
                    input@.subrange(written as int, written + n),
                )
                &&& if written + n == input@.len() {
                    step == WriteStep::Finished((written + n) as usize)
                } else {
                    step == WriteStep::Exchange((written + n) as usize)
                }
            }),
            // The same, said in terms of the bytes taken.
            ({
                let k = match step {
                    WriteStep::Finished(k) => k,
                    WriteStep::Exchange(k) => k,
                };
                &&& written <= k <= input@.len()
                &&& final(self)@.capacity() == old(self)@.capacity()
                &&& final(self)@.filled() == old(self)@.filled() + input@.subrange(
                    written as int,
                    k as int,
                )
                &&& (step is Finished <==> k == input@.len())
                &&& step is Exchange ==> final(self)@.filled().len() == final(self)@.capacity()
            }),
    {
        proof {
            use_type_invariant(&self.current);
        }
        let cap = self.current.data.len();
        let start = self.current.len;
        let room = cap - start;
        let ilen = input.len();
        let rest = ilen - written;
        let n = if room < rest {
            room
        } else {
            rest
        };
        let mut i: usize = 0;
        while i < n
            invariant
                i <= n,
                0 < cap,
                start + n <= cap,
                written + n <= input@.len(),
                input@.len() == ilen,
                self.current.data@.len() == cap,
                old(self).current.data@.len() == cap,
                self.current.len == start,
                self.current.data@.subrange(0, start as int) == old(self).current.data@.subrange(
                    0,
                    start as int,
                ),
                self.current.data@.subrange(start as int, start + i) == input@.subrange(
                    written as int,
                    written + i,
                ),
                self.current.data@.subrange(start + i, cap as int) == old(
                    self,
                ).current.data@.subrange(start + i, cap as int),
            decreases n - i,
        {
            let ghost before = self.current.data@;
            self.current.data[start + i] = input[written + i];
            i = i + 1;
            proof {
                assert forall|k: int| start + i <= k < cap implies self.current.data@[k] == old(
                    self,
                ).current.data@[k] by {
                    assert(before[k] == before.subrange(start + i - 1, cap as int)[k - (start + i
                        - 1)]);
                }
                assert(self.current.data@.subrange(0, start as int)
                    =~= old(self).current.data@.subrange(0, start as int));
                assert(self.current.data@.subrange(start as int, start + i) =~= input@.subrange(
                    written as int,
                    written + i,
                ));
                assert(self.current.data@.subrange(start + i, cap as int) =~= old(
                    self,
                ).current.data@.subrange(start + i, cap as int));
            }
        }
        self.current.len = start + n;
        proof {
            assert(self.current.data@ =~= self.current.data@.subrange(0, start as int)
                + self.current.data@.subrange(start as int, start + n)
                + self.current.data@.subrange(start + n, cap as int));
        }
        if written + n == input.len() {
            WriteStep::Finished(written + n)
        } else {
            WriteStep::Exchange(written + n)
        }
    }

    /// Puts `empty` in place of the current chunk, which is returned with
    /// everything written into it so far.  The new chunk starts with nothing
    /// written, whatever `empty` held before.
    pub fn exchange(&mut self, empty: Chunk) -> (full: Chunk)
        ensures
            full@ == old(self)@,
            full@.wf(),
            final(self)@ == empty@.emptied(),
            final(self)@.wf(),
            full@.filled() == old(self)@.filled(),
            final(self)@.filled() == Seq::<u8>::empty(),
            final(self)@.capacity() == empty@.capacity(),
    {
        let mut next = empty;
        proof {
            use_type_invariant(&next);
            use_type_invariant(&self.current);
        }
        next.len = 0;
        std::mem::swap(&mut self.current, &mut next);
        next
    }

    /// Flushing: the current chunk, with everything written so far, goes to
    /// the background party before the flush request does; `empty` takes its
    /// place.
    pub fn flush(&mut self, empty: Chunk) -> (messages: (Message, Message))
        ensures
            messages.0 matches Message::Buffer(full) && full@ == old(self)@,
            messages.1 is Flush,
            final(self)@ == empty@.emptied(),
            final(self)@.wf(),
            messages.0 matches Message::Buffer(full) && full@.filled() == old(self)@.filled(),
            final(self)@.filled() == Seq::<u8>::empty(),
    {
        let full = self.exchange(empty);
        (Message::Buffer(full), Message::Flush)
    }

    /// Finishing: the current chunk, with everything written so far, goes to
    /// the background party, followed by the request to stop; `empty` takes
    /// its place.
    pub fn done(&mut self, empty: Chunk) -> (messages: (Message, Message))
        ensures
            messages.0 matches Message::Buffer(full) && full@ == old(self)@,
            messages.1 is Done,
            final(self)@ == empty@.emptied(),
            final(self)@.wf(),
            messages.0 matches Message::Buffer(full) && full@.filled() == old(self)@.filled(),
            final(self)@.filled() == Seq::<u8>::empty(),
    {
        let full = self.exchange(empty);
        (Message::Buffer(full), Message::Done)
    }
}


/// A new chunk has nothing written into it, whatever its size: it holds
/// the number of bytes asked for, all zero.
pub proof fn law_fresh_chunk_is_empty(size: nat)
    ensures
        ChunkView::fresh(size).len == 0,
        ChunkView::fresh(size).filled() == Seq::<u8>::empty(),
        ChunkView::fresh(size).capacity() == size,
        forall|i: int| 0 <= i < size ==> ChunkView::fresh(size).data[i] == 0u8,
{
    assert(ChunkView::fresh(size).filled() =~= Seq::<u8>::empty());
}

/// Writing into a chunk puts the bytes right behind those written before,
/// and a chunk given back for reuse starts with nothing written; so what a
/// new chunk, or one given back, hands over is exactly what was written
/// into it.
pub proof fn law_chunk_holds_what_was_written(w: ChunkView, bytes: Seq<u8>, size: nat)
    requires
        w.wf(),
        w.len + bytes.len() <= w.capacity(),
    ensures
        w.with_taken(bytes).filled() == w.filled() + bytes,
        w.with_taken(bytes).capacity() == w.capacity(),
        w.with_taken(bytes).wf(),
        w.emptied().filled() == Seq::<u8>::empty(),
        w.emptied().capacity() == w.capacity(),
        bytes.len() <= size ==> ChunkView::fresh(size).with_taken(bytes).filled() == bytes,
        w.emptied().with_taken(bytes).filled() == bytes,
{
    assert(w.with_taken(bytes).filled() =~= w.filled() + bytes);
    assert(w.emptied().filled() =~= Seq::<u8>::empty());
    assert(w.emptied().with_taken(bytes).filled() =~= bytes);
    if bytes.len() <= size {
        assert(ChunkView::fresh(size).with_taken(bytes).filled() =~= bytes);
    }
}

/// Writing `rest` into a writer whose chunk is `w`, exchanging each full
/// chunk for the next of `spare`, emptied, while there is one: the bytes of
/// the chunks handed out, the chunk the writer ends with, how many bytes of
/// `rest` were taken, and the spare chunks left over.  Each step is one of
/// [`Writer::write`] or [`Writer::exchange`] as their contracts state them.
pub open spec fn write_model(w: ChunkView, rest: Seq<u8>, spare: Seq<ChunkView>) -> (
    Seq<u8>,
    ChunkView,
    nat,
    Seq<ChunkView>,
)
    decreases spare.len(),
{
    let n = w.take_count(rest.len());
    let w1 = w.with_taken(rest.take(n as int));
    if n == rest.len() || spare.len() == 0 {
        (Seq::empty(), w1, n, spare)
    } else {
        let (sent, last, m, left) = write_model(
            spare[0].emptied(),
            rest.skip(n as int),
            spare.drop_first(),
        );
        (w1.filled() + sent, last, n + m, left)
    }
}

proof fn lemma_with_taken(w: ChunkView, bytes: Seq<u8>)
    requires
        w.wf(),
        w.len + bytes.len() <= w.capacity(),
    ensures
        w.with_taken(bytes).wf(),
        w.with_taken(bytes).capacity() == w.capacity(),
        w.with_taken(bytes).filled() == w.filled() + bytes,
{
    assert(w.with_taken(bytes).filled() =~= w.filled() + bytes);
}

/// 1 when the chunk `w` is full, else 0.
pub open spec fn full_count(w: ChunkView) -> nat {
    if w.len < w.capacity() {
        0
    } else {
        1
    }
}

/// Writing loses, duplicates and reorders nothing: the bytes handed to the
/// background party, followed by those still in the writer's chunk, are
/// the bytes that were already pending followed by the part of the input
/// that was taken.  At most one spare chunk per input byte is used (one
/// more when the chunk is full to begin with), and with that many spare
/// chunks all of the input is taken.
pub proof fn law_writing_keeps_every_byte(w: ChunkView, rest: Seq<u8>, spare: Seq<ChunkView>)
    requires
        w.wf(),
        forall|i: int| 0 <= i < spare.len() ==> (#[trigger] spare[i]).wf(),
    ensures
        ({
            let (sent, last, taken, left) = write_model(w, rest, spare);
            &&& taken <= rest.len()
            &&& sent + last.filled() == w.filled() + rest.take(taken as int)
            &&& last.wf()
            &&& left.len() <= spare.len()
            &&& left == spare.skip(spare.len() - left.len())
            &&& spare.len() - left.len() <= rest.len() + full_count(w)
            &&& spare.len() >= rest.len() + full_count(w) ==> taken == rest.len()
        }),
    decreases spare.len(),
{
    let n = w.take_count(rest.len());
    lemma_with_taken(w, rest.take(n as int));
    let w1 = w.with_taken(rest.take(n as int));
    if n == rest.len() || spare.len() == 0 {
        assert(Seq::<u8>::empty() + w1.filled() =~= w.filled() + rest.take(n as int));
        assert(spare =~= spare.skip(0));
    } else {
        let next = spare[0].emptied();
        assert(spare[0].wf());
        assert forall|i: int| 0 <= i < spare.drop_first().len() implies (
        #[trigger] spare.drop_first()[i]).wf() by {
            assert(spare.drop_first()[i] == spare[i + 1]);
        }
        law_writing_keeps_every_byte(next, rest.skip(n as int), spare.drop_first());
        let (sent, last, m, left) = write_model(next, rest.skip(n as int), spare.drop_first());
        assert(rest.take((n + m) as int) =~= rest.take(n as int) + rest.skip(n as int).take(
            m as int,
        ));
        assert(w1.filled() + sent + last.filled() =~= w.filled() + rest.take((n + m) as int));
        assert(spare.drop_first().skip(spare.drop_first().len() - left.len()) =~= spare.skip(
            spare.len() - left.len(),
        ));
    }
}

/// An operation of the caller on the writing party.
pub enum Op {
    /// Writing these bytes, with as many exchanges as needed.
    Write(Seq<u8>),
    /// Flushing.
    Flush,
}

/// What the background party receives, one item at a time.
pub enum Mark {
    Byte(u8),
    Flushed,
}

/// `bytes`, as marks.
pub open spec fn bytes_marks(bytes: Seq<u8>) -> Seq<Mark> {
    bytes.map_values(|b: u8| Mark::Byte(b))
}

/// What `ops` amount to, in order: the bytes of each write, and a flush
/// mark for each flush.
pub open spec fn ops_marks(ops: Seq<Op>) -> Seq<Mark>
    decreases ops.len(),
{
    if ops.len() == 0 {
        Seq::empty()
    } else {
        match ops[0] {
            Op::Write(bytes) => bytes_marks(bytes) + ops_marks(ops.drop_first()),
            Op::Flush => seq![Mark::Flushed] + ops_marks(ops.drop_first()),
        }
    }
}

/// How many spare chunks are enough for `ops`: one per written byte and one
/// more per operation.
pub open spec fn spares_needed(ops: Seq<Op>) -> nat
    decreases ops.len(),
{
    if ops.len() == 0 {
        0
    } else {
        match ops[0] {
            Op::Write(bytes) => bytes.len() + 1 + spares_needed(ops.drop_first()),
            Op::Flush => 1 + spares_needed(ops.drop_first()),
        }
    }
}

/// Running `ops` on a writer whose chunk is `w`, with the spare chunks
/// `spare` coming back in turn: what the background party receives, and
/// the chunk the writer ends with.  A write goes as [`write_model`] says; a
/// flush sends the current chunk, then the flush request, as
/// [`Writer::flush`] states.
pub open spec fn run_ops(w: ChunkView, ops: Seq<Op>, spare: Seq<ChunkView>) -> (
    Seq<Mark>,
    ChunkView,
)
    decreases ops.len(),
{
    if ops.len() == 0 {
        (Seq::empty(), w)
    } else {
        match ops[0] {
            Op::Write(bytes) => {
                let (sent, last, taken, left) = write_model(w, bytes, spare);
                let (rest, end) = run_ops(last, ops.drop_first(), left);
                (bytes_marks(sent) + rest, end)
            },
            Op::Flush => if spare.len() == 0 {
                (Seq::empty(), w)
            } else {
                let (rest, end) = run_ops(spare[0].emptied(), ops.drop_first(), spare.drop_first());
                (bytes_marks(w.filled()) + seq![Mark::Flushed] + rest, end)
            },
        }
    }
}

proof fn lemma_marks_add(a: Seq<u8>, b: Seq<u8>)
    ensures
        bytes_marks(a + b) == bytes_marks(a) + bytes_marks(b),
{
    assert(bytes_marks(a + b) =~= bytes_marks(a) + bytes_marks(b));
}

/// Writes and flushes keep their order: with enough spare chunks, the
/// background party receives the bytes that were pending, then the bytes of
/// every write and a flush request for every flush, in the order of the
/// operations, except for what is still in the writer's chunk at the end.
pub proof fn law_writes_and_flushes_keep_order(w: ChunkView, ops: Seq<Op>, spare: Seq<ChunkView>)
    requires
        w.wf(),
        forall|i: int| 0 <= i < spare.len() ==> (#[trigger] spare[i]).wf(),
        spare.len() >= spares_needed(ops),
    ensures
        ({
            let (sent, last) = run_ops(w, ops, spare);
            sent + bytes_marks(last.filled()) == bytes_marks(w.filled()) + ops_marks(ops)
        }),
    decreases ops.len(),
{
    if ops.len() == 0 {
        assert(Seq::<Mark>::empty() + bytes_marks(w.filled()) =~= bytes_marks(w.filled())
            + ops_marks(ops));
        return;
    }
    match ops[0] {
        Op::Write(bytes) => {
            law_writing_keeps_every_byte(w, bytes, spare);
            let (sent, last, taken, left) = write_model(w, bytes, spare);
            assert(bytes.take(bytes.len() as int) =~= bytes);
            assert forall|i: int| 0 <= i < left.len() implies (#[trigger] left[i]).wf() by {
                assert(left[i] == spare[i + (spare.len() - left.len())]);
            }
            law_writes_and_flushes_keep_order(last, ops.drop_first(), left);
            let (rest, end) = run_ops(last, ops.drop_first(), left);
            lemma_marks_add(sent, last.filled());
            lemma_marks_add(w.filled(), bytes);
            assert(taken == bytes.len());
            assert(sent + last.filled() == w.filled() + bytes);
            assert(rest + bytes_marks(end.filled()) == bytes_marks(last.filled()) + ops_marks(
                ops.drop_first(),
            ));
            assert(ops_marks(ops) == bytes_marks(bytes) + ops_marks(ops.drop_first()));
            assert(bytes_marks(sent) + rest + bytes_marks(end.filled()) =~= bytes_marks(sent) + (
            bytes_marks(last.filled()) + ops_marks(ops.drop_first())));
            assert(bytes_marks(sent) + (bytes_marks(last.filled()) + ops_marks(ops.drop_first()))
                =~= bytes_marks(sent + last.filled()) + ops_marks(ops.drop_first()));
            assert(bytes_marks(w.filled() + bytes) + ops_marks(ops.drop_first()) =~= bytes_marks(
                w.filled(),
            ) + ops_marks(ops));
        },
        Op::Flush => {
            let next = spare[0].emptied();
            assert(spare[0].wf());
            assert forall|i: int| 0 <= i < spare.drop_first().len() implies (
            #[trigger] spare.drop_first()[i]).wf() by {
                assert(spare.drop_first()[i] == spare[i + 1]);
            }
            law_writes_and_flushes_keep_order(next, ops.drop_first(), spare.drop_first());
            let (rest, end) = run_ops(next, ops.drop_first(), spare.drop_first());
            assert(next.filled() =~= Seq::<u8>::empty());
            assert(bytes_marks(next.filled()) =~= Seq::<Mark>::empty());
            assert(bytes_marks(w.filled()) + seq![Mark::Flushed] + rest + bytes_marks(end.filled())
                =~= bytes_marks(w.filled()) + ops_marks(ops));
        },
    }
}

/// What the writing party sends to the background party.
#[derive(Debug)]
pub enum Message {
    /// A chunk whose filled bytes are to be written.
    Buffer(Chunk),
    /// Flush the wrapped writer.
    Flush,
    /// No more messages follow.
    Done,
}

/// How the background party dealt with the last message it received.
pub enum Handled {
    /// The chunk's bytes were all written.
    Wrote(Chunk),
    /// Writing the chunk's bytes failed.
    WriteFailed,
    /// The wrapped writer was flushed.
    Flushed,
    /// Flushing the wrapped writer failed.
    FlushFailed,
    /// The message was [`Message::Done`].
    Done,
    /// No message can come any more: the writing party is gone.
    Closed,
}

/// What the background party sends back after a message.
pub enum Reply {
    /// Give this chunk back for reuse.
    GiveBack(Chunk),
    /// Send back the error of the failed call.
    Error,
    /// Send nothing.
    Nothing,
}

/// The background party: writes the chunks it receives, in order.
#[derive(Debug)]
pub struct BackgroundWriter {
    finished: Option<bool>,
}

impl View for BackgroundWriter {
    type V = Option<bool>;

    /// `None` while listening; once stopped, whether it stopped without error.
    closed spec fn view(&self) -> Option<bool> {
        self.finished
    }
}

impl BackgroundWriter {
    /// A listening background party, and the `queuelen` new chunks of
    /// `bufsize` bytes it hands out first.
    pub fn new(bufsize: usize, queuelen: usize) -> (res: (BackgroundWriter, Vec<Chunk>))
        requires
            queuelen > 0 ==> bufsize > 0,
        ensures
            res.0@ is None,
            res.1@.len() == queuelen,
            forall|i: int|
                0 <= i < queuelen ==> (#[trigger] res.1@[i])@ == ChunkView::fresh(bufsize as nat),
            forall|i: int|
                0 <= i < queuelen ==> {
                    &&& (#[trigger] res.1@[i])@.capacity() == bufsize
                    &&& res.1@[i]@.filled() == Seq::<u8>::empty()
                },
    {
        let mut chunks: Vec<Chunk> = Vec::new();
        let mut i: usize = 0;
        while i < queuelen
            invariant
                queuelen > 0 ==> bufsize > 0,
                i <= queuelen,
                chunks@.len() == i,
                forall|j: int|
                    0 <= j < i ==> (#[trigger] chunks@[j])@ == ChunkView::fresh(bufsize as nat),
            decreases queuelen - i,
        {
            chunks.push(Chunk::new(bufsize));
            i = i + 1;
        }
        (BackgroundWriter { finished: None }, chunks)
    }

    /// `None` while listening; once stopped, whether it stopped without error.
    pub fn finished(&self) -> (r: Option<bool>)
        ensures
            r == self@,
    {
        self.finished
    }

    /// One step of listening: a written chunk is given back; a failed write
    /// or flush sends its error back and stops with failure; `Done` or a
    /// closed channel stops without failure.
    pub fn listen(&mut self, handled: Handled) -> (reply: Reply)
        requires
            old(self)@ is None,
        ensures
            match handled {
                Handled::Wrote(c) => {
                    &&& reply matches Reply::GiveBack(r) && r == c
                    &&& final(self)@ is None
                },
                Handled::WriteFailed => {
                    &&& reply is Error
                    &&& final(self)@ == Some(false)
                },
                Handled::Flushed => {
                    &&& reply is Nothing
                    &&& final(self)@ is None
                },
                Handled::FlushFailed => {
                    &&& reply is Error
                    &&& final(self)@ == Some(false)
                },
                Handled::Done | Handled::Closed => {
                    &&& reply is Nothing
                    &&& final(self)@ == Some(true)
                },
            },
    {
        match handled {
            Handled::Wrote(c) => Reply::GiveBack(c),
            Handled::WriteFailed | Handled::FlushFailed => {
                self.finished = Some(false);
                Reply::Error
            },
            Handled::Flushed => Reply::Nothing,
            Handled::Done | Handled::Closed => {
                self.finished = Some(true);
                Reply::Nothing
            },
        }
    }
}

/// Decides the result of a writing run once the caller's closure (with the
/// final flush) has returned (`main`), the writing party sent its last chunk
/// (`sent`), the background party has been joined (`background`: what the
/// closure given the wrapped writer returned, `None` when writing failed),
/// and the I/O errors still queued were looked at (`leftover`, the first of
/// them).
///
/// An error from setting up the wrapped writer comes first, then the
/// closure's own error, then a panic of the background party, then one of
/// the closure; then the error of sending the last chunk, then a queued I/O
/// error.  Only when all succeeded are both values returned.
pub fn finish_writing<O, O2, E, IoE, P>(
    main: Result<Result<O, E>, P>,
    background: Result<Result<Option<O2>, E>, P>,
    sent: Result<(), IoE>,
    leftover: Option<IoE>,
) -> (ending: Ending<(O, O2), E, IoE, P>)
    requires
        !({
            &&& background matches Ok(Ok(None))
            &&& main matches Ok(Ok(_))
            &&& sent is Ok
            &&& leftover is None
        }),
    ensures
        match (background, main) {
            (Ok(Err(e)), _) => ending == Ending::<(O, O2), E, IoE, P>::Failed(e),
            (_, Ok(Err(e))) => ending == Ending::<(O, O2), E, IoE, P>::Failed(e),
            (Err(p), _) => ending == Ending::<(O, O2), E, IoE, P>::BackgroundPanicked(p),
            (_, Err(p)) => ending == Ending::<(O, O2), E, IoE, P>::MainPanicked(p),
            (Ok(Ok(finished)), Ok(Ok(out))) => match (sent, leftover) {
                (Err(e), _) => ending == Ending::<(O, O2), E, IoE, P>::IoFailed(e),
                (Ok(()), Some(e)) => ending == Ending::<(O, O2), E, IoE, P>::IoFailed(e),
                (Ok(()), None) => ending == Ending::<(O, O2), E, IoE, P>::Finished(
                    (out, finished->0),
                ),
            },
        },
{
    match background {
        Ok(Err(e)) => Ending::Failed(e),
        Err(p) => match main {
            Ok(Err(e)) => Ending::Failed(e),
            _ => Ending::BackgroundPanicked(p),
        },
        Ok(Ok(finished)) => match main {
            Ok(Err(e)) => Ending::Failed(e),
            Err(p) => Ending::MainPanicked(p),
            Ok(Ok(out)) => match sent {
                Err(e) => Ending::IoFailed(e),
                Ok(()) => match leftover {
                    Some(e) => Ending::IoFailed(e),
                    None => match finished {
                        Some(o2) => Ending::Finished((out, o2)),
                        None => vstd::pervasive::unreached(),
                    },
                },
            },
        },
    }
}

} // verus!
