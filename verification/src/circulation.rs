//! How the buffers of a run circulate between the two parties, counted.
//!
//! A run has a fixed number of buffers (of chunks, when writing), which go
//! back and forth through two queues.  The models here follow the steps of
//! both parties and show that, once the request to stop is queued, the
//! background party does at most `queuelen` more refills or writes: only
//! the buffers queued ahead of the request can still reach it.

use vstd::prelude::*;

verus! {

/// How many of `q` are `true`.
pub open spec fn count(q: Seq<bool>) -> nat
    decreases q.len(),
{
    if q.len() == 0 {
        0
    } else {
        (if q[0] {
            1nat
        } else {
            0nat
        }) + count(q.drop_first())
    }
}

/// How many of `q` are `true` before its first `false`.
pub open spec fn ahead(q: Seq<bool>) -> nat
    decreases q.len(),
{
    if q.len() == 0 {
        0
    } else if q[0] {
        1 + ahead(q.drop_first())
    } else {
        0
    }
}

/// Whether `q` holds a `false`.
pub open spec fn has_marker(q: Seq<bool>) -> bool {
    exists|i: int| 0 <= i < q.len() && !q[i]
}

proof fn lemma_push(q: Seq<bool>, x: bool)
    ensures
        count(q.push(x)) == count(q) + if x {
            1nat
        } else {
            0nat
        },
        has_marker(q) ==> ahead(q.push(x)) == ahead(q),
        !has_marker(q) ==> ahead(q) == count(q),
        !has_marker(q) && !x ==> ahead(q.push(x)) == count(q),
        has_marker(q.push(x)) == (has_marker(q) || !x),
        ahead(q) <= count(q),
    decreases q.len(),
{
    if q.len() > 0 {
        assert(q.push(x).drop_first() =~= q.drop_first().push(x));
        assert(q.push(x)[0] == q[0]);
        lemma_push(q.drop_first(), x);
        assert(count(q.push(x)) == (if q[0] {
            1nat
        } else {
            0nat
        }) + count(q.drop_first().push(x)));
        if has_marker(q.drop_first()) {
            let i = choose|i: int| 0 <= i < q.drop_first().len() && !q.drop_first()[i];
            assert(!q[i + 1]);
        }
        if has_marker(q) && q[0] {
            let i = choose|i: int| 0 <= i < q.len() && !q[i];
            assert(!q.drop_first()[i - 1]);
        }
        if !has_marker(q) {
            assert forall|i: int| 0 <= i < q.drop_first().len() implies q.drop_first()[i] by {
                assert(q[i + 1] == q.drop_first()[i]);
            }
        }
        if has_marker(q.push(x)) && !has_marker(q) && x {
            let i = choose|i: int| 0 <= i < q.push(x).len() && !q.push(x)[i];
            assert(!q[i]);
        }
        if has_marker(q.drop_first().push(x)) {
            let i = choose|i: int|
                0 <= i < q.drop_first().push(x).len() && !q.drop_first().push(x)[i];
            assert(!q.push(x)[i + 1]);
        }
        if !q[0] {
            assert(!q.push(x)[0]);
        }
    } else {
        assert(q.push(x).drop_first() =~= Seq::<bool>::empty());
        assert(q.push(x)[0] == x);
        assert(count(q.push(x)) == (if x {
            1nat
        } else {
            0nat
        }) + count(Seq::<bool>::empty()));
        if !x {
            assert(!q.push(x)[0]);
        }
        if has_marker(q.push(x)) {
            let i = choose|i: int| 0 <= i < q.push(x).len() && !q.push(x)[i];
            assert(i == 0);
        }
    }
}

proof fn lemma_all_buffers(n: nat)
    ensures
        count(Seq::new(n, |i: int| true)) == n,
        !has_marker(Seq::new(n, |i: int| true)),
    decreases n,
{
    if n > 0 {
        assert(Seq::new(n, |i: int| true).drop_first() =~= Seq::new((n - 1) as nat, |i: int| true));
        lemma_all_buffers((n - 1) as nat);
    }
}

/// Where the buffers of a reading run are.
pub struct ReadCirculation {
    /// The queue to the filling party: an empty buffer (`true`) or the
    /// request to stop (`false`).
    pub to_fill: Seq<bool>,
    /// Whether the filling party holds a buffer it is refilling.
    pub filling: bool,
    /// How many filled buffers (or errors) wait for the reading party.
    pub filled: nat,
    /// Whether the reading party holds a buffer.
    pub held: bool,
    /// Whether the filling party has stopped.
    pub stopped: bool,
    /// Whether the reading party has queued the request to stop.
    pub stop_sent: bool,
    /// How many refills the filling party began after that request.
    pub refills_after_stop: nat,
}

/// A step of a reading run.
pub enum ReadRunStep {
    /// The filling party takes the next entry of its queue
    /// ([`crate::read::BackgroundReader::receive`]): a buffer to refill, or
    /// the request to stop, which stops it.
    Receive,
    /// The filling party hands over its refilled buffer, or (`true`) the
    /// error of a failed refill, which stops it
    /// ([`crate::read::BackgroundReader::refilled`]).
    Refilled(bool),
    /// The reading party takes the next filled buffer
    /// ([`crate::read::Reader::install`]).
    Install,
    /// The reading party gives its drained buffer back (the second result of
    /// [`crate::read::Reader::read`]).
    GiveBack,
    /// The reading party queues the request to stop, once.
    Stop,
}

/// The start of a reading run: `queuelen` empty buffers are queued to the
/// filling party ([`crate::read::Reader::new`]).
pub open spec fn read_start(queuelen: nat) -> ReadCirculation {
    ReadCirculation {
        to_fill: Seq::new(queuelen, |i: int| true),
        filling: false,
        filled: 0,
        held: false,
        stopped: false,
        stop_sent: false,
        refills_after_stop: 0,
    }
}

/// The state after `step`; a step that cannot be taken changes nothing.
pub open spec fn read_step(s: ReadCirculation, step: ReadRunStep) -> ReadCirculation {
    match step {
        ReadRunStep::Receive => if !s.filling && !s.stopped && s.to_fill.len() > 0 {
            if s.to_fill[0] {
                ReadCirculation {
                    to_fill: s.to_fill.drop_first(),
                    filling: true,
                    refills_after_stop: s.refills_after_stop + if s.stop_sent {
                        1nat
                    } else {
                        0nat
                    },
                    ..s
                }
            } else {
                ReadCirculation { to_fill: s.to_fill.drop_first(), stopped: true, ..s }
            }
        } else {
            s
        },
        ReadRunStep::Refilled(failed) => if s.filling {
            ReadCirculation {
                filling: false,
                filled: s.filled + 1,
                stopped: s.stopped || failed,
                ..s
            }
        } else {
            s
        },
        ReadRunStep::Install => if !s.held && s.filled > 0 {
            ReadCirculation { filled: (s.filled - 1) as nat, held: true, ..s }
        } else {
            s
        },
        ReadRunStep::GiveBack => if s.held {
            ReadCirculation { to_fill: s.to_fill.push(true), held: false, ..s }
        } else {
            s
        },
        ReadRunStep::Stop => if !s.stop_sent {
            ReadCirculation { to_fill: s.to_fill.push(false), stop_sent: true, ..s }
        } else {
            s
        },
    }
}

/// The state after `steps`, in order.
pub open spec fn read_run(s: ReadCirculation, steps: Seq<ReadRunStep>) -> ReadCirculation
    decreases steps.len(),
{
    if steps.len() == 0 {
        s
    } else {
        read_run(read_step(s, steps[0]), steps.drop_first())
    }
}

/// What every state of a reading run with `queuelen` buffers keeps.
pub open spec fn read_inv(s: ReadCirculation, queuelen: nat) -> bool {
    &&& count(s.to_fill) + (if s.filling {
        1nat
    } else {
        0nat
    }) + s.filled + (if s.held {
        1nat
    } else {
        0nat
    }) <= queuelen
    &&& s.filling ==> !s.stopped
    &&& !s.stop_sent ==> s.refills_after_stop == 0 && !has_marker(s.to_fill)
    &&& s.stop_sent && !s.stopped ==> has_marker(s.to_fill) && s.refills_after_stop + ahead(
        s.to_fill,
    ) <= queuelen
    &&& s.refills_after_stop <= queuelen
}

proof fn lemma_read_step(s: ReadCirculation, step: ReadRunStep, queuelen: nat)
    requires
        read_inv(s, queuelen),
    ensures
        read_inv(read_step(s, step), queuelen),
{
    lemma_push(s.to_fill, true);
    lemma_push(s.to_fill, false);
    if s.to_fill.len() > 0 {
        let q = s.to_fill;
        assert(count(q) == (if q[0] {
            1nat
        } else {
            0nat
        }) + count(q.drop_first()));
        if q[0] && has_marker(q) {
            let i = choose|i: int| 0 <= i < q.len() && !q[i];
            assert(!q.drop_first()[i - 1]);
        }
        if !has_marker(q) {
            assert forall|i: int| 0 <= i < q.drop_first().len() implies q.drop_first()[i] by {
                assert(q[i + 1] == q.drop_first()[i]);
            }
        }
        if !q[0] {
            assert(has_marker(q));
        }
        lemma_push(q.drop_first(), true);
    }
}

/// After the request to stop, the filling party refills at most `queuelen`
/// more buffers: whatever steps the two parties take, in whatever order,
/// from the start of a run with `queuelen` buffers.
pub proof fn law_refills_after_stop_are_bounded(queuelen: nat, steps: Seq<ReadRunStep>)
    ensures
        read_run(read_start(queuelen), steps).refills_after_stop <= queuelen,
{
    lemma_all_buffers(queuelen);
    lemma_read_run(read_start(queuelen), steps, queuelen);
}

proof fn lemma_read_run(s: ReadCirculation, steps: Seq<ReadRunStep>, queuelen: nat)
    requires
        read_inv(s, queuelen),
    ensures
        read_inv(read_run(s, steps), queuelen),
    decreases steps.len(),
{
    if steps.len() > 0 {
        lemma_read_step(s, steps[0], queuelen);
        lemma_read_run(read_step(s, steps[0]), steps.drop_first(), queuelen);
    }
}


/// Where the chunks of a writing run are.  The writing party always holds
/// one chunk of its own besides these.
pub struct WriteCirculation {
    /// The queue to the background party: a full chunk (`true`) or the
    /// request to stop (`false`); flush requests carry no chunk and are left
    /// out.
    pub to_write: Seq<bool>,
    /// How many chunks the background party has given back and the writing
    /// party has not taken yet.
    pub returned: nat,
    /// Whether the background party has stopped.
    pub finished: bool,
    /// Whether the writing party has queued the request to stop.
    pub done_sent: bool,
    /// How many chunks the background party wrote after that request.
    pub writes_after_stop: nat,
}

/// A step of a writing run.
pub enum WriteRunStep {
    /// The writing party takes a chunk given back and sends its full one
    /// ([`crate::write::Writer::exchange`], and the first message of
    /// [`crate::write::Writer::flush`]).
    Exchange,
    /// The writing party sends its chunk, if it could take one given back,
    /// then the request to stop ([`crate::write::Writer::done`]), once.
    Done,
    /// The background party deals with the next entry of its queue
    /// ([`crate::write::BackgroundWriter::listen`]): it writes a chunk and
    /// gives it back, or (`false`) fails writing it and stops; the request
    /// to stop stops it.
    Handle(bool),
    /// A flush of the background party failed, which stops it.
    FlushFailed,
}

/// The start of a writing run: `queuelen` empty chunks are given back to
/// the writing party ([`crate::write::BackgroundWriter::new`]).
pub open spec fn write_start(queuelen: nat) -> WriteCirculation {
    WriteCirculation {
        to_write: Seq::empty(),
        returned: queuelen,
        finished: false,
        done_sent: false,
        writes_after_stop: 0,
    }
}

/// The state after `step`; a step that cannot be taken changes nothing.
pub open spec fn write_step(s: WriteCirculation, step: WriteRunStep) -> WriteCirculation {
    match step {
        WriteRunStep::Exchange => if s.returned > 0 && !s.done_sent {
            WriteCirculation {
                to_write: s.to_write.push(true),
                returned: (s.returned - 1) as nat,
                ..s
            }
        } else {
            s
        },
        WriteRunStep::Done => if !s.done_sent {
            if s.returned > 0 {
                WriteCirculation {
                    to_write: s.to_write.push(true).push(false),
                    returned: (s.returned - 1) as nat,
                    done_sent: true,
                    ..s
                }
            } else {
                WriteCirculation { to_write: s.to_write.push(false), done_sent: true, ..s }
            }
        } else {
            s
        },
        WriteRunStep::Handle(ok) => if !s.finished && s.to_write.len() > 0 {
            if s.to_write[0] {
                WriteCirculation {
                    to_write: s.to_write.drop_first(),
                    returned: s.returned + if ok {
                        1nat
                    } else {
                        0nat
                    },
                    finished: !ok,
                    writes_after_stop: s.writes_after_stop + if s.done_sent {
                        1nat
                    } else {
                        0nat
                    },
                    ..s
                }
            } else {
                WriteCirculation { to_write: s.to_write.drop_first(), finished: true, ..s }
            }
        } else {
            s
        },
        WriteRunStep::FlushFailed => WriteCirculation { finished: true, ..s },
    }
}

/// The state after `steps`, in order.
pub open spec fn write_run(s: WriteCirculation, steps: Seq<WriteRunStep>) -> WriteCirculation
    decreases steps.len(),
{
    if steps.len() == 0 {
        s
    } else {
        write_run(write_step(s, steps[0]), steps.drop_first())
    }
}

/// What every state of a writing run with `queuelen` chunks besides the
/// writing party's own keeps.
pub open spec fn write_inv(s: WriteCirculation, queuelen: nat) -> bool {
    &&& count(s.to_write) + s.returned <= queuelen
    &&& !s.done_sent ==> s.writes_after_stop == 0 && !has_marker(s.to_write)
    &&& s.done_sent && !s.finished ==> has_marker(s.to_write) && s.writes_after_stop + ahead(
        s.to_write,
    ) <= queuelen
    &&& s.writes_after_stop <= queuelen
}

proof fn lemma_drop_first(q: Seq<bool>)
    requires
        q.len() > 0,
    ensures
        count(q) == (if q[0] {
            1nat
        } else {
            0nat
        }) + count(q.drop_first()),
        q[0] && has_marker(q) ==> has_marker(q.drop_first()) && ahead(q) == 1 + ahead(
            q.drop_first(),
        ),
        !has_marker(q) ==> !has_marker(q.drop_first()) && q[0],
{
    if q[0] && has_marker(q) {
        let i = choose|i: int| 0 <= i < q.len() && !q[i];
        assert(!q.drop_first()[i - 1]);
    }
    if !has_marker(q) {
        assert forall|i: int| 0 <= i < q.drop_first().len() implies q.drop_first()[i] by {
            assert(q[i + 1] == q.drop_first()[i]);
        }
        if !q[0] {
            assert(has_marker(q));
        }
    }
}

proof fn lemma_write_step(s: WriteCirculation, step: WriteRunStep, queuelen: nat)
    requires
        write_inv(s, queuelen),
    ensures
        write_inv(write_step(s, step), queuelen),
{
    lemma_push(s.to_write, true);
    lemma_push(s.to_write, false);
    lemma_push(s.to_write.push(true), false);
    if s.to_write.len() > 0 {
        lemma_drop_first(s.to_write);
        lemma_push(s.to_write.drop_first(), true);
    }
}

/// After the request to stop, the background party writes at most
/// `queuelen` more chunks: whatever steps the two parties take, in whatever
/// order, from the start of a run with `queuelen` chunks besides the
/// writing party's own.
pub proof fn law_writes_after_stop_are_bounded(queuelen: nat, steps: Seq<WriteRunStep>)
    ensures
        write_run(write_start(queuelen), steps).writes_after_stop <= queuelen,
{
    assert(count(Seq::<bool>::empty()) == 0);
    assert(!has_marker(Seq::<bool>::empty()));
    lemma_write_run(write_start(queuelen), steps, queuelen);
}

proof fn lemma_write_run(s: WriteCirculation, steps: Seq<WriteRunStep>, queuelen: nat)
    requires
        write_inv(s, queuelen),
    ensures
        write_inv(write_run(s, steps), queuelen),
    decreases steps.len(),
{
    if steps.len() > 0 {
        lemma_write_step(s, steps[0], queuelen);
        lemma_write_run(write_step(s, steps[0]), steps.drop_first(), queuelen);
    }
}

} // verus!
