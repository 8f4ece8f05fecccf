//! The per-connection state machine: a stateful decode codec, a FIFO queue
//! of outbound buffers drained by partial writes, and the connection's
//! current interest set.
//!
//! The reactor owns the socket and performs the reads and writes; it reports
//! each outcome here, and this state machine decides what changes and which
//! interest set to re-register (readiness is edge-triggered and one-shot, so
//! every event ends with a re-registration).
use vstd::prelude::*;

use crate::codec::Codec;
use crate::events::EventSet;
use crate::seq_views;

verus! {

/// How a connection-level operation failed.
#[derive(Clone, Copy, PartialEq, Eq, Structural, Debug)]
pub enum ConnError {
    /// Connection-fatal I/O: the socket failed or the peer disconnected.
    /// The connection is terminated and its slot freed.
    Fatal,
    /// The outbound byte counter cannot take another buffer.
    QueueOverflow,
    /// A handler response the response codec cannot encode.
    Unencodable,
}

/// The outcome of one non-blocking write of the head outbound buffer.
#[derive(Clone, Copy, PartialEq, Eq, Structural, Debug)]
pub enum WriteOutcome {
    /// The write would block: no bytes were transferred.
    WouldBlock,
    /// The write transferred this many bytes of the head buffer.
    Wrote(usize),
    /// The write failed fatally.
    Failed,
}

/// The outcome of one non-blocking read into a scratch buffer.
pub enum ReadOutcome {
    /// The read would block: a spurious wakeup, treated as transient.
    WouldBlock,
    /// The bytes the read transferred (possibly none).
    Read(Vec<u8>),
    /// The read failed fatally.
    Failed,
}

/// One connection: its decode codec (decode state persists across reads),
/// the FIFO queue of pending outbound buffers, the count of unwritten bytes
/// across that queue, the slot token assigned at registration, and the
/// interest set the reactor should keep registered.
pub struct Conn<D> {
    pub codec: D,
    pub res_bufs: Vec<Vec<u8>>,
    pub res_remaining: usize,
    pub token: Option<usize>,
    pub interest: EventSet,
}

/// The concatenation of a queue of buffers, in queue order.
pub open spec fn queued_bytes(bufs: Seq<Vec<u8>>) -> Seq<u8> {
    seq_views(bufs).flatten()
}

proof fn lemma_queued_head(bufs: Seq<Vec<u8>>)
    requires
        bufs.len() > 0,
    ensures
        queued_bytes(bufs) == bufs[0]@ + queued_bytes(bufs.drop_first()),
{
    assert(seq_views(bufs).first() == bufs[0]@);
    assert(seq_views(bufs).drop_first() =~= seq_views(bufs.drop_first()));
}

proof fn lemma_queued_push(bufs: Seq<Vec<u8>>, b: Vec<u8>)
    ensures
        queued_bytes(bufs.push(b)) == queued_bytes(bufs) + b@,
{
    assert(seq_views(bufs.push(b)) =~= seq_views(bufs).push(b@));
    seq_views(bufs).lemma_flatten_push(b@);
    assert(seq_views(bufs).push(b@).flatten() =~= seq_views(bufs).flatten() + b@);
}

impl<D> Conn<D> {
    /// The bytes still to be written to the peer, in order.
    pub open spec fn out_model(&self) -> Seq<u8> {
        queued_bytes(self.res_bufs@)
    }

    /// Well-formedness: the remaining-byte counter equals the bytes queued,
    /// and hangup/error monitoring is active.
    pub open spec fn wf(&self) -> bool {
        &&& self.res_remaining == self.out_model().len()
        &&& self.interest.monitors_close()
    }

    /// A fresh connection around its decode codec: nothing queued, no token
    /// yet, idle interest.
    pub fn new(codec: D) -> (r: Conn<D>)
        ensures
            r.codec == codec,
            r.res_bufs@ =~= Seq::<Vec<u8>>::empty(),
            r.res_remaining == 0,
            r.token is None,
            r.interest == (EventSet { readable: true, writable: false, hup: true, error: true }),
            r.wf(),
            r.out_model() == Seq::<u8>::empty(),
    {
        let r = Conn {
            codec,
            res_bufs: Vec::new(),
            res_remaining: 0,
            token: None,
            interest: EventSet::idle(),
        };
        proof {
            assert(seq_views(r.res_bufs@) =~= Seq::<Seq<u8>>::empty());
        }
        r
    }

    /// The next bytes to hand to the socket: the head outbound buffer, if
    /// any.
    pub fn write_head(&self) -> (r: Option<&Vec<u8>>)
        ensures
            match r {
                Some(b) => self.res_bufs@.len() > 0 && b@ == self.res_bufs@[0]@,
                None => self.res_bufs@.len() == 0,
            },
    {
        if self.res_bufs.len() == 0 {
            None
        } else {
            Some(&self.res_bufs[0])
        }
    }

    /// Enqueue one encoded response and add writable interest
    /// (idle to write-pending). Fails, changing nothing, exactly when the
    /// unwritten-byte counter cannot take the buffer's length.
    pub fn reply(&mut self, res: Vec<u8>) -> (r: Result<EventSet, ConnError>)
        ensures
            r is Ok <==> old(self).res_remaining + res@.len() <= usize::MAX,
            r is Err ==> r == Err::<EventSet, ConnError>(ConnError::QueueOverflow) && *final(self)
                == *old(self),
            r matches Ok(es) ==> {
                &&& final(self).res_bufs@ == old(self).res_bufs@.push(res)
                &&& final(self).out_model() == old(self).out_model() + res@
                &&& final(self).res_remaining == old(self).res_remaining + res@.len()
                &&& final(self).interest == (EventSet { writable: true, ..old(self).interest })
                &&& final(self).codec == old(self).codec
                &&& final(self).token == old(self).token
                &&& es == final(self).interest
            },
            old(self).wf() && r is Ok ==> final(self).wf(),
    {
        if usize::MAX - self.res_remaining < res.len() {
            return Err(ConnError::QueueOverflow);
        }
        proof {
            lemma_queued_push(self.res_bufs@, res);
        }
        self.res_remaining = self.res_remaining + res.len();
        self.res_bufs.push(res);
        self.interest = self.interest.with_writable();
        Ok(self.interest)
    }

    /// Apply the outcome of one writable event. With nothing queued this is
    /// a spurious wakeup: no change, re-arm as is. Otherwise: a would-block
    /// keeps the queue and adds writable interest; a write of `n` bytes
    /// removes exactly the first `n` queued bytes (the written prefix) and,
    /// when the counter reaches zero, drops writable interest (write-pending
    /// back to idle); a failure is connection-fatal and the caller frees the
    /// slot. On success the returned interest set is what the reactor must
    /// re-register.
    pub fn writable(&mut self, outcome: WriteOutcome) -> (r: Result<EventSet, ConnError>)
        requires
            old(self).wf(),
            outcome matches WriteOutcome::Wrote(n) ==> old(self).res_bufs@.len() > 0
                && n <= old(self).res_bufs@[0]@.len(),
        ensures
            final(self).wf(),
            final(self).codec == old(self).codec,
            final(self).token == old(self).token,
            old(self).res_bufs@.len() == 0 ==> r == Ok::<EventSet, ConnError>(old(self).interest)
                && *final(self) == *old(self),
            old(self).res_bufs@.len() > 0 ==> match outcome {
                WriteOutcome::WouldBlock => {
                    &&& final(self).out_model() == old(self).out_model()
                    &&& final(self).res_bufs == old(self).res_bufs
                    &&& final(self).res_remaining == old(self).res_remaining
                    &&& final(self).interest == (EventSet { writable: true, ..old(self).interest })
                    &&& r == Ok::<EventSet, ConnError>(final(self).interest)
                },
                WriteOutcome::Wrote(n) => {
                    &&& final(self).out_model() == old(self).out_model().skip(n as int)
                    &&& old(self).out_model() == old(self).out_model().take(n as int)
                        + final(self).out_model()
                    &&& final(self).res_remaining == old(self).res_remaining - n
                    &&& final(self).interest == (if old(self).res_remaining == n {
                        EventSet {
                            readable: true,
                            writable: false,
                            hup: old(self).interest.hup,
                            error: old(self).interest.error,
                        }
                    } else {
                        old(self).interest
                    })
                    &&& r == Ok::<EventSet, ConnError>(final(self).interest)
                },
                WriteOutcome::Failed => {
                    &&& r == Err::<EventSet, ConnError>(ConnError::Fatal)
                    &&& *final(self) == *old(self)
                },
            },
    {
        if self.res_bufs.len() == 0 {
            return Ok(self.interest);
        }
        match outcome {
            WriteOutcome::Failed => Err(ConnError::Fatal),
            WriteOutcome::WouldBlock => {
                self.interest = self.interest.with_writable();
                Ok(self.interest)
            },
            WriteOutcome::Wrote(n) => {
                proof {
                    lemma_queued_head(self.res_bufs@);
                }
                let head = self.res_bufs.remove(0);
                self.res_remaining = self.res_remaining - n;
                if n < head.len() {
                    let rest = crate::framed::suffix_of(&head, n);
                    self.res_bufs.insert(0, rest);
                    proof {
                        lemma_queued_head(self.res_bufs@);
                        assert(self.res_bufs@.drop_first() =~= old(self).res_bufs@.drop_first());
                        assert(self.res_bufs@[0]@ + queued_bytes(old(self).res_bufs@.drop_first())
                            =~= old(self).out_model().skip(n as int));
                    }
                } else {
                    proof {
                        assert(self.res_bufs@ =~= old(self).res_bufs@.drop_first());
                        assert(queued_bytes(old(self).res_bufs@.drop_first())
                            =~= old(self).out_model().skip(n as int));
                    }
                }
                proof {
                    assert(old(self).out_model().take(n as int) + old(self).out_model().skip(
                        n as int,
                    ) =~= old(self).out_model());
                }
                if self.res_remaining == 0 {
                    self.interest = self.interest.with_readable().without_writable();
                }
                Ok(self.interest)
            },
        }
    }

    /// Apply the outcome of one readable event: run the bytes the reactor
    /// read through this connection's decode codec and return every fully
    /// decoded request, in order; partially received messages stay buffered
    /// in the codec for the next read. A would-block read is transient
    /// (re-arm, decode nothing); a failure is connection-fatal. On success
    /// the returned interest set is what the reactor must re-register.
    pub fn readable<Req: View>(&mut self, outcome: ReadOutcome) -> (r: Result<
        (Vec<Req>, EventSet),
        ConnError,
    >) where D: Codec<Vec<u8>, Req>
        requires
            D::inv(old(self).codec@),
        ensures
            D::inv(final(self).codec@),
            final(self).res_bufs == old(self).res_bufs,
            final(self).res_remaining == old(self).res_remaining,
            final(self).token == old(self).token,
            final(self).out_model() == old(self).out_model(),
            old(self).wf() ==> final(self).wf(),
            match outcome {
                ReadOutcome::WouldBlock => {
                    &&& final(self).codec == old(self).codec
                    &&& final(self).interest == (EventSet { readable: true, ..old(self).interest })
                    &&& (r matches Ok(p) && p.0@ == Seq::<Req>::empty()
                        && p.1 == final(self).interest)
                },
                ReadOutcome::Read(data) => {
                    &&& final(self).codec@ == D::decode_post(old(self).codec@, data@)
                    &&& final(self).interest == (EventSet { readable: true, ..old(self).interest })
                    &&& r matches Ok(p) && seq_views(p.0@) == D::decode_out(
                        old(self).codec@,
                        data@,
                    ) && p.1 == final(self).interest
                },
                ReadOutcome::Failed => {
                    &&& r == Err::<(Vec<Req>, EventSet), ConnError>(ConnError::Fatal)
                    &&& *final(self) == *old(self)
                },
            },
    {
        match outcome {
            ReadOutcome::WouldBlock => {
                self.interest = self.interest.with_readable();
                let none: Vec<Req> = Vec::new();
                Ok((none, self.interest))
            },
            ReadOutcome::Read(data) => {
                let mut buf = data;
                let msgs = self.codec.decode(&mut buf);
                self.interest = self.interest.with_readable();
                Ok((msgs, self.interest))
            },
            ReadOutcome::Failed => Err(ConnError::Fatal),
        }
    }
}

/// One abstract step of a connection's outbound side.
pub enum ConnOp {
    /// An encoded response is enqueued.
    Enqueue(Seq<u8>),
    /// A writable event transfers this many queued bytes to the peer.
    Write(nat),
}

/// Whether a sequence of steps is possible from a queue holding `q`: a
/// write never transfers more bytes than are queued.
pub open spec fn ops_valid(q: Seq<u8>, ops: Seq<ConnOp>) -> bool
    decreases ops.len(),
{
    if ops.len() == 0 {
        true
    } else {
        match ops.first() {
            ConnOp::Enqueue(b) => ops_valid(q + b, ops.drop_first()),
            ConnOp::Write(n) => n <= q.len() && ops_valid(q.skip(n as int), ops.drop_first()),
        }
    }
}

/// The queued bytes after running `ops` from a queue holding `q`.
pub open spec fn queue_after(q: Seq<u8>, ops: Seq<ConnOp>) -> Seq<u8>
    decreases ops.len(),
{
    if ops.len() == 0 {
        q
    } else {
        match ops.first() {
            ConnOp::Enqueue(b) => queue_after(q + b, ops.drop_first()),
            ConnOp::Write(n) => queue_after(q.skip(n as int), ops.drop_first()),
        }
    }
}

/// The bytes the peer receives while `ops` run from a queue holding `q`:
/// each write hands over the head of the queue at that moment.
pub open spec fn bytes_written(q: Seq<u8>, ops: Seq<ConnOp>) -> Seq<u8>
    decreases ops.len(),
{
    if ops.len() == 0 {
        Seq::empty()
    } else {
        match ops.first() {
            ConnOp::Enqueue(b) => bytes_written(q + b, ops.drop_first()),
            ConnOp::Write(n) => q.take(n as int) + bytes_written(
                q.skip(n as int),
                ops.drop_first(),
            ),
        }
    }
}

/// The concatenation of every enqueued buffer in `ops`, in enqueue order.
pub open spec fn bytes_enqueued(ops: Seq<ConnOp>) -> Seq<u8>
    decreases ops.len(),
{
    if ops.len() == 0 {
        Seq::empty()
    } else {
        match ops.first() {
            ConnOp::Enqueue(b) => b + bytes_enqueued(ops.drop_first()),
            ConnOp::Write(n) => bytes_enqueued(ops.drop_first()),
        }
    }
}

/// Write-order law: over any possible sequence of enqueues and (possibly
/// partial) writes, the bytes handed to the peer followed by the bytes
/// still queued equal the bytes queued at the start followed by every
/// enqueued buffer, in enqueue order. These steps are exactly what
/// [`Conn::reply`] and [`Conn::writable`] ensure of `out_model`.
pub proof fn lemma_write_order(q: Seq<u8>, ops: Seq<ConnOp>)
    requires
        ops_valid(q, ops),
    ensures
        bytes_written(q, ops) + queue_after(q, ops) =~= q + bytes_enqueued(ops),
    decreases ops.len(),
{
    if ops.len() > 0 {
        let rest = ops.drop_first();
        match ops.first() {
            ConnOp::Enqueue(b) => {
                lemma_write_order(q + b, rest);
                assert((q + b) + bytes_enqueued(rest) =~= q + (b + bytes_enqueued(rest)));
            },
            ConnOp::Write(n) => {
                lemma_write_order(q.skip(n as int), rest);
                assert((q.take(n as int) + bytes_written(q.skip(n as int), rest)) + queue_after(
                    q.skip(n as int),
                    rest,
                ) =~= q.take(n as int) + (bytes_written(q.skip(n as int), rest) + queue_after(
                    q.skip(n as int),
                    rest,
                )));
                assert(q.take(n as int) + (q.skip(n as int) + bytes_enqueued(rest)) =~= q
                    + bytes_enqueued(rest));
            },
        }
    }
}

/// Once the queue has drained, the total bytes written to the peer equal
/// the concatenation of all enqueued response buffers, in enqueue order,
/// however many partial-write steps it took.
pub proof fn lemma_total_write_order(ops: Seq<ConnOp>)
    requires
        ops_valid(Seq::empty(), ops),
        queue_after(Seq::empty(), ops) == Seq::<u8>::empty(),
    ensures
        bytes_written(Seq::empty(), ops) =~= bytes_enqueued(ops),
{
    lemma_write_order(Seq::empty(), ops);
    assert(bytes_written(Seq::empty(), ops) + Seq::<u8>::empty() =~= bytes_written(
        Seq::empty(),
        ops,
    ));
    assert(Seq::<u8>::empty() + bytes_enqueued(ops) =~= bytes_enqueued(ops));
}

} // verus!
