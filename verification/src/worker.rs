//! The worker: a bounded slot table of connections, one shared response
//! codec, and one handler. It registers freshly accepted connections,
//! dispatches decoded requests to the handler in decode order — enqueueing
//! each response on the same connection, so responses go out in request
//! order — and drives each connection's state machine from readiness
//! outcomes.
use vstd::prelude::*;

use crate::codec::Codec;
use crate::conn::{Conn, ConnError, ReadOutcome, WriteOutcome};
use crate::events::EventSet;
use crate::receive::{ClientInfo, Receive};
use crate::seq_views;
use crate::slab::{Slab, SlotsFull};

verus! {

/// The handler state after processing `reqs` in order on behalf of one
/// client.
pub open spec fn dispatch_post<Req: View, Res: View, H: Receive<Req, Res>>(
    h: H::V,
    info: ClientInfo,
    reqs: Seq<Req::V>,
) -> H::V
    decreases reqs.len(),
{
    if reqs.len() == 0 {
        h
    } else {
        dispatch_post::<Req, Res, H>(
            H::receive_post(h, info, reqs.first()),
            info,
            reqs.drop_first(),
        )
    }
}

/// How many of `reqs`, processed in order, draw a response from the
/// handler.
pub open spec fn dispatch_replies<Req: View, Res: View, H: Receive<Req, Res>>(
    h: H::V,
    info: ClientInfo,
    reqs: Seq<Req::V>,
) -> nat
    decreases reqs.len(),
{
    if reqs.len() == 0 {
        0
    } else {
        (match H::receive_out(h, info, reqs.first()) {
            Some(res) => 1nat,
            None => 0nat,
        }) + dispatch_replies::<Req, Res, H>(
            H::receive_post(h, info, reqs.first()),
            info,
            reqs.drop_first(),
        )
    }
}

/// The bytes that dispatching `reqs` in order appends to the connection's
/// outbound queue: each request's response (if the handler returns one),
/// encoded, in request order.
pub open spec fn dispatch_bytes<Req: View, Res: View, E: Codec<Vec<u8>, Res>, H: Receive<Req, Res>>(
    h: H::V,
    e: E::V,
    info: ClientInfo,
    reqs: Seq<Req::V>,
) -> Seq<u8>
    decreases reqs.len(),
{
    if reqs.len() == 0 {
        Seq::empty()
    } else {
        (match H::receive_out(h, info, reqs.first()) {
            Some(res) => E::encode_model(e, res),
            None => Seq::empty(),
        }) + dispatch_bytes::<Req, Res, E, H>(
            H::receive_post(h, info, reqs.first()),
            e,
            info,
            reqs.drop_first(),
        )
    }
}

/// Whether dispatching `reqs` can complete: every response the handler
/// returns is encodable, and the encoded buffers fit in the outbound byte
/// budget.
pub open spec fn dispatch_ok<Req: View, Res: View, E: Codec<Vec<u8>, Res>, H: Receive<Req, Res>>(
    h: H::V,
    e: E::V,
    info: ClientInfo,
    reqs: Seq<Req::V>,
    budget: int,
) -> bool
    decreases reqs.len(),
{
    if reqs.len() == 0 {
        true
    } else {
        let h2 = H::receive_post(h, info, reqs.first());
        match H::receive_out(h, info, reqs.first()) {
            Some(res) => E::encodable(e, res) && E::encode_model(e, res).len() <= budget
                && dispatch_ok::<Req, Res, E, H>(
                h2,
                e,
                info,
                reqs.drop_first(),
                budget - E::encode_model(e, res).len(),
            ),
            None => dispatch_ok::<Req, Res, E, H>(h2, e, info, reqs.drop_first(), budget),
        }
    }
}

/// Processing one more request advances the handler state by one step and
/// appends that request's encoded response (if any) at the end.
pub proof fn lemma_dispatch_push<
    Req: View,
    Res: View,
    E: Codec<Vec<u8>, Res>,
    H: Receive<Req, Res>,
>(h: H::V, e: E::V, info: ClientInfo, reqs: Seq<Req::V>, q: Req::V)
    ensures
        dispatch_post::<Req, Res, H>(h, info, reqs.push(q)) == H::receive_post(
            dispatch_post::<Req, Res, H>(h, info, reqs),
            info,
            q,
        ),
        dispatch_bytes::<Req, Res, E, H>(h, e, info, reqs.push(q)) =~= dispatch_bytes::<
            Req,
            Res,
            E,
            H,
        >(h, e, info, reqs) + (match H::receive_out(
            dispatch_post::<Req, Res, H>(h, info, reqs),
            info,
            q,
        ) {
            Some(res) => E::encode_model(e, res),
            None => Seq::<u8>::empty(),
        }),
        dispatch_replies::<Req, Res, H>(h, info, reqs.push(q)) == dispatch_replies::<Req, Res, H>(
            h,
            info,
            reqs,
        ) + (match H::receive_out(dispatch_post::<Req, Res, H>(h, info, reqs), info, q) {
            Some(res) => 1nat,
            None => 0nat,
        }),
    decreases reqs.len(),
{
    let s1 = reqs.push(q);
    if reqs.len() == 0 {
        assert(s1.first() == q);
        assert(s1.drop_first() =~= Seq::<Req::V>::empty());
        let h2 = H::receive_post(h, info, q);
        let none = Seq::<Req::V>::empty();
        assert(dispatch_post::<Req, Res, H>(h2, info, none) == h2);
        assert(dispatch_post::<Req, Res, H>(h, info, s1) == h2);
        assert(dispatch_post::<Req, Res, H>(h, info, reqs) == h);
        assert(dispatch_bytes::<Req, Res, E, H>(h2, e, info, none) == Seq::<u8>::empty());
        assert(dispatch_bytes::<Req, Res, E, H>(h, e, info, reqs) == Seq::<u8>::empty());
        assert(dispatch_replies::<Req, Res, H>(h2, info, none) == 0);
        assert(dispatch_replies::<Req, Res, H>(h, info, reqs) == 0);
    } else {
        assert(s1.first() == reqs.first());
        assert(s1.drop_first() =~= reqs.drop_first().push(q));
        let h2 = H::receive_post(h, info, reqs.first());
        lemma_dispatch_push::<Req, Res, E, H>(h2, e, info, reqs.drop_first(), q);
        assert(dispatch_post::<Req, Res, H>(h, info, s1) == dispatch_post::<Req, Res, H>(
            h2,
            info,
            s1.drop_first(),
        ));
        assert(dispatch_post::<Req, Res, H>(h, info, reqs) == dispatch_post::<Req, Res, H>(
            h2,
            info,
            reqs.drop_first(),
        ));
        assert(dispatch_bytes::<Req, Res, E, H>(h, e, info, s1) == (match H::receive_out(
            h,
            info,
            reqs.first(),
        ) {
            Some(res) => E::encode_model(e, res),
            None => Seq::<u8>::empty(),
        }) + dispatch_bytes::<Req, Res, E, H>(h2, e, info, s1.drop_first()));
        assert(dispatch_bytes::<Req, Res, E, H>(h, e, info, reqs) == (match H::receive_out(
            h,
            info,
            reqs.first(),
        ) {
            Some(res) => E::encode_model(e, res),
            None => Seq::<u8>::empty(),
        }) + dispatch_bytes::<Req, Res, E, H>(h2, e, info, reqs.drop_first()));
        assert(dispatch_replies::<Req, Res, H>(h, info, s1) == (match H::receive_out(
            h,
            info,
            reqs.first(),
        ) {
            Some(res) => 1nat,
            None => 0nat,
        }) + dispatch_replies::<Req, Res, H>(h2, info, s1.drop_first()));
        assert(dispatch_replies::<Req, Res, H>(h, info, reqs) == (match H::receive_out(
            h,
            info,
            reqs.first(),
        ) {
            Some(res) => 1nat,
            None => 0nat,
        }) + dispatch_replies::<Req, Res, H>(h2, info, reqs.drop_first()));
    }
}

/// One worker: its connections, indexed by token; the shared, stateless
/// response codec; and its handler. One worker serves one thread's reactor,
/// and a handler invocation runs synchronously on it: a slow handler stalls
/// every connection this worker owns, by design.
pub struct Worker<D, E, H> {
    pub conns: Slab<Conn<D>>,
    pub res_codec: E,
    pub receiver: H,
}

impl<D, E, H> Worker<D, E, H> {
    /// Every connection is well formed, sits under the table's capacity,
    /// and carries the token of the slot it lives in, assigned once at
    /// registration.
    pub open spec fn conns_wf(&self) -> bool {
        &&& self.conns.wf()
        &&& forall|t: int|
            self.conns@.dom().contains(t) ==> {
                &&& (#[trigger] self.conns@[t]).wf()
                &&& 0 <= t < self.conns.spec_capacity()
                &&& self.conns@[t].token == Some(t as usize)
            }
    }

    /// Every connection's decode codec satisfies its own invariant.
    pub open spec fn codecs_ok<Req: View>(&self) -> bool where D: Codec<Vec<u8>, Req> {
        forall|t: int|
            self.conns@.dom().contains(t) ==> D::inv((#[trigger] self.conns@[t]).codec@)
    }

    /// A worker with an empty slot table of the given capacity.
    pub fn new(capacity: usize, res_codec: E, receiver: H) -> (r: Worker<D, E, H>)
        ensures
            r.conns_wf(),
            r.conns@ == Map::<int, Conn<D>>::empty(),
            r.conns.spec_len() == 0,
            r.conns.spec_capacity() == capacity,
            r.res_codec == res_codec,
            r.receiver == receiver,
    {
        let r = Worker { conns: Slab::new(capacity), res_codec, receiver };
        proof {
            assert(r.conns@.dom() =~= Set::<int>::empty());
        }
        r
    }

    /// How many connections are registered.
    pub fn conn_count(&self) -> (r: usize)
        ensures
            r == self.conns.spec_len(),
    {
        self.conns.len()
    }

    /// Whether `tok` names a registered connection.
    pub fn contains(&self, tok: usize) -> (r: bool)
        ensures
            r == self.conns@.dom().contains(tok as int),
    {
        self.conns.contains(tok)
    }

    /// The next bytes the reactor should write for `tok`: the head of that
    /// connection's outbound queue, if the connection exists and has one.
    pub fn write_head(&self, tok: usize) -> (r: Option<&Vec<u8>>)
        ensures
            match r {
                Some(b) => self.conns@.dom().contains(tok as int)
                    && self.conns@[tok as int].res_bufs@.len() > 0 && b@ == self.conns@[tok
                    as int].res_bufs@[0]@,
                None => !self.conns@.dom().contains(tok as int) || self.conns@[tok
                    as int].res_bufs@.len() == 0,
            },
    {
        match self.conns.get(tok) {
            Some(c) => c.write_head(),
            None => None,
        }
    }

    /// Register a freshly accepted connection around its own new decode
    /// codec, assigning it a fresh token. Fails with the explicit
    /// exhaustion failure exactly when every slot is occupied — the caller
    /// surfaces it, nothing is retried — and succeeds again as soon as a
    /// slot is freed. The new connection starts idle: the reactor registers
    /// its socket with the idle interest set and this token.
    pub fn register<Req: View>(&mut self, codec: D) -> (r: Result<usize, SlotsFull>) where
        D: Codec<Vec<u8>, Req>,

        requires
            old(self).conns_wf(),
            old(self).codecs_ok::<Req>(),
            D::inv(codec@),
        ensures
            final(self).conns_wf(),
            final(self).codecs_ok::<Req>(),
            final(self).res_codec == old(self).res_codec,
            final(self).receiver == old(self).receiver,
            final(self).conns.spec_capacity() == old(self).conns.spec_capacity(),
            r is Err <==> old(self).conns.spec_len() == old(self).conns.spec_capacity(),
            r is Err ==> *final(self) == *old(self) && r == Err::<usize, SlotsFull>(SlotsFull),
            r matches Ok(tok) ==> {
                &&& !old(self).conns@.dom().contains(tok as int)
                &&& final(self).conns@.dom() =~= old(self).conns@.dom().insert(tok as int)
                &&& (forall|t: int|
                    old(self).conns@.dom().contains(t)
                        ==> final(self).conns@[t] == old(self).conns@[t])
                &&& final(self).conns.spec_len() == old(self).conns.spec_len() + 1
                &&& final(self).conns@[tok as int].codec == codec
                &&& final(self).conns@[tok as int].out_model() == Seq::<u8>::empty()
                &&& final(self).conns@[tok as int].res_bufs@.len() == 0
                &&& final(self).conns@[tok as int].token == Some(tok)
                &&& final(self).conns@[tok as int].interest == (EventSet {
                    readable: true,
                    writable: false,
                    hup: true,
                    error: true,
                })
            },
    {
        let conn = Conn::new(codec);
        match self.conns.insert(conn) {
            Ok(tok) => {
                let c = self.conns.get_mut(tok);
                c.token = Some(tok);
                Ok(tok)
            },
            Err(e) => Err(e),
        }
    }

    /// Free the slot of a connection whose socket reported hangup or error
    /// readiness: the connection is closed, its token reusable. Freeing an
    /// unknown token does nothing.
    pub fn close_conn(&mut self, tok: usize) -> (r: bool)
        requires
            old(self).conns_wf(),
        ensures
            final(self).conns_wf(),
            final(self).res_codec == old(self).res_codec,
            final(self).receiver == old(self).receiver,
            final(self).conns.spec_capacity() == old(self).conns.spec_capacity(),
            r == old(self).conns@.dom().contains(tok as int),
            r ==> final(self).conns@ == old(self).conns@.remove(tok as int)
                && final(self).conns.spec_len() == old(self).conns.spec_len() - 1,
            !r ==> *final(self) == *old(self),
    {
        match self.conns.remove(tok) {
            Some(_) => true,
            None => false,
        }
    }

    /// Handle a readable event for `tok` given the outcome the reactor's
    /// read produced: decode and return the requests now available, in
    /// order, together with the interest set to re-register. An unknown
    /// token decodes nothing. A fatal read closes the connection and frees
    /// its slot.
    pub fn conn_readable<Req: View>(&mut self, tok: usize, outcome: ReadOutcome) -> (r: Result<
        (Vec<Req>, Option<EventSet>),
        ConnError,
    >) where D: Codec<Vec<u8>, Req>
        requires
            old(self).conns_wf(),
            old(self).codecs_ok::<Req>(),
        ensures
            final(self).conns_wf(),
            final(self).codecs_ok::<Req>(),
            final(self).res_codec == old(self).res_codec,
            final(self).receiver == old(self).receiver,
            final(self).conns.spec_capacity() == old(self).conns.spec_capacity(),
            !old(self).conns@.dom().contains(tok as int) ==> (r matches Ok(p) && p.0@ == Seq::<
                Req,
            >::empty() && p.1 is None) && *final(self) == *old(self),
            old(self).conns@.dom().contains(tok as int) ==> {
                let c0 = old(self).conns@[tok as int];
                match outcome {
                    ReadOutcome::WouldBlock => {
                        &&& final(self).conns@.dom() == old(self).conns@.dom()
                        &&& final(self).conns@[tok as int] == (Conn {
                            interest: EventSet { readable: true, ..c0.interest },
                            ..c0
                        })
                        &&& (r matches Ok(p) && p.0@ == Seq::<Req>::empty() && p.1 == Some(
                            final(self).conns@[tok as int].interest,
                        ))
                    },
                    ReadOutcome::Read(data) => {
                        &&& final(self).conns@.dom() == old(self).conns@.dom()
                        &&& final(self).conns@[tok as int].codec@ == D::decode_post(
                            c0.codec@,
                            data@,
                        )
                        &&& final(self).conns@[tok as int].res_bufs == c0.res_bufs
                        &&& final(self).conns@[tok as int].res_remaining == c0.res_remaining
                        &&& final(self).conns@[tok as int].token == c0.token
                        &&& final(self).conns@[tok as int].interest == (EventSet {
                            readable: true,
                            ..c0.interest
                        })
                        &&& (r matches Ok(p) && seq_views(p.0@) == D::decode_out(c0.codec@, data@)
                            && p.1 == Some(final(self).conns@[tok as int].interest))
                    },
                    ReadOutcome::Failed => {
                        &&& final(self).conns@ == old(self).conns@.remove(tok as int)
                        &&& r == Err::<(Vec<Req>, Option<EventSet>), ConnError>(ConnError::Fatal)
                    },
                }
            },
            forall|t: int|
                old(self).conns@.dom().contains(t) && t != tok ==> final(self).conns@.dom()
                    .contains(t) && final(self).conns@[t] == old(self).conns@[t],
    {
        if !self.conns.contains(tok) {
            let none: Vec<Req> = Vec::new();
            return Ok((none, None));
        }
        let c = self.conns.get_mut(tok);
        let step = c.readable(outcome);
        match step {
            Ok((msgs, es)) => {
                proof {
                    assert(self.conns@.dom() =~= old(self).conns@.dom());
                }
                Ok((msgs, Some(es)))
            },
            Err(e) => {
                let _ = self.conns.remove(tok);
                proof {
                    assert(self.conns@ =~= old(self).conns@.remove(tok as int));
                }
                Err(e)
            },
        }
    }

    /// Handle a writable event for `tok` given the outcome the reactor's
    /// write produced, returning the interest set to re-register. An
    /// unknown token does nothing. A fatal write — the peer disconnected
    /// mid-write, say — closes the connection and frees its slot, queued
    /// bytes and all.
    pub fn conn_writable(&mut self, tok: usize, outcome: WriteOutcome) -> (r: Result<
        Option<EventSet>,
        ConnError,
    >)
        requires
            old(self).conns_wf(),
            outcome matches WriteOutcome::Wrote(n) ==> old(self).conns@.dom().contains(tok as int)
                && old(self).conns@[tok as int].res_bufs@.len() > 0 && n <= old(self).conns@[tok
                as int].res_bufs@[0]@.len(),
        ensures
            final(self).conns_wf(),
            final(self).res_codec == old(self).res_codec,
            final(self).receiver == old(self).receiver,
            final(self).conns.spec_capacity() == old(self).conns.spec_capacity(),
            !old(self).conns@.dom().contains(tok as int) ==> r == Ok::<
                Option<EventSet>,
                ConnError,
            >(None) && *final(self) == *old(self),
            old(self).conns@.dom().contains(tok as int) ==> {
                let c0 = old(self).conns@[tok as int];
                if c0.res_bufs@.len() == 0 {
                    r == Ok::<Option<EventSet>, ConnError>(Some(c0.interest)) && final(self).conns@
                        == old(self).conns@ && final(self).conns.spec_len() == old(
                        self,
                    ).conns.spec_len()
                } else {
                    match outcome {
                        WriteOutcome::WouldBlock => {
                            &&& final(self).conns@.dom() == old(self).conns@.dom()
                            &&& final(self).conns@[tok as int] == (Conn {
                                interest: EventSet { writable: true, ..c0.interest },
                                ..c0
                            })
                            &&& r == Ok::<Option<EventSet>, ConnError>(Some(
                                final(self).conns@[tok as int].interest,
                            ))
                        },
                        WriteOutcome::Wrote(n) => {
                            &&& final(self).conns@.dom() == old(self).conns@.dom()
                            &&& final(self).conns@[tok as int].out_model() == c0.out_model().skip(
                                n as int,
                            )
                            &&& c0.out_model() == c0.out_model().take(n as int)
                                + final(self).conns@[tok as int].out_model()
                            &&& final(self).conns@[tok as int].res_remaining == c0.res_remaining
                                - n
                            &&& final(self).conns@[tok as int].codec == c0.codec
                            &&& final(self).conns@[tok as int].token == c0.token
                            &&& final(self).conns@[tok as int].interest == (if c0.res_remaining
                                == n {
                                EventSet {
                                    readable: true,
                                    writable: false,
                                    hup: c0.interest.hup,
                                    error: c0.interest.error,
                                }
                            } else {
                                c0.interest
                            })
                            &&& r == Ok::<Option<EventSet>, ConnError>(Some(
                                final(self).conns@[tok as int].interest,
                            ))
                        },
                        WriteOutcome::Failed => {
                            &&& final(self).conns@ == old(self).conns@.remove(tok as int)
                            &&& r == Err::<Option<EventSet>, ConnError>(ConnError::Fatal)
                        },
                    }
                }
            },
            forall|t: int|
                old(self).conns@.dom().contains(t) && t != tok ==> final(self).conns@.dom()
                    .contains(t) && final(self).conns@[t] == old(self).conns@[t],
    {
        if !self.conns.contains(tok) {
            return Ok(None);
        }
        let c = self.conns.get_mut(tok);
        let step = c.writable(outcome);
        match step {
            Ok(es) => {
                proof {
                    if old(self).conns@[tok as int].res_bufs@.len() == 0 {
                        assert(self.conns@ =~= old(self).conns@);
                    } else {
                        assert(self.conns@.dom() =~= old(self).conns@.dom());
                    }
                }
                Ok(Some(es))
            },
            Err(e) => {
                let _ = self.conns.remove(tok);
                proof {
                    assert(self.conns@ =~= old(self).conns@.remove(tok as int));
                }
                Err(e)
            },
        }
    }

    /// Invoke the handler once per decoded request, in decode order, with
    /// the client's identity; encode each response it returns with the
    /// shared response codec and enqueue it on the same connection `tok`.
    /// Decode order and enqueue order are both preserved, so responses
    /// reach the wire in exactly the order their requests arrived on this
    /// connection. Returns the interest set to re-register (writable is
    /// added exactly when some response was enqueued); an unknown token
    /// dispatches nothing. Fails — with the handler already partway
    /// through — exactly when some response cannot be encoded or the
    /// outbound byte counter cannot take it.
    pub fn dispatch<Req: View, Res: View>(
        &mut self,
        tok: usize,
        info: ClientInfo,
        reqs: &Vec<Req>,
    ) -> (r: Result<Option<EventSet>, ConnError>) where
        E: Codec<Vec<u8>, Res>,
        H: Receive<Req, Res>,

        requires
            old(self).conns_wf(),
            E::inv(old(self).res_codec@),
        ensures
            final(self).conns_wf(),
            final(self).res_codec == old(self).res_codec,
            final(self).conns.spec_capacity() == old(self).conns.spec_capacity(),
            final(self).conns@.dom() == old(self).conns@.dom(),
            forall|t: int|
                old(self).conns@.dom().contains(t) && t != tok ==> final(self).conns@[t] == old(
                    self,
                ).conns@[t],
            old(self).conns@.dom().contains(tok as int) ==> final(self).conns@[tok
                as int].codec == old(self).conns@[tok as int].codec && final(self).conns@[tok
                as int].token == old(self).conns@[tok as int].token,
            !old(self).conns@.dom().contains(tok as int) ==> r == Ok::<
                Option<EventSet>,
                ConnError,
            >(None) && *final(self) == *old(self) && final(self).receiver == old(self).receiver,
            old(self).conns@.dom().contains(tok as int) ==> {
                let c0 = old(self).conns@[tok as int];
                let h0 = old(self).receiver@;
                let e0 = old(self).res_codec@;
                let rv = seq_views(reqs@);
                let b0 = usize::MAX - c0.res_remaining;
                &&& (r is Ok <==> dispatch_ok::<Req, Res, E, H>(h0, e0, info, rv, b0 as int))
                &&& (r is Err ==> r == Err::<Option<EventSet>, ConnError>(ConnError::Unencodable)
                    || r == Err::<Option<EventSet>, ConnError>(ConnError::QueueOverflow))
                &&& (r is Ok ==> {
                    &&& final(self).receiver@ == dispatch_post::<Req, Res, H>(h0, info, rv)
                    &&& final(self).conns@[tok as int].out_model() == c0.out_model()
                        + dispatch_bytes::<Req, Res, E, H>(h0, e0, info, rv)
                    &&& final(self).conns@[tok as int].interest == (if dispatch_replies::<
                        Req,
                        Res,
                        H,
                    >(h0, info, rv) > 0 {
                        EventSet { writable: true, ..c0.interest }
                    } else {
                        c0.interest
                    })
                    &&& r == Ok::<Option<EventSet>, ConnError>(Some(
                        final(self).conns@[tok as int].interest,
                    ))
                })
            },
    {
        if !self.conns.contains(tok) {
            return Ok(None);
        }
        let ghost c0 = self.conns@[tok as int];
        let ghost h0 = self.receiver@;
        let ghost e0 = self.res_codec@;
        let ghost rv = seq_views(reqs@);
        let ghost b0 = (usize::MAX - c0.res_remaining) as int;
        let n = reqs.len();
        let mut i: usize = 0;
        proof {
            assert(rv.take(0) =~= Seq::<Req::V>::empty());
            assert(rv.skip(0) =~= rv);
        }
        while i < n
            invariant
                i <= n,
                n == reqs@.len(),
                rv == seq_views(reqs@),
                self.conns_wf(),
                self.res_codec == old(self).res_codec,
                e0 == self.res_codec@,
                E::inv(e0),
                self.conns@.dom() =~= old(self).conns@.dom(),
                self.conns@.dom().contains(tok as int),
                self.conns.spec_capacity() == old(self).conns.spec_capacity(),
                forall|t: int|
                    old(self).conns@.dom().contains(t) && t != tok ==> self.conns@[t] == old(
                        self,
                    ).conns@[t],
                c0 == old(self).conns@[tok as int],
                h0 == old(self).receiver@,
                b0 == usize::MAX - c0.res_remaining,
                self.receiver@ == dispatch_post::<Req, Res, H>(h0, info, rv.take(i as int)),
                self.conns@[tok as int].codec == c0.codec,
                self.conns@[tok as int].token == c0.token,
                self.conns@[tok as int].out_model() == c0.out_model() + dispatch_bytes::<
                    Req,
                    Res,
                    E,
                    H,
                >(h0, e0, info, rv.take(i as int)),
                self.conns@[tok as int].interest == (if dispatch_replies::<Req, Res, H>(
                    h0,
                    info,
                    rv.take(i as int),
                ) > 0 {
                    EventSet { writable: true, ..c0.interest }
                } else {
                    c0.interest
                }),
                dispatch_ok::<Req, Res, E, H>(h0, e0, info, rv, b0) == dispatch_ok::<
                    Req,
                    Res,
                    E,
                    H,
                >(
                    self.receiver@,
                    e0,
                    info,
                    rv.skip(i as int),
                    usize::MAX - self.conns@[tok as int].res_remaining,
                ),
            decreases n - i,
        {
            let ghost h_i = self.receiver@;
            let ghost tail = rv.skip(i as int);
            proof {
                assert(tail.first() == rv[i as int]);
                assert(tail.drop_first() =~= rv.skip(i as int + 1));
                assert(rv.take(i as int + 1) =~= rv.take(i as int).push(rv[i as int]));
                assert(seq_views(reqs@)[i as int] == reqs@[i as int]@);
                let q_i = rv[i as int];
                lemma_dispatch_push::<Req, Res, E, H>(h0, e0, info, rv.take(i as int), q_i);
            }
            let res = self.receiver.receive(info, &reqs[i]);
            match res {
                Some(resp) => {
                    if !self.res_codec.can_encode(&resp) {
                        return Err(ConnError::Unencodable);
                    }
                    let enc = self.res_codec.encode(&resp);
                    let c = self.conns.get_mut(tok);
                    if usize::MAX - c.res_remaining < enc.len() {
                        proof {
                            assert(self.conns@ =~= old(self).conns@.insert(
                                tok as int,
                                self.conns@[tok as int],
                            ));
                            assert(self.conns@.dom() =~= old(self).conns@.dom());
                        }
                        return Err(ConnError::QueueOverflow);
                    }
                    let step = c.reply(enc);
                    proof {
                        assert(self.conns@.dom() =~= old(self).conns@.dom());
                    }
                    match step {
                        Ok(_) => {},
                        Err(_) => {
                            proof {
                                assert(false);
                            }
                        },
                    }
                },
                None => {
                    proof {
                        assert(self.conns@ =~= old(self).conns@.insert(
                            tok as int,
                            self.conns@[tok as int],
                        ));
                        assert(self.conns@.dom() =~= old(self).conns@.dom());
                    }
                },
            }
            i = i + 1;
        }
        proof {
            assert(rv.take(n as int) =~= rv);
            assert(rv.skip(n as int) =~= Seq::<Req::V>::empty());
        }
        match self.conns.get(tok) {
            Some(c) => Ok(Some(c.interest)),
            None => vstd::pervasive::unreached(),
        }
    }
}

} // verus!
