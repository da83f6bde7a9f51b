//! The logon exchange with its codec and buffers attached.
//!
//! A socket read is not aligned to FIX frames. The Logon and the first
//! application message can arrive together, so whatever follows the Logon is
//! kept for the session and handed to it by [`EstablishedDriver::start`], once
//! the application is in a position to reply.

use std::sync::Arc;

use bytes::BytesMut;
use vstd::prelude::*;
use vstd::string::*;

use crate::buffer::buffered;
use crate::builder::Message;
use crate::clock::{after, Duration, Instant};
use crate::codec::{DecoderView, FixDecoder, FixEncoder};
use crate::driver::{
    delimiter_or_default, driven, driven_to_failure, lemma_driven, Clock, DriverOutput,
    SessionDriver,
};
use crate::error::{Error, ErrorView, Result};
use crate::message::MessageView;
use crate::repository::FixRepository;
use crate::session::handshake::{
    initiate, overdue, AcceptorHandshake, AcceptorView, InitiatorHandshake,
};
use crate::session::protocol::StateView;
use crate::session::types::{failed, realises, EventSink, Progress, Run, Session, SessionIdentifier};

verus! {

/// What a logon exchange needs besides the session.
pub struct DriverConfig<C: Clock> {
    pub repo: Arc<FixRepository>,
    /// The field separator; `None` means the wire default, SOH.
    pub delimiter: Option<u8>,
    pub clock: C,
    /// How long the peer has to complete the exchange.
    pub logon_timeout: Duration,
}

/// A completed logon exchange: the session, and whether it survived it. Nothing
/// that arrived behind the Logon has been delivered yet.
pub struct EstablishedDriver<C: Clock> {
    pub driver: SessionDriver<C>,
    pub progress: Progress,
}

/// What has arrived and is yet to be read: the decoder and the bytes.
pub ghost struct ArrivalView {
    pub decoder: DecoderView,
    pub pending: Seq<u8>,
}

impl ArrivalView {
    pub open spec fn with(self, more: Seq<u8>) -> ArrivalView {
        ArrivalView { pending: self.pending + more, ..self }
    }

    /// What is left once a frame has been taken off the front.
    pub open spec fn framed(self) -> ArrivalView {
        let d = self.decoder.decode(self.pending);
        ArrivalView {
            decoder: DecoderView { fix_version: d.fix_version, ..self.decoder },
            pending: self.pending.skip(d.consumed),
        }
    }

    /// The message at the front, where it is complete.
    pub open spec fn frame(self) -> std::result::Result<Option<MessageView>, ErrorView> {
        let d = self.decoder.decode(self.pending);
        match d.result {
            Err(e) => Err(e),
            Ok(None) => Ok(None),
            Ok(Some(tags)) => Ok(
                Some(
                    MessageView {
                        fix_version: *d.fix_version->0,
                        data: self.pending.take(d.consumed),
                        tags,
                    },
                ),
            ),
        }
    }
}

/// A run that failed on an output was driven to failure.
proof fn lemma_driven_to_failure<S, C: Clock, E: EventSink>(
    run: Run<S>,
    before: DriverOutput<C, E>,
    after: DriverOutput<C, E>,
    e: Error,
)
    requires
        failed(run, before, after, e),
    ensures
        driven_to_failure(run, before.encoder, *before.clock, before.sink, after.sink, e),
{
    let s = choose|s: S| realises(run, before, after, s, Err(e));
    lemma_driven(run, before, after, s, Err(e));
}

impl<C: Clock> EstablishedDriver<C> {
    pub open spec fn wf(&self) -> bool {
        self.driver.wf()
    }

    /// Hand the session what arrived behind the Logon, unless it is over
    /// already. The sink comes back with what it was told.
    pub fn start<E: EventSink>(
        self,
        now: Instant,
        sink: E,
    ) -> (r: (Result<(SessionDriver<C>, Progress)>, E))
        requires
            self.wf(),
        ensures
            match self.progress {
                Progress::Close => r.0 matches Ok((driver, progress)) && driver == self.driver
                    && progress is Close && r.1 == sink,
                Progress::Continue => {
                    let run = self.driver@.feed(now@);
                    match r.0 {
                        Ok((driver, progress)) => driver.wf() && driver.encoder
                            == self.driver.encoder && driver.clock == self.driver.clock && driven(
                            run,
                            self.driver.encoder,
                            *self.driver.clock,
                            sink,
                            r.1,
                            self.driver.written(),
                            driver.written(),
                            driver@,
                            Ok(progress),
                        ),
                        Err(e) => driven_to_failure(
                            run,
                            self.driver.encoder,
                            *self.driver.clock,
                            sink,
                            r.1,
                            e,
                        ),
                    }
                },
            },
    {
        let mut driver = self.driver;
        match self.progress {
            Progress::Close => (Ok((driver, Progress::Close)), sink),
            Progress::Continue => {
                let nothing: Vec<u8> = Vec::new();
                let ghost first = driver@;
                assert(first.pending + nothing@ =~= first.pending);
                assert(first.with(nothing@) == first);
                match driver.on_bytes(now, nothing.as_slice(), sink) {
                    (Ok(progress), told) => (Ok((driver, progress)), told),
                    (Err(e), told) => (Err(e), told),
                }
            },
        }
    }
}

// ---------------------------------------------------------------------------
// Initiator
// ---------------------------------------------------------------------------

/// An initiator's logon exchange, fed with bytes.
pub struct InitiatorDriver<C: Clock> {
    /// Gone once the exchange is complete.
    pub handshake: Option<InitiatorHandshake>,
    pub decoder: FixDecoder,
    pub encoder: FixEncoder,
    pub in_buf: BytesMut,
    pub out_buf: BytesMut,
    pub clock: Arc<C>,
}

impl<C: Clock> InitiatorDriver<C> {
    pub open spec fn wf(&self) -> bool {
        self.handshake matches Some(h) ==> h.wf()
    }

    pub open spec fn arrived(&self) -> ArrivalView {
        ArrivalView { decoder: self.decoder@, pending: buffered(self.in_buf) }
    }

    /// What is waiting to be written.
    pub open spec fn written(&self) -> Seq<u8> {
        buffered(self.out_buf)
    }

    /// Announce the session and put our Logon into the outbound buffer.
    pub fn start<E: EventSink>(
        session_id: SessionIdentifier,
        session: Session,
        config: DriverConfig<C>,
        now: Instant,
        sink: E,
    ) -> (r: (Result<Self>, E))
        ensures
            ({
                let run = initiate(session_id@, session@, now@);
                let delimiter = delimiter_or_default(config.delimiter);
                let encoder = FixEncoder { delimiter, precision: session.time_precision };
                match r.0 {
                    Ok(d) => {
                        &&& d.wf()
                        &&& d.encoder == encoder
                        &&& *d.clock == config.clock
                        &&& d.arrived().pending == Seq::<u8>::empty()
                        &&& d.arrived().decoder == (DecoderView {
                            repo: *config.repo,
                            delimiter,
                            fix_version: Some(session.fix_version),
                        })
                        &&& d.handshake matches Some(h) && h.deadline@ == after(
                            now@,
                            config.logon_timeout@,
                        ) && driven(
                            run,
                            encoder,
                            config.clock,
                            sink,
                            r.1,
                            Seq::<u8>::empty(),
                            d.written(),
                            h.state@,
                            Ok(Progress::Continue),
                        )
                    },
                    Err(e) => driven_to_failure(run, encoder, config.clock, sink, r.1, e),
                }
            }),
    {
        let ghost run = initiate(session_id@, session@, now@);
        let encoder = FixEncoder::new(config.delimiter).with_precision(session.time_precision);
        let decoder = FixDecoder::with_version(
            config.repo,
            config.delimiter,
            session.fix_version.clone(),
        );
        let clock = Arc::new(config.clock);
        let mut out = DriverOutput {
            encoder,
            bytes: BytesMut::new(),
            clock: clock.clone(),
            sink,
        };
        let ghost before = out;
        match InitiatorHandshake::start(
            session_id,
            session,
            config.logon_timeout,
            now,
            &mut out,
        ) {
            Ok(h) => {
                proof {
                    lemma_driven(run, before, out, h.state@, Ok(Progress::Continue));
                }
                let driver = InitiatorDriver {
                    handshake: Some(h),
                    decoder,
                    encoder,
                    in_buf: BytesMut::new(),
                    out_buf: out.bytes,
                    clock,
                };
                (Ok(driver), out.sink)
            },
            Err(e) => {
                proof {
                    lemma_driven_to_failure(run, before, out, e);
                }
                (Err(e), out.sink)
            },
        }
    }

    /// When the peer's Logon must have arrived by, while it is awaited.
    pub fn deadline(&self) -> (r: Option<Instant>)
        ensures
            match r {
                Some(t) => self.handshake matches Some(h) && t == h.deadline,
                None => self.handshake is None,
            },
    {
        match &self.handshake {
            Some(h) => Some(h.deadline()),
            None => None,
        }
    }

    /// Give up if the peer has taken too long.
    pub fn on_timeout(&self, now: Instant) -> (r: Result<()>)
        ensures
            match self.handshake {
                Some(h) => match overdue(h.deadline@, now@) {
                    Ok(_) => r is Ok,
                    Err(e) => r matches Err(err) && err@ == e,
                },
                None => r is Ok,
            },
    {
        match &self.handshake {
            Some(h) => h.on_timeout(now),
            None => Ok(()),
        }
    }

    /// Encoded bytes waiting for the peer.
    pub fn pending_writes(&mut self) -> (r: &mut BytesMut)
        ensures
            *r == old(self).out_buf,
            final(self).out_buf == *final(r),
            final(self).arrived() == old(self).arrived(),
            final(self).encoder == old(self).encoder,
            final(self).clock == old(self).clock,
            final(self).handshake == old(self).handshake,
    {
        &mut self.out_buf
    }

    /// Feed bytes straight off the socket. Once the peer's Logon is there, it
    /// completes the exchange; whatever follows it is kept for the session. The
    /// sink comes back with what it was told.
    ///
    /// The exchange is over once a whole message has arrived, whether it was a
    /// Logon or not.
    pub fn on_bytes<E: EventSink>(
        &mut self,
        now: Instant,
        src: &[u8],
        sink: E,
    ) -> (r: (Result<Option<EstablishedDriver<C>>>, E))
        requires
            old(self).wf(),
        ensures
            final(self).wf(),
            final(self).encoder == old(self).encoder,
            final(self).clock == old(self).clock,
            ({
                let arrived = old(self).arrived().with(src@);
                match arrived.frame() {
                    Err(e) => {
                        &&& r.0 matches Err(err) && err@ == e
                        &&& final(self).arrived() == arrived.framed()
                        &&& final(self).written() == old(self).written()
                        &&& final(self).handshake == old(self).handshake
                        &&& r.1 == sink
                    },
                    Ok(None) => {
                        &&& r.0 matches Ok(None)
                        &&& final(self).arrived() == arrived.framed()
                        &&& final(self).written() == old(self).written()
                        &&& final(self).handshake == old(self).handshake
                        &&& r.1 == sink
                    },
                    Ok(Some(msg)) => match old(self).handshake {
                        None => {
                            &&& r.0 matches Err(err) && err@ == ErrorView::ProtocolViolation(
                                "the logon exchange is already complete"@,
                            )
                            &&& final(self).arrived() == arrived.framed()
                            &&& final(self).written() == old(self).written()
                            &&& final(self).handshake is None
                            &&& r.1 == sink
                        },
                        Some(h) => {
                            let run = h.state@.complete(msg);
                            &&& final(self).handshake is None
                            &&& final(self).written() == Seq::<u8>::empty()
                            &&& final(self).arrived().decoder == arrived.framed().decoder
                            &&& match r.0 {
                                Ok(Some(e)) => {
                                    &&& e.wf()
                                    &&& e.driver.encoder == old(self).encoder
                                    &&& e.driver.clock == old(self).clock
                                    &&& e.driver@.decoder == arrived.framed().decoder
                                    &&& e.driver@.pending == arrived.framed().pending
                                    &&& final(self).arrived().pending == Seq::<u8>::empty()
                                    &&& driven(
                                        run,
                                        old(self).encoder,
                                        *old(self).clock,
                                        sink,
                                        r.1,
                                        old(self).written(),
                                        e.driver.written(),
                                        e.driver@.state,
                                        Ok(e.progress),
                                    )
                                },
                                Ok(None) => false,
                                Err(e) => {
                                    &&& final(self).arrived().pending == arrived.framed().pending
                                    &&& driven_to_failure(
                                        run,
                                        old(self).encoder,
                                        *old(self).clock,
                                        sink,
                                        r.1,
                                        e,
                                    )
                                },
                            }
                        },
                    },
                }
            }),
    {
        self.in_buf.extend_from_slice(src);
        let msg = match self.decoder.decode(&mut self.in_buf) {
            Err(e) => {
                return (Err(e), sink);
            },
            Ok(None) => {
                return (Ok(None), sink);
            },
            Ok(Some(msg)) => msg,
        };
        let handshake = match self.handshake.take() {
            Some(h) => h,
            None => {
                let e = Error::protocol_violation("the logon exchange is already complete");
                return (Err(e), sink);
            },
        };
        let ghost run = handshake.state@.complete(msg@);
        let mut bytes = BytesMut::new();
        std::mem::swap(&mut bytes, &mut self.out_buf);
        let mut out = DriverOutput {
            encoder: self.encoder,
            bytes,
            clock: self.clock.clone(),
            sink,
        };
        let ghost before = out;
        match handshake.on_peer_logon(msg, now, &mut out) {
            Ok(established) => {
                proof {
                    lemma_driven(
                        run,
                        before,
                        out,
                        established.state@,
                        Ok(established.progress),
                    );
                }
                let mut in_buf = BytesMut::new();
                std::mem::swap(&mut in_buf, &mut self.in_buf);
                let driver = SessionDriver {
                    state: *established.state,
                    decoder: self.decoder.clone(),
                    encoder: self.encoder,
                    in_buf,
                    out_buf: out.bytes,
                    clock: self.clock.clone(),
                };
                let e = EstablishedDriver { driver, progress: established.progress };
                (Ok(Some(e)), out.sink)
            },
            Err(e) => {
                proof {
                    lemma_driven_to_failure(run, before, out, e);
                }
                (Err(e), out.sink)
            },
        }
    }
}

// ---------------------------------------------------------------------------
// Acceptor
// ---------------------------------------------------------------------------

/// An acceptor's logon exchange, fed with bytes.
pub struct AcceptorDriver<C: Clock> {
    pub handshake: AcceptorHandshake,
    pub decoder: FixDecoder,
    pub in_buf: BytesMut,
    pub clock: Arc<C>,
}

impl<C: Clock> AcceptorDriver<C> {
    pub open spec fn wf(&self) -> bool {
        self.handshake.wf()
    }

    pub open spec fn arrived(&self) -> ArrivalView {
        ArrivalView { decoder: self.decoder@, pending: buffered(self.in_buf) }
    }

    /// Wait for the peer to introduce itself.
    pub fn new(config: DriverConfig<C>, now: Instant) -> (r: Self)
        ensures
            r.wf(),
            *r.clock == config.clock,
            r.handshake@ == (AcceptorView {
                deadline: after(now@, config.logon_timeout@),
                pending: None,
            }),
            r.arrived() == (ArrivalView {
                decoder: DecoderView {
                    repo: *config.repo,
                    delimiter: delimiter_or_default(config.delimiter),
                    fix_version: None,
                },
                pending: Seq::<u8>::empty(),
            }),
    {
        AcceptorDriver {
            handshake: AcceptorHandshake::new(config.logon_timeout, now),
            decoder: FixDecoder::new(config.repo, config.delimiter),
            in_buf: BytesMut::new(),
            clock: Arc::new(config.clock),
        }
    }

    /// When the peer's Logon must have arrived by.
    pub fn deadline(&self) -> (r: Instant)
        ensures
            r@ == self.handshake@.deadline,
    {
        self.handshake.deadline()
    }

    /// Give up if the peer has taken too long.
    pub fn on_timeout(&self, now: Instant) -> (r: Result<()>)
        ensures
            match overdue(self.handshake@.deadline, now@) {
                Ok(_) => r is Ok,
                Err(e) => r matches Err(err) && err@ == e,
            },
    {
        self.handshake.on_timeout(now)
    }

    /// The peer's Logon, for applications that authenticate on it.
    pub fn peer_logon(&self) -> (r: Option<&Message>)
        requires
            self.wf(),
        ensures
            match r {
                Some(m) => m.wf() && (self.handshake@.pending matches Some(p) && m@ == p.1),
                None => self.handshake@.pending is None,
            },
    {
        self.handshake.peer_logon()
    }

    /// Feed bytes straight off the socket. Once the peer's Logon is there, it
    /// names the session; whatever follows it is kept for the session.
    pub fn on_bytes(&mut self, src: &[u8]) -> (r: Result<Option<&SessionIdentifier>>)
        requires
            old(self).wf(),
        ensures
            final(self).wf(),
            final(self).clock == old(self).clock,
            ({
                let arrived = old(self).arrived().with(src@);
                match old(self).handshake@.pending {
                    Some((id, _, _)) => {
                        &&& r matches Ok(Some(named)) && named@ == id
                        &&& final(self).arrived() == arrived
                        &&& final(self).handshake@ == old(self).handshake@
                    },
                    None => match arrived.frame() {
                        Err(e) => {
                            &&& r matches Err(err) && err@ == e
                            &&& final(self).arrived() == arrived.framed()
                            &&& final(self).handshake@ == old(self).handshake@
                        },
                        Ok(None) => {
                            &&& r matches Ok(None)
                            &&& final(self).arrived() == arrived.framed()
                            &&& final(self).handshake@ == old(self).handshake@
                        },
                        Ok(Some(msg)) => match old(self).handshake@.identified(msg) {
                            Err(e) => {
                                &&& r matches Err(err) && err@ == e
                                &&& final(self).arrived() == arrived.framed()
                                &&& final(self).handshake@ == old(self).handshake@
                            },
                            Ok(v) => {
                                &&& final(self).handshake@ == v
                                &&& final(self).arrived() == arrived.framed()
                                &&& r matches Ok(Some(named)) && named@ == (v.pending->0).0
                            },
                        },
                    },
                }
            }),
    {
        self.in_buf.extend_from_slice(src);
        if self.handshake.pending.is_none() {
            let msg = match self.decoder.decode(&mut self.in_buf) {
                Err(e) => {
                    return Err(e);
                },
                Ok(None) => {
                    return Ok(None);
                },
                Ok(Some(msg)) => msg,
            };
            match self.handshake.identify(msg) {
                Err(e) => {
                    return Err(e);
                },
                Ok(_) => {},
            }
        }
        Ok(self.handshake.session_id())
    }

    /// Supply the sequence numbers persisted for the identified session. The sink
    /// comes back with what it was told.
    pub fn accept<E: EventSink>(
        self,
        session: Session,
        now: Instant,
        sink: E,
    ) -> (r: (Result<EstablishedDriver<C>>, E))
        requires
            self.wf(),
        ensures
            match self.handshake@.pending {
                None => r.0 matches Err(e) && e@ == ErrorView::ProtocolViolation(
                    "accept called before the peer identified itself"@,
                ) && r.1 == sink,
                Some((id, logon, raw)) => {
                    let run = StateView::initial(id, session@, now@).accept(logon, raw);
                    let encoder = FixEncoder {
                        delimiter: self.decoder@.delimiter,
                        precision: session.time_precision,
                    };
                    match r.0 {
                        Ok(e) => {
                            &&& e.wf()
                            &&& e.driver.encoder == encoder
                            &&& e.driver.clock == self.clock
                            &&& e.driver@.decoder == self.decoder@
                            &&& e.driver@.pending == buffered(self.in_buf)
                            &&& driven(
                                run,
                                encoder,
                                *self.clock,
                                sink,
                                r.1,
                                Seq::<u8>::empty(),
                                e.driver.written(),
                                e.driver@.state,
                                Ok(e.progress),
                            )
                        },
                        Err(e) => driven_to_failure(run, encoder, *self.clock, sink, r.1, e),
                    }
                },
            },
    {
        let encoder = FixEncoder {
            delimiter: self.decoder.delimiter(),
            precision: session.time_precision,
        };
        let mut out = DriverOutput {
            encoder,
            bytes: BytesMut::new(),
            clock: self.clock.clone(),
            sink,
        };
        let ghost before = out;
        let ghost pending = self.handshake@.pending;
        let ghost s = session@;
        let clock = self.clock;
        let decoder = self.decoder;
        let in_buf = self.in_buf;
        match self.handshake.accept(session, now, &mut out) {
            Ok(established) => {
                proof {
                    let (id, logon, raw) = pending->0;
                    lemma_driven(
                        StateView::initial(id, s, now@).accept(logon, raw),
                        before,
                        out,
                        established.state@,
                        Ok(established.progress),
                    );
                }
                let driver = SessionDriver {
                    state: *established.state,
                    decoder,
                    encoder,
                    in_buf,
                    out_buf: out.bytes,
                    clock,
                };
                (Ok(EstablishedDriver { driver, progress: established.progress }), out.sink)
            },
            Err(e) => {
                proof {
                    if let Some((id, logon, raw)) = pending {
                        lemma_driven_to_failure(
                            StateView::initial(id, s, now@).accept(logon, raw),
                            before,
                            out,
                            e,
                        );
                    }
                }
                (Err(e), out.sink)
            },
        }
    }
}

} // verus!
