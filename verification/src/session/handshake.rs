//! The logon exchange, as a state machine — one type per role.
//!
//! The two roles do not behave the same, and the difference is protocol rather
//! than transport:
//!
//! * An **initiator** was told who it is talking to, and holds the sequence
//!   numbers already. It opens with its own Logon and waits for the answer.
//! * An **acceptor** is multiplexing sessions over one listening port, so it
//!   has no idea which session a connection belongs to until the peer's Logon
//!   names one. Nothing session-scoped can be said before that: the identity
//!   comes out of the Logon, the application is then asked for the sequence
//!   numbers it persisted for that identity, and only then can a reply go out.
//!
//! [`AcceptorHandshake::identify`] takes no [`SessionOutput`], because at that
//! point there is no session for an event to be *about*. Making that a property
//! of the signature rather than a rule to remember is why the roles are separate
//! types.

use vstd::prelude::*;
use vstd::string::*;

use crate::builder::block::field_of;
use crate::builder::message::{taken_apart, BuilderView};
use crate::builder::Message;
use crate::clock::{after, Duration, Instant};
use crate::error::{Error, ErrorView, Result};
use crate::message::{FixMessage, MessageView};
use crate::repository::FieldBlock;
use crate::schema::fields::{
    BEGIN_STRING, DEFAULT_APPL_VER_ID, ENCRYPT_METHOD, HEART_BT_INT, SENDER_COMP_ID,
    TARGET_COMP_ID,
};
use crate::session::protocol::{new_message, text, StateView};
use crate::session::state::SessionState;
use crate::session::types::{
    failed, going_on, lemma_realises_done, lemma_realises_event, lemma_realises_stop,
    lemma_realises_then, realises, Event, EventView, IdView, Progress, Run, Session,
    SessionIdentifier, SessionOutput, SessionView,
};
use crate::text::{decimal_string, decimal_text, joined, text_eq};

verus! {

// ---------------------------------------------------------------------------
// What the exchange does
// ---------------------------------------------------------------------------

/// A Logon carrying the session's negotiated settings.
pub open spec fn logon_for(session: SessionView) -> std::result::Result<BuilderView, ErrorView> {
    match new_message(session.fix_version, "A"@) {
        Err(e) => Err(e),
        Ok(m) => {
            let timed = m.with_body(
                HEART_BT_INT,
                text(decimal_text(session.heartbeat / 1_000_000_000)),
            );
            let versioned = if session.fix_version.has_member(
                m.fix_message.elements@,
                DEFAULT_APPL_VER_ID,
            ) {
                timed.with_body(DEFAULT_APPL_VER_ID, text("10"@))
            } else {
                timed
            };
            Ok(versioned.with_body(ENCRYPT_METHOD, text("0"@)))
        },
    }
}

/// Anything that is not a Logon(35=A) is refused.
pub open spec fn logon_check(msg: BuilderView) -> std::result::Result<(), ErrorView> {
    if msg.msg_type() == "A"@ {
        Ok(())
    } else {
        Err(
            ErrorView::ProtocolViolation(
                "First message was not a logon, got: "@ + msg.msg_type(),
            ),
        )
    }
}

/// The text of a header field of a Logon.
pub open spec fn logon_field(msg: BuilderView, tag: u32, name: Seq<char>) -> std::result::Result<
    Seq<char>,
    ErrorView,
> {
    match field_of(msg.header, tag) {
        Some(v) => Ok(v.text()),
        None => Err(ErrorView::ProtocolViolation("Logon message missing "@ + name)),
    }
}

/// Our session identity from a peer's Logon: the peer's sender is our target,
/// and the other way round.
pub open spec fn identity_in(logon: BuilderView) -> std::result::Result<IdView, ErrorView> {
    match logon_field(logon, BEGIN_STRING, "BeginString"@) {
        Err(e) => Err(e),
        Ok(begin_string) => match logon_field(logon, TARGET_COMP_ID, "TargetCompID"@) {
            Err(e) => Err(e),
            Ok(sender_comp_id) => match logon_field(logon, SENDER_COMP_ID, "SenderCompID"@) {
                Err(e) => Err(e),
                Ok(target_comp_id) => Ok(IdView { begin_string, sender_comp_id, target_comp_id }),
            },
        },
    }
}

/// Read a first frame as a Logon.
pub open spec fn logon_in(msg: MessageView) -> std::result::Result<BuilderView, ErrorView> {
    match taken_apart(msg) {
        Err(e) => Err(e),
        Ok(logon) => match logon_check(logon) {
            Err(e) => Err(e),
            Ok(_) => Ok(logon),
        },
    }
}

/// An initiator announces the session and puts its Logon on the wire.
pub open spec fn initiate(id: IdView, session: SessionView, now: nat) -> Run<StateView> {
    let s = StateView::initial(id, session, now);
    Run::event(s, EventView::ConnectionEstablished).followed_by(s.send_logon())
}

impl StateView {
    /// Put our Logon on the wire.
    pub open spec fn send_logon(self) -> Run<StateView> {
        match logon_for(self.session) {
            Err(e) => Run::fail(self, e),
            Ok(m) => self.transmit(m),
        }
    }

    /// The peer's Logon completes an initiator's exchange.
    pub open spec fn complete(self, msg: MessageView) -> Run<StateView> {
        match logon_in(msg) {
            Err(e) => Run::fail(self, e),
            Ok(logon) => Run::event(
                self,
                EventView::RawMessageReceived(msg, self.session),
            ).followed_by(self.start(logon)),
        }
    }

    /// An acceptor announces the session, reports the Logon that opened it, and
    /// answers it. The peer's Logon is reported before the reply goes out: an
    /// application persisting from these events must see what arrived before
    /// what it answered with.
    pub open spec fn accept(self, logon: BuilderView, raw: MessageView) -> Run<StateView> {
        let told = Run::event(self, EventView::ConnectionEstablished).followed_by(
            Run::event(self, EventView::RawMessageReceived(raw, self.session)),
        );
        let replied = told.followed_by(self.send_logon());
        replied.followed_by(replied.end.start(logon))
    }
}

/// A first frame that is no Logon is refused, by either side, before anything is
/// put out for it.
pub proof fn law_a_first_frame_that_is_no_logon_is_refused_silently(
    s: StateView,
    msg: MessageView,
    m: BuilderView,
)
    requires
        taken_apart(msg) == Ok::<BuilderView, ErrorView>(m),
        m.msg_type() != "A"@,
    ensures
        s.complete(msg).outputs.len() == 0,
        s.complete(msg).end == s,
        s.complete(msg).result matches Err(ErrorView::ProtocolViolation(_)),
        logon_in(msg) is Err,
{
}

/// An acceptor reports the Logon that opened the session before it answers it,
/// and says nothing about the session before that but that it exists.
pub proof fn law_acceptor_reports_before_answering(
    s: StateView,
    logon: BuilderView,
    raw: MessageView,
)
    ensures
        ({
            let run = s.accept(logon, raw);
            &&& run.outputs.len() >= 2
            &&& run.outputs[0] == (
                crate::session::types::Output::Event(EventView::ConnectionEstablished),
                s,
            )
            &&& run.outputs[1] == (
                crate::session::types::Output::Event(
                    EventView::RawMessageReceived(raw, s.session),
                ),
                s,
            )
        }),
{
}

/// The two sides of a connection name it the same way round: what one holds as
/// sender, the other holds as target.
pub proof fn law_identities_mirror(logon: BuilderView, sender: Seq<char>, target: Seq<char>)
    requires
        identity_in(logon) is Ok,
        logon_field(logon, SENDER_COMP_ID, "SenderCompID"@) == Ok::<Seq<char>, ErrorView>(sender),
        logon_field(logon, TARGET_COMP_ID, "TargetCompID"@) == Ok::<Seq<char>, ErrorView>(target),
    ensures
        identity_in(logon)->Ok_0.sender_comp_id == target,
        identity_in(logon)->Ok_0.target_comp_id == sender,
{
}

// ---------------------------------------------------------------------------
// Shared protocol helpers
// ---------------------------------------------------------------------------

/// Build a Logon carrying the session's negotiated settings.
pub fn logon_message(session: &Session) -> (r: Result<Message>)
    ensures
        match logon_for(session@) {
            Ok(v) => r matches Ok(m) && m.wf() && m@ == v,
            Err(e) => r matches Err(err) && err@ == e,
        },
{
    let mut logon = match Message::new(session.fix_version.clone(), "A") {
        Ok(m) => m,
        Err(e) => {
            return Err(e);
        },
    };
    assert(Ok::<BuilderView, ErrorView>(logon@) == new_message(session@.fix_version, "A"@));
    let secs = decimal_string(session.heartbeat_interval.as_secs());
    logon.body.set_tag(HEART_BT_INT, secs);
    if logon.fix_message.is_member(&session.fix_version, DEFAULT_APPL_VER_ID) {
        logon.body.set_tag(DEFAULT_APPL_VER_ID, "10");
    }
    logon.body.set_tag(ENCRYPT_METHOD, "0");
    Ok(logon)
}

fn tag(msg: &Message, id: u32, name: &str) -> (r: Result<String>)
    requires
        msg.wf(),
    ensures
        match logon_field(msg@, id, name@) {
            Ok(t) => r matches Ok(s) && s@ == t,
            Err(e) => r matches Err(err) && err@ == e,
        },
{
    match msg.header.tag(id) {
        Some(v) => Ok(v.as_string()),
        None => {
            let reason = joined("Logon message missing ", name);
            Err(Error::protocol_violation(reason.as_str()))
        },
    }
}

/// Derive our session identity from a peer's Logon.
///
/// The peer's `SenderCompID` is our `TargetCompID` and vice versa — the
/// identity is always expressed from the point of view of the side holding it.
pub fn session_id_from_logon(logon: &Message) -> (r: Result<SessionIdentifier>)
    requires
        logon.wf(),
    ensures
        match identity_in(logon@) {
            Ok(v) => r matches Ok(id) && id@ == v,
            Err(e) => r matches Err(err) && err@ == e,
        },
{
    let begin_string = match tag(logon, BEGIN_STRING, "BeginString") {
        Ok(s) => s,
        Err(e) => {
            return Err(e);
        },
    };
    let sender_comp_id = match tag(logon, TARGET_COMP_ID, "TargetCompID") {
        Ok(s) => s,
        Err(e) => {
            return Err(e);
        },
    };
    let target_comp_id = match tag(logon, SENDER_COMP_ID, "SenderCompID") {
        Ok(s) => s,
        Err(e) => {
            return Err(e);
        },
    };
    Ok(SessionIdentifier { begin_string, sender_comp_id, target_comp_id })
}

/// Reject anything that is not a Logon(35=A).
pub fn expect_logon(msg: &Message) -> (r: Result<()>)
    ensures
        match logon_check(msg@) {
            Ok(_) => r is Ok,
            Err(e) => r matches Err(err) && err@ == e,
        },
{
    let t = msg.fix_message.msg_type.as_str();
    if !text_eq(t, "A") {
        let reason = joined("First message was not a logon, got: ", t);
        return Err(Error::protocol_violation(reason.as_str()));
    }
    Ok(())
}

fn read_logon(msg: &FixMessage) -> (r: Result<Message>)
    ensures
        match logon_in(msg@) {
            Ok(v) => r matches Ok(m) && m.wf() && m@ == v,
            Err(e) => r matches Err(err) && err@ == e,
        },
{
    let logon = match Message::from_message(msg) {
        Ok(m) => m,
        Err(e) => {
            return Err(e);
        },
    };
    match expect_logon(&logon) {
        Ok(_) => Ok(logon),
        Err(e) => Err(e),
    }
}

/// Whether the exchange has taken too long.
pub open spec fn overdue(deadline: nat, now: nat) -> std::result::Result<(), ErrorView> {
    if now >= deadline {
        Err(ErrorView::ConnectionFailed("logon exchange did not complete in time"@))
    } else {
        Ok(())
    }
}

fn expired(deadline: Instant, now: Instant) -> (r: Result<()>)
    ensures
        match overdue(deadline@, now@) {
            Ok(_) => r is Ok,
            Err(e) => r matches Err(err) && err@ == e,
        },
{
    if now.reached(deadline) {
        return Err(Error::connection_failed("logon exchange did not complete in time"));
    }
    Ok(())
}

/// A completed logon exchange: the session, and whether it survived it.
///
/// `progress` is [`Progress::Close`] when the session ended during the exchange
/// — a Logon whose sequence number is too low, say, which is answered with a
/// Logout and terminated. The state comes back even then, because the
/// application still has to be given its handle: the events explaining *why* it
/// ended have already been emitted, and dropping the handle would strand them.
#[must_use]
pub struct Established {
    pub state: Box<SessionState>,
    pub progress: Progress,
}

// ---------------------------------------------------------------------------
// Initiator
// ---------------------------------------------------------------------------

/// The logon exchange from the side that opened the connection.
pub struct InitiatorHandshake {
    /// Exists from the start: the identity was never in doubt, and sending our
    /// Logon consumed an outbound sequence number.
    pub state: Box<SessionState>,
    pub deadline: Instant,
}

impl InitiatorHandshake {
    pub open spec fn wf(&self) -> bool {
        self.state.wf()
    }

    /// Announce the session and put our Logon on the wire.
    pub fn start<O: SessionOutput>(
        session_id: SessionIdentifier,
        session: Session,
        logon_timeout: Duration,
        now: Instant,
        out: &mut O,
    ) -> (r: Result<Self>)
        ensures
            ({
                let run = initiate(session_id@, session@, now@);
                match r {
                    Ok(h) => h.wf() && h.deadline@ == after(now@, logon_timeout@) && realises(
                        run,
                        *old(out),
                        *final(out),
                        h.state@,
                        Ok(Progress::Continue),
                    ),
                    Err(e) => failed(run, *old(out), *final(out), e),
                }
            }),
    {
        let ghost t0 = *out;
        let ghost s0 = StateView::initial(session_id@, session@, now@);
        let ghost first = Run::event(s0, EventView::ConnectionEstablished);
        let ghost rest = s0.send_logon();
        let ghost run = initiate(session_id@, session@, now@);
        // The connection already exists and the identity is known, so the
        // session can be announced before anything is exchanged.
        let reported = out.event(Event::ConnectionEstablished);
        let ghost t1 = *out;
        match reported {
            Ok(_) => {},
            Err(e) => {
                proof {
                    lemma_realises_event::<StateView, O>(
                        s0,
                        EventView::ConnectionEstablished,
                        t0,
                        t1,
                        reported,
                        Err(e),
                    );
                    lemma_realises_stop(first, rest, t0, t1, s0, Err(e));
                    assert(realises(run, t0, t1, s0, Err(e)));
                }
                return Err(e);
            },
        }
        proof {
            lemma_realises_event::<StateView, O>(
                s0,
                EventView::ConnectionEstablished,
                t0,
                t1,
                reported,
                Ok(Progress::Continue),
            );
        }
        let logon = match logon_message(&session) {
            Ok(m) => m,
            Err(e) => {
                proof {
                    lemma_realises_done::<StateView, O>(s0, t1, rest.result, Err(e));
                    lemma_realises_then(
                        first,
                        rest,
                        t0,
                        t1,
                        t1,
                        s0,
                        s0,
                        Ok(Progress::Continue),
                        Err(e),
                    );
                    assert(realises(run, t0, t1, s0, Err(e)));
                }
                return Err(e);
            },
        };
        let mut state = SessionState::new(session_id, session, now);
        let sent = state.send_logon(logon, out);
        proof {
            lemma_realises_then(
                first,
                rest,
                t0,
                t1,
                *out,
                s0,
                state@,
                Ok(Progress::Continue),
                going_on(sent),
            );
        }
        match sent {
            Ok(_) => Ok(
                InitiatorHandshake { state: Box::new(state), deadline: now.plus(logon_timeout) },
            ),
            Err(e) => {
                assert(realises(run, t0, *out, state@, Err(e)));
                Err(e)
            },
        }
    }

    /// When the peer's Logon must have arrived by.
    pub fn deadline(&self) -> (r: Instant)
        ensures
            r == self.deadline,
    {
        self.deadline
    }

    /// Give up if the peer has taken too long.
    pub fn on_timeout(&self, now: Instant) -> (r: Result<()>)
        ensures
            match overdue(self.deadline@, now@) {
                Ok(_) => r is Ok,
                Err(e) => r matches Err(err) && err@ == e,
            },
    {
        expired(self.deadline, now)
    }

    /// The peer's Logon completes the exchange.
    pub fn on_peer_logon<O: SessionOutput>(self, msg: FixMessage, now: Instant, out: &mut O) -> (r:
        Result<Established>)
        requires
            self.wf(),
        ensures
            ({
                let run = self.state@.complete(msg@);
                match r {
                    Ok(e) => e.state.wf() && realises(
                        run,
                        *old(out),
                        *final(out),
                        e.state@,
                        Ok(e.progress),
                    ),
                    Err(e) => failed(run, *old(out), *final(out), e),
                }
            }),
    {
        let ghost s0 = self.state@;
        let ghost t0 = *out;
        let ghost run = s0.complete(msg@);
        let logon = match read_logon(&msg) {
            Ok(m) => m,
            Err(e) => {
                proof {
                    lemma_realises_done::<StateView, O>(s0, t0, run.result, Err(e));
                    assert(realises(run, t0, t0, s0, Err(e)));
                }
                return Err(e);
            },
        };
        let ghost event = EventView::RawMessageReceived(msg@, s0.session);
        let ghost first = Run::event(s0, event);
        let ghost rest = s0.start(logon@);
        assert(run == first.followed_by(rest));
        let reported = out.event(Event::RawMessageReceived(&msg, self.state.session()));
        let ghost t1 = *out;
        match reported {
            Ok(_) => {},
            Err(e) => {
                proof {
                    lemma_realises_event::<StateView, O>(s0, event, t0, t1, reported, Err(e));
                    lemma_realises_stop(first, rest, t0, t1, s0, Err(e));
                    assert(realises(run, t0, t1, s0, Err(e)));
                }
                return Err(e);
            },
        }
        let mut state = self.state;
        let started = state.start(logon, now, out);
        proof {
            lemma_realises_event::<StateView, O>(
                s0,
                event,
                t0,
                t1,
                reported,
                Ok(Progress::Continue),
            );
            lemma_realises_then(
                first,
                rest,
                t0,
                t1,
                *out,
                s0,
                state@,
                Ok(Progress::Continue),
                started,
            );
        }
        match started {
            Ok(progress) => Ok(Established { state, progress }),
            Err(e) => {
                assert(realises(run, t0, *out, state@, Err(e)));
                Err(e)
            },
        }
    }
}

// ---------------------------------------------------------------------------
// Acceptor
// ---------------------------------------------------------------------------

/// The peer's Logon, in both the forms still needed: parsed, to feed the
/// session, and as it arrived, to report as `RawMessageReceived`.
pub struct PendingLogon {
    pub session_id: SessionIdentifier,
    pub logon: Message,
    pub raw: FixMessage,
}

/// The logon exchange from the side that answered the connection.
pub struct AcceptorHandshake {
    pub deadline: Instant,
    /// Set once the peer has named a session.
    pub pending: Option<PendingLogon>,
}

/// An [`AcceptorHandshake`] by what it knows.
pub ghost struct AcceptorView {
    pub deadline: nat,
    /// Who the peer is to us, its Logon, and the frame it came in.
    pub pending: Option<(IdView, BuilderView, MessageView)>,
}

impl View for AcceptorHandshake {
    type V = AcceptorView;

    open spec fn view(&self) -> AcceptorView {
        AcceptorView {
            deadline: self.deadline@,
            pending: match self.pending {
                Some(p) => Some((p.session_id@, p.logon@, p.raw@)),
                None => None,
            },
        }
    }
}

impl AcceptorView {
    /// What a first frame makes of the exchange.
    pub open spec fn identified(self, msg: MessageView) -> std::result::Result<
        AcceptorView,
        ErrorView,
    > {
        if self.pending is Some {
            Err(
                ErrorView::ProtocolViolation(
                    "peer sent a second message before the session was accepted"@,
                ),
            )
        } else {
            match logon_in(msg) {
                Err(e) => Err(e),
                Ok(logon) => match identity_in(logon) {
                    Err(e) => Err(e),
                    Ok(id) => Ok(AcceptorView { pending: Some((id, logon, msg)), ..self }),
                },
            }
        }
    }
}

impl AcceptorHandshake {
    pub open spec fn wf(&self) -> bool {
        self.pending matches Some(p) ==> p.logon.wf()
    }

    /// Wait for the peer to introduce itself. Nothing is sent.
    pub fn new(logon_timeout: Duration, now: Instant) -> (r: Self)
        ensures
            r.wf(),
            r@ == (AcceptorView { deadline: after(now@, logon_timeout@), pending: None }),
    {
        AcceptorHandshake { deadline: now.plus(logon_timeout), pending: None }
    }

    /// When the peer's Logon must have arrived by.
    pub fn deadline(&self) -> (r: Instant)
        ensures
            r == self.deadline,
    {
        self.deadline
    }

    /// Give up if the peer has taken too long.
    pub fn on_timeout(&self, now: Instant) -> (r: Result<()>)
        ensures
            match overdue(self@.deadline, now@) {
                Ok(_) => r is Ok,
                Err(e) => r matches Err(err) && err@ == e,
            },
    {
        expired(self.deadline, now)
    }

    /// Read the peer's Logon and work out which session it names.
    ///
    /// There is deliberately no [`SessionOutput`] here. Until this returns there
    /// is no session, so there is nothing an event could be *about* — and a
    /// first frame that turns out not to be a Logon must be refused without the
    /// application having been told anything about it at all.
    pub fn identify(&mut self, msg: FixMessage) -> (r: Result<&SessionIdentifier>)
        requires
            old(self).wf(),
        ensures
            final(self).wf(),
            match old(self)@.identified(msg@) {
                Ok(v) => final(self)@ == v && (r matches Ok(id) && id@ == (v.pending->0).0),
                Err(e) => final(self)@ == old(self)@ && (r matches Err(err) && err@ == e),
            },
    {
        if self.pending.is_some() {
            return Err(
                Error::protocol_violation(
                    "peer sent a second message before the session was accepted",
                ),
            );
        }
        // Checked before anything is derived from the message, so a peer
        // opening with garbage cannot cause an identity to be read out of it.

        let logon = match read_logon(&msg) {
            Ok(m) => m,
            Err(e) => {
                return Err(e);
            },
        };
        let session_id = match session_id_from_logon(&logon) {
            Ok(id) => id,
            Err(e) => {
                return Err(e);
            },
        };
        self.pending = Some(PendingLogon { session_id, logon, raw: msg });
        match &self.pending {
            Some(p) => Ok(&p.session_id),
            None => Err(Error::protocol_violation("no session was named")),
        }
    }

    /// The session this connection named, once [`identify`](Self::identify) has
    /// run.
    pub fn session_id(&self) -> (r: Option<&SessionIdentifier>)
        ensures
            match r {
                Some(id) => self@.pending matches Some(p) && id@ == p.0,
                None => self@.pending is None,
            },
    {
        match &self.pending {
            Some(p) => Some(&p.session_id),
            None => None,
        }
    }

    /// The peer's Logon, for applications that authenticate on it —
    /// `Username`/`Password`, or whatever else the peer put in there. Available
    /// between [`identify`](Self::identify) and [`accept`](Self::accept).
    pub fn peer_logon(&self) -> (r: Option<&Message>)
        requires
            self.wf(),
        ensures
            match r {
                Some(m) => m.wf() && (self@.pending matches Some(p) && m@ == p.1),
                None => self@.pending is None,
            },
    {
        match &self.pending {
            Some(p) => Some(&p.logon),
            None => None,
        }
    }

    /// Supply the sequence numbers persisted for the identified session.
    pub fn accept<O: SessionOutput>(self, session: Session, now: Instant, out: &mut O) -> (r:
        Result<Established>)
        requires
            self.wf(),
        ensures
            match self@.pending {
                None => {
                    &&& r matches Err(e) && e@ == ErrorView::ProtocolViolation(
                        "accept called before the peer identified itself"@,
                    )
                    &&& *final(out) == *old(out)
                },
                Some((id, logon, raw)) => {
                    let run = StateView::initial(id, session@, now@).accept(logon, raw);
                    match r {
                        Ok(e) => e.state.wf() && realises(
                            run,
                            *old(out),
                            *final(out),
                            e.state@,
                            Ok(e.progress),
                        ),
                        Err(e) => failed(run, *old(out), *final(out), e),
                    }
                },
            },
    {
        let pending = match self.pending {
            Some(p) => p,
            None => {
                return Err(
                    Error::protocol_violation("accept called before the peer identified itself"),
                );
            },
        };
        let ghost s0 = StateView::initial(pending.session_id@, session@, now@);
        let ghost t0 = *out;
        let ghost e1 = EventView::ConnectionEstablished;
        let ghost e2 = EventView::RawMessageReceived(pending.raw@, s0.session);
        let ghost r1 = Run::event(s0, e1);
        let ghost r2 = Run::event(s0, e2);
        let ghost told = r1.followed_by(r2);
        let ghost reply_run = s0.send_logon();
        let ghost replied = told.followed_by(reply_run);
        let ghost rest = replied.end.start(pending.logon@);
        let ghost run = s0.accept(pending.logon@, pending.raw@);
        assert(run == replied.followed_by(rest));
        // Only now is there a session to attach anything to.
        let reported = out.event(Event::ConnectionEstablished);
        let ghost t1 = *out;
        match reported {
            Ok(_) => {},
            Err(e) => {
                proof {
                    lemma_realises_event::<StateView, O>(s0, e1, t0, t1, reported, Err(e));
                    lemma_realises_stop(r1, r2, t0, t1, s0, Err(e));
                    lemma_realises_stop(told, reply_run, t0, t1, s0, Err(e));
                    lemma_realises_stop(replied, rest, t0, t1, s0, Err(e));
                    assert(realises(run, t0, t1, s0, Err(e)));
                }
                return Err(e);
            },
        }
        proof {
            lemma_realises_event::<StateView, O>(
                s0,
                e1,
                t0,
                t1,
                reported,
                Ok(Progress::Continue),
            );
        }
        let mut state = SessionState::new(pending.session_id, session, now);
        let reported = out.event(Event::RawMessageReceived(&pending.raw, state.session()));
        let ghost t2 = *out;
        let told_result: Result<Progress> = match reported {
            Ok(_) => Ok(Progress::Continue),
            Err(e) => Err(e),
        };
        proof {
            lemma_realises_event::<StateView, O>(s0, e2, t1, t2, reported, told_result);
            lemma_realises_then(
                r1,
                r2,
                t0,
                t1,
                t2,
                s0,
                s0,
                Ok(Progress::Continue),
                told_result,
            );
        }
        match told_result {
            Ok(_) => {},
            Err(e) => {
                proof {
                    lemma_realises_stop(told, reply_run, t0, t2, s0, Err(e));
                    lemma_realises_stop(replied, rest, t0, t2, s0, Err(e));
                    assert(realises(run, t0, t2, s0, Err(e)));
                }
                return Err(e);
            },
        }
        let reply = match logon_message(state.session()) {
            Ok(m) => m,
            Err(e) => {
                proof {
                    lemma_realises_done::<StateView, O>(s0, t2, reply_run.result, Err(e));
                    lemma_realises_then(
                        told,
                        reply_run,
                        t0,
                        t2,
                        t2,
                        s0,
                        s0,
                        Ok(Progress::Continue),
                        Err(e),
                    );
                    lemma_realises_stop(replied, rest, t0, t2, s0, Err(e));
                    assert(realises(run, t0, t2, s0, Err(e)));
                }
                return Err(e);
            },
        };
        let sent = state.send_logon(reply, out);
        let ghost t3 = *out;
        let ghost s3 = state@;
        proof {
            lemma_realises_then(
                told,
                reply_run,
                t0,
                t2,
                t3,
                s0,
                s3,
                Ok(Progress::Continue),
                going_on(sent),
            );
        }
        match sent {
            Ok(_) => {},
            Err(e) => {
                proof {
                    lemma_realises_stop(replied, rest, t0, t3, s3, Err(e));
                    assert(realises(run, t0, t3, s3, Err(e)));
                }
                return Err(e);
            },
        }
        assert(s3 == replied.end);
        let started = state.start(pending.logon, now, out);
        proof {
            lemma_realises_then(
                replied,
                rest,
                t0,
                t3,
                *out,
                s3,
                state@,
                Ok(Progress::Continue),
                started,
            );
        }
        match started {
            Ok(progress) => Ok(Established { state: Box::new(state), progress }),
            Err(e) => {
                assert(realises(run, t0, *out, state@, Err(e)));
                Err(e)
            },
        }
    }
}

} // verus!
