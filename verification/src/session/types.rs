//! What goes into a session and what comes out of it.

use std::sync::Arc;

use vstd::prelude::*;
use vstd::string::*;

use crate::builder::message::BuilderView;
use crate::builder::Message;
use crate::clock::Duration;
use crate::error::{Error, ErrorView, Result};
use crate::message::{FixMessage, MessageView};
use crate::repository::FixVersion;
use crate::time::TimePrecision;

verus! {

/// Identifies a session by the triple FIX uses to route messages.
#[derive(Debug, Clone, PartialEq, Eq, Hash)]
pub struct SessionIdentifier {
    pub begin_string: String,
    /// Our `SenderCompID` — the identifier we put on outbound messages.
    pub sender_comp_id: String,
    /// The peer's `SenderCompID` — our `TargetCompID`.
    pub target_comp_id: String,
}

/// A [`SessionIdentifier`] by what it says.
pub ghost struct IdView {
    pub begin_string: Seq<char>,
    pub sender_comp_id: Seq<char>,
    pub target_comp_id: Seq<char>,
}

impl View for SessionIdentifier {
    type V = IdView;

    open spec fn view(&self) -> IdView {
        IdView {
            begin_string: self.begin_string@,
            sender_comp_id: self.sender_comp_id@,
            target_comp_id: self.target_comp_id@,
        }
    }
}

/// The mutable per-connection state an application must persist to recover a
/// session: the sequence numbers, plus the negotiated settings.
pub struct Session {
    pub next_out_seq_num: u32,
    pub next_in_seq_num: u32,
    pub heartbeat_interval: Duration,
    pub fix_version: Arc<FixVersion>,
    /// Fractional-second precision for the `SendingTime` stamped on outbound
    /// messages. Defaults to nanoseconds.
    ///
    /// Some counterparties reject a `SendingTime` carrying more precision than
    /// they expect, so this is per-session rather than global.
    pub time_precision: TimePrecision,
}

/// A [`Session`] by what it says.
pub ghost struct SessionView {
    pub next_out: u32,
    pub next_in: u32,
    pub heartbeat: nat,
    pub fix_version: FixVersion,
    pub time_precision: TimePrecision,
}

impl View for Session {
    type V = SessionView;

    open spec fn view(&self) -> SessionView {
        SessionView {
            next_out: self.next_out_seq_num,
            next_in: self.next_in_seq_num,
            heartbeat: self.heartbeat_interval@,
            fix_version: *self.fix_version,
            time_precision: self.time_precision,
        }
    }
}

impl Session {
    pub fn new(fix_version: Arc<FixVersion>) -> (r: Self)
        ensures
            r@ == (SessionView {
                next_out: 1,
                next_in: 1,
                heartbeat: 30_000_000_000,
                fix_version: *fix_version,
                time_precision: TimePrecision::Nanos,
            }),
            r.fix_version == fix_version,
    {
        Session {
            next_out_seq_num: 1,
            next_in_seq_num: 1,
            heartbeat_interval: Duration::from_secs(30),
            fix_version,
            time_precision: TimePrecision::Nanos,
        }
    }
}

impl Clone for Session {
    fn clone(&self) -> (r: Self)
        ensures
            r@ == self@,
            r.fix_version == self.fix_version,
    {
        Session {
            next_out_seq_num: self.next_out_seq_num,
            next_in_seq_num: self.next_in_seq_num,
            heartbeat_interval: self.heartbeat_interval,
            fix_version: self.fix_version.clone(),
            time_precision: self.time_precision,
        }
    }
}

/// Something the application asks of a live session.
///
/// Note there is no "get session state" command: the state is right there, via
/// [`SessionState::session`](crate::session::SessionState::session).
#[non_exhaustive]
pub enum Command {
    /// Send the message on the session. It is assigned the next outbound
    /// sequence number and has its session header fields populated. Any
    /// supplied `MsgSeqNum`, `SendingTime`, `SenderCompID` or `TargetCompID` is
    /// overwritten — applications cannot set these correctly, so they are left
    /// to the session.
    ///
    /// While a replay is in progress the message waits for its end.
    Send(Message),
    /// Replay the sequence number in `MsgSeqNum` with the supplied message.
    /// Only valid between an [`Event::ResendRequest`] and the matching
    /// [`Command::ReplayComplete`].
    Replay(Message),
    /// All messages for the current resend request have been sent. Any
    /// remaining sequence numbers are gap-filled automatically.
    ReplayComplete,
    /// Disconnect the session, announcing the intent with a Logout first.
    Disconnect,
}

/// A [`Command`] by what it says.
pub ghost enum CommandView {
    Send(BuilderView),
    Replay(BuilderView),
    ReplayComplete,
    Disconnect,
}

impl View for Command {
    type V = CommandView;

    open spec fn view(&self) -> CommandView {
        match self {
            Command::Send(m) => CommandView::Send(m@),
            Command::Replay(m) => CommandView::Replay(m@),
            Command::ReplayComplete => CommandView::ReplayComplete,
            Command::Disconnect => CommandView::Disconnect,
        }
    }
}

impl Command {
    pub open spec fn wf(&self) -> bool {
        match self {
            Command::Send(m) => m.wf(),
            Command::Replay(m) => m.wf(),
            _ => true,
        }
    }
}

/// Something the session tells the application about.
///
/// Every payload is borrowed. A driver that wants owned events copies on the
/// way past; one that just wants to write bytes to a journal copies nothing.
#[non_exhaustive]
pub enum Event<'a> {
    /// A connection exists, but no logon exchange has happened yet.
    ConnectionEstablished,
    /// The peer has retransmitted everything we were missing. Note this says
    /// nothing about whether the peer has received, or even asked for, anything
    /// it is missing from us.
    RecoveryCompleted,
    /// The current sequence numbers. Applications must persist these to recover
    /// the session; they are what an acceptor supplies when a peer reconnects.
    SessionState(&'a Session),
    /// A FIX message arrived, valid or not, admin or application. Useful for
    /// auditing and display. Business logic wants [`Event::MessageReceived`],
    /// which fires only for valid, well-sequenced application messages.
    RawMessageReceived(&'a FixMessage, &'a Session),
    /// A FIX message was handed to the transport, admin messages included. The
    /// `SendingTime` has already been stamped by the [`SessionOutput`], so this
    /// is the message as it goes on the wire.
    ///
    /// Applications must persist these unmodified to answer a future
    /// [`Event::ResendRequest`]; this library provides no persistence of its
    /// own.
    RawMessageSent(&'a FixMessage, &'a Session),
    /// A valid, in-sequence application message. This is what business logic
    /// should act on.
    ///
    /// Replayed messages are delivered before new ones, so applications never
    /// see these out of order — beyond noticing that the peer may have set
    /// `PossDupFlag`.
    MessageReceived(&'a Message),
    /// The peer asked for a retransmission of `begin_seq_no..=end_seq_no`.
    /// `end_seq_no` is always concrete, even when the peer sent an open-ended
    /// request.
    ///
    /// Answer with [`Command::Replay`] for each message, then
    /// [`Command::ReplayComplete`]. Skipped sequence numbers are gap-filled
    /// automatically, so an application may decline to replay a message — a
    /// stale order, say — without breaking the sequence.
    ResendRequest { resend_request: &'a Message, begin_seq_no: u32, end_seq_no: u32 },
    /// The session has ended, through logout or a network failure.
    Disconnected,
}

/// An [`Event`] by what it says.
pub ghost enum EventView {
    ConnectionEstablished,
    RecoveryCompleted,
    SessionState(SessionView),
    RawMessageReceived(MessageView, SessionView),
    RawMessageSent(MessageView, SessionView),
    MessageReceived(BuilderView),
    ResendRequest(BuilderView, u32, u32),
    Disconnected,
}

impl<'a> View for Event<'a> {
    type V = EventView;

    open spec fn view(&self) -> EventView {
        match self {
            Event::ConnectionEstablished => EventView::ConnectionEstablished,
            Event::RecoveryCompleted => EventView::RecoveryCompleted,
            Event::SessionState(s) => EventView::SessionState(s@),
            Event::RawMessageReceived(m, s) => EventView::RawMessageReceived(m@, s@),
            Event::RawMessageSent(m, s) => EventView::RawMessageSent(m@, s@),
            Event::MessageReceived(m) => EventView::MessageReceived(m@),
            Event::ResendRequest { resend_request, begin_seq_no, end_seq_no } => {
                EventView::ResendRequest(resend_request@, *begin_seq_no, *end_seq_no)
            },
            Event::Disconnected => EventView::Disconnected,
        }
    }
}

impl<'a> Event<'a> {
    /// The messages in the event are in order.
    pub open spec fn wf(&self) -> bool {
        match self {
            Event::MessageReceived(m) => m.wf(),
            Event::ResendRequest { resend_request, .. } => resend_request.wf(),
            _ => true,
        }
    }
}

/// What an output says to something it is handed: it accepts it, or refuses it
/// with an error.
pub type Answer = std::result::Result<(), ErrorView>;

pub open spec fn answer_of(r: Result<()>) -> Answer {
    match r {
        Ok(_) => Ok(()),
        Err(e) => Err(e@),
    }
}

/// One call of a [`SessionOutput`], and what it answered.
pub ghost enum Call {
    /// A message as it was handed over, and as it was left.
    Transmit { msg: MessageView, left: MessageView, session: SessionView, answer: Answer },
    Event { event: EventView, answer: Answer },
}

impl Call {
    pub open spec fn answer(self) -> Answer {
        match self {
            Call::Transmit { answer, .. } => answer,
            Call::Event { answer, .. } => answer,
        }
    }

    pub open spec fn accepted(self) -> bool {
        self.answer() is Ok
    }
}

/// Where a [`SessionState`](crate::session::SessionState) puts the messages and
/// events it produces.
///
/// The driver implements this. A low-latency driver encodes straight into the
/// buffer it is about to hand to `write()`; an asynchronous one copies events
/// into owned form and pushes them at the application.
pub trait SessionOutput: Sized {
    /// What the output makes of a message: how the message and the output are
    /// left, and what is answered. An implementation that says nothing of it is
    /// free.
    open spec fn transmits(
        before: Self,
        msg: MessageView,
        session: SessionView,
        left: MessageView,
        after: Self,
        answer: Answer,
    ) -> bool {
        true
    }

    /// What the output makes of an event: how it is left, and what it answers.
    /// An implementation that says nothing of it is free.
    open spec fn hears(before: Self, event: EventView, after: Self, answer: Answer) -> bool {
        true
    }

    /// Stamp `SendingTime`, serialise, and arrange for the bytes to reach the
    /// peer.
    ///
    /// The message arrives with its `SendingTime` slot present but empty; the
    /// implementation fills it in — see
    /// [`stamp_sending_time`](crate::codec::stamp_sending_time) — so the clock
    /// is read once per message, as late as possible, rather than once per pass
    /// over the state machine. The `&mut` is what makes that stamp visible to
    /// the [`Event::RawMessageSent`] that follows.
    ///
    /// `session` is a snapshot taken *for this message*: the outbound sequence
    /// number has already been consumed. A driver must not substitute the
    /// session's later state, or a call emitting several messages would label
    /// them all with the last sequence number.
    fn transmit(&mut self, msg: &mut FixMessage, session: &Session) -> (r: Result<()>)
        requires
            old(msg)@.is_readable(),
        ensures
            Self::transmits(
                *old(self),
                old(msg)@,
                session@,
                final(msg)@,
                *final(self),
                answer_of(r),
            ),
    ;

    /// Report an event to the application.
    fn event(&mut self, event: Event<'_>) -> (r: Result<()>)
        requires
            event.wf(),
        ensures
            Self::hears(*old(self), event@, *final(self), answer_of(r)),
    ;
}

/// The application-facing half of a [`SessionOutput`].
///
/// [`SessionDriver`](crate::driver::SessionDriver) already owns the transport
/// half — the codec and the buffers — so a caller using it only has to say what
/// to do with events.
pub trait EventSink: Sized {
    /// What the sink makes of an event: how it is left, and what it answers. An
    /// implementation that says nothing of it is free.
    open spec fn hears(before: Self, event: EventView, after: Self, answer: Answer) -> bool {
        true
    }

    fn event(&mut self, event: Event<'_>) -> (r: Result<()>)
        requires
            event.wf(),
        ensures
            Self::hears(*old(self), event@, *final(self), answer_of(r)),
    ;
}

/// A sink that is lent out. What it hears is said of the sink behind the
/// reference at the time; what the owner finds once the loan is over is left
/// unsaid. A sink that is handed over instead comes back as it was left.
impl<T: EventSink> EventSink for &mut T {
    open spec fn hears(before: &mut T, event: EventView, after: &mut T, answer: Answer) -> bool {
        T::hears(*before, event, *after, answer)
    }

    fn event(&mut self, event: Event<'_>) -> (r: Result<()>) {
        (**self).event(event)
    }
}

/// Discards every event. Useful for a peer that only cares about the wire.
impl EventSink for () {
    open spec fn hears(before: (), event: EventView, after: (), answer: Answer) -> bool {
        answer is Ok
    }

    fn event(&mut self, _event: Event<'_>) -> (r: Result<()>) {
        Ok(())
    }
}

/// Whether the session is still alive after a call.
///
/// `#[must_use]`: a driver that drops this keeps running a session the protocol
/// has already ended.
#[must_use]
#[derive(Debug, Clone, Copy, PartialEq, Eq, Structural)]
pub enum Progress {
    Continue,
    /// The session is over. Everything emitted during the call — including the
    /// Logout, if there is one — precedes this, so the driver should flush,
    /// then tear the connection down.
    Close,
}

impl Progress {
    pub fn is_close(self) -> (r: bool)
        ensures
            r == (self is Close),
    {
        matches!(self, Progress::Close)
    }
}

// ---------------------------------------------------------------------------
// Runs
// ---------------------------------------------------------------------------

/// Something a state machine is about to put out.
pub ghost enum Output {
    Transmit(MessageView, SessionView),
    /// The report that the message just transmitted went out.
    Sent(SessionView),
    Event(EventView),
}

/// What a call of a state machine does as long as its output is accepted: the
/// output, each item with the state at that moment; the state it ends in; and
/// what it returns.
pub ghost struct Run<S> {
    pub outputs: Seq<(Output, S)>,
    pub end: S,
    pub result: std::result::Result<Progress, ErrorView>,
}

impl<S> Run<S> {
    /// Nothing but a result.
    pub open spec fn done(s: S, result: std::result::Result<Progress, ErrorView>) -> Run<S> {
        Run { outputs: seq![], end: s, result }
    }

    pub open spec fn go(s: S) -> Run<S> {
        Run::done(s, Ok(Progress::Continue))
    }

    pub open spec fn fail(s: S, e: ErrorView) -> Run<S> {
        Run::done(s, Err(e))
    }

    /// One event, and on.
    pub open spec fn event(s: S, event: EventView) -> Run<S> {
        Run {
            outputs: seq![(Output::Event(event), s)],
            end: s,
            result: Ok(Progress::Continue),
        }
    }

    /// This run and then another, unless this one already settles the matter.
    pub open spec fn followed_by(self, next: Run<S>) -> Run<S> {
        if self.result == Ok::<Progress, ErrorView>(Progress::Continue) {
            Run { outputs: self.outputs + next.outputs, end: next.end, result: next.result }
        } else {
            self
        }
    }

    /// The run with another result, where it would otherwise go on.
    pub open spec fn giving(self, progress: Progress) -> Run<S> {
        if self.result == Ok::<Progress, ErrorView>(Progress::Continue) {
            Run { result: Ok(progress), ..self }
        } else {
            self
        }
    }

    /// The run as a part of something larger.
    pub open spec fn within<T>(self, f: spec_fn(S) -> T) -> Run<T> {
        Run {
            outputs: self.outputs.map_values(|o: (Output, S)| (o.0, f(o.1))),
            end: f(self.end),
            result: self.result,
        }
    }
}

/// Call `i` of a trace is the planned one.
pub open spec fn call_is(trace: Seq<Call>, i: int, planned: Output) -> bool {
    match (trace[i], planned) {
        (Call::Transmit { msg, session, .. }, Output::Transmit(m, s)) => msg == m && session == s,
        (Call::Event { event, .. }, Output::Sent(s)) => i > 0 && (trace[i
            - 1] matches Call::Transmit { left, .. } && event == EventView::RawMessageSent(
            left,
            s,
        )),
        (Call::Event { event, .. }, Output::Event(e)) => event == e,
        _ => false,
    }
}

/// `result` is what was planned.
pub open spec fn result_is(
    result: Result<Progress>,
    planned: std::result::Result<Progress, ErrorView>,
) -> bool {
    match planned {
        Ok(p) => result == Ok::<Progress, Error>(p),
        Err(e) => result matches Err(err) && err@ == e,
    }
}

/// The calls of a run were made, one by one. Either all were accepted: then the
/// run is complete, in its state and its result. Or the last one was refused:
/// then the run failed there, in the state of that moment and with the error
/// that the call was refused with.
pub open spec fn carried_out<S>(
    run: Run<S>,
    calls: Seq<Call>,
    state: S,
    result: Result<Progress>,
) -> bool {
    let n = calls.len();
    &&& n <= run.outputs.len()
    &&& forall|i: int| 0 <= i < n ==> call_is(calls, i, (#[trigger] run.outputs[i]).0)
    &&& forall|i: int| 0 <= i < n - 1 ==> (#[trigger] calls[i]).accepted()
    &&& if n > 0 && !calls.last().accepted() {
        state == run.outputs[n - 1].1 && (result matches Err(e) && calls.last().answer()
            == Err::<(), ErrorView>(e@))
    } else {
        n == run.outputs.len() && state == run.end && result_is(result, run.result)
    }
}

/// One call took an output from `before` to `after`.
pub open spec fn link<O: SessionOutput>(call: Call, before: O, after: O) -> bool {
    match call {
        Call::Transmit { msg, left, session, answer } => O::transmits(
            before,
            msg,
            session,
            left,
            after,
            answer,
        ),
        Call::Event { event, answer } => O::hears(before, event, after, answer),
    }
}

/// The first `n` calls took an output from `before` to `after`.
pub open spec fn linked<O: SessionOutput>(calls: Seq<Call>, n: nat, before: O, after: O) -> bool
    decreases n,
{
    if n == 0 {
        before == after
    } else {
        exists|between: O|
            linked(calls, (n - 1) as nat, before, between) && #[trigger] link(
                calls[n - 1],
                between,
                after,
            )
    }
}

/// A run was carried out on an output: it took the output from `before` to
/// `after`, left the state machine in `state`, and returned `result`.
pub open spec fn realises<S, O: SessionOutput>(
    run: Run<S>,
    before: O,
    after: O,
    state: S,
    result: Result<Progress>,
) -> bool {
    exists|calls: Seq<Call>| #[trigger]
        carried_out(run, calls, state, result) && linked(calls, calls.len(), before, after)
}

/// A result that says nothing of whether the session goes on: it does.
pub open spec fn going_on(r: Result<()>) -> Result<Progress> {
    match r {
        Ok(_) => Ok(Progress::Continue),
        Err(e) => Err(e),
    }
}

/// A run that failed, in whatever state.
pub open spec fn failed<S, O: SessionOutput>(run: Run<S>, before: O, after: O, e: Error) -> bool {
    exists|s: S| realises(run, before, after, s, Err(e))
}

proof fn lemma_linked_prefix<O: SessionOutput>(a: Seq<Call>, b: Seq<Call>, n: nat, x: O, y: O)
    requires
        n <= a.len(),
        n <= b.len(),
        forall|i: int| 0 <= i < n ==> a[i] == b[i],
        linked(a, n, x, y),
    ensures
        linked(b, n, x, y),
    decreases n,
{
    if n > 0 {
        let between = choose|between: O|
            linked(a, (n - 1) as nat, x, between) && #[trigger] link(a[n - 1], between, y);
        lemma_linked_prefix(a, b, (n - 1) as nat, x, between);
    }
}

/// Calls after calls.
pub proof fn lemma_linked_concat<O: SessionOutput>(
    a: Seq<Call>,
    b: Seq<Call>,
    n: nat,
    x: O,
    y: O,
    z: O,
)
    requires
        n <= b.len(),
        linked(a, a.len(), x, y),
        linked(b, n, y, z),
    ensures
        linked(a + b, a.len() + n, x, z),
    decreases n,
{
    if n == 0 {
        lemma_linked_prefix(a, a + b, a.len(), x, y);
    } else {
        let between = choose|between: O|
            linked(b, (n - 1) as nat, y, between) && #[trigger] link(b[n - 1], between, z);
        lemma_linked_concat(a, b, (n - 1) as nat, x, y, between);
        assert((a + b)[a.len() + n - 1] == b[n - 1]);
    }
}

/// A single call.
pub proof fn lemma_linked_one<O: SessionOutput>(call: Call, x: O, y: O)
    requires
        link(call, x, y),
    ensures
        linked(seq![call], 1, x, y),
{
    let calls = seq![call];
    assert(linked(calls, 0, x, x));
    assert(calls[0] == call);
    assert(link(calls[1 - 1], x, y));
    assert(linked(calls, (1nat - 1) as nat, x, x));
    assert(linked(calls, 1, x, y));
}

/// Nothing was put out.
pub proof fn lemma_realises_done<S, O: SessionOutput>(
    s: S,
    out: O,
    planned: std::result::Result<Progress, ErrorView>,
    result: Result<Progress>,
)
    requires
        result_is(result, planned),
    ensures
        realises(Run::done(s, planned), out, out, s, result),
{
    let calls = Seq::<Call>::empty();
    assert(linked(calls, 0, out, out));
    assert(carried_out(Run::done(s, planned), calls, s, result));
}

/// One run went all the way, and the next took over.
pub proof fn lemma_realises_then<S, O: SessionOutput>(
    first: Run<S>,
    second: Run<S>,
    t0: O,
    t1: O,
    t2: O,
    s1: S,
    s2: S,
    r1: Result<Progress>,
    r2: Result<Progress>,
)
    requires
        realises(first, t0, t1, s1, r1),
        r1 == Ok::<Progress, Error>(Progress::Continue),
        realises(second, t1, t2, s2, r2),
    ensures
        s1 == first.end,
        realises(first.followed_by(second), t0, t2, s2, r2),
{
    let run = first.followed_by(second);
    let a = choose|calls: Seq<Call>| #[trigger]
        carried_out(first, calls, s1, r1) && linked(calls, calls.len(), t0, t1);
    let b = choose|calls: Seq<Call>| #[trigger]
        carried_out(second, calls, s2, r2) && linked(calls, calls.len(), t1, t2);
    let c = a + b;
    assert(first.result == Ok::<Progress, ErrorView>(Progress::Continue)) by {
        match first.result {
            Ok(p) => {},
            Err(e) => {},
        }
    }
    lemma_linked_concat(a, b, b.len(), t0, t1, t2);
    assert forall|i: int| 0 <= i < c.len() implies call_is(c, i, (#[trigger] run.outputs[i]).0) by {
        if i < a.len() {
            assert(run.outputs[i] == first.outputs[i]);
            assert(call_is(a, i, first.outputs[i].0));
            if i > 0 {
                assert(c[i - 1] == a[i - 1]);
            }
        } else {
            assert(run.outputs[i] == second.outputs[i - a.len()]);
            assert(call_is(b, i - a.len(), second.outputs[i - a.len()].0));
            if i > a.len() {
                assert(c[i - 1] == b[i - 1 - a.len()]);
            }
        }
    }
    assert forall|i: int| 0 <= i < c.len() - 1 implies (#[trigger] c[i]).accepted() by {
        if i < a.len() {
            assert(c[i] == a[i]);
            if i == a.len() - 1 {
                assert(a.last().accepted());
            }
        } else {
            assert(c[i] == b[i - a.len()]);
        }
    }
    if b.len() > 0 {
        assert(c.last() == b.last());
    } else if a.len() > 0 {
        assert(c.last() == a.last());
    }
    assert(carried_out(run, c, s2, r2));
}

/// A run that did not go on, for whatever reason.
pub proof fn lemma_realises_stop<S, O: SessionOutput>(
    first: Run<S>,
    second: Run<S>,
    t0: O,
    t1: O,
    s1: S,
    r1: Result<Progress>,
)
    requires
        realises(first, t0, t1, s1, r1),
        r1 != Ok::<Progress, Error>(Progress::Continue),
    ensures
        realises(first.followed_by(second), t0, t1, s1, r1),
{
    let run = first.followed_by(second);
    let a = choose|calls: Seq<Call>| #[trigger]
        carried_out(first, calls, s1, r1) && linked(calls, calls.len(), t0, t1);
    assert forall|i: int| 0 <= i < a.len() implies call_is(a, i, (#[trigger] run.outputs[i]).0) by {
        assert(run.outputs[i] == first.outputs[i]);
        assert(call_is(a, i, first.outputs[i].0));
    }
    assert(carried_out(run, a, s1, r1));
}

/// A run that was made to give another result.
pub proof fn lemma_realises_giving<S, O: SessionOutput>(
    run: Run<S>,
    progress: Progress,
    t0: O,
    t1: O,
    s: S,
    r: Result<Progress>,
)
    requires
        realises(run, t0, t1, s, r),
    ensures
        r == Ok::<Progress, Error>(Progress::Continue) ==> realises(
            run.giving(progress),
            t0,
            t1,
            s,
            Ok(progress),
        ),
        r is Err ==> realises(run.giving(progress), t0, t1, s, r),
{
    let other = run.giving(progress);
    let a = choose|calls: Seq<Call>| #[trigger]
        carried_out(run, calls, s, r) && linked(calls, calls.len(), t0, t1);
    assert(other.outputs == run.outputs && other.end == run.end);
    assert forall|i: int| 0 <= i < a.len() implies call_is(
        a,
        i,
        (#[trigger] other.outputs[i]).0,
    ) by {
        assert(call_is(a, i, run.outputs[i].0));
    }
    if r == Ok::<Progress, Error>(Progress::Continue) {
        assert(carried_out(other, a, s, Ok(progress)));
    }
    if r is Err {
        assert(carried_out(other, a, s, r));
    }
}

/// One event was reported.
pub proof fn lemma_realises_event<S, O: SessionOutput>(
    s: S,
    event: EventView,
    t0: O,
    t1: O,
    result: Result<()>,
    after: Result<Progress>,
)
    requires
        O::hears(t0, event, t1, answer_of(result)),
        result is Ok ==> after == Ok::<Progress, Error>(Progress::Continue),
        result is Err ==> (after matches Err(e) && e@ == result->Err_0@),
    ensures
        realises(Run::event(s, event), t0, t1, s, after),
{
    let call = Call::Event { event, answer: answer_of(result) };
    lemma_linked_one(call, t0, t1);
    assert(carried_out(Run::event(s, event), seq![call], s, after));
}

/// A message was handed over, and where that was accepted, its going out was
/// reported.
pub proof fn lemma_realises_sent<S, O: SessionOutput>(
    run: Run<S>,
    s: S,
    msg: MessageView,
    left: MessageView,
    session: SessionView,
    t0: O,
    t1: O,
    t2: O,
    sent: Result<()>,
    reported: Result<()>,
    after: Result<Progress>,
)
    requires
        run.outputs == seq![(Output::Transmit(msg, session), s), (Output::Sent(session), s)],
        run.end == s,
        run.result == Ok::<Progress, ErrorView>(Progress::Continue),
        O::transmits(t0, msg, session, left, t1, answer_of(sent)),
        sent is Ok ==> O::hears(
            t1,
            EventView::RawMessageSent(left, session),
            t2,
            answer_of(reported),
        ),
        sent is Err ==> t2 == t1 && (after matches Err(e) && e@ == sent->Err_0@),
        sent is Ok && reported is Ok ==> after == Ok::<Progress, Error>(Progress::Continue),
        sent is Ok && reported is Err ==> (after matches Err(e) && e@ == reported->Err_0@),
    ensures
        realises(run, t0, t2, s, after),
{
    let first = Call::Transmit { msg, left, session, answer: answer_of(sent) };
    lemma_linked_one(first, t0, t1);
    if sent is Err {
        assert(carried_out(run, seq![first], s, after));
    } else {
        let second = Call::Event {
            event: EventView::RawMessageSent(left, session),
            answer: answer_of(reported),
        };
        lemma_linked_one(second, t1, t2);
        lemma_linked_concat(seq![first], seq![second], 1, t0, t1, t2);
        let both = seq![first] + seq![second];
        assert(both[0] == first && both[1] == second);
        assert(carried_out(run, both, s, after));
    }
}

/// What carrying out a run means. Its messages and events are handed over one by
/// one, each as the run has it and in its order; a sent message is reported as the
/// output left it. Where all of them are accepted, the run ends in its state and
/// with its result. The first that is refused ends it there: no other is handed
/// over, the state is that of the moment, and the error is the one it was refused
/// with.
pub proof fn law_what_carrying_out_a_run_means<S>(
    run: Run<S>,
    calls: Seq<Call>,
    state: S,
    result: Result<Progress>,
    i: int,
)
    requires
        carried_out(run, calls, state, result),
    ensures
        calls.len() <= run.outputs.len(),
        0 <= i < calls.len() ==> match run.outputs[i].0 {
            Output::Transmit(m, s) => calls[i] matches Call::Transmit { msg, session, .. } && msg
                == m && session == s,
            Output::Event(e) => calls[i] matches Call::Event { event, .. } && event == e,
            Output::Sent(s) => i > 0 && (calls[i] matches Call::Event { event, .. } && (calls[i
                - 1] matches Call::Transmit { left, .. } && event == EventView::RawMessageSent(
                left,
                s,
            ))),
        },
        0 <= i < calls.len() && calls[i].answer() is Err ==> {
            &&& i == calls.len() - 1
            &&& state == run.outputs[i].1
            &&& result matches Err(e) && calls[i].answer() == Err::<(), ErrorView>(e@)
        },
        (forall|k: int| 0 <= k < calls.len() ==> (#[trigger] calls[k]).answer() is Ok) ==> {
            &&& calls.len() == run.outputs.len()
            &&& state == run.end
            &&& match run.result {
                Ok(p) => result == Ok::<Progress, Error>(p),
                Err(e) => result matches Err(err) && err@ == e,
            }
        },
{
    if 0 <= i < calls.len() {
        assert(call_is(calls, i, run.outputs[i].0));
        if i < calls.len() - 1 {
            assert(calls[i].accepted());
        }
    }
    if calls.len() > 0 {
        assert(calls.last() == calls[calls.len() - 1]);
    }
}

/// What runs are made of: one behind another is both, unless the first does not go
/// on.
pub proof fn law_how_runs_follow_each_other<S>(a: Run<S>, b: Run<S>)
    ensures
        a.result == Ok::<Progress, ErrorView>(Progress::Continue) ==> a.followed_by(b) == (Run {
            outputs: a.outputs + b.outputs,
            end: b.end,
            result: b.result,
        }),
        a.result != Ok::<Progress, ErrorView>(Progress::Continue) ==> a.followed_by(b) == a,
{
}

} // verus!
