//! Output that is collected during a pass and delivered afterwards.
//!
//! [`SessionOutput`] is synchronous, and a socket or a channel often is not. A
//! driver with such ends drains the two queues here after every input, which is
//! what keeps the peer's backpressure connected to the application's: a slow
//! consumer blocks the delivery, which stops the driver reading the socket.

use bytes::BytesMut;
use vstd::prelude::*;

use crate::buffer::{buffer_slice, buffered};
use crate::builder::Message;
use crate::codec::FixEncoder;
use crate::driver::{delimiter_or_default, encoded, encoded_at, Clock};
use crate::error::Result;
use crate::message::{FixMessage, MessageView};
use crate::session::types::{
    answer_of, Answer, Event, EventView, Session, SessionOutput, SessionView,
};
use crate::time::{TimePrecision, UtcTime};

verus! {

/// An owned [`Event`].
pub enum SessionEvent {
    ConnectionEstablished,
    RecoveryCompleted,
    SessionState(Session),
    RawMessageReceived(FixMessage, Session),
    RawMessageSent(FixMessage, Session),
    MessageReceived(Message),
    ResendRequest { resend_request: Message, begin_seq_no: u32, end_seq_no: u32 },
    Disconnected,
}

impl View for SessionEvent {
    type V = EventView;

    open spec fn view(&self) -> EventView {
        match self {
            SessionEvent::ConnectionEstablished => EventView::ConnectionEstablished,
            SessionEvent::RecoveryCompleted => EventView::RecoveryCompleted,
            SessionEvent::SessionState(s) => EventView::SessionState(s@),
            SessionEvent::RawMessageReceived(m, s) => EventView::RawMessageReceived(m@, s@),
            SessionEvent::RawMessageSent(m, s) => EventView::RawMessageSent(m@, s@),
            SessionEvent::MessageReceived(m) => EventView::MessageReceived(m@),
            SessionEvent::ResendRequest { resend_request, begin_seq_no, end_seq_no } => {
                EventView::ResendRequest(resend_request@, *begin_seq_no, *end_seq_no)
            },
            SessionEvent::Disconnected => EventView::Disconnected,
        }
    }
}

impl SessionEvent {
    /// Take an owned copy of a borrowed event.
    pub fn from_core(event: Event<'_>) -> (r: Self)
        requires
            event.wf(),
        ensures
            r@ == event@,
    {
        match event {
            Event::ConnectionEstablished => SessionEvent::ConnectionEstablished,
            Event::RecoveryCompleted => SessionEvent::RecoveryCompleted,
            Event::SessionState(s) => SessionEvent::SessionState(s.clone()),
            Event::RawMessageReceived(m, s) => SessionEvent::RawMessageReceived(
                m.duplicate(),
                s.clone(),
            ),
            Event::RawMessageSent(m, s) => SessionEvent::RawMessageSent(m.duplicate(), s.clone()),
            Event::MessageReceived(m) => SessionEvent::MessageReceived(m.duplicate()),
            Event::ResendRequest { resend_request, begin_seq_no, end_seq_no } => {
                SessionEvent::ResendRequest {
                    resend_request: resend_request.duplicate(),
                    begin_seq_no,
                    end_seq_no,
                }
            },
            Event::Disconnected => SessionEvent::Disconnected,
        }
    }
}

/// Collects what the state machine produces during one synchronous pass, so the
/// driver can deliver it afterwards.
pub struct PendingOutput<C: Clock> {
    pub encoder: FixEncoder,
    /// Encoded bytes waiting to go to the socket.
    pub bytes: BytesMut,
    /// Events waiting to go to the application.
    pub events: Vec<SessionEvent>,
    pub clock: C,
}

pub open spec fn events_view(events: Seq<SessionEvent>) -> Seq<EventView> {
    events.map_values(|e: SessionEvent| e@)
}

impl<C: Clock> PendingOutput<C> {
    pub fn new(delimiter: Option<u8>, precision: TimePrecision, clock: C) -> (r: Self)
        ensures
            r.encoder == (FixEncoder { delimiter: delimiter_or_default(delimiter), precision }),
            buffered(r.bytes) == Seq::<u8>::empty(),
            r.events@.len() == 0,
            r.clock == clock,
    {
        PendingOutput {
            encoder: FixEncoder::new(delimiter).with_precision(precision),
            bytes: BytesMut::new(),
            events: Vec::new(),
            clock,
        }
    }

    /// Take the events that are waiting, oldest first.
    pub fn take_events(&mut self) -> (r: Vec<SessionEvent>)
        ensures
            r == old(self).events,
            final(self).events@.len() == 0,
            final(self).bytes == old(self).bytes,
            final(self).encoder == old(self).encoder,
            final(self).clock == old(self).clock,
    {
        let mut events: Vec<SessionEvent> = Vec::new();
        std::mem::swap(&mut events, &mut self.events);
        events
    }

    /// Take the bytes that are waiting.
    pub fn take_bytes(&mut self) -> (r: BytesMut)
        ensures
            r == old(self).bytes,
            buffered(final(self).bytes) == Seq::<u8>::empty(),
            final(self).events == old(self).events,
            final(self).encoder == old(self).encoder,
            final(self).clock == old(self).clock,
    {
        let mut bytes = BytesMut::new();
        std::mem::swap(&mut bytes, &mut self.bytes);
        bytes
    }

    /// Whether any bytes are waiting.
    pub fn has_bytes(&self) -> (r: bool)
        ensures
            r == (buffered(self.bytes).len() > 0),
    {
        buffer_slice(&self.bytes).len() > 0
    }
}

impl<C: Clock> SessionOutput for PendingOutput<C> {
    /// The message is stamped, and where it can be encoded its bytes join the
    /// queue.
    open spec fn transmits(
        before: Self,
        msg: MessageView,
        session: SessionView,
        left: MessageView,
        after: Self,
        answer: Answer,
    ) -> bool {
        &&& after.encoder == before.encoder
        &&& after.events == before.events
        &&& after.clock == before.clock
        &&& encoded(before.encoder, before.clock, msg, left, answer)
        &&& buffered(after.bytes) == buffered(before.bytes) + (if answer is Ok {
            left.wire(before.encoder.delimiter)
        } else {
            seq![]
        })
    }

    /// Every event is accepted, and joins the queue.
    open spec fn hears(before: Self, event: EventView, after: Self, answer: Answer) -> bool {
        &&& answer is Ok
        &&& after.clock == before.clock
        &&& after.encoder == before.encoder
        &&& after.bytes == before.bytes
        &&& events_view(after.events@) == events_view(before.events@).push(event)
    }

    fn transmit(&mut self, msg: &mut FixMessage, _session: &Session) -> (r: Result<()>) {
        // The clock is read here, once per message, immediately before the bytes
        // are produced.
        let now = self.clock.now();
        let mut encoder = self.encoder;
        let ghost b0 = buffered(self.bytes);
        let r = encoder.encode_stamped(msg, now, &mut self.bytes);
        assert(encoded_at(self.encoder, old(msg)@, msg@, answer_of(r), now));
        assert(b0 + seq![] =~= b0);
        r
    }

    fn event(&mut self, event: Event<'_>) -> (r: Result<()>) {
        let ghost v = event@;
        let owned = SessionEvent::from_core(event);
        self.events.push(owned);
        assert(events_view(self.events@) =~= events_view(old(self).events@).push(v));
        Ok(())
    }
}

/// What waits in the queues. Every event is accepted, and waits behind the others.
/// A message that can be encoded waits behind the bytes of the others; one that
/// cannot is refused, and leaves nothing behind.
pub proof fn law_what_waits<C: Clock>(
    before: PendingOutput<C>,
    after: PendingOutput<C>,
    event: EventView,
    msg: MessageView,
    session: SessionView,
    left: MessageView,
    answer: Answer,
)
    ensures
        PendingOutput::<C>::hears(before, event, after, answer) ==> {
            &&& answer is Ok
            &&& events_view(after.events@) == events_view(before.events@) + seq![event]
            &&& buffered(after.bytes) == buffered(before.bytes)
        },
        PendingOutput::<C>::transmits(before, msg, session, left, after, answer) ==> {
            &&& after.events == before.events
            &&& answer is Ok ==> buffered(after.bytes) == buffered(before.bytes) + left.wire(
                before.encoder.delimiter,
            )
            &&& answer is Err ==> buffered(after.bytes) == buffered(before.bytes)
            &&& exists|t: UtcTime| #[trigger]
                encoded_at(before.encoder, msg, left, answer, t)
        },
{
    if PendingOutput::<C>::hears(before, event, after, answer) {
        assert(events_view(before.events@).push(event) =~= events_view(before.events@) + seq![
            event,
        ]);
    }
    if PendingOutput::<C>::transmits(before, msg, session, left, after, answer) {
        assert(buffered(before.bytes) + seq![] =~= buffered(before.bytes));
        assert(encoded(before.encoder, before.clock, msg, left, answer));
    }
}

} // verus!
