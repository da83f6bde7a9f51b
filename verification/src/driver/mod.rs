//! A ready-assembled, still entirely synchronous FIX session.
//!
//! [`SessionState`] plus [`SessionOutput`] is the right substrate, but it is not
//! a product: asking someone to implement a trait and wire up a codec before
//! they can send a message is friction for no reason. [`SessionDriver`] is that
//! assembly — state machine, decoder, encoder and buffers — with no I/O, no
//! timers, no tasks and no runtime.
//!
//! You own the file descriptor. Feed it bytes, drain its buffer, and write that
//! buffer however you like: `epoll`, `io_uring`, a busy-polled socket, kernel
//! bypass. Nothing here will allocate a task or block on your behalf.
//!
//! # Events
//!
//! The application's side is an [`EventSink`]. A call that may have something to
//! report takes the sink and hands it back, so that the caller holds what was
//! made of the events; a sink that lives elsewhere can be lent as `&mut sink`.
//!
//! # Timing
//!
//! [`next_deadline`](SessionDriver::next_deadline) says when
//! [`on_tick`](SessionDriver::on_tick) next has something to do — a heartbeat to
//! send, or a silent peer to give up on. Arm your loop's timeout with it, or
//! just call `on_tick` whenever you happen to come round; nothing fires early.

pub mod logon;
pub mod steady;

use std::sync::Arc;

use bytes::BytesMut;
use vstd::prelude::*;

use crate::buffer::{buffer_slice, buffered};
use crate::builder::Message;
use crate::clock::Instant;
use crate::codec::{stamped, DecoderView, FixDecoder, FixEncoder, SOH};
use crate::error::{Error, ErrorView, Result};
use crate::framing::law_what_follows_does_not_change_a_frame;
use crate::layout::law_what_stamping_changes;
use crate::message::{FixMessage, MessageView, ValueView};
use crate::repository::FixRepository;
use crate::session::protocol::StateView;
use crate::session::state::SessionState;
use crate::session::types::{
    answer_of, carried_out, going_on, lemma_realises_done, lemma_realises_stop, lemma_realises_then,
    link, linked, realises, Answer, Call, Command, Event, EventSink, EventView, Output, Progress,
    Run, Session, SessionOutput, SessionView,
};
use crate::text::{ascii_chars, next_of};
use crate::time::UtcTime;
use crate::wire::{peek_header, BODY_LIMIT};

pub use logon::{AcceptorDriver, DriverConfig, EstablishedDriver, InitiatorDriver};

verus! {

/// Reads the wall clock for `SendingTime`.
///
/// It is asked once per outbound message, so a caller with a better clock than
/// the system's can supply it.
pub trait Clock {
    /// What the clock may read. A clock that says nothing of it is free.
    open spec fn reads(clock: &Self, t: UtcTime) -> bool {
        true
    }

    fn now(&self) -> (t: UtcTime)
        ensures
            Self::reads(self, t),
    ;
}

// ---------------------------------------------------------------------------
// What becomes of the calls
// ---------------------------------------------------------------------------

/// `msg` was stamped with the clock reading `t` and encoded: it came back as
/// `left`, and it is on the wire, or was refused.
pub open spec fn encoded_at(
    encoder: FixEncoder,
    msg: MessageView,
    left: MessageView,
    answer: Answer,
    t: UtcTime,
) -> bool {
    match stamped(msg.tags, t.stamp(encoder.precision)) {
        Some(tags) => {
            &&& left == MessageView { tags, ..msg }
            &&& answer == (if left.wire_body(encoder.delimiter).len() < BODY_LIMIT {
                Ok::<(), ErrorView>(())
            } else {
                Err(ErrorView::InvalidMessage("message body is too long for BodyLength"@))
            })
        },
        None => left == msg && answer == Err::<(), ErrorView>(
            ErrorView::InvalidMessage("outbound message has no SendingTime field to stamp"@),
        ),
    }
}

/// `msg` was stamped with some reading of the clock and encoded.
pub open spec fn encoded<C: Clock>(
    encoder: FixEncoder,
    clock: C,
    msg: MessageView,
    left: MessageView,
    answer: Answer,
) -> bool {
    exists|t: UtcTime| C::reads(&clock, t) && #[trigger] encoded_at(encoder, msg, left, answer, t)
}

/// Every message among the first `n` calls was stamped and encoded.
pub open spec fn all_encoded<C: Clock>(
    encoder: FixEncoder,
    clock: C,
    calls: Seq<Call>,
    n: nat,
) -> bool {
    forall|i: int|
        0 <= i < n ==> (#[trigger] calls[i] matches Call::Transmit { msg, left, answer, .. }
            ==> encoded(encoder, clock, msg, left, answer))
}

/// What the accepted messages among the first `n` calls put on the wire.
pub open spec fn wired(calls: Seq<Call>, delimiter: u8, n: nat) -> Seq<u8>
    decreases n,
{
    if n == 0 {
        seq![]
    } else {
        let before = wired(calls, delimiter, (n - 1) as nat);
        match calls[n - 1] {
            Call::Transmit { left, answer: Ok(_), .. } => before + left.wire(delimiter),
            _ => before,
        }
    }
}

/// The events among the first `n` calls took a sink from `before` to `after`.
pub open spec fn heard<E: EventSink>(calls: Seq<Call>, n: nat, before: E, after: E) -> bool
    decreases n,
{
    if n == 0 {
        before == after
    } else {
        match calls[n - 1] {
            Call::Transmit { .. } => heard(calls, (n - 1) as nat, before, after),
            Call::Event { event, answer } => exists|between: E|
                #![trigger E::hears(between, event, after, answer)]
                heard(calls, (n - 1) as nat, before, between) && E::hears(
                    between,
                    event,
                    after,
                    answer,
                ),
        }
    }
}

/// A run was carried out: its messages went through the encoder onto the wire,
/// behind what was there, and its events to the sink, which they and nothing else
/// took from `sink` to `told`.
pub open spec fn driven<S, C: Clock, E: EventSink>(
    run: Run<S>,
    encoder: FixEncoder,
    clock: C,
    sink: E,
    told: E,
    before: Seq<u8>,
    after: Seq<u8>,
    state: S,
    result: Result<Progress>,
) -> bool {
    exists|calls: Seq<Call>|
        {
            &&& #[trigger] carried_out(run, calls, state, result)
            &&& all_encoded(encoder, clock, calls, calls.len())
            &&& after == before + wired(calls, encoder.delimiter, calls.len())
            &&& heard(calls, calls.len(), sink, told)
        }
}

/// A run failed, in whatever state and with whatever on the wire; the sink was
/// told what there was to tell up to then.
pub open spec fn driven_to_failure<S, C: Clock, E: EventSink>(
    run: Run<S>,
    encoder: FixEncoder,
    clock: C,
    sink: E,
    told: E,
    e: Error,
) -> bool {
    exists|s: S, before: Seq<u8>, after: Seq<u8>|
        driven(run, encoder, clock, sink, told, before, after, s, Err(e))
}

/// The transport half of [`SessionOutput`], with the caller's event sink for the
/// application half.
struct DriverOutput<C: Clock, E: EventSink> {
    encoder: FixEncoder,
    bytes: BytesMut,
    clock: Arc<C>,
    sink: E,
}

impl<C: Clock, E: EventSink> SessionOutput for DriverOutput<C, E> {
    closed spec fn transmits(
        before: Self,
        msg: MessageView,
        session: SessionView,
        left: MessageView,
        after: Self,
        answer: Answer,
    ) -> bool {
        &&& after.encoder == before.encoder
        &&& after.sink == before.sink
        &&& after.clock == before.clock
        &&& encoded(before.encoder, *before.clock, msg, left, answer)
        &&& buffered(after.bytes) == buffered(before.bytes) + (if answer is Ok {
            left.wire(before.encoder.delimiter)
        } else {
            seq![]
        })
    }

    closed spec fn hears(before: Self, event: EventView, after: Self, answer: Answer) -> bool {
        &&& after.encoder == before.encoder
        &&& after.clock == before.clock
        &&& buffered(after.bytes) == buffered(before.bytes)
        &&& E::hears(before.sink, event, after.sink, answer)
    }

    fn transmit(&mut self, msg: &mut FixMessage, _session: &Session) -> (r: Result<()>) {
        // One clock read per message, immediately before the bytes exist.
        let now = self.clock.now();
        let mut encoder = self.encoder;
        let ghost b0 = buffered(self.bytes);
        let r = encoder.encode_stamped(msg, now, &mut self.bytes);
        assert(encoded_at(self.encoder, old(msg)@, msg@, answer_of(r), now));
        assert(b0 + seq![] =~= b0);
        r
    }

    fn event(&mut self, event: Event<'_>) -> (r: Result<()>) {
        self.sink.event(event)
    }
}

proof fn lemma_linked_driver<C: Clock, E: EventSink>(
    calls: Seq<Call>,
    n: nat,
    before: DriverOutput<C, E>,
    after: DriverOutput<C, E>,
)
    requires
        n <= calls.len(),
        linked(calls, n, before, after),
    ensures
        after.encoder == before.encoder,
        after.clock == before.clock,
        all_encoded(before.encoder, *before.clock, calls, n),
        buffered(after.bytes) == buffered(before.bytes) + wired(
            calls,
            before.encoder.delimiter,
            n,
        ),
        heard(calls, n, before.sink, after.sink),
    decreases n,
{
    if n == 0 {
        assert(buffered(before.bytes) + wired(calls, before.encoder.delimiter, 0) =~= buffered(
            before.bytes,
        ));
    } else {
        let between = choose|between: DriverOutput<C, E>|
            linked(calls, (n - 1) as nat, before, between) && #[trigger] link(
                calls[n - 1],
                between,
                after,
            );
        lemma_linked_driver(calls, (n - 1) as nat, before, between);
        assert(buffered(after.bytes) =~= buffered(before.bytes) + wired(
            calls,
            before.encoder.delimiter,
            n,
        ));
        match calls[n - 1] {
            Call::Transmit { .. } => {},
            Call::Event { event, answer } => {
                assert(E::hears(between.sink, event, after.sink, answer));
            },
        }
    }
}

proof fn lemma_driven<S, C: Clock, E: EventSink>(
    run: Run<S>,
    before: DriverOutput<C, E>,
    after: DriverOutput<C, E>,
    state: S,
    result: Result<Progress>,
)
    requires
        realises(run, before, after, state, result),
    ensures
        after.encoder == before.encoder,
        driven(
            run,
            before.encoder,
            *before.clock,
            before.sink,
            after.sink,
            buffered(before.bytes),
            buffered(after.bytes),
            state,
            result,
        ),
{
    let calls = choose|calls: Seq<Call>| #[trigger]
        carried_out(run, calls, state, result) && linked(calls, calls.len(), before, after);
    lemma_linked_driver(calls, calls.len(), before, after);
}

// ---------------------------------------------------------------------------
// Feeding bytes
// ---------------------------------------------------------------------------

/// A session with its decoder and the bytes that are yet to be framed.
pub ghost struct FeedView {
    pub state: StateView,
    pub decoder: DecoderView,
    pub pending: Seq<u8>,
}

impl FeedView {
    /// With more bytes behind those that are waiting.
    pub open spec fn with(self, more: Seq<u8>) -> FeedView {
        FeedView { pending: self.pending + more, ..self }
    }

    /// What is left once a frame has been taken off the front.
    pub open spec fn framed(self) -> FeedView {
        let d = self.decoder.decode(self.pending);
        FeedView {
            decoder: DecoderView { fix_version: d.fix_version, ..self.decoder },
            pending: self.pending.skip(d.consumed),
            ..self
        }
    }

    /// The message in the frame at the front.
    pub open spec fn frame(self) -> MessageView {
        let d = self.decoder.decode(self.pending);
        MessageView {
            fix_version: *d.fix_version->0,
            data: self.pending.take(d.consumed),
            tags: (d.result->Ok_0)->0,
        }
    }

    /// Run every complete message through the session, up to the first that
    /// ends it. A partial frame is kept.
    #[verifier::opaque]
    pub open spec fn feed(self, now: nat) -> Run<FeedView>
        decreases self.pending.len(),
    {
        let d = self.decoder.decode(self.pending);
        let next = self.framed();
        match d.result {
            Err(e) => Run::fail(next, e),
            Ok(None) => Run::go(next),
            Ok(Some(_)) => if 0 < d.consumed <= self.pending.len() {
                let handled = next.state.on_message(self.frame(), now).within(
                    |s: StateView| FeedView { state: s, ..next },
                );
                handled.followed_by(handled.end.feed(now))
            } else {
                arbitrary()
            },
        }
    }
}

/// A frame takes something off the buffer, and no more than there is.
proof fn lemma_frame_size(dec: DecoderView, s: Seq<u8>)
    requires
        dec.decode(s).result matches Ok(Some(_)),
    ensures
        0 < dec.decode(s).consumed <= s.len(),
{
    let envelope = peek_header(dec.repo, s, dec.delimiter)->Ok_0;
    crate::text::lemma_next_of(s, 0, dec.delimiter);
    crate::text::lemma_next_of(s, next_of(s, 0, dec.delimiter) + 1, dec.delimiter);
    let trailer = envelope.header_length + envelope.body_length->0;
    assert(envelope.header_length >= 0);
    let tail = s.skip(trailer);
    crate::text::lemma_next_of(tail, 0, dec.delimiter);
}

proof fn lemma_realises_within<S, T, O: SessionOutput>(
    run: Run<S>,
    f: spec_fn(S) -> T,
    t0: O,
    t1: O,
    s: S,
    r: Result<Progress>,
)
    requires
        realises(run, t0, t1, s, r),
    ensures
        realises(run.within(f), t0, t1, f(s), r),
{
    let a = choose|calls: Seq<Call>| #[trigger]
        carried_out(run, calls, s, r) && linked(calls, calls.len(), t0, t1);
    let other = run.within(f);
    assert forall|i: int| 0 <= i < a.len() implies crate::session::types::call_is(
        a,
        i,
        (#[trigger] other.outputs[i]).0,
    ) by {
        assert(crate::session::types::call_is(a, i, run.outputs[i].0));
    }
    assert(carried_out(other, a, f(s), r));
}

proof fn lemma_followed_by_assoc<S>(a: Run<S>, b: Run<S>, c: Run<S>)
    ensures
        a.followed_by(b).followed_by(c) == a.followed_by(b.followed_by(c)),
{
    let x = a.followed_by(b).followed_by(c);
    let y = a.followed_by(b.followed_by(c));
    assert(x.outputs =~= y.outputs);
}

/// What a run puts out, whatever the state behind it.
pub open spec fn spoken<S>(run: Run<S>) -> Seq<Output> {
    run.outputs.map_values(|o: (Output, S)| o.0)
}

/// `whole` is `first`, and `second` behind it unless `first` already settles the
/// matter.
pub open spec fn in_portions(
    first: Run<FeedView>,
    second: Run<FeedView>,
    whole: Run<FeedView>,
) -> bool {
    if first.result == Ok::<Progress, ErrorView>(Progress::Continue) {
        &&& spoken(whole) == spoken(first) + spoken(second)
        &&& whole.end == second.end
        &&& whole.result == second.result
    } else {
        &&& spoken(whole) == spoken(first)
        &&& whole.end.state == first.end.state
        &&& whole.result == first.result
    }
}

/// What the session makes of a frame, as a part of the driver.
spec fn handled(next: FeedView, run: Run<StateView>) -> Run<FeedView> {
    run.within(|s: StateView| FeedView { state: s, ..next })
}

/// What feeding comes to, by what the buffer starts with.
proof fn lemma_feed(feed: FeedView, now: nat)
    ensures
        ({
            let next = feed.framed();
            let one = handled(next, next.state.on_message(feed.frame(), now));
            match feed.decoder.decode(feed.pending).result {
                Err(e) => feed.feed(now) == Run::<FeedView>::fail(next, e),
                Ok(None) => feed.feed(now) == Run::go(next),
                Ok(Some(_)) => feed.feed(now) == one.followed_by(one.end.feed(now)),
            }
        }),
{
    reveal(FeedView::feed);
    if feed.decoder.decode(feed.pending).result matches Ok(Some(_)) {
        lemma_frame_size(feed.decoder, feed.pending);
    }
}

/// A first frame leaves the relation between the portions as it is.
proof fn lemma_portions_frame(
    next: FeedView,
    run: Run<StateView>,
    more: Seq<u8>,
    first: Run<FeedView>,
    second: Run<FeedView>,
    whole: Run<FeedView>,
)
    requires
        run.result == Ok::<Progress, ErrorView>(Progress::Continue) ==> in_portions(
            first,
            second,
            whole,
        ),
    ensures
        in_portions(
            handled(next, run).followed_by(first),
            second,
            handled(next.with(more), run).followed_by(whole),
        ),
{
    let a = handled(next, run);
    let b = handled(next.with(more), run);
    assert(spoken(a) =~= spoken(run));
    assert(spoken(b) =~= spoken(run));
    if run.result == Ok::<Progress, ErrorView>(Progress::Continue) {
        assert(spoken(a.followed_by(first)) =~= spoken(run) + spoken(first));
        assert(spoken(b.followed_by(whole)) =~= spoken(run) + spoken(whole));
        assert(spoken(run) + (spoken(first) + spoken(second)) =~= (spoken(run) + spoken(first))
            + spoken(second));
    }
}

/// Bytes may arrive in any portions: what is put out, how it ends and the state
/// it ends in are the same whether `more` is fed behind what is there already or
/// all is fed at once. Where what is there already ends the session, `more` is
/// not looked at.
#[verifier::rlimit(40)]
pub proof fn law_portions_do_not_matter(feed: FeedView, more: Seq<u8>, now: nat)
    requires
        feed.decoder.fix_version is Some,
    ensures
        in_portions(
            feed.feed(now),
            feed.feed(now).end.with(more).feed(now),
            feed.with(more).feed(now),
        ),
    decreases feed.pending.len(),
{
    let all = feed.with(more);
    let d = feed.decoder.decode(feed.pending);
    let first = feed.feed(now);
    let whole = all.feed(now);
    let next = feed.framed();
    lemma_feed(feed, now);
    lemma_feed(all, now);
    match d.result {
        Ok(None) => {
            assert(d.consumed == 0);
            assert(feed.pending.skip(0) =~= feed.pending);
            assert(next == feed);
            assert(spoken(first) =~= seq![]);
            assert(spoken(first) + spoken(whole) =~= spoken(whole));
        },
        Err(e) => {
            law_what_follows_does_not_change_a_frame(feed.decoder, feed.pending, more);
            assert(spoken(whole) =~= spoken(first));
        },
        Ok(Some(tags)) => {
            law_what_follows_does_not_change_a_frame(feed.decoder, feed.pending, more);
            lemma_frame_size(feed.decoder, feed.pending);
            assert(all.pending.take(d.consumed) =~= feed.pending.take(d.consumed));
            assert(all.pending.skip(d.consumed) =~= feed.pending.skip(d.consumed) + more);
            assert(all.framed() == next.with(more));
            assert(all.frame() == feed.frame());
            let run = next.state.on_message(feed.frame(), now);
            let rest = handled(next, run).end;
            assert(handled(next.with(more), run).end == rest.with(more));
            if run.result == Ok::<Progress, ErrorView>(Progress::Continue) {
                law_portions_do_not_matter(rest, more, now);
                assert(first.end == rest.feed(now).end);
            }
            lemma_portions_frame(
                next,
                run,
                more,
                rest.feed(now),
                first.end.with(more).feed(now),
                rest.with(more).feed(now),
            );
        },
    }
}

// ---------------------------------------------------------------------------
// The driver
// ---------------------------------------------------------------------------

/// A FIX session with its codec and buffers attached, driven synchronously.
pub struct SessionDriver<C: Clock> {
    pub state: SessionState,
    pub decoder: FixDecoder,
    pub encoder: FixEncoder,
    /// Bytes received but not yet framed into a complete message.
    pub in_buf: BytesMut,
    /// Encoded messages waiting to be written to the peer.
    pub out_buf: BytesMut,
    pub clock: Arc<C>,
}

impl<C: Clock> View for SessionDriver<C> {
    type V = FeedView;

    open spec fn view(&self) -> FeedView {
        FeedView {
            state: self.state@,
            decoder: self.decoder@,
            pending: buffered(self.in_buf),
        }
    }
}

pub open spec fn delimiter_or_default(delimiter: Option<u8>) -> u8 {
    match delimiter {
        Some(d) => d,
        None => SOH,
    }
}

impl<C: Clock> SessionDriver<C> {
    pub open spec fn wf(&self) -> bool {
        self.state.wf()
    }

    /// What is waiting to be written.
    pub open spec fn written(&self) -> Seq<u8> {
        buffered(self.out_buf)
    }

    /// Nothing changed but the state of the session and what is waiting to be
    /// written.
    pub open spec fn only_spoke(before: Self, after: Self) -> bool {
        &&& after@.decoder == before@.decoder
        &&& after@.pending == before@.pending
        &&& after.encoder == before.encoder
        &&& after.clock == before.clock
    }

    /// Assemble a driver around a session whose logon exchange has completed.
    ///
    /// `delimiter` is the field separator; `None` means the wire default, SOH.
    /// `clock` is read once per outbound message to stamp `SendingTime`.
    pub fn new(
        state: SessionState,
        repo: Arc<FixRepository>,
        delimiter: Option<u8>,
        clock: C,
    ) -> (r: Self)
        requires
            state.wf(),
        ensures
            r.wf(),
            r@.state == state@,
            r@.pending == Seq::<u8>::empty(),
            r@.decoder.repo == *repo,
            r@.decoder.delimiter == delimiter_or_default(delimiter),
            r@.decoder.fix_version matches Some(v) && *v == state@.session.fix_version,
            r.encoder.delimiter == delimiter_or_default(delimiter),
            r.encoder.precision == state@.session.time_precision,
            buffered(r.out_buf) == Seq::<u8>::empty(),
            *r.clock == clock,
    {
        let precision = state.session().time_precision;
        let fix_version = state.session().fix_version.clone();
        SessionDriver {
            state,
            decoder: FixDecoder::with_version(repo, delimiter, fix_version),
            encoder: FixEncoder::new(delimiter).with_precision(precision),
            in_buf: BytesMut::new(),
            out_buf: BytesMut::new(),
            clock: Arc::new(clock),
        }
    }

    pub fn session(&self) -> (r: &Session)
        ensures
            r@ == self@.state.session,
    {
        self.state.session()
    }

    pub fn state(&self) -> (r: &SessionState)
        ensures
            r@ == self@.state,
    {
        &self.state
    }

    /// When [`on_tick`](Self::on_tick) next has work to do.
    pub fn next_deadline(&self) -> (r: Option<Instant>)
        ensures
            r matches Some(t) && t@ == self@.state.deadline(),
    {
        self.state.next_deadline()
    }

    /// Encoded bytes waiting for the peer.
    ///
    /// Write them and then `clear()`. They are not cleared for you, so a partial
    /// write can be handled by advancing the buffer instead.
    pub fn pending_writes(&mut self) -> (r: &mut BytesMut)
        ensures
            *r == old(self).out_buf,
            final(self).out_buf == *final(r),
            Self::only_spoke(*old(self), *final(self)),
            final(self)@.state == old(self)@.state,
            old(self).wf() ==> final(self).wf(),
    {
        &mut self.out_buf
    }

    /// Whether anything is waiting to be written.
    pub fn has_pending_writes(&self) -> (r: bool)
        ensures
            r == (buffered(self.out_buf).len() > 0),
    {
        buffer_slice(&self.out_buf).len() > 0
    }

    /// The output half, for the time of one call.
    fn lend<E: EventSink>(&mut self, sink: E) -> (r: DriverOutput<C, E>)
        ensures
            r.encoder == old(self).encoder,
            r.sink == sink,
            r.clock == old(self).clock,
            r.bytes == old(self).out_buf,
            final(self).state == old(self).state,
            final(self).decoder == old(self).decoder,
            final(self).encoder == old(self).encoder,
            final(self).in_buf == old(self).in_buf,
            final(self).clock == old(self).clock,
    {
        let mut bytes = BytesMut::new();
        std::mem::swap(&mut bytes, &mut self.out_buf);
        DriverOutput { encoder: self.encoder, bytes, clock: self.clock.clone(), sink }
    }

    /// Complete the logon exchange: process the peer's Logon and emit the
    /// synchronisation TestRequest. The sink comes back with what it was told, as
    /// it does from every call that takes one.
    pub fn start<E: EventSink>(
        &mut self,
        logon: Message,
        now: Instant,
        sink: E,
    ) -> (r: (Result<Progress>, E))
        requires
            old(self).wf(),
            logon.wf(),
        ensures
            final(self).wf(),
            Self::only_spoke(*old(self), *final(self)),
            driven(
                old(self)@.state.start(logon@),
                old(self).encoder,
                *old(self).clock,
                sink,
                r.1,
                old(self).written(),
                final(self).written(),
                final(self)@.state,
                r.0,
            ),
    {
        let ghost run = self@.state.start(logon@);
        let mut out = self.lend(sink);
        let ghost before = out;
        let r = self.state.start(logon, now, &mut out);
        proof {
            lemma_driven(run, before, out, self.state@, r);
        }
        self.out_buf = out.bytes;
        (r, out.sink)
    }

    /// Apply an application command.
    pub fn on_command<E: EventSink>(
        &mut self,
        now: Instant,
        cmd: Command,
        sink: E,
    ) -> (r: (Result<Progress>, E))
        requires
            old(self).wf(),
            cmd.wf(),
        ensures
            final(self).wf(),
            Self::only_spoke(*old(self), *final(self)),
            driven(
                old(self)@.state.on_command(cmd@, now@),
                old(self).encoder,
                *old(self).clock,
                sink,
                r.1,
                old(self).written(),
                final(self).written(),
                final(self)@.state,
                r.0,
            ),
    {
        let ghost run = self@.state.on_command(cmd@, now@);
        let mut out = self.lend(sink);
        let ghost before = out;
        let r = self.state.on_command(cmd, now, &mut out);
        proof {
            lemma_driven(run, before, out, self.state@, r);
        }
        self.out_buf = out.bytes;
        (r, out.sink)
    }

    /// Advance time. Safe to call whenever; nothing fires before its deadline.
    pub fn on_tick<E: EventSink>(
        &mut self,
        now: Instant,
        sink: E,
    ) -> (r: (Result<Progress>, E))
        requires
            old(self).wf(),
        ensures
            final(self).wf(),
            Self::only_spoke(*old(self), *final(self)),
            driven(
                old(self)@.state.on_timeout(now@),
                old(self).encoder,
                *old(self).clock,
                sink,
                r.1,
                old(self).written(),
                final(self).written(),
                final(self)@.state,
                r.0,
            ),
    {
        let ghost run = self@.state.on_timeout(now@);
        let mut out = self.lend(sink);
        let ghost before = out;
        let r = self.state.on_timeout(now, &mut out);
        proof {
            lemma_driven(run, before, out, self.state@, r);
        }
        self.out_buf = out.bytes;
        (r, out.sink)
    }

    /// The peer closed the connection without logging out.
    pub fn on_peer_closed<E: EventSink>(&mut self, sink: E) -> (r: (Result<Progress>, E))
        requires
            old(self).wf(),
        ensures
            final(self).wf(),
            Self::only_spoke(*old(self), *final(self)),
            driven(
                old(self)@.state.on_peer_closed(),
                old(self).encoder,
                *old(self).clock,
                sink,
                r.1,
                old(self).written(),
                final(self).written(),
                final(self)@.state,
                r.0,
            ),
    {
        let ghost run = self@.state.on_peer_closed();
        let mut out = self.lend(sink);
        let ghost before = out;
        let r = self.state.on_peer_closed(&mut out);
        proof {
            lemma_driven(run, before, out, self.state@, r);
        }
        self.out_buf = out.bytes;
        (r, out.sink)
    }

    /// Transmit a message belonging to the logon exchange, which the caller
    /// still owns. See [`SessionState::send_logon`].
    pub fn send_logon<E: EventSink>(&mut self, msg: Message, sink: E) -> (r: (Result<()>, E))
        requires
            old(self).wf(),
            msg.wf(),
        ensures
            final(self).wf(),
            Self::only_spoke(*old(self), *final(self)),
            driven(
                old(self)@.state.transmit(msg@),
                old(self).encoder,
                *old(self).clock,
                sink,
                r.1,
                old(self).written(),
                final(self).written(),
                final(self)@.state,
                going_on(r.0),
            ),
    {
        let ghost run = self@.state.transmit(msg@);
        let mut out = self.lend(sink);
        let ghost before = out;
        let r = self.state.send_logon(msg, &mut out);
        proof {
            lemma_driven(run, before, out, self.state@, going_on(r));
        }
        self.out_buf = out.bytes;
        (r, out.sink)
    }

    /// Feed bytes straight off the socket.
    ///
    /// Frames whatever complete messages they contain and runs each through the
    /// session; a partial frame is retained until the rest arrives. Stops at the
    /// first message that ends the session, leaving any bytes after it unread.
    pub fn on_bytes<E: EventSink>(
        &mut self,
        now: Instant,
        src: &[u8],
        sink: E,
    ) -> (r: (Result<Progress>, E))
        requires
            old(self).wf(),
        ensures
            final(self).wf(),
            final(self).encoder == old(self).encoder,
            final(self).clock == old(self).clock,
            driven(
                old(self)@.with(src@).feed(now@),
                old(self).encoder,
                *old(self).clock,
                sink,
                r.1,
                old(self).written(),
                final(self).written(),
                final(self)@,
                r.0,
            ),
    {
        self.in_buf.extend_from_slice(src);
        let ghost start = self@;
        let ghost whole = start.feed(now@);
        let mut out = self.lend(sink);
        let ghost before = out;
        let ghost mut done = Run::go(start);
        proof {
            lemma_realises_done::<FeedView, DriverOutput<C, E>>(
                start,
                out,
                Ok(Progress::Continue),
                Ok(Progress::Continue),
            );
            assert(done.followed_by(whole).outputs =~= whole.outputs);
            assert(done.followed_by(whole) == whole);
        }
        let r: Result<Progress>;
        loop
            invariant_except_break
                self.wf(),
                self.encoder == old(self).encoder,
                self.clock == old(self).clock,
                whole == start.feed(now@),
                done.result == Ok::<Progress, ErrorView>(Progress::Continue),
                done.end == self@,
                realises(done, before, out, self@, Ok(Progress::Continue)),
                whole == done.followed_by(self@.feed(now@)),
            invariant
                before.encoder == old(self).encoder,
                before.sink == sink,
                before.clock == old(self).clock,
                buffered(before.bytes) == old(self).written(),
                start == old(self)@.with(src@),
            ensures
                self.wf(),
                self.encoder == old(self).encoder,
                self.clock == old(self).clock,
                realises(whole, before, out, self@, r),
            decreases buffered(self.in_buf).len(),
        {
            let ghost here = self@;
            let ghost rest = here.feed(now@);
            proof {
                lemma_feed(here, now@);
            }
            let decoded = self.decoder.decode(&mut self.in_buf);
            let ghost next = here.framed();
            assert(self@ == next);
            match decoded {
                Err(e) => {
                    proof {
                        lemma_realises_done::<FeedView, DriverOutput<C, E>>(
                            next,
                            out,
                            rest.result,
                            Err(e),
                        );
                        lemma_realises_then(
                            done,
                            rest,
                            before,
                            out,
                            out,
                            here,
                            next,
                            Ok(Progress::Continue),
                            Err(e),
                        );
                    }
                    r = Err(e);
                    break ;
                },
                Ok(None) => {
                    proof {
                        lemma_realises_done::<FeedView, DriverOutput<C, E>>(
                            next,
                            out,
                            Ok(Progress::Continue),
                            Ok(Progress::Continue),
                        );
                        lemma_realises_then(
                            done,
                            rest,
                            before,
                            out,
                            out,
                            here,
                            next,
                            Ok(Progress::Continue),
                            Ok(Progress::Continue),
                        );
                    }
                    r = Ok(Progress::Continue);
                    break ;
                },
                Ok(Some(msg)) => {
                    let ghost f = |s: StateView| FeedView { state: s, ..next };
                    let ghost planned = next.state.on_message(here.frame(), now@);
                    let ghost handled = planned.within(f);
                    let ghost o1 = out;
                    proof {
                        lemma_frame_size(here.decoder, here.pending);
                        assert(msg@ == here.frame());
                        assert(rest == handled.followed_by(handled.end.feed(now@)));
                    }
                    let result = self.state.on_message(msg, now, &mut out);
                    proof {
                        assert(self@ == f(self.state@));
                        lemma_realises_within(planned, f, o1, out, self.state@, result);
                        lemma_realises_then(
                            done,
                            handled,
                            before,
                            o1,
                            out,
                            here,
                            self@,
                            Ok(Progress::Continue),
                            result,
                        );
                        lemma_followed_by_assoc(done, handled, handled.end.feed(now@));
                    }
                    match result {
                        Ok(Progress::Continue) => {
                            proof {
                                done = done.followed_by(handled);
                                lemma_ran_on(done, before, out, self@);
                            }
                        },
                        other => {
                            proof {
                                lemma_realises_stop(
                                    done.followed_by(handled),
                                    handled.end.feed(now@),
                                    before,
                                    out,
                                    self@,
                                    other,
                                );
                            }
                            r = other;
                            break ;
                        },
                    }
                },
            }
        }
        proof {
            lemma_driven(whole, before, out, self@, r);
        }
        self.out_buf = out.bytes;
        (r, out.sink)
    }
}

/// A run that goes on was carried out in full.
proof fn lemma_ran_on<S, O: SessionOutput>(run: Run<S>, before: O, after: O, s: S)
    requires
        realises(run, before, after, s, Ok(Progress::Continue)),
    ensures
        s == run.end,
        run.result == Ok::<Progress, ErrorView>(Progress::Continue),
{
    match run.result {
        Ok(p) => {},
        Err(e) => {},
    }
}

/// What feeding comes to. Whatever complete messages the buffer starts with are
/// handled one behind the other, until one of them ends the session or fails; what
/// is left of the buffer stays there. A buffer that does not frame is refused, and
/// one without a complete message is left as it is.
pub proof fn law_what_feeding_does(feed: FeedView, now: nat)
    ensures
        ({
            let d = feed.decoder.decode(feed.pending);
            let next = FeedView {
                state: feed.state,
                decoder: DecoderView { fix_version: d.fix_version, ..feed.decoder },
                pending: feed.pending.skip(d.consumed),
            };
            let run = feed.feed(now);
            match d.result {
                Err(e) => run.outputs.len() == 0 && run.end == next && run.result == Err::<
                    Progress,
                    ErrorView,
                >(e),
                Ok(None) => run.outputs.len() == 0 && run.end == next && run.result == Ok::<
                    Progress,
                    ErrorView,
                >(Progress::Continue),
                Ok(Some(tags)) => {
                    let frame = MessageView {
                        fix_version: *d.fix_version->0,
                        data: feed.pending.take(d.consumed),
                        tags,
                    };
                    let one = feed.state.on_message(frame, now);
                    let rest = FeedView { state: one.end, ..next };
                    if one.result == Ok::<Progress, ErrorView>(Progress::Continue) {
                        &&& spoken(run) == spoken(one) + spoken(rest.feed(now))
                        &&& run.end == rest.feed(now).end
                        &&& run.result == rest.feed(now).result
                    } else {
                        &&& spoken(run) == spoken(one)
                        &&& run.end == rest
                        &&& run.result == one.result
                    }
                },
            }
        }),
{
    lemma_feed(feed, now);
    if feed.decoder.decode(feed.pending).result matches Ok(Some(_)) {
        let next = feed.framed();
        let one = next.state.on_message(feed.frame(), now);
        let whole = handled(next, one);
        assert(spoken(whole) =~= spoken(one));
        lemma_spoken_then(whole, whole.end.feed(now));
    }
}

proof fn lemma_spoken_then(a: Run<FeedView>, b: Run<FeedView>)
    ensures
        a.result == Ok::<Progress, ErrorView>(Progress::Continue) ==> spoken(a.followed_by(b))
            == spoken(a) + spoken(b),
{
    assert(a.result == Ok::<Progress, ErrorView>(Progress::Continue) ==> spoken(a.followed_by(b))
        =~= spoken(a) + spoken(b));
}

/// What encoding a message does: its first SendingTime is overwritten with the
/// time, in the session's precision, and nothing else is; and it is accepted where
/// its body is short enough for six digits of BodyLength. A message without a
/// SendingTime is refused as it is.
pub proof fn law_what_encoding_does(
    encoder: FixEncoder,
    msg: MessageView,
    left: MessageView,
    answer: Answer,
    t: UtcTime,
    i: int,
)
    requires
        encoded_at(encoder, msg, left, answer, t),
        0 <= i < msg.tags.len(),
    ensures
        left.fix_version == msg.fix_version,
        left.data == msg.data,
        left.tags.len() == msg.tags.len(),
        left.tags[i].0 == msg.tags[i].0,
        left.tags[i].1 == if msg.tags[i].0 == 52 && (forall|k: int|
            0 <= k < i ==> (#[trigger] msg.tags[k]).0 != 52) {
            ValueView::String(ascii_chars(t.stamp(encoder.precision)))
        } else {
            msg.tags[i].1
        },
        answer is Ok <==> left.wire_body(encoder.delimiter).len() < 1_000_000 && (exists|k: int|
            0 <= k < msg.tags.len() && (#[trigger] msg.tags[k]).0 == 52),
        answer matches Err(e) ==> e is InvalidMessage,
{
    law_what_stamping_changes(msg.tags, t.stamp(encoder.precision), i);
}

} // verus!
