//! What a driver does under a clock that stands still: then everything it writes
//! and reports is settled by what it is fed.

use vstd::prelude::*;

use crate::codec::{stamped, FixEncoder};
use crate::driver::{
    all_encoded, driven, encoded, encoded_at, heard, in_portions, law_portions_do_not_matter,
    spoken, wired, Clock, FeedView,
};
use crate::error::{ErrorView, Result};
use crate::message::MessageView;
use crate::session::types::{
    call_is, carried_out, Call, EventSink, EventView, Output, Progress, Run,
};
use crate::time::UtcTime;

verus! {

/// The clock reads `t`, whenever it is asked.
pub open spec fn steady<C: Clock>(clock: C, t: UtcTime) -> bool {
    forall|u: UtcTime| #[trigger] C::reads(&clock, u) ==> u == t
}

/// A message as it is left once it has been stamped at `t`.
pub open spec fn stamped_at(msg: MessageView, encoder: FixEncoder, t: UtcTime) -> MessageView {
    match stamped(msg.tags, t.stamp(encoder.precision)) {
        Some(tags) => MessageView { tags, ..msg },
        None => msg,
    }
}

/// The bytes that the first `n` outputs put on the wire.
pub open spec fn bytes_written(
    outputs: Seq<Output>,
    encoder: FixEncoder,
    t: UtcTime,
    n: nat,
) -> Seq<u8>
    decreases n,
{
    if n == 0 {
        seq![]
    } else {
        let before = bytes_written(outputs, encoder, t, (n - 1) as nat);
        match outputs[n - 1] {
            Output::Transmit(msg, _) => before + stamped_at(msg, encoder, t).wire(
                encoder.delimiter,
            ),
            _ => before,
        }
    }
}

/// The events that the first `n` outputs report.
pub open spec fn events_reported(
    outputs: Seq<Output>,
    encoder: FixEncoder,
    t: UtcTime,
    n: nat,
) -> Seq<EventView>
    decreases n,
{
    if n == 0 {
        seq![]
    } else {
        let before = events_reported(outputs, encoder, t, (n - 1) as nat);
        match outputs[n - 1] {
            Output::Transmit(_, _) => before,
            Output::Event(e) => before.push(e),
            Output::Sent(s) => before.push(
                EventView::RawMessageSent(
                    if n >= 2 && outputs[n - 2] is Transmit {
                        stamped_at(outputs[n - 2]->Transmit_0, encoder, t)
                    } else {
                        arbitrary()
                    },
                    s,
                ),
            ),
        }
    }
}

/// All events that a run reports.
pub open spec fn all_events<S>(run: Run<S>, encoder: FixEncoder, t: UtcTime) -> Seq<EventView> {
    events_reported(spoken(run), encoder, t, spoken(run).len())
}

/// A sink heard the first `n` of these events, in order, and accepted them all.
pub open spec fn heard_all<E: EventSink>(
    events: Seq<EventView>,
    n: nat,
    before: E,
    after: E,
) -> bool
    decreases n,
{
    if n == 0 {
        before == after
    } else {
        exists|between: E|
            heard_all(events, (n - 1) as nat, before, between) && #[trigger] E::hears(
                between,
                events[n - 1],
                after,
                Ok(()),
            )
    }
}

/// A report of a sent message follows the message.
pub open spec fn reports_follow(outputs: Seq<Output>) -> bool {
    forall|i: int|
        0 <= i < outputs.len() && (#[trigger] outputs[i]) is Sent ==> i > 0 && outputs[i
            - 1] is Transmit
}

proof fn lemma_heard_prefix<E: EventSink>(
    a: Seq<EventView>,
    b: Seq<EventView>,
    n: nat,
    x: E,
    y: E,
)
    requires
        n <= a.len(),
        n <= b.len(),
        forall|i: int| 0 <= i < n ==> a[i] == b[i],
        heard_all(a, n, x, y),
    ensures
        heard_all(b, n, x, y),
    decreases n,
{
    if n > 0 {
        let between = choose|between: E|
            heard_all(a, (n - 1) as nat, x, between) && #[trigger] E::hears(
                between,
                a[n - 1],
                y,
                Ok(()),
            );
        lemma_heard_prefix(a, b, (n - 1) as nat, x, between);
        assert(E::hears(between, b[n - 1], y, Ok(())));
    }
}

/// The calls of a run, all accepted, write and report what the outputs say.
proof fn lemma_calls<S, C: Clock, E: EventSink>(
    run: Run<S>,
    calls: Seq<Call>,
    encoder: FixEncoder,
    clock: C,
    t: UtcTime,
    n: nat,
    x: E,
    y: E,
)
    requires
        n <= calls.len(),
        calls.len() == run.outputs.len(),
        forall|i: int|
            0 <= i < calls.len() ==> call_is(calls, i, (#[trigger] run.outputs[i]).0)
                && calls[i].accepted(),
        steady(clock, t),
        all_encoded(encoder, clock, calls, calls.len()),
        heard(calls, n, x, y),
    ensures
        ({
            let outputs = spoken(run);
            let events = events_reported(outputs, encoder, t, n);
            &&& wired(calls, encoder.delimiter, n) == bytes_written(outputs, encoder, t, n)
            &&& heard_all(events, events.len(), x, y)
        }),
    decreases n,
{
    if n > 0 {
        let outputs = spoken(run);
        let k = (n - 1) as nat;
        let before = events_reported(outputs, encoder, t, k);
        let events = events_reported(outputs, encoder, t, n);
        assert(call_is(calls, n - 1, run.outputs[n - 1].0));
        assert(calls[n - 1].accepted());
        assert(outputs[n - 1] == run.outputs[n - 1].0);
        match calls[n - 1] {
            Call::Transmit { msg, left, answer, .. } => {
                lemma_calls(run, calls, encoder, clock, t, k, x, y);
                lemma_left(encoder, clock, t, calls, n - 1);
            },
            Call::Event { event, answer } => {
                let between = choose|between: E|
                    #![trigger E::hears(between, event, y, answer)]
                    heard(calls, k, x, between) && E::hears(between, event, y, answer);
                lemma_calls(run, calls, encoder, clock, t, k, x, between);
                if outputs[n - 1] is Sent {
                    assert(call_is(calls, n - 2, run.outputs[n - 2].0));
                    assert(outputs[n - 2] == run.outputs[n - 2].0);
                    lemma_left(encoder, clock, t, calls, n - 2);
                }
                assert(events == before.push(event));
                lemma_heard_prefix(before, events, before.len(), x, between);
                assert(events[events.len() - 1] == event);
                assert(heard_all(events, (events.len() - 1) as nat, x, between));
                assert(answer->Ok_0 == ());
                assert(answer == Ok::<(), ErrorView>(()));
                assert(E::hears(between, events[events.len() - 1], y, Ok(())));
            },
        }
    }
}

/// How a message was left is settled by the clock.
proof fn lemma_left<C: Clock>(
    encoder: FixEncoder,
    clock: C,
    t: UtcTime,
    calls: Seq<Call>,
    i: int,
)
    requires
        0 <= i < calls.len(),
        calls[i] is Transmit,
        calls[i].accepted(),
        steady(clock, t),
        all_encoded(encoder, clock, calls, calls.len()),
    ensures
        calls[i]->left == stamped_at(calls[i]->msg, encoder, t),
{
    if let Call::Transmit { msg, left, answer, .. } = calls[i] {
        assert(encoded(encoder, clock, msg, left, answer));
        let u = choose|u: UtcTime|
            C::reads(&clock, u) && #[trigger] encoded_at(encoder, msg, left, answer, u);
        assert(u == t);
    }
}

/// Under a steady clock, a run that goes on leaves the state it ends in, and
/// writes and reports what its outputs say: the sink ends where these events, in
/// order, take it.
pub proof fn law_a_steady_clock_settles_everything<S, C: Clock, E: EventSink>(
    run: Run<S>,
    encoder: FixEncoder,
    clock: C,
    t: UtcTime,
    sink: E,
    told: E,
    before: Seq<u8>,
    after: Seq<u8>,
    state: S,
)
    requires
        steady(clock, t),
        driven(run, encoder, clock, sink, told, before, after, state, Ok(Progress::Continue)),
    ensures
        ({
            let outputs = spoken(run);
            let events = events_reported(outputs, encoder, t, outputs.len());
            &&& state == run.end
            &&& run.result == Ok::<Progress, ErrorView>(Progress::Continue)
            &&& after == before + bytes_written(outputs, encoder, t, outputs.len())
            &&& heard_all(events, events.len(), sink, told)
            &&& reports_follow(outputs)
        }),
{
    let done: Result<Progress> = Ok(Progress::Continue);
    let calls = choose|calls: Seq<Call>|
        {
            &&& #[trigger] carried_out(run, calls, state, done)
            &&& all_encoded(encoder, clock, calls, calls.len())
            &&& after == before + wired(calls, encoder.delimiter, calls.len())
            &&& heard(calls, calls.len(), sink, told)
        };
    assert forall|i: int| 0 <= i < calls.len() implies call_is(
        calls,
        i,
        (#[trigger] run.outputs[i]).0,
    ) && calls[i].accepted() by {
        if i == calls.len() - 1 {
            assert(calls.last().accepted());
        } else {
            assert(calls[i].accepted());
        }
    }
    match run.result {
        Ok(p) => {},
        Err(e) => {},
    }
    let outputs = spoken(run);
    lemma_calls(run, calls, encoder, clock, t, calls.len(), sink, told);
    assert forall|i: int| 0 <= i < outputs.len() && (#[trigger] outputs[i]) is Sent implies i > 0
        && outputs[i - 1] is Transmit by {
        assert(call_is(calls, i, run.outputs[i].0));
        assert(call_is(calls, i - 1, run.outputs[i - 1].0));
    }
}

proof fn lemma_written_concat(
    a: Seq<Output>,
    b: Seq<Output>,
    encoder: FixEncoder,
    t: UtcTime,
    n: nat,
)
    requires
        n <= b.len(),
        reports_follow(b),
    ensures
        bytes_written(a + b, encoder, t, a.len() + n) == bytes_written(a, encoder, t, a.len())
            + bytes_written(b, encoder, t, n),
        events_reported(a + b, encoder, t, a.len() + n) == events_reported(
            a,
            encoder,
            t,
            a.len(),
        ) + events_reported(b, encoder, t, n),
    decreases n,
{
    let c = a + b;
    if n == 0 {
        lemma_written_prefix(a, b, encoder, t, a.len());
        assert(bytes_written(c, encoder, t, a.len()) =~= bytes_written(a, encoder, t, a.len())
            + seq![]);
        assert(events_reported(c, encoder, t, a.len()) =~= events_reported(a, encoder, t, a.len())
            + seq![]);
    } else {
        let k = (n - 1) as nat;
        lemma_written_concat(a, b, encoder, t, k);
        assert(c[a.len() + n - 1] == b[n - 1]);
        assert((a.len() + n - 1) as nat == a.len() + k);
        if b[n - 1] is Sent {
            assert(b[n - 2] is Transmit);
            assert(c[a.len() + n - 2] == b[n - 2]);
        }
        assert(bytes_written(c, encoder, t, a.len() + n) =~= bytes_written(
            a,
            encoder,
            t,
            a.len(),
        ) + bytes_written(b, encoder, t, n));
        assert(events_reported(c, encoder, t, a.len() + n) =~= events_reported(
            a,
            encoder,
            t,
            a.len(),
        ) + events_reported(b, encoder, t, n));
    }
}

proof fn lemma_written_prefix(
    a: Seq<Output>,
    b: Seq<Output>,
    encoder: FixEncoder,
    t: UtcTime,
    n: nat,
)
    requires
        n <= a.len(),
    ensures
        bytes_written(a + b, encoder, t, n) == bytes_written(a, encoder, t, n),
        events_reported(a + b, encoder, t, n) == events_reported(a, encoder, t, n),
    decreases n,
{
    if n > 0 {
        lemma_written_prefix(a, b, encoder, t, (n - 1) as nat);
        assert((a + b)[n - 1] == a[n - 1]);
        if n > 1 {
            assert((a + b)[n - 2] == a[n - 2]);
        }
    }
}

/// A chain of events behind another is one chain over both.
proof fn lemma_heard_concat<E: EventSink>(
    a: Seq<EventView>,
    b: Seq<EventView>,
    n: nat,
    x: E,
    y: E,
    z: E,
)
    requires
        n <= b.len(),
        heard_all(a, a.len(), x, y),
        heard_all(b, n, y, z),
    ensures
        heard_all(a + b, a.len() + n, x, z),
    decreases n,
{
    let c = a + b;
    if n == 0 {
        lemma_heard_prefix(a, c, a.len(), x, y);
    } else {
        let between = choose|between: E|
            heard_all(b, (n - 1) as nat, y, between) && #[trigger] E::hears(
                between,
                b[n - 1],
                z,
                Ok(()),
            );
        lemma_heard_concat(a, b, (n - 1) as nat, x, y, between);
        assert((a.len() + n - 1) as nat == a.len() + (n - 1) as nat);
        assert(c[a.len() + n - 1] == b[n - 1]);
        assert(E::hears(between, c[a.len() + n - 1], z, Ok(())));
    }
}

/// An event that is accepted leaves a sink in one way only.
pub open spec fn settled<E: EventSink>() -> bool {
    forall|x: E, event: EventView, y: E, z: E|
        #[trigger] E::hears(x, event, y, Ok(())) && #[trigger] E::hears(x, event, z, Ok(())) ==> y
            == z
}

proof fn lemma_heard_settled<E: EventSink>(events: Seq<EventView>, n: nat, x: E, y: E, z: E)
    requires
        settled::<E>(),
        heard_all(events, n, x, y),
        heard_all(events, n, x, z),
    ensures
        y == z,
    decreases n,
{
    if n > 0 {
        let k = (n - 1) as nat;
        let p = choose|p: E|
            heard_all(events, k, x, p) && #[trigger] E::hears(p, events[n - 1], y, Ok(()));
        let q = choose|q: E|
            heard_all(events, k, x, q) && #[trigger] E::hears(q, events[n - 1], z, Ok(()));
        lemma_heard_settled(events, k, x, p, q);
    }
}

proof fn lemma_run_on<S, C: Clock, E: EventSink>(
    run: Run<S>,
    encoder: FixEncoder,
    clock: C,
    sink: E,
    told: E,
    before: Seq<u8>,
    after: Seq<u8>,
    state: S,
)
    requires
        driven(run, encoder, clock, sink, told, before, after, state, Ok(Progress::Continue)),
    ensures
        state == run.end,
        run.result == Ok::<Progress, ErrorView>(Progress::Continue),
{
    match run.result {
        Ok(p) => {},
        Err(e) => {},
    }
}

proof fn lemma_portions_written<C: Clock, E: EventSink>(
    run0: Run<FeedView>,
    run1: Run<FeedView>,
    run2: Run<FeedView>,
    encoder: FixEncoder,
    clock: C,
    t: UtcTime,
    sinks: (E, E, E, E),
    written: (Seq<u8>, Seq<u8>, Seq<u8>, Seq<u8>),
    ends: (FeedView, FeedView, FeedView),
)
    requires
        in_portions(run0, run1, run2),
        steady(clock, t),
        driven(
            run0,
            encoder,
            clock,
            sinks.0,
            sinks.1,
            written.0,
            written.1,
            ends.0,
            Ok(Progress::Continue),
        ),
        driven(
            run1,
            encoder,
            clock,
            sinks.1,
            sinks.2,
            written.1,
            written.2,
            ends.1,
            Ok(Progress::Continue),
        ),
        driven(
            run2,
            encoder,
            clock,
            sinks.0,
            sinks.3,
            written.0,
            written.3,
            ends.2,
            Ok(Progress::Continue),
        ),
    ensures
        written.3 == written.2,
        ends.2 == ends.1,
        ({
            let first = all_events(run0, encoder, t);
            let second = all_events(run1, encoder, t);
            let both = all_events(run2, encoder, t);
            &&& both == first + second
            &&& heard_all(first, first.len(), sinks.0, sinks.1)
            &&& heard_all(second, second.len(), sinks.1, sinks.2)
            &&& heard_all(both, both.len(), sinks.0, sinks.2)
            &&& heard_all(both, both.len(), sinks.0, sinks.3)
        }),
        settled::<E>() ==> sinks.3 == sinks.2,
{
    let (s0, s1, s2, s3) = sinks;
    let (w0, w1, w2, w3) = written;
    law_a_steady_clock_settles_everything(run0, encoder, clock, t, s0, s1, w0, w1, ends.0);
    law_a_steady_clock_settles_everything(run1, encoder, clock, t, s1, s2, w1, w2, ends.1);
    law_a_steady_clock_settles_everything(run2, encoder, clock, t, s0, s3, w0, w3, ends.2);
    let o0 = spoken(run0);
    let o1 = spoken(run1);
    assert(spoken(run2) == o0 + o1);
    lemma_written_concat(o0, o1, encoder, t, o1.len());
    let b0 = bytes_written(o0, encoder, t, o0.len());
    let b1 = bytes_written(o1, encoder, t, o1.len());
    assert((w0 + b0) + b1 =~= w0 + (b0 + b1));
    let first = all_events(run0, encoder, t);
    let second = all_events(run1, encoder, t);
    let both = all_events(run2, encoder, t);
    lemma_heard_concat(first, second, second.len(), s0, s1, s2);
    if settled::<E>() {
        lemma_heard_settled(both, both.len(), s0, s2, s3);
    }
}

/// How reads cut the byte stream has no effect. One driver is fed `a` and then
/// `b`, and another that is equal to it `a` and `b` at once, with their clocks
/// standing at the same moment and with equal sinks; and neither session ends.
/// Then what is waiting to be written is the same, so are the two sessions and
/// what they have yet to frame, and both sinks have been told the same events in
/// the same order and nothing else. So where an event leaves a sink in one way
/// only, the two sinks are equal in the end.
///
/// `sinks` holds the sink before anything, after `a`, after `b`, and the other
/// one after both; `written` what waits to be written at these four times, and
/// `ends` the driver after each of the three calls.
pub proof fn law_reads_may_cut_anywhere<C: Clock, E: EventSink>(
    feed: FeedView,
    a: Seq<u8>,
    b: Seq<u8>,
    now: nat,
    encoder: FixEncoder,
    clock: C,
    t: UtcTime,
    sinks: (E, E, E, E),
    written: (Seq<u8>, Seq<u8>, Seq<u8>, Seq<u8>),
    ends: (FeedView, FeedView, FeedView),
)
    requires
        feed.decoder.fix_version is Some,
        steady(clock, t),
        driven(
            feed.with(a).feed(now),
            encoder,
            clock,
            sinks.0,
            sinks.1,
            written.0,
            written.1,
            ends.0,
            Ok(Progress::Continue),
        ),
        driven(
            ends.0.with(b).feed(now),
            encoder,
            clock,
            sinks.1,
            sinks.2,
            written.1,
            written.2,
            ends.1,
            Ok(Progress::Continue),
        ),
        driven(
            feed.with(a + b).feed(now),
            encoder,
            clock,
            sinks.0,
            sinks.3,
            written.0,
            written.3,
            ends.2,
            Ok(Progress::Continue),
        ),
    ensures
        written.3 == written.2,
        ends.2 == ends.1,
        ({
            let first = all_events(feed.with(a).feed(now), encoder, t);
            let second = all_events(ends.0.with(b).feed(now), encoder, t);
            let both = all_events(feed.with(a + b).feed(now), encoder, t);
            &&& both == first + second
            &&& heard_all(first, first.len(), sinks.0, sinks.1)
            &&& heard_all(second, second.len(), sinks.1, sinks.2)
            &&& heard_all(both, both.len(), sinks.0, sinks.2)
            &&& heard_all(both, both.len(), sinks.0, sinks.3)
        }),
        settled::<E>() ==> sinks.3 == sinks.2,
{
    law_portions_do_not_matter(feed.with(a), b, now);
    assert((feed.pending + a) + b =~= feed.pending + (a + b));
    assert(feed.with(a).with(b) == feed.with(a + b));
    lemma_run_on(
        feed.with(a).feed(now),
        encoder,
        clock,
        sinks.0,
        sinks.1,
        written.0,
        written.1,
        ends.0,
    );
    lemma_portions_written(
        feed.with(a).feed(now),
        ends.0.with(b).feed(now),
        feed.with(a + b).feed(now),
        encoder,
        clock,
        t,
        sinks,
        written,
        ends,
    );
}

} // verus!
