//! What a session promises about gaps, replays and the Logouts that wait for them.

use vstd::prelude::*;
use vstd::string::*;

use crate::builder::block::{field_of, has_field, last_of, law_set_then_read, lemma_last_of};
use crate::builder::message::{lemma_flattened_readable, names_type, BuilderView};
use crate::builder::value::Typed;
use crate::error::ErrorView;
use crate::repository::FixVersion;
use crate::schema::fields::{
    BEGIN_SEQ_NO, END_SEQ_NO, GAP_FILL_FLAG, MSG_SEQ_NUM, NEW_SEQ_NO, POSS_DUP_FLAG,
    SENDER_COMP_ID, SENDING_TIME, TARGET_COMP_ID, TEST_REQ_ID, TEXT,
};
use crate::session::laws::{law_what_is_not_delivered, lemma_types, numbered_as, undelivered};
use crate::session::protocol::{
    closing, gap_fill_target, new_message, number, text, violation, StateView,
};
use crate::session::replay::ReplayView;
use crate::session::types::{EventView, Output, Progress, Run, SessionView};

verus! {

// ---------------------------------------------------------------------------
// One message on the wire
// ---------------------------------------------------------------------------

/// Setting a field other than MsgType leaves the type where it is named.
proof fn lemma_names_type(m: BuilderView, tag: u32, v: Typed)
    requires
        names_type(m.header, false),
        tag != 35,
    ensures
        names_type(m.with_header(tag, v).header, false),
{
    lemma_last_of(m.header, tag, m.header.len());
}

/// What goes out with one message: the message, in the session's name, and the
/// report of it.
pub open spec fn one_sent(s: StateView, m: BuilderView) -> Seq<(Output, StateView)> {
    seq![
        (Output::Transmit(s.addressed(m).flattened(false), s.session), s),
        (Output::Sent(s.session), s),
    ]
}

/// A message that names its type goes out.
pub(crate) proof fn lemma_emitted(s: StateView, m: BuilderView)
    requires
        names_type(m.header, false),
    ensures
        s.emit(m) == (Run {
            outputs: one_sent(s, m),
            end: s,
            result: Ok::<Progress, ErrorView>(Progress::Continue),
        }),
{
    let a = m.with_header(SENDER_COMP_ID, text(s.id.sender_comp_id));
    let b = a.with_header(TARGET_COMP_ID, text(s.id.target_comp_id));
    lemma_names_type(m, SENDER_COMP_ID, text(s.id.sender_comp_id));
    lemma_names_type(a, TARGET_COMP_ID, text(s.id.target_comp_id));
    lemma_names_type(b, SENDING_TIME, text(""@));
    lemma_flattened_readable(s.addressed(m), false);
}

/// A message under the session's next number.
pub open spec fn next_numbered(s: StateView, m: BuilderView) -> BuilderView {
    m.with_header(MSG_SEQ_NUM, number(s.session.next_out as int))
}

/// A message without a number takes the next one, and goes out.
pub(crate) proof fn lemma_transmitted(s: StateView, m: BuilderView)
    requires
        names_type(m.header, false),
        !has_field(m.header, MSG_SEQ_NUM),
        s.session.next_out < u32::MAX,
    ensures
        s.transmit(m) == (Run {
            outputs: one_sent(s.numbered(), next_numbered(s, m)),
            end: s.numbered(),
            result: Ok::<Progress, ErrorView>(Progress::Continue),
        }),
        field_of(next_numbered(s, m).header, MSG_SEQ_NUM) == Some(
            number(s.session.next_out as int),
        ),
{
    lemma_names_type(m, MSG_SEQ_NUM, number(s.session.next_out as int));
    lemma_emitted(s.numbered(), next_numbered(s, m));
    law_set_then_read(
        m.header,
        MSG_SEQ_NUM,
        number(s.session.next_out as int),
        MSG_SEQ_NUM,
    );
}

/// A new message names its type, and has no number.
pub(crate) proof fn lemma_new_message(m: BuilderView, fix: FixVersion, t: Seq<char>)
    requires
        new_message(fix, t) == Ok::<BuilderView, ErrorView>(m),
    ensures
        names_type(m.header, false),
        !has_field(m.header, MSG_SEQ_NUM),
{
    reveal_with_fuel(last_of, 3);
}

// ---------------------------------------------------------------------------
// Gaps
// ---------------------------------------------------------------------------

/// The request for everything from the next expected number on.
pub open spec fn resend_request(s: StateView, m: BuilderView) -> BuilderView {
    m.with_body(BEGIN_SEQ_NO, number(s.session.next_in as int)).with_body(END_SEQ_NO, number(0))
}

/// A message beyond the next expected one is not delivered, the session goes on,
/// and the next expected number stays. Where no request is outstanding, exactly
/// one message goes out: an open-ended ResendRequest from the first missing
/// number on. While one is outstanding, nothing does.
pub proof fn law_a_gap(s: StateView, msg: BuilderView, seq: u32, m: BuilderView)
    requires
        numbered_as(msg, seq),
        seq > s.session.next_in,
        msg.msg_type() != "2"@ && msg.msg_type() != "5"@ && msg.msg_type() != "4"@,
        new_message(msg.fix_version, "2"@) == Ok::<BuilderView, ErrorView>(m),
        s.session.next_out < u32::MAX,
    ensures
        ({
            let run = s.handle(msg);
            let t = StateView { rerequest: Some(seq), ..s };
            let request = resend_request(s, m);
            &&& run.result == Ok::<Progress, ErrorView>(Progress::Continue)
            &&& run.end.session.next_in == s.session.next_in
            &&& undelivered(run)
            &&& s.rerequest is Some ==> run == Run::go(s)
            &&& s.rerequest is None ==> run.outputs == one_sent(
                t.numbered(),
                next_numbered(t, request),
            ) && run.end == t.numbered()
            &&& field_of(request.body, BEGIN_SEQ_NO) == Some(number(s.session.next_in as int))
            &&& field_of(request.body, END_SEQ_NO) == Some(number(0))
        }),
{
    let t = StateView { rerequest: Some(seq), ..s };
    let a = m.with_body(BEGIN_SEQ_NO, number(s.session.next_in as int));
    let request = resend_request(s, m);
    law_set_then_read(m.body, BEGIN_SEQ_NO, number(s.session.next_in as int), END_SEQ_NO);
    law_set_then_read(a.body, END_SEQ_NO, number(0), BEGIN_SEQ_NO);
    lemma_new_message(m, msg.fix_version, "2"@);
    lemma_transmitted(t, request);
    law_what_is_not_delivered(s, msg, seq);
    assert(s.handle(msg) == s.handle_gap(msg, seq));
    if s.rerequest is None {
        assert(s.handle(msg).outputs =~= one_sent(t.numbered(), next_numbered(t, request)));
    } else {
        assert(s.handle(msg).outputs =~= seq![]);
    }
}

/// The number that an in-sequence message takes the session to.
pub open spec fn advances_to(s: StateView, msg: BuilderView, next: u32) -> bool {
    &&& numbered_as(msg, s.session.next_in)
    &&& next > s.session.next_in
    &&& if msg.msg_type() == "4"@ {
        gap_fill_target(msg) == Ok::<u32, ErrorView>(next)
    } else {
        next == s.session.next_in + 1
    }
}

/// Acting on a message leaves the expected number, what is outstanding, and a
/// Logout that waits as they are.
proof fn lemma_dispatch_keeps(s: StateView, msg: BuilderView)
    ensures
        s.dispatch(msg).end.session.next_in == s.session.next_in,
        s.dispatch(msg).end.rerequest == s.rerequest,
        s.dispatch(msg).end.logout_pending == s.logout_pending,
{
}

/// An in-sequence message is acted on in the state that it takes the session to.
proof fn lemma_in_sequence(s: StateView, msg: BuilderView, next: u32)
    requires
        advances_to(s, msg, next),
    ensures
        s.handle(msg) == s.advanced(next).settle(msg),
{
}

/// Once the next expected number has reached the message that a gap was first
/// seen at, the gap is over: the next message beyond the expected number is a
/// new gap, and makes a new ResendRequest.
pub proof fn law_a_later_gap_is_requested_anew(
    s: StateView,
    closing_msg: BuilderView,
    next: u32,
    last: u32,
    msg: BuilderView,
    seq: u32,
    m: BuilderView,
)
    requires
        s.rerequest == Some(last),
        advances_to(s, closing_msg, next),
        next >= last,
        s.handle(closing_msg).result == Ok::<Progress, ErrorView>(Progress::Continue),
        numbered_as(msg, seq),
        seq > next,
        msg.msg_type() != "2"@ && msg.msg_type() != "5"@ && msg.msg_type() != "4"@,
        new_message(msg.fix_version, "2"@) == Ok::<BuilderView, ErrorView>(m),
        s.handle(closing_msg).end.session.next_out < u32::MAX,
    ensures
        ({
            let r = s.handle(closing_msg).end;
            let t = StateView { rerequest: Some(seq), ..r };
            &&& r.rerequest is None
            &&& r.session.next_in == next
            &&& r.handle(msg).outputs == one_sent(
                t.numbered(),
                next_numbered(t, resend_request(r, m)),
            )
            &&& r.handle(msg).result == Ok::<Progress, ErrorView>(Progress::Continue)
        }),
{
    let t = s.advanced(next);
    lemma_in_sequence(s, closing_msg, next);
    lemma_dispatch_keeps(t, closing_msg);
    let r = s.handle(closing_msg).end;
    assert(r.rerequest is None && r.session.next_in == next);
    law_a_gap(r, msg, seq, m);
}

/// Nothing goes out on the wire.
pub open spec fn nothing_sent(outputs: Seq<(Output, StateView)>) -> bool {
    forall|i: int| 0 <= i < outputs.len() ==> !((#[trigger] outputs[i]).0 is Transmit)
}

/// A Logout that waits goes on waiting while the gap is open: an in-sequence
/// message that does not close it is acted on, and nothing more is done. Acting
/// on it puts nothing on the wire, but for the Heartbeat that answers a
/// TestRequest, and but for a Logout in sequence, which is acknowledged itself.
pub proof fn law_a_waiting_logout_goes_on_waiting(
    s: StateView,
    msg: BuilderView,
    next: u32,
    last: u32,
)
    requires
        s.logout_pending,
        s.rerequest == Some(last),
        advances_to(s, msg, next),
        next < last,
    ensures
        ({
            let t = s.advanced(next);
            let run = s.handle(msg);
            &&& run.end.logout_pending
            &&& run.end.rerequest == Some(last)
            &&& run.end.session.next_in == next
            &&& run.outputs == t.dispatch(msg).outputs
            &&& run.result == t.dispatch(msg).result
            &&& msg.msg_type() != "1"@ && msg.msg_type() != "5"@ ==> nothing_sent(run.outputs)
            &&& msg.msg_type() == "1"@ ==> run.outputs == seq![
                (Output::Event(EventView::SessionState(t.session)), t),
            ] + t.answer_test_request(msg).outputs
        }),
{
    let t = s.advanced(next);
    lemma_types();
    lemma_in_sequence(s, msg, next);
    lemma_dispatch_keeps(t, msg);
    assert(t.settle(msg).outputs =~= t.dispatch(msg).outputs);
}

/// The Logout that acknowledges another.
pub open spec fn acknowledgement(m: BuilderView) -> BuilderView {
    m.with_body(TEXT, text(closing()))
}

/// Whichever in-sequence message closes the gap, a Logout that was waiting is
/// then acknowledged: behind what acting on the message puts out, exactly one
/// message goes out, a Logout, and the session is over. Where the message is a
/// Logout itself, acting on it is what puts that Logout out.
pub proof fn law_a_waiting_logout_is_acknowledged_once(
    s: StateView,
    msg: BuilderView,
    next: u32,
    m: BuilderView,
)
    requires
        s.logout_pending,
        s.rerequest matches Some(last) ==> next >= last,
        advances_to(s, msg, next),
        s.advanced(next).dispatch(msg).result is Ok,
        s.advanced(next).dispatch(msg).end.session.next_out < u32::MAX,
        s.session.next_out < u32::MAX,
        new_message(s.session.fix_version, "5"@) == Ok::<BuilderView, ErrorView>(m),
    ensures
        ({
            let t = s.advanced(next);
            let acted = if msg.msg_type() == "5"@ {
                Run::event(t, EventView::SessionState(t.session))
            } else {
                t.dispatch(msg)
            };
            let u = acted.end;
            &&& s.handle(msg).outputs == acted.outputs + one_sent(
                u.numbered(),
                next_numbered(u, acknowledgement(m)),
            )
            &&& s.handle(msg).end.session.next_in == next
            &&& s.handle(msg).result == Ok::<Progress, ErrorView>(Progress::Close)
        }),
{
    let t = s.advanced(next);
    let d = t.dispatch(msg);
    lemma_types();
    lemma_in_sequence(s, msg, next);
    lemma_dispatch_keeps(t, msg);
    lemma_new_message(m, s.session.fix_version, "5"@);
    if msg.msg_type() == "5"@ {
        lemma_transmitted(t, acknowledgement(m));
        assert(t.act_on(msg) == t.logout(closing()).giving(Progress::Close));
    } else {
        lemma_dispatch_goes_on(t, msg);
        lemma_transmitted(d.end, acknowledgement(m));
    }
}

/// Nothing but a Logout ends the session when it is acted on, and acting on a
/// message leaves the version.
proof fn lemma_dispatch_goes_on(s: StateView, msg: BuilderView)
    requires
        msg.msg_type() != "5"@,
    ensures
        s.dispatch(msg).result is Ok ==> s.dispatch(msg).result == Ok::<Progress, ErrorView>(
            Progress::Continue,
        ),
        s.dispatch(msg).end.session.fix_version == s.session.fix_version,
{
}

// ---------------------------------------------------------------------------
// Replays
// ---------------------------------------------------------------------------

/// The session `i` outbound numbers further on.
pub open spec fn ahead(s: StateView, i: nat) -> StateView {
    StateView {
        session: SessionView { next_out: (s.session.next_out + i) as u32, ..s.session },
        ..s
    }
}

/// An application's message, freed of the number and the mark it came with.
pub open spec fn freed(m: BuilderView) -> BuilderView {
    m.with_header(MSG_SEQ_NUM, Typed::Empty).with_header(POSS_DUP_FLAG, Typed::Empty)
}

/// What goes out when the first `n` of these are sent one after the other.
pub open spec fn sent_in_turn(s: StateView, queue: Seq<BuilderView>, n: nat) -> Seq<
    (Output, StateView),
>
    decreases n,
{
    if n == 0 {
        seq![]
    } else {
        let before = ahead(s, (n - 1) as nat);
        sent_in_turn(s, queue, (n - 1) as nat) + one_sent(
            before.numbered(),
            next_numbered(before, freed(queue[n - 1])),
        )
    }
}

proof fn lemma_sent_in_turn(s: StateView, queue: Seq<BuilderView>, n: nat)
    requires
        s.replay is None,
        n <= queue.len(),
        s.session.next_out + n < u32::MAX,
        forall|i: int| 0 <= i < queue.len() ==> names_type((#[trigger] queue[i]).header, false),
    ensures
        s.send_all(queue, n) == (Run {
            outputs: sent_in_turn(s, queue, n),
            end: ahead(s, n),
            result: Ok::<Progress, ErrorView>(Progress::Continue),
        }),
    decreases n,
{
    if n == 0 {
        assert(ahead(s, 0) == s);
    } else {
        let k = (n - 1) as nat;
        lemma_sent_in_turn(s, queue, k);
        let before = ahead(s, k);
        let m = queue[n - 1];
        let a = m.with_header(MSG_SEQ_NUM, Typed::Empty);
        assert(names_type(m.header, false));
        lemma_names_type(m, MSG_SEQ_NUM, Typed::Empty);
        lemma_names_type(a, POSS_DUP_FLAG, Typed::Empty);
        law_set_then_read(m.header, MSG_SEQ_NUM, Typed::Empty, MSG_SEQ_NUM);
        law_set_then_read(a.header, POSS_DUP_FLAG, Typed::Empty, MSG_SEQ_NUM);
        lemma_transmitted(before, freed(m));
        assert(before.numbered() == ahead(s, n));
        assert(before.send(m) == before.transmit(freed(m)));
    }
}

/// The SequenceReset that skips over `begin..=end`.
pub open spec fn gap_fill_message(m: BuilderView, begin: u32, end: u32) -> BuilderView {
    m.with_body(GAP_FILL_FLAG, text("Y"@)).with_header(
        MSG_SEQ_NUM,
        number(begin as int),
    ).with_body(NEW_SEQ_NO, number(end + 1))
}

/// The TestRequest that asks the peer to confirm that both sides are in step.
pub open spec fn synchronising(s: StateView, m: BuilderView) -> BuilderView {
    m.with_body(TEST_REQ_ID, text(s.counted().test_id("HELO-"@)))
}

/// What a gap fill says: its own number is the first that it skips, and the next
/// to expect is the one behind the last.
proof fn lemma_gap_fill_message(s: StateView, m: BuilderView, begin: u32, end: u32)
    requires
        new_message(s.session.fix_version, "4"@) == Ok::<BuilderView, ErrorView>(m),
    ensures
        s.gap_fill(begin, end) == (Run {
            outputs: one_sent(s, gap_fill_message(m, begin, end)),
            end: s,
            result: Ok::<Progress, ErrorView>(Progress::Continue),
        }),
        ({
            let g = gap_fill_message(m, begin, end);
            &&& field_of(g.header, MSG_SEQ_NUM) == Some(number(begin as int))
            &&& field_of(g.body, GAP_FILL_FLAG) == Some(text("Y"@))
            &&& field_of(g.body, NEW_SEQ_NO) == Some(number(end + 1))
        }),
{
    let a = m.with_body(GAP_FILL_FLAG, text("Y"@));
    let b = a.with_header(MSG_SEQ_NUM, number(begin as int));
    lemma_new_message(m, s.session.fix_version, "4"@);
    law_set_then_read(m.body, GAP_FILL_FLAG, text("Y"@), NEW_SEQ_NO);
    law_set_then_read(a.header, MSG_SEQ_NUM, number(begin as int), MSG_SEQ_NUM);
    law_set_then_read(b.body, NEW_SEQ_NO, number(end + 1), GAP_FILL_FLAG);
    lemma_names_type(a, MSG_SEQ_NUM, number(begin as int));
    lemma_emitted(s, gap_fill_message(m, begin, end));
}

/// What goes out when a replay is completed, and in what order: where a tail of
/// the range is not yet accounted for, one gap fill over it; then the messages
/// that were held back, in the order they came, under the next numbers in turn;
/// then a TestRequest, with a TestReqID of its own, under the number behind them.
/// No replay is running after that. Without a replay it is an error, and nothing goes out.
pub proof fn law_what_completing_a_replay_sends(
    s: StateView,
    fill: BuilderView,
    probe: BuilderView,
)
    requires
        new_message(s.session.fix_version, "4"@) == Ok::<BuilderView, ErrorView>(fill),
        new_message(s.session.fix_version, "1"@) == Ok::<BuilderView, ErrorView>(probe),
        s.replay matches Some(replay) ==> {
            &&& s.session.next_out + replay.queue.len() < u32::MAX
            &&& forall|i: int|
                0 <= i < replay.queue.len() ==> names_type(
                    (#[trigger] replay.queue[i]).header,
                    false,
                )
        },
    ensures
        s.replay is None ==> s.complete_replay() == Run::<StateView>::fail(
            s,
            violation("No replay in progress"@),
        ),
        s.replay matches Some(replay) ==> {
            let run = s.complete_replay();
            let held = StateView { replay: Some(ReplayView { queue: seq![], ..replay }), ..s };
            let free = StateView { replay: None, ..s };
            let k = replay.queue.len();
            let t = ahead(free, k).counted();
            &&& run.outputs == (match replay.trailing() {
                Some((begin, end)) => one_sent(held, gap_fill_message(fill, begin, end)),
                None => seq![],
            }) + sent_in_turn(free, replay.queue, k) + one_sent(
                t.numbered(),
                next_numbered(t, synchronising(ahead(free, k), probe)),
            )
            &&& run.result == Ok::<Progress, ErrorView>(Progress::Continue)
            &&& run.end.replay is None
            &&& run.end.session.next_out == s.session.next_out + k + 1
            &&& run.end.recovery == Some(t.test_id("HELO-"@))
        },
        s.replay matches Some(replay) ==> {
            let free = StateView { replay: None, ..s };
            let k = replay.queue.len();
            let t = ahead(free, k).counted();
            let last = next_numbered(t, synchronising(ahead(free, k), probe));
            &&& replay.trailing() matches Some((begin, end)) ==> {
                let g = gap_fill_message(fill, begin, end);
                &&& field_of(g.header, MSG_SEQ_NUM) == Some(number(begin as int))
                &&& field_of(g.body, GAP_FILL_FLAG) == Some(text("Y"@))
                &&& field_of(g.body, NEW_SEQ_NO) == Some(number(end + 1))
            }
            &&& forall|i: int|
                0 <= i < k ==> field_of(
                    next_numbered(ahead(free, i as nat), freed(#[trigger] replay.queue[i])).header,
                    MSG_SEQ_NUM,
                ) == Some(number(s.session.next_out + i))
            &&& field_of(last.header, MSG_SEQ_NUM) == Some(number(s.session.next_out + k))
            &&& field_of(last.body, TEST_REQ_ID) == Some(text(t.test_id("HELO-"@)))
        },
{
    if let Some(replay) = s.replay {
        let held = StateView { replay: Some(ReplayView { queue: seq![], ..replay }), ..s };
        let free = StateView { replay: None, ..s };
        let k = replay.queue.len();
        let filled = match replay.trailing() {
            Some((begin, end)) => held.gap_fill(begin, end),
            None => Run::go(held),
        };
        if let Some((begin, end)) = replay.trailing() {
            lemma_gap_fill_message(held, fill, begin, end);
        }
        assert(filled.end == held);
        assert(StateView { replay: None, ..filled.end } == free);
        lemma_sent_in_turn(free, replay.queue, k);
        let released = filled.followed_by(free.send_all(replay.queue, k));
        let u = ahead(free, k);
        let t = u.counted();
        lemma_new_message(probe, s.session.fix_version, "1"@);
        lemma_transmitted(t, synchronising(u, probe));
        law_set_then_read(
            probe.body,
            TEST_REQ_ID,
            text(t.test_id("HELO-"@)),
            TEST_REQ_ID,
        );
        assert forall|i: int| 0 <= i < k implies field_of(
            next_numbered(ahead(free, i as nat), freed(#[trigger] replay.queue[i])).header,
            MSG_SEQ_NUM,
        ) == Some(number(s.session.next_out + i)) by {
            law_set_then_read(
                freed(replay.queue[i]).header,
                MSG_SEQ_NUM,
                number(s.session.next_out + i),
                MSG_SEQ_NUM,
            );
        }
        assert(released.end == u);
        let sync = u.synchronise();
        assert(sync.outputs =~= one_sent(
            t.numbered(),
            next_numbered(t, synchronising(u, probe)),
        ));
        assert(s.complete_replay() == released.followed_by(sync));
        assert(s.complete_replay().outputs =~= filled.outputs + sent_in_turn(
            free,
            replay.queue,
            k,
        ) + sync.outputs);
    }
}

} // verus!
