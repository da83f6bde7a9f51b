//! What the session protocol promises as a whole.

use vstd::prelude::*;
use vstd::string::*;

use crate::builder::block::{field_of, has_field, law_removed_is_absent, law_set_then_read};
use crate::builder::message::{taken_apart, BuilderView};
use crate::builder::value::Typed;
use crate::clock::after;
use crate::error::ErrorView;
use crate::message::{admin_type, MessageView};
use crate::schema::fields::{
    BEGIN_SEQ_NO, END_SEQ_NO, MSG_SEQ_NUM, ORIG_SENDING_TIME, POSS_DUP_FLAG, SENDER_COMP_ID,
    SENDING_TIME, TARGET_COMP_ID, TEST_REQ_ID, TEXT,
};
use crate::session::protocol::{
    closing, gap_fill_target, new_message, number, number_in, text, too_low, StateView, TimersView,
};
use crate::session::replay::ReplayView;
use crate::session::types::{CommandView, EventView, Output, Progress, Run};

verus! {

// ---------------------------------------------------------------------------
// What every step keeps
// ---------------------------------------------------------------------------

/// Sequence numbers did not go back from `a` to `b`, and the identity, the
/// settings and the clocks are the same.
pub open spec fn kept(a: StateView, b: StateView) -> bool {
    &&& a.session.next_out <= b.session.next_out
    &&& a.session.next_in <= b.session.next_in
    &&& a.session.heartbeat == b.session.heartbeat
    &&& a.session.fix_version == b.session.fix_version
    &&& a.session.time_precision == b.session.time_precision
    &&& a.id == b.id
    &&& a.timers == b.timers
}

/// All through a run that starts in `s`, what should be kept is kept.
pub open spec fn steady(s: StateView, run: Run<StateView>) -> bool {
    &&& kept(s, run.end)
    &&& forall|i: int|
        0 <= i < run.outputs.len() ==> kept(s, (#[trigger] run.outputs[i]).1) && kept(
            run.outputs[i].1,
            run.end,
        )
    &&& forall|i: int, j: int|
        0 <= i < j < run.outputs.len() ==> kept(
            (#[trigger] run.outputs[i]).1,
            (#[trigger] run.outputs[j]).1,
        )
}

proof fn lemma_steady_then(s: StateView, a: Run<StateView>, b: Run<StateView>)
    requires
        steady(s, a),
        steady(a.end, b),
    ensures
        steady(s, a.followed_by(b)),
{
    let run = a.followed_by(b);
    if a.result == Ok::<Progress, ErrorView>(Progress::Continue) {
        let n = a.outputs.len() as int;
        assert forall|i: int| 0 <= i < run.outputs.len() implies kept(
            s,
            (#[trigger] run.outputs[i]).1,
        ) && kept(run.outputs[i].1, run.end) by {
            if i < n {
                assert(run.outputs[i] == a.outputs[i]);
            } else {
                assert(run.outputs[i] == b.outputs[i - n]);
            }
        }
        assert forall|i: int, j: int| 0 <= i < j < run.outputs.len() implies kept(
            (#[trigger] run.outputs[i]).1,
            (#[trigger] run.outputs[j]).1,
        ) by {
            if j < n {
                assert(run.outputs[i] == a.outputs[i] && run.outputs[j] == a.outputs[j]);
            } else if i < n {
                assert(run.outputs[i] == a.outputs[i] && run.outputs[j] == b.outputs[j - n]);
            } else {
                assert(run.outputs[i] == b.outputs[i - n] && run.outputs[j] == b.outputs[j - n]);
            }
        }
    }
}

proof fn lemma_steady_from(s: StateView, t: StateView, run: Run<StateView>)
    requires
        kept(s, t),
        steady(t, run),
    ensures
        steady(s, run),
{
}

proof fn lemma_steady_transmit(s: StateView, msg: BuilderView)
    ensures
        steady(s, s.transmit(msg)),
{
}

proof fn lemma_steady_send(s: StateView, msg: BuilderView)
    ensures
        steady(s, s.send(msg)),
{
    if s.replay is None {
        lemma_steady_transmit(
            s,
            msg.with_header(MSG_SEQ_NUM, Typed::Empty).with_header(POSS_DUP_FLAG, Typed::Empty),
        );
    }
}

proof fn lemma_steady_send_all(s: StateView, queue: Seq<BuilderView>, n: nat)
    ensures
        steady(s, s.send_all(queue, n)),
    decreases n,
{
    if n > 0 {
        lemma_steady_send_all(s, queue, (n - 1) as nat);
        let before = s.send_all(queue, (n - 1) as nat);
        lemma_steady_send(before.end, queue[n - 1]);
        lemma_steady_then(s, before, before.end.send(queue[n - 1]));
    }
}

proof fn lemma_steady_synchronise(s: StateView)
    ensures
        steady(s, s.synchronise()),
{
    let c = s.counted();
    if let Ok(m) = new_message(c.session.fix_version, "1"@) {
        let m1 = m.with_body(
            crate::schema::fields::TEST_REQ_ID,
            text(c.test_id("HELO-"@)),
        );
        lemma_steady_transmit(c, m1);
        let sent = c.transmit(m1);
        let rest = Run::go(StateView { recovery: Some(c.test_id("HELO-"@)), ..sent.end });
        lemma_steady_then(c, sent, rest);
        lemma_steady_from(s, c, sent.followed_by(rest));
    }
}

proof fn lemma_steady_replay(s: StateView, msg: BuilderView)
    ensures
        steady(s, s.replay_message(msg)),
{
    if let Ok(seq) = number_in(
        msg.header,
        MSG_SEQ_NUM,
        "No MsgSeqNum in replay message"@,
        "MsgSeqNum is not an integer"@,
    ) {
        if let Some(replay) = s.replay {
            let (next, step) = replay.offer(seq, admin_type(msg.msg_type()));
            let t = StateView { replay: Some(next), ..s };
            if let crate::session::replay::ReplayStep::Retransmit { gap_fill } = step {
                let filled = match gap_fill {
                    Some((begin, end)) => t.gap_fill(begin, end),
                    None => Run::go(t),
                };
                assert(steady(t, filled));
                assert(steady(filled.end, filled.end.retransmit(msg)));
                lemma_steady_then(t, filled, filled.end.retransmit(msg));
                lemma_steady_from(s, t, filled.followed_by(filled.end.retransmit(msg)));
            }
        }
    }
}

proof fn lemma_steady_complete_replay(s: StateView)
    ensures
        steady(s, s.complete_replay()),
{
    if let Some(replay) = s.replay {
        let t = StateView { replay: Some(ReplayView { queue: seq![], ..replay }), ..s };
        let filled = match replay.trailing() {
            Some((begin, end)) => t.gap_fill(begin, end),
            None => Run::go(t),
        };
        assert(steady(t, filled));
        let u = StateView { replay: None, ..filled.end };
        let sending = u.send_all(replay.queue, replay.queue.len());
        lemma_steady_send_all(u, replay.queue, replay.queue.len());
        lemma_steady_from(filled.end, u, sending);
        let released = filled.followed_by(sending);
        lemma_steady_then(t, filled, sending);
        lemma_steady_synchronise(released.end);
        lemma_steady_then(t, released, released.end.synchronise());
        lemma_steady_from(s, t, released.followed_by(released.end.synchronise()));
    }
}

proof fn lemma_steady_dispatch(s: StateView, msg: BuilderView)
    ensures
        steady(s, s.dispatch(msg)),
{
    if msg.msg_type() == "1"@ {
        if let Ok(m) = new_message(msg.fix_version, "0"@) {
            if let Some(v) = field_of(msg.body, crate::schema::fields::TEST_REQ_ID) {
                lemma_steady_send(
                    s,
                    m.with_body(crate::schema::fields::TEST_REQ_ID, text(v.text())),
                );
            }
        }
    }
    assert(steady(s, s.act_on(msg)));
    lemma_steady_then(
        s,
        Run::event(s, EventView::SessionState(s.session)),
        s.act_on(msg),
    );
}

proof fn lemma_steady_settle(s: StateView, msg: BuilderView)
    ensures
        steady(s, s.settle(msg)),
{
    let done = s.dispatch(msg);
    lemma_steady_dispatch(s, msg);
    let rest = if done.end.logout_pending && done.end.rerequest is None {
        done.end.logout(closing()).giving(Progress::Close)
    } else {
        Run::go(done.end)
    };
    assert(steady(done.end, rest));
    lemma_steady_then(s, done, rest);
}

proof fn lemma_steady_gap(s: StateView, msg: BuilderView, seq: u32)
    ensures
        steady(s, s.handle_gap(msg, seq)),
{
    let requested = match s.rerequest {
        Some(_) => Run::go(s),
        None => match new_message(msg.fix_version, "2"@) {
            Err(e) => Run::fail(s, e),
            Ok(m) => StateView { rerequest: Some(seq), ..s }.transmit(
                m.with_body(BEGIN_SEQ_NO, number(s.session.next_in as int)).with_body(
                    END_SEQ_NO,
                    number(0),
                ),
            ),
        },
    };
    let t = StateView { rerequest: Some(seq), ..s };
    assert(steady(s, requested)) by {
        if requested.outputs.len() > 0 {
            assert(steady(t, requested));
        }
    }
    let rest = if msg.msg_type() == "2"@ {
        requested.end.dispatch(msg)
    } else if msg.msg_type() == "5"@ {
        Run::go(StateView { logout_pending: true, ..requested.end })
    } else {
        Run::go(requested.end)
    };
    lemma_steady_dispatch(requested.end, msg);
    assert(steady(requested.end, rest));
    lemma_steady_then(s, requested, rest);
}

/// Handling a message keeps the clocks, the identity and the settings, and
/// takes no sequence number back.
proof fn lemma_steady_handle(s: StateView, msg: BuilderView)
    ensures
        steady(s, s.handle(msg)),
{
    if let Ok(seq) = number_in(
        msg.header,
        MSG_SEQ_NUM,
        "Missing MsgSeqNum"@,
        "MsgSeqNum is not an integer"@,
    ) {
        let is_fill = msg.msg_type() == "4"@;
        if is_fill && gap_fill_target(msg) is Err {
        } else if seq < s.session.next_in {
            assert(steady(s, s.handle(msg)));
        } else if seq > s.session.next_in {
            lemma_steady_gap(s, msg, seq);
        } else if is_fill {
            let target = gap_fill_target(msg)->Ok_0;
            if target > seq {
                lemma_steady_settle(s.advanced(target), msg);
                lemma_steady_from(s, s.advanced(target), s.advanced(target).settle(msg));
            }
        } else if seq < u32::MAX {
            let t = s.advanced((seq + 1) as u32);
            lemma_steady_settle(t, msg);
            lemma_steady_from(s, t, t.settle(msg));
        }
    }
}

// ---------------------------------------------------------------------------
// Laws
// ---------------------------------------------------------------------------

/// A frame that arrives is evidence that the peer is alive, whatever becomes of
/// it: its deadline starts anew and nothing counts as missed. Our own heartbeat
/// is not put off by it, nor by anything sent in reply. The sequence numbers in
/// the reports along the way never go back.
pub proof fn law_inbound_frames(s: StateView, msg: MessageView, now: nat)
    ensures
        ({
            let run = s.on_message(msg, now);
            &&& steady(s.heard(now), run)
            &&& run.end.timers.next_in == after(now, s.timers.interval)
            &&& run.end.timers.missed == 0
            &&& run.end.timers.next_out == s.timers.next_out
            &&& run.end.session.next_in >= s.session.next_in
            &&& run.end.session.next_out >= s.session.next_out
        }),
{
    let t = s.heard(now);
    if let Ok(m) = taken_apart(msg) {
        let first = Run::event(t, EventView::RawMessageReceived(msg, t.session));
        lemma_steady_handle(t, m);
        lemma_steady_then(t, first, t.handle(m));
    }
}

/// Every command puts off our own heartbeat, and no command touches the peer's
/// deadline. The sequence numbers never go back.
pub proof fn law_commands(s: StateView, cmd: CommandView, now: nat)
    ensures
        ({
            let run = s.on_command(cmd, now);
            &&& steady(s.spoke(now), run)
            &&& run.end.timers.next_out == after(now, s.timers.interval)
            &&& run.end.timers.next_in == s.timers.next_in
            &&& run.end.timers.missed == s.timers.missed
            &&& run.end.session.next_in >= s.session.next_in
            &&& run.end.session.next_out >= s.session.next_out
        }),
{
    let t = s.spoke(now);
    match cmd {
        CommandView::Send(msg) => {
            lemma_steady_send(t, msg);
        },
        CommandView::Replay(msg) => {
            lemma_steady_replay(t, msg);
        },
        CommandView::ReplayComplete => {
            lemma_steady_complete_replay(t);
        },
        CommandView::Disconnect => {
            if let Ok(m) = new_message(t.session.fix_version, "5"@) {
                lemma_steady_send(
                    t,
                    m.with_body(
                        crate::schema::fields::TEXT,
                        text("Disconnect requested by application"@),
                    ),
                );
            }
        },
    }
}

/// Nothing fires before its deadline, however often one asks.
pub proof fn law_nothing_fires_early(s: StateView, now: nat)
    requires
        now < s.deadline(),
    ensures
        s.on_timeout(now).outputs.len() == 0,
        s.on_timeout(now).end == s,
        s.on_timeout(now).result == Ok::<Progress, ErrorView>(Progress::Continue),
{
}

/// The first missed heartbeat is only noted; the second is met with a
/// TestRequest; from the third on a Logout is sent and the session ends. While a
/// replay holds messages back, the two wait with them.
pub proof fn law_missed_heartbeats_escalate(
    s: StateView,
    now: nat,
    probe: BuilderView,
    logout: BuilderView,
)
    requires
        now >= s.timers.next_in,
        new_message(s.session.fix_version, "1"@) == Ok::<BuilderView, ErrorView>(probe),
        new_message(s.session.fix_version, "5"@) == Ok::<BuilderView, ErrorView>(logout),
    ensures
        ({
            let run = s.miss(now);
            let missed = if s.timers.missed == u32::MAX {
                u32::MAX
            } else {
                (s.timers.missed + 1) as u32
            };
            let t = StateView {
                timers: TimersView {
                    next_in: after(now, s.timers.interval),
                    missed,
                    ..s.timers
                },
                ..s
            };
            &&& s.timers.missed == 0 ==> run == Run::go(t)
            &&& s.timers.missed == 1 ==> run == t.counted().send(
                probe.with_body(TEST_REQ_ID, text(t.counted().test_id("HB"@))),
            )
            &&& s.timers.missed >= 2 ==> run == t.send(
                logout.with_body(TEXT, text("Heartbeat timeout"@)),
            ).giving(Progress::Close)
            &&& s.timers.missed >= 2 ==> run.result != Ok::<Progress, ErrorView>(
                Progress::Continue,
            )
        }),
{
}

/// Whatever the application put there, a message goes out under the session's
/// own identity, with an empty slot for the time, and with its number kept.
pub proof fn law_session_owns_the_identity(s: StateView, msg: BuilderView)
    ensures
        ({
            let header = s.addressed(msg).header;
            &&& field_of(header, SENDER_COMP_ID) == Some(text(s.id.sender_comp_id))
            &&& field_of(header, TARGET_COMP_ID) == Some(text(s.id.target_comp_id))
            &&& field_of(header, SENDING_TIME) == Some(text(""@))
            &&& field_of(header, MSG_SEQ_NUM) == field_of(msg.header, MSG_SEQ_NUM)
            &&& s.addressed(msg).body == msg.body
        }),
{
    let a = msg.with_header(SENDER_COMP_ID, text(s.id.sender_comp_id));
    let b = a.with_header(TARGET_COMP_ID, text(s.id.target_comp_id));
    law_set_then_read(msg.header, SENDER_COMP_ID, text(s.id.sender_comp_id), MSG_SEQ_NUM);
    law_set_then_read(a.header, TARGET_COMP_ID, text(s.id.target_comp_id), MSG_SEQ_NUM);
    law_set_then_read(a.header, TARGET_COMP_ID, text(s.id.target_comp_id), SENDER_COMP_ID);
    law_set_then_read(b.header, SENDING_TIME, text(""@), MSG_SEQ_NUM);
    law_set_then_read(b.header, SENDING_TIME, text(""@), SENDER_COMP_ID);
    law_set_then_read(b.header, SENDING_TIME, text(""@), TARGET_COMP_ID);
}

/// A message that the application sends takes the next outbound number, which
/// is used up by it, whatever number it came with, and it does not go out as a
/// possible duplicate.
pub proof fn law_sends_are_numbered_in_turn(s: StateView, msg: BuilderView)
    requires
        s.replay is None,
        s.session.next_out < u32::MAX,
    ensures
        ({
            let run = s.send(msg);
            let m = msg.with_header(MSG_SEQ_NUM, Typed::Empty).with_header(
                POSS_DUP_FLAG,
                Typed::Empty,
            ).with_header(MSG_SEQ_NUM, number(s.session.next_out as int));
            &&& run == s.numbered().emit(m)
            &&& run.end.session.next_out == s.session.next_out + 1
            &&& field_of(m.header, MSG_SEQ_NUM) == Some(number(s.session.next_out as int))
            &&& !has_field(m.header, POSS_DUP_FLAG)
        }),
{
    let a = msg.with_header(MSG_SEQ_NUM, Typed::Empty);
    let b = a.with_header(POSS_DUP_FLAG, Typed::Empty);
    law_removed_is_absent(msg.header, MSG_SEQ_NUM, MSG_SEQ_NUM);
    law_removed_is_absent(a.header, POSS_DUP_FLAG, MSG_SEQ_NUM);
    law_set_then_read(
        b.header,
        MSG_SEQ_NUM,
        number(s.session.next_out as int),
        POSS_DUP_FLAG,
    );
}

/// While a replay is running, what the application sends is held back, in
/// order, and nothing goes out.
pub proof fn law_sends_wait_for_the_replay(s: StateView, msg: BuilderView, replay: ReplayView)
    requires
        s.replay == Some(replay),
    ensures
        s.send(msg).outputs.len() == 0,
        s.send(msg).end.replay == Some(
            (ReplayView { queue: replay.queue.push(msg), ..replay }),
        ),
        s.send(msg).end.session == s.session,
{
}

/// `msg` carries the sequence number `seq`.
pub open spec fn numbered_as(msg: BuilderView, seq: u32) -> bool {
    number_in(msg.header, MSG_SEQ_NUM, "Missing MsgSeqNum"@, "MsgSeqNum is not an integer"@)
        == Ok::<u32, ErrorView>(seq)
}

/// A message in sequence that is the application's is delivered to it, once,
/// behind a report of the session's state, and takes up its number.
pub proof fn law_application_messages_are_delivered_in_sequence(
    s: StateView,
    msg: BuilderView,
    seq: u32,
)
    requires
        numbered_as(msg, seq),
        seq == s.session.next_in,
        seq < u32::MAX,
        !admin_type(msg.msg_type()),
        !s.logout_pending,
    ensures
        ({
            let t = s.advanced((seq + 1) as u32);
            &&& t.session.next_in == seq + 1
            &&& s.handle(msg).outputs == seq![
                (Output::Event(EventView::SessionState(t.session)), t),
                (Output::Event(EventView::MessageReceived(msg)), t),
            ]
            &&& s.handle(msg).end == t
            &&& s.handle(msg).result == Ok::<Progress, ErrorView>(Progress::Continue)
        }),
{
    let t = s.advanced((seq + 1) as u32);
    assert(s.handle(msg) == t.settle(msg));
    assert(s.handle(msg).outputs =~= seq![
        (Output::Event(EventView::SessionState(t.session)), t),
        (Output::Event(EventView::MessageReceived(msg)), t),
    ]);
}

/// No message is handed to the application in this run.
pub open spec fn undelivered(run: Run<StateView>) -> bool {
    forall|i: int|
        0 <= i < run.outputs.len() ==> !((#[trigger] run.outputs[i]).0 matches Output::Event(
            EventView::MessageReceived(_),
        ))
}

proof fn lemma_undelivered_then(a: Run<StateView>, b: Run<StateView>)
    requires
        undelivered(a),
        undelivered(b),
    ensures
        undelivered(a.followed_by(b)),
{
    let run = a.followed_by(b);
    assert forall|i: int| 0 <= i < run.outputs.len() implies !((
    #[trigger] run.outputs[i]).0 matches Output::Event(EventView::MessageReceived(_))) by {
        if i < a.outputs.len() {
            assert(run.outputs[i] == a.outputs[i]);
        } else {
            assert(run.outputs[i] == b.outputs[i - a.outputs.len()]);
        }
    }
}

proof fn lemma_undelivered_dispatch(s: StateView, msg: BuilderView)
    requires
        admin_type(msg.msg_type()),
    ensures
        undelivered(s.dispatch(msg)),
{
    assert(undelivered(s.act_on(msg)));
    lemma_undelivered_then(
        Run::event(s, EventView::SessionState(s.session)),
        s.act_on(msg),
    );
}

proof fn lemma_undelivered_settle(s: StateView, msg: BuilderView)
    requires
        admin_type(msg.msg_type()),
    ensures
        undelivered(s.settle(msg)),
{
    let done = s.dispatch(msg);
    lemma_undelivered_dispatch(s, msg);
    let rest = if done.end.logout_pending && done.end.rerequest is None {
        done.end.logout(closing()).giving(Progress::Close)
    } else {
        Run::go(done.end)
    };
    assert(undelivered(rest));
    lemma_undelivered_then(done, rest);
}

proof fn lemma_undelivered_gap(s: StateView, msg: BuilderView, seq: u32)
    ensures
        undelivered(s.handle_gap(msg, seq)),
{
    let requested = match s.rerequest {
        Some(_) => Run::go(s),
        None => match new_message(msg.fix_version, "2"@) {
            Err(e) => Run::fail(s, e),
            Ok(m) => StateView { rerequest: Some(seq), ..s }.transmit(
                m.with_body(BEGIN_SEQ_NO, number(s.session.next_in as int)).with_body(
                    END_SEQ_NO,
                    number(0),
                ),
            ),
        },
    };
    assert(undelivered(requested));
    let rest = if msg.msg_type() == "2"@ {
        requested.end.dispatch(msg)
    } else if msg.msg_type() == "5"@ {
        Run::go(StateView { logout_pending: true, ..requested.end })
    } else {
        Run::go(requested.end)
    };
    if msg.msg_type() == "2"@ {
        lemma_undelivered_dispatch(requested.end, msg);
    }
    lemma_undelivered_then(requested, rest);
}

/// The session's own messages never reach the application, and neither does a
/// message that is out of sequence.
pub proof fn law_what_is_not_delivered(s: StateView, msg: BuilderView, seq: u32)
    requires
        numbered_as(msg, seq),
        admin_type(msg.msg_type()) || seq != s.session.next_in,
    ensures
        undelivered(s.handle(msg)),
{
    let is_fill = msg.msg_type() == "4"@;
    if is_fill && gap_fill_target(msg) is Err {
    } else if seq < s.session.next_in {
        assert(undelivered(s.handle(msg)));
    } else if seq > s.session.next_in {
        lemma_undelivered_gap(s, msg, seq);
    } else if is_fill {
        let target = gap_fill_target(msg)->Ok_0;
        if target > seq {
            lemma_undelivered_settle(s.advanced(target), msg);
        }
    } else if seq < u32::MAX {
        lemma_undelivered_settle(s.advanced((seq + 1) as u32), msg);
    }
}

/// A gap is asked for once: while that request is outstanding, further messages
/// beyond the gap are dropped without a word, and the next expected number
/// stays where it is.
pub proof fn law_a_gap_is_requested_once(s: StateView, msg: BuilderView, seq: u32)
    requires
        numbered_as(msg, seq),
        seq > s.session.next_in,
        s.rerequest is Some,
        msg.msg_type() != "2"@ && msg.msg_type() != "5"@ && msg.msg_type() != "4"@,
    ensures
        s.handle(msg).outputs.len() == 0,
        s.handle(msg).end == s,
        s.handle(msg).result == Ok::<Progress, ErrorView>(Progress::Continue),
{
    assert(s.handle(msg) == s.handle_gap(msg, seq));
}

/// The first message beyond a gap is answered with one open-ended request from
/// the first missing number on.
pub proof fn law_a_gap_provokes_a_resend_request(
    s: StateView,
    msg: BuilderView,
    seq: u32,
    m: BuilderView,
)
    requires
        numbered_as(msg, seq),
        seq > s.session.next_in,
        s.rerequest is None,
        msg.msg_type() != "2"@ && msg.msg_type() != "5"@ && msg.msg_type() != "4"@,
        new_message(msg.fix_version, "2"@) == Ok::<BuilderView, ErrorView>(m),
    ensures
        ({
            let request = m.with_body(BEGIN_SEQ_NO, number(s.session.next_in as int)).with_body(
                END_SEQ_NO,
                number(0),
            );
            let sent = (StateView { rerequest: Some(seq), ..s }).transmit(request);
            &&& s.handle(msg).outputs == sent.outputs
            &&& s.handle(msg).end == sent.end
            &&& s.handle(msg).result == sent.result
            &&& field_of(request.body, BEGIN_SEQ_NO) == Some(number(s.session.next_in as int))
            &&& field_of(request.body, END_SEQ_NO) == Some(number(0))
            &&& s.handle(msg).end.session.next_in == s.session.next_in
        }),
{
    let a = m.with_body(BEGIN_SEQ_NO, number(s.session.next_in as int));
    let request = a.with_body(END_SEQ_NO, number(0));
    let sent = (StateView { rerequest: Some(seq), ..s }).transmit(request);
    law_set_then_read(m.body, BEGIN_SEQ_NO, number(s.session.next_in as int), END_SEQ_NO);
    law_set_then_read(a.body, END_SEQ_NO, number(0), BEGIN_SEQ_NO);
    assert(s.handle(msg) == s.handle_gap(msg, seq));
    assert(s.handle(msg).outputs =~= sent.outputs);
}

/// A gap fill that is itself beyond a gap skips nothing: the next expected
/// number stays where it is.
pub proof fn law_a_gap_fill_beyond_a_gap_skips_nothing(s: StateView, msg: BuilderView, seq: u32)
    requires
        numbered_as(msg, seq),
        seq > s.session.next_in,
        msg.msg_type() == "4"@,
    ensures
        s.handle(msg).end.session.next_in == s.session.next_in,
{
    reveal_strlit("4");
    reveal_strlit("2");
    reveal_strlit("5");
    assert("4"@[0] == '4' && "2"@[0] == '2' && "5"@[0] == '5');
    if gap_fill_target(msg) is Ok {
        assert(s.handle(msg) == s.handle_gap(msg, seq));
    }
}

/// A message below the expected number means that one side has lost its state:
/// the session does not go on.
pub proof fn law_too_low_ends_the_session(s: StateView, msg: BuilderView, seq: u32)
    requires
        numbered_as(msg, seq),
        seq < s.session.next_in,
        msg.msg_type() != "4"@,
    ensures
        s.handle(msg).result != Ok::<Progress, ErrorView>(Progress::Continue),
        s.handle(msg).end.session.next_in == s.session.next_in,
        s.handle(msg) == s.logout(too_low(s.session.next_in, seq)).giving(Progress::Close),
{
}

/// A Logout inside a gap is not acknowledged there: it is remembered, so that
/// the messages that are missing before it can still be recovered.
pub proof fn law_a_logout_inside_a_gap_waits(s: StateView, msg: BuilderView, seq: u32)
    requires
        numbered_as(msg, seq),
        seq > s.session.next_in,
        s.rerequest is Some,
        msg.msg_type() == "5"@,
    ensures
        s.handle(msg).outputs.len() == 0,
        s.handle(msg).end == (StateView { logout_pending: true, ..s }),
        s.handle(msg).result == Ok::<Progress, ErrorView>(Progress::Continue),
{
    reveal_strlit("4");
    reveal_strlit("2");
    reveal_strlit("5");
    assert("4"@[0] == '4' && "2"@[0] == '2' && "5"@[0] == '5');
    assert(s.handle(msg) == s.handle_gap(msg, seq));
}

/// Once the gap is closed, the Logout that was waiting is acknowledged and the
/// session does not go on.
pub proof fn law_a_waiting_logout_is_acknowledged(s: StateView, msg: BuilderView, target: u32)
    requires
        numbered_as(msg, s.session.next_in),
        msg.msg_type() == "4"@,
        gap_fill_target(msg) == Ok::<u32, ErrorView>(target),
        target > s.session.next_in,
        s.logout_pending,
        s.rerequest matches Some(last) ==> target >= last,
    ensures
        ({
            let t = s.advanced(target);
            &&& s.handle(msg).outputs == seq![
                (Output::Event(EventView::SessionState(t.session)), t),
            ] + t.logout(closing()).outputs
            &&& s.handle(msg).result == t.logout(closing()).giving(Progress::Close).result
            &&& s.handle(msg).result != Ok::<Progress, ErrorView>(Progress::Continue)
            &&& s.handle(msg).end.session.next_in == target
        }),
{
    reveal_strlit("4");
    reveal_strlit("2");
    reveal_strlit("5");
    reveal_strlit("1");
    reveal_strlit("0");
    reveal_strlit("A");
    assert("4"@[0] == '4' && "2"@[0] == '2' && "5"@[0] == '5' && "1"@[0] == '1' && "0"@[0] == '0'
        && "A"@[0] == 'A');
    let t = s.advanced(target);
    assert(s.handle(msg) == t.settle(msg));
    assert(t.act_on(msg) == Run::go(t));
    assert(t.dispatch(msg).outputs =~= seq![
        (Output::Event(EventView::SessionState(t.session)), t),
    ]);
}

/// The message types differ from each other.
pub proof fn lemma_types()
    ensures
        "A"@ != "5"@,
        "A"@ != "4"@,
        "0"@ != "1"@,
        "0"@ != "4"@,
        "0"@ != "A"@,
        "1"@ != "4"@,
        "1"@ != "A"@,
        "2"@ != "5"@,
        "5"@ != "0"@,
        "5"@ != "1"@,
        "5"@ != "2"@,
        "5"@ != "4"@,
{
    reveal_strlit("A");
    reveal_strlit("0");
    reveal_strlit("1");
    reveal_strlit("2");
    reveal_strlit("4");
    reveal_strlit("5");
    assert("A"@[0] == 'A' && "0"@[0] == '0' && "1"@[0] == '1');
    assert("2"@[0] == '2' && "4"@[0] == '4' && "5"@[0] == '5');
}

/// A TestRequest in sequence is answered with a Heartbeat that carries its
/// `TestReqID`.
pub proof fn law_test_requests_are_answered(
    s: StateView,
    msg: BuilderView,
    v: Typed,
    m: BuilderView,
)
    requires
        numbered_as(msg, s.session.next_in),
        s.session.next_in < u32::MAX,
        msg.msg_type() == "1"@,
        field_of(msg.body, TEST_REQ_ID) == Some(v),
        new_message(msg.fix_version, "0"@) == Ok::<BuilderView, ErrorView>(m),
        !s.logout_pending,
    ensures
        ({
            let t = s.advanced((s.session.next_in + 1) as u32);
            let answer = m.with_body(TEST_REQ_ID, text(v.text()));
            &&& s.handle(msg).outputs == seq![
                (Output::Event(EventView::SessionState(t.session)), t),
            ] + t.send(answer).outputs
            &&& s.handle(msg).end == t.send(answer).end
            &&& s.handle(msg).result == t.send(answer).result
            &&& field_of(answer.body, TEST_REQ_ID) == Some(text(v.text()))
        }),
{
    lemma_types();
    let t = s.advanced((s.session.next_in + 1) as u32);
    let answer = m.with_body(TEST_REQ_ID, text(v.text()));
    law_set_then_read(m.body, TEST_REQ_ID, text(v.text()), TEST_REQ_ID);
    assert(s.handle(msg) == t.settle(msg));
    assert(t.act_on(msg) == t.send(answer));
    assert(!t.send(answer).end.logout_pending);
    assert(s.handle(msg).outputs =~= seq![
        (Output::Event(EventView::SessionState(t.session)), t),
    ] + t.send(answer).outputs);
}

/// Recovery is complete when the peer's Heartbeat carries the `TestReqID` that
/// was asked for, and with no other.
pub proof fn law_recovery_completes_with_the_matching_heartbeat(
    s: StateView,
    msg: BuilderView,
    v: Typed,
    id: Seq<char>,
)
    requires
        msg.msg_type() == "0"@,
        field_of(msg.body, TEST_REQ_ID) == Some(v),
        s.recovery == Some(id),
    ensures
        v.text() == id ==> s.act_on(msg) == Run::event(
            StateView { recovery: None, ..s },
            EventView::RecoveryCompleted,
        ),
        v.text() != id ==> s.act_on(msg) == Run::go(s),
{
    lemma_types();
}

/// A Logout in sequence is acknowledged with one Logout, behind a report of the
/// session's state, and the session does not go on.
pub proof fn law_a_logout_is_acknowledged(s: StateView, msg: BuilderView)
    requires
        numbered_as(msg, s.session.next_in),
        s.session.next_in < u32::MAX,
        msg.msg_type() == "5"@,
    ensures
        ({
            let t = s.advanced((s.session.next_in + 1) as u32);
            &&& s.handle(msg).outputs == seq![
                (Output::Event(EventView::SessionState(t.session)), t),
            ] + t.logout(closing()).outputs
            &&& s.handle(msg).result == t.logout(closing()).giving(Progress::Close).result
            &&& s.handle(msg).result != Ok::<Progress, ErrorView>(Progress::Continue)
        }),
{
    lemma_types();
    let t = s.advanced((s.session.next_in + 1) as u32);
    assert(s.handle(msg) == t.settle(msg));
    assert(t.act_on(msg) == t.logout(closing()).giving(Progress::Close));
}

/// A ResendRequest inside a gap is acted on at once, as it will not be sent
/// again, and leaves the next expected number where it is.
pub proof fn law_a_resend_request_inside_a_gap_is_serviced(
    s: StateView,
    msg: BuilderView,
    seq: u32,
)
    requires
        numbered_as(msg, seq),
        seq > s.session.next_in,
        s.rerequest is Some,
        msg.msg_type() == "2"@,
    ensures
        s.handle(msg) == s.dispatch(msg),
        s.handle(msg).end.session.next_in == s.session.next_in,
{
    reveal_strlit("4");
    reveal_strlit("2");
    assert("4"@[0] == '4' && "2"@[0] == '2');
    assert(s.handle(msg) == s.handle_gap(msg, seq));
    assert(s.handle_gap(msg, seq).outputs =~= s.dispatch(msg).outputs);
}

/// Disconnecting says so with a Logout, under the next number, and the session
/// does not go on. Only while a replay holds messages back does the Logout stay
/// with them.
pub proof fn law_disconnecting_sends_a_logout(s: StateView, m: BuilderView, now: nat)
    requires
        new_message(s.session.fix_version, "5"@) == Ok::<BuilderView, ErrorView>(m),
    ensures
        ({
            let logout = m.with_body(TEXT, text("Disconnect requested by application"@));
            let run = s.on_command(CommandView::Disconnect, now);
            &&& run.outputs == s.spoke(now).send(logout).outputs
            &&& run.result != Ok::<Progress, ErrorView>(Progress::Continue)
            &&& s.replay is Some ==> run.outputs.len() == 0
        }),
{
}

/// A message that is sent once more keeps its number, says that it may have been
/// seen before and when it was first sent, and takes no number from the session.
pub proof fn law_retransmissions_are_marked(s: StateView, msg: BuilderView, t: Typed)
    requires
        field_of(msg.header, SENDING_TIME) == Some(t),
        has_field(msg.header, MSG_SEQ_NUM),
    ensures
        ({
            let m = msg.with_header(ORIG_SENDING_TIME, t).with_header(POSS_DUP_FLAG, text("Y"@));
            &&& s.retransmit(msg) == s.emit(m)
            &&& field_of(m.header, ORIG_SENDING_TIME) == Some(t)
            &&& field_of(m.header, POSS_DUP_FLAG) == Some(text("Y"@))
            &&& field_of(m.header, MSG_SEQ_NUM) == field_of(msg.header, MSG_SEQ_NUM)
            &&& m.body == msg.body
            &&& s.retransmit(msg).end == s
        }),
{
    let a = msg.with_header(ORIG_SENDING_TIME, t);
    law_set_then_read(msg.header, ORIG_SENDING_TIME, t, MSG_SEQ_NUM);
    law_set_then_read(a.header, POSS_DUP_FLAG, text("Y"@), ORIG_SENDING_TIME);
    law_set_then_read(a.header, POSS_DUP_FLAG, text("Y"@), MSG_SEQ_NUM);
}

proof fn lemma_send_all_starts_no_replay(s: StateView, queue: Seq<BuilderView>, n: nat)
    requires
        s.replay is None,
    ensures
        s.send_all(queue, n).end.replay is None,
    decreases n,
{
    if n > 0 {
        lemma_send_all_starts_no_replay(s, queue, (n - 1) as nat);
    }
}

/// Once a replay is complete it is over, and the peer is asked to confirm that
/// both sides are in step.
pub proof fn law_a_complete_replay_is_over(s: StateView)
    ensures
        s.complete_replay().result == Ok::<Progress, ErrorView>(Progress::Continue)
            ==> s.complete_replay().end.replay is None
            && s.complete_replay().end.recovery is Some,
{
    if let Some(replay) = s.replay {
        let held = StateView { replay: Some(ReplayView { queue: seq![], ..replay }), ..s };
        let filled = match replay.trailing() {
            Some((begin, end)) => held.gap_fill(begin, end),
            None => Run::go(held),
        };
        let free = StateView { replay: None, ..filled.end };
        lemma_send_all_starts_no_replay(free, replay.queue, replay.queue.len());
        let released = filled.followed_by(free.send_all(replay.queue, replay.queue.len()));
        assert(s.complete_replay() == released.followed_by(released.end.synchronise()));
    }
}

} // verus!
