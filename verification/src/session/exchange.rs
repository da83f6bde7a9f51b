//! What a session promises over several calls: how gaps open and close, when a
//! Logout is acknowledged, and what becomes of messages sent during a replay.

use vstd::prelude::*;
use vstd::string::*;

use crate::builder::block::{field_of, lemma_last_of, Node};
use crate::builder::message::{
    flat_node, flat_nodes, lemma_flat_prefix, names_type, taken_apart, BuilderView,
};
use crate::builder::value::Typed;
use crate::error::ErrorView;
use crate::message::{lemma_first_tag_is, MessageView};
use crate::repository::FixVersion;
use crate::schema::fields::{
    BEGIN_SEQ_NO, END_SEQ_NO, MSG_SEQ_NUM, POSS_DUP_FLAG, SENDER_COMP_ID, SENDING_TIME,
    TARGET_COMP_ID, TEST_REQ_ID, TEXT,
};
use crate::session::laws::{
    law_a_logout_inside_a_gap_waits, law_inbound_frames, lemma_types, numbered_as, undelivered,
};
use crate::session::protocol::{
    gap_fill_target, new_message, number, number_in, text, StateView,
};
use crate::session::recovery::{
    acknowledgement, advances_to, ahead, freed, gap_fill_message, law_a_gap,
    law_a_waiting_logout_goes_on_waiting, law_a_waiting_logout_is_acknowledged_once,
    law_what_completing_a_replay_sends, next_numbered, one_sent, resend_request, sent_in_turn,
    synchronising,
};
use crate::session::replay::ReplayView;
use crate::session::types::{CommandView, EventView, Output, Progress, Run};

verus! {

/// What is put out, with the state behind it.
pub type Outputs = Seq<(Output, StateView)>;

/// The report that a frame arrived.
pub open spec fn reported(s: StateView, msg: MessageView) -> Outputs {
    seq![(Output::Event(EventView::RawMessageReceived(msg, s.session)), s)]
}

/// A frame that can be taken apart is reported, and then handled.
proof fn lemma_frame(s: StateView, msg: MessageView, m: BuilderView, now: nat)
    requires
        taken_apart(msg) == Ok::<BuilderView, ErrorView>(m),
    ensures
        ({
            let t = s.heard(now);
            let run = s.on_message(msg, now);
            &&& run.outputs == reported(t, msg) + t.handle(m).outputs
            &&& run.end == t.handle(m).end
            &&& run.result == t.handle(m).result
        }),
{
}

// ---------------------------------------------------------------------------
// Gaps
// ---------------------------------------------------------------------------

/// A request that is outstanding is for a gap that is still open.
pub open spec fn gap_is_open(s: StateView) -> bool {
    s.rerequest matches Some(g) ==> s.session.next_in < g
}

/// A frame beyond the next expected number is reported and dropped, the session
/// goes on, and the next expected number stays. Where no request is outstanding,
/// exactly one message goes out, an open-ended ResendRequest from the first
/// missing number on; while one is outstanding, nothing does.
pub proof fn law_a_frame_beyond_the_expected_number(
    s: StateView,
    msg: MessageView,
    m: BuilderView,
    seq: u32,
    request: BuilderView,
    now: nat,
)
    requires
        taken_apart(msg) == Ok::<BuilderView, ErrorView>(m),
        numbered_as(m, seq),
        seq > s.session.next_in,
        m.msg_type() != "2"@ && m.msg_type() != "5"@ && m.msg_type() != "4"@,
        new_message(m.fix_version, "2"@) == Ok::<BuilderView, ErrorView>(request),
        s.session.next_out < u32::MAX,
    ensures
        ({
            let run = s.on_message(msg, now);
            let u = s.heard(now);
            let t = StateView { rerequest: Some(seq), ..u };
            &&& run.result == Ok::<Progress, ErrorView>(Progress::Continue)
            &&& run.end.session.next_in == s.session.next_in
            &&& undelivered(run)
            &&& s.rerequest is Some ==> run.outputs == reported(u, msg) && run.end.rerequest
                == s.rerequest
            &&& s.rerequest is None ==> run.outputs == reported(u, msg) + one_sent(
                t.numbered(),
                next_numbered(t, resend_request(u, request)),
            ) && run.end.rerequest == Some(seq)
            &&& field_of(resend_request(u, request).body, BEGIN_SEQ_NO) == Some(
                number(s.session.next_in as int),
            )
            &&& field_of(resend_request(u, request).body, END_SEQ_NO) == Some(number(0))
        }),
{
    let u = s.heard(now);
    lemma_frame(s, msg, m, now);
    law_a_gap(u, m, seq, request);
    let run = s.on_message(msg, now);
    assert(reported(u, msg) + Seq::<(Output, StateView)>::empty() =~= reported(u, msg));
    assert forall|i: int| 0 <= i < run.outputs.len() implies !((
    #[trigger] run.outputs[i]).0 matches Output::Event(EventView::MessageReceived(_))) by {
        if i > 0 {
            assert(run.outputs[i] == u.handle(m).outputs[i - 1]);
        }
    }
}

proof fn lemma_dispatch_gap(s: StateView, msg: BuilderView)
    ensures
        s.dispatch(msg).end.session.next_in == s.session.next_in,
        s.dispatch(msg).end.rerequest == s.rerequest,
{
}

proof fn lemma_settle_gap(s: StateView, msg: BuilderView)
    ensures
        s.settle(msg).end.session.next_in == s.session.next_in,
        s.settle(msg).end.rerequest == s.rerequest,
{
    lemma_dispatch_gap(s, msg);
}

proof fn lemma_handle_gap(s: StateView, msg: BuilderView)
    requires
        gap_is_open(s),
    ensures
        ({
            let t = s.handle(msg).end;
            &&& gap_is_open(t)
            &&& s.rerequest matches Some(g) ==> t.rerequest == (if t.session.next_in >= g {
                None
            } else {
                Some(g)
            })
        }),
{
    if let Ok(seq) = number_in(
        msg.header,
        MSG_SEQ_NUM,
        "Missing MsgSeqNum"@,
        "MsgSeqNum is not an integer"@,
    ) {
        let is_fill = msg.msg_type() == "4"@;
        let target = gap_fill_target(msg);
        if is_fill && target is Err {
        } else if seq < s.session.next_in {
        } else if seq > s.session.next_in {
            assert(s.handle(msg) == s.handle_gap(msg, seq));
            lemma_dispatch_gap(s, msg);
            lemma_dispatch_gap(StateView { rerequest: Some(seq), ..s }.numbered(), msg);
        } else if is_fill {
            if target->Ok_0 > seq {
                lemma_settle_gap(s.advanced(target->Ok_0), msg);
            }
        } else if seq < u32::MAX {
            lemma_settle_gap(s.advanced((seq + 1) as u32), msg);
        }
    }
}

/// A request stays outstanding until the next expected number has reached the
/// message that the gap was first seen at, and no longer: whatever arrives, then
/// and only then it is forgotten.
pub proof fn law_a_gap_is_open_until_it_is_reached(s: StateView, msg: MessageView, now: nat)
    requires
        gap_is_open(s),
    ensures
        ({
            let t = s.on_message(msg, now).end;
            &&& gap_is_open(t)
            &&& s.rerequest matches Some(g) ==> t.rerequest == (if t.session.next_in >= g {
                None
            } else {
                Some(g)
            })
        }),
{
    if let Ok(m) = taken_apart(msg) {
        lemma_frame(s, msg, m, now);
        lemma_handle_gap(s.heard(now), m);
    }
}

/// What is outstanding and the next expected number are as they were.
spec fn gap_kept(s: StateView, run: Run<StateView>) -> bool {
    &&& run.end.rerequest == s.rerequest
    &&& run.end.session.next_in == s.session.next_in
}

proof fn lemma_then_gap(s: StateView, a: Run<StateView>, b: Run<StateView>)
    requires
        gap_kept(s, a),
        gap_kept(a.end, b),
    ensures
        gap_kept(s, a.followed_by(b)),
{
}

proof fn lemma_complete_gap(s: StateView)
    ensures
        gap_kept(s, s.complete_replay()),
{
    if let Some(replay) = s.replay {
        let held = StateView { replay: Some(ReplayView { queue: seq![], ..replay }), ..s };
        let filled = match replay.trailing() {
            Some((begin, end)) => held.gap_fill(begin, end),
            None => Run::go(held),
        };
        assert(gap_kept(held, filled));
        let free = StateView { replay: None, ..filled.end };
        lemma_send_all_gap(free, replay.queue, replay.queue.len());
        let released = filled.followed_by(free.send_all(replay.queue, replay.queue.len()));
        assert(gap_kept(s, released));
        let sync = released.end.synchronise();
        lemma_synchronise_gap(released.end);
        lemma_then_gap(s, released, sync);
    }
}

proof fn lemma_synchronise_gap(s: StateView)
    ensures
        gap_kept(s, s.synchronise()),
{
}

proof fn lemma_replay_gap(s: StateView, msg: BuilderView)
    ensures
        gap_kept(s, s.replay_message(msg)),
{
}

proof fn lemma_send_gap(s: StateView, msg: BuilderView)
    ensures
        gap_kept(s, s.send(msg)),
{
}

proof fn lemma_beat_gap(s: StateView, now: nat)
    ensures
        gap_kept(s, s.beat(now)),
{
}

proof fn lemma_miss_gap(s: StateView, now: nat)
    ensures
        gap_kept(s, s.miss(now)),
{
}

/// Neither a command nor the passing of time touches what is outstanding or the
/// next expected number, and a new session has nothing outstanding.
pub proof fn law_only_frames_open_and_close_gaps(s: StateView, cmd: CommandView, now: nat)
    ensures
        s.on_command(cmd, now).end.rerequest == s.rerequest,
        s.on_command(cmd, now).end.session.next_in == s.session.next_in,
        s.on_timeout(now).end.rerequest == s.rerequest,
        s.on_timeout(now).end.session.next_in == s.session.next_in,
        gap_is_open(StateView::initial(s.id, s.session, now)),
{
    let t = s.spoke(now);
    match cmd {
        CommandView::Send(msg) => {
            lemma_send_gap(t, msg);
        },
        CommandView::Replay(msg) => {
            lemma_replay_gap(t, msg);
        },
        CommandView::ReplayComplete => {
            lemma_complete_gap(t);
        },
        CommandView::Disconnect => {
            if let Ok(m) = new_message(t.session.fix_version, "5"@) {
                lemma_send_gap(
                    t,
                    m.with_body(TEXT, text("Disconnect requested by application"@)),
                );
            }
        },
    }
    lemma_beat_gap(s, now);
    lemma_miss_gap(s.beat(now).end, now);
    lemma_then_gap(s, s.beat(now), s.beat(now).end.miss(now));
}

proof fn lemma_send_all_gap(s: StateView, queue: Seq<BuilderView>, n: nat)
    ensures
        s.send_all(queue, n).end.rerequest == s.rerequest,
        s.send_all(queue, n).end.session.next_in == s.session.next_in,
    decreases n,
{
    if n > 0 {
        lemma_send_all_gap(s, queue, (n - 1) as nat);
    }
}

/// The state once the first `n` of these frames have been handled, each at its
/// time.
pub open spec fn after_frames(s: StateView, frames: Seq<(MessageView, nat)>, n: nat) -> StateView
    decreases n,
{
    if n == 0 {
        s
    } else {
        after_frames(s, frames, (n - 1) as nat).on_message(
            frames[n - 1].0,
            frames[n - 1].1,
        ).end
    }
}

/// What the `k`-th of these frames makes the session do.
pub open spec fn step(s: StateView, frames: Seq<(MessageView, nat)>, k: int) -> Run<StateView> {
    after_frames(s, frames, k as nat).on_message(frames[k].0, frames[k].1)
}

/// The next expected number stays below `g` until the last of these frames, which
/// takes it there.
pub open spec fn reached_by_last(
    s: StateView,
    frames: Seq<(MessageView, nat)>,
    g: u32,
) -> bool {
    &&& frames.len() > 0
    &&& forall|k: nat|
        k < frames.len() ==> (#[trigger] after_frames(s, frames, k)).session.next_in < g
    &&& after_frames(s, frames, frames.len()).session.next_in >= g
}

proof fn lemma_outstanding(s: StateView, frames: Seq<(MessageView, nat)>, g: u32, k: nat)
    requires
        s.rerequest == Some(g),
        reached_by_last(s, frames, g),
        k < frames.len(),
    ensures
        after_frames(s, frames, k).rerequest == Some(g),
    decreases k,
{
    assert(after_frames(s, frames, k).session.next_in < g);
    if k > 0 {
        let j = (k - 1) as nat;
        lemma_outstanding(s, frames, g, j);
        assert(after_frames(s, frames, j).session.next_in < g);
        law_a_gap_is_open_until_it_is_reached(
            after_frames(s, frames, j),
            frames[k - 1].0,
            frames[k - 1].1,
        );
    }
}

/// A request stays outstanding, so that no other is made, however many frames it
/// takes to close the gap; and once it is closed, the next frame beyond the
/// expected number makes a new ResendRequest.
pub proof fn law_a_gap_after_recovery_is_requested_anew(
    s: StateView,
    g: u32,
    frames: Seq<(MessageView, nat)>,
    msg: MessageView,
    m: BuilderView,
    seq: u32,
    request: BuilderView,
    now: nat,
)
    requires
        s.rerequest == Some(g),
        reached_by_last(s, frames, g),
        taken_apart(msg) == Ok::<BuilderView, ErrorView>(m),
        numbered_as(m, seq),
        seq > after_frames(s, frames, frames.len()).session.next_in,
        m.msg_type() != "2"@ && m.msg_type() != "5"@ && m.msg_type() != "4"@,
        new_message(m.fix_version, "2"@) == Ok::<BuilderView, ErrorView>(request),
        after_frames(s, frames, frames.len()).session.next_out < u32::MAX,
    ensures
        forall|k: nat|
            k < frames.len() ==> (#[trigger] after_frames(s, frames, k)).rerequest == Some(g),
        ({
            let u = after_frames(s, frames, frames.len()).heard(now);
            let t = StateView { rerequest: Some(seq), ..u };
            let run = after_frames(s, frames, frames.len()).on_message(msg, now);
            &&& u.rerequest is None
            &&& run.result == Ok::<Progress, ErrorView>(Progress::Continue)
            &&& run.outputs == reported(u, msg) + one_sent(
                t.numbered(),
                next_numbered(t, resend_request(u, request)),
            )
        }),
{
    assert forall|k: nat| k < frames.len() implies (#[trigger] after_frames(
        s,
        frames,
        k,
    )).rerequest == Some(g) by {
        lemma_outstanding(s, frames, g, k);
    }
    let n = frames.len();
    let k = (n - 1) as nat;
    lemma_outstanding(s, frames, g, k);
    assert(after_frames(s, frames, k).session.next_in < g);
    law_a_gap_is_open_until_it_is_reached(
        after_frames(s, frames, k),
        frames[n - 1].0,
        frames[n - 1].1,
    );
    law_a_frame_beyond_the_expected_number(
        after_frames(s, frames, n),
        msg,
        m,
        seq,
        request,
        now,
    );
}

// ---------------------------------------------------------------------------
// Logouts
// ---------------------------------------------------------------------------

/// The version's message of type `t`, if it has one, says that it is of type `t`.
pub open spec fn named_right(fix: FixVersion, t: Seq<char>) -> bool {
    fix.messages.value(t) matches Some(definition) ==> definition.msg_type@ == t
}

/// The header starts as that of a new message of type `t`.
spec fn of_type(header: Seq<Node>, t: Seq<char>) -> bool {
    &&& header.len() >= 2
    &&& header[0] is Tag && header[0].key() == 8
    &&& header[1] == Node::Tag(35, Typed::String(t))
}

proof fn lemma_of_type_kept(m: BuilderView, tag: u32, v: Typed, t: Seq<char>)
    requires
        of_type(m.header, t),
        tag != 8,
        tag != 35,
    ensures
        of_type(m.with_header(tag, v).header, t),
{
    lemma_last_of(m.header, tag, m.header.len());
}

proof fn lemma_flat_type(m: BuilderView, t: Seq<char>)
    requires
        of_type(m.header, t),
    ensures
        m.flattened(false).msg_type() == t,
{
    let msg = m.flattened(false);
    let h = flat_nodes(m.header, m.header.len(), false);
    let front = flat_nodes(m.header, 2, false);
    lemma_flat_prefix(m.header, 2, m.header.len(), false);
    reveal_with_fuel(flat_nodes, 3);
    let one = flat_nodes(m.header, 1, false);
    assert(flat_nodes(m.header, 0, false) =~= seq![]);
    assert(one =~= flat_node(m.header[0], false));
    assert(front == one + flat_node(m.header[1], false));
    assert(front[0].0 == 8 && front[1].0 == 35);
    assert(msg.tags[0] == h[0] && h[0] == front[0]);
    assert(msg.tags[1] == h[1] && h[1] == front[1]);
    lemma_first_tag_is(msg.tags, 35, 0, 1);
}

/// How many Logouts go out with the first `n` of these.
pub open spec fn logouts(outputs: Outputs, n: nat) -> nat
    decreases n,
{
    if n == 0 {
        0
    } else {
        let before = logouts(outputs, (n - 1) as nat);
        match outputs[n - 1].0 {
            Output::Transmit(msg, _) => if msg.msg_type() == "5"@ {
                before + 1
            } else {
                before
            },
            _ => before,
        }
    }
}

proof fn lemma_logouts_prefix(a: Outputs, b: Outputs, n: nat)
    requires
        n <= a.len(),
    ensures
        logouts(a + b, n) == logouts(a, n),
    decreases n,
{
    if n > 0 {
        lemma_logouts_prefix(a, b, (n - 1) as nat);
        assert((a + b)[n - 1] == a[n - 1]);
    }
}

proof fn lemma_logouts_concat(a: Outputs, b: Outputs, n: nat)
    requires
        n <= b.len(),
    ensures
        logouts(a + b, a.len() + n) == logouts(a, a.len()) + logouts(b, n),
    decreases n,
{
    if n == 0 {
        lemma_logouts_prefix(a, b, a.len());
    } else {
        lemma_logouts_concat(a, b, (n - 1) as nat);
        assert((a + b)[a.len() + n - 1] == b[n - 1]);
        assert((a.len() + n - 1) as nat == a.len() + (n - 1) as nat);
    }
}

/// A message that goes out counts by its type.
proof fn lemma_logouts_one(s: StateView, m: BuilderView, t: Seq<char>)
    requires
        of_type(m.header, t),
    ensures
        logouts(one_sent(s, m), 2) == if t == "5"@ {
            1nat
        } else {
            0nat
        },
{
    let a = m.with_header(SENDER_COMP_ID, text(s.id.sender_comp_id));
    let b = a.with_header(TARGET_COMP_ID, text(s.id.target_comp_id));
    lemma_of_type_kept(m, SENDER_COMP_ID, text(s.id.sender_comp_id), t);
    lemma_of_type_kept(a, TARGET_COMP_ID, text(s.id.target_comp_id), t);
    lemma_of_type_kept(b, SENDING_TIME, text(""@), t);
    lemma_flat_type(s.addressed(m), t);
    reveal_with_fuel(logouts, 3);
    let outputs = one_sent(s, m);
    assert(outputs[0].0 == Output::Transmit(s.addressed(m).flattened(false), s.session));
    assert(outputs[1].0 == Output::Sent(s.session));
}

/// Sending a message of another type puts out no Logout.
proof fn lemma_logouts_send(s: StateView, m: BuilderView, t: Seq<char>)
    requires
        of_type(m.header, t),
        t != "5"@,
    ensures
        logouts(s.send(m).outputs, s.send(m).outputs.len()) == 0,
{
    let a = m.with_header(MSG_SEQ_NUM, Typed::Empty);
    lemma_of_type_kept(m, MSG_SEQ_NUM, Typed::Empty, t);
    lemma_of_type_kept(a, POSS_DUP_FLAG, Typed::Empty, t);
    let f = freed(m);
    lemma_of_type_kept(f, MSG_SEQ_NUM, number(s.session.next_out as int), t);
    lemma_logouts_one(s, f, t);
    lemma_logouts_one(
        s.numbered(),
        f.with_header(MSG_SEQ_NUM, number(s.session.next_out as int)),
        t,
    );
}

/// Acting on a message that is no Logout puts out no Logout.
proof fn lemma_logouts_dispatch(s: StateView, msg: BuilderView)
    requires
        msg.msg_type() != "5"@,
        named_right(msg.fix_version, "0"@),
    ensures
        logouts(s.dispatch(msg).outputs, s.dispatch(msg).outputs.len()) == 0,
        s.dispatch(msg).result != Ok::<Progress, ErrorView>(Progress::Close),
{
    lemma_types();
    let first = Run::event(s, EventView::SessionState(s.session));
    let rest = s.act_on(msg);
    reveal_with_fuel(logouts, 2);
    if msg.msg_type() == "1"@ {
        if let Ok(m) = new_message(msg.fix_version, "0"@) {
            if let Some(v) = field_of(msg.body, TEST_REQ_ID) {
                let b = m.with_body(TEST_REQ_ID, text(v.text()));
                assert(of_type(b.header, "0"@));
                lemma_logouts_send(s, b, "0"@);
            }
        }
    }
    assert(logouts(rest.outputs, rest.outputs.len()) == 0);
    lemma_logouts_concat(first.outputs, rest.outputs, rest.outputs.len());
    assert(logouts(first.outputs, first.outputs.len()) == 0);
}

/// Frames in sequence, none of them a Logout.
pub open spec fn in_turn(s: StateView, frames: Seq<(MessageView, nat)>) -> bool {
    forall|k: int|
        0 <= k < frames.len() ==> ({
            let next = after_frames(s, frames, (k + 1) as nat).session.next_in;
            &&& (#[trigger] frames[k]).0.fix_version == s.session.fix_version
            &&& taken_apart(frames[k].0) matches Ok(m) && m.msg_type() != "5"@ && advances_to(
                after_frames(s, frames, k as nat),
                m,
                next,
            )
        })
}

proof fn lemma_waiting(s: StateView, frames: Seq<(MessageView, nat)>, g: u32, k: nat)
    requires
        s.logout_pending,
        s.rerequest == Some(g),
        in_turn(s, frames),
        reached_by_last(s, frames, g),
        k < frames.len(),
    ensures
        after_frames(s, frames, k).logout_pending,
        after_frames(s, frames, k).rerequest == Some(g),
        after_frames(s, frames, k).session.fix_version == s.session.fix_version,
    decreases k,
{
    if k > 0 {
        let j = (k - 1) as nat;
        lemma_waiting(s, frames, g, j);
        let (msg, now) = frames[k - 1];
        let t = after_frames(s, frames, j);
        let m = taken_apart(msg)->Ok_0;
        assert(frames[k - 1].0.fix_version == s.session.fix_version);
        assert((j + 1) as nat == k);
        let next = after_frames(s, frames, k).session.next_in;
        assert(next < g);
        lemma_frame(t, msg, m, now);
        law_a_waiting_logout_goes_on_waiting(t.heard(now), m, next, g);
        law_inbound_frames(t, msg, now);
    }
}

proof fn lemma_logouts_event(s: StateView, msg: MessageView, rest: Outputs)
    ensures
        logouts(reported(s, msg) + rest, (reported(s, msg) + rest).len()) == logouts(
            rest,
            rest.len(),
        ),
{
    let first = reported(s, msg);
    lemma_logouts_concat(first, rest, rest.len());
    reveal_with_fuel(logouts, 2);
    assert(first[0].0 is Event);
}

/// A frame that does not close the gap puts out no Logout, and does not end the
/// session.
proof fn lemma_waiting_frame(
    s: StateView,
    msg: MessageView,
    m: BuilderView,
    now: nat,
    next: u32,
    g: u32,
)
    requires
        s.logout_pending,
        s.rerequest == Some(g),
        taken_apart(msg) == Ok::<BuilderView, ErrorView>(m),
        m.msg_type() != "5"@,
        named_right(m.fix_version, "0"@),
        advances_to(s, m, next),
        next < g,
    ensures
        ({
            let run = s.on_message(msg, now);
            &&& logouts(run.outputs, run.outputs.len()) == 0
            &&& run.result != Ok::<Progress, ErrorView>(Progress::Close)
        }),
{
    let u = s.heard(now);
    lemma_frame(s, msg, m, now);
    law_a_waiting_logout_goes_on_waiting(u, m, next, g);
    let t = u.advanced(next);
    lemma_logouts_dispatch(t, m);
    lemma_logouts_event(u, msg, t.dispatch(m).outputs);
}

/// The frame that closes the gap puts out one Logout, and ends the session.
proof fn lemma_closing_frame(
    s: StateView,
    msg: MessageView,
    m: BuilderView,
    now: nat,
    next: u32,
    g: u32,
    logout: BuilderView,
)
    requires
        s.logout_pending,
        s.rerequest == Some(g),
        taken_apart(msg) == Ok::<BuilderView, ErrorView>(m),
        m.msg_type() != "5"@,
        named_right(m.fix_version, "0"@),
        named_right(s.session.fix_version, "5"@),
        new_message(s.session.fix_version, "5"@) == Ok::<BuilderView, ErrorView>(logout),
        advances_to(s, m, next),
        next >= g,
        s.heard(now).advanced(next).dispatch(m).result is Ok,
        s.heard(now).advanced(next).dispatch(m).end.session.next_out < u32::MAX,
        s.session.next_out < u32::MAX,
    ensures
        ({
            let run = s.on_message(msg, now);
            &&& logouts(run.outputs, run.outputs.len()) == 1
            &&& run.result == Ok::<Progress, ErrorView>(Progress::Close)
        }),
{
    let u = s.heard(now);
    lemma_frame(s, msg, m, now);
    law_a_waiting_logout_is_acknowledged_once(u, m, next, logout);
    let t = u.advanced(next);
    lemma_logouts_dispatch(t, m);
    lemma_acknowledged(u, msg, t.dispatch(m), logout);
}

proof fn lemma_acknowledged(s: StateView, msg: MessageView, d: Run<StateView>, logout: BuilderView)
    requires
        logouts(d.outputs, d.outputs.len()) == 0,
        of_type(logout.header, "5"@),
    ensures
        ({
            let sent = one_sent(d.end.numbered(), next_numbered(d.end, acknowledgement(logout)));
            let all = reported(s, msg) + (d.outputs + sent);
            logouts(all, all.len()) == 1
        }),
{
    let e = d.end;
    let ack = acknowledgement(logout);
    lemma_of_type_kept(ack, MSG_SEQ_NUM, number(e.session.next_out as int), "5"@);
    let sent = one_sent(e.numbered(), next_numbered(e, ack));
    lemma_logouts_one(e.numbered(), next_numbered(e, ack), "5"@);
    lemma_logouts_concat(d.outputs, sent, sent.len());
    lemma_logouts_event(s, msg, d.outputs + sent);
}

proof fn lemma_waiting_step(s: StateView, frames: Seq<(MessageView, nat)>, g: u32, k: int)
    requires
        s.logout_pending,
        s.rerequest == Some(g),
        named_right(s.session.fix_version, "0"@),
        in_turn(s, frames),
        reached_by_last(s, frames, g),
        0 <= k < frames.len() - 1,
    ensures
        logouts(step(s, frames, k).outputs, step(s, frames, k).outputs.len()) == 0,
        step(s, frames, k).result != Ok::<Progress, ErrorView>(Progress::Close),
{
    lemma_waiting(s, frames, g, k as nat);
    let (msg, now) = frames[k];
    let t = after_frames(s, frames, k as nat);
    let m = taken_apart(msg)->Ok_0;
    assert(frames[k].0.fix_version == s.session.fix_version);
    lemma_version(msg, m);
    let next = after_frames(s, frames, (k + 1) as nat).session.next_in;
    assert(next < g);
    lemma_waiting_frame(t, msg, m, now, next, g);
}

proof fn lemma_version(msg: MessageView, m: BuilderView)
    requires
        taken_apart(msg) == Ok::<BuilderView, ErrorView>(m),
    ensures
        m.fix_version == msg.fix_version,
{
}

proof fn lemma_closing_step(
    s: StateView,
    frames: Seq<(MessageView, nat)>,
    g: u32,
    logout: BuilderView,
)
    requires
        s.logout_pending,
        s.rerequest == Some(g),
        named_right(s.session.fix_version, "0"@),
        named_right(s.session.fix_version, "5"@),
        new_message(s.session.fix_version, "5"@) == Ok::<BuilderView, ErrorView>(logout),
        in_turn(s, frames),
        reached_by_last(s, frames, g),
        can_act_on_last(s, frames),
    ensures
        ({
            let last = step(s, frames, frames.len() - 1);
            &&& logouts(last.outputs, last.outputs.len()) == 1
            &&& last.result == Ok::<Progress, ErrorView>(Progress::Close)
        }),
{
    let k = frames.len() - 1;
    lemma_waiting(s, frames, g, k as nat);
    let (msg, now) = frames[k];
    let t = after_frames(s, frames, k as nat);
    let m = taken_apart(msg)->Ok_0;
    assert(frames[k].0.fix_version == s.session.fix_version);
    lemma_version(msg, m);
    assert((k + 1) as nat == frames.len());
    let next = after_frames(s, frames, frames.len()).session.next_in;
    lemma_closing_frame(t, msg, m, now, next, g, logout);
}

/// The last of these frames can be acted on, and a number is left for what goes
/// out behind it.
pub open spec fn can_act_on_last(s: StateView, frames: Seq<(MessageView, nat)>) -> bool {
    let (msg, now) = frames[frames.len() - 1];
    let t = after_frames(s, frames, (frames.len() - 1) as nat).heard(now);
    let next = after_frames(s, frames, frames.len()).session.next_in;
    &&& taken_apart(msg) matches Ok(m) && {
        let d = t.advanced(next).dispatch(m);
        d.result is Ok && d.end.session.next_out < u32::MAX
    }
    &&& t.session.next_out < u32::MAX
}

/// A Logout that arrives beyond the next expected number, while a request for the
/// gap first seen at `g` is outstanding, is reported and remembered: the session
/// goes on, nothing goes out, and the next expected number stays. As the messages
/// that are missing come in, in sequence and whatever they are, no Logout goes
/// out and the session does not end, until the one after which the next expected
/// number has reached `g`: with that one exactly one Logout goes out, and the
/// session is over.
pub proof fn law_a_logout_inside_a_gap_is_deferred(
    s: StateView,
    g: u32,
    logout: MessageView,
    l: BuilderView,
    seq: u32,
    now: nat,
    frames: Seq<(MessageView, nat)>,
    m: BuilderView,
)
    requires
        s.rerequest == Some(g),
        taken_apart(logout) == Ok::<BuilderView, ErrorView>(l),
        l.msg_type() == "5"@,
        numbered_as(l, seq),
        seq > s.session.next_in,
        named_right(s.session.fix_version, "0"@),
        named_right(s.session.fix_version, "5"@),
        new_message(s.session.fix_version, "5"@) == Ok::<BuilderView, ErrorView>(m),
        in_turn(s.on_message(logout, now).end, frames),
        reached_by_last(s.on_message(logout, now).end, frames, g),
        can_act_on_last(s.on_message(logout, now).end, frames),
    ensures
        ({
            let first = s.on_message(logout, now);
            &&& first.result == Ok::<Progress, ErrorView>(Progress::Continue)
            &&& first.outputs == reported(s.heard(now), logout)
            &&& first.end.session == s.session
        }),
        forall|k: int|
            #![trigger step(s.on_message(logout, now).end, frames, k)]
            0 <= k < frames.len() - 1 ==> ({
                let run = step(s.on_message(logout, now).end, frames, k);
                &&& logouts(run.outputs, run.outputs.len()) == 0
                &&& run.result != Ok::<Progress, ErrorView>(Progress::Close)
            }),
        ({
            let last = step(s.on_message(logout, now).end, frames, frames.len() - 1);
            &&& logouts(last.outputs, last.outputs.len()) == 1
            &&& last.result == Ok::<Progress, ErrorView>(Progress::Close)
        }),
{
    let u = s.heard(now);
    lemma_frame(s, logout, l, now);
    law_a_logout_inside_a_gap_waits(u, l, seq);
    let w = s.on_message(logout, now).end;
    assert(s.on_message(logout, now).outputs =~= reported(u, logout));
    assert(w == StateView { logout_pending: true, ..u });
    assert forall|k: int|
        #![trigger step(w, frames, k)]
        0 <= k < frames.len() - 1 implies logouts(
            step(w, frames, k).outputs,
            step(w, frames, k).outputs.len(),
        ) == 0 && step(w, frames, k).result != Ok::<Progress, ErrorView>(Progress::Close) by {
        lemma_waiting_step(w, frames, g, k);
    }
    lemma_closing_step(w, frames, g, m);
}

// ---------------------------------------------------------------------------
// Replays
// ---------------------------------------------------------------------------

/// The state once the first `n` of these messages have been sent by command, each
/// at its time.
pub open spec fn after_sends(s: StateView, sends: Seq<(BuilderView, nat)>, n: nat) -> StateView
    decreases n,
{
    if n == 0 {
        s
    } else {
        after_sends(s, sends, (n - 1) as nat).on_command(
            CommandView::Send(sends[n - 1].0),
            sends[n - 1].1,
        ).end
    }
}

/// The messages of these commands, in order.
pub open spec fn messages_of(sends: Seq<(BuilderView, nat)>) -> Seq<BuilderView> {
    sends.map_values(|send: (BuilderView, nat)| send.0)
}

/// A session that has gone from `s` to `t` with a replay running: nothing is
/// different but what is held back and when the next heartbeat is due.
pub open spec fn only_held(
    s: StateView,
    t: StateView,
    replay: ReplayView,
    held: Seq<BuilderView>,
) -> bool {
    &&& t.replay == Some((ReplayView { queue: replay.queue + held, ..replay }))
    &&& t.session == s.session
    &&& t.id == s.id
    &&& t.rerequest == s.rerequest
    &&& t.recovery == s.recovery
    &&& t.logout_pending == s.logout_pending
    &&& t.test_requests == s.test_requests
}

/// While a replay is running, what the application sends is held back: nothing
/// goes out or is reported, no number is used, and the messages line up in the
/// order they came.
pub proof fn law_what_is_sent_during_a_replay_is_held(
    s: StateView,
    replay: ReplayView,
    sends: Seq<(BuilderView, nat)>,
    n: nat,
)
    requires
        s.replay == Some(replay),
        n <= sends.len(),
    ensures
        only_held(s, after_sends(s, sends, n), replay, messages_of(sends).take(n as int)),
        n < sends.len() ==> ({
            let run = after_sends(s, sends, n).on_command(
                CommandView::Send(sends[n as int].0),
                sends[n as int].1,
            );
            &&& run.outputs.len() == 0
            &&& run.result == Ok::<Progress, ErrorView>(Progress::Continue)
        }),
    decreases n,
{
    let held = messages_of(sends);
    if n == 0 {
        assert(replay.queue + held.take(0) =~= replay.queue);
    } else {
        let k = (n - 1) as nat;
        law_what_is_sent_during_a_replay_is_held(s, replay, sends, k);
        assert((replay.queue + held.take(k as int)).push(sends[n - 1].0) =~= replay.queue
            + held.take(n as int));
    }
}

/// What a replay ends with, when messages were sent while it was running. Each of
/// the sends puts nothing out. Completing the replay then puts out, in order: one
/// gap fill over the tail of the range, where a tail is left; the messages that
/// were held back, in the order they were sent, under the next numbers in turn;
/// and a TestRequest under the number behind them. No replay is running after
/// that.
pub proof fn law_sends_during_a_replay_follow_it(
    s: StateView,
    replay: ReplayView,
    sends: Seq<(BuilderView, nat)>,
    now: nat,
    fill: BuilderView,
    probe: BuilderView,
)
    requires
        s.replay == Some(replay),
        replay.queue.len() == 0,
        new_message(s.session.fix_version, "4"@) == Ok::<BuilderView, ErrorView>(fill),
        new_message(s.session.fix_version, "1"@) == Ok::<BuilderView, ErrorView>(probe),
        s.session.next_out + sends.len() < u32::MAX,
        forall|i: int|
            0 <= i < sends.len() ==> names_type(
                (#[trigger] sends[i]).0.header,
                false,
            ),
    ensures
        forall|k: nat|
            k < sends.len() ==> (#[trigger] after_sends(s, sends, k)).on_command(
                CommandView::Send(sends[k as int].0),
                sends[k as int].1,
            ).outputs.len() == 0,
        ({
            let w = after_sends(s, sends, sends.len()).spoke(now);
            let run = after_sends(s, sends, sends.len()).on_command(
                CommandView::ReplayComplete,
                now,
            );
            let held = StateView { replay: Some(replay), ..w };
            let free = StateView { replay: None, ..w };
            let k = sends.len();
            let t = ahead(free, k).counted();
            &&& run.outputs == (match replay.trailing() {
                Some((begin, end)) => one_sent(held, gap_fill_message(fill, begin, end)),
                None => seq![],
            }) + sent_in_turn(free, messages_of(sends), k) + one_sent(
                t.numbered(),
                next_numbered(t, synchronising(ahead(free, k), probe)),
            )
            &&& free.session.next_out == s.session.next_out
            &&& run.result == Ok::<Progress, ErrorView>(Progress::Continue)
            &&& run.end.replay is None
            &&& run.end.session.next_out == s.session.next_out + k + 1
        }),
{
    let n = sends.len();
    assert forall|k: nat| k < sends.len() implies (#[trigger] after_sends(
        s,
        sends,
        k,
    )).on_command(CommandView::Send(sends[k as int].0), sends[k as int].1).outputs.len()
        == 0 by {
        law_what_is_sent_during_a_replay_is_held(s, replay, sends, k);
    }
    law_what_is_sent_during_a_replay_is_held(s, replay, sends, n);
    let w = after_sends(s, sends, n).spoke(now);
    let q = messages_of(sends);
    assert(replay.queue + q.take(n as int) =~= q);
    let grown = w.replay->0;
    assert(grown.queue == q);
    assert(ReplayView { queue: seq![], ..grown } == replay) by {
        assert(replay.queue =~= seq![]);
    }
    assert(grown.trailing() == replay.trailing());
    law_what_completing_a_replay_sends(w, fill, probe);
}

/// Completing a replay when none is running is refused, and nothing goes out.
pub proof fn law_there_is_no_replay_to_complete(s: StateView, now: nat)
    requires
        s.replay is None,
    ensures
        ({
            let run = s.on_command(CommandView::ReplayComplete, now);
            &&& run.outputs.len() == 0
            &&& run.result matches Err(ErrorView::ProtocolViolation(_))
            &&& run.end == s.spoke(now)
        }),
{
}

} // verus!
