//! What a session does, call by call, in terms of what goes in and what comes
//! out.

use vstd::prelude::*;
use vstd::string::*;

use crate::builder::block::{
    field_of, has_field, law_set_then_read, lemma_last_of, with_field, Node,
};
use crate::builder::message::{names_type, taken_apart, BuilderView};
use crate::builder::value::Typed;
use crate::error::ErrorView;
use crate::message::MessageView;
use crate::repository::FixVersion;
use crate::schema::fields::TEXT;
use crate::session::exchange::Outputs;
use crate::session::laws::numbered_as;
use crate::session::protocol::{
    closing, gap_fill_target, low_bits, new_message, number, text, too_low, StateView, TimersView,
};
use crate::session::recovery::{lemma_emitted, lemma_new_message, lemma_transmitted};
use crate::session::replay::ReplayView;
use crate::session::types::{CommandView, EventView, Output, Progress, Run, SessionView};
use crate::text::decimal_text;

verus! {

// ---------------------------------------------------------------------------
// What goes out with a message
// ---------------------------------------------------------------------------

/// The session goes on.
pub open spec fn on() -> std::result::Result<Progress, ErrorView> {
    Ok(Progress::Continue)
}

/// A message in the session's name: sender and target are the session's, and
/// there is an empty slot for the time. All else is as it was.
pub open spec fn labelled(s: StateView, m: BuilderView) -> BuilderView {
    let sender = with_field(m.header, 49, Typed::String(s.id.sender_comp_id));
    let target = with_field(sender, 56, Typed::String(s.id.target_comp_id));
    BuilderView { header: with_field(target, 52, Typed::String(""@)), ..m }
}

/// What one message puts out: the message itself, flat, and the report of it.
pub open spec fn put_out(s: StateView, m: BuilderView) -> Outputs {
    seq![
        (Output::Transmit(labelled(s, m).flattened(false), s.session), s),
        (Output::Sent(s.session), s),
    ]
}

/// One event.
pub open spec fn told(s: StateView, event: EventView) -> Outputs {
    seq![(Output::Event(event), s)]
}

/// The session with its next outbound number used up.
pub open spec fn used(s: StateView) -> StateView {
    StateView {
        session: SessionView { next_out: (s.session.next_out + 1) as u32, ..s.session },
        ..s
    }
}

/// The message under a number.
pub open spec fn under(m: BuilderView, n: int) -> BuilderView {
    BuilderView { header: with_field(m.header, 34, Typed::Int(n)), ..m }
}

/// The message without a number and without the mark of a retransmission.
pub open spec fn fresh(m: BuilderView) -> BuilderView {
    BuilderView {
        header: with_field(with_field(m.header, 34, Typed::Empty), 43, Typed::Empty),
        ..m
    }
}

/// The message with a body field.
pub open spec fn holding(m: BuilderView, tag: u32, v: Typed) -> BuilderView {
    BuilderView { body: with_field(m.body, tag, v), ..m }
}

/// The run sends this message: it goes out under the next number, which is used
/// up, and nothing else changes; or, while a replay is running, it joins those
/// that are held back, and nothing goes out.
pub open spec fn sends(run: Run<StateView>, s: StateView, m: BuilderView) -> bool {
    match s.replay {
        Some(replay) => {
            &&& run.outputs.len() == 0
            &&& run.end == StateView {
                replay: Some(ReplayView { queue: replay.queue.push(m), ..replay }),
                ..s
            }
            &&& run.result == on()
        },
        None => if s.session.next_out < u32::MAX {
            &&& run.outputs == put_out(used(s), under(fresh(m), s.session.next_out as int))
            &&& run.end == used(s)
            &&& run.result == on()
        } else {
            &&& run.outputs.len() == 0
            &&& run.end == s
            &&& run.result matches Err(ErrorView::ProtocolViolation(_))
        },
    }
}

/// The run puts this message out under the next number, replay or not.
pub open spec fn utters(run: Run<StateView>, s: StateView, m: BuilderView) -> bool {
    if s.session.next_out < u32::MAX {
        &&& run.outputs == put_out(used(s), under(m, s.session.next_out as int))
        &&& run.end == used(s)
        &&& run.result == on()
    } else {
        &&& run.outputs.len() == 0
        &&& run.end == s
        &&& run.result matches Err(ErrorView::ProtocolViolation(_))
    }
}

/// Putting a message out: one without a number goes out under the next one,
/// which is used up; one that has a number keeps it, and uses up none. Whatever
/// else the session is in the middle of makes no difference.
pub proof fn law_putting_a_message_out(s: StateView, m: BuilderView)
    requires
        names_type(m.header, false),
    ensures
        !has_field(m.header, 34) ==> utters(s.transmit(m), s, m),
        has_field(m.header, 34) ==> s.transmit(m) == (Run {
            outputs: put_out(s, m),
            end: s,
            result: on(),
        }),
{
    if has_field(m.header, 34) {
        lemma_emitted(s, m);
    } else if s.session.next_out < u32::MAX {
        lemma_transmitted(s, m);
    }
}

/// Sending a message: it goes out under the next number, whatever number or mark
/// it came with; or it is held back while a replay is running. Whatever else the
/// session is in the middle of makes no difference.
pub proof fn law_sending(s: StateView, m: BuilderView)
    requires
        names_type(m.header, false),
    ensures
        sends(s.send(m), s, m),
{
    let a = m.with_header(34, Typed::Empty);
    law_set_then_read(m.header, 34, Typed::Empty, 34);
    law_set_then_read(a.header, 43, Typed::Empty, 34);
    lemma_still_named(m, 34, Typed::Empty);
    lemma_still_named(a, 43, Typed::Empty);
    if s.replay is None {
        law_putting_a_message_out(s, fresh(m));
    }
}

proof fn lemma_still_named(m: BuilderView, tag: u32, v: Typed)
    requires
        names_type(m.header, false),
        tag != 35,
    ensures
        names_type(m.with_header(tag, v).header, false),
{
    lemma_last_of(m.header, tag, m.header.len());
}

// ---------------------------------------------------------------------------
// Time
// ---------------------------------------------------------------------------

/// The point `d` after `now`, or the end of time.
pub open spec fn later(now: nat, d: nat) -> nat {
    if now + d <= u128::MAX {
        now + d
    } else {
        u128::MAX as nat
    }
}

/// The session with its outbound interval started anew.
pub open spec fn rested(s: StateView, now: nat) -> StateView {
    StateView {
        timers: TimersView { next_out: later(now, s.timers.interval), ..s.timers },
        ..s
    }
}

/// The session with its inbound interval started anew, and this many missed.
pub open spec fn watched(s: StateView, now: nat, missed: int) -> StateView {
    StateView {
        timers: TimersView {
            next_in: later(now, s.timers.interval),
            missed: missed as u32,
            ..s.timers
        },
        ..s
    }
}

/// The session with one more `TestReqID` made.
pub open spec fn asked(s: StateView) -> StateView {
    StateView {
        test_requests: if s.test_requests == u64::MAX {
            0
        } else {
            (s.test_requests + 1) as u64
        },
        ..s
    }
}

/// The `TestReqID` that such a session made: what it is for, and its number.
pub open spec fn ask_id(s: StateView, purpose: Seq<char>) -> Typed {
    Typed::String(purpose + decimal_text(asked(s).test_requests as nat))
}

/// The run sends this message as its last, and the session does not go on.
pub open spec fn sends_last(run: Run<StateView>, s: StateView, m: BuilderView) -> bool {
    &&& run.result != on()
    &&& run.result is Ok ==> run.result == Ok::<Progress, ErrorView>(Progress::Close)
    &&& sends(
        Run {
            result: if run.result is Ok {
                on()
            } else {
                run.result
            },
            ..run
        },
        s,
        m,
    )
}

/// The inbound interval has run out: the first time it is noted, the second time
/// the peer is asked with a TestRequest, and from the third time on the session
/// ends with a Logout.
pub open spec fn misses(
    run: Run<StateView>,
    s: StateView,
    now: nat,
    probe: BuilderView,
    logout: BuilderView,
) -> bool {
    let t = watched(
        s,
        now,
        if s.timers.missed < u32::MAX {
            s.timers.missed + 1
        } else {
            u32::MAX as int
        },
    );
    if s.timers.missed == 0 {
        run == Run { outputs: Outputs::empty(), end: t, result: on() }
    } else if s.timers.missed == 1 {
        sends(run, asked(t), holding(probe, 112, ask_id(t, "HB"@)))
    } else {
        sends_last(run, t, holding(logout, 58, Typed::String("Heartbeat timeout"@)))
    }
}

/// Time passes. Whenever the outbound deadline has been reached, whatever else
/// the session is in the middle of, one Heartbeat is sent and the outbound
/// interval starts anew. Then, whenever the inbound deadline has been reached,
/// that counts as missed. Neither is done before its deadline, and nothing else
/// is done at all.
pub proof fn law_what_time_does(
    s: StateView,
    now: nat,
    heartbeat: BuilderView,
    probe: BuilderView,
    logout: BuilderView,
)
    requires
        new_message(s.session.fix_version, "0"@) == Ok::<BuilderView, ErrorView>(heartbeat),
        new_message(s.session.fix_version, "1"@) == Ok::<BuilderView, ErrorView>(probe),
        new_message(s.session.fix_version, "5"@) == Ok::<BuilderView, ErrorView>(logout),
    ensures
        ({
            let run = s.on_timeout(now);
            let beat = s.beat(now);
            let miss = beat.end.miss(now);
            &&& now >= s.timers.next_out ==> sends(beat, rested(s, now), heartbeat)
            &&& now < s.timers.next_out ==> beat == Run {
                outputs: Outputs::empty(),
                end: s,
                result: on(),
            }
            &&& now >= s.timers.next_in ==> misses(miss, beat.end, now, probe, logout)
            &&& now < s.timers.next_in ==> miss == Run {
                outputs: Outputs::empty(),
                end: beat.end,
                result: on(),
            }
            &&& beat.result == on() ==> run.outputs == beat.outputs + miss.outputs && run.end
                == miss.end && run.result == miss.result
            &&& beat.result != on() ==> run == beat
        }),
{
    lemma_new_message(heartbeat, s.session.fix_version, "0"@);
    lemma_new_message(probe, s.session.fix_version, "1"@);
    lemma_new_message(logout, s.session.fix_version, "5"@);
    lemma_beats(s, now, heartbeat);
    let b = s.beat(now).end;
    lemma_misses(b, now, probe, logout);
}

proof fn lemma_beats(s: StateView, now: nat, heartbeat: BuilderView)
    requires
        new_message(s.session.fix_version, "0"@) == Ok::<BuilderView, ErrorView>(heartbeat),
        names_type(heartbeat.header, false),
    ensures
        now >= s.timers.next_out ==> sends(s.beat(now), rested(s, now), heartbeat),
        s.beat(now).end.timers.next_in == s.timers.next_in,
        s.beat(now).end.session.fix_version == s.session.fix_version,
{
    law_sending(rested(s, now), heartbeat);
    assert(s.spoke(now) == rested(s, now));
}

proof fn lemma_misses(s: StateView, now: nat, probe: BuilderView, logout: BuilderView)
    requires
        new_message(s.session.fix_version, "1"@) == Ok::<BuilderView, ErrorView>(probe),
        new_message(s.session.fix_version, "5"@) == Ok::<BuilderView, ErrorView>(logout),
        names_type(probe.header, false),
        names_type(logout.header, false),
    ensures
        now >= s.timers.next_in ==> misses(s.miss(now), s, now, probe, logout),
{
    let n = if s.timers.missed < u32::MAX {
        s.timers.missed + 1
    } else {
        u32::MAX as int
    };
    let t = watched(s, now, n);
    law_sending(asked(t), holding(probe, 112, ask_id(t, "HB"@)));
    law_sending(t, holding(logout, 58, Typed::String("Heartbeat timeout"@)));
}

/// The next deadline is the earlier of the two, and those of a new session lie
/// one heartbeat interval ahead.
pub proof fn law_the_next_deadline(s: StateView, now: nat)
    ensures
        s.deadline() <= s.timers.next_out,
        s.deadline() <= s.timers.next_in,
        s.deadline() == s.timers.next_out || s.deadline() == s.timers.next_in,
        ({
            let t = StateView::initial(s.id, s.session, now);
            &&& t.timers.interval == s.session.heartbeat
            &&& t.timers.next_out == later(now, s.session.heartbeat)
            &&& t.timers.next_in == later(now, s.session.heartbeat)
            &&& t.timers.missed == 0
            &&& t.id == s.id
            &&& t.session == s.session
            &&& t.rerequest is None
            &&& t.recovery is None
            &&& t.replay is None
            &&& !t.logout_pending
            &&& t.test_requests == 0
        }),
{
}

// ---------------------------------------------------------------------------
// Commands
// ---------------------------------------------------------------------------

/// Whatever the application asks for starts the outbound interval anew. What it
/// sends is sent, and when it disconnects a Logout is sent and the session ends.
pub proof fn law_what_commands_do(s: StateView, m: BuilderView, now: nat, logout: BuilderView)
    requires
        names_type(m.header, false),
        new_message(s.session.fix_version, "5"@) == Ok::<BuilderView, ErrorView>(logout),
    ensures
        sends(s.on_command(CommandView::Send(m), now), rested(s, now), m),
        sends_last(
            s.on_command(CommandView::Disconnect, now),
            rested(s, now),
            holding(logout, 58, Typed::String("Disconnect requested by application"@)),
        ),
        s.on_command(CommandView::Replay(m), now) == rested(s, now).replay_message(m),
        s.on_command(CommandView::ReplayComplete, now) == rested(s, now).complete_replay(),
{
    let t = rested(s, now);
    assert(s.spoke(now) == t);
    law_sending(t, m);
    lemma_new_message(logout, s.session.fix_version, "5"@);
    law_sending(
        t,
        holding(logout, 58, Typed::String("Disconnect requested by application"@)),
    );
}

// ---------------------------------------------------------------------------
// Messages
// ---------------------------------------------------------------------------

/// The field reads as a whole number with these low 32 bits.
pub open spec fn reads(nodes: Seq<Node>, tag: u32, n: u32) -> bool {
    field_of(nodes, tag) matches Some(v) && (v.whole() matches Some(i) && i % 0x1_0000_0000 == n)
}

/// The field is not there, or reads as no whole number.
pub open spec fn reads_nothing(nodes: Seq<Node>, tag: u32) -> bool {
    field_of(nodes, tag) matches Some(v) ==> v.whole() is None
}

/// A run that only fails.
pub open spec fn refused(run: Run<StateView>, s: StateView) -> bool {
    &&& run.outputs.len() == 0
    &&& run.end == s
    &&& run.result matches Err(ErrorView::ProtocolViolation(_))
}

/// What is left of a run behind its first `n` outputs.
pub open spec fn behind(run: Run<StateView>, n: int) -> Run<StateView> {
    Run { outputs: run.outputs.skip(n), ..run }
}

/// The Heartbeat that the session has been waiting for.
pub open spec fn is_awaited(s: StateView, m: BuilderView) -> bool {
    s.recovery matches Some(id) && field_of(m.body, 112) matches Some(v) && v.text() == id
}

/// The range that a ResendRequest asks for, where it makes sense: an end of 0 is
/// whatever was sent last.
pub open spec fn asks_for(s: StateView, m: BuilderView, begin: u32, end: u32) -> bool {
    &&& reads(m.body, 7, begin)
    &&& begin > 0
    &&& ({
        ||| reads(m.body, 16, end) && end > 0 && begin <= end
        ||| reads(m.body, 16, 0) && end == if s.session.next_out > 0 {
            s.session.next_out - 1
        } else {
            0
        }
    })
}

/// The session with a replay of this range begun.
pub open spec fn replaying(s: StateView, begin: u32, end: u32) -> StateView {
    StateView {
        replay: Some(ReplayView { begin, end, next: begin as int, owed: 0, queue: seq![] }),
        ..s
    }
}

/// What acting on a message in sequence comes to. The state of the session is
/// reported first. Then a Heartbeat completes the recovery where it carries the
/// `TestReqID` that was asked for, and does nothing otherwise; a TestRequest is
/// answered with a Heartbeat that carries its `TestReqID`; a ResendRequest is
/// handed to the application with the range it asks for, and begins a replay; a
/// Logout is answered with a Logout and ends the session; and an application
/// message is delivered. Nothing else has an effect.
pub proof fn law_what_acting_on_a_message_does(
    s: StateView,
    m: BuilderView,
    heartbeat: BuilderView,
    logout: BuilderView,
)
    requires
        new_message(m.fix_version, "0"@) == Ok::<BuilderView, ErrorView>(heartbeat),
        new_message(s.session.fix_version, "5"@) == Ok::<BuilderView, ErrorView>(logout),
    ensures
        ({
            let run = s.dispatch(m);
            let t = m.msg_type();
            &&& run.outputs.len() >= 1
            &&& run.outputs[0] == (Output::Event(EventView::SessionState(s.session)), s)
            &&& t == "A"@ || t == "3"@ || t == "4"@ || t == "j"@ || t == "h"@ || t == "Y"@ || t
                == "V"@ ==> behind(run, 1) == Run::<StateView> {
                outputs: Outputs::empty(),
                end: s,
                result: on(),
            }
            &&& t == "0"@ && is_awaited(s, m) ==> behind(run, 1) == ({
                let u = StateView { recovery: None, ..s };
                Run {
                    outputs: told(u, EventView::RecoveryCompleted),
                    end: u,
                    result: on(),
                }
            })
            &&& t == "0"@ && !is_awaited(s, m) ==> behind(run, 1) == Run::<StateView> {
                outputs: Outputs::empty(),
                end: s,
                result: on(),
            }
            &&& t == "1"@ && field_of(m.body, 112) is None ==> refused(behind(run, 1), s)
            &&& t == "1"@ ==> (field_of(m.body, 112) matches Some(v) ==> sends(
                behind(run, 1),
                s,
                holding(heartbeat, 112, Typed::String(v.text())),
            ))
            &&& t == "5"@ ==> ({
                let last = behind(run, 1);
                &&& last.result != on()
                &&& last.result is Ok ==> last.result == Ok::<Progress, ErrorView>(Progress::Close)
                &&& utters(
                    Run {
                        result: if last.result is Ok {
                            on()
                        } else {
                            last.result
                        },
                        ..last
                    },
                    s,
                    holding(
                        logout,
                        58,
                        Typed::String("Logout message received. Closing session."@),
                    ),
                )
            })
            &&& !is_session_type(t) ==> behind(run, 1) == Run::<StateView> {
                outputs: told(s, EventView::MessageReceived(m)),
                end: s,
                result: on(),
            }
        }),
{
    lemma_literals();
    lemma_new_message(heartbeat, m.fix_version, "0"@);
    lemma_new_message(logout, s.session.fix_version, "5"@);
    let run = s.dispatch(m);
    let inner = s.act_on(m);
    assert(run.outputs.skip(1) =~= inner.outputs);
    let t = m.msg_type();
    if t == "1"@ {
        if let Some(v) = field_of(m.body, 112) {
            law_sending(s, holding(heartbeat, 112, Typed::String(v.text())));
        }
    } else if t == "5"@ {
        law_putting_a_message_out(
            s,
            holding(logout, 58, Typed::String("Logout message received. Closing session."@)),
        );
    }
}

/// The message types of the session itself, which no application sees.
pub open spec fn is_session_type(t: Seq<char>) -> bool {
    t == "0"@ || t == "1"@ || t == "2"@ || t == "3"@ || t == "4"@ || t == "5"@ || t == "A"@ || t
        == "V"@ || t == "Y"@ || t == "h"@ || t == "j"@
}

proof fn lemma_literals()
    ensures
        "0"@ =~= seq!['0'],
        "1"@ =~= seq!['1'],
        "2"@ =~= seq!['2'],
        "3"@ =~= seq!['3'],
        "4"@ =~= seq!['4'],
        "5"@ =~= seq!['5'],
        "A"@ =~= seq!['A'],
        "V"@ =~= seq!['V'],
        "Y"@ =~= seq!['Y'],
        "h"@ =~= seq!['h'],
        "j"@ =~= seq!['j'],
        forall|a: char, b: char| a != b ==> #[trigger] seq![a] != #[trigger] seq![b],
{
    reveal_strlit("0");
    reveal_strlit("1");
    reveal_strlit("2");
    reveal_strlit("3");
    reveal_strlit("4");
    reveal_strlit("5");
    reveal_strlit("A");
    reveal_strlit("V");
    reveal_strlit("Y");
    reveal_strlit("h");
    reveal_strlit("j");
    assert forall|a: char, b: char| a != b implies #[trigger] seq![a] != #[trigger] seq![b] by {
        assert(seq![a][0] == a && seq![b][0] == b);
    }
}

/// What a ResendRequest comes to once it is acted on: the application is handed
/// the request with the range that is asked for, and a replay of that range has
/// begun. One that makes no sense, or comes while a replay is running, is
/// refused, and nothing is begun.
pub proof fn law_what_a_resend_request_does(s: StateView, m: BuilderView)
    requires
        m.msg_type() == "2"@,
    ensures
        ({
            let run = s.dispatch(m);
            &&& run.outputs.len() >= 1
            &&& run.outputs[0] == (Output::Event(EventView::SessionState(s.session)), s)
            &&& forall|begin: u32, end: u32|
                s.replay is None && #[trigger] asks_for(s, m, begin, end) ==> behind(run, 1)
                    == Run {
                    outputs: told(
                        replaying(s, begin, end),
                        EventView::ResendRequest(m, begin, end),
                    ),
                    end: replaying(s, begin, end),
                    result: on(),
                }
            &&& s.replay is Some ==> refused(behind(run, 1), s)
            &&& reads_nothing(m.body, 7) || reads_nothing(m.body, 16) || reads(m.body, 7, 0)
                ==> refused(behind(run, 1), s)
            &&& forall|begin: u32, end: u32|
                #![trigger reads(m.body, 7, begin), reads(m.body, 16, end)]
                reads(m.body, 7, begin) && reads(m.body, 16, end) && 0 < end < begin ==> refused(
                    behind(run, 1),
                    s,
                )
        }),
{
    lemma_literals();
    let run = s.dispatch(m);
    assert(run.outputs.skip(1) =~= s.act_on(m).outputs);
}

/// The session with this number expected next; a request that is reached by it
/// is no longer outstanding.
pub open spec fn expecting(s: StateView, next: u32) -> StateView {
    StateView {
        session: SessionView { next_in: next, ..s.session },
        rerequest: if s.rerequest matches Some(last) && next < last {
            s.rerequest
        } else {
            None
        },
        ..s
    }
}

/// Where a SequenceReset takes the session: it has to be a gap fill, and to name
/// a number.
pub open spec fn fills_to(m: BuilderView, target: u32) -> bool {
    &&& field_of(m.body, 123) matches Some(v) && v.text() == "Y"@
    &&& reads(m.body, 36, target)
}

/// A message under the number that is expected is acted on, in the session that
/// expects the next one: the number behind it, or the one that a gap fill names.
/// A Logout that was waiting for the gap to close is acknowledged behind it.
pub proof fn law_what_a_message_in_sequence_does(
    s: StateView,
    m: BuilderView,
    seq: u32,
    logout: BuilderView,
)
    requires
        reads(m.header, 34, seq),
        seq == s.session.next_in,
        new_message(s.session.fix_version, "5"@) == Ok::<BuilderView, ErrorView>(logout),
    ensures
        m.msg_type() != "4"@ && seq < u32::MAX ==> settles(
            s.handle(m),
            expecting(s, (seq + 1) as u32),
            m,
            logout,
        ),
        m.msg_type() != "4"@ && seq == u32::MAX ==> refused(s.handle(m), s),
        m.msg_type() == "4"@ ==> forall|target: u32| #[trigger]
            fills_to(m, target) ==> if target > seq {
                settles(s.handle(m), expecting(s, target), m, logout)
            } else {
                refused(s.handle(m), s)
            },
{
    lemma_literals();
    lemma_numbered(m, seq);
    lemma_new_message(logout, s.session.fix_version, "5"@);
    if m.msg_type() != "4"@ {
        if seq < u32::MAX {
            let t = expecting(s, (seq + 1) as u32);
            assert(t == s.advanced((seq + 1) as u32));
            lemma_settles(t, m, logout);
        }
    } else {
        assert forall|target: u32| #[trigger] fills_to(m, target) implies if target > seq {
            settles(s.handle(m), expecting(s, target), m, logout)
        } else {
            refused(s.handle(m), s)
        } by {
            lemma_fills(m, target);
            assert(expecting(s, target) == s.advanced(target));
            lemma_settles(expecting(s, target), m, logout);
        }
    }
}

/// The run acts on the message in this state; where a Logout is waiting and no
/// gap is open, one Logout follows, and the session ends.
pub open spec fn settles(
    run: Run<StateView>,
    t: StateView,
    m: BuilderView,
    logout: BuilderView,
) -> bool {
    let acted = t.dispatch(m);
    if acted.result == on() && t.logout_pending && t.rerequest is None {
        let u = acted.end;
        let n = acted.outputs.len() as int;
        let reason = Typed::String("Logout message received. Closing session."@);
        &&& run.outputs.len() >= n
        &&& run.outputs.take(n) == acted.outputs
        &&& run.result != on()
        &&& run.result is Ok ==> run.result == Ok::<Progress, ErrorView>(Progress::Close)
        &&& utters(
            Run {
                outputs: run.outputs.skip(n),
                end: run.end,
                result: if run.result is Ok {
                    on()
                } else {
                    run.result
                },
            },
            u,
            holding(logout, 58, reason),
        )
    } else {
        run == acted
    }
}

proof fn lemma_settles(t: StateView, m: BuilderView, logout: BuilderView)
    requires
        new_message(t.session.fix_version, "5"@) == Ok::<BuilderView, ErrorView>(logout),
        names_type(logout.header, false),
        !has_field(logout.header, 34),
    ensures
        settles(t.settle(m), t, m, logout),
{
    let acted = t.dispatch(m);
    let u = acted.end;
    lemma_acted_keeps(t, m);
    let reason = Typed::String("Logout message received. Closing session."@);
    law_putting_a_message_out(u, holding(logout, 58, reason));
    let run = t.settle(m);
    let n = acted.outputs.len() as int;
    if acted.result == on() && t.logout_pending && t.rerequest is None {
        let last = u.transmit(holding(logout, 58, reason));
        assert(run.outputs == acted.outputs + last.outputs);
        assert(run.outputs.take(n) =~= acted.outputs);
        assert(run.outputs.skip(n) =~= last.outputs);
    } else {
        assert(run.outputs =~= acted.outputs);
    }
}

proof fn lemma_acted_keeps(s: StateView, m: BuilderView)
    ensures
        s.dispatch(m).end.rerequest == s.rerequest,
        s.dispatch(m).end.logout_pending == s.logout_pending,
        s.dispatch(m).end.session.fix_version == s.session.fix_version,
{
}

proof fn lemma_numbered(m: BuilderView, seq: u32)
    requires
        reads(m.header, 34, seq),
    ensures
        numbered_as(m, seq),
{
}

proof fn lemma_fills(m: BuilderView, target: u32)
    requires
        fills_to(m, target),
    ensures
        gap_fill_target(m) == Ok::<u32, ErrorView>(target),
{
}

/// A message without a readable number is refused, and so is a SequenceReset
/// that is no gap fill or names no number, whatever its own number. A message
/// under a number that has been used ends the session with a Logout that says
/// which number was expected and which came.
pub proof fn law_what_is_refused(s: StateView, m: BuilderView, seq: u32, logout: BuilderView)
    requires
        new_message(s.session.fix_version, "5"@) == Ok::<BuilderView, ErrorView>(logout),
    ensures
        reads_nothing(m.header, 34) ==> refused(s.handle(m), s),
        reads(m.header, 34, seq) && m.msg_type() == "4"@ && ((field_of(m.body, 123) matches Some(v)
            ==> v.text() != "Y"@) || reads_nothing(m.body, 36)) ==> refused(s.handle(m), s),
        reads(m.header, 34, seq) && seq < s.session.next_in && (m.msg_type() == "4"@ ==> exists|
            target: u32,
        |
            fills_to(m, target)) ==> ({
            let run = s.handle(m);
            let reason = "Invalid MsgSeqNum; too low. Expected "@ + decimal_text(
                s.session.next_in as nat,
            ) + " but got "@ + decimal_text(seq as nat) + "."@;
            &&& run.result != on()
            &&& run.result is Ok ==> run.result == Ok::<Progress, ErrorView>(Progress::Close)
            &&& utters(
                Run {
                    result: if run.result is Ok {
                        on()
                    } else {
                        run.result
                    },
                    ..run
                },
                s,
                holding(logout, 58, Typed::String(reason)),
            )
        }),
{
    lemma_literals();
    lemma_new_message(logout, s.session.fix_version, "5"@);
    if reads(m.header, 34, seq) {
        lemma_numbered(m, seq);
        if seq < s.session.next_in {
            let reason = "Invalid MsgSeqNum; too low. Expected "@ + decimal_text(
                s.session.next_in as nat,
            ) + " but got "@ + decimal_text(seq as nat) + "."@;
            law_putting_a_message_out(s, holding(logout, 58, Typed::String(reason)));
            if m.msg_type() == "4"@ && exists|target: u32| fills_to(m, target) {
                let target = choose|target: u32| fills_to(m, target);
                lemma_fills(m, target);
            }
        }
    }
}

/// A message beyond the number that is expected. Where no request is outstanding,
/// a ResendRequest goes out for everything from the expected number on, and the
/// message's number is where the gap ends. The message itself is dropped, but for
/// a ResendRequest, which is acted on at once, and a Logout, which is remembered.
/// The expected number stays.
pub proof fn law_what_a_message_beyond_a_gap_does(
    s: StateView,
    m: BuilderView,
    seq: u32,
    request: BuilderView,
)
    requires
        reads(m.header, 34, seq),
        seq > s.session.next_in,
        m.msg_type() == "4"@ ==> exists|target: u32| fills_to(m, target),
        new_message(m.fix_version, "2"@) == Ok::<BuilderView, ErrorView>(request),
        s.session.next_out < u32::MAX,
    ensures
        ({
            let run = s.handle(m);
            let from = Typed::Int(s.session.next_in as int);
            let asking = StateView { rerequest: Some(seq), ..s };
            let ask = holding(holding(request, 7, from), 16, Typed::Int(0));
            let before = if s.rerequest is None {
                put_out(used(asking), under(ask, s.session.next_out as int))
            } else {
                Outputs::empty()
            };
            let t = if s.rerequest is None {
                used(asking)
            } else {
                s
            };
            &&& run.outputs.len() >= before.len()
            &&& run.outputs.take(before.len() as int) == before
            &&& m.msg_type() == "2"@ ==> behind(run, before.len() as int) == t.dispatch(m)
            &&& m.msg_type() == "5"@ ==> behind(run, before.len() as int) == Run {
                outputs: Outputs::empty(),
                end: StateView { logout_pending: true, ..t },
                result: on(),
            }
            &&& m.msg_type() != "2"@ && m.msg_type() != "5"@ ==> behind(run, before.len() as int)
                == Run { outputs: Outputs::empty(), end: t, result: on() }
        }),
{
    lemma_literals();
    lemma_numbered(m, seq);
    if m.msg_type() == "4"@ {
        let target = choose|target: u32| fills_to(m, target);
        lemma_fills(m, target);
    }
    let run = s.handle(m);
    assert(run == s.handle_gap(m, seq));
    lemma_new_message(request, m.fix_version, "2"@);
    let from = Typed::Int(s.session.next_in as int);
    let asking = StateView { rerequest: Some(seq), ..s };
    let ask = holding(holding(request, 7, from), 16, Typed::Int(0));
    law_putting_a_message_out(asking, ask);
    let before = if s.rerequest is None {
        put_out(used(asking), under(ask, s.session.next_out as int))
    } else {
        Outputs::empty()
    };
    let n = before.len() as int;
    let t = if s.rerequest is None {
        used(asking)
    } else {
        s
    };
    let rest = if m.msg_type() == "2"@ {
        t.dispatch(m).outputs
    } else {
        Outputs::empty()
    };
    assert(run.outputs == before + rest);
    assert(run.outputs.take(n) =~= before);
    assert(run.outputs.skip(n) =~= rest);
}

/// A frame that arrives, whatever is in it, starts the inbound interval anew and
/// nothing counts as missed. One that cannot be taken apart is refused with what
/// stands against it; any other is reported as it came, and then handled.
pub proof fn law_what_a_frame_does(s: StateView, msg: MessageView, now: nat)
    ensures
        ({
            let run = s.on_message(msg, now);
            let t = watched(s, now, 0);
            match taken_apart(msg) {
                Err(e) => run == Run::<StateView> {
                    outputs: Outputs::empty(),
                    end: t,
                    result: Err(e),
                },
                Ok(m) => {
                    &&& run.outputs == told(
                        t,
                        EventView::RawMessageReceived(msg, s.session),
                    ) + t.handle(m).outputs
                    &&& run.end == t.handle(m).end
                    &&& run.result == t.handle(m).result
                },
            }
        }),
{
    assert(s.heard(now) == watched(s, now, 0));
}

// ---------------------------------------------------------------------------
// Recovery
// ---------------------------------------------------------------------------

/// The end of a recovery is reported.
pub open spec fn reports_recovery(run: Run<StateView>) -> bool {
    exists|i: int|
        0 <= i < run.outputs.len() && (#[trigger] run.outputs[i]).0 == Output::Event(
            EventView::RecoveryCompleted,
        )
}

/// No end of a recovery is reported, and what is awaited stays as it is.
spec fn calm(s: StateView, run: Run<StateView>) -> bool {
    !reports_recovery(run) && run.end.recovery == s.recovery
}

proof fn lemma_calm_then(s: StateView, a: Run<StateView>, b: Run<StateView>)
    requires
        calm(s, a),
        a.result == on() ==> calm(a.end, b),
    ensures
        calm(s, a.followed_by(b)),
{
    let run = a.followed_by(b);
    if reports_recovery(run) {
        let i = choose|i: int|
            0 <= i < run.outputs.len() && (#[trigger] run.outputs[i]).0 == Output::Event(
                EventView::RecoveryCompleted,
            );
        if i < a.outputs.len() {
            assert(a.outputs[i].0 == Output::Event(EventView::RecoveryCompleted));
        } else {
            assert(b.outputs[i - a.outputs.len()].0 == Output::Event(
                EventView::RecoveryCompleted,
            ));
        }
    }
}

proof fn lemma_calm_transmit(s: StateView, m: BuilderView)
    ensures
        calm(s, s.transmit(m)),
        calm(s, s.send(m)),
{
}

proof fn lemma_calm_logout(s: StateView, reason: Seq<char>)
    ensures
        calm(s, s.logout(reason)),
        calm(s, s.logout(reason).giving(Progress::Close)),
{
    if let Ok(m) = new_message(s.session.fix_version, "5"@) {
        lemma_calm_transmit(s, m.with_body(TEXT, text(reason)));
    }
    let a = s.logout(reason);
    assert(a.giving(Progress::Close).outputs == a.outputs);
    if reports_recovery(a.giving(Progress::Close)) {
        assert(reports_recovery(a));
    }
}

proof fn lemma_calm_act(s: StateView, m: BuilderView)
    requires
        m.msg_type() == "0"@ ==> !is_awaited(s, m),
    ensures
        calm(s, s.dispatch(m)),
{
    lemma_literals();
    if m.msg_type() == "1"@ {
        if let Ok(h) = new_message(m.fix_version, "0"@) {
            if let Some(v) = field_of(m.body, 112) {
                lemma_calm_transmit(s, h.with_body(112, text(v.text())));
            }
        }
    } else if m.msg_type() == "5"@ {
        lemma_calm_logout(s, closing());
    }
    assert(calm(s, s.act_on(m)));
    lemma_calm_then(s, Run::event(s, EventView::SessionState(s.session)), s.act_on(m));
}

proof fn lemma_calm_settle(s: StateView, m: BuilderView)
    requires
        m.msg_type() == "0"@ ==> !is_awaited(s, m),
    ensures
        calm(s, s.settle(m)),
{
    lemma_calm_act(s, m);
    let done = s.dispatch(m);
    lemma_calm_logout(done.end, closing());
    let rest = if done.end.logout_pending && done.end.rerequest is None {
        done.end.logout(closing()).giving(Progress::Close)
    } else {
        Run::go(done.end)
    };
    lemma_calm_then(s, done, rest);
}

proof fn lemma_calm_gap(s: StateView, m: BuilderView, seq: u32)
    ensures
        calm(s, s.handle_gap(m, seq)),
{
    lemma_literals();
    let asking = StateView { rerequest: Some(seq), ..s };
    let requested = match s.rerequest {
        Some(_) => Run::go(s),
        None => match new_message(m.fix_version, "2"@) {
            Err(e) => Run::fail(s, e),
            Ok(r) => asking.transmit(
                r.with_body(7, number(s.session.next_in as int)).with_body(16, number(0)),
            ),
        },
    };
    if let Ok(r) = new_message(m.fix_version, "2"@) {
        lemma_calm_transmit(
            asking,
            r.with_body(7, number(s.session.next_in as int)).with_body(16, number(0)),
        );
    }
    assert(calm(s, requested));
    let rest = if m.msg_type() == "2"@ {
        requested.end.dispatch(m)
    } else if m.msg_type() == "5"@ {
        Run::go(StateView { logout_pending: true, ..requested.end })
    } else {
        Run::go(requested.end)
    };
    if m.msg_type() == "2"@ {
        lemma_calm_act(requested.end, m);
    }
    lemma_calm_then(s, requested, rest);
}

/// The message is a Heartbeat, under the number that is expected, and carries the
/// `TestReqID` that the session is waiting for.
pub open spec fn answers(s: StateView, m: BuilderView) -> bool {
    &&& m.msg_type() == "0"@
    &&& s.session.next_in < u32::MAX
    &&& reads(m.header, 34, s.session.next_in)
    &&& is_awaited(s, m)
}

proof fn lemma_calm_handle(s: StateView, m: BuilderView)
    requires
        !answers(s, m),
    ensures
        calm(s, s.handle(m)),
{
    lemma_literals();
    let fill = gap_fill_target(m);
    if exists|seq: u32| reads(m.header, 34, seq) {
        let seq = choose|seq: u32| reads(m.header, 34, seq);
        lemma_numbered(m, seq);
        if m.msg_type() == "4"@ && fill is Err {
        } else if seq < s.session.next_in {
            lemma_calm_logout(s, too_low(s.session.next_in, seq));
        } else if seq > s.session.next_in {
            lemma_calm_gap(s, m, seq);
        } else if m.msg_type() == "4"@ {
            lemma_calm_settle(s.advanced(fill->Ok_0), m);
        } else if seq < u32::MAX {
            lemma_calm_settle(s.advanced((seq + 1) as u32), m);
        }
    } else {
        if let Some(v) = field_of(m.header, 34) {
            if let Some(i) = v.whole() {
                assert(reads(m.header, 34, low_bits(i)));
            }
        }
    }
}

/// The end of the recovery is reported with the Heartbeat that carries the
/// `TestReqID` which is outstanding, arriving in sequence, and with nothing else:
/// no other Heartbeat, with another `TestReqID` or with none, no other message,
/// and no frame that cannot be read. With that one, the `TestReqID` is no longer
/// outstanding; with everything else it stays as it was.
pub proof fn law_recovery_ends_with_its_answer_alone(s: StateView, msg: MessageView, now: nat)
    ensures
        ({
            let run = s.on_message(msg, now);
            let answered = taken_apart(msg) matches Ok(m) && answers(s, m);
            &&& answered <==> reports_recovery(run)
            &&& answered ==> run.end.recovery is None
            &&& !answered ==> run.end.recovery == s.recovery
        }),
{
    let t = watched(s, now, 0);
    law_what_a_frame_does(s, msg, now);
    if let Ok(m) = taken_apart(msg) {
        let run = s.on_message(msg, now);
        let first = Run::event(t, EventView::RawMessageReceived(msg, t.session));
        if answers(s, m) {
            lemma_answered(t, m);
            let h = t.handle(m);
            assert(run.outputs[2] == h.outputs[1]);
        } else {
            lemma_calm_handle(t, m);
            lemma_calm_then(t, first, t.handle(m));
        }
    }
}

proof fn lemma_answered(s: StateView, m: BuilderView)
    requires
        answers(s, m),
    ensures
        ({
            let run = s.handle(m);
            &&& run.outputs.len() >= 2
            &&& run.outputs[1].0 == Output::Event(EventView::RecoveryCompleted)
            &&& run.end.recovery is None
        }),
{
    lemma_literals();
    lemma_numbered(m, s.session.next_in);
    let t = s.advanced((s.session.next_in + 1) as u32);
    assert(s.handle(m) == t.settle(m));
    let d = t.dispatch(m);
    assert(d.outputs[1].0 == Output::Event(EventView::RecoveryCompleted));
    lemma_calm_logout(d.end, closing());
}

/// A new message of a type that the version defines has BeginString and MsgType in
/// its header, and nothing else; a type that it does not define gives none.
pub proof fn law_what_a_new_message_is(fix: FixVersion, t: Seq<char>)
    ensures
        match fix.messages.value(t) {
            Some(definition) => new_message(fix, t) == Ok::<BuilderView, ErrorView>(
                BuilderView {
                    fix_message: *definition,
                    fix_version: fix,
                    header: seq![
                        Node::Tag(8, Typed::String(fix.begin_string@)),
                        Node::Tag(35, Typed::String(definition.msg_type@)),
                    ],
                    body: Seq::empty(),
                },
            ),
            None => new_message(fix, t) matches Err(ErrorView::InvalidMessage(_)),
        },
{
}

} // verus!
