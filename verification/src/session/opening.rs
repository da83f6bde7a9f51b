//! What the logon exchange does, in terms of what goes in and what comes out.

use vstd::prelude::*;
use vstd::string::*;

use crate::builder::block::{field_of, has_field, last_of, law_set_then_read};
use crate::builder::message::{names_type, taken_apart, BuilderView};
use crate::builder::value::Typed;
use crate::error::ErrorView;
use crate::message::MessageView;
use crate::session::conduct::{
    ask_id, asked, behind, holding, later, law_putting_a_message_out, on, put_out, told, under,
    used,
};
use crate::session::exchange::Outputs;
use crate::session::handshake::{
    identity_in, initiate, logon_for, logon_in, overdue, AcceptorView,
};
use crate::session::input::InputView;
use crate::session::protocol::{new_message, StateView, TimersView};
use crate::session::recovery::lemma_new_message;
use crate::session::types::{EventView, IdView, Output, Progress, Run, SessionView};
use crate::text::decimal_text;

verus! {

// ---------------------------------------------------------------------------
// The Logon
// ---------------------------------------------------------------------------

/// The Logon that a session sends is a new Logon of its version. HeartBtInt
/// holds the heartbeat interval in whole seconds, EncryptMethod holds 0, and
/// DefaultApplVerID holds 10 where the version's Logon has that field and is not
/// there where it does not. No other field is set.
pub proof fn law_what_a_logon_says(
    session: SessionView,
    new: BuilderView,
    seconds: nat,
    other: u32,
)
    requires
        new_message(session.fix_version, "A"@) == Ok::<BuilderView, ErrorView>(new),
        seconds * 1_000_000_000 <= session.heartbeat < (seconds + 1) * 1_000_000_000,
    ensures
        logon_for(session) matches Ok(logon) && {
            &&& logon.fix_version == session.fix_version
            &&& logon.fix_message == new.fix_message
            &&& logon.header == new.header
            &&& field_of(logon.body, 108) == Some(Typed::String(decimal_text(seconds)))
            &&& field_of(logon.body, 98) == Some(Typed::String("0"@))
            &&& field_of(logon.body, 1137) == if session.fix_version.has_member(
                new.fix_message.elements@,
                1137,
            ) {
                Some(Typed::String("10"@))
            } else {
                None
            }
            &&& other != 108 && other != 98 && other != 1137 ==> field_of(logon.body, other)
                is None
            &&& names_type(logon.header, false)
            &&& !has_field(logon.header, 34)
        },
{
    lemma_new_message(new, session.fix_version, "A"@);
    assert(session.heartbeat / 1_000_000_000 == seconds);
    let interval = Typed::String(decimal_text(seconds));
    let timed = new.with_body(108, interval);
    let known = session.fix_version.has_member(new.fix_message.elements@, 1137);
    let versioned = if known {
        timed.with_body(1137, Typed::String("10"@))
    } else {
        timed
    };
    assert(new.body.len() == 0);
    assert(last_of(new.body, 1137, 0) == -1);
    law_set_then_read(new.body, 108, interval, 1137);
    law_set_then_read(new.body, 108, interval, other);
    law_set_then_read(timed.body, 1137, Typed::String("10"@), 108);
    law_set_then_read(timed.body, 1137, Typed::String("10"@), other);
    law_set_then_read(versioned.body, 98, Typed::String("0"@), 108);
    law_set_then_read(versioned.body, 98, Typed::String("0"@), 1137);
    law_set_then_read(versioned.body, 98, Typed::String("0"@), other);
}

/// A new session of this identity at this time: nothing outstanding, and both
/// deadlines one heartbeat interval ahead.
pub open spec fn newborn(id: IdView, session: SessionView, now: nat) -> StateView {
    StateView {
        id,
        session,
        rerequest: None,
        recovery: None,
        replay: None,
        logout_pending: false,
        timers: TimersView {
            interval: session.heartbeat,
            next_out: later(now, session.heartbeat),
            next_in: later(now, session.heartbeat),
            missed: 0,
        },
        test_requests: 0,
    }
}

/// An initiator says that there is a connection, and puts its Logon out under
/// the session's next number.
pub proof fn law_what_an_initiator_opens_with(
    id: IdView,
    session: SessionView,
    now: nat,
    logon: BuilderView,
)
    requires
        logon_for(session) == Ok::<BuilderView, ErrorView>(logon),
        session.next_out < u32::MAX,
    ensures
        ({
            let s = newborn(id, session, now);
            initiate(id, session, now) == Run {
                outputs: told(s, EventView::ConnectionEstablished) + put_out(
                    used(s),
                    under(logon, session.next_out as int),
                ),
                end: used(s),
                result: on(),
            }
        }),
{
    let s = newborn(id, session, now);
    assert(s == StateView::initial(id, session, now));
    lemma_logon_goes_out(s, logon);
}

proof fn lemma_logon_goes_out(s: StateView, logon: BuilderView)
    requires
        logon_for(s.session) == Ok::<BuilderView, ErrorView>(logon),
        s.session.next_out < u32::MAX,
    ensures
        s.send_logon() == (Run {
            outputs: put_out(used(s), under(logon, s.session.next_out as int)),
            end: used(s),
            result: on(),
        }),
{
    let new = new_message(s.session.fix_version, "A"@)->Ok_0;
    law_what_a_logon_says(s.session, new, s.session.heartbeat / 1_000_000_000, 0);
    law_putting_a_message_out(s, logon);
}

/// An acceptor says that there is a connection, reports the frame that the peer's
/// Logon came in, and puts its own Logon out under the session's next number. Then
/// the session starts with the peer's Logon.
pub proof fn law_what_an_acceptor_answers(
    s: StateView,
    peer: BuilderView,
    raw: MessageView,
    logon: BuilderView,
)
    requires
        logon_for(s.session) == Ok::<BuilderView, ErrorView>(logon),
        s.session.next_out < u32::MAX,
    ensures
        ({
            let run = s.accept(peer, raw);
            &&& run.outputs.len() >= 4
            &&& run.outputs.take(4) == told(s, EventView::ConnectionEstablished) + told(
                s,
                EventView::RawMessageReceived(raw, s.session),
            ) + put_out(used(s), under(logon, s.session.next_out as int))
            &&& behind(run, 4) == used(s).start(peer)
        }),
{
    lemma_logon_goes_out(s, logon);
    let run = s.accept(peer, raw);
    let first = told(s, EventView::ConnectionEstablished) + told(
        s,
        EventView::RawMessageReceived(raw, s.session),
    ) + put_out(used(s), under(logon, s.session.next_out as int));
    assert(run.outputs == first + used(s).start(peer).outputs);
    assert(run.outputs.take(4) =~= first);
    assert(run.outputs.skip(4) =~= used(s).start(peer).outputs);
}

/// An initiator reports the frame that the peer's Logon came in, and the session
/// starts with it. Anything but a Logon is refused, and nothing is put out.
pub proof fn law_what_completes_an_initiation(s: StateView, msg: MessageView)
    ensures
        match taken_apart(msg) {
            Err(e) => s.complete(msg) == Run::<StateView> {
                outputs: Outputs::empty(),
                end: s,
                result: Err(e),
            },
            Ok(m) => {
                let run = s.complete(msg);
                if m.msg_type() == "A"@ {
                    &&& run.outputs == told(
                        s,
                        EventView::RawMessageReceived(msg, s.session),
                    ) + s.start(m).outputs
                    &&& run.end == s.start(m).end
                    &&& run.result == s.start(m).result
                } else {
                    &&& run.outputs.len() == 0
                    &&& run.end == s
                    &&& run.result == Err::<Progress, ErrorView>(
                        ErrorView::ProtocolViolation(
                            "First message was not a logon, got: "@ + m.msg_type(),
                        ),
                    )
                }
            },
        },
{
}

/// A session starts by handling the peer's Logon as any message, and then, where
/// it goes on, asks the peer with a TestRequest to confirm that both are in step:
/// the `TestReqID` is new, and the session waits for it from then on.
pub proof fn law_how_a_session_starts(s: StateView, peer: BuilderView, probe: BuilderView)
    requires
        new_message(s.handle(peer).end.session.fix_version, "1"@) == Ok::<BuilderView, ErrorView>(
            probe,
        ),
        s.handle(peer).end.session.next_out < u32::MAX,
    ensures
        ({
            let first = s.handle(peer);
            let run = s.start(peer);
            &&& first.result == on() ==> ({
                let t = asked(first.end);
                let id = ask_id(first.end, "HELO-"@);
                &&& run.outputs == first.outputs + put_out(
                    used(t),
                    under(holding(probe, 112, id), t.session.next_out as int),
                )
                &&& run.end == StateView { recovery: Some(id.text()), ..used(t) }
                &&& run.result == on()
            })
            &&& first.result != on() ==> run == first
        }),
{
    lemma_synchronises(s.handle(peer).end, probe);
}

/// Asking the peer to confirm that both are in step.
pub proof fn lemma_synchronises(s: StateView, probe: BuilderView)
    requires
        new_message(s.session.fix_version, "1"@) == Ok::<BuilderView, ErrorView>(probe),
        s.session.next_out < u32::MAX,
    ensures
        ({
            let t = asked(s);
            let id = ask_id(s, "HELO-"@);
            s.synchronise() == Run {
                outputs: put_out(
                    used(t),
                    under(holding(probe, 112, id), t.session.next_out as int),
                ),
                end: StateView { recovery: Some(id.text()), ..used(t) },
                result: on(),
            }
        }),
{
    let t = asked(s);
    assert(t == s.counted());
    lemma_new_message(probe, s.session.fix_version, "1"@);
    law_putting_a_message_out(t, holding(probe, 112, ask_id(s, "HELO-"@)));
    let sent = t.transmit(holding(probe, 112, ask_id(s, "HELO-"@)));
    assert(s.synchronise().outputs =~= sent.outputs);
}

// ---------------------------------------------------------------------------
// Who the peer is
// ---------------------------------------------------------------------------

/// A Logon names the session by its BeginString, TargetCompID and SenderCompID,
/// as they are seen from this side: the peer's target is this side's sender, and
/// the peer's sender is this side's target. One that lacks any of them names no
/// session.
pub proof fn law_what_a_logon_names(logon: BuilderView)
    ensures
        match (field_of(logon.header, 8), field_of(logon.header, 56), field_of(logon.header, 49)) {
            (Some(version), Some(target), Some(sender)) => identity_in(logon) == Ok::<
                IdView,
                ErrorView,
            >(
                IdView {
                    begin_string: version.text(),
                    sender_comp_id: target.text(),
                    target_comp_id: sender.text(),
                },
            ),
            _ => identity_in(logon) matches Err(ErrorView::ProtocolViolation(_)),
        },
{
}

/// The first frame of a connection names the session where it is a Logon that
/// does; the Logon and the frame are kept. Any other frame is refused, and so is
/// a second one.
pub proof fn law_what_identifies_a_peer(a: AcceptorView, msg: MessageView)
    ensures
        a.pending is Some ==> a.identified(msg) is Err,
        a.pending is None ==> match taken_apart(msg) {
            Err(e) => a.identified(msg) == Err::<AcceptorView, ErrorView>(e),
            Ok(m) => if m.msg_type() == "A"@ {
                match identity_in(m) {
                    Err(e) => a.identified(msg) == Err::<AcceptorView, ErrorView>(e),
                    Ok(id) => a.identified(msg) == Ok::<AcceptorView, ErrorView>(
                        AcceptorView { deadline: a.deadline, pending: Some((id, m, msg)) },
                    ),
                }
            } else {
                a.identified(msg) matches Err(ErrorView::ProtocolViolation(_))
            },
        },
{
}

/// The exchange is given up on once its deadline has been reached, and not
/// before.
pub proof fn law_when_the_exchange_is_overdue(deadline: nat, now: nat)
    ensures
        overdue(deadline, now) is Err <==> deadline <= now,
        overdue(deadline, now) matches Err(e) ==> e is ConnectionFailed,
{
}

// ---------------------------------------------------------------------------
// The end of the line
// ---------------------------------------------------------------------------

/// A stream that fails and an application that is gone end the session without a
/// word; a peer that closes the connection is reported as gone. Every other input
/// is what its name says.
pub proof fn law_what_inputs_do(s: StateView, now: nat)
    ensures
        s.on_input(InputView::ReadFailed, now) == (Run::<StateView> {
            outputs: Outputs::empty(),
            end: s,
            result: Ok(Progress::Close),
        }),
        s.on_input(InputView::CommandsClosed, now) == (Run::<StateView> {
            outputs: Outputs::empty(),
            end: s,
            result: Ok(Progress::Close),
        }),
        s.on_input(InputView::PeerClosed, now) == (Run::<StateView> {
            outputs: told(s, EventView::Disconnected),
            end: s,
            result: Ok(Progress::Close),
        }),
        s.on_input(InputView::PeerClosed, now) == s.on_peer_closed(),
        s.on_input(InputView::Deadline, now) == s.on_timeout(now),
        forall|cmd| #[trigger]
            s.on_input(InputView::Command(cmd), now) == s.on_command(cmd, now),
        forall|msg| #[trigger] s.on_input(InputView::Frame(msg), now) == s.on_message(msg, now),
{
}

} // verus!
