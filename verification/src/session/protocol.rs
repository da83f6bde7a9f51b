//! The rules of the session protocol: what each input makes a session do.

use vstd::prelude::*;
use vstd::string::*;

use crate::builder::block::{field_of, has_field, with_field, Node};
use crate::builder::message::{new_header, taken_apart, unreadable, BuilderView};
use crate::builder::value::Typed;
use crate::clock::after;
use crate::error::ErrorView;
use crate::message::{admin_type, MessageView};
use crate::repository::FixVersion;
use crate::schema::fields::{
    BEGIN_SEQ_NO, END_SEQ_NO, GAP_FILL_FLAG, MSG_SEQ_NUM, NEW_SEQ_NO, ORIG_SENDING_TIME,
    POSS_DUP_FLAG, SENDER_COMP_ID, SENDING_TIME, TARGET_COMP_ID, TEST_REQ_ID, TEXT,
};
use crate::session::replay::{replay_for, ReplayStep, ReplayView};
use crate::session::types::{
    CommandView, EventView, IdView, Output, Progress, Run, SessionView,
};
use crate::text::decimal_text;

verus! {

/// How many heartbeat intervals may pass without a word from the peer before
/// the session gives up on it.
pub const MISSED_HEARTBEATS_BEFORE_LOGOUT: u32 = 3;

/// [`Timers`](crate::session::state::Timers) in nanoseconds.
pub ghost struct TimersView {
    pub interval: nat,
    pub next_out: nat,
    pub next_in: nat,
    pub missed: u32,
}

/// A session by what it knows.
pub ghost struct StateView {
    pub id: IdView,
    pub session: SessionView,
    /// While we are waiting for the peer to close a gap: the sequence number
    /// after which recovery is complete.
    pub rerequest: Option<u32>,
    /// `TestReqID` of the synchronisation TestRequest that is yet unanswered.
    pub recovery: Option<Seq<char>>,
    pub replay: Option<ReplayView>,
    /// The peer sent a Logout inside a gap, which is yet to be acknowledged.
    pub logout_pending: bool,
    pub timers: TimersView,
    pub test_requests: u64,
}

pub open spec fn violation(text: Seq<char>) -> ErrorView {
    ErrorView::ProtocolViolation(text)
}

/// The low 32 bits of `i`.
pub open spec fn low_bits(i: int) -> u32 {
    (i % 0x1_0000_0000) as u32
}

/// A sequence number out of a field.
pub open spec fn number_in(
    nodes: Seq<Node>,
    tag: u32,
    absent: Seq<char>,
    malformed: Seq<char>,
) -> std::result::Result<u32, ErrorView> {
    match field_of(nodes, tag) {
        None => Err(violation(absent)),
        Some(v) => match v.whole() {
            None => Err(violation(malformed)),
            Some(i) => Ok(low_bits(i)),
        },
    }
}

/// A new message of this type.
pub open spec fn new_message(fix: FixVersion, msg_type: Seq<char>) -> std::result::Result<
    BuilderView,
    ErrorView,
> {
    match fix.messages.value(msg_type) {
        Some(definition) => Ok(
            BuilderView {
                fix_message: *definition,
                fix_version: fix,
                header: new_header(fix, *definition),
                body: seq![],
            },
        ),
        None => Err(ErrorView::InvalidMessage("Invalid message type"@)),
    }
}

impl BuilderView {
    pub open spec fn with_header(self, tag: u32, v: Typed) -> BuilderView {
        BuilderView { header: with_field(self.header, tag, v), ..self }
    }

    pub open spec fn with_body(self, tag: u32, v: Typed) -> BuilderView {
        BuilderView { body: with_field(self.body, tag, v), ..self }
    }

    pub open spec fn msg_type(self) -> Seq<char> {
        self.fix_message.msg_type@
    }
}

pub open spec fn number(n: int) -> Typed {
    Typed::Int(n)
}

pub open spec fn text(s: Seq<char>) -> Typed {
    Typed::String(s)
}

/// Where an accepted SequenceReset-GapFill takes the inbound sequence. Only the
/// gap fill form of SequenceReset is supported.
pub open spec fn gap_fill_target(msg: BuilderView) -> std::result::Result<u32, ErrorView> {
    match field_of(msg.body, GAP_FILL_FLAG) {
        None => Err(violation("Missing GapFillFlag"@)),
        Some(v) => if v.text() != "Y"@ {
            Err(violation("Sequence reset message is garbage and not supported"@))
        } else {
            number_in(msg.body, NEW_SEQ_NO, "Missing NewSeqNo"@, "Expected integer"@)
        },
    }
}

pub open spec fn closing() -> Seq<char> {
    "Logout message received. Closing session."@
}

pub open spec fn too_low(expected: u32, got: u32) -> Seq<char> {
    "Invalid MsgSeqNum; too low. Expected "@ + decimal_text(expected as nat) + " but got "@
        + decimal_text(got as nat) + "."@
}

impl StateView {
    /// A session whose clocks start at `now`.
    pub open spec fn initial(id: IdView, session: SessionView, now: nat) -> StateView {
        StateView {
            id,
            session,
            rerequest: None,
            recovery: None,
            replay: None,
            logout_pending: false,
            timers: TimersView {
                interval: session.heartbeat,
                next_out: after(now, session.heartbeat),
                next_in: after(now, session.heartbeat),
                missed: 0,
            },
            test_requests: 0,
        }
    }

    /// The session header fields on `msg`: sender and target are the session's
    /// own, and `SendingTime` is an empty slot.
    pub open spec fn addressed(self, msg: BuilderView) -> BuilderView {
        msg.with_header(SENDER_COMP_ID, text(self.id.sender_comp_id)).with_header(
            TARGET_COMP_ID,
            text(self.id.target_comp_id),
        ).with_header(SENDING_TIME, text(""@))
    }

    /// Hand `msg`, numbered, to the output, and report that it went out.
    pub open spec fn emit(self, msg: BuilderView) -> Run<StateView> {
        let flat = self.addressed(msg).flattened(false);
        if flat.is_readable() {
            Run {
                outputs: seq![
                    (Output::Transmit(flat, self.session), self),
                    (Output::Sent(self.session), self),
                ],
                end: self,
                result: Ok(Progress::Continue),
            }
        } else {
            Run::fail(self, unreadable())
        }
    }

    /// The state once the next outbound sequence number has been used.
    pub open spec fn numbered(self) -> StateView {
        StateView {
            session: SessionView {
                next_out: (self.session.next_out + 1) as u32,
                ..self.session
            },
            ..self
        }
    }

    /// Put `msg` on the wire. It gets the next sequence number, unless it has
    /// one already as a gap fill or a replayed message does.
    pub open spec fn transmit(self, msg: BuilderView) -> Run<StateView> {
        if has_field(msg.header, MSG_SEQ_NUM) {
            self.emit(msg)
        } else if self.session.next_out == u32::MAX {
            Run::fail(self, violation("Outbound sequence numbers are exhausted"@))
        } else {
            self.numbered().emit(
                msg.with_header(MSG_SEQ_NUM, number(self.session.next_out as int)),
            )
        }
    }

    /// Send an application or admin message, deferring it if a replay is
    /// running.
    pub open spec fn send(self, msg: BuilderView) -> Run<StateView> {
        match self.replay {
            Some(replay) => Run::go(
                StateView {
                    replay: Some(ReplayView { queue: replay.queue.push(msg), ..replay }),
                    ..self
                },
            ),
            None => self.transmit(
                msg.with_header(MSG_SEQ_NUM, Typed::Empty).with_header(
                    POSS_DUP_FLAG,
                    Typed::Empty,
                ),
            ),
        }
    }

    /// Send the first `n` of these in order.
    pub open spec fn send_all(self, queue: Seq<BuilderView>, n: nat) -> Run<StateView>
        decreases n,
    {
        if n == 0 {
            Run::go(self)
        } else {
            let before = self.send_all(queue, (n - 1) as nat);
            before.followed_by(before.end.send(queue[n - 1]))
        }
    }

    /// Skip over `begin..=end` with a single SequenceReset-GapFill. `NewSeqNo`
    /// is the number of the next message the peer should expect.
    pub open spec fn gap_fill(self, begin: u32, end: u32) -> Run<StateView> {
        match new_message(self.session.fix_version, "4"@) {
            Err(e) => Run::fail(self, e),
            Ok(m) => self.transmit(
                m.with_body(GAP_FILL_FLAG, text("Y"@)).with_header(
                    MSG_SEQ_NUM,
                    number(begin as int),
                ).with_body(NEW_SEQ_NO, number(end + 1)),
            ),
        }
    }

    /// Send a Logout carrying a reason.
    pub open spec fn logout(self, reason: Seq<char>) -> Run<StateView> {
        match new_message(self.session.fix_version, "5"@) {
            Err(e) => Run::fail(self, e),
            Ok(m) => self.transmit(m.with_body(TEXT, text(reason))),
        }
    }

    /// The state once another `TestReqID` has been made.
    pub open spec fn counted(self) -> StateView {
        StateView {
            test_requests: if self.test_requests == u64::MAX {
                0
            } else {
                (self.test_requests + 1) as u64
            },
            ..self
        }
    }

    /// The `TestReqID` made last.
    pub open spec fn test_id(self, prefix: Seq<char>) -> Seq<char> {
        prefix + decimal_text(self.test_requests as nat)
    }

    /// Ask the peer to confirm that both sides are in step.
    pub open spec fn synchronise(self) -> Run<StateView> {
        let s = self.counted();
        match new_message(s.session.fix_version, "1"@) {
            Err(e) => Run::fail(s, e),
            Ok(m) => {
                let sent = s.transmit(m.with_body(TEST_REQ_ID, text(s.test_id("HELO-"@))));
                sent.followed_by(
                    Run::go(StateView { recovery: Some(s.test_id("HELO-"@)), ..sent.end }),
                )
            },
        }
    }

    /// Account for a message that the application offers for retransmission.
    pub open spec fn replay_message(self, msg: BuilderView) -> Run<StateView> {
        match number_in(
            msg.header,
            MSG_SEQ_NUM,
            "No MsgSeqNum in replay message"@,
            "MsgSeqNum is not an integer"@,
        ) {
            Err(e) => Run::fail(self, e),
            Ok(seq) => match self.replay {
                None => Run::fail(self, violation("No replay in progress"@)),
                Some(replay) => {
                    let (next, step) = replay.offer(seq, admin_type(msg.msg_type()));
                    let s = StateView { replay: Some(next), ..self };
                    match step {
                        ReplayStep::Retransmit { gap_fill } => {
                            let filled = match gap_fill {
                                Some((begin, end)) => s.gap_fill(begin, end),
                                None => Run::go(s),
                            };
                            filled.followed_by(filled.end.retransmit(msg))
                        },
                        _ => Run::go(s),
                    }
                },
            },
        }
    }

    /// Send a message again. The peer needs to know when it was *originally*
    /// sent.
    pub open spec fn retransmit(self, msg: BuilderView) -> Run<StateView> {
        match field_of(msg.header, SENDING_TIME) {
            None => Run::fail(self, violation("Missing SendingTime"@)),
            Some(t) => self.transmit(
                msg.with_header(ORIG_SENDING_TIME, t).with_header(POSS_DUP_FLAG, text("Y"@)),
            ),
        }
    }

    /// Gap-fill what is left of the range, release what was held back, and
    /// re-synchronise.
    pub open spec fn complete_replay(self) -> Run<StateView> {
        match self.replay {
            None => Run::fail(self, violation("No replay in progress"@)),
            Some(replay) => {
                let s = StateView {
                    replay: Some(ReplayView { queue: seq![], ..replay }),
                    ..self
                };
                let filled = match replay.trailing() {
                    Some((begin, end)) => s.gap_fill(begin, end),
                    None => Run::go(s),
                };
                let released = filled.followed_by(
                    StateView { replay: None, ..filled.end }.send_all(
                        replay.queue,
                        replay.queue.len(),
                    ),
                );
                released.followed_by(released.end.synchronise())
            },
        }
    }

    /// Act on a message that is in sequence, or that cannot wait until it is.
    pub open spec fn dispatch(self, msg: BuilderView) -> Run<StateView> {
        Run::event(self, EventView::SessionState(self.session)).followed_by(self.act_on(msg))
    }

    pub open spec fn act_on(self, msg: BuilderView) -> Run<StateView> {
        let t = msg.msg_type();
        if t == "A"@ {
            Run::go(self)
        } else if t == "0"@ {
            match (field_of(msg.body, TEST_REQ_ID), self.recovery) {
                (Some(v), Some(id)) => if v.text() == id {
                    let s = StateView { recovery: None, ..self };
                    Run::event(s, EventView::RecoveryCompleted)
                } else {
                    Run::go(self)
                },
                _ => Run::go(self),
            }
        } else if t == "1"@ {
            self.answer_test_request(msg)
        } else if t == "2"@ {
            self.begin_replay(msg)
        } else if t == "5"@ {
            self.logout(closing()).giving(Progress::Close)
        } else if admin_type(t) {
            Run::go(self)
        } else {
            Run::event(self, EventView::MessageReceived(msg))
        }
    }

    /// Answer a TestRequest with a Heartbeat that carries its `TestReqID`.
    pub open spec fn answer_test_request(self, msg: BuilderView) -> Run<StateView> {
        match new_message(msg.fix_version, "0"@) {
            Err(e) => Run::fail(self, e),
            Ok(m) => match field_of(msg.body, TEST_REQ_ID) {
                None => Run::fail(self, violation("Missing TestReqID"@)),
                Some(v) => self.send(m.with_body(TEST_REQ_ID, text(v.text()))),
            },
        }
    }

    /// Begin to answer a ResendRequest.
    pub open spec fn begin_replay(self, msg: BuilderView) -> Run<StateView> {
        let begin = number_in(
            msg.body,
            BEGIN_SEQ_NO,
            "Missing BeginSeqNo"@,
            "Expected integer"@,
        );
        let end = number_in(msg.body, END_SEQ_NO, "Missing EndSeqNo"@, "Expected integer"@);
        match (begin, end) {
            (Err(e), _) => Run::fail(self, e),
            (_, Err(e)) => Run::fail(self, e),
            (Ok(begin), Ok(end)) => if self.replay is Some {
                Run::fail(
                    self,
                    violation("ResendRequest while a resend is already in progress"@),
                )
            } else {
                match replay_for(begin, end, self.session.next_out) {
                    Err(e) => Run::fail(self, e),
                    Ok(replay) => {
                        let s = StateView { replay: Some(replay), ..self };
                        Run::event(s, EventView::ResendRequest(msg, replay.begin, replay.end))
                    },
                }
            },
        }
    }

    /// Handle an inbound message by its sequence number.
    pub open spec fn handle(self, msg: BuilderView) -> Run<StateView> {
        match number_in(
            msg.header,
            MSG_SEQ_NUM,
            "Missing MsgSeqNum"@,
            "MsgSeqNum is not an integer"@,
        ) {
            Err(e) => Run::fail(self, e),
            Ok(seq) => {
                let is_fill = msg.msg_type() == "4"@;
                if is_fill && gap_fill_target(msg) is Err {
                    Run::fail(self, gap_fill_target(msg)->Err_0)
                } else if seq < self.session.next_in {
                    // One of the two peers has lost session state.
                    self.logout(too_low(self.session.next_in, seq)).giving(Progress::Close)
                } else if seq > self.session.next_in {
                    self.handle_gap(msg, seq)
                } else if is_fill {
                    let target = gap_fill_target(msg)->Ok_0;
                    if target <= seq {
                        Run::fail(
                            self,
                            violation(
                                "Invalid NewSeqNo in GapFill; expected greater than "@
                                    + decimal_text(seq as nat) + " but got "@ + decimal_text(
                                    target as nat,
                                ),
                            ),
                        )
                    } else {
                        self.advanced(target).settle(msg)
                    }
                } else if seq == u32::MAX {
                    Run::fail(self, violation("Inbound sequence numbers are exhausted"@))
                } else {
                    self.advanced((seq + 1) as u32).settle(msg)
                }
            },
        }
    }

    /// The state once the next expected inbound number is `next_in`. A gap that
    /// is closed by it is forgotten.
    pub open spec fn advanced(self, next_in: u32) -> StateView {
        StateView {
            session: SessionView { next_in, ..self.session },
            rerequest: match self.rerequest {
                Some(last) => if next_in >= last {
                    None
                } else {
                    Some(last)
                },
                None => None,
            },
            ..self
        }
    }

    /// Act on a message in sequence. A Logout that was waiting for the gap to
    /// close is acknowledged after it.
    pub open spec fn settle(self, msg: BuilderView) -> Run<StateView> {
        let done = self.dispatch(msg);
        done.followed_by(
            if done.end.logout_pending && done.end.rerequest is None {
                done.end.logout(closing()).giving(Progress::Close)
            } else {
                Run::go(done.end)
            },
        )
    }

    /// A message beyond the next expected one. Everything from the first missing
    /// message on is requested, once, and the message is dropped: the peer will
    /// retransmit it. Only a ResendRequest and a Logout are never retransmitted,
    /// so they are acted on, or remembered.
    pub open spec fn handle_gap(self, msg: BuilderView, seq: u32) -> Run<StateView> {
        let requested = match self.rerequest {
            Some(_) => Run::go(self),
            None => match new_message(msg.fix_version, "2"@) {
                Err(e) => Run::fail(self, e),
                Ok(m) => StateView { rerequest: Some(seq), ..self }.transmit(
                    m.with_body(BEGIN_SEQ_NO, number(self.session.next_in as int)).with_body(
                        END_SEQ_NO,
                        number(0),
                    ),
                ),
            },
        };
        requested.followed_by(
            if msg.msg_type() == "2"@ {
                requested.end.dispatch(msg)
            } else if msg.msg_type() == "5"@ {
                Run::go(StateView { logout_pending: true, ..requested.end })
            } else {
                Run::go(requested.end)
            },
        )
    }

    /// What the peer's Logon does.
    pub open spec fn start(self, logon: BuilderView) -> Run<StateView> {
        let handled = self.handle(logon);
        handled.followed_by(handled.end.synchronise())
    }

    /// The state once a frame has arrived.
    pub open spec fn heard(self, now: nat) -> StateView {
        StateView {
            timers: TimersView {
                next_in: after(now, self.timers.interval),
                missed: 0,
                ..self.timers
            },
            ..self
        }
    }

    /// The state once the next heartbeat has been put off.
    pub open spec fn spoke(self, now: nat) -> StateView {
        StateView {
            timers: TimersView {
                next_out: after(now, self.timers.interval),
                ..self.timers
            },
            ..self
        }
    }

    /// What an inbound frame does. Liveness is evidenced by the frame arriving
    /// at all, so it is credited before any validation.
    pub open spec fn on_message(self, msg: MessageView, now: nat) -> Run<StateView> {
        let s = self.heard(now);
        match taken_apart(msg) {
            Err(e) => Run::fail(s, e),
            Ok(m) => Run::event(s, EventView::RawMessageReceived(msg, s.session)).followed_by(
                s.handle(m),
            ),
        }
    }

    /// What an application command does. Each puts a message on the wire, which
    /// is itself evidence of liveness, so the outbound heartbeat is deferred;
    /// nothing else defers it.
    pub open spec fn on_command(self, cmd: CommandView, now: nat) -> Run<StateView> {
        let s = self.spoke(now);
        match cmd {
            CommandView::Send(msg) => s.send(msg),
            CommandView::Replay(msg) => s.replay_message(msg),
            CommandView::ReplayComplete => s.complete_replay(),
            CommandView::Disconnect => match new_message(s.session.fix_version, "5"@) {
                Err(e) => Run::fail(s, e),
                Ok(m) => s.send(
                    m.with_body(TEXT, text("Disconnect requested by application"@)),
                ).giving(Progress::Close),
            },
        }
    }

    /// The outbound heartbeat, where it is due.
    pub open spec fn beat(self, now: nat) -> Run<StateView> {
        if now < self.timers.next_out {
            Run::go(self)
        } else {
            let s = self.spoke(now);
            match new_message(s.session.fix_version, "0"@) {
                Err(e) => Run::fail(s, e),
                Ok(m) => s.send(m),
            }
        }
    }

    /// The inbound deadline, where it has passed: nothing the first time, a
    /// TestRequest the second, and the end of the session from the third on.
    pub open spec fn miss(self, now: nat) -> Run<StateView> {
        if now < self.timers.next_in {
            Run::go(self)
        } else {
            let missed = if self.timers.missed == u32::MAX {
                u32::MAX
            } else {
                (self.timers.missed + 1) as u32
            };
            let s = StateView {
                timers: TimersView {
                    next_in: after(now, self.timers.interval),
                    missed,
                    ..self.timers
                },
                ..self
            };
            if missed == 1 {
                Run::go(s)
            } else if missed < MISSED_HEARTBEATS_BEFORE_LOGOUT {
                let c = s.counted();
                match new_message(c.session.fix_version, "1"@) {
                    Err(e) => Run::fail(c, e),
                    Ok(m) => c.send(m.with_body(TEST_REQ_ID, text(c.test_id("HB"@)))),
                }
            } else {
                match new_message(s.session.fix_version, "5"@) {
                    Err(e) => Run::fail(s, e),
                    Ok(m) => s.send(m.with_body(TEXT, text("Heartbeat timeout"@))).giving(
                        Progress::Close,
                    ),
                }
            }
        }
    }

    /// What the passing of time does.
    pub open spec fn on_timeout(self, now: nat) -> Run<StateView> {
        let beat = self.beat(now);
        beat.followed_by(beat.end.miss(now))
    }

    /// What the peer going away does.
    pub open spec fn on_peer_closed(self) -> Run<StateView> {
        Run::event(self, EventView::Disconnected).giving(Progress::Close)
    }

    pub open spec fn deadline(self) -> nat {
        if self.timers.next_out <= self.timers.next_in {
            self.timers.next_out
        } else {
            self.timers.next_in
        }
    }

    pub open spec fn wf(self) -> bool {
        self.replay matches Some(replay) ==> replay.wf()
    }
}

} // verus!
