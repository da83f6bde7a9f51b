//! The session state machine proper.

use vstd::prelude::*;
use vstd::string::*;

use crate::builder::message::BuilderView;
use crate::builder::{Block, Message};
use crate::clock::{after, Duration, Instant};
use crate::error::{Error, ErrorView, Result};
use crate::message::FixMessage;
use crate::schema::fields::{
    BEGIN_SEQ_NO, END_SEQ_NO, GAP_FILL_FLAG, MSG_SEQ_NUM, NEW_SEQ_NO, ORIG_SENDING_TIME,
    POSS_DUP_FLAG, SENDER_COMP_ID, SENDING_TIME, TARGET_COMP_ID, TEST_REQ_ID, TEXT,
};
use crate::session::protocol::{
    closing, gap_fill_target, low_bits, new_message, number, number_in, too_low, StateView,
    TimersView, MISSED_HEARTBEATS_BEFORE_LOGOUT,
};
use crate::session::replay::{messages_view, messages_wf, Replay, ReplayStep, ReplayView};
use crate::session::types::{
    going_on, lemma_realises_done, lemma_realises_event, lemma_realises_giving,
    lemma_realises_sent, lemma_realises_stop, lemma_realises_then, realises, Command, Event,
    EventView, Progress, Run, Session, SessionIdentifier, SessionOutput,
};
use crate::text::{push_decimal, text_eq};

verus! {

/// Heartbeat deadlines, held as absolute instants.
#[derive(Clone, Copy, Debug)]
pub struct Timers {
    pub interval: Duration,
    /// When to send the next heartbeat, absent other outbound traffic.
    pub next_out: Instant,
    /// When to count the peer as having missed one.
    pub next_in: Instant,
    pub missed_heartbeats: u32,
}

impl View for Timers {
    type V = TimersView;

    open spec fn view(&self) -> TimersView {
        TimersView {
            interval: self.interval@,
            next_out: self.next_out@,
            next_in: self.next_in@,
            missed: self.missed_heartbeats,
        }
    }
}

impl Timers {
    pub fn new(interval: Duration, now: Instant) -> (r: Self)
        ensures
            r@ == (TimersView {
                interval: interval@,
                next_out: after(now@, interval@),
                next_in: after(now@, interval@),
                missed: 0,
            }),
    {
        Timers {
            interval,
            next_out: now.plus(interval),
            next_in: now.plus(interval),
            missed_heartbeats: 0,
        }
    }

    pub fn reset_out(&mut self, now: Instant)
        ensures
            final(self)@ == (TimersView {
                next_out: after(now@, old(self)@.interval),
                ..old(self)@
            }),
    {
        self.next_out = now.plus(self.interval);
    }

    pub fn reset_in(&mut self, now: Instant)
        ensures
            final(self)@ == (TimersView {
                next_in: after(now@, old(self)@.interval),
                missed: 0,
                ..old(self)@
            }),
    {
        self.next_in = now.plus(self.interval);
        self.missed_heartbeats = 0;
    }
}

/// The FIX session state machine: sequence numbers, heartbeats, recovery.
///
/// See the [module docs](crate::session) for how a driver is expected to call
/// this.
pub struct SessionState {
    session_id: SessionIdentifier,
    session: Session,
    /// Set while we are waiting for the peer to close a gap: holds the sequence
    /// number after which recovery is complete.
    rerequest_in_progress: Option<u32>,
    /// `TestReqID` of the synchronisation TestRequest sent after logon; cleared
    /// when the peer echoes it back.
    recovery_tr_id: Option<String>,
    replay: Option<Replay>,
    /// The peer sent a Logout that arrived inside a sequence gap. It is
    /// acknowledged, and the session ended, once the gap has been recovered.
    peer_logout_pending: bool,
    timers: Timers,
    /// Makes `TestReqID`s unique without reading a clock, which also makes them
    /// reproducible under test.
    test_request_seq: u64,
}

impl View for SessionState {
    type V = StateView;

    closed spec fn view(&self) -> StateView {
        StateView {
            id: self.session_id@,
            session: self.session@,
            rerequest: self.rerequest_in_progress,
            recovery: match self.recovery_tr_id {
                Some(s) => Some(s@),
                None => None,
            },
            replay: match self.replay {
                Some(r) => Some(r@),
                None => None,
            },
            logout_pending: self.peer_logout_pending,
            timers: self.timers@,
            test_requests: self.test_request_seq,
        }
    }
}

fn low_bits_of(i: i64) -> (r: u32)
    ensures
        r == low_bits(i as int),
{
    if i >= 0 {
        (i as u64 % 0x1_0000_0000) as u32
    } else {
        let k: u64 = (-(i + 1)) as u64;
        let low: u64 = k % 0x1_0000_0000;
        assert(low_bits(i as int) == 0xffff_ffff - low) by {
            let q = k as int / 0x1_0000_0000;
            assert(k == q * 0x1_0000_0000 + low);
            assert(i == -(q + 1) * 0x1_0000_0000 + (0xffff_ffff - low));
            vstd::arithmetic::div_mod::lemma_fundamental_div_mod_converse(
                i as int,
                0x1_0000_0000,
                -(q + 1),
                0xffff_ffff - low,
            );
        }
        (0xffff_ffff - low) as u32
    }
}

fn read_number(block: &Block, tag: u32, absent: &str, malformed: &str) -> (r: Result<u32>)
    requires
        block.wf(),
    ensures
        match number_in(block.nodes(), tag, absent@, malformed@) {
            Ok(n) => r == Ok::<u32, Error>(n),
            Err(e) => r matches Err(err) && err@ == e,
        },
{
    match block.tag(tag) {
        None => Err(Error::protocol_violation(absent)),
        Some(v) => match v.as_int() {
            None => Err(Error::protocol_violation(malformed)),
            Some(i) => Ok(low_bits_of(i)),
        },
    }
}

fn gap_fill_new_seq_num(msg: &Message) -> (r: Result<u32>)
    requires
        msg.wf(),
    ensures
        match gap_fill_target(msg@) {
            Ok(n) => r == Ok::<u32, Error>(n),
            Err(e) => r matches Err(err) && err@ == e,
        },
{
    match msg.body.tag(GAP_FILL_FLAG) {
        None => Err(Error::protocol_violation("Missing GapFillFlag")),
        Some(v) => {
            let flag = v.as_string();
            if !text_eq(flag.as_str(), "Y") {
                return Err(
                    Error::protocol_violation(
                        "Sequence reset message is garbage and not supported",
                    ),
                );
            }
            read_number(&msg.body, NEW_SEQ_NO, "Missing NewSeqNo", "Expected integer")
        },
    }
}

impl SessionState {
    pub closed spec fn wf(&self) -> bool {
        match self.replay {
            Some(r) => r.wf(),
            None => true,
        }
    }

    /// Build a state machine for a session whose logon exchange has completed.
    ///
    /// `now` starts the heartbeat clocks. Feed the peer's Logon to [`start`]
    /// next.
    ///
    /// [`start`]: SessionState::start
    pub fn new(session_id: SessionIdentifier, session: Session, now: Instant) -> (r: Self)
        ensures
            r.wf(),
            r@ == StateView::initial(session_id@, session@, now@),
    {
        let timers = Timers::new(session.heartbeat_interval, now);
        SessionState {
            session_id,
            session,
            rerequest_in_progress: None,
            recovery_tr_id: None,
            replay: None,
            peer_logout_pending: false,
            timers,
            test_request_seq: 0,
        }
    }

    /// The current sequence numbers and settings.
    pub fn session(&self) -> (r: &Session)
        ensures
            r@ == self@.session,
    {
        &self.session
    }

    pub fn session_id(&self) -> (r: &SessionIdentifier)
        ensures
            r@ == self@.id,
    {
        &self.session_id
    }

    /// Whether a replay is currently in progress.
    pub fn replay_in_progress(&self) -> (r: bool)
        ensures
            r == (self@.replay is Some),
    {
        self.replay.is_some()
    }

    /// The next instant at which [`on_timeout`](Self::on_timeout) has something
    /// to do.
    ///
    /// Never `None` for a live session: the outbound heartbeat always has a
    /// deadline. It is an `Option` so a driver can hold a closed session
    /// without arming a timer.
    pub fn next_deadline(&self) -> (r: Option<Instant>)
        ensures
            r matches Some(t) && t@ == self@.deadline(),
    {
        Some(self.timers.next_out.earlier(self.timers.next_in))
    }

    /// Stamp the session header fields onto `msg` and hand it to `out`.
    ///
    /// The `SendingTime` is deliberately left empty for the output to fill: one
    /// clock read per message, taken as close to the wire as the sans-io
    /// boundary allows.
    fn transmit<O: SessionOutput>(&mut self, msg: Message, out: &mut O) -> (r: Result<Progress>)
        requires
            old(self).wf(),
            msg.wf(),
        ensures
            final(self).wf(),
            realises(
                old(self)@.transmit(msg@),
                *old(out),
                *final(out),
                final(self)@,
                r,
            ),
    {
        let ghost t0 = *out;
        let ghost s0 = self@;
        let mut msg = msg;
        let ghost m0 = msg@;
        if !msg.header.has_tag(MSG_SEQ_NUM) {
            if self.session.next_out_seq_num == u32::MAX {
                let e = Error::protocol_violation("Outbound sequence numbers are exhausted");
                proof {
                    lemma_realises_done::<StateView, O>(
                        s0,
                        t0,
                        s0.transmit(m0).result,
                        Err(e),
                    );
                }
                return Err(e);
            }
            msg.header.set_tag(MSG_SEQ_NUM, self.session.next_out_seq_num);
            self.session.next_out_seq_num = self.session.next_out_seq_num + 1;
        }
        let ghost s1 = self@;
        let ghost m1 = msg@;
        assert(s0.transmit(m0) == s1.emit(m1));
        msg.header.set_tag(SENDER_COMP_ID, self.session_id.sender_comp_id.clone());
        msg.header.set_tag(TARGET_COMP_ID, self.session_id.target_comp_id.clone());
        msg.header.set_tag(SENDING_TIME, "");
        assert(msg@ == s1.addressed(m1));
        let ghost flat = s1.addressed(m1).flattened(false);
        let mut wire = match msg.as_message() {
            Ok(m) => m,
            Err(e) => {
                return Err(e);
            },
        };
        if !wire.readable() {
            let e = Error::invalid_message("field cannot be read");
            proof {
                lemma_realises_done::<StateView, O>(s1, t0, s1.emit(m1).result, Err(e));
            }
            return Err(e);
        }
        let sent = out.transmit(&mut wire, &self.session);
        let ghost t1 = *out;
        let ghost left = wire@;
        let mut reported: Result<()> = Ok(());
        let r: Result<Progress> = match sent {
            Err(e) => Err(e),
            Ok(_) => {
                reported = out.event(Event::RawMessageSent(&wire, &self.session));
                match reported {
                    Err(e) => Err(e),
                    Ok(_) => Ok(Progress::Continue),
                }
            },
        };
        proof {
            lemma_realises_sent(
                s1.emit(m1),
                s1,
                flat,
                left,
                s1.session,
                t0,
                t1,
                *out,
                sent,
                reported,
                r,
            );
        }
        r
    }

    /// Send an application or admin message, deferring it if a replay is
    /// running.
    fn send<O: SessionOutput>(&mut self, msg: Message, out: &mut O) -> (r: Result<Progress>)
        requires
            old(self).wf(),
            msg.wf(),
        ensures
            final(self).wf(),
            realises(
                old(self)@.send(msg@),
                *old(out),
                *final(out),
                final(self)@,
                r,
            ),
    {
        let mut msg = msg;
        let ghost s0 = self@;
        let ghost m0 = msg@;
        if let Some(mut replay) = self.replay.take() {
            replay.defer(msg);
            self.replay = Some(replay);
            proof {
                assert(self@ == s0.send(m0).end);
                lemma_realises_done::<StateView, O>(
                    self@,
                    *out,
                    Ok(Progress::Continue),
                    Ok(Progress::Continue),
                );
            }
            return Ok(Progress::Continue);
        }
        assert(self@ == s0);
        msg.header.remove_tag(MSG_SEQ_NUM);
        msg.header.remove_tag(POSS_DUP_FLAG);
        self.transmit(msg, out)
    }

    /// Skip over `begin_seq_no..=end_seq_no` with a single
    /// SequenceReset-GapFill.
    ///
    /// Both bounds are inclusive and name messages that will *not* be
    /// retransmitted. `NewSeqNo` is therefore one past the end: the sequence
    /// number of the next message the peer should expect, which must be the one
    /// transmitted immediately after this gap fill.
    fn send_gap_fill<O: SessionOutput>(
        &mut self,
        begin_seq_no: u32,
        end_seq_no: u32,
        out: &mut O,
    ) -> (r: Result<Progress>)
        requires
            old(self).wf(),
        ensures
            final(self).wf(),
            realises(
                old(self)@.gap_fill(begin_seq_no, end_seq_no),
                *old(out),
                *final(out),
                final(self)@,
                r,
            ),
    {
        let mut gap_fill = match Message::new(self.session.fix_version.clone(), "4") {
            Ok(m) => m,
            Err(e) => {
                proof {
                    lemma_realises_done::<StateView, O>(
                        self@,
                        *out,
                        self@.gap_fill(begin_seq_no, end_seq_no).result,
                        Err(e),
                    );
                }
                return Err(e);
            },
        };
        assert(Ok::<BuilderView, ErrorView>(gap_fill@) == new_message(
            self@.session.fix_version,
            "4"@,
        ));
        gap_fill.body.set_tag(GAP_FILL_FLAG, "Y");
        gap_fill.header.set_tag(MSG_SEQ_NUM, begin_seq_no);
        gap_fill.body.set_tag(NEW_SEQ_NO, end_seq_no as i64 + 1);
        self.transmit(gap_fill, out)
    }

    /// Send a Logout(35=5) carrying a diagnostic reason.
    fn send_logout<O: SessionOutput>(&mut self, reason: &str, out: &mut O) -> (r: Result<Progress>)
        requires
            old(self).wf(),
        ensures
            final(self).wf(),
            realises(
                old(self)@.logout(reason@),
                *old(out),
                *final(out),
                final(self)@,
                r,
            ),
    {
        let mut logout = match Message::new(self.session.fix_version.clone(), "5") {
            Ok(m) => m,
            Err(e) => {
                proof {
                    lemma_realises_done::<StateView, O>(
                        self@,
                        *out,
                        self@.logout(reason@).result,
                        Err(e),
                    );
                }
                return Err(e);
            },
        };
        assert(Ok::<BuilderView, ErrorView>(logout@) == new_message(
            self@.session.fix_version,
            "5"@,
        ));
        logout.body.set_tag(TEXT, reason);
        self.transmit(logout, out)
    }

    /// A `TestReqID` unique within the session, without consulting a clock.
    fn next_test_request_id(&mut self, prefix: &str) -> (r: String)
        requires
            old(self).wf(),
        ensures
            final(self).wf(),
            final(self)@ == old(self)@.counted(),
            r@ == final(self)@.test_id(prefix@),
    {
        self.test_request_seq = self.test_request_seq.wrapping_add(1);
        let mut id = prefix.to_owned();
        push_decimal(&mut id, self.test_request_seq);
        id
    }

    /// Send the TestRequest whose answer tells that both sides are in step.
    fn synchronise<O: SessionOutput>(&mut self, out: &mut O) -> (r: Result<Progress>)
        requires
            old(self).wf(),
        ensures
            final(self).wf(),
            realises(
                old(self)@.synchronise(),
                *old(out),
                *final(out),
                final(self)@,
                r,
            ),
    {
        let ghost s0 = self@;
        let ghost t0 = *out;
        let tr_id = self.next_test_request_id("HELO-");
        let ghost s1 = self@;
        let mut test_request = match Message::new(self.session.fix_version.clone(), "1") {
            Ok(m) => m,
            Err(e) => {
                proof {
                    lemma_realises_done::<StateView, O>(
                        self@,
                        *out,
                        s0.synchronise().result,
                        Err(e),
                    );
                }
                return Err(e);
            },
        };
        assert(Ok::<BuilderView, ErrorView>(test_request@) == new_message(
            s1.session.fix_version,
            "1"@,
        ));
        test_request.body.set_tag(TEST_REQ_ID, tr_id.clone());
        let ghost planned = s1.transmit(test_request@);
        let sent = self.transmit(test_request, out);
        let ghost t1 = *out;
        let ghost s2 = self@;
        let ghost rest = Run::go(StateView { recovery: Some(tr_id@), ..planned.end });
        assert(s0.synchronise() == planned.followed_by(rest));
        match sent {
            Ok(Progress::Continue) => {
                self.recovery_tr_id = Some(tr_id);
                proof {
                    assert(self@ == StateView { recovery: Some(tr_id@), ..s2 });
                    lemma_realises_done::<StateView, O>(
                        self@,
                        t1,
                        Ok(Progress::Continue),
                        Ok(Progress::Continue),
                    );
                    assert(s2 == planned.end);
                    lemma_realises_then(
                        planned,
                        rest,
                        t0,
                        t1,
                        t1,
                        s2,
                        self@,
                        sent,
                        Ok(Progress::Continue),
                    );
                }
                Ok(Progress::Continue)
            },
            other => {
                proof {
                    lemma_realises_stop(planned, rest, t0, t1, s2, other);
                }
                other
            },
        }
    }

    /// Send a message again, marked as a possible duplicate.
    fn retransmit<O: SessionOutput>(&mut self, msg: Message, out: &mut O) -> (r: Result<Progress>)
        requires
            old(self).wf(),
            msg.wf(),
        ensures
            final(self).wf(),
            realises(
                old(self)@.retransmit(msg@),
                *old(out),
                *final(out),
                final(self)@,
                r,
            ),
    {
        let mut msg = msg;
        let ghost m0 = msg@;
        // The peer needs to know when the message was *originally* sent, so the
        // stored SendingTime is preserved as OrigSendingTime before the output
        // stamps a fresh one.
        let sent_at = match msg.header.tag(SENDING_TIME) {
            Some(v) => v.clone(),
            None => {
                let e = Error::protocol_violation("Missing SendingTime");
                proof {
                    lemma_realises_done::<StateView, O>(
                        self@,
                        *out,
                        self@.retransmit(m0).result,
                        Err(e),
                    );
                }
                return Err(e);
            },
        };
        msg.header.set_tag(ORIG_SENDING_TIME, sent_at);
        msg.header.set_tag(POSS_DUP_FLAG, "Y");
        self.transmit(msg, out)
    }

    /// Account for a message that the application offers for retransmission.
    fn replay_message<O: SessionOutput>(
        &mut self,
        message: Message,
        out: &mut O,
    ) -> (r: Result<Progress>)
        requires
            old(self).wf(),
            message.wf(),
        ensures
            final(self).wf(),
            realises(
                old(self)@.replay_message(message@),
                *old(out),
                *final(out),
                final(self)@,
                r,
            ),
    {
        let ghost s0 = self@;
        let ghost t0 = *out;
        let ghost planned = s0.replay_message(message@);
        let msg_seq_num: u32 = match read_number(
            &message.header,
            MSG_SEQ_NUM,
            "No MsgSeqNum in replay message",
            "MsgSeqNum is not an integer",
        ) {
            Ok(n) => n,
            Err(e) => {
                proof {
                    lemma_realises_done::<StateView, O>(self@, *out, planned.result, Err(e));
                }
                return Err(e);
            },
        };
        let is_admin = message.is_admin_message();
        let mut replay = match self.replay.take() {
            Some(replay) => replay,
            None => {
                assert(self@ == s0);
                let e = Error::protocol_violation("No replay in progress");
                proof {
                    lemma_realises_done::<StateView, O>(self@, *out, planned.result, Err(e));
                }
                return Err(e);
            },
        };
        let step = replay.offer(msg_seq_num, is_admin);
        let ghost v = replay@;
        self.replay = Some(replay);
        let ghost s1 = self@;
        assert(s1 == StateView { replay: Some(v), ..s0 });
        match step {
            ReplayStep::Retransmit { gap_fill } => {
                let ghost filled = match gap_fill {
                    Some((begin, end)) => s1.gap_fill(begin, end),
                    None => Run::go(s1),
                };
                let fill: Result<Progress> = match gap_fill {
                    Some((begin, end)) => self.send_gap_fill(begin, end, out),
                    None => {
                        proof {
                            lemma_realises_done::<StateView, O>(
                                s1,
                                t0,
                                Ok(Progress::Continue),
                                Ok(Progress::Continue),
                            );
                        }
                        Ok(Progress::Continue)
                    },
                };
                let ghost t1 = *out;
                let ghost s2 = self@;
                assert(realises(filled, t0, t1, s2, fill));
                assert(planned == filled.followed_by(filled.end.retransmit(message@)));
                match fill {
                    Ok(Progress::Continue) => {
                        let ghost m = message@;
                        let sent = self.retransmit(message, out);
                        proof {
                            assert(s2 == filled.end);
                            lemma_realises_then(
                                filled,
                                filled.end.retransmit(m),
                                t0,
                                t1,
                                *out,
                                s2,
                                self@,
                                fill,
                                sent,
                            );
                        }
                        sent
                    },
                    other => {
                        proof {
                            lemma_realises_stop(
                                filled,
                                filled.end.retransmit(message@),
                                t0,
                                t1,
                                s2,
                                other,
                            );
                        }
                        other
                    },
                }
            },
            _ => {
                proof {
                    lemma_realises_done::<StateView, O>(
                        s1,
                        t0,
                        Ok(Progress::Continue),
                        Ok(Progress::Continue),
                    );
                }
                Ok(Progress::Continue)
            },
        }
    }

    /// Send these in order.
    fn send_all<O: SessionOutput>(
        &mut self,
        queue: Vec<Message>,
        out: &mut O,
    ) -> (r: Result<Progress>)
        requires
            old(self).wf(),
            messages_wf(queue@),
        ensures
            final(self).wf(),
            realises(
                old(self)@.send_all(messages_view(queue@), queue@.len()),
                *old(out),
                *final(out),
                final(self)@,
                r,
            ),
    {
        let ghost s0 = self@;
        let ghost t0 = *out;
        let ghost all = messages_view(queue@);
        let mut i: usize = 0;
        proof {
            lemma_realises_done::<StateView, O>(
                s0,
                t0,
                Ok(Progress::Continue),
                Ok(Progress::Continue),
            );
        }
        while i < queue.len()
            invariant
                i <= queue@.len(),
                messages_wf(queue@),
                all == messages_view(queue@),
                self.wf(),
                s0 == old(self)@,
                t0 == *old(out),
                realises(
                    s0.send_all(all, i as nat),
                    t0,
                    *out,
                    self@,
                    Ok(Progress::Continue),
                ),
            decreases queue@.len() - i,
        {
            let msg = queue[i].duplicate();
            let ghost before = s0.send_all(all, i as nat);
            let ghost t1 = *out;
            let ghost s1 = self@;
            assert(msg@ == all[i as int]);
            let sent = self.send(msg, out);
            proof {
                assert(s1 == before.end);
                lemma_realises_then(
                    before,
                    s1.send(all[i as int]),
                    t0,
                    t1,
                    *out,
                    s1,
                    self@,
                    Ok(Progress::Continue),
                    sent,
                );
            }
            i += 1;
            match sent {
                Ok(Progress::Continue) => {},
                other => {
                    proof {
                        lemma_send_all_stop(
                            s0,
                            all,
                            i as nat,
                            all.len(),
                            t0,
                            *out,
                            self@,
                            other,
                        );
                    }
                    return other;
                },
            }
        }
        Ok(Progress::Continue)
    }

    /// Gap-fill what is left of the range, release what was held back, and
    /// re-synchronise. [`Command::ReplayComplete`] comes to this.
    pub fn complete_replay<O: SessionOutput>(&mut self, out: &mut O) -> (r: Result<Progress>)
        requires
            old(self).wf(),
        ensures
            final(self).wf(),
            realises(
                old(self)@.complete_replay(),
                *old(out),
                *final(out),
                final(self)@,
                r,
            ),
    {
        let ghost s0 = self@;
        let ghost t0 = *out;
        let ghost planned = s0.complete_replay();
        let mut replay = match self.replay.take() {
            Some(replay) => replay,
            None => {
                assert(self@ == s0);
                let e = Error::protocol_violation("No replay in progress");
                proof {
                    lemma_realises_done::<StateView, O>(self@, *out, planned.result, Err(e));
                }
                return Err(e);
            },
        };
        let ghost v = replay@;
        let queue = replay.take_queue();
        let ghost all = messages_view(queue@);
        let trailing = replay.trailing_gap_fill();
        self.replay = Some(replay);
        let ghost s1 = self@;
        assert(s1 == StateView { replay: Some(ReplayView { queue: seq![], ..v }), ..s0 });
        assert(trailing == v.trailing());
        let ghost filled = match trailing {
            Some((begin, end)) => s1.gap_fill(begin, end),
            None => Run::go(s1),
        };
        let ghost sending = StateView { replay: None, ..filled.end }.send_all(all, all.len());
        let ghost released = filled.followed_by(sending);
        let ghost rest = released.end.synchronise();
        assert(planned == released.followed_by(rest));
        let fill: Result<Progress> = match trailing {
            Some((begin, end)) => self.send_gap_fill(begin, end, out),
            None => {
                proof {
                    lemma_realises_done::<StateView, O>(
                        s1,
                        t0,
                        Ok(Progress::Continue),
                        Ok(Progress::Continue),
                    );
                }
                Ok(Progress::Continue)
            },
        };
        let ghost t1 = *out;
        let ghost s2 = self@;
        assert(realises(filled, t0, t1, s2, fill));
        match fill {
            Ok(Progress::Continue) => {},
            other => {
                proof {
                    lemma_realises_stop(filled, sending, t0, t1, s2, other);
                    lemma_realises_stop(released, rest, t0, t1, s2, other);
                }
                return other;
            },
        }
        self.replay = None;
        let ghost s3 = self@;
        assert(s2 == filled.end);
        assert(s3 == StateView { replay: None, ..s2 });
        let sent = self.send_all(queue, out);
        let ghost t2 = *out;
        let ghost s4 = self@;
        proof {
            lemma_realises_then(filled, sending, t0, t1, t2, s2, s4, fill, sent);
        }
        match sent {
            Ok(Progress::Continue) => {},
            other => {
                proof {
                    lemma_realises_stop(released, rest, t0, t2, s4, other);
                }
                return other;
            },
        }
        assert(s4 == released.end);
        let last = self.synchronise(out);
        proof {
            lemma_realises_then(released, rest, t0, t2, *out, s4, self@, sent, last);
        }
        last
    }
}

/// Where one of several messages ends the matter, the later ones are not sent.
proof fn lemma_send_all_stop<O: SessionOutput>(
    s0: StateView,
    queue: Seq<BuilderView>,
    m: nat,
    n: nat,
    t0: O,
    t1: O,
    s1: StateView,
    r: Result<Progress>,
)
    requires
        m <= n,
        realises(s0.send_all(queue, m), t0, t1, s1, r),
        r != Ok::<Progress, Error>(Progress::Continue),
    ensures
        realises(s0.send_all(queue, n), t0, t1, s1, r),
    decreases n,
{
    if m < n {
        lemma_send_all_stop(s0, queue, m, (n - 1) as nat, t0, t1, s1, r);
        let before = s0.send_all(queue, (n - 1) as nat);
        lemma_realises_stop(before, before.end.send(queue[n - 1]), t0, t1, s1, r);
    }
}

impl SessionState {
    /// Answer a TestRequest with a Heartbeat that carries its `TestReqID`.
    fn answer_test_request<O: SessionOutput>(
        &mut self,
        msg: &Message,
        out: &mut O,
    ) -> (r: Result<Progress>)
        requires
            old(self).wf(),
            msg.wf(),
        ensures
            final(self).wf(),
            realises(
                old(self)@.answer_test_request(msg@),
                *old(out),
                *final(out),
                final(self)@,
                r,
            ),
    {
        let mut heartbeat = match Message::new(msg.fix_version.clone(), "0") {
            Ok(m) => m,
            Err(e) => {
                proof {
                    lemma_realises_done::<StateView, O>(
                        self@,
                        *out,
                        self@.answer_test_request(msg@).result,
                        Err(e),
                    );
                }
                return Err(e);
            },
        };
        assert(Ok::<BuilderView, ErrorView>(heartbeat@) == new_message(
            msg@.fix_version,
            "0"@,
        ));
        let id = match msg.body.tag(TEST_REQ_ID) {
            Some(v) => v.as_string(),
            None => {
                let e = Error::protocol_violation("Missing TestReqID");
                proof {
                    lemma_realises_done::<StateView, O>(
                        self@,
                        *out,
                        self@.answer_test_request(msg@).result,
                        Err(e),
                    );
                }
                return Err(e);
            },
        };
        heartbeat.body.set_tag(TEST_REQ_ID, id);
        self.send(heartbeat, out)
    }

    /// Begin to answer a ResendRequest.
    fn begin_replay<O: SessionOutput>(
        &mut self,
        msg: &Message,
        out: &mut O,
    ) -> (r: Result<Progress>)
        requires
            old(self).wf(),
            msg.wf(),
        ensures
            final(self).wf(),
            realises(
                old(self)@.begin_replay(msg@),
                *old(out),
                *final(out),
                final(self)@,
                r,
            ),
    {
        let ghost planned = self@.begin_replay(msg@);
        let begin: u32 = match read_number(
            &msg.body,
            BEGIN_SEQ_NO,
            "Missing BeginSeqNo",
            "Expected integer",
        ) {
            Ok(n) => n,
            Err(e) => {
                proof {
                    lemma_realises_done::<StateView, O>(self@, *out, planned.result, Err(e));
                }
                return Err(e);
            },
        };
        let end: u32 = match read_number(
            &msg.body,
            END_SEQ_NO,
            "Missing EndSeqNo",
            "Expected integer",
        ) {
            Ok(n) => n,
            Err(e) => {
                proof {
                    lemma_realises_done::<StateView, O>(self@, *out, planned.result, Err(e));
                }
                return Err(e);
            },
        };
        if self.replay.is_some() {
            let e = Error::protocol_violation(
                "ResendRequest while a resend is already in progress",
            );
            proof {
                lemma_realises_done::<StateView, O>(self@, *out, planned.result, Err(e));
            }
            return Err(e);
        }
        let replay = match Replay::start(begin, end, self.session.next_out_seq_num) {
            Ok(replay) => replay,
            Err(e) => {
                proof {
                    lemma_realises_done::<StateView, O>(self@, *out, planned.result, Err(e));
                }
                return Err(e);
            },
        };
        let begin_seq_no: u32 = replay.begin_seq_no;
        let end_seq_no: u32 = replay.end_seq_no;
        self.replay = Some(replay);
        let ghost t0 = *out;
        let reported = out.event(
            Event::ResendRequest { resend_request: msg, begin_seq_no, end_seq_no },
        );
        let r: Result<Progress> = match reported {
            Ok(_) => Ok(Progress::Continue),
            Err(e) => Err(e),
        };
        proof {
            lemma_realises_event::<StateView, O>(
                self@,
                EventView::ResendRequest(msg@, begin_seq_no, end_seq_no),
                t0,
                *out,
                reported,
                r,
            );
        }
        r
    }

    /// Act on a message that is in sequence, or that cannot wait until it is.
    fn act_on<O: SessionOutput>(&mut self, msg: &Message, out: &mut O) -> (r: Result<Progress>)
        requires
            old(self).wf(),
            msg.wf(),
        ensures
            final(self).wf(),
            realises(
                old(self)@.act_on(msg@),
                *old(out),
                *final(out),
                final(self)@,
                r,
            ),
    {
        let t = msg.fix_message.msg_type.as_str();
        let ghost s0 = self@;
        if text_eq(t, "A") {
            // The logon exchange has mostly handled this.
            proof {
                lemma_realises_done::<StateView, O>(
                    self@,
                    *out,
                    Ok(Progress::Continue),
                    Ok(Progress::Continue),
                );
            }
            Ok(Progress::Continue)
        } else if text_eq(t, "0") {
            let confirmed = match (msg.body.tag(TEST_REQ_ID), &self.recovery_tr_id) {
                (Some(v), Some(id)) => {
                    let echoed = v.as_string();
                    text_eq(echoed.as_str(), id.as_str())
                },
                _ => false,
            };
            if confirmed {
                self.recovery_tr_id = None;
                let ghost t0 = *out;
                let reported = out.event(Event::RecoveryCompleted);
                let r: Result<Progress> = match reported {
                    Ok(_) => Ok(Progress::Continue),
                    Err(e) => Err(e),
                };
                proof {
                    lemma_realises_event::<StateView, O>(
                        self@,
                        EventView::RecoveryCompleted,
                        t0,
                        *out,
                        reported,
                        r,
                    );
                }
                r
            } else {
                proof {
                    lemma_realises_done::<StateView, O>(
                        self@,
                        *out,
                        Ok(Progress::Continue),
                        Ok(Progress::Continue),
                    );
                }
                Ok(Progress::Continue)
            }
        } else if text_eq(t, "1") {
            self.answer_test_request(msg, out)
        } else if text_eq(t, "2") {
            self.begin_replay(msg, out)
        } else if text_eq(t, "5") {
            let ghost t0 = *out;
            let ghost run = s0.logout(closing());
            let sent = self.send_logout("Logout message received. Closing session.", out);
            proof {
                lemma_realises_giving(run, Progress::Close, t0, *out, self@, sent);
            }
            match sent {
                Ok(_) => Ok(Progress::Close),
                Err(e) => Err(e),
            }
        } else if msg.is_admin_message() {
            // Other admin messages are ignored.
            proof {
                lemma_realises_done::<StateView, O>(
                    self@,
                    *out,
                    Ok(Progress::Continue),
                    Ok(Progress::Continue),
                );
            }
            Ok(Progress::Continue)
        } else {
            let ghost t0 = *out;
            let reported = out.event(Event::MessageReceived(msg));
            let r: Result<Progress> = match reported {
                Ok(_) => Ok(Progress::Continue),
                Err(e) => Err(e),
            };
            proof {
                lemma_realises_event::<StateView, O>(
                    self@,
                    EventView::MessageReceived(msg@),
                    t0,
                    *out,
                    reported,
                    r,
                );
            }
            r
        }
    }

    /// Report the session's state and act on a message that is in sequence, or
    /// that cannot wait until it is. A step of
    /// [`handle_session_message`](Self::handle_session_message).
    pub fn dispatch_message<O: SessionOutput>(
        &mut self,
        msg: &Message,
        out: &mut O,
    ) -> (r: Result<Progress>)
        requires
            old(self).wf(),
            msg.wf(),
        ensures
            final(self).wf(),
            realises(
                old(self)@.dispatch(msg@),
                *old(out),
                *final(out),
                final(self)@,
                r,
            ),
    {
        let ghost s0 = self@;
        let ghost t0 = *out;
        let ghost first = Run::event(s0, EventView::SessionState(s0.session));
        let ghost rest = s0.act_on(msg@);
        let reported = out.event(Event::SessionState(&self.session));
        let ghost t1 = *out;
        match reported {
            Ok(_) => {
                proof {
                    lemma_realises_event::<StateView, O>(
                        s0,
                        EventView::SessionState(s0.session),
                        t0,
                        t1,
                        reported,
                        Ok(Progress::Continue),
                    );
                }
                let r = self.act_on(msg, out);
                proof {
                    lemma_realises_then(
                        first,
                        rest,
                        t0,
                        t1,
                        *out,
                        s0,
                        self@,
                        Ok(Progress::Continue),
                        r,
                    );
                }
                r
            },
            Err(e) => {
                proof {
                    lemma_realises_event::<StateView, O>(
                        s0,
                        EventView::SessionState(s0.session),
                        t0,
                        t1,
                        reported,
                        Err(e),
                    );
                    lemma_realises_stop(first, rest, t0, t1, s0, Err(e));
                }
                Err(e)
            },
        }
    }

    /// Act on a message in sequence. A Logout that was waiting for the gap to
    /// close is acknowledged after it.
    fn settle<O: SessionOutput>(&mut self, msg: &Message, out: &mut O) -> (r: Result<Progress>)
        requires
            old(self).wf(),
            msg.wf(),
        ensures
            final(self).wf(),
            realises(
                old(self)@.settle(msg@),
                *old(out),
                *final(out),
                final(self)@,
                r,
            ),
    {
        let ghost s0 = self@;
        let ghost t0 = *out;
        let ghost first = s0.dispatch(msg@);
        let ghost rest = if first.end.logout_pending && first.end.rerequest is None {
            first.end.logout(closing()).giving(Progress::Close)
        } else {
            Run::go(first.end)
        };
        assert(s0.settle(msg@) == first.followed_by(rest));
        let dispatched = self.dispatch_message(msg, out);
        let ghost t1 = *out;
        let ghost s1 = self@;
        match dispatched {
            Ok(Progress::Continue) => {},
            other => {
                proof {
                    lemma_realises_stop(first, rest, t0, t1, s1, other);
                }
                return other;
            },
        }
        assert(s1 == first.end);
        let r: Result<Progress> = if self.peer_logout_pending
            && self.rerequest_in_progress.is_none() {
            let sent = self.send_logout("Logout message received. Closing session.", out);
            proof {
                lemma_realises_giving(
                    s1.logout(closing()),
                    Progress::Close,
                    t1,
                    *out,
                    self@,
                    sent,
                );
            }
            match sent {
                Ok(_) => Ok(Progress::Close),
                Err(e) => Err(e),
            }
        } else {
            proof {
                lemma_realises_done::<StateView, O>(
                    s1,
                    t1,
                    Ok(Progress::Continue),
                    Ok(Progress::Continue),
                );
            }
            Ok(Progress::Continue)
        };
        proof {
            lemma_realises_then(first, rest, t0, t1, *out, s1, self@, dispatched, r);
        }
        r
    }

    /// A message beyond the next expected one.
    fn handle_gap<O: SessionOutput>(
        &mut self,
        msg: &Message,
        msg_seq_num: u32,
        out: &mut O,
    ) -> (r: Result<Progress>)
        requires
            old(self).wf(),
            msg.wf(),
        ensures
            final(self).wf(),
            realises(
                old(self)@.handle_gap(msg@, msg_seq_num),
                *old(out),
                *final(out),
                final(self)@,
                r,
            ),
    {
        let ghost s0 = self@;
        let ghost t0 = *out;
        let ghost planned = s0.handle_gap(msg@, msg_seq_num);
        let ghost first = match s0.rerequest {
            Some(_) => Run::go(s0),
            None => match new_message(msg@.fix_version, "2"@) {
                Err(e) => Run::fail(s0, e),
                Ok(m) => StateView { rerequest: Some(msg_seq_num), ..s0 }.transmit(
                    m.with_body(BEGIN_SEQ_NO, number(s0.session.next_in as int)).with_body(
                        END_SEQ_NO,
                        number(0),
                    ),
                ),
            },
        };
        let ghost rest = if msg@.msg_type() == "2"@ {
            first.end.dispatch(msg@)
        } else if msg@.msg_type() == "5"@ {
            Run::go(StateView { logout_pending: true, ..first.end })
        } else {
            Run::go(first.end)
        };
        assert(planned == first.followed_by(rest));
        // Request everything from the first missing message onwards with an
        // open-ended EndSeqNo of 0, and discard this message and every
        // subsequent one until the gap closes: they all fall inside the range
        // just requested, so the peer will retransmit them in order. That avoids
        // holding an unbounded queue of out-of-order messages.
        let requested: Result<Progress> = if self.rerequest_in_progress.is_none() {
            match Message::new(msg.fix_version.clone(), "2") {
                Ok(mut rr) => {
                    assert(Ok::<BuilderView, ErrorView>(rr@) == new_message(
                        msg@.fix_version,
                        "2"@,
                    ));
                    rr.body.set_tag(BEGIN_SEQ_NO, self.session.next_in_seq_num);
                    rr.body.set_tag(END_SEQ_NO, 0i32);
                    self.rerequest_in_progress = Some(msg_seq_num);
                    assert(self@ == StateView { rerequest: Some(msg_seq_num), ..s0 });
                    self.transmit(rr, out)
                },
                Err(e) => {
                    proof {
                        lemma_realises_done::<StateView, O>(s0, t0, first.result, Err(e));
                    }
                    Err(e)
                },
            }
        } else {
            proof {
                lemma_realises_done::<StateView, O>(
                    s0,
                    t0,
                    Ok(Progress::Continue),
                    Ok(Progress::Continue),
                );
            }
            Ok(Progress::Continue)
        };
        let ghost t1 = *out;
        let ghost s1 = self@;
        assert(realises(first, t0, t1, s1, requested));
        match requested {
            Ok(Progress::Continue) => {},
            other => {
                proof {
                    lemma_realises_stop(first, rest, t0, t1, s1, other);
                }
                return other;
            },
        }
        assert(s1 == first.end);
        // ResendRequest and Logout are the exceptions to discarding. Neither is
        // ever retransmitted — the peer gap fills over them instead — so
        // discarding one loses it for good, and this is the only opportunity to
        // act on it. Neither consumes the sequence number: the gap fill that
        // eventually covers it will.
        let t = msg.fix_message.msg_type.as_str();
        let r: Result<Progress> = if text_eq(t, "2") {
            self.dispatch_message(msg, out)
        } else {
            if text_eq(t, "5") {
                // The messages still missing precede the Logout, so
                // acknowledging it now would abandon them.
                self.peer_logout_pending = true;
            }
            proof {
                lemma_realises_done::<StateView, O>(
                    self@,
                    t1,
                    Ok(Progress::Continue),
                    Ok(Progress::Continue),
                );
            }
            Ok(Progress::Continue)
        };
        proof {
            lemma_realises_then(first, rest, t0, t1, *out, s1, self@, requested, r);
        }
        r
    }

    /// Move on to the next expected inbound number. A gap that is closed by it
    /// is forgotten.
    fn advance(&mut self, next_in: u32)
        requires
            old(self).wf(),
        ensures
            final(self).wf(),
            final(self)@ == old(self)@.advanced(next_in),
    {
        self.session.next_in_seq_num = next_in;
        if let Some(last) = self.rerequest_in_progress {
            if next_in >= last {
                self.rerequest_in_progress = None;
            }
        }
    }

    /// Handle an inbound message by its sequence number. This is what
    /// [`on_message`](Self::on_message) does with a message once it has been taken
    /// apart and reported.
    ///
    /// A SequenceReset-GapFill stands in for the messages it skips over, so it
    /// occupies a slot in the stream and is subject to the same sequence checks
    /// as any other message. Accepting one differs only in where the expected
    /// inbound sequence number lands: at NewSeqNo rather than one further on.
    pub fn handle_session_message<O: SessionOutput>(
        &mut self,
        msg: &Message,
        out: &mut O,
    ) -> (r: Result<Progress>)
        requires
            old(self).wf(),
            msg.wf(),
        ensures
            final(self).wf(),
            realises(
                old(self)@.handle(msg@),
                *old(out),
                *final(out),
                final(self)@,
                r,
            ),
    {
        let ghost s0 = self@;
        let ghost planned = s0.handle(msg@);
        let msg_seq_num: u32 = match read_number(
            &msg.header,
            MSG_SEQ_NUM,
            "Missing MsgSeqNum",
            "MsgSeqNum is not an integer",
        ) {
            Ok(n) => n,
            Err(e) => {
                proof {
                    lemma_realises_done::<StateView, O>(self@, *out, planned.result, Err(e));
                }
                return Err(e);
            },
        };
        let mut target: Option<u32> = None;
        if text_eq(msg.fix_message.msg_type.as_str(), "4") {
            match gap_fill_new_seq_num(msg) {
                Ok(n) => {
                    target = Some(n);
                },
                Err(e) => {
                    proof {
                        lemma_realises_done::<StateView, O>(self@, *out, planned.result, Err(e));
                    }
                    return Err(e);
                },
            }
        }
        let expected: u32 = self.session.next_in_seq_num;
        if msg_seq_num < expected {
            // One of the two peers has lost session state and the connection is
            // no longer recoverable.
            let mut reason = "Invalid MsgSeqNum; too low. Expected ".to_owned();
            push_decimal(&mut reason, expected as u64);
            reason.append(" but got ");
            push_decimal(&mut reason, msg_seq_num as u64);
            reason.append(".");
            assert(reason@ == too_low(expected, msg_seq_num));
            let ghost t0 = *out;
            let ghost run = s0.logout(too_low(expected, msg_seq_num));
            let sent = self.send_logout(reason.as_str(), out);
            proof {
                lemma_realises_giving(run, Progress::Close, t0, *out, self@, sent);
            }
            match sent {
                Ok(_) => Ok(Progress::Close),
                Err(e) => Err(e),
            }
        } else if msg_seq_num > expected {
            self.handle_gap(msg, msg_seq_num, out)
        } else if let Some(new_seq_num) = target {
            if new_seq_num <= msg_seq_num {
                let mut reason =
                    "Invalid NewSeqNo in GapFill; expected greater than ".to_owned();
                push_decimal(&mut reason, msg_seq_num as u64);
                reason.append(" but got ");
                push_decimal(&mut reason, new_seq_num as u64);
                let e = Error::protocol_violation(reason.as_str());
                proof {
                    lemma_realises_done::<StateView, O>(self@, *out, planned.result, Err(e));
                }
                return Err(e);
            }
            self.advance(new_seq_num);
            self.settle(msg, out)
        } else {
            if msg_seq_num == u32::MAX {
                let e = Error::protocol_violation("Inbound sequence numbers are exhausted");
                proof {
                    lemma_realises_done::<StateView, O>(self@, *out, planned.result, Err(e));
                }
                return Err(e);
            }
            self.advance(msg_seq_num + 1);
            self.settle(msg, out)
        }
    }
}

impl SessionState {
    /// Process the peer's Logon and send the synchronisation TestRequest that
    /// establishes whether either side has missed anything.
    pub fn start<O: SessionOutput>(
        &mut self,
        logon: Message,
        _now: Instant,
        out: &mut O,
    ) -> (r: Result<Progress>)
        requires
            old(self).wf(),
            logon.wf(),
        ensures
            final(self).wf(),
            realises(
                old(self)@.start(logon@),
                *old(out),
                *final(out),
                final(self)@,
                r,
            ),
    {
        let ghost s0 = self@;
        let ghost t0 = *out;
        let ghost first = s0.handle(logon@);
        let ghost rest = first.end.synchronise();
        let handled = self.handle_session_message(&logon, out);
        let ghost t1 = *out;
        let ghost s1 = self@;
        match handled {
            Ok(Progress::Continue) => {},
            other => {
                proof {
                    lemma_realises_stop(first, rest, t0, t1, s1, other);
                }
                return other;
            },
        }
        assert(s1 == first.end);
        let r = self.synchronise(out);
        proof {
            lemma_realises_then(first, rest, t0, t1, *out, s1, self@, handled, r);
        }
        r
    }

    /// Feed a decoded inbound frame.
    pub fn on_message<O: SessionOutput>(
        &mut self,
        fix_message: FixMessage,
        now: Instant,
        out: &mut O,
    ) -> (r: Result<Progress>)
        requires
            old(self).wf(),
        ensures
            final(self).wf(),
            realises(
                old(self)@.on_message(fix_message@, now@),
                *old(out),
                *final(out),
                final(self)@,
                r,
            ),
    {
        // Liveness is evidenced by the frame arriving at all, so this happens
        // before any validation: a message rejected for a bad sequence number
        // still proves the peer is there.
        self.timers.reset_in(now);
        let ghost s0 = self@;
        let ghost t0 = *out;
        assert(s0 == old(self)@.heard(now@));
        let msg = match Message::from_message(&fix_message) {
            Ok(m) => m,
            Err(e) => {
                proof {
                    lemma_realises_done::<StateView, O>(
                        self@,
                        *out,
                        old(self)@.on_message(fix_message@, now@).result,
                        Err(e),
                    );
                }
                return Err(e);
            },
        };
        let ghost event = EventView::RawMessageReceived(fix_message@, s0.session);
        let ghost first = Run::event(s0, event);
        let ghost rest = s0.handle(msg@);
        assert(old(self)@.on_message(fix_message@, now@) == first.followed_by(rest));
        let reported = out.event(Event::RawMessageReceived(&fix_message, &self.session));
        let ghost t1 = *out;
        match reported {
            Ok(_) => {
                proof {
                    lemma_realises_event::<StateView, O>(
                        s0,
                        event,
                        t0,
                        t1,
                        reported,
                        Ok(Progress::Continue),
                    );
                }
                let r = self.handle_session_message(&msg, out);
                proof {
                    lemma_realises_then(
                        first,
                        rest,
                        t0,
                        t1,
                        *out,
                        s0,
                        self@,
                        Ok(Progress::Continue),
                        r,
                    );
                }
                r
            },
            Err(e) => {
                proof {
                    lemma_realises_event::<StateView, O>(s0, event, t0, t1, reported, Err(e));
                    lemma_realises_stop(first, rest, t0, t1, s0, Err(e));
                }
                Err(e)
            },
        }
    }

    /// Feed an application command.
    pub fn on_command<O: SessionOutput>(
        &mut self,
        cmd: Command,
        now: Instant,
        out: &mut O,
    ) -> (r: Result<Progress>)
        requires
            old(self).wf(),
            cmd.wf(),
        ensures
            final(self).wf(),
            realises(
                old(self)@.on_command(cmd@, now@),
                *old(out),
                *final(out),
                final(self)@,
                r,
            ),
    {
        // Each of these puts a message on the wire, and that message is itself
        // evidence of liveness, so the outbound heartbeat is deferred. Note this
        // happens *only* here: heartbeats answering a TestRequest,
        // ResendRequests raised on gap detection, gap fills, replay traffic and
        // Logouts all leave the timer alone.
        self.timers.reset_out(now);
        let ghost s0 = self@;
        assert(s0 == old(self)@.spoke(now@));
        match cmd {
            Command::Send(msg) => self.send(msg, out),
            Command::Replay(msg) => self.replay_message(msg, out),
            Command::ReplayComplete => self.complete_replay(out),
            Command::Disconnect => {
                // Always announce the intent to disconnect, so the peer can tell
                // an orderly shutdown from a network failure.
                let mut logout = match Message::new(self.session.fix_version.clone(), "5") {
                    Ok(m) => m,
                    Err(e) => {
                        proof {
                            lemma_realises_done::<StateView, O>(
                                self@,
                                *out,
                                old(self)@.on_command(cmd@, now@).result,
                                Err(e),
                            );
                        }
                        return Err(e);
                    },
                };
                assert(Ok::<BuilderView, ErrorView>(logout@) == new_message(
                    self@.session.fix_version,
                    "5"@,
                ));
                logout.body.set_tag(TEXT, "Disconnect requested by application");
                let ghost t0 = *out;
                let ghost run = s0.send(logout@);
                let sent = self.send(logout, out);
                proof {
                    lemma_realises_giving(run, Progress::Close, t0, *out, self@, sent);
                }
                match sent {
                    Ok(_) => Ok(Progress::Close),
                    Err(e) => Err(e),
                }
            },
        }
    }

    /// The outbound heartbeat, where it is due.
    fn beat<O: SessionOutput>(&mut self, now: Instant, out: &mut O) -> (r: Result<Progress>)
        requires
            old(self).wf(),
        ensures
            final(self).wf(),
            realises(
                old(self)@.beat(now@),
                *old(out),
                *final(out),
                final(self)@,
                r,
            ),
    {
        if !now.reached(self.timers.next_out) {
            proof {
                lemma_realises_done::<StateView, O>(
                    self@,
                    *out,
                    Ok(Progress::Continue),
                    Ok(Progress::Continue),
                );
            }
            return Ok(Progress::Continue);
        }
        self.timers.reset_out(now);
        assert(self@ == old(self)@.spoke(now@));
        let heartbeat = match Message::new(self.session.fix_version.clone(), "0") {
            Ok(m) => m,
            Err(e) => {
                proof {
                    lemma_realises_done::<StateView, O>(
                        self@,
                        *out,
                        old(self)@.beat(now@).result,
                        Err(e),
                    );
                }
                return Err(e);
            },
        };
        assert(Ok::<BuilderView, ErrorView>(heartbeat@) == new_message(
            self@.session.fix_version,
            "0"@,
        ));
        self.send(heartbeat, out)
    }

    /// The inbound deadline, where it has passed.
    fn miss<O: SessionOutput>(&mut self, now: Instant, out: &mut O) -> (r: Result<Progress>)
        requires
            old(self).wf(),
        ensures
            final(self).wf(),
            realises(
                old(self)@.miss(now@),
                *old(out),
                *final(out),
                final(self)@,
                r,
            ),
    {
        let ghost planned = self@.miss(now@);
        if !now.reached(self.timers.next_in) {
            proof {
                lemma_realises_done::<StateView, O>(
                    self@,
                    *out,
                    Ok(Progress::Continue),
                    Ok(Progress::Continue),
                );
            }
            Ok(Progress::Continue)
        } else {
            self.timers.next_in = now.plus(self.timers.interval);
            self.timers.missed_heartbeats = self.timers.missed_heartbeats.saturating_add(1);
            let ghost s1 = self@;
            if self.timers.missed_heartbeats == 1 {
                proof {
                    lemma_realises_done::<StateView, O>(
                        self@,
                        *out,
                        Ok(Progress::Continue),
                        Ok(Progress::Continue),
                    );
                }
                Ok(Progress::Continue)
            } else if self.timers.missed_heartbeats < MISSED_HEARTBEATS_BEFORE_LOGOUT {
                // Probe whether the peer is alive.
                let tr_id = self.next_test_request_id("HB");
                let mut test_request = match Message::new(self.session.fix_version.clone(), "1") {
                    Ok(m) => m,
                    Err(e) => {
                        proof {
                            lemma_realises_done::<StateView, O>(
                                self@,
                                *out,
                                planned.result,
                                Err(e),
                            );
                        }
                        return Err(e);
                    },
                };
                assert(Ok::<BuilderView, ErrorView>(test_request@) == new_message(
                    self@.session.fix_version,
                    "1"@,
                ));
                test_request.body.set_tag(TEST_REQ_ID, tr_id);
                self.send(test_request, out)
            } else {
                let mut logout = match Message::new(self.session.fix_version.clone(), "5") {
                    Ok(m) => m,
                    Err(e) => {
                        proof {
                            lemma_realises_done::<StateView, O>(
                                self@,
                                *out,
                                planned.result,
                                Err(e),
                            );
                        }
                        return Err(e);
                    },
                };
                assert(Ok::<BuilderView, ErrorView>(logout@) == new_message(
                    self@.session.fix_version,
                    "5"@,
                ));
                logout.body.set_tag(TEXT, "Heartbeat timeout");
                let ghost t0 = *out;
                let ghost run = s1.send(logout@);
                let sent = self.send(logout, out);
                proof {
                    lemma_realises_giving(run, Progress::Close, t0, *out, self@, sent);
                }
                match sent {
                    Ok(_) => Ok(Progress::Close),
                    Err(e) => Err(e),
                }
            }
        }
    }

    /// Advance time. Call when [`next_deadline`](Self::next_deadline) has
    /// passed.
    pub fn on_timeout<O: SessionOutput>(
        &mut self,
        now: Instant,
        out: &mut O,
    ) -> (r: Result<Progress>)
        requires
            old(self).wf(),
        ensures
            final(self).wf(),
            realises(
                old(self)@.on_timeout(now@),
                *old(out),
                *final(out),
                final(self)@,
                r,
            ),
    {
        let ghost s0 = self@;
        let ghost t0 = *out;
        let ghost first = s0.beat(now@);
        let ghost rest = first.end.miss(now@);
        let beaten = self.beat(now, out);
        let ghost t1 = *out;
        let ghost s1 = self@;
        match beaten {
            Ok(Progress::Continue) => {},
            other => {
                proof {
                    lemma_realises_stop(first, rest, t0, t1, s1, other);
                }
                return other;
            },
        }
        assert(s1 == first.end);
        let r = self.miss(now, out);
        proof {
            lemma_realises_then(first, rest, t0, t1, *out, s1, self@, beaten, r);
        }
        r
    }

    /// The peer went away without logging out.
    pub fn on_peer_closed<O: SessionOutput>(&mut self, out: &mut O) -> (r: Result<Progress>)
        requires
            old(self).wf(),
        ensures
            final(self).wf(),
            realises(
                old(self)@.on_peer_closed(),
                *old(out),
                *final(out),
                final(self)@,
                r,
            ),
    {
        let ghost t0 = *out;
        let reported = out.event(Event::Disconnected);
        let first: Result<Progress> = match reported {
            Ok(_) => Ok(Progress::Continue),
            Err(e) => Err(e),
        };
        proof {
            lemma_realises_event::<StateView, O>(
                self@,
                EventView::Disconnected,
                t0,
                *out,
                reported,
                first,
            );
            lemma_realises_giving(
                Run::event(self@, EventView::Disconnected),
                Progress::Close,
                t0,
                *out,
                self@,
                first,
            );
        }
        match first {
            Ok(_) => Ok(Progress::Close),
            Err(e) => Err(e),
        }
    }

    /// Transmit a message belonging to the logon exchange, which the caller
    /// still owns.
    pub fn send_logon<O: SessionOutput>(&mut self, msg: Message, out: &mut O) -> (r: Result<()>)
        requires
            old(self).wf(),
            msg.wf(),
        ensures
            final(self).wf(),
            realises(
                old(self)@.transmit(msg@),
                *old(out),
                *final(out),
                final(self)@,
                going_on(r),
            ),
    {
        match self.transmit(msg, out) {
            Ok(_) => Ok(()),
            Err(e) => Err(e),
        }
    }
}

} // verus!
