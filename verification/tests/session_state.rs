//! Protocol logic, driven directly with a clock the test advances by hand.
//!
//! These exercise [`SessionState`] with no socket, no runtime and no real time,
//! so they can assert things a loopback test cannot: what happens at exactly the
//! third missed heartbeat, or that a message rejected for a bad sequence number
//! still counts as evidence the peer is alive.

use std::sync::Arc;

use babelfix::builder::Message;
use babelfix::clock::{Duration, Instant};
use babelfix::codec::stamp_sending_time;
use babelfix::repository::{FixRepository, FixVersion};
use babelfix::schema::fields;
use babelfix::session::{
  Command, Event, Progress, Session, SessionIdentifier, SessionOutput,
  SessionState,
};
use babelfix::time::{TimePrecision, UtcTime};
use babelfix::FixMessage;

const CL_ORD_ID: u32 = 11;

/// FIX 4.4, as far as these tests speak it.
const FIX44: &str = r#"<?xml version="1.0" encoding="UTF-8"?>
<fixr:repository name="FIX.4.4" version="FIX.4.4">
<fixr:codeSets><fixr:codeSet name="SideCodeSet"><fixr:code name="Sell" value="2" sort="2"/><fixr:code name="Buy" value="1" sort="1"/></fixr:codeSet></fixr:codeSets>
<fixr:fields>
<fixr:field id="1" name="Account" type="String"/>
<fixr:field id="7" name="BeginSeqNo" type="SeqNum"/>
<fixr:field id="8" name="BeginString" type="String"/>
<fixr:field id="9" name="BodyLength" type="Length"/>
<fixr:field id="10" name="CheckSum" type="String"/>
<fixr:field id="11" name="ClOrdID" type="String"/>
<fixr:field id="12" name="Commission" type="Amt"/>
<fixr:field id="13" name="CommType" type="CommTypeCodeSet"/>
<fixr:field id="16" name="EndSeqNo" type="SeqNum"/>
<fixr:field id="34" name="MsgSeqNum" type="SeqNum"/>
<fixr:field id="35" name="MsgType" type="MsgTypeCodeSet"/>
<fixr:field id="36" name="NewSeqNo" type="SeqNum"/>
<fixr:field id="38" name="OrderQty" type="Qty"/>
<fixr:field id="40" name="OrdType" type="OrdTypeCodeSet"/>
<fixr:field id="43" name="PossDupFlag" type="PossDupFlagCodeSet"/>
<fixr:field id="44" name="Price" type="Price"/>
<fixr:field id="45" name="RefSeqNum" type="SeqNum"/>
<fixr:field id="49" name="SenderCompID" type="String"/>
<fixr:field id="50" name="SenderSubID" type="String"/>
<fixr:field id="52" name="SendingTime" type="UTCTimestamp"/>
<fixr:field id="54" name="Side" type="SideCodeSet"/>
<fixr:field id="55" name="Symbol" type="String"/>
<fixr:field id="56" name="TargetCompID" type="String"/>
<fixr:field id="58" name="Text" type="String"/>
<fixr:field id="78" name="NoAllocs" type="NumInGroup"/>
<fixr:field id="79" name="AllocAccount" type="String"/>
<fixr:field id="80" name="AllocQty" type="Qty"/>
<fixr:field id="95" name="RawDataLength" type="Length"/>
<fixr:field id="96" name="RawData" type="data"/>
<fixr:field id="97" name="PossResend" type="PossResendCodeSet"/>
<fixr:field id="98" name="EncryptMethod" type="EncryptMethodCodeSet"/>
<fixr:field id="108" name="HeartBtInt" type="int"/>
<fixr:field id="112" name="TestReqID" type="String"/>
<fixr:field id="114" name="LocateReqd" type="Boolean"/>
<fixr:field id="122" name="OrigSendingTime" type="UTCTimestamp"/>
<fixr:field id="123" name="GapFillFlag" type="GapFillFlagCodeSet"/>
<fixr:field id="373" name="SessionRejectReason" type="SessionRejectReasonCodeSet"/>
<fixr:field id="555" name="NoLegs" type="NumInGroup"/>
<fixr:field id="600" name="LegSymbol" type="String"/>
<fixr:field id="608" name="LegCFICode" type="String"/>
<fixr:field id="610" name="LegMaturityMonthYear" type="MonthYear"/>
</fixr:fields><fixr:components>
<fixr:component id="1024" name="StandardHeader" category="Common"><fixr:fieldRef id="8" presence="required"/><fixr:fieldRef id="9" presence="required"/><fixr:fieldRef id="35" presence="required"/><fixr:fieldRef id="49" presence="required"/><fixr:fieldRef id="56" presence="required"/><fixr:fieldRef id="34" presence="required"/><fixr:fieldRef id="50"/><fixr:fieldRef id="43"/><fixr:fieldRef id="97"/><fixr:fieldRef id="52" presence="required"/><fixr:fieldRef id="122"/></fixr:component>
<fixr:component id="1025" name="StandardTrailer" category="Common"><fixr:fieldRef id="10" presence="required"/></fixr:component>
<fixr:component id="1003" name="Instrument" category="Common"><fixr:fieldRef id="55"/></fixr:component>
<fixr:component id="1005" name="InstrumentLeg" category="Common"><fixr:fieldRef id="600"/><fixr:fieldRef id="608"/><fixr:fieldRef id="610"/></fixr:component>
<fixr:component id="1011" name="OrderQtyData" category="Common"><fixr:fieldRef id="38"/></fixr:component>
<fixr:component id="1000" name="CommissionData" category="Common"><fixr:fieldRef id="12"/><fixr:fieldRef id="13"/></fixr:component>
</fixr:components><fixr:groups>
<fixr:group id="2054" name="LegOrdGrp"><fixr:numInGroup id="555"/><fixr:componentRef id="1005"/></fixr:group>
<fixr:group id="2071" name="PreAllocGrp"><fixr:numInGroup id="78"/><fixr:fieldRef id="79"/><fixr:fieldRef id="80"/></fixr:group>
</fixr:groups><fixr:messages>
<fixr:message msgType="0" name="Heartbeat" category="Session"><fixr:structure><fixr:componentRef id="1024"/><fixr:fieldRef id="112"/><fixr:componentRef id="1025"/></fixr:structure></fixr:message>
<fixr:message msgType="1" name="TestRequest" category="Session"><fixr:structure><fixr:componentRef id="1024"/><fixr:fieldRef id="112" presence="required"/><fixr:componentRef id="1025"/></fixr:structure></fixr:message>
<fixr:message msgType="2" name="ResendRequest" category="Session"><fixr:structure><fixr:componentRef id="1024"/><fixr:fieldRef id="7" presence="required"/><fixr:fieldRef id="16" presence="required"/><fixr:componentRef id="1025"/></fixr:structure></fixr:message>
<fixr:message msgType="3" name="Reject" category="Session"><fixr:structure><fixr:componentRef id="1024"/><fixr:fieldRef id="45" presence="required"/><fixr:fieldRef id="373"/><fixr:fieldRef id="58"/><fixr:componentRef id="1025"/></fixr:structure></fixr:message>
<fixr:message msgType="4" name="SequenceReset" category="Session"><fixr:structure><fixr:componentRef id="1024"/><fixr:fieldRef id="123"/><fixr:fieldRef id="36" presence="required"/><fixr:componentRef id="1025"/></fixr:structure></fixr:message>
<fixr:message msgType="5" name="Logout" category="Session"><fixr:structure><fixr:componentRef id="1024"/><fixr:fieldRef id="58"/><fixr:componentRef id="1025"/></fixr:structure></fixr:message>
<fixr:message msgType="A" name="Logon" category="Session"><fixr:structure><fixr:componentRef id="1024"/><fixr:fieldRef id="98" presence="required"/><fixr:fieldRef id="108" presence="required"/><fixr:fieldRef id="95"/><fixr:fieldRef id="96"/><fixr:componentRef id="1025"/></fixr:structure></fixr:message>
<fixr:message msgType="D" name="NewOrderSingle" category="SingleGeneralOrderHandling"><fixr:structure><fixr:componentRef id="1024"/><fixr:fieldRef id="11" presence="required"/><fixr:groupRef id="2071"/><fixr:fieldRef id="1"/><fixr:componentRef id="1003"/><fixr:fieldRef id="54" presence="required"/><fixr:fieldRef id="114"/><fixr:componentRef id="1011"/><fixr:fieldRef id="40"/><fixr:fieldRef id="44"/><fixr:componentRef id="1000"/><fixr:fieldRef id="58"/><fixr:componentRef id="1025"/></fixr:structure></fixr:message>
<fixr:message msgType="AB" name="NewOrderMultileg" category="MultilegOrders"><fixr:structure><fixr:componentRef id="1024"/><fixr:fieldRef id="11" presence="required"/><fixr:fieldRef id="1"/><fixr:fieldRef id="54" presence="required"/><fixr:componentRef id="1003"/><fixr:groupRef id="2054"/><fixr:componentRef id="1011"/><fixr:fieldRef id="40"/><fixr:componentRef id="1025"/></fixr:structure></fixr:message>
</fixr:messages>
</fixr:repository>"#;

/// The latest version, as far as these tests speak it.
const FIX_LATEST: &str = r#"<?xml version="1.0" encoding="UTF-8"?>
<fixr:repository name="FIX.Latest" version="FIX.Latest_EP274">
<fixr:codeSets><fixr:codeSet name="SideCodeSet"><fixr:code name="Sell" value="2" sort="2"/><fixr:code name="Buy" value="1" sort="1"/></fixr:codeSet></fixr:codeSets>
<fixr:fields>
<fixr:field id="1" name="Account" type="String"/>
<fixr:field id="7" name="BeginSeqNo" type="SeqNum"/>
<fixr:field id="8" name="BeginString" type="String"/>
<fixr:field id="9" name="BodyLength" type="Length"/>
<fixr:field id="10" name="CheckSum" type="String"/>
<fixr:field id="11" name="ClOrdID" type="String"/>
<fixr:field id="12" name="Commission" type="Amt"/>
<fixr:field id="13" name="CommType" type="CommTypeCodeSet"/>
<fixr:field id="16" name="EndSeqNo" type="SeqNum"/>
<fixr:field id="34" name="MsgSeqNum" type="SeqNum"/>
<fixr:field id="35" name="MsgType" type="MsgTypeCodeSet"/>
<fixr:field id="36" name="NewSeqNo" type="SeqNum"/>
<fixr:field id="38" name="OrderQty" type="Qty"/>
<fixr:field id="40" name="OrdType" type="OrdTypeCodeSet"/>
<fixr:field id="43" name="PossDupFlag" type="PossDupFlagCodeSet"/>
<fixr:field id="44" name="Price" type="Price"/>
<fixr:field id="45" name="RefSeqNum" type="SeqNum"/>
<fixr:field id="49" name="SenderCompID" type="String"/>
<fixr:field id="50" name="SenderSubID" type="String"/>
<fixr:field id="52" name="SendingTime" type="UTCTimestamp"/>
<fixr:field id="54" name="Side" type="SideCodeSet"/>
<fixr:field id="55" name="Symbol" type="String"/>
<fixr:field id="56" name="TargetCompID" type="String"/>
<fixr:field id="58" name="Text" type="String"/>
<fixr:field id="78" name="NoAllocs" type="NumInGroup"/>
<fixr:field id="79" name="AllocAccount" type="String"/>
<fixr:field id="80" name="AllocQty" type="Qty"/>
<fixr:field id="95" name="RawDataLength" type="Length"/>
<fixr:field id="96" name="RawData" type="data"/>
<fixr:field id="97" name="PossResend" type="PossResendCodeSet"/>
<fixr:field id="98" name="EncryptMethod" type="EncryptMethodCodeSet"/>
<fixr:field id="108" name="HeartBtInt" type="int"/>
<fixr:field id="112" name="TestReqID" type="String"/>
<fixr:field id="114" name="LocateReqd" type="Boolean"/>
<fixr:field id="122" name="OrigSendingTime" type="UTCTimestamp"/>
<fixr:field id="123" name="GapFillFlag" type="GapFillFlagCodeSet"/>
<fixr:field id="373" name="SessionRejectReason" type="SessionRejectReasonCodeSet"/>
<fixr:field id="555" name="NoLegs" type="NumInGroup"/>
<fixr:field id="600" name="LegSymbol" type="String"/>
<fixr:field id="608" name="LegCFICode" type="String"/>
<fixr:field id="610" name="LegMaturityMonthYear" type="MonthYear"/>
<fixr:field id="1137" name="DefaultApplVerID" type="String"/>
</fixr:fields><fixr:components>
<fixr:component id="1024" name="StandardHeader" category="Common"><fixr:fieldRef id="8" presence="required"/><fixr:fieldRef id="9" presence="required"/><fixr:fieldRef id="35" presence="required"/><fixr:fieldRef id="49" presence="required"/><fixr:fieldRef id="56" presence="required"/><fixr:fieldRef id="34" presence="required"/><fixr:fieldRef id="50"/><fixr:fieldRef id="43"/><fixr:fieldRef id="97"/><fixr:fieldRef id="52" presence="required"/><fixr:fieldRef id="122"/></fixr:component>
<fixr:component id="1025" name="StandardTrailer" category="Common"><fixr:fieldRef id="10" presence="required"/></fixr:component>
<fixr:component id="1003" name="Instrument" category="Common"><fixr:fieldRef id="55"/></fixr:component>
<fixr:component id="1005" name="InstrumentLeg" category="Common"><fixr:fieldRef id="600"/><fixr:fieldRef id="608"/><fixr:fieldRef id="610"/></fixr:component>
<fixr:component id="1011" name="OrderQtyData" category="Common"><fixr:fieldRef id="38"/></fixr:component>
<fixr:component id="1000" name="CommissionData" category="Common"><fixr:fieldRef id="12"/><fixr:fieldRef id="13"/></fixr:component>
</fixr:components><fixr:groups>
<fixr:group id="2054" name="LegOrdGrp"><fixr:numInGroup id="555"/><fixr:componentRef id="1005"/></fixr:group>
<fixr:group id="2071" name="PreAllocGrp"><fixr:numInGroup id="78"/><fixr:fieldRef id="79"/><fixr:fieldRef id="80"/></fixr:group>
</fixr:groups><fixr:messages>
<fixr:message msgType="0" name="Heartbeat" category="Session"><fixr:structure><fixr:componentRef id="1024"/><fixr:fieldRef id="112"/><fixr:componentRef id="1025"/></fixr:structure></fixr:message>
<fixr:message msgType="1" name="TestRequest" category="Session"><fixr:structure><fixr:componentRef id="1024"/><fixr:fieldRef id="112" presence="required"/><fixr:componentRef id="1025"/></fixr:structure></fixr:message>
<fixr:message msgType="2" name="ResendRequest" category="Session"><fixr:structure><fixr:componentRef id="1024"/><fixr:fieldRef id="7" presence="required"/><fixr:fieldRef id="16" presence="required"/><fixr:componentRef id="1025"/></fixr:structure></fixr:message>
<fixr:message msgType="3" name="Reject" category="Session"><fixr:structure><fixr:componentRef id="1024"/><fixr:fieldRef id="45" presence="required"/><fixr:fieldRef id="373"/><fixr:fieldRef id="58"/><fixr:componentRef id="1025"/></fixr:structure></fixr:message>
<fixr:message msgType="4" name="SequenceReset" category="Session"><fixr:structure><fixr:componentRef id="1024"/><fixr:fieldRef id="123"/><fixr:fieldRef id="36" presence="required"/><fixr:componentRef id="1025"/></fixr:structure></fixr:message>
<fixr:message msgType="5" name="Logout" category="Session"><fixr:structure><fixr:componentRef id="1024"/><fixr:fieldRef id="58"/><fixr:componentRef id="1025"/></fixr:structure></fixr:message>
<fixr:message msgType="A" name="Logon" category="Session"><fixr:structure><fixr:componentRef id="1024"/><fixr:fieldRef id="98" presence="required"/><fixr:fieldRef id="108" presence="required"/><fixr:fieldRef id="95"/><fixr:fieldRef id="96"/><fixr:fieldRef id="1137" presence="required"/><fixr:componentRef id="1025"/></fixr:structure></fixr:message>
<fixr:message msgType="D" name="NewOrderSingle" category="SingleGeneralOrderHandling"><fixr:structure><fixr:componentRef id="1024"/><fixr:fieldRef id="11" presence="required"/><fixr:groupRef id="2071"/><fixr:fieldRef id="1"/><fixr:componentRef id="1003"/><fixr:fieldRef id="54" presence="required"/><fixr:fieldRef id="114"/><fixr:componentRef id="1011"/><fixr:fieldRef id="40"/><fixr:fieldRef id="44"/><fixr:componentRef id="1000"/><fixr:fieldRef id="58"/><fixr:componentRef id="1025"/></fixr:structure></fixr:message>
<fixr:message msgType="AB" name="NewOrderMultileg" category="MultilegOrders"><fixr:structure><fixr:componentRef id="1024"/><fixr:fieldRef id="11" presence="required"/><fixr:fieldRef id="1"/><fixr:fieldRef id="54" presence="required"/><fixr:componentRef id="1003"/><fixr:groupRef id="2054"/><fixr:componentRef id="1011"/><fixr:fieldRef id="40"/><fixr:componentRef id="1025"/></fixr:structure></fixr:message>
</fixr:messages>
</fixr:repository>"#;

fn repo() -> Arc<FixRepository> {
  let documents = vec![FIX44.as_bytes().to_vec(), FIX_LATEST.as_bytes().to_vec()];
  Arc::new(FixRepository::from_fix_orchestras(&documents).unwrap())
}

fn fix44() -> Arc<FixVersion> {
  repo().get_version("FIX.4.4").unwrap()
}

fn heartbeat() -> Duration {
  Duration::from_secs(30)
}

fn later(t: Instant, d: Duration) -> Instant {
  t.plus(d)
}

/// A millisecond before `t`.
fn just_before(t: Instant) -> Instant {
  Instant::from_nanos(t.as_nanos() - 1_000_000)
}

fn twice(d: Duration) -> Duration {
  Duration::from_secs(2 * d.as_secs())
}

fn thrice(d: Duration) -> Duration {
  Duration::from_secs(3 * d.as_secs())
}

fn beginning() -> Instant {
  Instant::from_nanos(1_000_000_000_000)
}

/// An owned snapshot of an [`Event`], since the real one borrows.
#[derive(Debug, PartialEq)]
enum Seen {
  ConnectionEstablished,
  RecoveryCompleted,
  SessionState,
  RawMessageReceived,
  RawMessageSent(String),
  MessageReceived(String),
  ResendRequest { begin_seq_no: u32, end_seq_no: u32 },
  Disconnected,
}

/// Records what the session emits, and stamps `SendingTime` the way a real
/// driver would — from a clock the test controls.
#[derive(Default)]
struct Recorder {
  /// `(msg_type, MsgSeqNum)` for everything transmitted, in order.
  sent: Vec<(String, u32)>,
  events: Vec<Seen>,
  /// Advanced by hand so successive stamps differ.
  clock: u32,
}

impl Recorder {
  /// Message types transmitted since the last [`take_sent`](Self::take_sent).
  fn sent_types(&self) -> Vec<&str> {
    self.sent.iter().map(|(t, _)| t.as_str()).collect()
  }

  fn take_sent(&mut self) -> Vec<(String, u32)> {
    std::mem::take(&mut self.sent)
  }
}

impl SessionOutput for Recorder {
  fn transmit(
    &mut self,
    msg: &mut FixMessage,
    _session: &Session,
  ) -> babelfix::Result<()> {
    // A real driver reads a wall clock here; the important part is that it
    // happens once per message, so the test just needs distinct values.
    self.clock += 1;
    let moment = UtcTime::from_timestamp(1_700_000_000, self.clock)
      .expect("valid timestamp");
    stamp_sending_time(msg, moment, TimePrecision::default())?;
    Ok(())
  }

  fn event(&mut self, event: Event<'_>) -> babelfix::Result<()> {
    self.events.push(match event {
      Event::ConnectionEstablished => Seen::ConnectionEstablished,
      Event::RecoveryCompleted => Seen::RecoveryCompleted,
      Event::SessionState(_) => Seen::SessionState,
      Event::RawMessageReceived(..) => Seen::RawMessageReceived,
      Event::RawMessageSent(msg, session) => {
        // Record the message as it goes on the wire, so the tests can check
        // the SendingTime the output stamped.
        self.sent.push((
          msg.get_type().to_string(),
          session.next_out_seq_num.saturating_sub(1),
        ));
        Seen::RawMessageSent(
          msg
            .get_tag(fields::SENDING_TIME)
            .map(|v| v.to_string(&msg.data))
            .unwrap_or_default(),
        )
      }
      Event::MessageReceived(msg) => Seen::MessageReceived(
        msg
          .body
          .tag(CL_ORD_ID)
          .map(|v| v.as_string())
          .unwrap_or_default(),
      ),
      Event::ResendRequest {
        begin_seq_no,
        end_seq_no,
        ..
      } => Seen::ResendRequest {
        begin_seq_no,
        end_seq_no,
      },
      Event::Disconnected => Seen::Disconnected,
      _ => unreachable!("unhandled event variant"),
    });
    Ok(())
  }
}

/// Build an inbound frame as if it had arrived off the wire.
fn inbound(msg_type: &str, seq: u32) -> FixMessage {
  let mut msg = Message::new(fix44(), msg_type).unwrap();
  msg.header.set_tag(fields::MSG_SEQ_NUM, seq);
  msg.header.set_tag(fields::SENDER_COMP_ID, "PEER");
  msg.header.set_tag(fields::TARGET_COMP_ID, "US");
  msg
    .header
    .set_tag(fields::SENDING_TIME, "20231114-22:13:20.000000000");
  msg.as_message().unwrap()
}

fn inbound_with(
  msg_type: &str,
  seq: u32,
  tags: &[(u32, &str)],
) -> FixMessage {
  let mut msg = Message::new(fix44(), msg_type).unwrap();
  msg.header.set_tag(fields::MSG_SEQ_NUM, seq);
  msg.header.set_tag(fields::SENDER_COMP_ID, "PEER");
  msg.header.set_tag(fields::TARGET_COMP_ID, "US");
  msg
    .header
    .set_tag(fields::SENDING_TIME, "20231114-22:13:20.000000000");
  for (tag, value) in tags {
    msg.body.set_tag(*tag, *value);
  }
  msg.as_message().unwrap()
}

/// A session that has just accepted a Logon and sent its synchronisation
/// TestRequest, which is where the integration tests all begin.
fn established() -> (SessionState, Recorder, Instant) {
  let start = beginning();
  let session_id = SessionIdentifier {
    begin_string: "FIX.4.4".into(),
    sender_comp_id: "US".into(),
    target_comp_id: "PEER".into(),
  };
  let mut session = Session::new(fix44());
  session.heartbeat_interval = heartbeat();

  let mut state = SessionState::new(session_id, session, start);
  let mut out = Recorder::default();

  let logon = Message::from_message(&inbound("A", 1)).unwrap();
  let progress = state.start(logon, start, &mut out).unwrap();
  assert_eq!(progress, Progress::Continue);
  // Logon acknowledgement is the driver's job; the state machine emits only
  // the synchronisation TestRequest.
  assert_eq!(out.sent_types(), vec!["1"]);
  out.take_sent();
  out.events.clear();

  (state, out, start)
}

#[test]
fn logon_is_followed_by_a_synchronisation_test_request() {
  let start = beginning();
  let session_id = SessionIdentifier {
    begin_string: "FIX.4.4".into(),
    sender_comp_id: "US".into(),
    target_comp_id: "PEER".into(),
  };
  let mut session = Session::new(fix44());
  session.heartbeat_interval = heartbeat();
  let mut state = SessionState::new(session_id, session, start);
  let mut out = Recorder::default();

  let logon = Message::from_message(&inbound("A", 1)).unwrap();
  let _ = state.start(logon, start, &mut out).unwrap();

  assert_eq!(out.sent_types(), vec!["1"]);
  assert_eq!(state.session().next_in_seq_num, 2);
}

#[test]
fn the_outbound_heartbeat_fires_on_its_deadline() {
  let (mut state, mut out, start) = established();

  // Nothing is due before the interval elapses.
  assert_eq!(state.next_deadline(), Some(later(start, heartbeat())));
  assert_eq!(
    state
      .on_timeout(just_before(later(start, heartbeat())), &mut out)
      .unwrap(),
    Progress::Continue
  );
  assert!(out.sent_types().is_empty());

  let _ = state.on_timeout(later(start, heartbeat()), &mut out).unwrap();
  assert_eq!(out.sent_types(), vec!["0"]);
}

/// The escalation ladder, at exactly the boundaries. Real time makes this
/// awkward to test; a hand-advanced clock makes it exact.
#[test]
fn three_missed_heartbeats_end_the_session() {
  let (mut state, mut out, start) = established();

  // First: noted, nothing sent. The outbound heartbeat fires at the same
  // instant, which is the "0".
  let _ = state.on_timeout(later(start, heartbeat()), &mut out).unwrap();
  assert_eq!(
    out
      .take_sent()
      .iter()
      .map(|(t, _)| t.clone())
      .collect::<Vec<_>>(),
    vec!["0"]
  );

  // Second: a TestRequest, probing whether the peer is alive.
  let _ = state.on_timeout(later(start, twice(heartbeat())), &mut out).unwrap();
  let sent = out.take_sent();
  let types: Vec<&str> = sent.iter().map(|(t, _)| t.as_str()).collect();
  assert_eq!(types, vec!["0", "1"]);

  // Third: Logout, and the session is over.
  let progress = state.on_timeout(later(start, thrice(heartbeat())), &mut out).unwrap();
  assert_eq!(progress, Progress::Close);
  let sent = out.take_sent();
  let types: Vec<&str> = sent.iter().map(|(t, _)| t.as_str()).collect();
  assert_eq!(types, vec!["0", "5"]);
}

/// Rule one: inbound liveness is credited when the frame arrives, *before* it
/// is validated. A message rejected for a bad sequence number still proves the
/// peer is there, so it must not count towards the missed-heartbeat ladder.
#[test]
fn a_rejected_message_still_counts_as_liveness() {
  let (mut state, mut out, start) = established();

  // Two intervals of silence: the session is one step from a TestRequest.
  let _ = state.on_timeout(later(start, heartbeat()), &mut out).unwrap();
  out.take_sent();

  // A message arrives with a sequence number far in the future — it will be
  // discarded and provoke a ResendRequest, but it is still evidence of life.
  let at = later(start, Duration::from_secs(31));
  let _ = state.on_message(inbound("D", 99), at, &mut out).unwrap();
  out.take_sent();

  // The inbound clock restarted, so a full interval from *now* passes without
  // escalating to the second-miss TestRequest.
  let _ = state
    .on_timeout(just_before(later(at, heartbeat())), &mut out)
    .unwrap();
  let types = out.sent_types();
  assert!(
    !types.contains(&"1"),
    "escalated to a TestRequest despite the peer having just spoken: {types:?}"
  );
}

/// Rule two: the outbound heartbeat is deferred only by application commands.
/// A heartbeat sent in reply to the peer's TestRequest is not the session
/// asserting its own liveness on a schedule, and must not reset the timer —
/// otherwise a peer polling us could suppress our heartbeats entirely.
#[test]
fn answering_a_test_request_does_not_defer_our_own_heartbeat() {
  let (mut state, mut out, start) = established();

  // Just before the outbound deadline, the peer asks us to prove we are alive.
  let at = just_before(later(start, heartbeat()));
  let _ = state
    .on_message(
      inbound_with("1", 2, &[(fields::TEST_REQ_ID, "PING")]),
      at,
      &mut out,
    )
    .unwrap();
  assert_eq!(
    out.sent_types(),
    vec!["0"],
    "should answer with a Heartbeat"
  );
  out.take_sent();

  // The scheduled heartbeat must still be due on its original deadline.
  assert_eq!(
    state.next_deadline(),
    Some(later(start, heartbeat())),
    "answering a TestRequest moved the outbound heartbeat deadline"
  );
  let _ = state.on_timeout(later(start, heartbeat()), &mut out).unwrap();
  assert_eq!(out.sent_types(), vec!["0"]);
}

/// By contrast, an application send *is* evidence of liveness on the wire, so
/// it does defer the next heartbeat.
#[test]
fn an_application_send_defers_the_next_heartbeat() {
  let (mut state, mut out, start) = established();

  let at = later(start, Duration::from_secs(15));
  let mut order = Message::new(fix44(), "D").unwrap();
  order.body.set_tag(CL_ORD_ID, "order-1");
  let _ = state
    .on_command(Command::Send(order), at, &mut out)
    .unwrap();
  out.take_sent();

  // The original outbound deadline passes without a heartbeat: the order
  // already told the peer we are alive. (The inbound timer fires here, which
  // only increments the missed counter and sends nothing.)
  let _ = state.on_timeout(later(start, heartbeat()), &mut out).unwrap();
  assert!(
    !out.sent_types().contains(&"0"),
    "sent a heartbeat despite an application message having just gone out"
  );

  // It fires an interval after the send instead.
  let _ = state.on_timeout(later(at, heartbeat()), &mut out).unwrap();
  assert!(out.sent_types().contains(&"0"));
}

#[test]
fn a_sequence_gap_provokes_one_open_ended_resend_request() {
  let (mut state, mut out, start) = established();

  let _ = state.on_message(inbound("D", 5), start, &mut out).unwrap();
  assert_eq!(out.sent_types(), vec!["2"], "expected a ResendRequest");
  out.take_sent();

  // A second out-of-sequence message must not provoke a second request.
  let _ = state.on_message(inbound("D", 6), start, &mut out).unwrap();
  assert!(
    out.sent_types().is_empty(),
    "a second ResendRequest was sent while one was outstanding"
  );
}

#[test]
fn a_sequence_number_below_the_expected_one_ends_the_session() {
  let (mut state, mut out, start) = established();

  // Expecting 2; 1 means one side has lost state and cannot recover.
  let progress = state.on_message(inbound("D", 1), start, &mut out).unwrap();
  assert_eq!(progress, Progress::Close);
  assert_eq!(out.sent_types(), vec!["5"], "expected a Logout");
}

#[test]
fn a_test_request_is_answered_with_the_same_test_req_id() {
  let (mut state, mut out, start) = established();

  let _ = state
    .on_message(
      inbound_with("1", 2, &[(fields::TEST_REQ_ID, "PING-1")]),
      start,
      &mut out,
    )
    .unwrap();

  assert_eq!(out.sent_types(), vec!["0"]);
}

#[test]
fn an_inbound_logout_is_acknowledged_and_closes_the_session() {
  let (mut state, mut out, start) = established();

  let progress = state.on_message(inbound("5", 2), start, &mut out).unwrap();
  assert_eq!(progress, Progress::Close);
  assert_eq!(out.sent_types(), vec!["5"]);
}

/// A Logout arriving inside a gap must not be acknowledged until the gap is
/// recovered, or the messages still missing are abandoned.
#[test]
fn a_logout_inside_a_gap_is_deferred_until_recovery() {
  let (mut state, mut out, start) = established();

  // Open a gap.
  let _ = state.on_message(inbound("D", 5), start, &mut out).unwrap();
  assert_eq!(out.take_sent().len(), 1); // the ResendRequest

  // The Logout arrives while messages 2..4 are still missing.
  let progress = state.on_message(inbound("5", 6), start, &mut out).unwrap();
  assert_eq!(
    progress,
    Progress::Continue,
    "the session ended before recovering the gap"
  );
  assert!(
    out.sent_types().is_empty(),
    "the Logout was acknowledged before the gap closed"
  );

  // The peer gap-fills over the missing range, which closes it.
  let gap_fill = inbound_with(
    "4",
    2,
    &[(fields::GAP_FILL_FLAG, "Y"), (fields::NEW_SEQ_NO, "6")],
  );
  let progress = state.on_message(gap_fill, start, &mut out).unwrap();
  assert_eq!(progress, Progress::Close);
  assert_eq!(
    out.sent_types(),
    vec!["5"],
    "the deferred Logout was not acknowledged once the gap closed"
  );
}

#[test]
fn a_resend_request_reports_a_concrete_end_sequence_number() {
  let (mut state, mut out, start) = established();

  // Send three messages so there is something to resend.
  for i in 0..3 {
    let mut order = Message::new(fix44(), "D").unwrap();
    order.body.set_tag(CL_ORD_ID, format!("order-{i}"));
    let _ = state
      .on_command(Command::Send(order), start, &mut out)
      .unwrap();
  }
  out.take_sent();
  out.events.clear();

  // An open-ended request must be resolved against what we have actually sent.
  let _ = state
    .on_message(
      inbound_with(
        "2",
        2,
        &[(fields::BEGIN_SEQ_NO, "2"), (fields::END_SEQ_NO, "0")],
      ),
      start,
      &mut out,
    )
    .unwrap();

  let resend = out
    .events
    .iter()
    .find(|e| matches!(e, Seen::ResendRequest { .. }))
    .expect("expected a ResendRequest event");
  assert_eq!(
    resend,
    &Seen::ResendRequest {
      begin_seq_no: 2,
      end_seq_no: 4,
    }
  );
}

/// Every message gets its own `SendingTime`, including several emitted from a
/// single call. This is why the clock is read inside the output rather than
/// handed to the state machine once per pass.
#[test]
fn messages_emitted_together_get_distinct_sending_times() {
  let (mut state, mut out, start) = established();

  // Get the peer to one missed heartbeat, so the next timeout crosses both
  // deadlines and emits two messages: the scheduled Heartbeat and the
  // TestRequest probing the silent peer.
  let _ = state.on_timeout(later(start, heartbeat()), &mut out).unwrap();
  out.take_sent();
  out.events.clear();

  let _ = state.on_timeout(later(start, twice(heartbeat())), &mut out).unwrap();
  assert_eq!(out.sent_types(), vec!["0", "1"]);

  let stamps: Vec<&String> = out
    .events
    .iter()
    .filter_map(|e| match e {
      Seen::RawMessageSent(t) => Some(t),
      _ => None,
    })
    .collect();

  assert_eq!(stamps.len(), 2, "expected a Heartbeat and a TestRequest");
  assert_ne!(
    stamps[0], stamps[1],
    "two messages from one call shared a SendingTime"
  );
  assert!(
    stamps.iter().all(|s| !s.is_empty()),
    "the output left a SendingTime unstamped: {stamps:?}"
  );
}
