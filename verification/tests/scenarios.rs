//! A session seen from the other end of its wire, and what an endpoint makes of
//! a connection.

use std::sync::Arc;

use babelfix::builder::Message;
use babelfix::clock::{Duration, Instant};
use babelfix::codec::{FixDecoder, FixEncoder};
use babelfix::driver::Clock;
use babelfix::endpoint::{chan_closed, welcome, ConnectPlan, EndpointConfig, FirstFrame};
use babelfix::repository::{FixRepository, FixVersion};
use babelfix::schema::fields;
use babelfix::session::{
  AcceptorHandshake, Command, Input, PendingOutput, Progress, Session, SessionEvent, SessionState,
};
use babelfix::time::{TimePrecision, UtcTime};
use babelfix::FixMessage;
use bytes::BytesMut;

const DELIM: u8 = b'|';
const CL_ORD_ID: u32 = 11;
const REF_SEQ_NUM: u32 = 45;
const SIDE: u32 = 54;
const SYMBOL: u32 = 55;
const POSS_RESEND: u32 = 97;

/// FIX 4.4, as far as these tests speak it.
const FIX44: &str = r#"<?xml version="1.0" encoding="UTF-8"?>
<fixr:repository name="FIX.4.4" version="FIX.4.4">
<fixr:codeSets><fixr:codeSet name="SideCodeSet"><fixr:code name="Sell" value="2" sort="2"/><fixr:code name="Buy" value="1" sort="1"/></fixr:codeSet></fixr:codeSets>
<fixr:fields>
<fixr:field id="1" name="Account" type="String"/>
<fixr:field id="7" name="BeginSeqNo" type="SeqNum"/>
<fixr:field id="8" name="BeginString" type="String"/>
<fixr:field id="9" name="BodyLength" type="Length"/>
<fixr:field id="10" name="CheckSum" type="String"/>
<fixr:field id="11" name="ClOrdID" type="String"/>
<fixr:field id="12" name="Commission" type="Amt"/>
<fixr:field id="13" name="CommType" type="CommTypeCodeSet"/>
<fixr:field id="16" name="EndSeqNo" type="SeqNum"/>
<fixr:field id="34" name="MsgSeqNum" type="SeqNum"/>
<fixr:field id="35" name="MsgType" type="MsgTypeCodeSet"/>
<fixr:field id="36" name="NewSeqNo" type="SeqNum"/>
<fixr:field id="38" name="OrderQty" type="Qty"/>
<fixr:field id="40" name="OrdType" type="OrdTypeCodeSet"/>
<fixr:field id="43" name="PossDupFlag" type="PossDupFlagCodeSet"/>
<fixr:field id="44" name="Price" type="Price"/>
<fixr:field id="45" name="RefSeqNum" type="SeqNum"/>
<fixr:field id="49" name="SenderCompID" type="String"/>
<fixr:field id="50" name="SenderSubID" type="String"/>
<fixr:field id="52" name="SendingTime" type="UTCTimestamp"/>
<fixr:field id="54" name="Side" type="SideCodeSet"/>
<fixr:field id="55" name="Symbol" type="String"/>
<fixr:field id="56" name="TargetCompID" type="String"/>
<fixr:field id="58" name="Text" type="String"/>
<fixr:field id="78" name="NoAllocs" type="NumInGroup"/>
<fixr:field id="79" name="AllocAccount" type="String"/>
<fixr:field id="80" name="AllocQty" type="Qty"/>
<fixr:field id="95" name="RawDataLength" type="Length"/>
<fixr:field id="96" name="RawData" type="data"/>
<fixr:field id="97" name="PossResend" type="PossResendCodeSet"/>
<fixr:field id="98" name="EncryptMethod" type="EncryptMethodCodeSet"/>
<fixr:field id="108" name="HeartBtInt" type="int"/>
<fixr:field id="112" name="TestReqID" type="String"/>
<fixr:field id="114" name="LocateReqd" type="Boolean"/>
<fixr:field id="122" name="OrigSendingTime" type="UTCTimestamp"/>
<fixr:field id="123" name="GapFillFlag" type="GapFillFlagCodeSet"/>
<fixr:field id="373" name="SessionRejectReason" type="SessionRejectReasonCodeSet"/>
<fixr:field id="555" name="NoLegs" type="NumInGroup"/>
<fixr:field id="600" name="LegSymbol" type="String"/>
<fixr:field id="608" name="LegCFICode" type="String"/>
<fixr:field id="610" name="LegMaturityMonthYear" type="MonthYear"/>
</fixr:fields><fixr:components>
<fixr:component id="1024" name="StandardHeader" category="Common"><fixr:fieldRef id="8" presence="required"/><fixr:fieldRef id="9" presence="required"/><fixr:fieldRef id="35" presence="required"/><fixr:fieldRef id="49" presence="required"/><fixr:fieldRef id="56" presence="required"/><fixr:fieldRef id="34" presence="required"/><fixr:fieldRef id="50"/><fixr:fieldRef id="43"/><fixr:fieldRef id="97"/><fixr:fieldRef id="52" presence="required"/><fixr:fieldRef id="122"/></fixr:component>
<fixr:component id="1025" name="StandardTrailer" category="Common"><fixr:fieldRef id="10" presence="required"/></fixr:component>
<fixr:component id="1003" name="Instrument" category="Common"><fixr:fieldRef id="55"/></fixr:component>
<fixr:component id="1005" name="InstrumentLeg" category="Common"><fixr:fieldRef id="600"/><fixr:fieldRef id="608"/><fixr:fieldRef id="610"/></fixr:component>
<fixr:component id="1011" name="OrderQtyData" category="Common"><fixr:fieldRef id="38"/></fixr:component>
<fixr:component id="1000" name="CommissionData" category="Common"><fixr:fieldRef id="12"/><fixr:fieldRef id="13"/></fixr:component>
</fixr:components><fixr:groups>
<fixr:group id="2054" name="LegOrdGrp"><fixr:numInGroup id="555"/><fixr:componentRef id="1005"/></fixr:group>
<fixr:group id="2071" name="PreAllocGrp"><fixr:numInGroup id="78"/><fixr:fieldRef id="79"/><fixr:fieldRef id="80"/></fixr:group>
</fixr:groups><fixr:messages>
<fixr:message msgType="0" name="Heartbeat" category="Session"><fixr:structure><fixr:componentRef id="1024"/><fixr:fieldRef id="112"/><fixr:componentRef id="1025"/></fixr:structure></fixr:message>
<fixr:message msgType="1" name="TestRequest" category="Session"><fixr:structure><fixr:componentRef id="1024"/><fixr:fieldRef id="112" presence="required"/><fixr:componentRef id="1025"/></fixr:structure></fixr:message>
<fixr:message msgType="2" name="ResendRequest" category="Session"><fixr:structure><fixr:componentRef id="1024"/><fixr:fieldRef id="7" presence="required"/><fixr:fieldRef id="16" presence="required"/><fixr:componentRef id="1025"/></fixr:structure></fixr:message>
<fixr:message msgType="3" name="Reject" category="Session"><fixr:structure><fixr:componentRef id="1024"/><fixr:fieldRef id="45" presence="required"/><fixr:fieldRef id="373"/><fixr:fieldRef id="58"/><fixr:componentRef id="1025"/></fixr:structure></fixr:message>
<fixr:message msgType="4" name="SequenceReset" category="Session"><fixr:structure><fixr:componentRef id="1024"/><fixr:fieldRef id="123"/><fixr:fieldRef id="36" presence="required"/><fixr:componentRef id="1025"/></fixr:structure></fixr:message>
<fixr:message msgType="5" name="Logout" category="Session"><fixr:structure><fixr:componentRef id="1024"/><fixr:fieldRef id="58"/><fixr:componentRef id="1025"/></fixr:structure></fixr:message>
<fixr:message msgType="A" name="Logon" category="Session"><fixr:structure><fixr:componentRef id="1024"/><fixr:fieldRef id="98" presence="required"/><fixr:fieldRef id="108" presence="required"/><fixr:fieldRef id="95"/><fixr:fieldRef id="96"/><fixr:componentRef id="1025"/></fixr:structure></fixr:message>
<fixr:message msgType="D" name="NewOrderSingle" category="SingleGeneralOrderHandling"><fixr:structure><fixr:componentRef id="1024"/><fixr:fieldRef id="11" presence="required"/><fixr:groupRef id="2071"/><fixr:fieldRef id="1"/><fixr:componentRef id="1003"/><fixr:fieldRef id="54" presence="required"/><fixr:fieldRef id="114"/><fixr:componentRef id="1011"/><fixr:fieldRef id="40"/><fixr:fieldRef id="44"/><fixr:componentRef id="1000"/><fixr:fieldRef id="58"/><fixr:componentRef id="1025"/></fixr:structure></fixr:message>
<fixr:message msgType="AB" name="NewOrderMultileg" category="MultilegOrders"><fixr:structure><fixr:componentRef id="1024"/><fixr:fieldRef id="11" presence="required"/><fixr:fieldRef id="1"/><fixr:fieldRef id="54" presence="required"/><fixr:componentRef id="1003"/><fixr:groupRef id="2054"/><fixr:componentRef id="1011"/><fixr:fieldRef id="40"/><fixr:componentRef id="1025"/></fixr:structure></fixr:message>
</fixr:messages>
</fixr:repository>"#;

/// The latest version, as far as these tests speak it.
const FIX_LATEST: &str = r#"<?xml version="1.0" encoding="UTF-8"?>
<fixr:repository name="FIX.Latest" version="FIX.Latest_EP274">
<fixr:codeSets><fixr:codeSet name="SideCodeSet"><fixr:code name="Sell" value="2" sort="2"/><fixr:code name="Buy" value="1" sort="1"/></fixr:codeSet></fixr:codeSets>
<fixr:fields>
<fixr:field id="1" name="Account" type="String"/>
<fixr:field id="7" name="BeginSeqNo" type="SeqNum"/>
<fixr:field id="8" name="BeginString" type="String"/>
<fixr:field id="9" name="BodyLength" type="Length"/>
<fixr:field id="10" name="CheckSum" type="String"/>
<fixr:field id="11" name="ClOrdID" type="String"/>
<fixr:field id="12" name="Commission" type="Amt"/>
<fixr:field id="13" name="CommType" type="CommTypeCodeSet"/>
<fixr:field id="16" name="EndSeqNo" type="SeqNum"/>
<fixr:field id="34" name="MsgSeqNum" type="SeqNum"/>
<fixr:field id="35" name="MsgType" type="MsgTypeCodeSet"/>
<fixr:field id="36" name="NewSeqNo" type="SeqNum"/>
<fixr:field id="38" name="OrderQty" type="Qty"/>
<fixr:field id="40" name="OrdType" type="OrdTypeCodeSet"/>
<fixr:field id="43" name="PossDupFlag" type="PossDupFlagCodeSet"/>
<fixr:field id="44" name="Price" type="Price"/>
<fixr:field id="45" name="RefSeqNum" type="SeqNum"/>
<fixr:field id="49" name="SenderCompID" type="String"/>
<fixr:field id="50" name="SenderSubID" type="String"/>
<fixr:field id="52" name="SendingTime" type="UTCTimestamp"/>
<fixr:field id="54" name="Side" type="SideCodeSet"/>
<fixr:field id="55" name="Symbol" type="String"/>
<fixr:field id="56" name="TargetCompID" type="String"/>
<fixr:field id="58" name="Text" type="String"/>
<fixr:field id="78" name="NoAllocs" type="NumInGroup"/>
<fixr:field id="79" name="AllocAccount" type="String"/>
<fixr:field id="80" name="AllocQty" type="Qty"/>
<fixr:field id="95" name="RawDataLength" type="Length"/>
<fixr:field id="96" name="RawData" type="data"/>
<fixr:field id="97" name="PossResend" type="PossResendCodeSet"/>
<fixr:field id="98" name="EncryptMethod" type="EncryptMethodCodeSet"/>
<fixr:field id="108" name="HeartBtInt" type="int"/>
<fixr:field id="112" name="TestReqID" type="String"/>
<fixr:field id="114" name="LocateReqd" type="Boolean"/>
<fixr:field id="122" name="OrigSendingTime" type="UTCTimestamp"/>
<fixr:field id="123" name="GapFillFlag" type="GapFillFlagCodeSet"/>
<fixr:field id="373" name="SessionRejectReason" type="SessionRejectReasonCodeSet"/>
<fixr:field id="555" name="NoLegs" type="NumInGroup"/>
<fixr:field id="600" name="LegSymbol" type="String"/>
<fixr:field id="608" name="LegCFICode" type="String"/>
<fixr:field id="610" name="LegMaturityMonthYear" type="MonthYear"/>
<fixr:field id="1137" name="DefaultApplVerID" type="String"/>
</fixr:fields><fixr:components>
<fixr:component id="1024" name="StandardHeader" category="Common"><fixr:fieldRef id="8" presence="required"/><fixr:fieldRef id="9" presence="required"/><fixr:fieldRef id="35" presence="required"/><fixr:fieldRef id="49" presence="required"/><fixr:fieldRef id="56" presence="required"/><fixr:fieldRef id="34" presence="required"/><fixr:fieldRef id="50"/><fixr:fieldRef id="43"/><fixr:fieldRef id="97"/><fixr:fieldRef id="52" presence="required"/><fixr:fieldRef id="122"/></fixr:component>
<fixr:component id="1025" name="StandardTrailer" category="Common"><fixr:fieldRef id="10" presence="required"/></fixr:component>
<fixr:component id="1003" name="Instrument" category="Common"><fixr:fieldRef id="55"/></fixr:component>
<fixr:component id="1005" name="InstrumentLeg" category="Common"><fixr:fieldRef id="600"/><fixr:fieldRef id="608"/><fixr:fieldRef id="610"/></fixr:component>
<fixr:component id="1011" name="OrderQtyData" category="Common"><fixr:fieldRef id="38"/></fixr:component>
<fixr:component id="1000" name="CommissionData" category="Common"><fixr:fieldRef id="12"/><fixr:fieldRef id="13"/></fixr:component>
</fixr:components><fixr:groups>
<fixr:group id="2054" name="LegOrdGrp"><fixr:numInGroup id="555"/><fixr:componentRef id="1005"/></fixr:group>
<fixr:group id="2071" name="PreAllocGrp"><fixr:numInGroup id="78"/><fixr:fieldRef id="79"/><fixr:fieldRef id="80"/></fixr:group>
</fixr:groups><fixr:messages>
<fixr:message msgType="0" name="Heartbeat" category="Session"><fixr:structure><fixr:componentRef id="1024"/><fixr:fieldRef id="112"/><fixr:componentRef id="1025"/></fixr:structure></fixr:message>
<fixr:message msgType="1" name="TestRequest" category="Session"><fixr:structure><fixr:componentRef id="1024"/><fixr:fieldRef id="112" presence="required"/><fixr:componentRef id="1025"/></fixr:structure></fixr:message>
<fixr:message msgType="2" name="ResendRequest" category="Session"><fixr:structure><fixr:componentRef id="1024"/><fixr:fieldRef id="7" presence="required"/><fixr:fieldRef id="16" presence="required"/><fixr:componentRef id="1025"/></fixr:structure></fixr:message>
<fixr:message msgType="3" name="Reject" category="Session"><fixr:structure><fixr:componentRef id="1024"/><fixr:fieldRef id="45" presence="required"/><fixr:fieldRef id="373"/><fixr:fieldRef id="58"/><fixr:componentRef id="1025"/></fixr:structure></fixr:message>
<fixr:message msgType="4" name="SequenceReset" category="Session"><fixr:structure><fixr:componentRef id="1024"/><fixr:fieldRef id="123"/><fixr:fieldRef id="36" presence="required"/><fixr:componentRef id="1025"/></fixr:structure></fixr:message>
<fixr:message msgType="5" name="Logout" category="Session"><fixr:structure><fixr:componentRef id="1024"/><fixr:fieldRef id="58"/><fixr:componentRef id="1025"/></fixr:structure></fixr:message>
<fixr:message msgType="A" name="Logon" category="Session"><fixr:structure><fixr:componentRef id="1024"/><fixr:fieldRef id="98" presence="required"/><fixr:fieldRef id="108" presence="required"/><fixr:fieldRef id="95"/><fixr:fieldRef id="96"/><fixr:fieldRef id="1137" presence="required"/><fixr:componentRef id="1025"/></fixr:structure></fixr:message>
<fixr:message msgType="D" name="NewOrderSingle" category="SingleGeneralOrderHandling"><fixr:structure><fixr:componentRef id="1024"/><fixr:fieldRef id="11" presence="required"/><fixr:groupRef id="2071"/><fixr:fieldRef id="1"/><fixr:componentRef id="1003"/><fixr:fieldRef id="54" presence="required"/><fixr:fieldRef id="114"/><fixr:componentRef id="1011"/><fixr:fieldRef id="40"/><fixr:fieldRef id="44"/><fixr:componentRef id="1000"/><fixr:fieldRef id="58"/><fixr:componentRef id="1025"/></fixr:structure></fixr:message>
<fixr:message msgType="AB" name="NewOrderMultileg" category="MultilegOrders"><fixr:structure><fixr:componentRef id="1024"/><fixr:fieldRef id="11" presence="required"/><fixr:fieldRef id="1"/><fixr:fieldRef id="54" presence="required"/><fixr:componentRef id="1003"/><fixr:groupRef id="2054"/><fixr:componentRef id="1011"/><fixr:fieldRef id="40"/><fixr:componentRef id="1025"/></fixr:structure></fixr:message>
</fixr:messages>
</fixr:repository>"#;

fn repo() -> Arc<FixRepository> {
  let documents = vec![FIX44.as_bytes().to_vec(), FIX_LATEST.as_bytes().to_vec()];
  Arc::new(FixRepository::from_fix_orchestras(&documents).unwrap())
}

fn fix44() -> Arc<FixVersion> {
  repo().get_version("FIX.4.4").unwrap()
}

/// A clock that stands still.
struct Noon;

impl Clock for Noon {
  fn now(&self) -> UtcTime {
    UtcTime { year: 2024, month: 2, day: 29, hour: 12, minute: 0, second: 0, nanosecond: 123_456_789 }
  }
}

fn order(id: &str) -> Message {
  let mut msg = Message::new(fix44(), "D").unwrap();
  msg.body.set_tag(CL_ORD_ID, id);
  msg.body.set_tag(SYMBOL, "AAPL");
  msg.body.set_tag(SIDE, "1");
  msg
}

/// What an application kept of a message it sent, to be sent once more.
fn replayed(msg_type: &str, seq_num: u32) -> Message {
  let mut msg = Message::new(fix44(), msg_type).unwrap();
  msg.header.set_tag(fields::MSG_SEQ_NUM, seq_num);
  msg.header.set_tag(fields::SENDING_TIME, "20200101-00:00:00.000");
  if msg_type == "D" {
    msg.body.set_tag(CL_ORD_ID, format!("order-{seq_num}"));
  }
  msg
}

/// An acceptor's session together with the peer at the other end of its wire.
struct World {
  repo: Arc<FixRepository>,
  state: SessionState,
  out: PendingOutput<Noon>,
  events: Vec<SessionEvent>,
  now: Instant,
  peer_seq: u32,
  ended: bool,
}

impl World {
  /// The peer logs on with `seq`; the session starts as `configure` leaves it.
  fn logged_on_at(seq: u32, configure: fn(&mut Session)) -> World {
    let repo = repo();
    let now = Instant::from_nanos(1_000_000_000_000);
    let mut session = Session::new(repo.get_version("FIX.4.4").unwrap());
    configure(&mut session);
    let mut out = PendingOutput::new(Some(DELIM), session.time_precision, Noon);

    let mut handshake = AcceptorHandshake::new(Duration::from_secs(30), now);
    let logon =
      peer_message("A", seq, &[(fields::HEART_BT_INT, "30"), (fields::ENCRYPT_METHOD, "0")]);
    let id = welcome(&mut handshake, FirstFrame::Frame(on_the_wire(&repo, logon))).ok().unwrap();
    assert_eq!((id.sender_comp_id.as_str(), id.target_comp_id.as_str()), ("SERVER", "CLIENT"));
    let established = handshake.accept(session, now, &mut out).unwrap();
    World {
      repo,
      state: *established.state,
      out,
      events: Vec::new(),
      now,
      peer_seq: seq + 1,
      ended: established.progress.is_close(),
    }
  }

  /// Logged on, and past the synchronisation that follows it.
  fn settled() -> World {
    let mut world = World::logged_on_at(1, |_| {});
    let received = world.received();
    assert_eq!(types(&received), ["A", "1"]);
    let id = text(&received[1], fields::TEST_REQ_ID);
    world.peer_sends("0", &[(fields::TEST_REQ_ID, id.as_str())]);
    assert!(world.received().is_empty());
    world.take_events();
    world
  }

  fn input(&mut self, input: Input) -> babelfix::Result<Progress> {
    let r = self.state.on_input(input, self.now, &mut self.out);
    self.ended = match &r {
      Ok(progress) => progress.is_close(),
      Err(_) => true,
    };
    r
  }

  fn peer_sends_at(&mut self, seq: u32, msg_type: &str, tags: &[(u32, &str)]) {
    let frame = on_the_wire(&self.repo, peer_message(msg_type, seq, tags));
    self.input(Input::Frame(frame)).unwrap();
  }

  fn peer_sends(&mut self, msg_type: &str, tags: &[(u32, &str)]) {
    let seq = self.peer_seq;
    self.peer_seq += 1;
    self.peer_sends_at(seq, msg_type, tags);
  }

  fn command(&mut self, cmd: Command) {
    self.input(Input::Command(cmd)).unwrap();
  }

  /// What has reached the peer since last asked.
  fn received(&mut self) -> Vec<FixMessage> {
    let mut bytes = self.out.take_bytes();
    let mut decoder = FixDecoder::new(self.repo.clone(), Some(DELIM));
    let mut received = Vec::new();
    while let Some(msg) = decoder.decode(&mut bytes).unwrap() {
      received.push(msg);
    }
    assert!(bytes.is_empty());
    received
  }

  fn take_events(&mut self) -> Vec<SessionEvent> {
    self.events.extend(self.out.take_events());
    std::mem::take(&mut self.events)
  }

  /// The orders that have reached the application since last asked.
  fn delivered(&mut self) -> Vec<String> {
    self
      .take_events()
      .into_iter()
      .filter_map(|event| match event {
        SessionEvent::MessageReceived(msg) => Some(msg.body.tag(CL_ORD_ID).unwrap().as_string()),
        _ => None,
      })
      .collect()
  }
}

fn peer_message(msg_type: &str, seq: u32, tags: &[(u32, &str)]) -> Message {
  let mut msg = Message::new(fix44(), msg_type).unwrap();
  msg.header.set_tag(fields::MSG_SEQ_NUM, seq);
  msg.header.set_tag(fields::SENDER_COMP_ID, "CLIENT");
  msg.header.set_tag(fields::TARGET_COMP_ID, "SERVER");
  msg.header.set_tag(fields::SENDING_TIME, "20240229-11:59:59.000");
  for (tag, value) in tags {
    if *tag == POSS_RESEND {
      msg.header.set_tag(*tag, *value);
    } else {
      msg.body.set_tag(*tag, *value);
    }
  }
  msg
}

/// A message as it comes out of the wire at the other end.
fn on_the_wire(repo: &Arc<FixRepository>, msg: Message) -> FixMessage {
  let mut bytes = BytesMut::new();
  FixEncoder::new(Some(DELIM)).encode(&msg.as_message().unwrap(), &mut bytes).unwrap();
  FixDecoder::new(repo.clone(), Some(DELIM)).decode(&mut bytes).unwrap().unwrap()
}

fn types(messages: &[FixMessage]) -> Vec<&str> {
  messages.iter().map(|m| m.get_type()).collect()
}

fn text(msg: &FixMessage, tag: u32) -> String {
  msg.get_tag(tag).map(|v| v.to_string(&msg.data)).unwrap_or_default()
}

#[test]
fn test_request_is_answered_with_a_matching_heartbeat() {
  let mut world = World::settled();
  world.peer_sends("1", &[(fields::TEST_REQ_ID, "PING-1")]);
  let received = world.received();
  assert_eq!(types(&received), ["0"]);
  assert_eq!(text(&received[0], fields::TEST_REQ_ID), "PING-1");
}

#[test]
fn heartbeat_with_the_wrong_test_req_id_does_not_complete_recovery() {
  let mut world = World::logged_on_at(1, |_| {});
  let id = text(&world.received()[1], fields::TEST_REQ_ID);
  world.take_events();

  world.peer_sends("0", &[(fields::TEST_REQ_ID, "not-the-one")]);
  assert!(!world.take_events().iter().any(|e| matches!(e, SessionEvent::RecoveryCompleted)));

  world.peer_sends("0", &[(fields::TEST_REQ_ID, id.as_str())]);
  assert!(world.take_events().iter().any(|e| matches!(e, SessionEvent::RecoveryCompleted)));
}

#[test]
fn acceptor_identifies_session_by_swapping_comp_ids() {
  let world = World::settled();
  let id = world.state.session_id();
  assert_eq!(id.sender_comp_id, "SERVER");
  assert_eq!(id.target_comp_id, "CLIENT");
  assert_eq!(id.begin_string, "FIX.4.4");
}

#[test]
fn logon_with_sequence_number_too_low_is_logged_out() {
  let mut world = World::logged_on_at(1, |session| session.next_in_seq_num = 5);
  assert!(world.ended);
  let received = world.received();
  let last = received.last().unwrap();
  assert_eq!(last.get_type(), "5");
  let reason = text(last, fields::TEXT);
  for part in ["too low", "Expected 5", "got 1"] {
    assert!(reason.contains(part), "{reason}");
  }
}

#[test]
fn unsolicited_logout_is_acknowledged_once_and_ends_the_session() {
  let mut world = World::settled();
  world.peer_sends("5", &[(fields::TEXT, "done for the day")]);
  assert_eq!(types(&world.received()), ["5"]);
  assert!(world.ended);
}

#[test]
fn logout_inside_a_gap_is_acknowledged_once_recovery_completes() {
  // Logging on at 5 leaves the acceptor expecting 1, so it is recovering.
  let mut world = World::logged_on_at(5, |_| {});
  assert_eq!(types(&world.received()), ["A", "2", "1"]);

  // The Logout falls inside the gap: no acknowledgement yet.
  world.peer_sends("5", &[(fields::TEXT, "shutting down")]);
  assert!(world.received().is_empty());
  assert!(!world.ended);

  // Gap fill over 1 to 6, which is everything including the Logout itself.
  world.peer_sends_at(1, "4", &[(fields::GAP_FILL_FLAG, "Y"), (fields::NEW_SEQ_NO, "7")]);
  assert_eq!(types(&world.received()), ["5"]);
  assert!(world.ended);
}

#[test]
fn a_waiting_logout_is_acknowledged_by_whatever_closes_the_gap() {
  let mut world = World::logged_on_at(3, |_| {});
  assert_eq!(types(&world.received()), ["A", "2", "1"]);
  world.peer_sends("5", &[(fields::TEXT, "shutting down")]);
  assert!(world.received().is_empty());

  // The orders that were missing come again, one by one.
  world.peer_sends_at(1, "D", &[(CL_ORD_ID, "first")]);
  assert!(world.received().is_empty());
  assert!(!world.ended);
  world.peer_sends_at(2, "D", &[(CL_ORD_ID, "second")]);
  assert_eq!(types(&world.received()), ["5"]);
  assert!(world.ended);
  assert_eq!(world.delivered(), ["first", "second"]);
}

#[test]
fn a_completed_replay_sends_the_tail_then_what_was_held_then_a_test_request() {
  let mut world = World::settled();
  world.peer_sends("2", &[(fields::BEGIN_SEQ_NO, "1"), (fields::END_SEQ_NO, "2")]);
  world.command(Command::Send(order("one")));
  world.command(Command::Send(order("two")));
  assert!(world.received().is_empty());
  world.command(Command::ReplayComplete);

  let received = world.received();
  assert_eq!(types(&received), ["4", "D", "D", "1"]);
  let numbers: Vec<String> = received.iter().map(|m| text(m, fields::MSG_SEQ_NUM)).collect();
  assert_eq!(numbers, ["1", "3", "4", "5"]);
  assert_eq!(text(&received[0], fields::GAP_FILL_FLAG), "Y");
  assert_eq!(text(&received[0], fields::NEW_SEQ_NO), "3");
  assert_eq!(text(&received[1], CL_ORD_ID), "one");
  assert_eq!(text(&received[2], CL_ORD_ID), "two");
  assert!(text(&received[3], fields::TEST_REQ_ID).starts_with("HELO-"));
  assert!(!world.state.replay_in_progress());

  let refused = world.input(Input::Command(Command::ReplayComplete)).err().unwrap();
  assert!(refused.to_string().ends_with("No replay in progress"));
  assert!(world.received().is_empty());
}

#[test]
fn disconnect_sends_a_logout_before_closing() {
  let mut world = World::settled();
  world.command(Command::Disconnect);
  assert_eq!(types(&world.received()), ["5"]);
}

#[test]
fn abrupt_loss_of_the_transport_layer_is_reported() {
  let mut world = World::settled();
  assert_eq!(world.input(Input::PeerClosed).unwrap(), Progress::Close);
  assert!(world.received().is_empty());
  assert!(world.take_events().iter().any(|e| matches!(e, SessionEvent::Disconnected)));
}

#[test]
fn a_lost_stream_or_application_ends_the_session_without_a_word() {
  for input in [Input::ReadFailed, Input::CommandsClosed] {
    let mut world = World::settled();
    assert_eq!(world.input(input).unwrap(), Progress::Close);
    assert!(!world.out.has_bytes());
    assert!(world.take_events().is_empty());
  }
}

#[test]
fn gap_fill_stops_short_of_the_next_retransmitted_message() {
  let mut world = World::settled();
  for id in ["order-3", "order-4"] {
    world.command(Command::Send(order(id)));
    assert_eq!(types(&world.received()), ["D"]);
  }
  world.take_events();

  // Ask for everything from the beginning of the session.
  world.peer_sends("2", &[(fields::BEGIN_SEQ_NO, "1"), (fields::END_SEQ_NO, "0")]);
  assert!(world.take_events().iter().any(|e| matches!(
    e,
    SessionEvent::ResendRequest { begin_seq_no: 1, end_seq_no: 4, .. }
  )));

  for (msg_type, seq_num) in [("A", 1), ("1", 2), ("D", 3), ("D", 4)] {
    world.command(Command::Replay(replayed(msg_type, seq_num)));
  }
  world.command(Command::ReplayComplete);

  let received = world.received();
  assert_eq!(text(&received[0], fields::MSG_TYPE), "4");
  assert_eq!(text(&received[0], fields::GAP_FILL_FLAG), "Y");
  assert_eq!(text(&received[0], fields::MSG_SEQ_NUM), "1");
  assert_eq!(text(&received[0], fields::NEW_SEQ_NO), "3");
  for (i, seq_num) in [(1, "3"), (2, "4")] {
    assert_eq!(text(&received[i], fields::MSG_TYPE), "D");
    assert_eq!(text(&received[i], fields::MSG_SEQ_NUM), seq_num);
    assert_eq!(text(&received[i], fields::POSS_DUP_FLAG), "Y");
    assert_eq!(text(&received[i], fields::ORIG_SENDING_TIME), "20200101-00:00:00.000");
    assert_eq!(text(&received[i], CL_ORD_ID), format!("order-{seq_num}"));
  }
}

#[test]
fn declining_to_replay_gap_fills_the_whole_range() {
  let mut world = World::settled();
  world.peer_sends("2", &[(fields::BEGIN_SEQ_NO, "1"), (fields::END_SEQ_NO, "2")]);
  world.command(Command::ReplayComplete);
  let received = world.received();
  assert_eq!(text(&received[0], fields::MSG_TYPE), "4");
  assert_eq!(text(&received[0], fields::GAP_FILL_FLAG), "Y");
  assert_eq!(text(&received[0], fields::MSG_SEQ_NUM), "1");
  assert_eq!(text(&received[0], fields::NEW_SEQ_NO), "3");
}

#[test]
fn messages_sent_during_a_replay_are_queued_until_it_completes() {
  let mut world = World::settled();
  world.peer_sends("2", &[(fields::BEGIN_SEQ_NO, "1"), (fields::END_SEQ_NO, "2")]);
  assert!(world.state.replay_in_progress());
  world.command(Command::Send(order("new-order")));
  assert!(world.received().is_empty());
  world.command(Command::ReplayComplete);
  assert!(!world.state.replay_in_progress());

  let received = world.received();
  assert_eq!(text(&received[0], fields::MSG_TYPE), "4");
  assert_eq!(text(&received[1], fields::MSG_TYPE), "D");
  assert_eq!(text(&received[1], CL_ORD_ID), "new-order");
  assert_eq!(text(&received[1], fields::MSG_SEQ_NUM), "3");
}

#[test]
fn inbound_gap_fill_advances_the_expected_sequence_number() {
  let mut world = World::logged_on_at(5, |_| {});
  let received = world.received();
  assert_eq!(types(&received)[..2], ["A", "2"]);
  assert_eq!(text(&received[1], fields::BEGIN_SEQ_NO), "1");
  assert_eq!(text(&received[1], fields::END_SEQ_NO), "0");

  // Gap fill over 1-5 inclusive, so the next message the acceptor expects is 6.
  world.peer_sends_at(1, "4", &[(fields::GAP_FILL_FLAG, "Y"), (fields::NEW_SEQ_NO, "6")]);
  world.take_events();
  world.peer_sends_at(6, "D", &[(CL_ORD_ID, "after-gap"), (SYMBOL, "AAPL"), (SIDE, "1")]);
  assert_eq!(world.delivered(), ["after-gap"]);
}

#[test]
fn replay_beyond_the_requested_range_is_not_transmitted() {
  let mut world = World::settled();
  world.peer_sends("2", &[(fields::BEGIN_SEQ_NO, "1"), (fields::END_SEQ_NO, "2")]);

  // Only 1 and 2 were asked for; 3 has not been sent yet.
  for seq_num in [1, 2, 3] {
    world.command(Command::Replay(replayed("D", seq_num)));
  }
  world.command(Command::ReplayComplete);

  let received = world.received();
  assert_eq!(types(&received), ["D", "D", "1"]);
  for (i, seq_num) in [(0, "1"), (1, "2")] {
    assert_eq!(text(&received[i], fields::MSG_SEQ_NUM), seq_num);
    assert_eq!(text(&received[i], fields::POSS_DUP_FLAG), "Y");
  }
  // Completing a resend re-confirms synchronisation, which consumes sequence
  // number 3, the one the out-of-range replay would have reused.
  assert_eq!(text(&received[2], fields::MSG_SEQ_NUM), "3");

  world.command(Command::Send(order("brand-new")));
  let received = world.received();
  assert_eq!(text(&received[0], fields::MSG_SEQ_NUM), "4");
  assert_eq!(text(&received[0], CL_ORD_ID), "brand-new");
  assert!(received[0].get_tag(fields::POSS_DUP_FLAG).is_none());
}

#[test]
fn out_of_sequence_gap_fill_does_not_skip_messages() {
  let mut world = World::settled();
  // The acceptor expects 3. A gap fill claiming to start at 9 leaves 3-8
  // unaccounted for, so it must be recovered rather than jumped over.
  world.peer_sends_at(9, "4", &[(fields::GAP_FILL_FLAG, "Y"), (fields::NEW_SEQ_NO, "20")]);
  let received = world.received();
  assert_eq!(text(&received[0], fields::MSG_TYPE), "2");
  assert_eq!(text(&received[0], fields::BEGIN_SEQ_NO), "3");

  world.peer_sends_at(3, "4", &[(fields::GAP_FILL_FLAG, "Y"), (fields::NEW_SEQ_NO, "10")]);
  world.take_events();
  world.peer_sends_at(10, "D", &[(CL_ORD_ID, "after-gap")]);
  assert_eq!(world.delivered(), ["after-gap"]);
}

#[test]
fn a_resend_request_inside_a_gap_is_serviced() {
  let mut world = World::settled();
  world.peer_sends_at(9, "2", &[(fields::BEGIN_SEQ_NO, "1"), (fields::END_SEQ_NO, "0")]);
  // Our own request for what is missing goes out first.
  assert_eq!(types(&world.received()), ["2"]);
  assert!(world.state.replay_in_progress());
  assert_eq!(world.state.session().next_in_seq_num, 3);
  assert!(world.take_events().iter().any(|e| matches!(
    e,
    SessionEvent::ResendRequest { begin_seq_no: 1, end_seq_no: 3, .. }
  )));
}

#[test]
fn a_logout_during_a_replay_stays_behind() {
  let mut world = World::settled();
  world.peer_sends("2", &[(fields::BEGIN_SEQ_NO, "1"), (fields::END_SEQ_NO, "2")]);
  assert_eq!(world.input(Input::Command(Command::Disconnect)).unwrap(), Progress::Close);
  assert!(!world.out.has_bytes());
}

#[test]
fn gap_fill_below_the_expected_sequence_number_is_logged_out() {
  let mut world = World::settled();
  world.peer_sends_at(1, "4", &[(fields::GAP_FILL_FLAG, "Y"), (fields::NEW_SEQ_NO, "2")]);
  let received = world.received();
  assert_eq!(types(&received), ["5"]);
  assert!(text(&received[0], fields::TEXT).contains("too low"));
  assert!(world.ended);
}

#[test]
fn replay_without_a_resend_request_is_rejected() {
  let mut world = World::settled();
  let refused = world.input(Input::Command(Command::Replay(replayed("D", 1)))).err().unwrap();
  assert_eq!(refused.to_string(), "Protocol violation: No replay in progress");
  assert!(world.ended);
}

#[test]
fn sending_time_defaults_to_nanosecond_precision() {
  let mut world = World::settled();
  world.command(Command::Send(order("order-1")));
  let received = world.received();
  assert_eq!(text(&received[0], fields::SENDING_TIME), "20240229-12:00:00.123456789");
}

#[test]
fn sending_time_precision_is_configurable() {
  let mut world =
    World::logged_on_at(1, |session| session.time_precision = TimePrecision::Millis);
  let received = world.received();
  assert_eq!(text(&received[0], fields::SENDING_TIME), "20240229-12:00:00.123");
}

#[test]
fn session_owns_the_sequence_and_identity_header_fields() {
  let mut world = World::settled();
  let mut msg = order("order-1");
  msg.header.set_tag(fields::SENDER_COMP_ID, "BOGUS");
  msg.header.set_tag(fields::TARGET_COMP_ID, "BOGUS");
  msg.header.set_tag(fields::MSG_SEQ_NUM, 999u32);
  msg.header.set_tag(fields::SENDING_TIME, "19700101-00:00:00.000");
  world.command(Command::Send(msg));
  let received = world.received();
  assert_eq!(text(&received[0], fields::SENDER_COMP_ID), "SERVER");
  assert_eq!(text(&received[0], fields::TARGET_COMP_ID), "CLIENT");
  assert_eq!(text(&received[0], fields::MSG_SEQ_NUM), "3");
  assert_eq!(text(&received[0], fields::SENDING_TIME), "20240229-12:00:00.123456789");
}

#[test]
fn a_sequence_gap_produces_exactly_one_resend_request() {
  let mut world = World::settled();
  world.peer_sends_at(5, "D", &[(CL_ORD_ID, "skipped-1")]);
  let received = world.received();
  assert_eq!(text(&received[0], fields::MSG_TYPE), "2");
  assert_eq!(text(&received[0], fields::BEGIN_SEQ_NO), "3");
  world.peer_sends_at(6, "D", &[(CL_ORD_ID, "skipped-2")]);
  assert!(world.received().is_empty());
  assert!(world.delivered().is_empty());

  world.peer_sends_at(3, "4", &[(fields::GAP_FILL_FLAG, "Y"), (fields::NEW_SEQ_NO, "7")]);
  world.peer_sends_at(7, "D", &[(CL_ORD_ID, "after-gap")]);
  assert_eq!(world.delivered(), ["after-gap"]);
}

#[test]
fn a_later_gap_produces_another_resend_request() {
  let mut world = World::settled();
  world.peer_sends_at(5, "D", &[(CL_ORD_ID, "first-gap")]);
  assert_eq!(types(&world.received()), ["2"]);
  world.peer_sends_at(3, "4", &[(fields::GAP_FILL_FLAG, "Y"), (fields::NEW_SEQ_NO, "6")]);
  world.received();
  world.peer_sends_at(11, "D", &[(CL_ORD_ID, "second-gap")]);
  let received = world.received();
  assert_eq!(types(&received), ["2"]);
  assert_eq!(text(&received[0], fields::BEGIN_SEQ_NO), "6");
}

#[test]
fn session_layer_messages_are_not_delivered_to_the_application() {
  let mut world = World::settled();
  world.peer_sends("3", &[(REF_SEQ_NUM, "1"), (fields::TEXT, "something was wrong")]);
  world.peer_sends("D", &[(CL_ORD_ID, "after-reject")]);
  assert_eq!(world.delivered(), ["after-reject"]);
}

#[test]
fn poss_resend_is_passed_through_to_the_application() {
  let mut world = World::settled();
  world.peer_sends("D", &[(POSS_RESEND, "Y"), (CL_ORD_ID, "maybe-seen-before")]);
  let events = world.take_events();
  let msg = events
    .iter()
    .find_map(|e| match e {
      SessionEvent::MessageReceived(msg) => Some(msg),
      _ => None,
    })
    .expect("expected an application message");
  assert_eq!(msg.header.tag(POSS_RESEND).unwrap().as_string(), "Y");
  assert_eq!(msg.body.tag(CL_ORD_ID).unwrap().as_string(), "maybe-seen-before");
}

#[test]
fn the_raw_message_is_reported_before_the_parsed_one() {
  let mut world = World::settled();
  world.peer_sends("D", &[(CL_ORD_ID, "order-1")]);
  let events = world.take_events();
  assert!(matches!(&events[0], SessionEvent::RawMessageReceived(m, _) if m.get_type() == "D"));
  assert!(matches!(&events[1], SessionEvent::SessionState(s) if s.next_in_seq_num == 4));
  assert!(matches!(&events[2], SessionEvent::MessageReceived(_)));
}

#[test]
fn nothing_is_due_before_the_deadline() {
  let mut world = World::settled();
  let deadline = world.state.next_deadline().unwrap();
  world.now = Instant::from_nanos(deadline.as_nanos() - 1);
  assert_eq!(world.input(Input::Deadline).unwrap(), Progress::Continue);
  assert!(!world.out.has_bytes());
  world.now = deadline;
  assert_eq!(world.input(Input::Deadline).unwrap(), Progress::Continue);
  assert_eq!(types(&world.received()), ["0"]);
}

// ---------------------------------------------------------------------------
// Endpoints
// ---------------------------------------------------------------------------

#[test]
fn the_defaults_of_an_endpoint() {
  let config = EndpointConfig::default();
  assert_eq!(config.delimiter, None);
  assert_eq!(config.logon_timeout, Duration::from_secs(30));
  assert_eq!(config.connect_timeout, Duration::from_secs(10));
  let ladder: Vec<Duration> =
    [10, 100, 1000, 5000, 5000].into_iter().map(Duration::from_millis).collect();
  assert_eq!(config.backoff, ladder);
  assert_eq!(config.channel_depth, 100);

  let config = config
    .delimiter(b'|')
    .logon_timeout(Duration::from_millis(50))
    .connect_timeout(Duration::from_millis(60))
    .backoff(vec![Duration::from_millis(7)])
    .channel_depth(3);
  assert_eq!(config.delimiter, Some(b'|'));
  assert_eq!(config.logon_timeout, Duration::from_millis(50));
  assert_eq!(config.connect_timeout, Duration::from_millis(60));
  assert_eq!(config.backoff, [Duration::from_millis(7)]);
  assert_eq!(config.channel_depth, 3);
}

#[test]
fn connecting_to_nothing_is_an_error() {
  assert_eq!(
    ConnectPlan::new(0).err().unwrap().to_string(),
    "Connection failed: no endpoints to connect to"
  );
}

#[test]
fn the_ladder_restarts_for_each_host_and_the_hosts_are_cycled() {
  let ladder = vec![Duration::from_millis(10), Duration::from_millis(100)];
  let mut plan = ConnectPlan::new(2).unwrap();
  let tried: Vec<(usize, Duration)> = (0..6)
    .map(|_| plan.next_attempt(&ladder).unwrap())
    .map(|a| (a.host, a.backoff))
    .collect();
  let (short, long) = (ladder[0], ladder[1]);
  assert_eq!(tried, [(0, short), (0, long), (1, short), (1, long), (0, short), (0, long)]);
  assert!(ConnectPlan::new(2).unwrap().next_attempt(&Vec::new()).is_none());
}

fn refused(first: FirstFrame) -> (String, bool) {
  let mut handshake =
    AcceptorHandshake::new(Duration::from_secs(30), Instant::from_nanos(1_000_000_000));
  let refusal = welcome(&mut handshake, first).err().expect("should be refused");
  assert!(handshake.session_id().is_none());
  (refusal.error.to_string(), refusal.report_invalid)
}

#[test]
fn peer_that_sends_nothing_is_reported_as_invalid() {
  let said = "Connection failed: Connection closed before first message".to_string();
  assert_eq!(refused(FirstFrame::Closed), (said, true));
}

#[test]
fn first_message_that_is_not_a_logon_is_refused() {
  let frame = on_the_wire(&repo(), peer_message("D", 1, &[(CL_ORD_ID, "not-a-logon")]));
  let (error, reported) = refused(FirstFrame::Frame(frame));
  assert!(error.starts_with("Protocol violation: First message was not a logon"), "{error}");
  assert!(reported);
}

#[test]
fn a_silent_or_unreadable_peer_is_dropped() {
  let late = FirstFrame::TimedOut("Logon exchange timed out after 30s".to_string());
  let said = "Connection failed: Logon exchange timed out after 30s".to_string();
  assert_eq!(refused(late), (said, false));
  let said = "Connection failed: Failed to read first message: reset".to_string();
  assert_eq!(refused(FirstFrame::Failed("reset".to_string())), (said, false));
  assert_eq!(chan_closed().to_string(), "Connection failed: session channel closed");
}
