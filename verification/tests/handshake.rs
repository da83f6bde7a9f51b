//! The logon exchange, with no socket and no runtime.
//!
//! These pin down the part that is genuinely protocol rather than transport:
//! the two roles' orderings, and what happens to a peer that opens with
//! something other than a Logon.

use std::sync::Arc;

use babelfix::builder::Message;
use babelfix::clock::{Duration, Instant};
use babelfix::codec::stamp_sending_time;
use babelfix::repository::{FixRepository, FixVersion};
use babelfix::schema::fields;
use babelfix::session::{
  AcceptorHandshake, Event, InitiatorHandshake, Progress, Session,
  SessionIdentifier, SessionOutput,
};
use babelfix::time::{TimePrecision, UtcTime};
use babelfix::FixMessage;

/// FIX 4.4, as far as these tests speak it.
const FIX44: &str = r#"<?xml version="1.0" encoding="UTF-8"?>
<fixr:repository name="FIX.4.4" version="FIX.4.4">
<fixr:codeSets><fixr:codeSet name="SideCodeSet"><fixr:code name="Sell" value="2" sort="2"/><fixr:code name="Buy" value="1" sort="1"/></fixr:codeSet></fixr:codeSets>
<fixr:fields>
<fixr:field id="1" name="Account" type="String"/>
<fixr:field id="7" name="BeginSeqNo" type="SeqNum"/>
<fixr:field id="8" name="BeginString" type="String"/>
<fixr:field id="9" name="BodyLength" type="Length"/>
<fixr:field id="10" name="CheckSum" type="String"/>
<fixr:field id="11" name="ClOrdID" type="String"/>
<fixr:field id="12" name="Commission" type="Amt"/>
<fixr:field id="13" name="CommType" type="CommTypeCodeSet"/>
<fixr:field id="16" name="EndSeqNo" type="SeqNum"/>
<fixr:field id="34" name="MsgSeqNum" type="SeqNum"/>
<fixr:field id="35" name="MsgType" type="MsgTypeCodeSet"/>
<fixr:field id="36" name="NewSeqNo" type="SeqNum"/>
<fixr:field id="38" name="OrderQty" type="Qty"/>
<fixr:field id="40" name="OrdType" type="OrdTypeCodeSet"/>
<fixr:field id="43" name="PossDupFlag" type="PossDupFlagCodeSet"/>
<fixr:field id="44" name="Price" type="Price"/>
<fixr:field id="45" name="RefSeqNum" type="SeqNum"/>
<fixr:field id="49" name="SenderCompID" type="String"/>
<fixr:field id="50" name="SenderSubID" type="String"/>
<fixr:field id="52" name="SendingTime" type="UTCTimestamp"/>
<fixr:field id="54" name="Side" type="SideCodeSet"/>
<fixr:field id="55" name="Symbol" type="String"/>
<fixr:field id="56" name="TargetCompID" type="String"/>
<fixr:field id="58" name="Text" type="String"/>
<fixr:field id="78" name="NoAllocs" type="NumInGroup"/>
<fixr:field id="79" name="AllocAccount" type="String"/>
<fixr:field id="80" name="AllocQty" type="Qty"/>
<fixr:field id="95" name="RawDataLength" type="Length"/>
<fixr:field id="96" name="RawData" type="data"/>
<fixr:field id="97" name="PossResend" type="PossResendCodeSet"/>
<fixr:field id="98" name="EncryptMethod" type="EncryptMethodCodeSet"/>
<fixr:field id="108" name="HeartBtInt" type="int"/>
<fixr:field id="112" name="TestReqID" type="String"/>
<fixr:field id="114" name="LocateReqd" type="Boolean"/>
<fixr:field id="122" name="OrigSendingTime" type="UTCTimestamp"/>
<fixr:field id="123" name="GapFillFlag" type="GapFillFlagCodeSet"/>
<fixr:field id="373" name="SessionRejectReason" type="SessionRejectReasonCodeSet"/>
<fixr:field id="555" name="NoLegs" type="NumInGroup"/>
<fixr:field id="600" name="LegSymbol" type="String"/>
<fixr:field id="608" name="LegCFICode" type="String"/>
<fixr:field id="610" name="LegMaturityMonthYear" type="MonthYear"/>
</fixr:fields><fixr:components>
<fixr:component id="1024" name="StandardHeader" category="Common"><fixr:fieldRef id="8" presence="required"/><fixr:fieldRef id="9" presence="required"/><fixr:fieldRef id="35" presence="required"/><fixr:fieldRef id="49" presence="required"/><fixr:fieldRef id="56" presence="required"/><fixr:fieldRef id="34" presence="required"/><fixr:fieldRef id="50"/><fixr:fieldRef id="43"/><fixr:fieldRef id="97"/><fixr:fieldRef id="52" presence="required"/><fixr:fieldRef id="122"/></fixr:component>
<fixr:component id="1025" name="StandardTrailer" category="Common"><fixr:fieldRef id="10" presence="required"/></fixr:component>
<fixr:component id="1003" name="Instrument" category="Common"><fixr:fieldRef id="55"/></fixr:component>
<fixr:component id="1005" name="InstrumentLeg" category="Common"><fixr:fieldRef id="600"/><fixr:fieldRef id="608"/><fixr:fieldRef id="610"/></fixr:component>
<fixr:component id="1011" name="OrderQtyData" category="Common"><fixr:fieldRef id="38"/></fixr:component>
<fixr:component id="1000" name="CommissionData" category="Common"><fixr:fieldRef id="12"/><fixr:fieldRef id="13"/></fixr:component>
</fixr:components><fixr:groups>
<fixr:group id="2054" name="LegOrdGrp"><fixr:numInGroup id="555"/><fixr:componentRef id="1005"/></fixr:group>
<fixr:group id="2071" name="PreAllocGrp"><fixr:numInGroup id="78"/><fixr:fieldRef id="79"/><fixr:fieldRef id="80"/></fixr:group>
</fixr:groups><fixr:messages>
<fixr:message msgType="0" name="Heartbeat" category="Session"><fixr:structure><fixr:componentRef id="1024"/><fixr:fieldRef id="112"/><fixr:componentRef id="1025"/></fixr:structure></fixr:message>
<fixr:message msgType="1" name="TestRequest" category="Session"><fixr:structure><fixr:componentRef id="1024"/><fixr:fieldRef id="112" presence="required"/><fixr:componentRef id="1025"/></fixr:structure></fixr:message>
<fixr:message msgType="2" name="ResendRequest" category="Session"><fixr:structure><fixr:componentRef id="1024"/><fixr:fieldRef id="7" presence="required"/><fixr:fieldRef id="16" presence="required"/><fixr:componentRef id="1025"/></fixr:structure></fixr:message>
<fixr:message msgType="3" name="Reject" category="Session"><fixr:structure><fixr:componentRef id="1024"/><fixr:fieldRef id="45" presence="required"/><fixr:fieldRef id="373"/><fixr:fieldRef id="58"/><fixr:componentRef id="1025"/></fixr:structure></fixr:message>
<fixr:message msgType="4" name="SequenceReset" category="Session"><fixr:structure><fixr:componentRef id="1024"/><fixr:fieldRef id="123"/><fixr:fieldRef id="36" presence="required"/><fixr:componentRef id="1025"/></fixr:structure></fixr:message>
<fixr:message msgType="5" name="Logout" category="Session"><fixr:structure><fixr:componentRef id="1024"/><fixr:fieldRef id="58"/><fixr:componentRef id="1025"/></fixr:structure></fixr:message>
<fixr:message msgType="A" name="Logon" category="Session"><fixr:structure><fixr:componentRef id="1024"/><fixr:fieldRef id="98" presence="required"/><fixr:fieldRef id="108" presence="required"/><fixr:fieldRef id="95"/><fixr:fieldRef id="96"/><fixr:componentRef id="1025"/></fixr:structure></fixr:message>
<fixr:message msgType="D" name="NewOrderSingle" category="SingleGeneralOrderHandling"><fixr:structure><fixr:componentRef id="1024"/><fixr:fieldRef id="11" presence="required"/><fixr:groupRef id="2071"/><fixr:fieldRef id="1"/><fixr:componentRef id="1003"/><fixr:fieldRef id="54" presence="required"/><fixr:fieldRef id="114"/><fixr:componentRef id="1011"/><fixr:fieldRef id="40"/><fixr:fieldRef id="44"/><fixr:componentRef id="1000"/><fixr:fieldRef id="58"/><fixr:componentRef id="1025"/></fixr:structure></fixr:message>
<fixr:message msgType="AB" name="NewOrderMultileg" category="MultilegOrders"><fixr:structure><fixr:componentRef id="1024"/><fixr:fieldRef id="11" presence="required"/><fixr:fieldRef id="1"/><fixr:fieldRef id="54" presence="required"/><fixr:componentRef id="1003"/><fixr:groupRef id="2054"/><fixr:componentRef id="1011"/><fixr:fieldRef id="40"/><fixr:componentRef id="1025"/></fixr:structure></fixr:message>
</fixr:messages>
</fixr:repository>"#;

/// The latest version, as far as these tests speak it.
const FIX_LATEST: &str = r#"<?xml version="1.0" encoding="UTF-8"?>
<fixr:repository name="FIX.Latest" version="FIX.Latest_EP274">
<fixr:codeSets><fixr:codeSet name="SideCodeSet"><fixr:code name="Sell" value="2" sort="2"/><fixr:code name="Buy" value="1" sort="1"/></fixr:codeSet></fixr:codeSets>
<fixr:fields>
<fixr:field id="1" name="Account" type="String"/>
<fixr:field id="7" name="BeginSeqNo" type="SeqNum"/>
<fixr:field id="8" name="BeginString" type="String"/>
<fixr:field id="9" name="BodyLength" type="Length"/>
<fixr:field id="10" name="CheckSum" type="String"/>
<fixr:field id="11" name="ClOrdID" type="String"/>
<fixr:field id="12" name="Commission" type="Amt"/>
<fixr:field id="13" name="CommType" type="CommTypeCodeSet"/>
<fixr:field id="16" name="EndSeqNo" type="SeqNum"/>
<fixr:field id="34" name="MsgSeqNum" type="SeqNum"/>
<fixr:field id="35" name="MsgType" type="MsgTypeCodeSet"/>
<fixr:field id="36" name="NewSeqNo" type="SeqNum"/>
<fixr:field id="38" name="OrderQty" type="Qty"/>
<fixr:field id="40" name="OrdType" type="OrdTypeCodeSet"/>
<fixr:field id="43" name="PossDupFlag" type="PossDupFlagCodeSet"/>
<fixr:field id="44" name="Price" type="Price"/>
<fixr:field id="45" name="RefSeqNum" type="SeqNum"/>
<fixr:field id="49" name="SenderCompID" type="String"/>
<fixr:field id="50" name="SenderSubID" type="String"/>
<fixr:field id="52" name="SendingTime" type="UTCTimestamp"/>
<fixr:field id="54" name="Side" type="SideCodeSet"/>
<fixr:field id="55" name="Symbol" type="String"/>
<fixr:field id="56" name="TargetCompID" type="String"/>
<fixr:field id="58" name="Text" type="String"/>
<fixr:field id="78" name="NoAllocs" type="NumInGroup"/>
<fixr:field id="79" name="AllocAccount" type="String"/>
<fixr:field id="80" name="AllocQty" type="Qty"/>
<fixr:field id="95" name="RawDataLength" type="Length"/>
<fixr:field id="96" name="RawData" type="data"/>
<fixr:field id="97" name="PossResend" type="PossResendCodeSet"/>
<fixr:field id="98" name="EncryptMethod" type="EncryptMethodCodeSet"/>
<fixr:field id="108" name="HeartBtInt" type="int"/>
<fixr:field id="112" name="TestReqID" type="String"/>
<fixr:field id="114" name="LocateReqd" type="Boolean"/>
<fixr:field id="122" name="OrigSendingTime" type="UTCTimestamp"/>
<fixr:field id="123" name="GapFillFlag" type="GapFillFlagCodeSet"/>
<fixr:field id="373" name="SessionRejectReason" type="SessionRejectReasonCodeSet"/>
<fixr:field id="555" name="NoLegs" type="NumInGroup"/>
<fixr:field id="600" name="LegSymbol" type="String"/>
<fixr:field id="608" name="LegCFICode" type="String"/>
<fixr:field id="610" name="LegMaturityMonthYear" type="MonthYear"/>
<fixr:field id="1137" name="DefaultApplVerID" type="String"/>
</fixr:fields><fixr:components>
<fixr:component id="1024" name="StandardHeader" category="Common"><fixr:fieldRef id="8" presence="required"/><fixr:fieldRef id="9" presence="required"/><fixr:fieldRef id="35" presence="required"/><fixr:fieldRef id="49" presence="required"/><fixr:fieldRef id="56" presence="required"/><fixr:fieldRef id="34" presence="required"/><fixr:fieldRef id="50"/><fixr:fieldRef id="43"/><fixr:fieldRef id="97"/><fixr:fieldRef id="52" presence="required"/><fixr:fieldRef id="122"/></fixr:component>
<fixr:component id="1025" name="StandardTrailer" category="Common"><fixr:fieldRef id="10" presence="required"/></fixr:component>
<fixr:component id="1003" name="Instrument" category="Common"><fixr:fieldRef id="55"/></fixr:component>
<fixr:component id="1005" name="InstrumentLeg" category="Common"><fixr:fieldRef id="600"/><fixr:fieldRef id="608"/><fixr:fieldRef id="610"/></fixr:component>
<fixr:component id="1011" name="OrderQtyData" category="Common"><fixr:fieldRef id="38"/></fixr:component>
<fixr:component id="1000" name="CommissionData" category="Common"><fixr:fieldRef id="12"/><fixr:fieldRef id="13"/></fixr:component>
</fixr:components><fixr:groups>
<fixr:group id="2054" name="LegOrdGrp"><fixr:numInGroup id="555"/><fixr:componentRef id="1005"/></fixr:group>
<fixr:group id="2071" name="PreAllocGrp"><fixr:numInGroup id="78"/><fixr:fieldRef id="79"/><fixr:fieldRef id="80"/></fixr:group>
</fixr:groups><fixr:messages>
<fixr:message msgType="0" name="Heartbeat" category="Session"><fixr:structure><fixr:componentRef id="1024"/><fixr:fieldRef id="112"/><fixr:componentRef id="1025"/></fixr:structure></fixr:message>
<fixr:message msgType="1" name="TestRequest" category="Session"><fixr:structure><fixr:componentRef id="1024"/><fixr:fieldRef id="112" presence="required"/><fixr:componentRef id="1025"/></fixr:structure></fixr:message>
<fixr:message msgType="2" name="ResendRequest" category="Session"><fixr:structure><fixr:componentRef id="1024"/><fixr:fieldRef id="7" presence="required"/><fixr:fieldRef id="16" presence="required"/><fixr:componentRef id="1025"/></fixr:structure></fixr:message>
<fixr:message msgType="3" name="Reject" category="Session"><fixr:structure><fixr:componentRef id="1024"/><fixr:fieldRef id="45" presence="required"/><fixr:fieldRef id="373"/><fixr:fieldRef id="58"/><fixr:componentRef id="1025"/></fixr:structure></fixr:message>
<fixr:message msgType="4" name="SequenceReset" category="Session"><fixr:structure><fixr:componentRef id="1024"/><fixr:fieldRef id="123"/><fixr:fieldRef id="36" presence="required"/><fixr:componentRef id="1025"/></fixr:structure></fixr:message>
<fixr:message msgType="5" name="Logout" category="Session"><fixr:structure><fixr:componentRef id="1024"/><fixr:fieldRef id="58"/><fixr:componentRef id="1025"/></fixr:structure></fixr:message>
<fixr:message msgType="A" name="Logon" category="Session"><fixr:structure><fixr:componentRef id="1024"/><fixr:fieldRef id="98" presence="required"/><fixr:fieldRef id="108" presence="required"/><fixr:fieldRef id="95"/><fixr:fieldRef id="96"/><fixr:fieldRef id="1137" presence="required"/><fixr:componentRef id="1025"/></fixr:structure></fixr:message>
<fixr:message msgType="D" name="NewOrderSingle" category="SingleGeneralOrderHandling"><fixr:structure><fixr:componentRef id="1024"/><fixr:fieldRef id="11" presence="required"/><fixr:groupRef id="2071"/><fixr:fieldRef id="1"/><fixr:componentRef id="1003"/><fixr:fieldRef id="54" presence="required"/><fixr:fieldRef id="114"/><fixr:componentRef id="1011"/><fixr:fieldRef id="40"/><fixr:fieldRef id="44"/><fixr:componentRef id="1000"/><fixr:fieldRef id="58"/><fixr:componentRef id="1025"/></fixr:structure></fixr:message>
<fixr:message msgType="AB" name="NewOrderMultileg" category="MultilegOrders"><fixr:structure><fixr:componentRef id="1024"/><fixr:fieldRef id="11" presence="required"/><fixr:fieldRef id="1"/><fixr:fieldRef id="54" presence="required"/><fixr:componentRef id="1003"/><fixr:groupRef id="2054"/><fixr:componentRef id="1011"/><fixr:fieldRef id="40"/><fixr:componentRef id="1025"/></fixr:structure></fixr:message>
</fixr:messages>
</fixr:repository>"#;

fn repo() -> Arc<FixRepository> {
  let documents = vec![FIX44.as_bytes().to_vec(), FIX_LATEST.as_bytes().to_vec()];
  Arc::new(FixRepository::from_fix_orchestras(&documents).unwrap())
}

fn fix44() -> Arc<FixVersion> {
  repo().get_version("FIX.4.4").unwrap()
}

fn beginning() -> Instant {
  Instant::from_nanos(1_000_000_000_000)
}

/// A millisecond before `t`.
fn just_before(t: Instant) -> Instant {
  Instant::from_nanos(t.as_nanos() - 1_000_000)
}

fn logon_timeout() -> Duration {
  Duration::from_secs(30)
}

/// An owned trace of what the handshake emitted, in order.
#[derive(Default)]
struct Trace {
  events: Vec<String>,
  clock: u32,
}

impl SessionOutput for Trace {
  fn transmit(
    &mut self,
    msg: &mut FixMessage,
    _session: &Session,
  ) -> babelfix::Result<()> {
    self.clock += 1;
    let moment = UtcTime::from_timestamp(1_700_000_000, self.clock)
      .expect("valid timestamp");
    stamp_sending_time(msg, moment, TimePrecision::default())
  }

  fn event(&mut self, event: Event<'_>) -> babelfix::Result<()> {
    self.events.push(match event {
      Event::ConnectionEstablished => "ConnectionEstablished".into(),
      Event::RawMessageReceived(m, _) => {
        format!("RawMessageReceived({})", m.get_type())
      }
      Event::RawMessageSent(m, _) => {
        format!("RawMessageSent({})", m.get_type())
      }
      Event::SessionState(_) => "SessionState".into(),
      Event::MessageReceived(_) => "MessageReceived".into(),
      Event::RecoveryCompleted => "RecoveryCompleted".into(),
      Event::Disconnected => "Disconnected".into(),
      _ => "other".into(),
    });
    Ok(())
  }
}

fn session() -> Session {
  let mut s = Session::new(fix44());
  s.heartbeat_interval = Duration::from_secs(30);
  s
}

/// A frame as it would arrive from the peer named `from`, addressed to `to`.
fn frame(msg_type: &str, seq: u32, from: &str, to: &str) -> FixMessage {
  let mut msg = Message::new(fix44(), msg_type).unwrap();
  msg.header.set_tag(fields::MSG_SEQ_NUM, seq);
  msg.header.set_tag(fields::SENDER_COMP_ID, from);
  msg.header.set_tag(fields::TARGET_COMP_ID, to);
  msg
    .header
    .set_tag(fields::SENDING_TIME, "20231114-22:13:20.000000000");
  if msg_type == "A" {
    msg.body.set_tag(fields::HEART_BT_INT, "30");
    msg.body.set_tag(fields::ENCRYPT_METHOD, "0");
  }
  msg.as_message().unwrap()
}

fn id(us: &str, them: &str) -> SessionIdentifier {
  SessionIdentifier {
    begin_string: "FIX.4.4".into(),
    sender_comp_id: us.into(),
    target_comp_id: them.into(),
  }
}

/// An initiator knows who it is talking to, so it announces the session and
/// puts its Logon on the wire before anything arrives.
#[test]
fn an_initiator_opens_with_its_own_logon() {
  let mut out = Trace::default();
  let _hs = InitiatorHandshake::start(
    id("CLIENT", "SERVER"),
    session(),
    logon_timeout(),
    beginning(),
    &mut out,
  )
  .unwrap();

  assert_eq!(
    out.events,
    vec!["ConnectionEstablished", "RawMessageSent(A)"],
    "an initiator announces the session, then sends its Logon"
  );
}

/// An acceptor says nothing at all until the peer names a session. It cannot:
/// every session on the listening port shares it, so there is nothing yet to
/// attach an event to.
#[test]
fn an_acceptor_says_nothing_until_the_peer_identifies_itself() {
  let out = Trace::default();
  let mut hs = AcceptorHandshake::new(logon_timeout(), beginning());
  assert!(out.events.is_empty());

  // Note there is no output to pass: the signature says an acceptor cannot
  // emit anything at this point, because there is no session yet.
  let session_id = hs
    .identify(frame("A", 1, "CLIENT", "SERVER"))
    .unwrap()
    .clone();
  // Identity is expressed from our point of view: the peer's SenderCompID is
  // our TargetCompID.
  assert_eq!(session_id.sender_comp_id, "SERVER");
  assert_eq!(session_id.target_comp_id, "CLIENT");
  assert_eq!(session_id.begin_string, "FIX.4.4");

  assert!(
    out.events.is_empty(),
    "an acceptor emitted {:?} before it knew which session it was serving",
    out.events
  );
}

/// And once the application supplies the session, the ordering is fixed: the
/// session is announced, the Logon that opened it is reported, and only then
/// does the reply go out.
#[test]
fn an_acceptor_reports_the_logon_before_answering_it() {
  let mut out = Trace::default();
  let mut hs = AcceptorHandshake::new(logon_timeout(), beginning());
  hs.identify(frame("A", 1, "CLIENT", "SERVER")).unwrap();

  let established = hs.accept(session(), beginning(), &mut out).unwrap();
  assert_eq!(established.progress, Progress::Continue);

  assert_eq!(
    &out.events[..3],
    &[
      "ConnectionEstablished",
      "RawMessageReceived(A)",
      "RawMessageSent(A)",
    ],
    "an application persisting from these must see what arrived before what \
     it answered with"
  );
}

/// The peer's Logon is available for inspection between being told about it
/// and accepting it — which is where authentication belongs.
#[test]
fn the_peer_logon_is_available_before_accepting() {
  let mut hs = AcceptorHandshake::new(logon_timeout(), beginning());
  assert!(hs.peer_logon().is_none());

  hs.identify(frame("A", 1, "CLIENT", "SERVER")).unwrap();

  let logon = hs.peer_logon().expect("the Logon that named the session");
  assert_eq!(logon.fix_message.msg_type, "A");
  assert_eq!(
    logon.body.tag(fields::HEART_BT_INT).map(|v| v.as_string()),
    Some("30".to_string())
  );
}

/// A first frame that is not a Logon is refused before anything is derived
/// from it. Nothing is emitted, so no application ever hears about a session
/// that does not exist.
#[test]
fn a_first_frame_that_is_not_a_logon_is_refused_silently() {
  // Acceptor: nothing has been emitted, and nothing can be — there is no
  // output to emit into.
  let mut acceptor = AcceptorHandshake::new(logon_timeout(), beginning());
  let err = acceptor
    .identify(frame("0", 1, "CLIENT", "SERVER"))
    .err()
    .expect("a Heartbeat must not open a session");
  assert!(err.to_string().contains("not a logon"), "{}", err.to_string());
  assert!(acceptor.session_id().is_none());
  assert!(acceptor.peer_logon().is_none());

  // Initiator: the Logon it already sent is the only thing emitted.
  let mut out = Trace::default();
  let initiator = InitiatorHandshake::start(
    id("CLIENT", "SERVER"),
    session(),
    logon_timeout(),
    beginning(),
    &mut out,
  )
  .unwrap();
  let before = out.events.len();

  let err = initiator
    .on_peer_logon(frame("0", 1, "CLIENT", "SERVER"), beginning(), &mut out)
    .err()
    .expect("a Heartbeat must not complete the exchange");
  assert!(err.to_string().contains("not a logon"), "{}", err.to_string());
  assert_eq!(
    out.events.len(),
    before,
    "something was emitted for a frame that was never a Logon"
  );
}

/// A Logon whose sequence number is too low ends the session — but the state
/// still comes back, because the application has to be given the Logout that
/// explains why.
#[test]
fn a_session_refused_during_logon_still_comes_back() {
  let mut out = Trace::default();
  let mut hs = AcceptorHandshake::new(logon_timeout(), beginning());
  hs.identify(frame("A", 1, "CLIENT", "SERVER")).unwrap();

  // Expecting inbound 5; the peer opened at 1, so one side has lost state.
  let mut stale = session();
  stale.next_in_seq_num = 5;

  let established = hs.accept(stale, beginning(), &mut out).unwrap();
  assert_eq!(established.progress, Progress::Close);
  assert!(
    out.events.iter().any(|e| e == "RawMessageSent(5)"),
    "no Logout explaining the refusal: {:?}",
    out.events
  );
}

/// The exchange has a deadline of its own, independent of the heartbeats that
/// only start once a session exists.
#[test]
fn the_logon_deadline_is_enforced() {
  let start = beginning();
  let hs = AcceptorHandshake::new(logon_timeout(), start);

  assert_eq!(hs.deadline(), start.plus(logon_timeout()));
  assert!(
    hs.on_timeout(just_before(start.plus(logon_timeout())))
      .is_ok()
  );
  assert!(
    hs.on_timeout(start.plus(logon_timeout())).is_err(),
    "a peer that never completed the exchange was not given up on"
  );
}
