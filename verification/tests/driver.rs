//! Two FIX sessions talking to each other with no socket, no runtime and no
//! real time — just byte slices handed between two [`SessionDriver`]s.
//!
//! This is the shape a latency-sensitive application uses: it owns the file
//! descriptor, feeds whatever `read()` returned, and writes whatever the driver
//! leaves in its buffer.

use std::sync::Arc;

use babelfix::builder::Message;
use babelfix::clock::{Duration, Instant};
use babelfix::codec::FixDecoder;
use babelfix::driver::{
  AcceptorDriver, Clock, DriverConfig, InitiatorDriver, SessionDriver,
};
use babelfix::repository::{FixRepository, FixVersion};
use babelfix::schema::fields;
use babelfix::session::{
  Command, Event, EventSink, Progress, Session, SessionIdentifier, SessionState,
};
use babelfix::time::UtcTime;

const DELIM: u8 = b'|';
const CL_ORD_ID: u32 = 11;
const ORDER_QTY: u32 = 38;
const SIDE: u32 = 54;
const SYMBOL: u32 = 55;

/// FIX 4.4, as far as these tests speak it.
const FIX44: &str = r#"<?xml version="1.0" encoding="UTF-8"?>
<fixr:repository name="FIX.4.4" version="FIX.4.4">
<fixr:codeSets><fixr:codeSet name="SideCodeSet"><fixr:code name="Sell" value="2" sort="2"/><fixr:code name="Buy" value="1" sort="1"/></fixr:codeSet></fixr:codeSets>
<fixr:fields>
<fixr:field id="1" name="Account" type="String"/>
<fixr:field id="7" name="BeginSeqNo" type="SeqNum"/>
<fixr:field id="8" name="BeginString" type="String"/>
<fixr:field id="9" name="BodyLength" type="Length"/>
<fixr:field id="10" name="CheckSum" type="String"/>
<fixr:field id="11" name="ClOrdID" type="String"/>
<fixr:field id="12" name="Commission" type="Amt"/>
<fixr:field id="13" name="CommType" type="CommTypeCodeSet"/>
<fixr:field id="16" name="EndSeqNo" type="SeqNum"/>
<fixr:field id="34" name="MsgSeqNum" type="SeqNum"/>
<fixr:field id="35" name="MsgType" type="MsgTypeCodeSet"/>
<fixr:field id="36" name="NewSeqNo" type="SeqNum"/>
<fixr:field id="38" name="OrderQty" type="Qty"/>
<fixr:field id="40" name="OrdType" type="OrdTypeCodeSet"/>
<fixr:field id="43" name="PossDupFlag" type="PossDupFlagCodeSet"/>
<fixr:field id="44" name="Price" type="Price"/>
<fixr:field id="45" name="RefSeqNum" type="SeqNum"/>
<fixr:field id="49" name="SenderCompID" type="String"/>
<fixr:field id="50" name="SenderSubID" type="String"/>
<fixr:field id="52" name="SendingTime" type="UTCTimestamp"/>
<fixr:field id="54" name="Side" type="SideCodeSet"/>
<fixr:field id="55" name="Symbol" type="String"/>
<fixr:field id="56" name="TargetCompID" type="String"/>
<fixr:field id="58" name="Text" type="String"/>
<fixr:field id="78" name="NoAllocs" type="NumInGroup"/>
<fixr:field id="79" name="AllocAccount" type="String"/>
<fixr:field id="80" name="AllocQty" type="Qty"/>
<fixr:field id="95" name="RawDataLength" type="Length"/>
<fixr:field id="96" name="RawData" type="data"/>
<fixr:field id="97" name="PossResend" type="PossResendCodeSet"/>
<fixr:field id="98" name="EncryptMethod" type="EncryptMethodCodeSet"/>
<fixr:field id="108" name="HeartBtInt" type="int"/>
<fixr:field id="112" name="TestReqID" type="String"/>
<fixr:field id="114" name="LocateReqd" type="Boolean"/>
<fixr:field id="122" name="OrigSendingTime" type="UTCTimestamp"/>
<fixr:field id="123" name="GapFillFlag" type="GapFillFlagCodeSet"/>
<fixr:field id="373" name="SessionRejectReason" type="SessionRejectReasonCodeSet"/>
<fixr:field id="555" name="NoLegs" type="NumInGroup"/>
<fixr:field id="600" name="LegSymbol" type="String"/>
<fixr:field id="608" name="LegCFICode" type="String"/>
<fixr:field id="610" name="LegMaturityMonthYear" type="MonthYear"/>
</fixr:fields><fixr:components>
<fixr:component id="1024" name="StandardHeader" category="Common"><fixr:fieldRef id="8" presence="required"/><fixr:fieldRef id="9" presence="required"/><fixr:fieldRef id="35" presence="required"/><fixr:fieldRef id="49" presence="required"/><fixr:fieldRef id="56" presence="required"/><fixr:fieldRef id="34" presence="required"/><fixr:fieldRef id="50"/><fixr:fieldRef id="43"/><fixr:fieldRef id="97"/><fixr:fieldRef id="52" presence="required"/><fixr:fieldRef id="122"/></fixr:component>
<fixr:component id="1025" name="StandardTrailer" category="Common"><fixr:fieldRef id="10" presence="required"/></fixr:component>
<fixr:component id="1003" name="Instrument" category="Common"><fixr:fieldRef id="55"/></fixr:component>
<fixr:component id="1005" name="InstrumentLeg" category="Common"><fixr:fieldRef id="600"/><fixr:fieldRef id="608"/><fixr:fieldRef id="610"/></fixr:component>
<fixr:component id="1011" name="OrderQtyData" category="Common"><fixr:fieldRef id="38"/></fixr:component>
<fixr:component id="1000" name="CommissionData" category="Common"><fixr:fieldRef id="12"/><fixr:fieldRef id="13"/></fixr:component>
</fixr:components><fixr:groups>
<fixr:group id="2054" name="LegOrdGrp"><fixr:numInGroup id="555"/><fixr:componentRef id="1005"/></fixr:group>
<fixr:group id="2071" name="PreAllocGrp"><fixr:numInGroup id="78"/><fixr:fieldRef id="79"/><fixr:fieldRef id="80"/></fixr:group>
</fixr:groups><fixr:messages>
<fixr:message msgType="0" name="Heartbeat" category="Session"><fixr:structure><fixr:componentRef id="1024"/><fixr:fieldRef id="112"/><fixr:componentRef id="1025"/></fixr:structure></fixr:message>
<fixr:message msgType="1" name="TestRequest" category="Session"><fixr:structure><fixr:componentRef id="1024"/><fixr:fieldRef id="112" presence="required"/><fixr:componentRef id="1025"/></fixr:structure></fixr:message>
<fixr:message msgType="2" name="ResendRequest" category="Session"><fixr:structure><fixr:componentRef id="1024"/><fixr:fieldRef id="7" presence="required"/><fixr:fieldRef id="16" presence="required"/><fixr:componentRef id="1025"/></fixr:structure></fixr:message>
<fixr:message msgType="3" name="Reject" category="Session"><fixr:structure><fixr:componentRef id="1024"/><fixr:fieldRef id="45" presence="required"/><fixr:fieldRef id="373"/><fixr:fieldRef id="58"/><fixr:componentRef id="1025"/></fixr:structure></fixr:message>
<fixr:message msgType="4" name="SequenceReset" category="Session"><fixr:structure><fixr:componentRef id="1024"/><fixr:fieldRef id="123"/><fixr:fieldRef id="36" presence="required"/><fixr:componentRef id="1025"/></fixr:structure></fixr:message>
<fixr:message msgType="5" name="Logout" category="Session"><fixr:structure><fixr:componentRef id="1024"/><fixr:fieldRef id="58"/><fixr:componentRef id="1025"/></fixr:structure></fixr:message>
<fixr:message msgType="A" name="Logon" category="Session"><fixr:structure><fixr:componentRef id="1024"/><fixr:fieldRef id="98" presence="required"/><fixr:fieldRef id="108" presence="required"/><fixr:fieldRef id="95"/><fixr:fieldRef id="96"/><fixr:componentRef id="1025"/></fixr:structure></fixr:message>
<fixr:message msgType="D" name="NewOrderSingle" category="SingleGeneralOrderHandling"><fixr:structure><fixr:componentRef id="1024"/><fixr:fieldRef id="11" presence="required"/><fixr:groupRef id="2071"/><fixr:fieldRef id="1"/><fixr:componentRef id="1003"/><fixr:fieldRef id="54" presence="required"/><fixr:fieldRef id="114"/><fixr:componentRef id="1011"/><fixr:fieldRef id="40"/><fixr:fieldRef id="44"/><fixr:componentRef id="1000"/><fixr:fieldRef id="58"/><fixr:componentRef id="1025"/></fixr:structure></fixr:message>
<fixr:message msgType="AB" name="NewOrderMultileg" category="MultilegOrders"><fixr:structure><fixr:componentRef id="1024"/><fixr:fieldRef id="11" presence="required"/><fixr:fieldRef id="1"/><fixr:fieldRef id="54" presence="required"/><fixr:componentRef id="1003"/><fixr:groupRef id="2054"/><fixr:componentRef id="1011"/><fixr:fieldRef id="40"/><fixr:componentRef id="1025"/></fixr:structure></fixr:message>
</fixr:messages>
</fixr:repository>"#;

/// The latest version, as far as these tests speak it.
const FIX_LATEST: &str = r#"<?xml version="1.0" encoding="UTF-8"?>
<fixr:repository name="FIX.Latest" version="FIX.Latest_EP274">
<fixr:codeSets><fixr:codeSet name="SideCodeSet"><fixr:code name="Sell" value="2" sort="2"/><fixr:code name="Buy" value="1" sort="1"/></fixr:codeSet></fixr:codeSets>
<fixr:fields>
<fixr:field id="1" name="Account" type="String"/>
<fixr:field id="7" name="BeginSeqNo" type="SeqNum"/>
<fixr:field id="8" name="BeginString" type="String"/>
<fixr:field id="9" name="BodyLength" type="Length"/>
<fixr:field id="10" name="CheckSum" type="String"/>
<fixr:field id="11" name="ClOrdID" type="String"/>
<fixr:field id="12" name="Commission" type="Amt"/>
<fixr:field id="13" name="CommType" type="CommTypeCodeSet"/>
<fixr:field id="16" name="EndSeqNo" type="SeqNum"/>
<fixr:field id="34" name="MsgSeqNum" type="SeqNum"/>
<fixr:field id="35" name="MsgType" type="MsgTypeCodeSet"/>
<fixr:field id="36" name="NewSeqNo" type="SeqNum"/>
<fixr:field id="38" name="OrderQty" type="Qty"/>
<fixr:field id="40" name="OrdType" type="OrdTypeCodeSet"/>
<fixr:field id="43" name="PossDupFlag" type="PossDupFlagCodeSet"/>
<fixr:field id="44" name="Price" type="Price"/>
<fixr:field id="45" name="RefSeqNum" type="SeqNum"/>
<fixr:field id="49" name="SenderCompID" type="String"/>
<fixr:field id="50" name="SenderSubID" type="String"/>
<fixr:field id="52" name="SendingTime" type="UTCTimestamp"/>
<fixr:field id="54" name="Side" type="SideCodeSet"/>
<fixr:field id="55" name="Symbol" type="String"/>
<fixr:field id="56" name="TargetCompID" type="String"/>
<fixr:field id="58" name="Text" type="String"/>
<fixr:field id="78" name="NoAllocs" type="NumInGroup"/>
<fixr:field id="79" name="AllocAccount" type="String"/>
<fixr:field id="80" name="AllocQty" type="Qty"/>
<fixr:field id="95" name="RawDataLength" type="Length"/>
<fixr:field id="96" name="RawData" type="data"/>
<fixr:field id="97" name="PossResend" type="PossResendCodeSet"/>
<fixr:field id="98" name="EncryptMethod" type="EncryptMethodCodeSet"/>
<fixr:field id="108" name="HeartBtInt" type="int"/>
<fixr:field id="112" name="TestReqID" type="String"/>
<fixr:field id="114" name="LocateReqd" type="Boolean"/>
<fixr:field id="122" name="OrigSendingTime" type="UTCTimestamp"/>
<fixr:field id="123" name="GapFillFlag" type="GapFillFlagCodeSet"/>
<fixr:field id="373" name="SessionRejectReason" type="SessionRejectReasonCodeSet"/>
<fixr:field id="555" name="NoLegs" type="NumInGroup"/>
<fixr:field id="600" name="LegSymbol" type="String"/>
<fixr:field id="608" name="LegCFICode" type="String"/>
<fixr:field id="610" name="LegMaturityMonthYear" type="MonthYear"/>
<fixr:field id="1137" name="DefaultApplVerID" type="String"/>
</fixr:fields><fixr:components>
<fixr:component id="1024" name="StandardHeader" category="Common"><fixr:fieldRef id="8" presence="required"/><fixr:fieldRef id="9" presence="required"/><fixr:fieldRef id="35" presence="required"/><fixr:fieldRef id="49" presence="required"/><fixr:fieldRef id="56" presence="required"/><fixr:fieldRef id="34" presence="required"/><fixr:fieldRef id="50"/><fixr:fieldRef id="43"/><fixr:fieldRef id="97"/><fixr:fieldRef id="52" presence="required"/><fixr:fieldRef id="122"/></fixr:component>
<fixr:component id="1025" name="StandardTrailer" category="Common"><fixr:fieldRef id="10" presence="required"/></fixr:component>
<fixr:component id="1003" name="Instrument" category="Common"><fixr:fieldRef id="55"/></fixr:component>
<fixr:component id="1005" name="InstrumentLeg" category="Common"><fixr:fieldRef id="600"/><fixr:fieldRef id="608"/><fixr:fieldRef id="610"/></fixr:component>
<fixr:component id="1011" name="OrderQtyData" category="Common"><fixr:fieldRef id="38"/></fixr:component>
<fixr:component id="1000" name="CommissionData" category="Common"><fixr:fieldRef id="12"/><fixr:fieldRef id="13"/></fixr:component>
</fixr:components><fixr:groups>
<fixr:group id="2054" name="LegOrdGrp"><fixr:numInGroup id="555"/><fixr:componentRef id="1005"/></fixr:group>
<fixr:group id="2071" name="PreAllocGrp"><fixr:numInGroup id="78"/><fixr:fieldRef id="79"/><fixr:fieldRef id="80"/></fixr:group>
</fixr:groups><fixr:messages>
<fixr:message msgType="0" name="Heartbeat" category="Session"><fixr:structure><fixr:componentRef id="1024"/><fixr:fieldRef id="112"/><fixr:componentRef id="1025"/></fixr:structure></fixr:message>
<fixr:message msgType="1" name="TestRequest" category="Session"><fixr:structure><fixr:componentRef id="1024"/><fixr:fieldRef id="112" presence="required"/><fixr:componentRef id="1025"/></fixr:structure></fixr:message>
<fixr:message msgType="2" name="ResendRequest" category="Session"><fixr:structure><fixr:componentRef id="1024"/><fixr:fieldRef id="7" presence="required"/><fixr:fieldRef id="16" presence="required"/><fixr:componentRef id="1025"/></fixr:structure></fixr:message>
<fixr:message msgType="3" name="Reject" category="Session"><fixr:structure><fixr:componentRef id="1024"/><fixr:fieldRef id="45" presence="required"/><fixr:fieldRef id="373"/><fixr:fieldRef id="58"/><fixr:componentRef id="1025"/></fixr:structure></fixr:message>
<fixr:message msgType="4" name="SequenceReset" category="Session"><fixr:structure><fixr:componentRef id="1024"/><fixr:fieldRef id="123"/><fixr:fieldRef id="36" presence="required"/><fixr:componentRef id="1025"/></fixr:structure></fixr:message>
<fixr:message msgType="5" name="Logout" category="Session"><fixr:structure><fixr:componentRef id="1024"/><fixr:fieldRef id="58"/><fixr:componentRef id="1025"/></fixr:structure></fixr:message>
<fixr:message msgType="A" name="Logon" category="Session"><fixr:structure><fixr:componentRef id="1024"/><fixr:fieldRef id="98" presence="required"/><fixr:fieldRef id="108" presence="required"/><fixr:fieldRef id="95"/><fixr:fieldRef id="96"/><fixr:fieldRef id="1137" presence="required"/><fixr:componentRef id="1025"/></fixr:structure></fixr:message>
<fixr:message msgType="D" name="NewOrderSingle" category="SingleGeneralOrderHandling"><fixr:structure><fixr:componentRef id="1024"/><fixr:fieldRef id="11" presence="required"/><fixr:groupRef id="2071"/><fixr:fieldRef id="1"/><fixr:componentRef id="1003"/><fixr:fieldRef id="54" presence="required"/><fixr:fieldRef id="114"/><fixr:componentRef id="1011"/><fixr:fieldRef id="40"/><fixr:fieldRef id="44"/><fixr:componentRef id="1000"/><fixr:fieldRef id="58"/><fixr:componentRef id="1025"/></fixr:structure></fixr:message>
<fixr:message msgType="AB" name="NewOrderMultileg" category="MultilegOrders"><fixr:structure><fixr:componentRef id="1024"/><fixr:fieldRef id="11" presence="required"/><fixr:fieldRef id="1"/><fixr:fieldRef id="54" presence="required"/><fixr:componentRef id="1003"/><fixr:groupRef id="2054"/><fixr:componentRef id="1011"/><fixr:fieldRef id="40"/><fixr:componentRef id="1025"/></fixr:structure></fixr:message>
</fixr:messages>
</fixr:repository>"#;

fn repo() -> Arc<FixRepository> {
  let documents = vec![FIX44.as_bytes().to_vec(), FIX_LATEST.as_bytes().to_vec()];
  Arc::new(FixRepository::from_fix_orchestras(&documents).unwrap())
}

fn fix44() -> Arc<FixVersion> {
  repo().get_version("FIX.4.4").unwrap()
}

fn beginning() -> Instant {
  Instant::from_nanos(1_000_000_000_000)
}

/// A millisecond before `t`.
fn just_before(t: Instant) -> Instant {
  Instant::from_nanos(t.as_nanos() - 1_000_000)
}

fn heartbeat() -> Duration {
  Duration::from_secs(30)
}

/// A clock that stands still. Real drivers read the system's; a test wants
/// determinism.
struct FixedClock;

impl Clock for FixedClock {
  fn now(&self) -> UtcTime {
    UtcTime::from_timestamp(1_700_000_000, 0).unwrap()
  }
}

/// Collects the message types delivered to the application.
#[derive(Default)]
struct Seen {
  app_messages: Vec<String>,
  recovery_completed: bool,
  resend_requested: Option<(u32, u32)>,
}

impl Seen {
  /// A sink that records into `self`.
  fn sink(&mut self) -> Sink<'_> {
    Sink { seen: self }
  }
}

struct Sink<'a> {
  seen: &'a mut Seen,
}

impl EventSink for Sink<'_> {
  fn event(&mut self, event: Event<'_>) -> babelfix::Result<()> {
    match event {
      Event::MessageReceived(msg) => {
        self.seen.app_messages.push(
          msg
            .body
            .tag(CL_ORD_ID)
            .map(|v| v.as_string())
            .unwrap_or_default(),
        );
      }
      Event::RecoveryCompleted => self.seen.recovery_completed = true,
      Event::ResendRequest {
        begin_seq_no,
        end_seq_no,
        ..
      } => self.seen.resend_requested = Some((begin_seq_no, end_seq_no)),
      _ => {}
    }
    Ok(())
  }
}

fn logon_message() -> Message {
  let mut msg = Message::new(fix44(), "A").unwrap();
  msg.body.set_tag(fields::HEART_BT_INT, "30");
  msg.body.set_tag(fields::ENCRYPT_METHOD, "0");
  msg
}

fn order(cl_ord_id: &str) -> Message {
  let mut msg = Message::new(fix44(), "D").unwrap();
  msg.body.set_tag(CL_ORD_ID, cl_ord_id);
  msg.body.set_tag(SYMBOL, "AAPL");
  msg.body.set_tag(SIDE, "1");
  msg.body.set_tag(ORDER_QTY, 100i64);
  msg
}

fn driver(us: &str, them: &str) -> SessionDriver<FixedClock> {
  let session_id = SessionIdentifier {
    begin_string: "FIX.4.4".into(),
    sender_comp_id: us.into(),
    target_comp_id: them.into(),
  };
  let mut session = Session::new(fix44());
  session.heartbeat_interval = heartbeat();
  let state = SessionState::new(session_id, session, beginning());
  SessionDriver::new(state, repo(), Some(DELIM), FixedClock)
}

/// Take everything a driver has queued for the wire.
fn take_wire(d: &mut SessionDriver<FixedClock>) -> Vec<u8> {
  let buf = d.pending_writes();
  let bytes = buf.to_vec();
  buf.clear();
  bytes
}

/// Decode exactly one message off the front of `bytes`, returning it and the
/// remainder. Stands in for the part of the handshake that still lives outside
/// the state machine: reading the first frame to learn who the peer is.
fn split_one(bytes: &[u8]) -> (Message, Vec<u8>) {
  let mut decoder = FixDecoder::new(repo(), Some(DELIM));
  let mut buf = bytes::BytesMut::from(bytes);
  let msg = decoder
    .decode(&mut buf)
    .expect("decodes")
    .expect("a complete message");
  (Message::from_message(&msg).unwrap(), buf.to_vec())
}

/// Two logged-on drivers, plus the instant they started.
fn established() -> (SessionDriver<FixedClock>, SessionDriver<FixedClock>, Instant) {
  let now = beginning();
  let mut initiator = driver("CLIENT", "SERVER");
  let mut acceptor = driver("SERVER", "CLIENT");
  let mut ignore = ();

  // Initiator opens with a Logon.
  initiator.send_logon(logon_message(), &mut ignore).0.unwrap();
  let wire = take_wire(&mut initiator);

  // The acceptor reads that first frame to learn who is calling, answers with
  // its own Logon, then hands the peer's Logon to the session.
  let (logon_from_client, rest) = split_one(&wire);
  assert!(rest.is_empty());
  acceptor.send_logon(logon_message(), &mut ignore).0.unwrap();
  let progress = acceptor.start(logon_from_client, now, &mut ignore).0.unwrap();
  assert_eq!(progress, Progress::Continue);

  // The initiator does the mirror image: the acceptor's Logon starts its
  // session, and everything after it is ordinary traffic.
  let wire = take_wire(&mut acceptor);
  let (logon_from_server, rest) = split_one(&wire);
  let progress = initiator
    .start(logon_from_server, now, &mut ignore)
    .0
    .unwrap();
  assert_eq!(progress, Progress::Continue);
  let _ = initiator.on_bytes(now, &rest, &mut ignore).0.unwrap();

  (initiator, acceptor, now)
}

/// Hand everything `from` has queued to `to`, and return what `to` says.
fn pump(
  from: &mut SessionDriver<FixedClock>,
  to: &mut SessionDriver<FixedClock>,
  now: Instant,
  seen: &mut Seen,
) {
  let wire = take_wire(from);
  let mut sink = seen.sink();
  let _ = to.on_bytes(now, &wire, &mut sink).0.unwrap();
}

#[test]
fn two_drivers_complete_a_logon_exchange() {
  let (mut initiator, mut acceptor, now) = established();
  let mut seen = Seen::default();

  // Each side answers the other's synchronisation TestRequest, which is what
  // marks recovery complete.
  pump(&mut initiator, &mut acceptor, now, &mut seen);
  pump(&mut acceptor, &mut initiator, now, &mut seen);

  assert!(
    seen.recovery_completed,
    "neither side reported recovery complete"
  );
  // Both ends have consumed the same stream, so their views must agree, and
  // both must be past the Logon and the synchronisation TestRequest.
  assert_eq!(
    initiator.session().next_in_seq_num,
    acceptor.session().next_in_seq_num,
    "the two sides disagree about how far the conversation got"
  );
  assert!(initiator.session().next_in_seq_num > 2);
}

#[test]
fn an_application_message_crosses_with_no_socket_involved() {
  let (mut initiator, mut acceptor, now) = established();
  let mut seen = Seen::default();
  pump(&mut initiator, &mut acceptor, now, &mut seen);
  pump(&mut acceptor, &mut initiator, now, &mut seen);
  take_wire(&mut initiator);
  take_wire(&mut acceptor);
  seen.app_messages.clear();

  let mut sink = seen.sink();
  let _ = initiator
    .on_command(now, Command::Send(order("order-1")), &mut sink)
    .0
    .unwrap();
  drop(sink);

  assert!(
    initiator.has_pending_writes(),
    "the order was not queued for the wire"
  );
  pump(&mut initiator, &mut acceptor, now, &mut seen);

  assert_eq!(seen.app_messages, vec!["order-1"]);
}

/// Bytes arriving split across reads must frame correctly — the driver holds a
/// partial message until the rest turns up. A real socket does this constantly.
#[test]
fn a_message_split_across_reads_is_reassembled() {
  let (mut initiator, mut acceptor, now) = established();
  let mut seen = Seen::default();
  pump(&mut initiator, &mut acceptor, now, &mut seen);
  pump(&mut acceptor, &mut initiator, now, &mut seen);
  take_wire(&mut initiator);
  take_wire(&mut acceptor);
  seen.app_messages.clear();

  let mut sink = seen.sink();
  let _ = initiator
    .on_command(now, Command::Send(order("order-1")), &mut sink)
    .0
    .unwrap();
  drop(sink);
  let wire = take_wire(&mut initiator);

  // Deliver it a byte at a time.
  for byte in &wire {
    let mut sink = seen.sink();
    let _ = acceptor
      .on_bytes(now, std::slice::from_ref(byte), &mut sink)
      .0
      .unwrap();
  }

  assert_eq!(seen.app_messages, vec!["order-1"]);
}

/// However the stream is cut into reads, what goes back is the same.
#[test]
fn how_reads_are_cut_does_not_show() {
  let run = |cut: usize| {
    let (mut initiator, mut acceptor, now) = established();
    let mut seen = Seen::default();
    pump(&mut initiator, &mut acceptor, now, &mut seen);
    take_wire(&mut acceptor);
    let mut ignore = ();
    for id in ["order-1", "order-2"] {
      let _ = initiator
        .on_command(now, Command::Send(order(id)), &mut ignore)
        .0
        .unwrap();
    }
    let mut probe = Message::new(fix44(), "1").unwrap();
    probe.body.set_tag(babelfix::schema::fields::TEST_REQ_ID, "PING");
    let _ = initiator
      .on_command(now, Command::Send(probe), &mut ignore)
      .0
      .unwrap();
    let wire = take_wire(&mut initiator);
    let cut = cut.min(wire.len());
    for part in [&wire[..cut], &wire[cut..]] {
      let mut sink = seen.sink();
      let _ = acceptor.on_bytes(now, part, &mut sink).0.unwrap();
    }
    (take_wire(&mut acceptor), seen.app_messages)
  };
  let (written, delivered) = run(0);
  assert!(!written.is_empty());
  assert_eq!(delivered, vec!["order-1", "order-2"]);
  for cut in [1, 50, 120, 170, 250] {
    assert_eq!(run(cut), (written.clone(), delivered.clone()), "cut at {cut}");
  }
}

/// A sink that is handed over comes back with what it was told: each event once.
#[test]
fn a_sink_comes_back_with_what_it_was_told() {
  struct Kept(Vec<&'static str>);
  impl EventSink for Kept {
    fn event(&mut self, event: Event<'_>) -> babelfix::Result<()> {
      self.0.push(match event {
        Event::Disconnected => "disconnected",
        Event::SessionState(_) => "state",
        Event::MessageReceived(_) => "message",
        Event::RawMessageReceived(_, _) => "received",
        _ => "other",
      });
      Ok(())
    }
  }
  let (mut initiator, mut acceptor, now) = established();
  let mut seen = Seen::default();
  pump(&mut initiator, &mut acceptor, now, &mut seen);
  let mut ignore = ();
  let _ = initiator
    .on_command(now, Command::Send(order("order-1")), &mut ignore)
    .0
    .unwrap();
  let wire = take_wire(&mut initiator);
  let (progress, sink) = acceptor.on_bytes(now, &wire, Kept(Vec::new()));
  assert_eq!(progress.unwrap(), Progress::Continue);
  assert_eq!(sink.0, ["received", "state", "message"]);
  let (progress, sink) = acceptor.on_peer_closed(sink);
  assert!(progress.unwrap().is_close());
  assert_eq!(sink.0, ["received", "state", "message", "disconnected"]);
}

/// Several messages arriving in one read are all delivered, in order.
#[test]
fn a_batched_read_delivers_every_message() {
  let (mut initiator, mut acceptor, now) = established();
  let mut seen = Seen::default();
  pump(&mut initiator, &mut acceptor, now, &mut seen);
  pump(&mut acceptor, &mut initiator, now, &mut seen);
  take_wire(&mut initiator);
  take_wire(&mut acceptor);
  seen.app_messages.clear();

  for i in 1..=3 {
    let mut sink = seen.sink();
    let _ = initiator
      .on_command(now, Command::Send(order(&format!("order-{i}"))), &mut sink)
      .0
      .unwrap();
  }

  // One write, one read, three messages.
  pump(&mut initiator, &mut acceptor, now, &mut seen);
  assert_eq!(seen.app_messages, vec!["order-1", "order-2", "order-3"]);
}

/// A gap provokes a ResendRequest that the peer actually sees.
#[test]
fn a_dropped_message_is_detected_across_the_pair() {
  let (mut initiator, mut acceptor, now) = established();
  let mut seen = Seen::default();
  pump(&mut initiator, &mut acceptor, now, &mut seen);
  pump(&mut acceptor, &mut initiator, now, &mut seen);
  take_wire(&mut initiator);
  take_wire(&mut acceptor);

  // Send two orders but deliver only the second, so one sequence number is
  // missing from the acceptor's point of view.
  let mut sink = seen.sink();
  let _ = initiator
    .on_command(now, Command::Send(order("order-1")), &mut sink)
    .0
    .unwrap();
  drop(sink);
  let _dropped = take_wire(&mut initiator);

  let mut sink = seen.sink();
  let _ = initiator
    .on_command(now, Command::Send(order("order-2")), &mut sink)
    .0
    .unwrap();
  drop(sink);

  // Whatever the acceptor expects next is what it should ask to have resent.
  let expected_begin = acceptor.session().next_in_seq_num;
  pump(&mut initiator, &mut acceptor, now, &mut seen);

  // The acceptor discards the out-of-sequence message and asks for the gap.
  assert!(seen.app_messages.is_empty());
  assert!(
    acceptor.has_pending_writes(),
    "no ResendRequest was queued for the gap"
  );

  // And the initiator recognises it as a resend request.
  pump(&mut acceptor, &mut initiator, now, &mut seen);
  let (begin, end) = seen.resend_requested.expect("no ResendRequest event");
  assert_eq!(
    begin, expected_begin,
    "resend began at the wrong sequence number"
  );
  assert!(end >= begin, "resend range is inverted: {begin}..={end}");
}

/// The driver reports when it next needs attention, and produces a heartbeat
/// when that moment arrives — with no timer anywhere in sight.
#[test]
fn heartbeats_come_from_on_tick_alone() {
  let (mut initiator, mut acceptor, now) = established();
  let mut seen = Seen::default();
  pump(&mut initiator, &mut acceptor, now, &mut seen);
  pump(&mut acceptor, &mut initiator, now, &mut seen);
  take_wire(&mut initiator);

  let deadline = initiator.next_deadline().expect("a live session has one");
  assert!(deadline > now, "a deadline already in the past");

  // Nothing fires early, however often you ask.
  let mut sink = seen.sink();
  let _ = initiator
    .on_tick(just_before(deadline), &mut sink)
    .0
    .unwrap();
  drop(sink);
  assert!(
    !initiator.has_pending_writes(),
    "something fired before its deadline"
  );

  // Past a full interval the outbound heartbeat is certainly due. The exact
  // deadline above may belong to the *inbound* timer, which only counts a
  // missed beat and sends nothing.
  let mut sink = seen.sink();
  let _ = initiator.on_tick(now.plus(Duration::from_secs(60)), &mut sink).0.unwrap();
  drop(sink);
  assert!(
    initiator.has_pending_writes(),
    "no heartbeat after two intervals of silence"
  );

  // And the peer accepts it as an ordinary in-sequence message.
  pump(&mut initiator, &mut acceptor, now, &mut seen);
  assert!(
    seen.app_messages.is_empty(),
    "a heartbeat reached the application"
  );
}

fn session() -> Session {
  let mut session = Session::new(fix44());
  session.heartbeat_interval = heartbeat();
  session
}

fn id(us: &str, them: &str) -> SessionIdentifier {
  SessionIdentifier {
    begin_string: "FIX.4.4".into(),
    sender_comp_id: us.into(),
    target_comp_id: them.into(),
  }
}

fn config() -> DriverConfig<FixedClock> {
  DriverConfig {
    repo: repo(),
    delimiter: Some(DELIM),
    clock: FixedClock,
    logon_timeout: heartbeat(),
  }
}

fn driver_at(us: &str, them: &str, now: Instant) -> SessionDriver<FixedClock> {
  let state = SessionState::new(id(us, them), session(), now);
  SessionDriver::new(state, repo(), Some(DELIM), FixedClock)
}

/// Encode a Logon followed immediately by an application message, as one
/// socket read could present them to the receiver.
fn logon_and_order(us: &str, them: &str, now: Instant) -> Vec<u8> {
  let mut peer = driver_at(us, them, now);
  let mut ignore = ();
  peer.send_logon(logon_message(), &mut ignore).0.unwrap();
  let _ = peer
    .on_command(now, Command::Send(order("order-1")), &mut ignore)
    .0
    .unwrap();
  peer.pending_writes().to_vec()
}

#[test]
fn initiator_delivers_a_message_carried_with_the_logon() {
  let now = beginning();
  let mut ignore = ();
  let mut handshake = InitiatorDriver::start(
    id("CLIENT", "SERVER"),
    session(),
    config(),
    now,
    &mut ignore,
  )
  .0
  .unwrap();
  let wire = logon_and_order("SERVER", "CLIENT", now);
  let mut seen = Seen::default();

  let mut sink = seen.sink();
  let established = handshake
    .on_bytes(now, &wire, &mut sink)
    .0
    .unwrap()
    .expect("the peer's Logon establishes a session");
  drop(sink);

  assert!(
    seen.app_messages.is_empty(),
    "the initiator delivered the carried message before it was started, \
     so an application had nowhere to reply to it"
  );

  let mut sink = seen.sink();
  let _ = established.start(now, &mut sink).0.unwrap();
  drop(sink);

  assert_eq!(
    seen.app_messages,
    vec!["order-1"],
    "the initiator left the message following Logon buffered"
  );
}

#[test]
fn acceptor_delivers_a_message_carried_with_the_logon() {
  let now = beginning();
  let wire = logon_and_order("CLIENT", "SERVER", now);
  let mut handshake = AcceptorDriver::new(config(), now);
  let session_id = handshake
    .on_bytes(&wire)
    .unwrap()
    .expect("the peer's Logon identifies a session");
  assert_eq!(session_id, &id("SERVER", "CLIENT"));
  let mut seen = Seen::default();

  let mut sink = seen.sink();
  let established = handshake.accept(session(), now, &mut sink).0.unwrap();
  drop(sink);

  assert!(
    seen.app_messages.is_empty(),
    "the acceptor delivered the carried message before it was started, \
     so an application had nowhere to reply to it"
  );

  let mut sink = seen.sink();
  let _ = established.start(now, &mut sink).0.unwrap();
  drop(sink);

  assert_eq!(
    seen.app_messages,
    vec!["order-1"],
    "the acceptor left the message following Logon buffered"
  );
}
