//! Parsing, building, normalizing and serialising messages.

use std::sync::Arc;

use babelfix::builder::{Block, Element, Message, TypedValue};
use babelfix::repository::{FixRepository, FixVersion};
use babelfix::schema::fields;
use babelfix::wire::peek_infer_version_and_length;
use babelfix::FixMessage;
use bytes::Bytes;

const ACCOUNT: u32 = 1;
const CL_ORD_ID: u32 = 11;
const NO_LEGS: u32 = 555;
const LEG_SYMBOL: u32 = 600;

/// FIX 4.4, as far as these tests speak it.
const FIX44: &str = r#"<?xml version="1.0" encoding="UTF-8"?>
<fixr:repository name="FIX.4.4" version="FIX.4.4">
<fixr:codeSets><fixr:codeSet name="SideCodeSet"><fixr:code name="Sell" value="2" sort="2"/><fixr:code name="Buy" value="1" sort="1"/></fixr:codeSet></fixr:codeSets>
<fixr:fields>
<fixr:field id="1" name="Account" type="String"/>
<fixr:field id="7" name="BeginSeqNo" type="SeqNum"/>
<fixr:field id="8" name="BeginString" type="String"/>
<fixr:field id="9" name="BodyLength" type="Length"/>
<fixr:field id="10" name="CheckSum" type="String"/>
<fixr:field id="11" name="ClOrdID" type="String"/>
<fixr:field id="12" name="Commission" type="Amt"/>
<fixr:field id="13" name="CommType" type="CommTypeCodeSet"/>
<fixr:field id="16" name="EndSeqNo" type="SeqNum"/>
<fixr:field id="34" name="MsgSeqNum" type="SeqNum"/>
<fixr:field id="35" name="MsgType" type="MsgTypeCodeSet"/>
<fixr:field id="36" name="NewSeqNo" type="SeqNum"/>
<fixr:field id="38" name="OrderQty" type="Qty"/>
<fixr:field id="40" name="OrdType" type="OrdTypeCodeSet"/>
<fixr:field id="43" name="PossDupFlag" type="PossDupFlagCodeSet"/>
<fixr:field id="44" name="Price" type="Price"/>
<fixr:field id="45" name="RefSeqNum" type="SeqNum"/>
<fixr:field id="49" name="SenderCompID" type="String"/>
<fixr:field id="50" name="SenderSubID" type="String"/>
<fixr:field id="52" name="SendingTime" type="UTCTimestamp"/>
<fixr:field id="54" name="Side" type="SideCodeSet"/>
<fixr:field id="55" name="Symbol" type="String"/>
<fixr:field id="56" name="TargetCompID" type="String"/>
<fixr:field id="58" name="Text" type="String"/>
<fixr:field id="78" name="NoAllocs" type="NumInGroup"/>
<fixr:field id="79" name="AllocAccount" type="String"/>
<fixr:field id="80" name="AllocQty" type="Qty"/>
<fixr:field id="95" name="RawDataLength" type="Length"/>
<fixr:field id="96" name="RawData" type="data"/>
<fixr:field id="97" name="PossResend" type="PossResendCodeSet"/>
<fixr:field id="98" name="EncryptMethod" type="EncryptMethodCodeSet"/>
<fixr:field id="108" name="HeartBtInt" type="int"/>
<fixr:field id="112" name="TestReqID" type="String"/>
<fixr:field id="114" name="LocateReqd" type="Boolean"/>
<fixr:field id="122" name="OrigSendingTime" type="UTCTimestamp"/>
<fixr:field id="123" name="GapFillFlag" type="GapFillFlagCodeSet"/>
<fixr:field id="373" name="SessionRejectReason" type="SessionRejectReasonCodeSet"/>
<fixr:field id="555" name="NoLegs" type="NumInGroup"/>
<fixr:field id="600" name="LegSymbol" type="String"/>
<fixr:field id="608" name="LegCFICode" type="String"/>
<fixr:field id="610" name="LegMaturityMonthYear" type="MonthYear"/>
</fixr:fields><fixr:components>
<fixr:component id="1024" name="StandardHeader" category="Common"><fixr:fieldRef id="8" presence="required"/><fixr:fieldRef id="9" presence="required"/><fixr:fieldRef id="35" presence="required"/><fixr:fieldRef id="49" presence="required"/><fixr:fieldRef id="56" presence="required"/><fixr:fieldRef id="34" presence="required"/><fixr:fieldRef id="50"/><fixr:fieldRef id="43"/><fixr:fieldRef id="97"/><fixr:fieldRef id="52" presence="required"/><fixr:fieldRef id="122"/></fixr:component>
<fixr:component id="1025" name="StandardTrailer" category="Common"><fixr:fieldRef id="10" presence="required"/></fixr:component>
<fixr:component id="1003" name="Instrument" category="Common"><fixr:fieldRef id="55"/></fixr:component>
<fixr:component id="1005" name="InstrumentLeg" category="Common"><fixr:fieldRef id="600"/><fixr:fieldRef id="608"/><fixr:fieldRef id="610"/></fixr:component>
<fixr:component id="1011" name="OrderQtyData" category="Common"><fixr:fieldRef id="38"/></fixr:component>
<fixr:component id="1000" name="CommissionData" category="Common"><fixr:fieldRef id="12"/><fixr:fieldRef id="13"/></fixr:component>
</fixr:components><fixr:groups>
<fixr:group id="2054" name="LegOrdGrp"><fixr:numInGroup id="555"/><fixr:componentRef id="1005"/></fixr:group>
<fixr:group id="2071" name="PreAllocGrp"><fixr:numInGroup id="78"/><fixr:fieldRef id="79"/><fixr:fieldRef id="80"/></fixr:group>
</fixr:groups><fixr:messages>
<fixr:message msgType="0" name="Heartbeat" category="Session"><fixr:structure><fixr:componentRef id="1024"/><fixr:fieldRef id="112"/><fixr:componentRef id="1025"/></fixr:structure></fixr:message>
<fixr:message msgType="1" name="TestRequest" category="Session"><fixr:structure><fixr:componentRef id="1024"/><fixr:fieldRef id="112" presence="required"/><fixr:componentRef id="1025"/></fixr:structure></fixr:message>
<fixr:message msgType="2" name="ResendRequest" category="Session"><fixr:structure><fixr:componentRef id="1024"/><fixr:fieldRef id="7" presence="required"/><fixr:fieldRef id="16" presence="required"/><fixr:componentRef id="1025"/></fixr:structure></fixr:message>
<fixr:message msgType="3" name="Reject" category="Session"><fixr:structure><fixr:componentRef id="1024"/><fixr:fieldRef id="45" presence="required"/><fixr:fieldRef id="373"/><fixr:fieldRef id="58"/><fixr:componentRef id="1025"/></fixr:structure></fixr:message>
<fixr:message msgType="4" name="SequenceReset" category="Session"><fixr:structure><fixr:componentRef id="1024"/><fixr:fieldRef id="123"/><fixr:fieldRef id="36" presence="required"/><fixr:componentRef id="1025"/></fixr:structure></fixr:message>
<fixr:message msgType="5" name="Logout" category="Session"><fixr:structure><fixr:componentRef id="1024"/><fixr:fieldRef id="58"/><fixr:componentRef id="1025"/></fixr:structure></fixr:message>
<fixr:message msgType="A" name="Logon" category="Session"><fixr:structure><fixr:componentRef id="1024"/><fixr:fieldRef id="98" presence="required"/><fixr:fieldRef id="108" presence="required"/><fixr:fieldRef id="95"/><fixr:fieldRef id="96"/><fixr:componentRef id="1025"/></fixr:structure></fixr:message>
<fixr:message msgType="D" name="NewOrderSingle" category="SingleGeneralOrderHandling"><fixr:structure><fixr:componentRef id="1024"/><fixr:fieldRef id="11" presence="required"/><fixr:groupRef id="2071"/><fixr:fieldRef id="1"/><fixr:componentRef id="1003"/><fixr:fieldRef id="54" presence="required"/><fixr:fieldRef id="114"/><fixr:componentRef id="1011"/><fixr:fieldRef id="40"/><fixr:fieldRef id="44"/><fixr:componentRef id="1000"/><fixr:fieldRef id="58"/><fixr:componentRef id="1025"/></fixr:structure></fixr:message>
<fixr:message msgType="AB" name="NewOrderMultileg" category="MultilegOrders"><fixr:structure><fixr:componentRef id="1024"/><fixr:fieldRef id="11" presence="required"/><fixr:fieldRef id="1"/><fixr:fieldRef id="54" presence="required"/><fixr:componentRef id="1003"/><fixr:groupRef id="2054"/><fixr:componentRef id="1011"/><fixr:fieldRef id="40"/><fixr:componentRef id="1025"/></fixr:structure></fixr:message>
</fixr:messages>
</fixr:repository>"#;

/// The latest version, as far as these tests speak it.
const FIX_LATEST: &str = r#"<?xml version="1.0" encoding="UTF-8"?>
<fixr:repository name="FIX.Latest" version="FIX.Latest_EP274">
<fixr:codeSets><fixr:codeSet name="SideCodeSet"><fixr:code name="Sell" value="2" sort="2"/><fixr:code name="Buy" value="1" sort="1"/></fixr:codeSet></fixr:codeSets>
<fixr:fields>
<fixr:field id="1" name="Account" type="String"/>
<fixr:field id="7" name="BeginSeqNo" type="SeqNum"/>
<fixr:field id="8" name="BeginString" type="String"/>
<fixr:field id="9" name="BodyLength" type="Length"/>
<fixr:field id="10" name="CheckSum" type="String"/>
<fixr:field id="11" name="ClOrdID" type="String"/>
<fixr:field id="12" name="Commission" type="Amt"/>
<fixr:field id="13" name="CommType" type="CommTypeCodeSet"/>
<fixr:field id="16" name="EndSeqNo" type="SeqNum"/>
<fixr:field id="34" name="MsgSeqNum" type="SeqNum"/>
<fixr:field id="35" name="MsgType" type="MsgTypeCodeSet"/>
<fixr:field id="36" name="NewSeqNo" type="SeqNum"/>
<fixr:field id="38" name="OrderQty" type="Qty"/>
<fixr:field id="40" name="OrdType" type="OrdTypeCodeSet"/>
<fixr:field id="43" name="PossDupFlag" type="PossDupFlagCodeSet"/>
<fixr:field id="44" name="Price" type="Price"/>
<fixr:field id="45" name="RefSeqNum" type="SeqNum"/>
<fixr:field id="49" name="SenderCompID" type="String"/>
<fixr:field id="50" name="SenderSubID" type="String"/>
<fixr:field id="52" name="SendingTime" type="UTCTimestamp"/>
<fixr:field id="54" name="Side" type="SideCodeSet"/>
<fixr:field id="55" name="Symbol" type="String"/>
<fixr:field id="56" name="TargetCompID" type="String"/>
<fixr:field id="58" name="Text" type="String"/>
<fixr:field id="78" name="NoAllocs" type="NumInGroup"/>
<fixr:field id="79" name="AllocAccount" type="String"/>
<fixr:field id="80" name="AllocQty" type="Qty"/>
<fixr:field id="95" name="RawDataLength" type="Length"/>
<fixr:field id="96" name="RawData" type="data"/>
<fixr:field id="97" name="PossResend" type="PossResendCodeSet"/>
<fixr:field id="98" name="EncryptMethod" type="EncryptMethodCodeSet"/>
<fixr:field id="108" name="HeartBtInt" type="int"/>
<fixr:field id="112" name="TestReqID" type="String"/>
<fixr:field id="114" name="LocateReqd" type="Boolean"/>
<fixr:field id="122" name="OrigSendingTime" type="UTCTimestamp"/>
<fixr:field id="123" name="GapFillFlag" type="GapFillFlagCodeSet"/>
<fixr:field id="373" name="SessionRejectReason" type="SessionRejectReasonCodeSet"/>
<fixr:field id="555" name="NoLegs" type="NumInGroup"/>
<fixr:field id="600" name="LegSymbol" type="String"/>
<fixr:field id="608" name="LegCFICode" type="String"/>
<fixr:field id="610" name="LegMaturityMonthYear" type="MonthYear"/>
<fixr:field id="1137" name="DefaultApplVerID" type="String"/>
</fixr:fields><fixr:components>
<fixr:component id="1024" name="StandardHeader" category="Common"><fixr:fieldRef id="8" presence="required"/><fixr:fieldRef id="9" presence="required"/><fixr:fieldRef id="35" presence="required"/><fixr:fieldRef id="49" presence="required"/><fixr:fieldRef id="56" presence="required"/><fixr:fieldRef id="34" presence="required"/><fixr:fieldRef id="50"/><fixr:fieldRef id="43"/><fixr:fieldRef id="97"/><fixr:fieldRef id="52" presence="required"/><fixr:fieldRef id="122"/></fixr:component>
<fixr:component id="1025" name="StandardTrailer" category="Common"><fixr:fieldRef id="10" presence="required"/></fixr:component>
<fixr:component id="1003" name="Instrument" category="Common"><fixr:fieldRef id="55"/></fixr:component>
<fixr:component id="1005" name="InstrumentLeg" category="Common"><fixr:fieldRef id="600"/><fixr:fieldRef id="608"/><fixr:fieldRef id="610"/></fixr:component>
<fixr:component id="1011" name="OrderQtyData" category="Common"><fixr:fieldRef id="38"/></fixr:component>
<fixr:component id="1000" name="CommissionData" category="Common"><fixr:fieldRef id="12"/><fixr:fieldRef id="13"/></fixr:component>
</fixr:components><fixr:groups>
<fixr:group id="2054" name="LegOrdGrp"><fixr:numInGroup id="555"/><fixr:componentRef id="1005"/></fixr:group>
<fixr:group id="2071" name="PreAllocGrp"><fixr:numInGroup id="78"/><fixr:fieldRef id="79"/><fixr:fieldRef id="80"/></fixr:group>
</fixr:groups><fixr:messages>
<fixr:message msgType="0" name="Heartbeat" category="Session"><fixr:structure><fixr:componentRef id="1024"/><fixr:fieldRef id="112"/><fixr:componentRef id="1025"/></fixr:structure></fixr:message>
<fixr:message msgType="1" name="TestRequest" category="Session"><fixr:structure><fixr:componentRef id="1024"/><fixr:fieldRef id="112" presence="required"/><fixr:componentRef id="1025"/></fixr:structure></fixr:message>
<fixr:message msgType="2" name="ResendRequest" category="Session"><fixr:structure><fixr:componentRef id="1024"/><fixr:fieldRef id="7" presence="required"/><fixr:fieldRef id="16" presence="required"/><fixr:componentRef id="1025"/></fixr:structure></fixr:message>
<fixr:message msgType="3" name="Reject" category="Session"><fixr:structure><fixr:componentRef id="1024"/><fixr:fieldRef id="45" presence="required"/><fixr:fieldRef id="373"/><fixr:fieldRef id="58"/><fixr:componentRef id="1025"/></fixr:structure></fixr:message>
<fixr:message msgType="4" name="SequenceReset" category="Session"><fixr:structure><fixr:componentRef id="1024"/><fixr:fieldRef id="123"/><fixr:fieldRef id="36" presence="required"/><fixr:componentRef id="1025"/></fixr:structure></fixr:message>
<fixr:message msgType="5" name="Logout" category="Session"><fixr:structure><fixr:componentRef id="1024"/><fixr:fieldRef id="58"/><fixr:componentRef id="1025"/></fixr:structure></fixr:message>
<fixr:message msgType="A" name="Logon" category="Session"><fixr:structure><fixr:componentRef id="1024"/><fixr:fieldRef id="98" presence="required"/><fixr:fieldRef id="108" presence="required"/><fixr:fieldRef id="95"/><fixr:fieldRef id="96"/><fixr:fieldRef id="1137" presence="required"/><fixr:componentRef id="1025"/></fixr:structure></fixr:message>
<fixr:message msgType="D" name="NewOrderSingle" category="SingleGeneralOrderHandling"><fixr:structure><fixr:componentRef id="1024"/><fixr:fieldRef id="11" presence="required"/><fixr:groupRef id="2071"/><fixr:fieldRef id="1"/><fixr:componentRef id="1003"/><fixr:fieldRef id="54" presence="required"/><fixr:fieldRef id="114"/><fixr:componentRef id="1011"/><fixr:fieldRef id="40"/><fixr:fieldRef id="44"/><fixr:componentRef id="1000"/><fixr:fieldRef id="58"/><fixr:componentRef id="1025"/></fixr:structure></fixr:message>
<fixr:message msgType="AB" name="NewOrderMultileg" category="MultilegOrders"><fixr:structure><fixr:componentRef id="1024"/><fixr:fieldRef id="11" presence="required"/><fixr:fieldRef id="1"/><fixr:fieldRef id="54" presence="required"/><fixr:componentRef id="1003"/><fixr:groupRef id="2054"/><fixr:componentRef id="1011"/><fixr:fieldRef id="40"/><fixr:componentRef id="1025"/></fixr:structure></fixr:message>
</fixr:messages>
</fixr:repository>"#;

fn repo() -> Arc<FixRepository> {
  let documents = vec![FIX44.as_bytes().to_vec(), FIX_LATEST.as_bytes().to_vec()];
  Arc::new(FixRepository::from_fix_orchestras(&documents).unwrap())
}

fn fix44() -> Arc<FixVersion> {
  repo().get_version("FIX.4.4").unwrap()
}

#[test]
fn test_fix_message() {
  let repo = repo();
  let fix44 = repo.get_version("FIX.4.4").unwrap();
  let data = b"8=FIX.4.4|35=AB|34=1|49=SenderCompID|56=TargetCompID|52=20231010-12:00:00.000|11=123456|54=0|38=1000|40=2|555=2|600=6B|608=F|610=202509|600=6B|608=F|610=202505|10=0000000000|";
  let (msg, consumed) = FixMessage::from_bytes_delimited(
    fix44.clone(),
    Bytes::from_static(data),
    b'|',
  ).unwrap();
  assert_eq!(consumed, data.len());

  assert_eq!(msg.get_being_string(), "FIX.4.4");
  assert_eq!(msg.get_type(), "AB");


  let mut b = Message::from_message(&msg).unwrap();
  assert!(b.body.has_tag(CL_ORD_ID));
  b.body
    .set_tag(CL_ORD_ID, TypedValue::String("foobar".into()));
  assert!(b.body.tag(CL_ORD_ID).is_some());
  assert_eq!(
    *b.body.tag(CL_ORD_ID).unwrap(),
    TypedValue::String("foobar".into())
  );

  assert!(!b.body.has_tag(ACCOUNT));
  *b.body.tag_mut(ACCOUNT) =
    TypedValue::String("123456".into());
  assert_eq!(
    *b.body.tag(ACCOUNT).unwrap(),
    TypedValue::String("123456".into())
  );

  let g = b.body.group(NO_LEGS).unwrap();
  assert_eq!(g.len(), 2);
  assert!(g[0].has_tag(LEG_SYMBOL));
}

#[test]
fn test_build() {
  let repo = repo();

  let mut msg =
    Message::new(repo.get_version("FIX.4.4").unwrap(), "AB")
      .unwrap();

  let mut g = Block::new();
  g.push_tag(LEG_SYMBOL, "FDAX").unwrap();
  msg.body.push_group(NO_LEGS, g);
  let mut g = Block::new();
  assert!(g.push_tag(LEG_SYMBOL, "ODAX").is_ok());
  msg.body.push_group(NO_LEGS, g);

  msg.header.push_tag(fields::SENDER_COMP_ID, "Sender").unwrap();
  msg.header.push_tag(fields::TARGET_COMP_ID, "Target").unwrap();
  msg.header.push_tag(fields::MSG_SEQ_NUM, 55).unwrap();

  println!("The message:");
  println!("{}", msg.describe());

  let new = msg.duplicate();

  let data = msg.into_message().unwrap();
  assert_eq!(data.get_being_string(), "FIX.4.4");
  assert_eq!(
    data.to_string_delimited(b'|'),
    "8=FIX.4.4|9=56|35=AB|49=Sender|56=Target|34=55|555=2|600=FDAX|600=ODAX|10=176|"
  );

  let data = new.into_message().unwrap();
  assert_eq!(data.get_being_string(), "FIX.4.4");
  assert_eq!(
    data.to_string_delimited(b'|'),
    "8=FIX.4.4|9=56|35=AB|49=Sender|56=Target|34=55|555=2|600=FDAX|600=ODAX|10=176|"
  );
}

#[test]
fn test_parse() {
  let repo = repo();
  let fix44 = repo.get_version("FIX.4.4").unwrap();

  let data = b"8=FIX.4.4|35=AB|34=1|49=SenderCompID|56=TargetCompID|52=20231010-12:00:00.000|11=123456|54=0|38=1000|40=2|555=2|600=6B|608=F|610=202509|600=6B|608=F|610=202505|10=0000000000";
  let (msg, consumed) = FixMessage::from_bytes_delimited(
    fix44.clone(),
    Bytes::from_static(data),
    b'|',
  ).unwrap();
  assert_eq!(consumed, data.len());
  assert_eq!(msg.tags.last().unwrap().0, 10);
  assert_eq!(msg.tags.last().unwrap().1.as_str(&msg.data), "0000000000");

  let data = b"8=FIX.4.4|35=AB|34=1|49=SenderCompID|10=99|8=FIX.4.4|56=TargetCompID|52=20231010-12:00:00.000|11=123456|54=0|38=1000|40=2|555=2|600=6B|608=F|610=202509|600=6B|608=F|610=202505|10=NotAnIntegerSomehow";
  let (msg, consumed) = FixMessage::from_bytes_delimited(
    fix44.clone(),
    Bytes::from_static(data),
    b'|',
  ).unwrap();
  assert_eq!(consumed, 43);
  assert_eq!(msg.tags.last().unwrap().0, 10);
  assert_eq!(msg.tags.last().unwrap().1.as_str(&msg.data), "99");

  let (msg, consumed) = FixMessage::from_bytes_delimited(
    fix44.clone(),
    Bytes::from_static(&data[consumed..]),
    b'|',
  ).unwrap();
  assert_eq!(consumed, data.len() - 43);
  assert_eq!(msg.tags.last().unwrap().0, 10);
  assert_eq!(
    msg.tags.last().unwrap().1.as_str(&msg.data),
    "NotAnIntegerSomehow"
  );
}

#[test]
fn test_delimiter_in_value_rawdata() {
  let repo = repo();
  let fix44 = repo.get_version("FIX.4.4").unwrap();

  let data = b"8=FIX.4.4|35=AB|34=1|49=SenderCompID|56=TargetCompID|52=20231010-12:00:00.000|95=20|96=0123456789|fo=0000000000|";
  let (msg, consumed) = FixMessage::from_bytes_delimited(
    fix44.clone(),
    Bytes::from_static(data),
    b'|',
  ).unwrap();
  assert_eq!(consumed, data.len());
  assert_eq!(msg.tags[6].0, 95); // SecDataLen
  assert_eq!(msg.tags[6].1.as_str(&msg.data), "20");
  assert_eq!(msg.tags[7].0, 96); // SecData (raw data field)
  // SecData is now correctly stored as Value::Data, so use as_bytes()
  assert!(msg.tags[7].1.is_data());
  assert_eq!(msg.tags[7].1.as_bytes(&msg.data), b"0123456789|fo=000000");
}

#[test]
fn test_equals_in_value() {
  let repo = repo();
  let fix44 = repo.get_version("FIX.4.4").unwrap();

  let data = b"8=FIX.4.4|35=AB|34=1|49=SenderCompID|56=TargetCompID|52=20231010-12:00:00.000|58=This is a test=with equals|10=0000000000|";
  let (msg, consumed) = FixMessage::from_bytes_delimited(
    fix44.clone(),
    Bytes::from_static(data),
    b'|',
  )
  .unwrap();
  assert_eq!(consumed, data.len());
  assert_eq!(msg.tags[6].0, 58);
  assert_eq!(
    msg.tags[6].1.as_str(&msg.data),
    "This is a test=with equals"
  );
}

#[test]
fn test_builder_in_struct_with_repo() {
  struct State {
    _msg: Message,
  }
  let repo = repo();
  let _state = State {
    _msg: Message::new(repo.get_version("FIX.4.4").unwrap(), "AB")
      .unwrap(),
  };
}

#[test]
fn test_parse_fix5() {
  let repo = repo();
  let fix5 = repo.get_version("FIX.Latest").unwrap();

  let data = b"8=FIXT.1.1|35=AB|34=1|49=SenderCompID|56=TargetCompID|52=20231010-12:00:00.000|11=123456|54=0|38=1000|40=2|555=2|600=6B|608=F|610=202509|600=6B|608=F|610=202505|10=0000000000";
  let (msg, consumed) = FixMessage::from_bytes_delimited(
    fix5.clone(),
    Bytes::from(&data[..]),
    b'|',
  ).unwrap();
  assert_eq!(consumed, data.len());
  assert_eq!(msg.tags.last().unwrap().0, 10);
  assert_eq!(msg.tags.last().unwrap().1.as_str(&msg.data), "0000000000");

  let data = b"8=FIXT.1.1|35=AB|34=1|49=SenderCompID|10=99|8=FIXT.1.1|56=TargetCompID|52=20231010-12:00:00.000|11=123456|54=0|38=1000|40=2|555=2|600=6B|608=F|610=202509|600=6B|608=F|610=202505|10=NotAnIntegerSomehow";
  let (msg, consumed) = FixMessage::from_bytes_delimited(
    fix5.clone(),
    Bytes::from(&data[..]),
    b'|',
  ).unwrap();
  assert_eq!(consumed, 44);
  assert_eq!(msg.tags.last().unwrap().0, 10);
  assert_eq!(msg.tags.last().unwrap().1.as_str(&msg.data), "99");

  let (msg, consumed) = FixMessage::from_bytes_delimited(
    fix5.clone(),
    Bytes::from(&data[consumed..]),
    b'|',
  ).unwrap();
  assert_eq!(consumed, data.len() - 44);
  assert_eq!(msg.tags.last().unwrap().0, 10);
  assert_eq!(
    msg.tags.last().unwrap().1.as_str(&msg.data),
    "NotAnIntegerSomehow"
  );
}

#[test]
fn test_infer_version() {
  let data = b"8=FIXT.1.1|9=128|35=AB|34=1|49=SenderCompID|56=TargetCompID|52=20231010-12:00:00.000|11=123456|54=0|38=1000|40=2|555=2|600=6B|608=F|610=202509|600=6B|608=F|610=202505|10=0000000000";
  let repo = repo();
  let (version, body_len, consumed) =
    peek_infer_version_and_length(&repo, data, b'|').unwrap();
  assert_eq!(version.unwrap().name, "FIX.Latest");
  assert_eq!(body_len.unwrap(), 128);
  assert_eq!(consumed, 17);

  let data = b"8=FIXT.1";
  let (version, body_len, consumed) =
    peek_infer_version_and_length(&repo, data, b'|').unwrap();
  assert!(version.is_none());
  assert!(body_len.is_none());
  assert_eq!(consumed, 0);

  let data = b"8=FIXT.1.1";
  let (version, body_len, consumed) =
    peek_infer_version_and_length(&repo, data, b'|').unwrap();
  assert!(version.is_none());
  assert!(body_len.is_none());
  assert_eq!(consumed, 0);

  let data = b"8=FIXT.1.1|";
  let (version, body_len, consumed) =
    peek_infer_version_and_length(&repo, data, b'|').unwrap();
  assert_eq!(version.unwrap().name, "FIX.Latest");
  assert!(body_len.is_none());
  assert_eq!(consumed, 11);

  let data = b"8=FIXT.1.1|9=1";
  let (version, body_len, consumed) =
    peek_infer_version_and_length(&repo, data, b'|').unwrap();
  assert_eq!(version.unwrap().name, "FIX.Latest");
  assert!(body_len.is_none());
  assert_eq!(consumed, 11);

  let data = b"8=FOOB|9=1";
  let Err(s) = peek_infer_version_and_length(&repo, data, b'|') else {
    panic!("Should have failed")
  };
  assert_eq!(
    s.to_string().as_str(),
    "Invalid message: Unknown FIX version"
  );
}

#[test]
fn test_build_fix5() {
  let repo = repo();
  let fix5 = repo.get_version("FIX.Latest").unwrap();
  let mut b = Message::new(fix5, "D").unwrap();
  assert!(b.header.push_tag(8, "FIX.4.4").is_err());
  let m = b.into_message().unwrap();
  assert_eq!(m.get_being_string(), "FIXT.1.1");
}

#[test]
fn test_unknown_tag() {
  let data = b"8=FIXT.1.1|35=D|500001=Ben";
  let repo = repo();
  let fix5 = repo.get_version("FIX.Latest").unwrap();
  let m = Message::from_bytes_delimited(fix5, data, b'|').unwrap();
  assert_eq!(m.body.tag(500001).unwrap().as_string(), "Ben");
}

#[test]
fn test_equality_of_messages() {
  let fix44 = repo().get_version("FIX.4.4").unwrap();
  let msg = FixMessage::from_bytes_delimited(
    fix44.clone(),
    Bytes::from_static(b"8=FIX.4.4|35=AB|34=1|49=SenderCompID|56=TargetCompID|52=20231010-12:00:00.000|11=123456|54=0|38=1000|40=2|555=2|600=6B|608=F|610=202509|600=6B|608=F|610=202505|10=0000000000"),
    b'|',
  ).unwrap().0;
  let msg2 = FixMessage::from_bytes_delimited(
    fix44.clone(),
    Bytes::from_static(b"8=FIX.4.4|35=AB|34=1|49=SenderCompID|56=TargetCompID|52=20231010-12:00:00.000|11=123456|54=0|38=1000|40=2|555=2|600=6B|608=F|610=202509|600=6B|608=F|610=202505|10=0000000000"),
    b'|',
  ).unwrap().0;

  assert!(msg.same_as(&msg2));

  // Different tag order
  let msg2 = FixMessage::from_bytes_delimited(
    fix44.clone(),
    Bytes::from_static(b"8=FIX.4.4|35=AB|34=1|49=SenderCompID|56=TargetCompID|52=20231010-12:00:00.000|11=123456|54=0|38=1000|40=2|600=6B|555=2|608=F|610=202509|600=6B|608=F|610=202505|10=0000000000"),
    b'|',
  ).unwrap().0;

  assert!(!msg.same_as(&msg2));

  // Same tag order, differnt values

  let msg2 = FixMessage::from_bytes_delimited(
    fix44.clone(),
    Bytes::from_static(b"8=FIX.4.4|35=AB|34=1|49=SenderCompID|56=TargetCompID|52=20231010-12:00:00.000|11=123456|54=0|38=1000|40=2|555=2|600=6C|608=F|610=202509|600=6B|608=F|610=202505|10=0000000000"),
    b'|',
  ).unwrap().0;
  assert!(!msg.same_as(&msg2));

  // Different tags

  let msg2 = FixMessage::from_bytes_delimited(
    fix44.clone(),
    Bytes::from_static(b"8=FIX.4.4|35=AB|34=1|49=SenderCompID|56=TargetCompID|52=20231010-12:00:00.000|11=123456|54=0|38=1000|40=2|555=2|600=6B|608=F|610=202509|600=6B|608=F|610=202505|9999=ExtraTag|10=0000000000"),
    b'|',
  ).unwrap().0;
  assert!(!msg.same_as(&msg2));
}

#[test]
fn test_message_normalization() {
  let fix44 = repo().get_version("FIX.4.4").unwrap();

  // Create a simple message to test basic normalization
  let data =
    b"8=FIX.4.4|35=D|49=Sender|56=Target|34=1|11=ClOrdID|55=Symbol|10=123|";
  let (orig_msg, _) = FixMessage::from_bytes_delimited(
    fix44.clone(),
    Bytes::from_static(data),
    b'|',
  ).unwrap();
  let builder_msg = Message::from_message(&orig_msg).unwrap();

  // Normalize the message
  let normalized = builder_msg.normalize().unwrap();

  // Convert back to FixMessage to verify structure is preserved
  let normalized_fix_msg = normalized.as_message().unwrap();

  // Verify that tag count is preserved through normalization
  // The builder message excludes BodyLength(9) and CheckSum(10), but keeps other tags
  let builder_count =
    builder_msg.header.iter().len() + builder_msg.body.iter().len();
  let normalized_count =
    normalized.header.iter().len() + normalized.body.iter().len();
  assert_eq!(
    builder_count, normalized_count,
    "Normalization should preserve all tags from builder message"
  );

  // The normalized fix message should have the same count as the builder generates
  let builder_fix_msg = builder_msg.as_message().unwrap();
  assert_eq!(
    builder_fix_msg.tags.len(),
    normalized_fix_msg.tags.len(),
    "Normalized fix message should have same tag count as original builder conversion"
  );
}

#[test]
fn test_message_normalization_ordering() {
  let fix44 = repo().get_version("FIX.4.4").unwrap();

  // Create a message with tags deliberately out of order
  let data =
    b"8=FIX.4.4|35=D|55=Symbol|49=Sender|11=ClOrdID|56=Target|34=1|10=123|";
  let (orig_msg, _) = FixMessage::from_bytes_delimited(
    fix44.clone(),
    Bytes::from(&data[..]),
    b'|',
  ).unwrap();
  let builder_msg = Message::from_message(&orig_msg).unwrap();

  // Normalize the message
  let normalized = builder_msg.normalize().unwrap();

  // Convert back to FixMessage to verify final ordering
  let normalized_fix_msg = normalized.as_message().unwrap();

  // Extract the final tag sequence (excluding BodyLength and CheckSum)
  let final_tag_order: Vec<u32> = normalized_fix_msg
    .tags
    .iter()
    .filter(|(tag, _)| *tag != 9 && *tag != 10)
    .map(|(tag, _)| *tag)
    .collect();

  // Verify specific FIX Orchestra ordering expectations for NewOrderSingle (D)
  // Based on typical FIX 4.4 message structure, we expect:
  // Header: BeginString(8), MsgType(35), SenderCompID(49), TargetCompID(56), MsgSeqNum(34)
  // Body: ClOrdID(11), Symbol(55)

  // Find positions of key tags
  let pos_8 = final_tag_order.iter().position(|&x| x == 8).unwrap();
  let pos_35 = final_tag_order.iter().position(|&x| x == 35).unwrap();
  let pos_49 = final_tag_order.iter().position(|&x| x == 49).unwrap();
  let pos_56 = final_tag_order.iter().position(|&x| x == 56).unwrap();
  let pos_34 = final_tag_order.iter().position(|&x| x == 34).unwrap();
  let pos_11 = final_tag_order.iter().position(|&x| x == 11).unwrap();
  let pos_55 = final_tag_order.iter().position(|&x| x == 55).unwrap();

  // Verify StandardHeader ordering - these should follow FIX Orchestra definition
  assert!(
    pos_8 < pos_35,
    "BeginString(8) should come before MsgType(35)"
  );
  assert!(
    pos_35 < pos_49,
    "MsgType(35) should come before SenderCompID(49)"
  );
  assert!(
    pos_49 < pos_56,
    "SenderCompID(49) should come before TargetCompID(56)"
  );
  assert!(
    pos_56 < pos_34,
    "TargetCompID(56) should come before MsgSeqNum(34)"
  );

  // Verify that header comes before body
  assert!(pos_34 < pos_11, "Header tags should come before body tags");
  assert!(pos_34 < pos_55, "Header tags should come before body tags");
}

#[test]
fn test_message_normalization_with_unknown_tags() {
  let fix44 = repo().get_version("FIX.4.4").unwrap();

  // Create a message with unknown tags mixed in among known tags
  // Use unknown tags that should interleave: 12 (between 11 and 34), 50 (between 49 and 55), 1000 (after all)
  let data = b"8=FIX.4.4|35=D|1000=AfterAll|49=Sender|56=Target|12=BetweenClOrdIDAndMsgSeqNum|34=1|11=ClOrdID|55=Symbol|50=BetweenSenderAndSymbol|10=123|";
  let (orig_msg, _) = FixMessage::from_bytes_delimited(
    fix44.clone(),
    Bytes::from(&data[..]),
    b'|',
  ).unwrap();
  let builder_msg = Message::from_message(&orig_msg).unwrap();

  // Normalize the message
  let normalized = builder_msg.normalize().unwrap();

  // Convert back to verify structure
  let normalized_fix_msg = normalized.as_message().unwrap();

  // Extract the final tag sequence (excluding BodyLength and CheckSum)
  let final_tag_order: Vec<u32> = normalized_fix_msg
    .tags
    .iter()
    .filter(|(tag, _)| *tag != 9 && *tag != 10)
    .map(|(tag, _)| *tag)
    .collect();

  // Verify all tags are preserved
  let has_12 = normalized_fix_msg.tags.iter().any(|(tag, _)| *tag == 12);
  let has_50 = normalized_fix_msg.tags.iter().any(|(tag, _)| *tag == 50);
  let has_1000 = normalized_fix_msg.tags.iter().any(|(tag, _)| *tag == 1000);
  assert!(has_12, "Unknown tag 12 should be preserved");
  assert!(has_50, "Unknown tag 50 should be preserved");
  assert!(has_1000, "Unknown tag 1000 should be preserved");

  // Verify that unknown tags are properly interleaved by tag number
  let pos_11 = final_tag_order.iter().position(|&x| x == 11).unwrap();
  let pos_12 = final_tag_order.iter().position(|&x| x == 12).unwrap();
  let _pos_34 = final_tag_order.iter().position(|&x| x == 34).unwrap();
  let pos_49 = final_tag_order.iter().position(|&x| x == 49).unwrap();
  let pos_50 = final_tag_order.iter().position(|&x| x == 50).unwrap();
  let pos_55 = final_tag_order.iter().position(|&x| x == 55).unwrap();
  let pos_1000 = final_tag_order.iter().position(|&x| x == 1000).unwrap();

  // Verify proper interleaving based on how the algorithm actually works:
  // Unknown tags are placed after the last known tag that's smaller by tag number

  // Tag 12: should come after ClOrdID(11) but follows FIX Orchestra ordering,
  // so it comes after Symbol(55) since 55 > 12 in canonical order
  assert!(
    pos_11 < pos_12,
    "Unknown tag 12 should come after ClOrdID(11)"
  );
  assert!(
    pos_55 < pos_12,
    "Unknown tag 12 should come after Symbol(55) due to canonical ordering"
  );

  // Tag 50: should come after SenderCompID(49) and before Symbol(55)
  // Since 49 < 50 < 55, it gets inserted between them
  assert!(
    pos_49 < pos_50,
    "Unknown tag 50 should come after SenderCompID(49)"
  );
  assert!(
    pos_50 < pos_11,
    "Unknown tag 50 should come before ClOrdID(11) in this ordering"
  );

  // Tag 1000: should come after all known tags
  assert!(
    pos_12 < pos_1000,
    "Unknown tag 1000 should come after all other tags"
  );

  // Verify FIX Orchestra ordering is still maintained for known tags
  let pos_8 = final_tag_order.iter().position(|&x| x == 8).unwrap();
  let pos_35 = final_tag_order.iter().position(|&x| x == 35).unwrap();
  let pos_49 = final_tag_order.iter().position(|&x| x == 49).unwrap();
  assert!(
    pos_8 < pos_35,
    "BeginString(8) should come before MsgType(35)"
  );
  assert!(
    pos_35 < pos_49,
    "MsgType(35) should come before SenderCompID(49)"
  );
}

#[test]
fn test_message_normalization_with_groups() {
  let fix44 = repo().get_version("FIX.4.4").unwrap();

  // Create a message with repeating groups in non-canonical order
  let data = b"8=FIX.4.4|35=AB|555=2|600=6B|608=F|610=202509|600=6C|608=G|610=202510|49=Sender|56=Target|34=1|10=123|";
  let (orig_msg, _) = FixMessage::from_bytes_delimited(
    fix44.clone(),
    Bytes::from(&data[..]),
    b'|',
  ).unwrap();
  let builder_msg = Message::from_message(&orig_msg).unwrap();

  // Normalize the message
  let normalized = builder_msg.normalize().unwrap();

  // Verify that groups are preserved
  let group = normalized
    .body
    .group(555)
    .expect("NoLegs group should exist");
  assert_eq!(group.len(), 2, "Should have 2 group entries");

  // Verify that group members are ordered according to the group definition
  for group_entry in group {
    let group_tags: Vec<u32> = group_entry
      .iter()
      .into_iter()
      .map(|element| match element {
        Element::Tag((tag, _)) => *tag,
        Element::Group(tag, _) => *tag,
        Element::RawDataTag(_, data_tag, _) => *data_tag,
      })
      .collect();

    // Verify that both 600 (LegSymbol), 608 (LegCFICode), and 610 (LegMaturityDate) are present
    assert!(
      group_tags.contains(&600),
      "Group should contain LegSymbol(600)"
    );
    assert!(
      group_tags.contains(&608),
      "Group should contain LegCFICode(608)"
    );
    assert!(
      group_tags.contains(&610),
      "Group should contain LegMaturityDate(610)"
    );
  }
}

#[test]
fn test_message_normalization_produces_identical_results() {
  let fix44 = repo().get_version("FIX.4.4").unwrap();

  // Create two messages with identical content but different ordering
  // Message 1: Standard ordering with groups
  let data1 = b"8=FIX.4.4|35=AB|49=Sender|56=Target|34=1|11=ABC123|55=AAPL|54=1|38=100|555=2|600=6B|608=F|610=202509|600=6C|608=G|610=202510|10=123|";

  // Message 2: Same content but different ordering (header/body tags mixed, but same group structure)
  let data2 = b"56=Target|8=FIX.4.4|34=1|35=AB|49=Sender|38=100|555=2|600=6B|608=F|610=202509|600=6C|608=G|610=202510|55=AAPL|11=ABC123|54=1|10=123|";

  // Parse both messages
  let (msg1, _) = FixMessage::from_bytes_delimited(
    fix44.clone(),
    Bytes::from(&data1[..]),
    b'|',
  ).unwrap();
  let (msg2, _) = FixMessage::from_bytes_delimited(
    fix44.clone(),
    Bytes::from(&data2[..]),
    b'|',
  ).unwrap();

  // Convert to builder messages
  let builder_msg1 = Message::from_message(&msg1).unwrap();
  let builder_msg2 = Message::from_message(&msg2).unwrap();

  // Normalize both messages
  let normalized1 = builder_msg1.normalize().unwrap();
  let normalized2 = builder_msg2.normalize().unwrap();

  // Convert back to FixMessage format for comparison
  let fix_msg1 = normalized1.duplicate().into_message().unwrap();
  let fix_msg2 = normalized2.duplicate().into_message().unwrap();

  // Verify that the normalized wire format strings are identical
  let wire1 = fix_msg1.to_string_delimited(b'|');
  let wire2 = fix_msg2.to_string_delimited(b'|');

  assert_eq!(
    wire1, wire2,
    "Normalized messages should have identical wire format"
  );

  // Verify that checksums are identical (implicitly checked by wire format comparison above)
  // Extract checksum from wire format strings
  let checksum1_str =
    wire1.split('|').find(|s| s.starts_with("10=")).unwrap();
  let checksum2_str =
    wire2.split('|').find(|s| s.starts_with("10=")).unwrap();
  assert_eq!(
    checksum1_str, checksum2_str,
    "Normalized messages should have identical checksums"
  );

  // Verify tag-by-tag equality
  assert_eq!(
    fix_msg1.tags.len(),
    fix_msg2.tags.len(),
    "Both messages should have the same number of tags"
  );

  for (tag1, tag2) in fix_msg1.tags.iter().zip(fix_msg2.tags.iter()) {
    assert_eq!(tag1.0, tag2.0, "Tag numbers should match");
    assert_eq!(tag1.1, tag2.1, "Tag values should match");
  }

  // Verify group content is identical
  let group1 = normalized1.body.group(555);
  let group2 = normalized2.body.group(555);

  match (group1, group2) {
    (Some(g1), Some(g2)) => {
      assert_eq!(
        g1.len(),
        g2.len(),
        "Groups should have same number of entries"
      );

      for (entry1, entry2) in g1.iter().zip(g2.iter()) {
        // Compare group entries element by element
        assert_eq!(
          entry1.iter().len(),
          entry2.iter().len(),
          "Group entries should have same number of elements"
        );

        for (elem1, elem2) in entry1.iter().into_iter().zip(entry2.iter()) {
          match (elem1, elem2) {
            (
              Element::Tag((tag1, val1)),
              Element::Tag((tag2, val2)),
            ) => {
              assert_eq!(tag1, tag2, "Group element tags should match");
              assert_eq!(val1, val2, "Group element values should match");
            }
            _ => panic!("Expected Tag elements in group entries"),
          }
        }
      }
    }
    (None, None) => {} // Both have no groups, which is fine
    _ => panic!("One message has groups while the other doesn't"),
  }
}
