//! Blocks, values, the wire form, and messages as a whole.

use std::sync::Arc;

use babelfix::builder::{Block, Element, Message, TypedValue};
use babelfix::codec::{stamp_sending_time, FixDecoder, FixEncoder};
use babelfix::repository::{FixRepository, FixVersion};
use babelfix::schema::fields;
use babelfix::text::{Decimal, ParseIntError};
use babelfix::time::{TimePrecision, UtcTime};
use babelfix::{FixMessage, Value};
use bytes::{Bytes, BytesMut};

const CL_ORD_ID: u32 = 11;
const SIDE: u32 = 54;
const SYMBOL: u32 = 55;
const NO_ALLOCS: u32 = 78;
const ALLOC_ACCOUNT: u32 = 79;

/// FIX 4.4, as far as these tests speak it.
const FIX44: &str = r#"<?xml version="1.0" encoding="UTF-8"?>
<fixr:repository name="FIX.4.4" version="FIX.4.4">
<fixr:codeSets><fixr:codeSet name="SideCodeSet"><fixr:code name="Sell" value="2" sort="2"/><fixr:code name="Buy" value="1" sort="1"/></fixr:codeSet></fixr:codeSets>
<fixr:fields>
<fixr:field id="1" name="Account" type="String"/>
<fixr:field id="7" name="BeginSeqNo" type="SeqNum"/>
<fixr:field id="8" name="BeginString" type="String"/>
<fixr:field id="9" name="BodyLength" type="Length"/>
<fixr:field id="10" name="CheckSum" type="String"/>
<fixr:field id="11" name="ClOrdID" type="String"/>
<fixr:field id="12" name="Commission" type="Amt"/>
<fixr:field id="13" name="CommType" type="CommTypeCodeSet"/>
<fixr:field id="16" name="EndSeqNo" type="SeqNum"/>
<fixr:field id="34" name="MsgSeqNum" type="SeqNum"/>
<fixr:field id="35" name="MsgType" type="MsgTypeCodeSet"/>
<fixr:field id="36" name="NewSeqNo" type="SeqNum"/>
<fixr:field id="38" name="OrderQty" type="Qty"/>
<fixr:field id="40" name="OrdType" type="OrdTypeCodeSet"/>
<fixr:field id="43" name="PossDupFlag" type="PossDupFlagCodeSet"/>
<fixr:field id="44" name="Price" type="Price"/>
<fixr:field id="45" name="RefSeqNum" type="SeqNum"/>
<fixr:field id="49" name="SenderCompID" type="String"/>
<fixr:field id="50" name="SenderSubID" type="String"/>
<fixr:field id="52" name="SendingTime" type="UTCTimestamp"/>
<fixr:field id="54" name="Side" type="SideCodeSet"/>
<fixr:field id="55" name="Symbol" type="String"/>
<fixr:field id="56" name="TargetCompID" type="String"/>
<fixr:field id="58" name="Text" type="String"/>
<fixr:field id="78" name="NoAllocs" type="NumInGroup"/>
<fixr:field id="79" name="AllocAccount" type="String"/>
<fixr:field id="80" name="AllocQty" type="Qty"/>
<fixr:field id="95" name="RawDataLength" type="Length"/>
<fixr:field id="96" name="RawData" type="data"/>
<fixr:field id="97" name="PossResend" type="PossResendCodeSet"/>
<fixr:field id="98" name="EncryptMethod" type="EncryptMethodCodeSet"/>
<fixr:field id="108" name="HeartBtInt" type="int"/>
<fixr:field id="112" name="TestReqID" type="String"/>
<fixr:field id="114" name="LocateReqd" type="Boolean"/>
<fixr:field id="122" name="OrigSendingTime" type="UTCTimestamp"/>
<fixr:field id="123" name="GapFillFlag" type="GapFillFlagCodeSet"/>
<fixr:field id="373" name="SessionRejectReason" type="SessionRejectReasonCodeSet"/>
<fixr:field id="555" name="NoLegs" type="NumInGroup"/>
<fixr:field id="600" name="LegSymbol" type="String"/>
<fixr:field id="608" name="LegCFICode" type="String"/>
<fixr:field id="610" name="LegMaturityMonthYear" type="MonthYear"/>
</fixr:fields><fixr:components>
<fixr:component id="1024" name="StandardHeader" category="Common"><fixr:fieldRef id="8" presence="required"/><fixr:fieldRef id="9" presence="required"/><fixr:fieldRef id="35" presence="required"/><fixr:fieldRef id="49" presence="required"/><fixr:fieldRef id="56" presence="required"/><fixr:fieldRef id="34" presence="required"/><fixr:fieldRef id="50"/><fixr:fieldRef id="43"/><fixr:fieldRef id="97"/><fixr:fieldRef id="52" presence="required"/><fixr:fieldRef id="122"/></fixr:component>
<fixr:component id="1025" name="StandardTrailer" category="Common"><fixr:fieldRef id="10" presence="required"/></fixr:component>
<fixr:component id="1003" name="Instrument" category="Common"><fixr:fieldRef id="55"/></fixr:component>
<fixr:component id="1005" name="InstrumentLeg" category="Common"><fixr:fieldRef id="600"/><fixr:fieldRef id="608"/><fixr:fieldRef id="610"/></fixr:component>
<fixr:component id="1011" name="OrderQtyData" category="Common"><fixr:fieldRef id="38"/></fixr:component>
<fixr:component id="1000" name="CommissionData" category="Common"><fixr:fieldRef id="12"/><fixr:fieldRef id="13"/></fixr:component>
</fixr:components><fixr:groups>
<fixr:group id="2054" name="LegOrdGrp"><fixr:numInGroup id="555"/><fixr:componentRef id="1005"/></fixr:group>
<fixr:group id="2071" name="PreAllocGrp"><fixr:numInGroup id="78"/><fixr:fieldRef id="79"/><fixr:fieldRef id="80"/></fixr:group>
</fixr:groups><fixr:messages>
<fixr:message msgType="0" name="Heartbeat" category="Session"><fixr:structure><fixr:componentRef id="1024"/><fixr:fieldRef id="112"/><fixr:componentRef id="1025"/></fixr:structure></fixr:message>
<fixr:message msgType="1" name="TestRequest" category="Session"><fixr:structure><fixr:componentRef id="1024"/><fixr:fieldRef id="112" presence="required"/><fixr:componentRef id="1025"/></fixr:structure></fixr:message>
<fixr:message msgType="2" name="ResendRequest" category="Session"><fixr:structure><fixr:componentRef id="1024"/><fixr:fieldRef id="7" presence="required"/><fixr:fieldRef id="16" presence="required"/><fixr:componentRef id="1025"/></fixr:structure></fixr:message>
<fixr:message msgType="3" name="Reject" category="Session"><fixr:structure><fixr:componentRef id="1024"/><fixr:fieldRef id="45" presence="required"/><fixr:fieldRef id="373"/><fixr:fieldRef id="58"/><fixr:componentRef id="1025"/></fixr:structure></fixr:message>
<fixr:message msgType="4" name="SequenceReset" category="Session"><fixr:structure><fixr:componentRef id="1024"/><fixr:fieldRef id="123"/><fixr:fieldRef id="36" presence="required"/><fixr:componentRef id="1025"/></fixr:structure></fixr:message>
<fixr:message msgType="5" name="Logout" category="Session"><fixr:structure><fixr:componentRef id="1024"/><fixr:fieldRef id="58"/><fixr:componentRef id="1025"/></fixr:structure></fixr:message>
<fixr:message msgType="A" name="Logon" category="Session"><fixr:structure><fixr:componentRef id="1024"/><fixr:fieldRef id="98" presence="required"/><fixr:fieldRef id="108" presence="required"/><fixr:fieldRef id="95"/><fixr:fieldRef id="96"/><fixr:componentRef id="1025"/></fixr:structure></fixr:message>
<fixr:message msgType="D" name="NewOrderSingle" category="SingleGeneralOrderHandling"><fixr:structure><fixr:componentRef id="1024"/><fixr:fieldRef id="11" presence="required"/><fixr:groupRef id="2071"/><fixr:fieldRef id="1"/><fixr:componentRef id="1003"/><fixr:fieldRef id="54" presence="required"/><fixr:fieldRef id="114"/><fixr:componentRef id="1011"/><fixr:fieldRef id="40"/><fixr:fieldRef id="44"/><fixr:componentRef id="1000"/><fixr:fieldRef id="58"/><fixr:componentRef id="1025"/></fixr:structure></fixr:message>
<fixr:message msgType="AB" name="NewOrderMultileg" category="MultilegOrders"><fixr:structure><fixr:componentRef id="1024"/><fixr:fieldRef id="11" presence="required"/><fixr:fieldRef id="1"/><fixr:fieldRef id="54" presence="required"/><fixr:componentRef id="1003"/><fixr:groupRef id="2054"/><fixr:componentRef id="1011"/><fixr:fieldRef id="40"/><fixr:componentRef id="1025"/></fixr:structure></fixr:message>
</fixr:messages>
</fixr:repository>"#;

/// The latest version, as far as these tests speak it.
const FIX_LATEST: &str = r#"<?xml version="1.0" encoding="UTF-8"?>
<fixr:repository name="FIX.Latest" version="FIX.Latest_EP274">
<fixr:codeSets><fixr:codeSet name="SideCodeSet"><fixr:code name="Sell" value="2" sort="2"/><fixr:code name="Buy" value="1" sort="1"/></fixr:codeSet></fixr:codeSets>
<fixr:fields>
<fixr:field id="1" name="Account" type="String"/>
<fixr:field id="7" name="BeginSeqNo" type="SeqNum"/>
<fixr:field id="8" name="BeginString" type="String"/>
<fixr:field id="9" name="BodyLength" type="Length"/>
<fixr:field id="10" name="CheckSum" type="String"/>
<fixr:field id="11" name="ClOrdID" type="String"/>
<fixr:field id="12" name="Commission" type="Amt"/>
<fixr:field id="13" name="CommType" type="CommTypeCodeSet"/>
<fixr:field id="16" name="EndSeqNo" type="SeqNum"/>
<fixr:field id="34" name="MsgSeqNum" type="SeqNum"/>
<fixr:field id="35" name="MsgType" type="MsgTypeCodeSet"/>
<fixr:field id="36" name="NewSeqNo" type="SeqNum"/>
<fixr:field id="38" name="OrderQty" type="Qty"/>
<fixr:field id="40" name="OrdType" type="OrdTypeCodeSet"/>
<fixr:field id="43" name="PossDupFlag" type="PossDupFlagCodeSet"/>
<fixr:field id="44" name="Price" type="Price"/>
<fixr:field id="45" name="RefSeqNum" type="SeqNum"/>
<fixr:field id="49" name="SenderCompID" type="String"/>
<fixr:field id="50" name="SenderSubID" type="String"/>
<fixr:field id="52" name="SendingTime" type="UTCTimestamp"/>
<fixr:field id="54" name="Side" type="SideCodeSet"/>
<fixr:field id="55" name="Symbol" type="String"/>
<fixr:field id="56" name="TargetCompID" type="String"/>
<fixr:field id="58" name="Text" type="String"/>
<fixr:field id="78" name="NoAllocs" type="NumInGroup"/>
<fixr:field id="79" name="AllocAccount" type="String"/>
<fixr:field id="80" name="AllocQty" type="Qty"/>
<fixr:field id="95" name="RawDataLength" type="Length"/>
<fixr:field id="96" name="RawData" type="data"/>
<fixr:field id="97" name="PossResend" type="PossResendCodeSet"/>
<fixr:field id="98" name="EncryptMethod" type="EncryptMethodCodeSet"/>
<fixr:field id="108" name="HeartBtInt" type="int"/>
<fixr:field id="112" name="TestReqID" type="String"/>
<fixr:field id="114" name="LocateReqd" type="Boolean"/>
<fixr:field id="122" name="OrigSendingTime" type="UTCTimestamp"/>
<fixr:field id="123" name="GapFillFlag" type="GapFillFlagCodeSet"/>
<fixr:field id="373" name="SessionRejectReason" type="SessionRejectReasonCodeSet"/>
<fixr:field id="555" name="NoLegs" type="NumInGroup"/>
<fixr:field id="600" name="LegSymbol" type="String"/>
<fixr:field id="608" name="LegCFICode" type="String"/>
<fixr:field id="610" name="LegMaturityMonthYear" type="MonthYear"/>
<fixr:field id="1137" name="DefaultApplVerID" type="String"/>
</fixr:fields><fixr:components>
<fixr:component id="1024" name="StandardHeader" category="Common"><fixr:fieldRef id="8" presence="required"/><fixr:fieldRef id="9" presence="required"/><fixr:fieldRef id="35" presence="required"/><fixr:fieldRef id="49" presence="required"/><fixr:fieldRef id="56" presence="required"/><fixr:fieldRef id="34" presence="required"/><fixr:fieldRef id="50"/><fixr:fieldRef id="43"/><fixr:fieldRef id="97"/><fixr:fieldRef id="52" presence="required"/><fixr:fieldRef id="122"/></fixr:component>
<fixr:component id="1025" name="StandardTrailer" category="Common"><fixr:fieldRef id="10" presence="required"/></fixr:component>
<fixr:component id="1003" name="Instrument" category="Common"><fixr:fieldRef id="55"/></fixr:component>
<fixr:component id="1005" name="InstrumentLeg" category="Common"><fixr:fieldRef id="600"/><fixr:fieldRef id="608"/><fixr:fieldRef id="610"/></fixr:component>
<fixr:component id="1011" name="OrderQtyData" category="Common"><fixr:fieldRef id="38"/></fixr:component>
<fixr:component id="1000" name="CommissionData" category="Common"><fixr:fieldRef id="12"/><fixr:fieldRef id="13"/></fixr:component>
</fixr:components><fixr:groups>
<fixr:group id="2054" name="LegOrdGrp"><fixr:numInGroup id="555"/><fixr:componentRef id="1005"/></fixr:group>
<fixr:group id="2071" name="PreAllocGrp"><fixr:numInGroup id="78"/><fixr:fieldRef id="79"/><fixr:fieldRef id="80"/></fixr:group>
</fixr:groups><fixr:messages>
<fixr:message msgType="0" name="Heartbeat" category="Session"><fixr:structure><fixr:componentRef id="1024"/><fixr:fieldRef id="112"/><fixr:componentRef id="1025"/></fixr:structure></fixr:message>
<fixr:message msgType="1" name="TestRequest" category="Session"><fixr:structure><fixr:componentRef id="1024"/><fixr:fieldRef id="112" presence="required"/><fixr:componentRef id="1025"/></fixr:structure></fixr:message>
<fixr:message msgType="2" name="ResendRequest" category="Session"><fixr:structure><fixr:componentRef id="1024"/><fixr:fieldRef id="7" presence="required"/><fixr:fieldRef id="16" presence="required"/><fixr:componentRef id="1025"/></fixr:structure></fixr:message>
<fixr:message msgType="3" name="Reject" category="Session"><fixr:structure><fixr:componentRef id="1024"/><fixr:fieldRef id="45" presence="required"/><fixr:fieldRef id="373"/><fixr:fieldRef id="58"/><fixr:componentRef id="1025"/></fixr:structure></fixr:message>
<fixr:message msgType="4" name="SequenceReset" category="Session"><fixr:structure><fixr:componentRef id="1024"/><fixr:fieldRef id="123"/><fixr:fieldRef id="36" presence="required"/><fixr:componentRef id="1025"/></fixr:structure></fixr:message>
<fixr:message msgType="5" name="Logout" category="Session"><fixr:structure><fixr:componentRef id="1024"/><fixr:fieldRef id="58"/><fixr:componentRef id="1025"/></fixr:structure></fixr:message>
<fixr:message msgType="A" name="Logon" category="Session"><fixr:structure><fixr:componentRef id="1024"/><fixr:fieldRef id="98" presence="required"/><fixr:fieldRef id="108" presence="required"/><fixr:fieldRef id="95"/><fixr:fieldRef id="96"/><fixr:fieldRef id="1137" presence="required"/><fixr:componentRef id="1025"/></fixr:structure></fixr:message>
<fixr:message msgType="D" name="NewOrderSingle" category="SingleGeneralOrderHandling"><fixr:structure><fixr:componentRef id="1024"/><fixr:fieldRef id="11" presence="required"/><fixr:groupRef id="2071"/><fixr:fieldRef id="1"/><fixr:componentRef id="1003"/><fixr:fieldRef id="54" presence="required"/><fixr:fieldRef id="114"/><fixr:componentRef id="1011"/><fixr:fieldRef id="40"/><fixr:fieldRef id="44"/><fixr:componentRef id="1000"/><fixr:fieldRef id="58"/><fixr:componentRef id="1025"/></fixr:structure></fixr:message>
<fixr:message msgType="AB" name="NewOrderMultileg" category="MultilegOrders"><fixr:structure><fixr:componentRef id="1024"/><fixr:fieldRef id="11" presence="required"/><fixr:fieldRef id="1"/><fixr:fieldRef id="54" presence="required"/><fixr:componentRef id="1003"/><fixr:groupRef id="2054"/><fixr:componentRef id="1011"/><fixr:fieldRef id="40"/><fixr:componentRef id="1025"/></fixr:structure></fixr:message>
</fixr:messages>
</fixr:repository>"#;

fn repo() -> Arc<FixRepository> {
  let documents = vec![FIX44.as_bytes().to_vec(), FIX_LATEST.as_bytes().to_vec()];
  Arc::new(FixRepository::from_fix_orchestras(&documents).unwrap())
}

fn fix44() -> Arc<FixVersion> {
  repo().get_version("FIX.4.4").unwrap()
}

fn order(id: &str) -> Message {
  let mut msg = Message::new(fix44(), "D").unwrap();
  msg.body.set_tag(CL_ORD_ID, id);
  msg.body.set_tag(SIDE, "1");
  msg
}

fn encoded(msg: &Message) -> BytesMut {
  let mut bytes = BytesMut::new();
  FixEncoder::new(Some(b'|')).encode(&msg.as_message().unwrap(), &mut bytes).unwrap();
  bytes
}

fn decoder() -> FixDecoder {
  FixDecoder::new(repo(), Some(b'|'))
}

// ---------------------------------------------------------------------------
// Blocks
// ---------------------------------------------------------------------------

#[test]
fn what_is_set_is_read() {
  let mut block = Block::new();
  assert!(block.is_empty());
  block.set_tag(SIDE, "1");
  block.set_tag(CL_ORD_ID, "first");
  block.set_tag(CL_ORD_ID, "second");
  assert_eq!(block.tag(CL_ORD_ID).unwrap().as_string(), "second");
  assert_eq!(block.tag(SIDE).unwrap().as_string(), "1");
  assert_eq!(block.len(), 2);
  assert!(block.tag(SYMBOL).is_none());
  *block.tag_mut(SYMBOL) = TypedValue::Char('X');
  assert_eq!(block.tag(SYMBOL).unwrap().as_string(), "X");
  *block.element_mut(0) = Element::tag(SIDE, TypedValue::Int(2));
  assert_eq!(block.tag(SIDE).unwrap().as_string(), "2");
  assert_eq!(block.element(0).key(), SIDE);
}

#[test]
fn what_is_removed_is_absent() {
  let mut block = Block::new();
  block.set_tag(CL_ORD_ID, "order-1");
  assert!(block.has_tag(CL_ORD_ID));
  block.remove_tag(CL_ORD_ID);
  assert!(!block.has_tag(CL_ORD_ID));
  let mut msg = order("order-1");
  msg.body.remove_tag(CL_ORD_ID);
  assert!(msg.into_message().unwrap().get_tag(CL_ORD_ID).is_none());
}

#[test]
fn a_tag_is_pushed_only_once() {
  let mut block = Block::new();
  block.push_tag(CL_ORD_ID, "order-1").unwrap();
  let refused = block.push_tag(CL_ORD_ID, "order-2").err().unwrap();
  assert_eq!(refused.to_string(), "Invalid message: Tag 11 already exists in block");
  assert_eq!(block.tag(CL_ORD_ID).unwrap().as_string(), "order-1");
}

#[test]
fn a_group_grows_at_its_end() {
  let mut block = Block::new();
  assert!(block.group(NO_ALLOCS).is_none());
  for account in ["A", "B", "C"] {
    let mut entry = Block::new();
    entry.set_tag(ALLOC_ACCOUNT, account);
    block.push_group(NO_ALLOCS, entry);
  }
  let accounts: Vec<String> = block
    .group(NO_ALLOCS)
    .unwrap()
    .iter()
    .map(|entry| entry.tag(ALLOC_ACCOUNT).unwrap().as_string())
    .collect();
  assert_eq!(accounts, ["A", "B", "C"]);
  block.group_mut(NO_ALLOCS).pop();
  assert_eq!(block.group(NO_ALLOCS).unwrap().len(), 2);
}

// ---------------------------------------------------------------------------
// Values
// ---------------------------------------------------------------------------

#[test]
fn values_convert_into_typed_values() {
  let mut block = Block::new();
  block.set_tag(1, 7i64);
  block.set_tag(2, -7i32);
  block.set_tag(3, 7u32);
  block.set_tag(4, 7usize);
  block.set_tag(5, true);
  block.set_tag(6, "text");
  block.set_tag(7, String::from("owned"));
  block.set_tag(8, Decimal::parse("01.50").unwrap());
  let texts: Vec<String> = (1..9).map(|tag| block.tag(tag).unwrap().as_string()).collect();
  assert_eq!(texts, ["7", "-7", "7", "7", "Y", "text", "owned", "1.5"]);
  assert_eq!(*block.tag(2).unwrap(), TypedValue::Int(-7));
}

#[test]
fn typed_values_convert_where_they_can() {
  assert_eq!(TypedValue::Int(5).as_int(), Some(5));
  assert_eq!(TypedValue::String("-12".to_string()).as_int(), Some(-12));
  assert_eq!(TypedValue::String("12a".to_string()).as_int(), None);
  assert_eq!(TypedValue::Boolean(true).as_int(), None);
  assert_eq!(TypedValue::Int(5).as_float().unwrap().as_str(), "5");
  assert_eq!(TypedValue::String("1.250".to_string()).as_float().unwrap().as_str(), "1.25");
  assert_eq!(TypedValue::Char('1').as_float(), None);
  assert_eq!(TypedValue::Boolean(false).as_bool(), Some(false));
  assert_eq!(TypedValue::String("Y".to_string()).as_bool(), Some(true));
  assert_eq!(TypedValue::String("N".to_string()).as_bool(), Some(false));
  assert_eq!(TypedValue::String("maybe".to_string()).as_bool(), None);
  assert_eq!(TypedValue::Boolean(false).into_string(), "N");
  assert_eq!(TypedValue::Data(vec![0xff, 0x41]).into_raw(), [0xff, 0x41]);
  assert_eq!(TypedValue::Int(42).into_raw(), b"42");
  assert_eq!(TypedValue::default(), TypedValue::Empty);
  assert!(TypedValue::Empty.is_empty());
  assert!(TypedValue::String(String::new()).is_empty());
  assert!(!TypedValue::Int(0).is_empty());
}

#[test]
fn decimals_have_one_text_each() {
  for (given, text) in
    [("1.0", "1"), ("-0012.340", "-12.34"), (".5", "0.5"), ("5.", "5"), ("+7", "7"), ("000", "0")]
  {
    assert_eq!(Decimal::parse(given).unwrap().as_str(), text);
  }
  for given in ["", ".", "-", "1e5", "inf", "1.2.3", " 1"] {
    assert!(Decimal::parse(given).is_none(), "{given}");
  }
  assert_eq!(Decimal::from_int(-3).as_str(), "-3");
}

#[test]
fn integers_are_read_in_full_or_not_at_all() {
  let value = |s: &str| Value::from(s.to_string());
  assert_eq!(value("255").parse::<u8>(&[]), Ok(255));
  assert_eq!(value("256").parse::<u8>(&[]), Err(ParseIntError::PosOverflow));
  assert_eq!(value("+7").parse::<u32>(&[]), Ok(7));
  assert_eq!(value("").parse::<u32>(&[]), Err(ParseIntError::Empty));
  assert_eq!(value("7x").parse::<u32>(&[]), Err(ParseIntError::InvalidDigit));
  assert_eq!(value("-9223372036854775808").parse::<i64>(&[]), Ok(i64::MIN));
  assert_eq!(value("-9223372036854775809").parse::<i64>(&[]), Err(ParseIntError::NegOverflow));
  let message = ParseIntError::InvalidDigit.as_str();
  assert_eq!(message, "7x".parse::<u32>().err().unwrap().to_string());
}

// ---------------------------------------------------------------------------
// The wire
// ---------------------------------------------------------------------------

#[test]
fn a_message_on_the_wire() {
  let bytes = encoded(&order("order-1"));
  assert_eq!(&bytes[..], b"8=FIX.4.4|9=000021|35=D|11=order-1|54=1|10=254|");
}

#[test]
fn messages_line_up_in_one_buffer() {
  let mut bytes = encoded(&order("order-1"));
  let mut logout = Message::new(fix44(), "5").unwrap();
  logout.body.set_tag(fields::TEXT, "bye");
  FixEncoder::new(Some(b'|')).encode(&logout.as_message().unwrap(), &mut bytes).unwrap();
  assert!(bytes.ends_with(b"|8=FIX.4.4|9=000012|35=5|58=bye|10=109|"));

  let mut decoder = decoder();
  let first = decoder.decode(&mut bytes).unwrap().unwrap();
  let second = decoder.decode(&mut bytes).unwrap().unwrap();
  assert_eq!((first.get_type(), second.get_type()), ("D", "5"));
  assert_eq!(first.get_being_string(), "FIX.4.4");
  assert!(bytes.is_empty());
  assert!(decoder.decode(&mut bytes).unwrap().is_none());
}

#[test]
fn a_partial_frame_waits() {
  let whole = encoded(&order("order-1"));
  let mut decoder = decoder();
  for cut in 0..whole.len() {
    let mut bytes = BytesMut::from(&whole[..cut]);
    assert!(decoder.decode(&mut bytes).unwrap().is_none(), "{cut}");
    assert_eq!(bytes.len(), cut);
  }
}

#[test]
fn a_wrong_checksum_is_refused() {
  let mut bytes = BytesMut::from(&b"8=FIX.4.4|9=000021|35=D|11=order-1|54=1|10=253|"[..]);
  let refused = decoder().decode(&mut bytes).err().unwrap();
  assert_eq!(refused.to_string(), "Invalid message: Invalid checksum; expected 254 but got 253");
}

#[test]
fn a_stream_that_does_not_frame_is_refused() {
  let refused = |stream: &[u8]| {
    decoder().decode(&mut BytesMut::from(stream)).err().expect("should be refused").to_string()
  };
  assert_eq!(refused(b"8=FIX.9.9|9=5|35=0|"), "Invalid message: Unknown FIX version");
  assert_eq!(refused(b"8=FIX.4.4|9=many|35=0|"), "Invalid message: Invalid BodyLength value");
  assert!(refused(b"9=5|35=0|").starts_with("Invalid message: "));
  assert!(refused(b"8=FIX.4.4|35=0|9=5|").starts_with("Invalid message: "));
  assert!(refused(b"8=FIX.4.4|9=5|35=0|11=7|").starts_with("Invalid message: "));
}

#[test]
fn the_version_is_latched_by_the_first_message() {
  let mut decoder = decoder();
  assert!(decoder.fix_version().is_none());
  assert_eq!(decoder.delimiter(), b'|');
  decoder.decode(&mut encoded(&order("order-1"))).unwrap().unwrap();
  assert_eq!(decoder.fix_version().unwrap().name, "FIX.4.4");
  let ready = FixDecoder::with_version(repo(), None, fix44());
  assert_eq!(ready.fix_version().unwrap().name, "FIX.4.4");
  assert_eq!(ready.delimiter(), 0x01);
}

#[test]
fn a_body_too_long_for_its_length_is_refused() {
  let mut msg = order("order-1");
  msg.body.set_tag(fields::TEXT, "x".repeat(1_000_000));
  let mut bytes = BytesMut::new();
  let refused =
    FixEncoder::new(None).encode(&msg.as_message().unwrap(), &mut bytes).err().unwrap();
  assert_eq!(refused.to_string(), "Invalid message: message body is too long for BodyLength");
  assert!(bytes.is_empty());
}

#[test]
fn raw_data_may_hold_the_delimiter() {
  let data = Bytes::from_static(b"8=FIX.4.4|9=0|35=A|95=5|96=a|b=c|108=30|10=000|");
  let (msg, consumed) = FixMessage::from_bytes_delimited(fix44(), data.clone(), b'|').unwrap();
  assert_eq!(consumed, data.len());
  assert_eq!(msg.get_tag(96).unwrap().as_bytes(&msg.data), b"a|b=c");
  assert_eq!(msg.get_tag(fields::HEART_BT_INT).unwrap().to_string(&msg.data), "30");
}

#[test]
fn text_that_is_no_message_is_refused() {
  let refused = |text: &'static [u8]| {
    FixMessage::from_bytes_delimited(fix44(), Bytes::from_static(text), b'|')
      .err()
      .expect("should be refused")
      .to_string()
  };
  assert!(refused(b"8=FIX.4.4|x=1|").contains("Unable to parse a tag number from x"));
  assert_eq!(refused(b"8=FIX.4.4|nonsense|10=000|"), "Invalid message: Missing tag");
  assert_eq!(
    refused(b"8=FIX.4.2|35=0|10=000|"),
    "Invalid message: Invalid FIX version: expected FIX.4.4, got FIX.4.2"
  );
  assert!(refused(b"8=FIX.4.4|95=x|10=000|").contains("Unable to parse a data length from x"));
}

#[test]
fn text_that_is_no_utf8_is_not_read_as_text() {
  let data = Bytes::from_static(b"8=FIX.4.4|35=\xff|11=x|10=000|");
  let (msg, _) = FixMessage::from_bytes_delimited(fix44(), data, b'|').unwrap();
  assert!(!msg.readable());
  let refused = Message::from_message(&msg).err().unwrap();
  assert_eq!(refused.to_string(), "Invalid message: field cannot be read");

  let data = Bytes::from_static(b"8=FIX.4.4|35=D|11=a\xff|10=000|");
  let (msg, _) = FixMessage::from_bytes_delimited(fix44(), data, b'|').unwrap();
  let order = Message::from_message(&msg).unwrap();
  assert_eq!(order.body.tag(CL_ORD_ID).unwrap().as_string(), "a\u{fffd}");

  let garbled = Bytes::from_static(b"8=FIX.4.4|\xff=1|");
  let refused = FixMessage::from_bytes_delimited(fix44(), garbled, b'|').err().unwrap();
  assert!(refused.to_string().ends_with("\u{fffd}"), "{}", refused.to_string());
}

#[test]
fn a_message_without_a_sending_time_is_not_stamped() {
  let moment = UtcTime::from_timestamp(1_700_000_000, 0).unwrap();
  let mut bare = FixMessage::of_type(fix44(), "D");
  let refused = stamp_sending_time(&mut bare, moment, TimePrecision::Millis).err().unwrap();
  assert_eq!(
    refused.to_string(),
    "Invalid message: outbound message has no SendingTime field to stamp"
  );

  let mut msg = order("order-1");
  msg.header.set_tag(fields::SENDING_TIME, "placeholder");
  let mut flat = msg.as_message().unwrap();
  let mut bytes = BytesMut::new();
  let mut encoder = FixEncoder::new(Some(b'|')).with_precision(TimePrecision::Millis);
  encoder.encode_stamped(&mut flat, moment, &mut bytes).unwrap();
  let read = decoder().decode(&mut bytes).unwrap().unwrap();
  assert_eq!(read.get_tag(fields::SENDING_TIME).unwrap().to_string(&read.data), "20231114-22:13:20.000");
}

// ---------------------------------------------------------------------------
// Whole messages
// ---------------------------------------------------------------------------

#[test]
fn a_message_survives_the_wire() {
  let mut msg = order("order-1");
  msg.header.set_tag(fields::MSG_SEQ_NUM, 7u32);
  msg.header.set_tag(fields::SENDER_COMP_ID, "CLIENT");
  msg.body.set_tag(38, Decimal::parse("12.5").unwrap());
  msg.body.set_tag(114, true);
  for (account, quantity) in [("A", 1i64), ("B", 2)] {
    let mut entry = Block::new();
    entry.set_tag(ALLOC_ACCOUNT, account);
    entry.set_tag(80, quantity);
    msg.body.push_group(NO_ALLOCS, entry);
  }
  let read = decoder().decode(&mut encoded(&msg)).unwrap().unwrap();
  let back = Message::from_message(&read).unwrap();
  assert_eq!(back.describe(), msg.describe());
  assert_eq!(back.body.group(NO_ALLOCS).unwrap().len(), 2);
  assert_eq!(back.header.tag(fields::MSG_SEQ_NUM).unwrap().as_int(), Some(7));
  assert_eq!(back.body.tag(114).unwrap().as_bool(), Some(true));
  assert!(read.same_as(&read.duplicate()));
}

#[test]
fn a_message_for_a_human_to_read() {
  let mut msg = order("order-1");
  let mut entry = Block::new();
  entry.set_tag(ALLOC_ACCOUNT, "A");
  msg.body.push_group(NO_ALLOCS, entry);
  assert_eq!(
    msg.describe(),
    "8=FIX.4.4\n35=D\n11=order-1\n54=1\nGroup 78 [PreAllocGrp]\n  78[0].79=A\n"
  );
}

#[test]
fn a_normal_form_is_its_own_normal_form() {
  let mut msg = Message::new(fix44(), "D").unwrap();
  msg.body.set_tag(SIDE, "1");
  msg.body.set_tag(SYMBOL, "AAPL");
  msg.body.set_tag(9999, "unknown");
  msg.body.set_tag(CL_ORD_ID, "order-1");
  let once = msg.normalize().unwrap();
  let tags: Vec<u32> = once.body.iter().iter().map(|e| e.key()).collect();
  assert_eq!(tags, [CL_ORD_ID, SYMBOL, SIDE, 9999]);
  let twice = once.normalize().unwrap();
  assert_eq!(once.describe(), twice.describe());
}

#[test]
fn unknown_tags_are_sorted_by_number() {
  let text = b"8=FIX.4.4|35=D|49=S|56=T|34=1|11=A|5100=x|5001=y|10=000|";
  let msg = Message::from_bytes_delimited(fix44(), text, b'|').unwrap();
  let normal = msg.normalize().unwrap().as_message().unwrap();
  let tags: Vec<u32> = normal.tags.iter().map(|t| t.0).collect();
  assert_eq!(tags, [8, 35, 49, 56, 34, 11, 5001, 5100]);
}

#[test]
fn the_order_inside_a_message_does_not_show_in_its_normal_form() {
  let first = {
    let mut msg = Message::new(fix44(), "D").unwrap();
    msg.header.set_tag(49, "S");
    msg.header.set_tag(56, "T");
    for (account, qty) in [("A", "10"), ("B", "20")] {
      let mut entry = Block::new();
      entry.set_tag(ALLOC_ACCOUNT, account);
      entry.set_tag(80, qty);
      msg.body.push_group(NO_ALLOCS, entry);
    }
    msg.body.set_tag(CL_ORD_ID, "order-1");
    msg.body.set_tag(SIDE, "1");
    msg
  };
  let second = {
    let mut msg = Message::new(fix44(), "D").unwrap();
    msg.header.set_tag(56, "T");
    msg.header.set_tag(49, "S");
    msg.body.set_tag(SIDE, "1");
    msg.body.set_tag(CL_ORD_ID, "order-1");
    for (account, qty) in [("A", "10"), ("B", "20")] {
      let mut entry = Block::new();
      entry.set_tag(80, qty);
      entry.set_tag(ALLOC_ACCOUNT, account);
      msg.body.push_group(NO_ALLOCS, entry);
    }
    msg
  };
  let normal = first.normalize().unwrap();
  assert_eq!(
    encoded(&normal).to_vec(),
    b"8=FIX.4.4|9=000058|35=D|49=S|56=T|11=order-1|78=2|79=A|80=10|79=B|80=20|54=1|10=045|"
      .to_vec()
  );
  assert_ne!(encoded(&first), encoded(&second));
  assert_eq!(encoded(&second.normalize().unwrap()), encoded(&normal));
  assert_eq!(encoded(&normal.normalize().unwrap()), encoded(&normal));
}

#[test]
fn what_is_taken_apart_and_flattened_keeps_its_order() {
  let text = b"8=FIX.4.4|9=0|35=D|56=T|49=S|54=1|78=2|79=A|80=1|79=B|5001=y|11=x|58=|10=000|";
  let msg = Message::from_bytes_delimited(fix44(), text, b'|').unwrap();
  let flat = msg.as_message().unwrap();
  let tags: Vec<u32> = flat.tags.iter().map(|t| t.0).collect();
  assert_eq!(tags, [8, 35, 56, 49, 54, 78, 79, 80, 79, 5001, 11, 58]);
}

/// A version in which allocations hold legs, and a message that knows both groups.
const NESTED: &str = r#"<fixr:repository name="FIX.4.4" version="FIX.4.4"><fixr:fields>
<fixr:field id="8" name="BeginString" type="String"/>
<fixr:field id="9" name="BodyLength" type="Length"/>
<fixr:field id="10" name="CheckSum" type="String"/>
<fixr:field id="11" name="ClOrdID" type="String"/>
<fixr:field id="35" name="MsgType" type="String"/>
<fixr:field id="49" name="SenderCompID" type="String"/>
<fixr:field id="54" name="Side" type="String"/>
<fixr:field id="78" name="NoAllocs" type="NumInGroup"/>
<fixr:field id="79" name="AllocAccount" type="String"/>
<fixr:field id="80" name="AllocQty" type="String"/>
<fixr:field id="555" name="NoLegs" type="NumInGroup"/>
<fixr:field id="600" name="LegSymbol" type="String"/>
<fixr:field id="627" name="NoHops" type="NumInGroup"/>
<fixr:field id="628" name="HopCompID" type="String"/>
</fixr:fields><fixr:components>
<fixr:component id="1024" name="StandardHeader"><fixr:fieldRef id="8"/><fixr:fieldRef id="9"/><fixr:fieldRef id="35"/><fixr:fieldRef id="49"/><fixr:groupRef id="2085"/></fixr:component>
</fixr:components><fixr:groups>
<fixr:group id="2054" name="LegGrp"><fixr:numInGroup id="555"/><fixr:fieldRef id="600"/></fixr:group>
<fixr:group id="2071" name="AllocGrp"><fixr:numInGroup id="78"/><fixr:fieldRef id="79"/><fixr:groupRef id="2054"/><fixr:fieldRef id="80"/></fixr:group>
<fixr:group id="2085" name="HopGrp"><fixr:numInGroup id="627"/><fixr:fieldRef id="628"/></fixr:group>
</fixr:groups><fixr:messages>
<fixr:message msgType="D" name="Order"><fixr:structure><fixr:componentRef id="1024"/><fixr:fieldRef id="11"/><fixr:groupRef id="2071"/><fixr:groupRef id="2054"/><fixr:fieldRef id="54"/></fixr:structure></fixr:message>
</fixr:messages></fixr:repository>"#;

#[test]
fn groups_inside_groups_survive_the_wire() {
  let repo = Arc::new(FixRepository::from_fix_orchestras(&vec![NESTED.as_bytes().to_vec()]).unwrap());
  let mut msg = Message::new(repo.get_version("FIX.4.4").unwrap(), "D").unwrap();
  msg.header.set_tag(49, "S");
  for hop in ["H1", "H2"] {
    let mut entry = Block::new();
    entry.set_tag(628, hop);
    msg.header.push_group(627, entry);
  }
  msg.body.set_tag(CL_ORD_ID, "x");
  for account in ["A", "B"] {
    let mut entry = Block::new();
    entry.set_tag(ALLOC_ACCOUNT, account);
    for symbol in ["P", "Q"] {
      let mut leg = Block::new();
      leg.set_tag(600, symbol);
      entry.push_group(555, leg);
    }
    if account == "A" {
      entry.set_tag(80, "1");
    }
    msg.body.push_group(NO_ALLOCS, entry);
  }
  msg.body.set_tag(SIDE, "1");

  let wire = encoded(&msg);
  let text = String::from_utf8(wire.to_vec()).unwrap();
  assert!(text.contains(
    "|49=S|627=2|628=H1|628=H2|11=x|78=2|79=A|555=2|600=P|600=Q|80=1|79=B|555=2|600=P|600=Q|54=1|"
  ));
  let mut bytes = wire.clone();
  let read = FixDecoder::new(repo, Some(b'|')).decode(&mut bytes).unwrap().unwrap();
  let back = Message::from_message(&read).unwrap();
  assert_eq!(back.describe(), msg.describe());
  assert_eq!(back.header.group(627).unwrap().len(), 2);
  let allocs = back.body.group(NO_ALLOCS).unwrap();
  assert_eq!(allocs.len(), 2);
  assert_eq!(allocs[1].group(555).unwrap().len(), 2);
  assert_eq!(encoded(&back), wire);
}

#[test]
fn a_message_type_has_to_be_known() {
  let refused = Message::new(fix44(), "??").err().unwrap();
  assert_eq!(refused.to_string(), "Invalid message: Invalid message type");
}

#[test]
fn admin_messages_are_told_apart() {
  for (msg_type, admin) in [("A", true), ("0", true), ("5", true), ("D", false), ("AB", false)] {
    let msg = Message::new(fix44(), msg_type).unwrap();
    assert_eq!(msg.is_admin_message(), admin, "{msg_type}");
    assert_eq!(FixMessage::of_type(fix44(), msg_type).is_admin_message(), admin, "{msg_type}");
  }
}

#[test]
fn groups_that_do_not_belong_are_refused() {
  let text = b"8=FIX.4.4|9=0|35=D|11=x|555=1|600=Y|10=000|";
  let refused = Message::from_bytes_delimited(fix44(), text, b'|').err().unwrap();
  assert_eq!(refused.to_string(), "Invalid message: Invalid group 555 in message NewOrderSingle");
  let text = b"8=FIX.4.4|9=0|35=D|11=x|78=many|10=000|";
  let refused = Message::from_bytes_delimited(fix44(), text, b'|').err().unwrap();
  assert_eq!(
    refused.to_string(),
    "Invalid message: invalid integer field: invalid digit found in string"
  );
}
