//! The fields that the session layer reads and writes, by tag number.

use vstd::prelude::*;

verus! {

pub const BEGIN_SEQ_NO: u32 = 7;

pub const BEGIN_STRING: u32 = 8;

pub const BODY_LENGTH: u32 = 9;

pub const CHECK_SUM: u32 = 10;

pub const END_SEQ_NO: u32 = 16;

pub const MSG_SEQ_NUM: u32 = 34;

pub const MSG_TYPE: u32 = 35;

pub const NEW_SEQ_NO: u32 = 36;

pub const POSS_DUP_FLAG: u32 = 43;

pub const SENDER_COMP_ID: u32 = 49;

pub const SENDING_TIME: u32 = 52;

pub const TARGET_COMP_ID: u32 = 56;

pub const TEXT: u32 = 58;

pub const ENCRYPT_METHOD: u32 = 98;

pub const HEART_BT_INT: u32 = 108;

pub const TEST_REQ_ID: u32 = 112;

pub const ORIG_SENDING_TIME: u32 = 122;

pub const GAP_FILL_FLAG: u32 = 123;

pub const DEFAULT_APPL_VER_ID: u32 = 1137;

} // verus!
