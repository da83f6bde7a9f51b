//! Wire framing: splitting a byte stream into [`FixMessage`]s and back again.
//!
//! Both halves are ordinary synchronous functions over [`bytes::BytesMut`].
//! There is no runtime here and no trait to implement — [`FixDecoder::decode`]
//! takes whatever bytes you have and returns a message once one is complete,
//! and [`FixEncoder::encode`] appends a message's wire form to a buffer.
//!
//! # Framing
//!
//! A FIX message is `BeginString(8)`, `BodyLength(9)`, the body, then
//! `CheckSum(10)`. `BodyLength` covers everything between the end of tag 9 and
//! the start of tag 10, so the frame boundary is known once the header has been
//! read. The decoder verifies the checksum before handing a message back;
//! a mismatch is an [`Error::InvalidMessage`] and, at the session layer, fatal
//! to the connection.

use std::sync::Arc;

use bytes::BytesMut;
use vstd::prelude::*;
use vstd::slice::slice_subrange;
use vstd::string::*;

use crate::buffer::{buffer_slice, buffered, bytes_slice};
use crate::error::{Error, ErrorView, Result};
use crate::message::{first_tag, FixMessage, MessageView, Tags, Value, ValueView};
use crate::repository::{FixRepository, FixVersion};
use crate::schema::fields::SENDING_TIME;
use crate::text::{ascii_chars, decimal_text, push_decimal};
use crate::time::{fix_time, TimePrecision, UtcTime};
use crate::wire::{
    checksum, checksum_of, parse, peek_checksum, peek_header, peek_infer_version_and_length,
    peek_trailer, Scan, BODY_LIMIT,
};

verus! {

/// The field separator FIX uses on the wire: ASCII SOH.
pub const SOH: u8 = 1;

/// A decoder by what it knows.
pub ghost struct DecoderView {
    pub repo: FixRepository,
    pub delimiter: u8,
    /// The version latched onto, once a message's front has been seen.
    pub fix_version: Option<Arc<FixVersion>>,
}

/// What one attempt to take a message off the front of a buffer gives.
pub ghost struct Decoded {
    /// The version latched onto from here on.
    pub fix_version: Option<Arc<FixVersion>>,
    /// How many bytes leave the buffer.
    pub consumed: int,
    /// The tags of the message over those bytes, or nothing where the frame is
    /// still incomplete.
    pub result: std::result::Result<Option<Tags>, ErrorView>,
}

impl DecoderView {
    /// Decode from a buffer that holds `s`.
    pub open spec fn decode(self, s: Seq<u8>) -> Decoded {
        match peek_header(self.repo, s, self.delimiter) {
            Err(e) => Decoded { fix_version: self.fix_version, consumed: 0, result: Err(e) },
            Ok(envelope) => {
                let latched = match self.fix_version {
                    Some(v) => Some(v),
                    None => envelope.fix_version,
                };
                if latched is None || envelope.body_length is None {
                    Decoded { fix_version: latched, consumed: 0, result: Ok(None) }
                } else {
                    self.decode_body(
                        s,
                        latched->0,
                        envelope.header_length + envelope.body_length->0,
                    )
                }
            },
        }
    }

    /// Decode a message whose trailer starts at `trailer`.
    pub open spec fn decode_body(
        self,
        s: Seq<u8>,
        latched: Arc<FixVersion>,
        trailer: int,
    ) -> Decoded {
        let fix_version = Some(latched);
        if s.len() <= trailer {
            Decoded { fix_version, consumed: 0, result: Ok(None) }
        } else {
            match peek_trailer(s.skip(trailer), self.delimiter) {
                Err(e) => Decoded { fix_version, consumed: 0, result: Err(e) },
                Ok(None) => Decoded { fix_version, consumed: 0, result: Ok(None) },
                Ok(Some((sum, n))) => {
                    let consumed = trailer + n;
                    let expected = checksum(s.take(trailer));
                    Decoded {
                        fix_version,
                        consumed,
                        result: if sum != expected {
                            Err(
                                ErrorView::InvalidMessage(
                                    "Invalid checksum; expected "@ + decimal_text(expected as nat)
                                        + " but got "@ + decimal_text(sum as nat),
                                ),
                            )
                        } else {
                            match parse(*latched, s.take(consumed), self.delimiter) {
                                Scan::Bad(e) => Err(e),
                                Scan::Fields(tags, took) => if took != consumed {
                                    Err(
                                        ErrorView::InvalidMessage(
                                            "Consumed length does not match expected length"@,
                                        ),
                                    )
                                } else {
                                    Ok(Some(tags))
                                },
                            }
                        },
                    }
                },
            }
        }
    }
}

/// Splits a byte stream into [`FixMessage`]s, verifying `BodyLength` and
/// `CheckSum`.
///
/// The decoder latches the FIX version inferred from the first message's
/// `BeginString` and reuses it thereafter, so a session cannot silently change
/// version mid-stream.
pub struct FixDecoder {
    repo: Arc<FixRepository>,
    delimiter: u8,
    fix_version: Option<Arc<FixVersion>>,
}

impl View for FixDecoder {
    type V = DecoderView;

    closed spec fn view(&self) -> DecoderView {
        DecoderView {
            repo: *self.repo,
            delimiter: self.delimiter,
            fix_version: self.fix_version,
        }
    }
}

impl Clone for FixDecoder {
    fn clone(&self) -> (r: Self)
        ensures
            r@ == self@,
    {
        FixDecoder {
            repo: self.repo.clone(),
            delimiter: self.delimiter,
            fix_version: match &self.fix_version {
                Some(v) => Some(v.clone()),
                None => None,
            },
        }
    }
}

impl FixDecoder {
    /// A decoder that infers the FIX version from the first message it sees.
    ///
    /// `delimiter` is the field separator; pass `None` for the wire default
    /// [`SOH`]. A printable delimiter such as `b'|'` is convenient in tests and
    /// logs.
    pub fn new(repo: Arc<FixRepository>, delimiter: Option<u8>) -> (r: Self)
        ensures
            r@ == (DecoderView {
                repo: *repo,
                delimiter: if delimiter is Some {
                    delimiter->0
                } else {
                    SOH
                },
                fix_version: None,
            }),
    {
        FixDecoder { repo, delimiter: delimiter.unwrap_or(SOH), fix_version: None }
    }

    /// A decoder pinned to a known version, for a session that has already
    /// negotiated one.
    pub fn with_version(
        repo: Arc<FixRepository>,
        delimiter: Option<u8>,
        fix_version: Arc<FixVersion>,
    ) -> (r: Self)
        ensures
            r@ == (DecoderView {
                repo: *repo,
                delimiter: if delimiter is Some {
                    delimiter->0
                } else {
                    SOH
                },
                fix_version: Some(fix_version),
            }),
    {
        FixDecoder { repo, delimiter: delimiter.unwrap_or(SOH), fix_version: Some(fix_version) }
    }

    /// The FIX version this decoder has latched onto, if it has seen a message.
    pub fn fix_version(&self) -> (r: Option<&Arc<FixVersion>>)
        ensures
            match r {
                Some(v) => self@.fix_version == Some(*v),
                None => self@.fix_version is None,
            },
    {
        self.fix_version.as_ref()
    }

    pub fn delimiter(&self) -> (r: u8)
        ensures
            r == self@.delimiter,
    {
        self.delimiter
    }

    /// Take one complete message off the front of `data`, if there is one.
    ///
    /// Returns `Ok(None)` when `data` holds only a partial frame — call again
    /// once more bytes have arrived. Consumed bytes are split off `data`;
    /// anything left is the start of the next frame.
    pub fn decode(&mut self, data: &mut BytesMut) -> (r: Result<Option<FixMessage>>)
        ensures
            final(self)@ == (DecoderView {
                fix_version: old(self)@.decode(buffered(*old(data))).fix_version,
                ..old(self)@
            }),
            buffered(*final(data)) == buffered(*old(data)).skip(
                old(self)@.decode(buffered(*old(data))).consumed,
            ),
            match old(self)@.decode(buffered(*old(data))).result {
                Err(e) => r matches Err(err) && err@ == e,
                Ok(None) => r matches Ok(None),
                Ok(Some(tags)) => r matches Ok(Some(msg)) && msg@ == (MessageView {
                    fix_version: *final(self)@.fix_version->0,
                    data: buffered(*old(data)).take(
                        old(self)@.decode(buffered(*old(data))).consumed,
                    ),
                    tags,
                }) && Some(msg.fix_version) == final(self)@.fix_version,
            },
            r matches Ok(Some(msg)) ==> msg@.in_range(),
    {
        let ghost s = buffered(*data);
        assert(s.skip(0) =~= s);
        let (version, body_len, header_len): (Option<Arc<FixVersion>>, Option<usize>, usize) =
            match peek_infer_version_and_length(&self.repo, buffer_slice(data), self.delimiter) {
            Ok(found) => found,
            Err(e) => {
                return Err(e);
            },
        };
        if self.fix_version.is_none() {
            self.fix_version = version;
        }
        let fix_version = match &self.fix_version {
            Some(v) => v.clone(),
            None => {
                return Ok(None);
            },
        };
        let msg_len: usize = match body_len {
            Some(n) => n,
            None => {
                return Ok(None);
            },
        };
        let available: usize = buffer_slice(data).len();
        if msg_len >= available - header_len {
            // Either part message or no additional checksum
            return Ok(None);
        }
        let trailer: usize = header_len + msg_len;
        let tail = slice_subrange(buffer_slice(data), trailer, available);
        assert(tail@ =~= s.skip(trailer as int));
        let (sum, sum_len): (u8, usize) = match peek_checksum(&self.repo, tail, self.delimiter) {
            Ok((Some(sum), n)) => (sum, n),
            Ok((None, _)) => {
                return Ok(None);
            },
            Err(e) => {
                return Err(e);
            },
        };
        let frame = data.split_to(trailer + sum_len);
        let bytes = frame.freeze();
        let front = slice_subrange(bytes_slice(&bytes), 0, trailer);
        assert(front@ =~= s.take(trailer as int));
        let expected: u8 = checksum_of(front);
        if sum != expected {
            let mut text = "Invalid checksum; expected ".to_owned();
            push_decimal(&mut text, expected as u64);
            text.append(" but got ");
            push_decimal(&mut text, sum as u64);
            return Err(Error::invalid_message(text.as_str()));
        }
        match FixMessage::from_bytes_delimited(fix_version, bytes, self.delimiter) {
            Err(e) => Err(e),
            Ok((msg, consumed)) => {
                if consumed != trailer + sum_len {
                    return Err(
                        Error::invalid_message("Consumed length does not match expected length"),
                    );
                }
                Ok(Some(msg))
            },
        }
    }
}

/// Serialises [`FixMessage`]s onto the wire, computing `BodyLength` and
/// `CheckSum`.
#[derive(Clone, Copy)]
pub struct FixEncoder {
    pub delimiter: u8,
    pub precision: TimePrecision,
}

/// The tags of a message with `SendingTime` overwritten by `stamp`.
pub open spec fn stamped(tags: Tags, stamp: Seq<u8>) -> Option<Tags> {
    let i = first_tag(tags, SENDING_TIME, 0);
    if i < tags.len() {
        Some(tags.update(i, (SENDING_TIME, ValueView::String(ascii_chars(stamp)))))
    } else {
        None
    }
}

impl FixEncoder {
    pub fn new(delimiter: Option<u8>) -> (r: Self)
        ensures
            r.delimiter == (if delimiter is Some {
                delimiter->0
            } else {
                SOH
            }),
            r.precision == TimePrecision::Nanos,
    {
        FixEncoder { delimiter: delimiter.unwrap_or(SOH), precision: TimePrecision::Nanos }
    }

    /// Set the precision used by [`encode_stamped`](Self::encode_stamped).
    pub fn with_precision(self, precision: TimePrecision) -> (r: Self)
        ensures
            r == (FixEncoder { precision, ..self }),
    {
        FixEncoder { delimiter: self.delimiter, precision }
    }

    pub fn delimiter(&self) -> (r: u8)
        ensures
            r == self.delimiter,
    {
        self.delimiter
    }

    pub fn precision(&self) -> (r: TimePrecision)
        ensures
            r == self.precision,
    {
        self.precision
    }

    /// Append `msg`'s wire form to `dst`.
    ///
    /// Takes the message by reference: the caller usually still needs it, to
    /// hand to the application as a record of what was sent.
    pub fn encode(&mut self, msg: &FixMessage, dst: &mut BytesMut) -> (r: Result<()>)
        requires
            msg@.in_range(),
            msg@.text_at(35),
        ensures
            *final(self) == *old(self),
            r is Ok <==> msg@.wire_body(old(self).delimiter).len() < BODY_LIMIT,
            r is Ok ==> buffered(*final(dst)) == buffered(*old(dst)) + msg@.wire(
                old(self).delimiter,
            ),
            r is Err ==> *final(dst) == *old(dst),
            r is Err ==> r->Err_0@ == ErrorView::InvalidMessage(
                "message body is too long for BodyLength"@,
            ),
    {
        msg.write_to(dst, self.delimiter)
    }

    /// Stamp `SendingTime`, then serialise.
    ///
    /// This is the form the session layer's output should use: it fills in the
    /// slot the state machine reserved, so the clock is read once per message
    /// and as late as possible, and `BodyLength`/`CheckSum` are computed over
    /// the stamped message rather than the placeholder.
    pub fn encode_stamped(
        &mut self,
        msg: &mut FixMessage,
        sending_time: UtcTime,
        dst: &mut BytesMut,
    ) -> (r: Result<()>)
        requires
            old(msg)@.in_range(),
            old(msg)@.text_at(35),
        ensures
            *final(self) == *old(self),
            final(msg).fix_version == old(msg).fix_version,
            final(msg)@.in_range(),
            final(msg)@.text_at(35),
            match stamped(old(msg)@.tags, sending_time.stamp(old(self).precision)) {
                None => {
                    &&& r matches Err(e) && e@ == ErrorView::InvalidMessage(
                        "outbound message has no SendingTime field to stamp"@,
                    )
                    &&& final(msg)@ == old(msg)@
                    &&& *final(dst) == *old(dst)
                },
                Some(tags) => {
                    &&& final(msg)@ == (MessageView { tags, ..old(msg)@ })
                    &&& r is Ok <==> final(msg)@.wire_body(old(self).delimiter).len() < BODY_LIMIT
                    &&& r is Ok ==> buffered(*final(dst)) == buffered(*old(dst))
                        + final(msg)@.wire(old(self).delimiter)
                    &&& r is Err ==> *final(dst) == *old(dst) && r->Err_0@
                        == ErrorView::InvalidMessage("message body is too long for BodyLength"@)
                },
            },
    {
        match stamp_sending_time(msg, sending_time, self.precision) {
            Err(e) => Err(e),
            Ok(_) => self.encode(msg, dst),
        }
    }
}

/// Stamping leaves a message as readable as it was.
pub proof fn lemma_stamped(m: MessageView, tags: Tags, stamp: Seq<u8>)
    requires
        stamped(m.tags, stamp) == Some(tags),
    ensures
        m.in_range() ==> (MessageView { tags, ..m }).in_range(),
        forall|tag: u32| tag != SENDING_TIME ==> #[trigger] (MessageView { tags, ..m }).value(tag)
            == m.value(tag),
        (MessageView { tags, ..m }).value(SENDING_TIME) == Some(
            ValueView::String(ascii_chars(stamp)),
        ),
{
    let i = first_tag(m.tags, SENDING_TIME, 0);
    crate::message::lemma_first_tag(m.tags, SENDING_TIME, 0);
    crate::message::lemma_first_tag_is(tags, SENDING_TIME, 0, i);
    assert forall|tag: u32| tag != SENDING_TIME implies #[trigger] (MessageView {
        tags,
        ..m
    }).value(tag) == m.value(tag) by {
        crate::message::lemma_first_tag(m.tags, tag, 0);
        let p = first_tag(m.tags, tag, 0);
        assert(p < tags.len() ==> p != i && tags[p] == m.tags[p]);
        assert forall|k: int| 0 <= k < p implies (#[trigger] tags[k]).0 != tag by {
            assert(m.tags[k].0 != tag);
        }
        crate::message::lemma_first_tag_is(tags, tag, 0, p);
    }
}

/// Overwrite `msg`'s `SendingTime` with `moment`.
///
/// Always overwrites, never fills-only-if-absent: a replayed message arrives
/// carrying the timestamp from when it was *originally* sent (which the session
/// has already copied into `OrigSendingTime`), and it must go back out with a
/// fresh one.
///
/// The field must already be present. The session layer reserves it so it sits
/// in its proper place in the header; erroring here rather than inserting keeps
/// a driver that forgets to stamp from silently emitting messages with no
/// `SendingTime` at all.
pub fn stamp_sending_time(msg: &mut FixMessage, moment: UtcTime, precision: TimePrecision) -> (r:
    Result<()>)
    ensures
        final(msg).fix_version == old(msg).fix_version,
        match stamped(old(msg)@.tags, moment.stamp(precision)) {
            None => {
                &&& r matches Err(e) && e@ == ErrorView::InvalidMessage(
                    "outbound message has no SendingTime field to stamp"@,
                )
                &&& final(msg)@ == old(msg)@
            },
            Some(tags) => {
                &&& r is Ok
                &&& final(msg)@ == (MessageView { tags, ..old(msg)@ })
                &&& old(msg)@.in_range() ==> final(msg)@.in_range()
                &&& old(msg)@.text_at(35) ==> final(msg)@.text_at(35)
                &&& old(msg)@.is_readable() ==> final(msg)@.is_readable()
            },
        },
{
    match msg.find_tag(SENDING_TIME) {
        Some(i) => {
            let stamp = fix_time(moment, precision);
            let text = stamp.to_string();
            msg.tags.set(i, (SENDING_TIME, Value::String(text)));
            proof {
                assert(msg@.tags =~= stamped(old(msg)@.tags, moment.stamp(precision))->0);
                lemma_stamped(old(msg)@, msg@.tags, moment.stamp(precision));
                assert(msg@.value(35) == old(msg)@.value(35));
            }
            Ok(())
        },
        None => Err(Error::invalid_message("outbound message has no SendingTime field to stamp")),
    }
}

} // verus!
