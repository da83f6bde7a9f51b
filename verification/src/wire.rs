//! The wire form of a message: what it is, writing it and reading it.
//!
//! A FIX message is `BeginString(8)`, `BodyLength(9)`, the body, then
//! `CheckSum(10)`: a run of `tag=value` fields, each closed by a delimiter.

use std::sync::Arc;

use bytes::{Bytes, BytesMut};
use vstd::prelude::*;
use vstd::slice::slice_subrange;
use vstd::string::*;
use vstd::utf8::*;

use crate::buffer::{buffered, bytes_of, bytes_slice};
use crate::error::{Error, ErrorView, Result};
use crate::message::{
    first_tag, is_framing, tag_value, tags_view, FixMessage, MessageView, TagValue, Tags, ValRef,
    Value, ValueView,
};
use crate::repository::{FixRepository, FixVersion};
use crate::text::{
    bytes_eq, decimal, decimal_text, extend_decimal, extend_padded, find_byte, joined, next_of,
    padded, push_decimal, shown_text, utf8_lossy, utf8_text, ParseInteger,
};

verus! {

broadcast use vstd::string::group_string_axioms;

// ---------------------------------------------------------------------------
// Writing
// ---------------------------------------------------------------------------

/// The sum of the bytes, modulo 256.
pub open spec fn checksum(s: Seq<u8>) -> u8
    decreases s.len(),
{
    if s.len() == 0 {
        0
    } else {
        ((checksum(s.drop_last()) + s.last()) % 256) as u8
    }
}

pub fn checksum_of(s: &[u8]) -> (r: u8)
    ensures
        r == checksum(s@),
{
    let mut sum: u8 = 0;
    let mut i: usize = 0;
    while i < s.len()
        invariant
            i <= s@.len(),
            sum == checksum(s@.take(i as int)),
        decreases s@.len() - i,
    {
        sum = sum.wrapping_add(s[i]);
        i += 1;
        assert(s@.take(i as int).drop_last() =~= s@.take(i - 1));
    }
    assert(s@.take(i as int) =~= s@);
    sum
}

/// The delimiter as a character of text, in UTF-8. One byte where the delimiter
/// is ASCII.
pub open spec fn delimiter_text(delimiter: u8) -> Seq<u8> {
    encode_utf8(seq![delimiter as char])
}

/// One field: `tag=value` and the delimiter.
pub open spec fn wire_field(tag: u32, bytes: Seq<u8>, delimiter: u8) -> Seq<u8> {
    decimal(tag as nat) + seq![61u8] + bytes + seq![delimiter]
}

/// The first `n` tags as fields. Framing tags and empty values are left out.
pub open spec fn wire_fields(tags: Tags, data: Seq<u8>, delimiter: u8, n: nat) -> Seq<u8>
    decreases n,
{
    if n == 0 {
        seq![]
    } else {
        let before = wire_fields(tags, data, delimiter, (n - 1) as nat);
        let (tag, value) = tags[n - 1];
        if is_framing(tag) || value.is_empty() {
            before
        } else {
            before + wire_field(tag, value.bytes(data), delimiter)
        }
    }
}

impl MessageView {
    /// Everything that BodyLength counts: MsgType, then the fields.
    pub open spec fn wire_body(self, delimiter: u8) -> Seq<u8> {
        seq![51u8, 53, 61] + encode_utf8(self.msg_type()) + delimiter_text(delimiter)
            + wire_fields(self.tags, self.data, delimiter, self.tags.len())
    }

    /// BeginString and BodyLength, the latter six digits wide.
    pub open spec fn wire_header(self, delimiter: u8) -> Seq<u8> {
        seq![56u8, 61] + encode_utf8(self.fix_version.begin_string@) + delimiter_text(delimiter)
            + seq![57u8, 61] + padded(self.wire_body(delimiter).len(), 6) + seq![delimiter]
    }

    /// The whole message on the wire.
    pub open spec fn wire(self, delimiter: u8) -> Seq<u8> {
        let front = self.wire_header(delimiter) + self.wire_body(delimiter);
        front + seq![49u8, 48, 61] + padded(checksum(front) as nat, 3) + seq![delimiter]
    }
}

/// The longest body that BodyLength's six digits can express is one byte short
/// of this.
pub const BODY_LIMIT: usize = 1_000_000;

fn extend_delimiter(out: &mut Vec<u8>, delimiter: u8)
    ensures
        final(out)@ == old(out)@ + delimiter_text(delimiter),
{
    let mut s = String::new();
    s.push(delimiter as char);
    assert(s@ =~= seq![delimiter as char]);
    out.extend_from_slice(s.as_str().as_bytes());
    assert(out@ =~= old(out)@ + delimiter_text(delimiter));
}

impl FixMessage {
    fn extend_fields(&self, out: &mut Vec<u8>, delimiter: u8)
        requires
            self@.in_range(),
        ensures
            final(out)@ == old(out)@ + wire_fields(
                self@.tags,
                self@.data,
                delimiter,
                self@.tags.len(),
            ),
    {
        let data = bytes_slice(&self.data);
        let mut i: usize = 0;
        assert(out@ =~= old(out)@ + wire_fields(self@.tags, self@.data, delimiter, 0));
        while i < self.tags.len()
            invariant
                i <= self.tags@.len(),
                data@ == self@.data,
                self@.in_range(),
                out@ == old(out)@ + wire_fields(self@.tags, self@.data, delimiter, i as nat),
            decreases self.tags@.len() - i,
        {
            let ghost before = out@;
            let tag: u32 = self.tags[i].0;
            let value = &self.tags[i].1;
            assert(self@.tags[i as int] == (tag, value@));
            if !(tag == 10 || tag == 8 || tag == 9 || tag == 35) && !value.is_empty() {
                extend_decimal(out, tag as u64);
                out.push(61);
                out.extend_from_slice(value.as_bytes(data));
                out.push(delimiter);
                assert(out@ =~= before + wire_field(tag, value@.bytes(data@), delimiter));
            }
            i += 1;
            assert(out@ =~= old(out)@ + wire_fields(self@.tags, self@.data, delimiter, i as nat));
        }
    }

    /// Append the message's wire form to `out`, computing BodyLength and
    /// CheckSum. A body that BodyLength cannot express is an error.
    pub fn write_to(&self, out: &mut BytesMut, delimiter: u8) -> (r: Result<()>)
        requires
            self@.in_range(),
            self@.text_at(35),
        ensures
            r is Ok <==> self@.wire_body(delimiter).len() < BODY_LIMIT,
            r is Ok ==> buffered(*final(out)) == buffered(*old(out)) + self@.wire(delimiter),
            r is Err ==> *final(out) == *old(out),
            r is Err ==> r->Err_0@ == ErrorView::InvalidMessage(
                "message body is too long for BodyLength"@,
            ),
    {
        let mut body: Vec<u8> = Vec::new();
        body.push(51);
        body.push(53);
        body.push(61);
        body.extend_from_slice(self.get_type().as_bytes());
        extend_delimiter(&mut body, delimiter);
        self.extend_fields(&mut body, delimiter);
        assert(body@ =~= self@.wire_body(delimiter));
        let body_length: usize = body.len();
        if body_length >= BODY_LIMIT {
            return Err(Error::invalid_message("message body is too long for BodyLength"));
        }
        let mut frame: Vec<u8> = Vec::new();
        frame.push(56);
        frame.push(61);
        frame.extend_from_slice(self.fix_version.begin_string.as_str().as_bytes());
        extend_delimiter(&mut frame, delimiter);
        frame.push(57);
        frame.push(61);
        extend_padded(&mut frame, body_length as u64, 6);
        frame.push(delimiter);
        assert(frame@ =~= self@.wire_header(delimiter));
        frame.extend_from_slice(body.as_slice());
        assert(frame@ =~= self@.wire_header(delimiter) + self@.wire_body(delimiter));
        let sum: u8 = checksum_of(frame.as_slice());
        frame.push(49);
        frame.push(48);
        frame.push(61);
        extend_padded(&mut frame, sum as u64, 3);
        frame.push(delimiter);
        assert(frame@ =~= self@.wire(delimiter));
        out.extend_from_slice(frame.as_slice());
        Ok(())
    }
}

/// One field as text: `tag=value` and the delimiter.
pub open spec fn text_field(tag: u32, text: Seq<char>, delimiter: u8) -> Seq<char> {
    decimal_text(tag as nat) + seq!['='] + text + seq![delimiter as char]
}

/// The first `n` tags as text. Framing tags and empty values are left out.
pub open spec fn text_fields(tags: Tags, data: Seq<u8>, delimiter: u8, n: nat) -> Seq<char>
    decreases n,
{
    if n == 0 {
        seq![]
    } else {
        let before = text_fields(tags, data, delimiter, (n - 1) as nat);
        let (tag, value) = tags[n - 1];
        if is_framing(tag) || value.is_empty() {
            before
        } else {
            before + text_field(tag, value.shown(data), delimiter)
        }
    }
}

impl MessageView {
    /// The message as text, without its envelope.
    pub open spec fn text_body(self, delimiter: u8) -> Seq<char> {
        "35="@ + self.msg_type() + seq![delimiter as char] + text_fields(
            self.tags,
            self.data,
            delimiter,
            self.tags.len(),
        )
    }

    pub open spec fn text_front(self, delimiter: u8) -> Seq<char> {
        "8="@ + self.fix_version.begin_string@ + seq![delimiter as char] + "9="@ + decimal_text(
            encode_utf8(self.text_body(delimiter)).len(),
        ) + seq![delimiter as char] + self.text_body(delimiter)
    }

    /// The whole message as text.
    pub open spec fn text(self, delimiter: u8) -> Seq<char> {
        self.text_front(delimiter) + "10="@ + crate::text::ascii_chars(
            padded(checksum(encode_utf8(self.text_front(delimiter))) as nat, 3),
        ) + seq![delimiter as char]
    }
}

/// Append the last three digits of `n`, zero-padded.
fn push_three_digits(s: &mut String, n: u8)
    ensures
        final(s)@ == old(s)@ + crate::text::ascii_chars(padded(n as nat, 3)),
{
    let mut v: Vec<u8> = Vec::new();
    extend_padded(&mut v, n as u64, 3);
    proof {
        assert(v@ =~= padded(n as nat, 3));
        crate::text::lemma_padded_len(n as nat, 3);
    }
    let mut i: usize = 0;
    assert(s@ =~= old(s)@ + crate::text::ascii_chars(v@.take(0)));
    while i < v.len()
        invariant
            i <= v@.len(),
            s@ == old(s)@ + crate::text::ascii_chars(v@.take(i as int)),
        decreases v@.len() - i,
    {
        s.push(v[i] as char);
        i += 1;
        assert(s@ =~= old(s)@ + crate::text::ascii_chars(v@.take(i as int)));
    }
    assert(v@.take(i as int) =~= v@);
}

impl FixMessage {
    /// The message as text without its envelope. Raw data is decoded as far as
    /// it can be.
    pub fn to_generic_string_delimited(&self, delimiter: u8) -> (r: String)
        requires
            self@.is_readable(),
        ensures
            r@ == self@.text_body(delimiter),
    {
        let data = bytes_slice(&self.data);
        let mut s = joined("35=", self.get_type());
        s.push(delimiter as char);
        let ghost front = s@;
        assert(front =~= "35="@ + self@.msg_type() + seq![delimiter as char]);
        let mut i: usize = 0;
        assert(s@ =~= front + text_fields(self@.tags, self@.data, delimiter, 0));
        while i < self.tags.len()
            invariant
                i <= self.tags@.len(),
                data@ == self@.data,
                self@.is_readable(),
                s@ == front + text_fields(self@.tags, self@.data, delimiter, i as nat),
            decreases self.tags@.len() - i,
        {
            let ghost before = s@;
            let tag: u32 = self.tags[i].0;
            let value = &self.tags[i].1;
            assert(self@.tags[i as int] == (tag, value@));
            if !(tag == 10 || tag == 8 || tag == 9 || tag == 35) && !value.is_empty() {
                push_decimal(&mut s, tag as u64);
                s.push('=');
                let text = value.to_string(data);
                s.append(text.as_str());
                s.push(delimiter as char);
                assert(s@ =~= before + text_field(tag, value@.shown(data@), delimiter));
            }
            i += 1;
            assert(s@ =~= front + text_fields(self@.tags, self@.data, delimiter, i as nat));
        }
        s
    }

    /// The message as text. Raw data is decoded as far as it can be.
    pub fn to_string_delimited(&self, delimiter: u8) -> (r: String)
        requires
            self@.is_readable(),
        ensures
            r@ == self@.text(delimiter),
    {
        let body = self.to_generic_string_delimited(delimiter);
        let mut s = joined("8=", self.fix_version.begin_string.as_str());
        s.push(delimiter as char);
        s.append("9=");
        let body_length: usize = body.as_str().as_bytes().len();
        push_decimal(&mut s, body_length as u64);
        s.push(delimiter as char);
        s.append(body.as_str());
        assert(s@ =~= self@.text_front(delimiter));
        let sum: u8 = checksum_of(s.as_str().as_bytes());
        s.append("10=");
        push_three_digits(&mut s, sum);
        s.push(delimiter as char);
        assert(s@ =~= self@.text(delimiter));
        s
    }

    /// The message as text with the delimiter that FIX uses on the wire.
    pub fn to_string(&self) -> (r: String)
        requires
            self@.is_readable(),
        ensures
            r@ == self@.text(1),
    {
        self.to_string_delimited(1)
    }
}

// ---------------------------------------------------------------------------
// Reading
// ---------------------------------------------------------------------------

/// The first position from `from` on that holds `=` or the delimiter, or the
/// length of `s`.
pub open spec fn tag_end(s: Seq<u8>, from: int, delimiter: u8) -> int
    decreases s.len() - from,
{
    if from < 0 || from >= s.len() {
        s.len() as int
    } else if s[from] == 61 || s[from] == delimiter {
        from
    } else {
        tag_end(s, from + 1, delimiter)
    }
}

fn find_tag_end(s: &[u8], from: usize, delimiter: u8) -> (r: usize)
    ensures
        r == tag_end(s@, from as int, delimiter),
        r <= s@.len(),
        r < s@.len() ==> from <= r && (s@[r as int] == 61 || s@[r as int] == delimiter),
{
    let mut i: usize = from;
    while i < s.len()
        invariant
            from <= i,
            tag_end(s@, from as int, delimiter) == tag_end(s@, i as int, delimiter),
        decreases s@.len() - i,
    {
        if s[i] == 61 || s[i] == delimiter {
            return i;
        }
        i += 1;
    }
    s.len()
}

/// What came of reading a message.
pub ghost enum Scan {
    /// The fields in order, and how many bytes they took.
    Fields(Tags, int),
    Bad(ErrorView),
}

pub open spec fn span(start: int, len: int) -> ValRef {
    ValRef { start: start as usize, len: len as usize }
}

pub open spec fn larger(a: int, b: int) -> int {
    if a > b {
        a
    } else {
        b
    }
}

/// How many bytes there are from `at` on.
pub open spec fn left(data: Seq<u8>, at: int) -> nat {
    if at <= data.len() {
        (data.len() - at) as nat
    } else {
        0
    }
}

/// Read fields from `at` on, behind those in `tags`. The tag number that is
/// being read starts at `from`. `raw` is the length that the last Length field
/// announced, and 0 where none is outstanding.
///
/// A field is `tag=value` up to the delimiter. A data field behind an announced
/// length also yields that many raw bytes, in which a delimiter is nothing
/// special. BeginString must be the version's own, CheckSum ends the message,
/// and the delimiter of the last field may be missing.
pub open spec fn scan(
    fix: FixVersion,
    data: Seq<u8>,
    delimiter: u8,
    from: int,
    at: int,
    raw: int,
    tags: Tags,
) -> Scan
    decreases left(data, at),
{
    let eq = tag_end(data, at, delimiter);
    if at < 0 || from < 0 || from > at || eq >= data.len() {
        Scan::Fields(tags, larger(at, data.len() as int))
    } else if eq < at || data[eq] != 61 {
        Scan::Bad(ErrorView::InvalidMessage("Missing tag"@))
    } else {
        let name = data.subrange(from, eq);
        match u32::parsed(name) {
            Err(_) => Scan::Bad(
                ErrorView::InvalidMessage(
                    "Invalid message: Unable to parse a tag number from "@ + shown_text(name),
                ),
            ),
            Ok(tag) => {
                let start = eq + 1;
                let is_raw = raw > 0 && fix.field_type(tag) == Some("data"@);
                let tags1 = if is_raw {
                    tags.push((tag, ValueView::DataRef(span(start, raw))))
                } else {
                    tags
                };
                let raw1 = if is_raw {
                    0
                } else {
                    raw
                };
                let value = if is_raw {
                    start + raw
                } else {
                    start
                };
                if value > usize::MAX {
                    Scan::Bad(
                        ErrorView::InvalidMessage("Invalid message: data length out of range"@),
                    )
                } else if tag == 0 {
                    // A tag number of zero is as good as none.
                    scan(fix, data, delimiter, start, value, raw1, tags1)
                } else {
                    scan_value(fix, data, delimiter, tag, start, value, raw1, tags1)
                }
            },
        }
    }
}

/// Read the value of `tag`, which starts at `start`; the delimiter that closes
/// it comes at `at` or later.
pub open spec fn scan_value(
    fix: FixVersion,
    data: Seq<u8>,
    delimiter: u8,
    tag: u32,
    start: int,
    at: int,
    raw: int,
    tags: Tags,
) -> Scan
    decreases left(data, at),
{
    let end = next_of(data, at, delimiter);
    if at < 0 || start < 0 || end >= data.len() {
        Scan::Fields(
            tags.push((tag, ValueView::StringRef(span(start, data.len() - start)))),
            larger(at, data.len() as int),
        )
    } else {
        let text = data.subrange(start, end);
        let tags1 = tags.push((tag, ValueView::StringRef(span(start, end - start))));
        let begin_string = tag_value(tags1, 8)->0.bytes(data);
        if end < at {
            arbitrary()
        } else if tag == 8 && begin_string != encode_utf8(fix.begin_string@) {
            Scan::Bad(
                ErrorView::InvalidMessage(
                    "Invalid FIX version: expected "@ + fix.begin_string@ + ", got "@ + shown_text(
                        begin_string,
                    ),
                ),
            )
        } else if tag == 10 {
            Scan::Fields(tags1, end + 1)
        } else if fix.field_type(tag) == Some("Length"@) {
            match usize::parsed(text) {
                Err(_) => Scan::Bad(
                    ErrorView::InvalidMessage(
                        "Invalid message: Unable to parse a data length from "@ + shown_text(text),
                    ),
                ),
                Ok(n) => scan(fix, data, delimiter, end + 1, end + 1, n as int, tags1),
            }
        } else {
            scan(fix, data, delimiter, end + 1, end + 1, raw, tags1)
        }
    }
}

/// What reading `data` as one message gives.
pub open spec fn parse(fix: FixVersion, data: Seq<u8>, delimiter: u8) -> Scan {
    scan(fix, data, delimiter, 0, 0, 0, seq![])
}

fn lossy_joined(lead: &str, bytes: &[u8]) -> (r: String)
    ensures
        r@ == lead@ + shown_text(bytes@),
{
    let shown = utf8_lossy(bytes);
    joined(lead, shown.as_str())
}

impl FixMessage {
    /// Parse from Bytes (zero-copy when coming from network)
    pub fn from_bytes(fix: Arc<FixVersion>, data: Bytes) -> (r: std::result::Result<
        (Self, usize),
        Error,
    >)
        ensures
            match parse(*fix, bytes_of(data), 1) {
                Scan::Fields(tags, consumed) => r matches Ok((msg, n)) && msg.fix_version == fix
                    && msg.data == data && msg@.tags == tags && n == consumed,
                Scan::Bad(e) => r matches Err(err) && err@ == e,
            },
    {
        Self::from_bytes_delimited(fix, data, 1)
    }

    /// Parse from Bytes with custom delimiter (zero-copy when coming from
    /// network)
    pub fn from_bytes_delimited(fix: Arc<FixVersion>, data: Bytes, delimiter: u8) -> (r:
        std::result::Result<(Self, usize), Error>)
        ensures
            match parse(*fix, bytes_of(data), delimiter) {
                Scan::Fields(tags, consumed) => r matches Ok((msg, n)) && msg.fix_version == fix
                    && msg.data == data && msg@.tags == tags && n == consumed,
                Scan::Bad(e) => r matches Err(err) && err@ == e,
            },
            // A data field may claim more bytes than there are, but not without
            // being counted.
            r matches Ok((msg, n)) && n <= bytes_of(data).len() ==> r->Ok_0.0@.in_range(),
    {
        let bytes = bytes_slice(&data);
        let mut tags: Vec<TagValue> = Vec::new();
        let mut from: usize = 0;
        let mut at: usize = 0;
        let mut raw: usize = 0;
        assert(tags_view(tags@) =~= seq![]);
        loop
            invariant
                bytes@ == bytes_of(data),
                from <= at,
                parse(*fix, bytes@, delimiter) == scan(
                    *fix,
                    bytes@,
                    delimiter,
                    from as int,
                    at as int,
                    raw as int,
                    tags_view(tags@),
                ),
                at <= bytes@.len() ==> forall|k: int|
                    0 <= k < tags@.len() ==> (#[trigger] tags@[k]).1@.in_range(bytes@.len()),
            decreases left(bytes@, at as int),
        {
            let eq: usize = find_tag_end(bytes, at, delimiter);
            if eq >= bytes.len() {
                let consumed: usize = if at > bytes.len() {
                    at
                } else {
                    bytes.len()
                };
                let msg = FixMessage { fix_version: fix, data, tags };
                return Ok((msg, consumed));
            }
            if bytes[eq] != 61 {
                return Err(Error::invalid_message("Missing tag"));
            }
            let name = slice_subrange(bytes, from, eq);
            let tag: u32 = match u32::parse_integer(name) {
                Ok(tag) => tag,
                Err(_) => {
                    let text = lossy_joined(
                        "Invalid message: Unable to parse a tag number from ",
                        name,
                    );
                    return Err(Error::invalid_message(text.as_str()));
                },
            };
            let start: usize = eq + 1;
            let mut value_at: usize = start;
            let ghost tags0 = tags_view(tags@);
            let ghost raw0 = raw as int;
            let ghost at0 = at as int;
            let ghost from0 = from as int;
            if raw > 0 && fix.has_type(tag, "data") {
                if raw > usize::MAX - start {
                    return Err(Error::invalid_message("Invalid message: data length out of range"));
                }
                tags.push((tag, Value::DataRef(ValRef { start, len: raw })));
                assert(tags_view(tags@) =~= tags0.push(
                    (tag, ValueView::DataRef(span(start as int, raw0))),
                ));
                value_at = start + raw;
                raw = 0;
            }
            if tag == 0 {
                from = start;
                at = value_at;
                continue ;
            }
            let ghost tags1 = tags_view(tags@);
            assert(parse(*fix, bytes@, delimiter) == scan_value(
                *fix,
                bytes@,
                delimiter,
                tag,
                start as int,
                value_at as int,
                raw as int,
                tags1,
            ));
            let end: usize = find_byte(bytes, value_at, delimiter);
            if end >= bytes.len() {
                tags.push((tag, Value::StringRef(ValRef { start, len: bytes.len() - start })));
                assert(tags_view(tags@) =~= tags1.push(
                    (tag, ValueView::StringRef(span(start as int, bytes@.len() - start))),
                ));
                let consumed: usize = if value_at > bytes.len() {
                    value_at
                } else {
                    bytes.len()
                };
                let msg = FixMessage { fix_version: fix, data, tags };
                return Ok((msg, consumed));
            }
            let text = slice_subrange(bytes, start, end);
            tags.push((tag, Value::StringRef(ValRef { start, len: end - start })));
            let ghost tags2 = tags_view(tags@);
            assert(tags2 =~= tags1.push(
                (tag, ValueView::StringRef(span(start as int, end - start))),
            ));
            if tag == 8 {
                let mut first: usize = 0;
                let n: usize = tags.len();
                while tags[first].0 != 8
                    invariant
                        n == tags@.len(),
                        first < n,
                        tags@.last().0 == 8,
                        tags2 == tags_view(tags@),
                        first_tag(tags2, 8, 0) == first_tag(tags2, 8, first as int),
                    decreases tags@.len() - first,
                {
                    first += 1;
                }
                assert(tags2[first as int].0 == 8);
                let begin_string = tags[first].1.as_bytes(bytes);
                assert(begin_string@ == tag_value(tags2, 8)->0.bytes(bytes@));
                if !bytes_eq(begin_string, fix.begin_string.as_str().as_bytes()) {
                    let lead = joined(
                        joined(
                            "Invalid FIX version: expected ",
                            fix.begin_string.as_str(),
                        ).as_str(),
                        ", got ",
                    );
                    let text = lossy_joined(lead.as_str(), begin_string);
                    return Err(Error::invalid_message(text.as_str()));
                }
            } else if tag == 10 {
                let msg = FixMessage { fix_version: fix, data, tags };
                return Ok((msg, end + 1));
            }
            if fix.has_type(tag, "Length") {
                match usize::parse_integer(text) {
                    Ok(n) => {
                        raw = n;
                    },
                    Err(_) => {
                        let text = lossy_joined(
                            "Invalid message: Unable to parse a data length from ",
                            text,
                        );
                        return Err(Error::invalid_message(text.as_str()));
                    },
                }
            }
            from = end + 1;
            at = end + 1;
        }
    }
}

// ---------------------------------------------------------------------------
// Peeking at the envelope
// ---------------------------------------------------------------------------

/// The first version from entry `i` on whose BeginString is `begin_string`.
pub open spec fn version_from(repo: FixRepository, begin_string: Seq<u8>, i: int) -> Option<
    Arc<FixVersion>,
>
    decreases repo.versions.entries@.len() - i,
{
    if i < 0 || i >= repo.versions.entries@.len() {
        None
    } else if encode_utf8(repo.versions.entries@[i].1.begin_string@) == begin_string {
        Some(repo.versions.entries@[i].1)
    } else {
        version_from(repo, begin_string, i + 1)
    }
}

fn find_version(repo: &FixRepository, begin_string: &[u8]) -> (r: Option<Arc<FixVersion>>)
    ensures
        r == version_from(*repo, begin_string@, 0),
{
    let mut i: usize = 0;
    while i < repo.versions.entries.len()
        invariant
            i <= repo.versions.entries@.len(),
            version_from(*repo, begin_string@, 0) == version_from(
                *repo,
                begin_string@,
                i as int,
            ),
        decreases repo.versions.entries@.len() - i,
    {
        if bytes_eq(repo.versions.entries[i].1.begin_string.as_str().as_bytes(), begin_string) {
            return Some(repo.versions.entries[i].1.clone());
        }
        i += 1;
    }
    None
}

/// What the envelope of a message says: its version, its body length, and how
/// many bytes came before the body. What has not arrived yet is missing.
pub ghost struct Envelope {
    pub fix_version: Option<Arc<FixVersion>>,
    pub body_length: Option<usize>,
    pub header_length: int,
}

/// Read BeginString and BodyLength off the front of `s`.
pub open spec fn peek_header(repo: FixRepository, s: Seq<u8>, delimiter: u8) -> std::result::Result<
    Envelope,
    ErrorView,
> {
    let end = next_of(s, 0, delimiter);
    let first = s.take(end);
    let eq = next_of(first, 0, 61);
    if end >= s.len() {
        Ok(Envelope { fix_version: None, body_length: None, header_length: 0 })
    } else if !valid_utf8(first) {
        Err(ErrorView::InvalidMessage("Invalid BeginString value"@))
    } else if eq >= first.len() {
        Err(
            ErrorView::InvalidMessage(
                "Invalid BeginString tag format in "@ + shown_text(first),
            ),
        )
    } else if first.take(eq) != seq![56u8] {
        Err(
            ErrorView::InvalidMessage(
                "Expected BeginString tag (8), found "@ + shown_text(first.take(eq)),
            ),
        )
    } else {
        match version_from(repo, first.skip(eq + 1), 0) {
            None => Err(ErrorView::InvalidMessage("Unknown FIX version"@)),
            Some(fix) => peek_length(fix, s, delimiter, end + 1),
        }
    }
}

/// Read BodyLength, which starts at `at`.
pub open spec fn peek_length(
    fix: Arc<FixVersion>,
    s: Seq<u8>,
    delimiter: u8,
    at: int,
) -> std::result::Result<Envelope, ErrorView> {
    let end = next_of(s, at, delimiter);
    let second = s.subrange(at, end);
    let eq = next_of(second, 0, 61);
    if end >= s.len() {
        Ok(Envelope { fix_version: Some(fix), body_length: None, header_length: at })
    } else if !valid_utf8(second) {
        Err(ErrorView::InvalidMessage("Invalid BodyLength encoding"@))
    } else if eq >= second.len() {
        Err(ErrorView::InvalidMessage("Invalid BodyLength tag format"@))
    } else if second.take(eq) != seq![57u8] {
        Err(
            ErrorView::InvalidMessage(
                "Expected BodyLength tag (9), found "@ + shown_text(second.take(eq)),
            ),
        )
    } else {
        match usize::parsed(second.skip(eq + 1)) {
            Err(_) => Err(ErrorView::InvalidMessage("Invalid BodyLength value"@)),
            Ok(n) => Ok(
                Envelope { fix_version: Some(fix), body_length: Some(n), header_length: end + 1 },
            ),
        }
    }
}

/// Infer the version and the body length from the front of a message, with the
/// number of bytes that were read for it.
pub fn peek_infer_version_and_length(repo: &FixRepository, s: &[u8], delimiter: u8) -> (r: Result<
    (Option<Arc<FixVersion>>, Option<usize>, usize),
>)
    ensures
        match peek_header(*repo, s@, delimiter) {
            Ok(e) => r matches Ok((version, length, n)) && version == e.fix_version && length
                == e.body_length && n == e.header_length,
            Err(e) => r matches Err(err) && err@ == e,
        },
        r matches Ok((_, _, n)) ==> n <= s@.len(),
{
    let end: usize = find_byte(s, 0, delimiter);
    if end >= s.len() {
        return Ok((None, None, 0));
    }
    let first = slice_subrange(s, 0, end);
    assert(first@ =~= s@.take(end as int));
    if utf8_text(first).is_none() {
        return Err(Error::invalid_message("Invalid BeginString value"));
    }
    let eq: usize = find_byte(first, 0, 61);
    if eq >= first.len() {
        let text = lossy_joined("Invalid BeginString tag format in ", first);
        return Err(Error::invalid_message(text.as_str()));
    }
    let tag = slice_subrange(first, 0, eq);
    assert(tag@ =~= first@.take(eq as int));
    if !(tag.len() == 1 && tag[0] == 56) {
        assert(tag@ != seq![56u8]) by {
            if tag@ == seq![56u8] {
                assert(tag@.len() == 1 && tag@[0] == 56);
            }
        }
        let text = lossy_joined("Expected BeginString tag (8), found ", tag);
        return Err(Error::invalid_message(text.as_str()));
    }
    assert(tag@ =~= seq![56u8]);
    let begin_string = slice_subrange(first, eq + 1, first.len());
    assert(begin_string@ =~= first@.skip(eq + 1));
    let fix = match find_version(repo, begin_string) {
        Some(fix) => fix,
        None => {
            return Err(Error::invalid_message("Unknown FIX version"));
        },
    };
    let at: usize = end + 1;
    let end: usize = find_byte(s, at, delimiter);
    if end >= s.len() {
        return Ok((Some(fix), None, at));
    }
    let second = slice_subrange(s, at, end);
    if utf8_text(second).is_none() {
        return Err(Error::invalid_message("Invalid BodyLength encoding"));
    }
    let eq: usize = find_byte(second, 0, 61);
    if eq >= second.len() {
        return Err(Error::invalid_message("Invalid BodyLength tag format"));
    }
    let tag = slice_subrange(second, 0, eq);
    assert(tag@ =~= second@.take(eq as int));
    if !(tag.len() == 1 && tag[0] == 57) {
        assert(tag@ != seq![57u8]) by {
            if tag@ == seq![57u8] {
                assert(tag@.len() == 1 && tag@[0] == 57);
            }
        }
        let text = lossy_joined("Expected BodyLength tag (9), found ", tag);
        return Err(Error::invalid_message(text.as_str()));
    }
    assert(tag@ =~= seq![57u8]);
    let value = slice_subrange(second, eq + 1, second.len());
    assert(value@ =~= second@.skip(eq + 1));
    match usize::parse_integer(value) {
        Ok(n) => Ok((Some(fix), Some(n), end + 1)),
        Err(_) => Err(Error::invalid_message("Invalid BodyLength value")),
    }
}

/// Read CheckSum off the front of `s`: its value and how many bytes it took, or
/// nothing where it has not all arrived yet.
pub open spec fn peek_trailer(s: Seq<u8>, delimiter: u8) -> std::result::Result<
    Option<(u8, int)>,
    ErrorView,
> {
    let end = next_of(s, 0, delimiter);
    let first = s.take(end);
    let eq = next_of(first, 0, 61);
    if end >= s.len() {
        Ok(None)
    } else if !valid_utf8(first) {
        Err(ErrorView::InvalidMessage("Invalid Checksum value"@))
    } else if eq >= first.len() {
        Err(ErrorView::InvalidMessage("Invalid Checksum tag format in "@ + shown_text(first)))
    } else if first.take(eq) != seq![49u8, 48] {
        Err(
            ErrorView::InvalidMessage(
                "Expected Checksum tag (8), found "@ + shown_text(first.take(eq)),
            ),
        )
    } else {
        match u8::parsed(first.skip(eq + 1)) {
            Err(_) => Err(ErrorView::InvalidMessage("Invalid Checksum value"@)),
            Ok(n) => Ok(Some((n, end + 1))),
        }
    }
}

/// Read CheckSum off the front of `s`, with the number of bytes it took.
pub fn peek_checksum(_repo: &FixRepository, s: &[u8], delimiter: u8) -> (r: Result<
    (Option<u8>, usize),
>)
    ensures
        match peek_trailer(s@, delimiter) {
            Ok(Some((sum, n))) => r matches Ok((Some(got), took)) && got == sum && took == n,
            Ok(None) => r matches Ok((None, took)) && took == 0,
            Err(e) => r matches Err(err) && err@ == e,
        },
        r matches Ok((_, took)) ==> took <= s@.len(),
{
    let end: usize = find_byte(s, 0, delimiter);
    if end >= s.len() {
        return Ok((None, 0));
    }
    let first = slice_subrange(s, 0, end);
    assert(first@ =~= s@.take(end as int));
    if utf8_text(first).is_none() {
        return Err(Error::invalid_message("Invalid Checksum value"));
    }
    let eq: usize = find_byte(first, 0, 61);
    if eq >= first.len() {
        let text = lossy_joined("Invalid Checksum tag format in ", first);
        return Err(Error::invalid_message(text.as_str()));
    }
    let tag = slice_subrange(first, 0, eq);
    assert(tag@ =~= first@.take(eq as int));
    if !(tag.len() == 2 && tag[0] == 49 && tag[1] == 48) {
        assert(tag@ != seq![49u8, 48]) by {
            if tag@ == seq![49u8, 48] {
                assert(tag@.len() == 2 && tag@[0] == 49 && tag@[1] == 48);
            }
        }
        let text = lossy_joined("Expected Checksum tag (8), found ", tag);
        return Err(Error::invalid_message(text.as_str()));
    }
    assert(tag@ =~= seq![49u8, 48]);
    let value = slice_subrange(first, eq + 1, first.len());
    assert(value@ =~= first@.skip(eq + 1));
    match u8::parse_integer(value) {
        Ok(n) => Ok((Some(n), end + 1)),
        Err(_) => Err(Error::invalid_message("Invalid Checksum value")),
    }
}

} // verus!
