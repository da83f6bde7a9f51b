//! What the codec promises as a whole: a message that was encoded is decoded as
//! it was, however the bytes arrive.

use vstd::prelude::*;
use vstd::utf8::*;

use crate::codec::DecoderView;
use crate::error::ErrorView;
use crate::message::{first_tag, is_framing, tag_value, MessageView, Tags, ValueView};
use crate::repository::FixVersion;
use crate::text::{
    ascii_bytes, decimal, is_digit, lemma_ascii_utf8, lemma_decimal_value, lemma_digits_utf8,
    lemma_next_of_is, lemma_padded_value, lemma_parse_decimal, lemma_parse_digits, next_of, padded,
    pow10, ParseInteger,
};
use crate::wire::{
    checksum, delimiter_text, parse, peek_header, peek_trailer, scan, scan_value, span, tag_end,
    version_from, wire_field, wire_fields, Scan, BODY_LIMIT,
};

verus! {

/// Fields as they are written: tag and bytes.
pub type Fields = Seq<(u32, Seq<u8>)>;

/// The first `n` fields on the wire.
pub open spec fn written(fields: Fields, delimiter: u8, n: nat) -> Seq<u8>
    decreases n,
{
    if n == 0 {
        seq![]
    } else {
        written(fields, delimiter, (n - 1) as nat) + wire_field(
            fields[n - 1].0,
            fields[n - 1].1,
            delimiter,
        )
    }
}

/// The first `n` tags of a message as fields. Framing tags and empty values are
/// left out.
pub open spec fn kept(tags: Tags, data: Seq<u8>, n: nat) -> Fields
    decreases n,
{
    if n == 0 {
        seq![]
    } else {
        let before = kept(tags, data, (n - 1) as nat);
        let (tag, value) = tags[n - 1];
        if is_framing(tag) || value.is_empty() {
            before
        } else {
            before.push((tag, value.bytes(data)))
        }
    }
}

impl MessageView {
    /// All fields that stand before CheckSum on the wire.
    pub open spec fn fields(self, delimiter: u8) -> Fields {
        seq![
            (8u32, encode_utf8(self.fix_version.begin_string@)),
            (9u32, padded(self.wire_body(delimiter).len(), 6)),
            (35u32, encode_utf8(self.msg_type())),
        ] + kept(self.tags, self.data, self.tags.len())
    }

    /// The CheckSum that goes with them.
    pub open spec fn sum(self, delimiter: u8) -> u8 {
        checksum(self.wire_header(delimiter) + self.wire_body(delimiter))
    }
}

/// A delimiter that cannot be taken for a part of a tag.
pub open spec fn plain_delimiter(delimiter: u8) -> bool {
    delimiter < 128 && delimiter != 61 && !is_digit(delimiter)
}

pub open spec fn free_of(bytes: Seq<u8>, delimiter: u8) -> bool {
    forall|i: int| 0 <= i < bytes.len() ==> #[trigger] bytes[i] != delimiter
}

/// Field `tag` is raw data whose length was announced.
pub open spec fn takes_raw(fix: FixVersion, tag: u32, raw: int) -> bool {
    raw > 0 && fix.field_type(tag) == Some("data"@)
}

/// The raw data length that is outstanding once the first `n` fields have been
/// read.
pub open spec fn raw_after(fix: FixVersion, fields: Fields, n: nat) -> int
    decreases n,
{
    if n == 0 {
        0
    } else {
        let (tag, bytes) = fields[n - 1];
        let raw = raw_after(fix, fields, (n - 1) as nat);
        if fix.field_type(tag) == Some("Length"@) {
            usize::parsed(bytes)->Ok_0 as int
        } else if takes_raw(fix, tag, raw) {
            0
        } else {
            raw
        }
    }
}

/// Field `k` can be told apart on the wire: raw data is as long as was
/// announced, any other value is free of the delimiter, and a length is a
/// number.
pub open spec fn separable(fix: FixVersion, fields: Fields, delimiter: u8, k: int) -> bool {
    let (tag, bytes) = fields[k];
    let raw = raw_after(fix, fields, k as nat);
    &&& tag != 0 && tag != 10
    &&& tag == 8 ==> k == 0 && bytes == encode_utf8(fix.begin_string@)
    &&& if takes_raw(fix, tag, raw) {
        bytes.len() == raw
    } else {
        free_of(bytes, delimiter)
    }
    &&& fix.field_type(tag) == Some("Length"@) ==> usize::parsed(bytes) is Ok
}

pub open spec fn all_separable(fix: FixVersion, fields: Fields, delimiter: u8) -> bool {
    forall|k: int| 0 <= k < fields.len() ==> #[trigger] separable(fix, fields, delimiter, k)
}

/// A field as it is read: tag, whether it is raw data, and bytes.
pub type Readings = Seq<(u32, bool, Seq<u8>)>;

/// What reading the first `n` fields gives. Raw data is listed twice: as the
/// bytes that were announced, and as the value between `=` and the delimiter.
pub open spec fn read_back(fix: FixVersion, fields: Fields, n: nat) -> Readings
    decreases n,
{
    if n == 0 {
        seq![]
    } else {
        let (tag, bytes) = fields[n - 1];
        let before = read_back(fix, fields, (n - 1) as nat);
        if takes_raw(fix, tag, raw_after(fix, fields, (n - 1) as nat)) {
            before.push((tag, true, bytes)).push((tag, false, bytes))
        } else {
            before.push((tag, false, bytes))
        }
    }
}

pub open spec fn readings(tags: Tags, data: Seq<u8>) -> Readings {
    tags.map_values(|t: (u32, ValueView)| (t.0, t.1.is_data(), t.1.bytes(data)))
}

/// Every value lies within a buffer of `n` bytes.
pub open spec fn all_within(tags: Tags, n: nat) -> bool {
    forall|i: int| 0 <= i < tags.len() ==> (#[trigger] tags[i]).1.in_range(n)
}

/// Where the first `n` fields lie in the buffer that was read.
spec fn spans(fix: FixVersion, fields: Fields, delimiter: u8, n: nat) -> Tags
    decreases n,
{
    if n == 0 {
        seq![]
    } else {
        let (tag, bytes) = fields[n - 1];
        let before = spans(fix, fields, delimiter, (n - 1) as nat);
        let start = written(fields, delimiter, (n - 1) as nat).len() + decimal(tag as nat).len()
            + 1;
        let range = span(start as int, bytes.len() as int);
        if takes_raw(fix, tag, raw_after(fix, fields, (n - 1) as nat)) {
            before.push((tag, ValueView::DataRef(range))).push((tag, ValueView::StringRef(range)))
        } else {
            before.push((tag, ValueView::StringRef(range)))
        }
    }
}

pub(crate) proof fn lemma_tag_end_is(s: Seq<u8>, from: int, delimiter: u8, at: int)
    requires
        0 <= from <= at < s.len(),
        s[at] == 61,
        forall|k: int| from <= k < at ==> #[trigger] s[k] != 61 && s[k] != delimiter,
    ensures
        tag_end(s, from, delimiter) == at,
    decreases at - from,
{
    if from < at {
        assert(s[from] != 61);
        lemma_tag_end_is(s, from + 1, delimiter, at);
    }
}

/// The delimiter, where it is ASCII, is written as itself.
pub(crate) proof fn lemma_delimiter_text(delimiter: u8)
    requires
        delimiter < 128,
    ensures
        delimiter_text(delimiter) == seq![delimiter],
{
    let c = seq![delimiter as char];
    assert forall|i: int| 0 <= i < c.len() implies '\0' <= #[trigger] c[i] <= '\u{7f}' by {}
    lemma_ascii_utf8(c);
    assert(ascii_bytes(c) =~= seq![delimiter]);
}

/// How a field that starts at `at` is read.
proof fn lemma_scan_field(
    fix: FixVersion,
    data: Seq<u8>,
    delimiter: u8,
    at: int,
    raw: int,
    tags: Tags,
    tag: u32,
    bytes: Seq<u8>,
)
    requires
        plain_delimiter(delimiter),
        data.len() <= usize::MAX,
        0 <= at,
        0 <= raw,
        at + wire_field(tag, bytes, delimiter).len() <= data.len(),
        data.subrange(at, at + wire_field(tag, bytes, delimiter).len()) == wire_field(
            tag,
            bytes,
            delimiter,
        ),
        tag != 0,
        if takes_raw(fix, tag, raw) {
            bytes.len() == raw
        } else {
            free_of(bytes, delimiter)
        },
    ensures
        ({
            let start = at + decimal(tag as nat).len() + 1;
            let end = at + wire_field(tag, bytes, delimiter).len();
            let range = span(start, bytes.len() as int);
            let tags1 = if takes_raw(fix, tag, raw) {
                tags.push((tag, ValueView::DataRef(range)))
            } else {
                tags
            };
            let tags2 = tags1.push((tag, ValueView::StringRef(range)));
            let raw1 = if takes_raw(fix, tag, raw) {
                0
            } else {
                raw
            };
            &&& range.in_range(data.len())
            &&& range.slice(data) == bytes
            &&& data.subrange(start, end - 1) == bytes
            &&& tag == 10 ==> scan(fix, data, delimiter, at, at, raw, tags) == Scan::Fields(
                tags2,
                end,
            )
            &&& tag != 10 && (tag == 8 ==> tag_value(tags2, 8)->0.bytes(data) == encode_utf8(
                fix.begin_string@,
            )) && (fix.field_type(tag) == Some("Length"@) ==> usize::parsed(bytes) is Ok) ==> scan(
                fix,
                data,
                delimiter,
                at,
                at,
                raw,
                tags,
            ) == scan(
                fix,
                data,
                delimiter,
                end,
                end,
                if fix.field_type(tag) == Some("Length"@) {
                    usize::parsed(bytes)->Ok_0 as int
                } else {
                    raw1
                },
                tags2,
            )
        }),
{
    let name = decimal(tag as nat);
    let field = wire_field(tag, bytes, delimiter);
    let eq = at + name.len();
    let start = eq + 1;
    let close = start + bytes.len();
    let end = close + 1;
    lemma_decimal_value(tag as nat);
    lemma_parse_decimal(tag as nat, u32::MAX as nat);
    assert(field.len() == name.len() + 1 + bytes.len() + 1);
    assert forall|k: int| at <= k < end implies #[trigger] data[k] == field[k - at] by {
        assert(data.subrange(at, at + field.len())[k - at] == field[k - at]);
    }
    assert(data[eq] == 61);
    assert forall|k: int| at <= k < eq implies #[trigger] data[k] != 61 && data[k]
        != delimiter by {
        assert(data[k] == name[k - at]);
        assert(is_digit(name[k - at]));
    }
    lemma_tag_end_is(data, at, delimiter, eq);
    assert(data.subrange(at, eq) =~= name);
    assert(u32::parsed(name) == Ok::<u32, crate::text::ParseIntError>(tag));
    assert(data.subrange(start, close) =~= bytes);
    let range = span(start, bytes.len() as int);
    assert(range.slice(data) =~= bytes);
    assert(data[close] == delimiter);
    if takes_raw(fix, tag, raw) {
        lemma_next_of_is(data, close, delimiter, close);
    } else {
        assert forall|k: int| start <= k < close implies #[trigger] data[k] != delimiter by {
            assert(data[k] == bytes[k - start]);
        }
        lemma_next_of_is(data, start, delimiter, close);
    }
    let value = if takes_raw(fix, tag, raw) {
        close
    } else {
        start
    };
    let raw1 = if takes_raw(fix, tag, raw) {
        0
    } else {
        raw
    };
    let tags1 = if takes_raw(fix, tag, raw) {
        tags.push((tag, ValueView::DataRef(range)))
    } else {
        tags
    };
    assert(next_of(data, value, delimiter) == close);
    assert(scan(fix, data, delimiter, at, at, raw, tags) == scan_value(
        fix,
        data,
        delimiter,
        tag,
        start,
        value,
        raw1,
        tags1,
    ));
    assert(end == at + field.len());
    assert(close < data.len());
}

proof fn lemma_written_mono(fields: Fields, delimiter: u8, m: nat, n: nat)
    requires
        m <= n,
    ensures
        written(fields, delimiter, m).len() <= written(fields, delimiter, n).len(),
        written(fields, delimiter, n).take(written(fields, delimiter, m).len() as int) == written(
            fields,
            delimiter,
            m,
        ),
    decreases n,
{
    let w = written(fields, delimiter, n);
    let k = written(fields, delimiter, m).len() as int;
    if m < n {
        let v = written(fields, delimiter, (n - 1) as nat);
        lemma_written_mono(fields, delimiter, m, (n - 1) as nat);
        assert(w.take(k) =~= v.take(k));
    } else {
        assert(w.take(k) =~= w);
    }
}

/// Reading a run of fields that can be told apart.
proof fn lemma_scan_fields(
    fix: FixVersion,
    data: Seq<u8>,
    delimiter: u8,
    fields: Fields,
    n: nat,
)
    requires
        plain_delimiter(delimiter),
        data.len() <= usize::MAX,
        n <= fields.len(),
        fields.len() > 0,
        fields[0].0 == 8,
        all_separable(fix, fields, delimiter),
        written(fields, delimiter, n).len() <= data.len(),
        data.take(written(fields, delimiter, n).len() as int) == written(fields, delimiter, n),
    ensures
        raw_after(fix, fields, n) >= 0,
        parse(fix, data, delimiter) == scan(
            fix,
            data,
            delimiter,
            written(fields, delimiter, n).len() as int,
            written(fields, delimiter, n).len() as int,
            raw_after(fix, fields, n),
            spans(fix, fields, delimiter, n),
        ),
        readings(spans(fix, fields, delimiter, n), data) == read_back(fix, fields, n),
        all_within(spans(fix, fields, delimiter, n), data.len()),
    decreases n,
{
    if n == 0 {
        assert(spans(fix, fields, delimiter, 0) =~= seq![]);
        assert(readings(spans(fix, fields, delimiter, 0), data) =~= read_back(fix, fields, 0));
    } else {
        let k = (n - 1) as nat;
        let before = written(fields, delimiter, k);
        let all = written(fields, delimiter, n);
        let (tag, bytes) = fields[n - 1];
        let field = wire_field(tag, bytes, delimiter);
        let at = before.len() as int;
        lemma_written_mono(fields, delimiter, k, n);
        assert(data.take(at) =~= data.take(all.len() as int).take(at));
        lemma_scan_fields(fix, data, delimiter, fields, k);
        assert(separable(fix, fields, delimiter, n - 1));
        let raw = raw_after(fix, fields, k);
        let tags = spans(fix, fields, delimiter, k);
        assert(data.subrange(at, at + field.len()) =~= field) by {
            assert forall|i: int| 0 <= i < field.len() implies data.subrange(
                at,
                at + field.len(),
            )[i] == field[i] by {
                assert(data.take(all.len() as int)[at + i] == all[at + i]);
            }
        }
        lemma_scan_field(fix, data, delimiter, at, raw, tags, tag, bytes);
        let tags2 = spans(fix, fields, delimiter, n);
        if tag == 8 {
            assert(tags =~= seq![]);
            assert(tags2[0].0 == 8);
            assert(first_tag(tags2, 8, 0) == 0);
        }
        assert(readings(tags2, data) =~= read_back(fix, fields, n)) by {
            let start = at + decimal(tag as nat).len() + 1;
            let range = span(start, bytes.len() as int);
            assert(range.slice(data) == bytes);
            assert(readings(tags, data) == read_back(fix, fields, k));
            assert(forall|i: int|
                0 <= i < tags.len() ==> readings(tags2, data)[i] == #[trigger] readings(
                    tags,
                    data,
                )[i]);
        }
    }
}

/// The fields of a message as `written` has them.
proof fn lemma_kept_written(
    tags: Tags,
    data: Seq<u8>,
    delimiter: u8,
    front: Fields,
    n: nat,
)
    requires
        n <= tags.len(),
    ensures
        written(front + kept(tags, data, n), delimiter, (front + kept(tags, data, n)).len())
            == written(front, delimiter, front.len()) + wire_fields(tags, data, delimiter, n),
    decreases n,
{
    let all = front + kept(tags, data, n);
    if n == 0 {
        assert(all =~= front);
        assert(written(front, delimiter, front.len()) + wire_fields(tags, data, delimiter, 0)
            =~= written(front, delimiter, front.len()));
    } else {
        lemma_kept_written(tags, data, delimiter, front, (n - 1) as nat);
        let before = front + kept(tags, data, (n - 1) as nat);
        let (tag, value) = tags[n - 1];
        if is_framing(tag) || value.is_empty() {
            assert(all =~= before);
        } else {
            assert(all =~= before.push((tag, value.bytes(data))));
            lemma_written_prefix(all, before, delimiter, before.len());
            assert(written(all, delimiter, all.len()) =~= written(before, delimiter, before.len())
                + wire_field(tag, value.bytes(data), delimiter));
            assert(written(all, delimiter, all.len()) =~= written(front, delimiter, front.len())
                + wire_fields(tags, data, delimiter, n));
        }
    }
}

proof fn lemma_written_prefix(a: Fields, b: Fields, delimiter: u8, n: nat)
    requires
        n <= a.len(),
        n <= b.len(),
        forall|i: int| 0 <= i < n ==> a[i] == b[i],
    ensures
        written(a, delimiter, n) == written(b, delimiter, n),
    decreases n,
{
    if n > 0 {
        lemma_written_prefix(a, b, delimiter, (n - 1) as nat);
    }
}

proof fn lemma_small_decimals()
    ensures
        decimal(8) == seq![56u8],
        decimal(9) == seq![57u8],
        decimal(10) == seq![49u8, 48],
        decimal(35) == seq![51u8, 53],
        pow10(3) == 1000,
        pow10(6) == 1_000_000,
{
    reveal_with_fuel(decimal, 3);
    reveal_with_fuel(pow10, 7);
    assert(decimal(8) =~= seq![56u8]);
    assert(decimal(9) =~= seq![57u8]);
    assert(decimal(10) =~= seq![49u8, 48]);
    assert(decimal(35) =~= seq![51u8, 53]);
}

/// The wire form is a run of fields that ends in CheckSum.
proof fn lemma_wire_is_fields(m: MessageView, delimiter: u8)
    requires
        delimiter < 128,
    ensures
        m.wire_header(delimiter) + m.wire_body(delimiter) == written(
            m.fields(delimiter),
            delimiter,
            m.fields(delimiter).len(),
        ),
        m.wire(delimiter) == written(m.fields(delimiter), delimiter, m.fields(delimiter).len())
            + wire_field(10, padded(m.sum(delimiter) as nat, 3), delimiter),
        m.wire_header(delimiter) == written(m.fields(delimiter), delimiter, 2),
{
    lemma_small_decimals();
    lemma_delimiter_text(delimiter);
    let front = seq![
        (8u32, encode_utf8(m.fix_version.begin_string@)),
        (9u32, padded(m.wire_body(delimiter).len(), 6)),
        (35u32, encode_utf8(m.msg_type())),
    ];
    lemma_kept_written(m.tags, m.data, delimiter, front, m.tags.len());
    let fields = m.fields(delimiter);
    lemma_written_prefix(fields, front, delimiter, 2);
    reveal_with_fuel(written, 4);
    assert(written(front, delimiter, 2) =~= m.wire_header(delimiter));
    assert(written(front, delimiter, 3) =~= m.wire_header(delimiter) + (seq![51u8, 53, 61]
        + encode_utf8(m.msg_type()) + delimiter_text(delimiter)));
    assert(written(fields, delimiter, fields.len()) =~= m.wire_header(delimiter) + m.wire_body(
        delimiter,
    ));
    assert(m.wire(delimiter) =~= written(fields, delimiter, fields.len()) + wire_field(
        10,
        padded(m.sum(delimiter) as nat, 3),
        delimiter,
    ));
}

/// The decoder will take the message for one of this version.
pub open spec fn recognised(dec: DecoderView, m: MessageView) -> bool {
    &&& version_from(dec.repo, encode_utf8(m.fix_version.begin_string@), 0) matches Some(v)
        && match dec.fix_version {
        Some(latched) => *latched == m.fix_version,
        None => *v == m.fix_version,
    }
    &&& free_of(encode_utf8(m.fix_version.begin_string@), dec.delimiter)
}

/// The message can be told apart from what is around it on the wire.
pub open spec fn encodable(m: MessageView, delimiter: u8) -> bool {
    &&& plain_delimiter(delimiter)
    &&& m.wire_body(delimiter).len() < BODY_LIMIT
    &&& m.fix_version.field_type(10) != Some("data"@)
    &&& all_separable(m.fix_version, m.fields(delimiter), delimiter)
}

/// What the front of the message says, once at least `header` bytes are there.
proof fn lemma_peek_header(dec: DecoderView, m: MessageView, s: Seq<u8>)
    requires
        encodable(m, dec.delimiter),
        recognised(dec, m),
        m.wire_header(dec.delimiter).len() <= s.len(),
        s.take(m.wire_header(dec.delimiter).len() as int) == m.wire_header(dec.delimiter),
    ensures
        ({
            let v = version_from(dec.repo, encode_utf8(m.fix_version.begin_string@), 0);
            peek_header(dec.repo, s, dec.delimiter) matches Ok(e) && e.fix_version == v
                && e.body_length == Some(m.wire_body(dec.delimiter).len() as usize)
                && e.header_length == m.wire_header(dec.delimiter).len()
        }),
{
    let d = dec.delimiter;
    let h = m.wire_header(d);
    let bs = encode_utf8(m.fix_version.begin_string@);
    let n = m.wire_body(d).len();
    let len = padded(n, 6);
    lemma_delimiter_text(d);
    lemma_small_decimals();
    lemma_padded_value(n, 6);
    assert forall|k: int| 0 <= k < h.len() implies #[trigger] s[k] == h[k] by {
        assert(s.take(h.len() as int)[k] == h[k]);
    }
    let end = 2 + bs.len() as int;
    let first = s.take(end);
    assert(first =~= seq![56u8, 61] + bs);
    assert(s[end] == d);
    assert forall|k: int| 0 <= k < end implies #[trigger] s[k] != d by {
        assert(s[k] == h[k]);
        if k >= 2 {
            assert(h[k] == bs[k - 2]);
        }
    }
    lemma_next_of_is(s, 0, d, end);
    lemma_next_of_is(first, 0, 61, 1);
    assert(first.take(1) =~= seq![56u8]);
    assert(first.skip(2) =~= bs);
    lemma_prefix_utf8(seq![56u8, 61], m.fix_version.begin_string@);
    let at = end + 1;
    let end2 = at + 2 + 6;
    assert(h.len() == end2 + 1);
    assert(s[end2] == d);
    assert forall|k: int| at <= k < end2 implies #[trigger] s[k] != d by {
        assert(s[k] == h[k]);
        if k >= at + 2 {
            assert(h[k] == len[k - at - 2]);
            assert(is_digit(len[k - at - 2]));
        }
    }
    lemma_next_of_is(s, at, d, end2);
    let second = s.subrange(at, end2);
    assert(second =~= seq![57u8, 61] + len);
    lemma_next_of_is(second, 0, 61, 1);
    assert(second.take(1) =~= seq![57u8]);
    assert(second.skip(2) =~= len);
    lemma_digits_utf8(len);
    lemma_prefix_utf8(seq![57u8, 61], crate::text::ascii_chars(len));
    lemma_parse_digits(len, usize::MAX as nat);
}

/// ASCII in front of text is text.
proof fn lemma_prefix_utf8(front: Seq<u8>, text: Seq<char>)
    requires
        crate::time::ascii_only(front),
    ensures
        valid_utf8(front + encode_utf8(text)),
    decreases front.len(),
{
    crate::time::lemma_ascii_text(front);
    let c = crate::text::ascii_chars(front);
    lemma_encode_concat(c, text);
    encode_utf8_valid_utf8(c + text);
}

/// Encoding goes character by character.
pub proof fn lemma_encode_concat(a: Seq<char>, b: Seq<char>)
    ensures
        encode_utf8(a + b) == encode_utf8(a) + encode_utf8(b),
    decreases a.len(),
{
    if a.len() == 0 {
        assert(a + b =~= b);
        assert(encode_utf8(a) + encode_utf8(b) =~= encode_utf8(b));
    } else {
        lemma_encode_concat(a.drop_first(), b);
        assert((a + b).drop_first() =~= a.drop_first() + b);
        assert(encode_utf8(a + b) =~= encode_utf8(a) + encode_utf8(b));
    }
}

/// What the end of the message says, once it is all there.
proof fn lemma_peek_trailer(sum: u8, delimiter: u8, s: Seq<u8>)
    requires
        plain_delimiter(delimiter),
        7 <= s.len(),
        s.take(7) == wire_field(10, padded(sum as nat, 3), delimiter),
    ensures
        peek_trailer(s, delimiter) == Ok::<Option<(u8, int)>, crate::error::ErrorView>(
            Some((sum, 7)),
        ),
{
    let t = wire_field(10, padded(sum as nat, 3), delimiter);
    let digits = padded(sum as nat, 3);
    lemma_small_decimals();
    lemma_padded_value(sum as nat, 3);
    assert forall|k: int| 0 <= k < 7 implies #[trigger] s[k] == t[k] by {
        assert(s.take(7)[k] == t[k]);
    }
    let first = s.take(6);
    assert(first =~= seq![49u8, 48, 61] + digits);
    assert forall|k: int| 0 <= k < 6 implies #[trigger] s[k] != delimiter by {
        assert(s[k] == t[k]);
        if k >= 3 {
            assert(t[k] == digits[k - 3]);
            assert(is_digit(digits[k - 3]));
        }
    }
    lemma_next_of_is(s, 0, delimiter, 6);
    lemma_next_of_is(first, 0, 61, 2);
    assert(first.take(2) =~= seq![49u8, 48]);
    assert(first.skip(3) =~= digits);
    lemma_digits_utf8(digits);
    lemma_prefix_utf8(seq![49u8, 48, 61], crate::text::ascii_chars(digits));
    lemma_parse_digits(digits, u8::MAX as nat);
}

/// Reading the wire form as one message.
proof fn lemma_parse_wire(m: MessageView, d: u8)
    requires
        encodable(m, d),
        m.wire(d).len() <= usize::MAX,
    ensures
        ({
            let fields = m.fields(d);
            parse(m.fix_version, m.wire(d), d) matches Scan::Fields(tags, n) && n == m.wire(d).len()
                && all_within(tags, m.wire(d).len()) && readings(tags, m.wire(d)) == read_back(
                m.fix_version,
                fields,
                fields.len(),
            ).push((10u32, false, padded(m.sum(d) as nat, 3)))
        }),
{
    let wire = m.wire(d);
    let fix = m.fix_version;
    let fields = m.fields(d);
    let front = written(fields, d, fields.len());
    let trailer = front.len() as int;
    let digits = padded(m.sum(d) as nat, 3);
    lemma_wire_is_fields(m, d);
    lemma_small_decimals();
    lemma_padded_value(m.sum(d) as nat, 3);
    assert(wire.len() == trailer + 7);
    assert(wire.take(trailer) =~= front);
    lemma_scan_fields(fix, wire, d, fields, fields.len());
    let tags = spans(fix, fields, d, fields.len());
    let raw = raw_after(fix, fields, fields.len());
    assert(wire.subrange(trailer, trailer + 7) =~= wire_field(10, digits, d));
    assert(free_of(digits, d)) by {
        assert forall|i: int| 0 <= i < digits.len() implies #[trigger] digits[i] != d by {
            assert(is_digit(digits[i]));
        }
    }
    lemma_scan_field(fix, wire, d, trailer, raw, tags, 10, digits);
    let range = span(trailer + 3, 3);
    let got = tags.push((10u32, ValueView::StringRef(range)));
    assert(range.slice(wire) =~= digits);
    assert(readings(got, wire) =~= read_back(fix, fields, fields.len()).push(
        (10u32, false, digits),
    )) by {
        assert(forall|i: int|
            0 <= i < tags.len() ==> readings(got, wire)[i] == #[trigger] readings(tags, wire)[i]);
    }
}

/// Decoding gives back what was encoded: the bytes of the message leave the
/// buffer, whatever follows stays, and the fields are those that were written,
/// in order, between BeginString and CheckSum.
#[verifier::rlimit(50)]
pub proof fn law_decode_gives_back_what_was_encoded(
    dec: DecoderView,
    m: MessageView,
    rest: Seq<u8>,
)
    requires
        encodable(m, dec.delimiter),
        recognised(dec, m),
        m.wire(dec.delimiter).len() + rest.len() <= usize::MAX,
    ensures
        ({
            let wire = m.wire(dec.delimiter);
            let fields = m.fields(dec.delimiter);
            let out = dec.decode(wire + rest);
            &&& out.consumed == wire.len()
            &&& (wire + rest).take(out.consumed) == wire
            &&& (wire + rest).skip(out.consumed) == rest
            &&& out.fix_version matches Some(v) && *v == m.fix_version
            &&& out.result matches Ok(Some(tags)) && all_within(tags, wire.len()) && readings(
                tags,
                wire,
            ) == read_back(
                m.fix_version,
                fields,
                fields.len(),
            ).push((10u32, false, padded(m.sum(dec.delimiter) as nat, 3)))
        }),
{
    let d = dec.delimiter;
    let wire = m.wire(d);
    let s = wire + rest;
    let fields = m.fields(d);
    let front = written(fields, d, fields.len());
    let header = m.wire_header(d);
    let trailer = front.len() as int;
    let sum = m.sum(d);
    let digits = padded(sum as nat, 3);
    lemma_wire_is_fields(m, d);
    lemma_small_decimals();
    lemma_padded_value(sum as nat, 3);
    assert(s.take(header.len() as int) =~= header) by {
        lemma_written_mono(fields, d, 2, fields.len());
        assert(s.take(header.len() as int) =~= front.take(header.len() as int));
    }
    lemma_peek_header(dec, m, s);
    let tail = s.skip(trailer);
    assert(tail.take(7) =~= wire_field(10, digits, d));
    lemma_peek_trailer(sum, d, tail);
    assert(s.take(trailer) =~= front);
    assert(wire.len() == trailer + 7);
    assert(s.take(wire.len() as int) =~= wire);
    assert(s.skip(wire.len() as int) =~= rest);
    assert(wire.take(trailer) =~= front);
    lemma_parse_wire(m, d);
    let envelope = peek_header(dec.repo, s, d)->Ok_0;
    let latched = match dec.fix_version {
        Some(v) => v,
        None => envelope.fix_version->0,
    };
    assert(*latched == m.fix_version);
    assert(dec.decode(s) == dec.decode_body(s, latched, trailer));
}

/// The front of the wire form: where its two delimiters stand.
proof fn lemma_wire_front(m: MessageView, d: u8)
    requires
        encodable(m, d),
        free_of(encode_utf8(m.fix_version.begin_string@), d),
    ensures
        ({
            let wire = m.wire(d);
            let bs = encode_utf8(m.fix_version.begin_string@);
            let end = 2 + bs.len() as int;
            &&& m.wire_header(d).len() == end + 10
            &&& m.wire_header(d).len() <= wire.len()
            &&& wire.take(end + 10) == m.wire_header(d)
            &&& wire.take(end) == seq![56u8, 61] + bs
            &&& wire[end] == d
            &&& forall|k: int| 0 <= k < end ==> #[trigger] wire[k] != d
            &&& forall|k: int| end < k < end + 9 ==> #[trigger] wire[k] != d
        }),
{
    let wire = m.wire(d);
    let fields = m.fields(d);
    let front = written(fields, d, fields.len());
    let header = m.wire_header(d);
    let bs = encode_utf8(m.fix_version.begin_string@);
    let len = padded(m.wire_body(d).len(), 6);
    lemma_wire_is_fields(m, d);
    lemma_small_decimals();
    lemma_delimiter_text(d);
    lemma_padded_value(m.wire_body(d).len(), 6);
    lemma_written_mono(fields, d, 2, fields.len());
    let end = 2 + bs.len() as int;
    assert(wire.take(end + 10) =~= header) by {
        assert(wire.take(end + 10) =~= front.take(end + 10));
    }
    assert forall|k: int| 0 <= k < header.len() implies #[trigger] wire[k] == header[k] by {
        assert(wire.take(end + 10)[k] == header[k]);
    }
    assert(wire.take(end) =~= seq![56u8, 61] + bs);
    assert forall|k: int| 0 <= k < end implies #[trigger] wire[k] != d by {
        assert(wire[k] == header[k]);
        if k >= 2 {
            assert(header[k] == bs[k - 2]);
        }
    }
    assert forall|k: int| end < k < end + 9 implies #[trigger] wire[k] != d by {
        assert(wire[k] == header[k]);
        if k >= end + 3 {
            assert(header[k] == len[k - end - 3]);
            assert(is_digit(len[k - end - 3]));
        }
    }
}

/// The end of the wire form holds a delimiter only as its last byte.
proof fn lemma_wire_tail(m: MessageView, d: u8)
    requires
        encodable(m, d),
    ensures
        ({
            let wire = m.wire(d);
            let trailer = wire.len() - 7;
            &&& trailer == m.wire_header(d).len() + m.wire_body(d).len()
            &&& forall|k: int| trailer <= k < trailer + 6 ==> #[trigger] wire[k] != d
        }),
{
    let wire = m.wire(d);
    let fields = m.fields(d);
    let front = written(fields, d, fields.len());
    let digits = padded(m.sum(d) as nat, 3);
    let t = wire_field(10, digits, d);
    lemma_wire_is_fields(m, d);
    lemma_small_decimals();
    lemma_padded_value(m.sum(d) as nat, 3);
    let trailer = front.len() as int;
    assert forall|k: int| trailer <= k < trailer + 6 implies #[trigger] wire[k] != d by {
        assert(wire[k] == t[k - trailer]);
        if k - trailer >= 3 {
            assert(t[k - trailer] == digits[k - trailer - 3]);
            assert(is_digit(digits[k - trailer - 3]));
        }
    }
}

/// What can be told while the front of a message is still incomplete.
proof fn lemma_partial_front(dec: DecoderView, m: MessageView, s: Seq<u8>)
    requires
        encodable(m, dec.delimiter),
        recognised(dec, m),
        s.len() < m.wire_header(dec.delimiter).len(),
        s == m.wire(dec.delimiter).take(s.len() as int),
    ensures
        peek_header(dec.repo, s, dec.delimiter) matches Ok(e) && e.body_length is None && (
        e.fix_version is None || e.fix_version == version_from(
            dec.repo,
            encode_utf8(m.fix_version.begin_string@),
            0,
        )),
{
    let d = dec.delimiter;
    let wire = m.wire(d);
    let bs = encode_utf8(m.fix_version.begin_string@);
    let end = 2 + bs.len() as int;
    lemma_wire_front(m, d);
    let n = s.len() as int;
    assert forall|k: int| 0 <= k < n implies #[trigger] s[k] == wire[k] by {
        assert(wire.take(n)[k] == wire[k]);
    }
    if n <= end {
        lemma_next_of_is(s, 0, d, n);
    } else {
        lemma_next_of_is(s, 0, d, end);
        let first = s.take(end);
        assert(first =~= wire.take(end));
        lemma_next_of_is(first, 0, 61, 1);
        assert(first.take(1) =~= seq![56u8]);
        assert(first.skip(2) =~= bs);
        lemma_prefix_utf8(seq![56u8, 61], m.fix_version.begin_string@);
        lemma_next_of_is(s, end + 1, d, n);
    }
}

/// A part of a message is left in the buffer, with nothing reported, until the
/// rest has arrived: so a message that is split across reads is put together
/// again.
pub proof fn law_partial_frame_waits(dec: DecoderView, m: MessageView, n: int)
    requires
        encodable(m, dec.delimiter),
        recognised(dec, m),
        0 <= n < m.wire(dec.delimiter).len(),
    ensures
        ({
            let out = dec.decode(m.wire(dec.delimiter).take(n));
            &&& out.result matches Ok(None)
            &&& out.consumed == 0
            &&& out.fix_version == dec.fix_version || (out.fix_version matches Some(v) && *v
                == m.fix_version)
        }),
{
    let d = dec.delimiter;
    let wire = m.wire(d);
    let s = wire.take(n);
    let header = m.wire_header(d);
    lemma_wire_front(m, d);
    lemma_wire_tail(m, d);
    if n < header.len() {
        lemma_partial_front(dec, m, s);
    } else {
        assert(s.take(header.len() as int) =~= header) by {
            assert(s.take(header.len() as int) =~= wire.take(header.len() as int));
        }
        lemma_peek_header(dec, m, s);
        let trailer = wire.len() - 7;
        if n > trailer {
            let tail = s.skip(trailer);
            assert forall|k: int| 0 <= k < tail.len() implies #[trigger] tail[k] != d by {
                assert(tail[k] == wire[trailer + k]);
            }
            lemma_next_of_is(tail, 0, d, tail.len() as int);
        }
    }
}

/// The first `b` stands where it stood, whatever follows.
proof fn lemma_next_of_more(s: Seq<u8>, more: Seq<u8>, from: int, b: u8)
    requires
        0 <= from,
        next_of(s, from, b) < s.len(),
    ensures
        from <= next_of(s, from, b),
        next_of(s + more, from, b) == next_of(s, from, b),
    decreases s.len() - from,
{
    assert(from < s.len());
    assert((s + more)[from] == s[from]);
    if s[from] != b {
        lemma_next_of_more(s, more, from + 1, b);
    }
}

/// Once the envelope has been read, or found to be bad, what follows does not
/// matter to it.
proof fn lemma_peek_header_more(dec: DecoderView, s: Seq<u8>, more: Seq<u8>)
    requires
        peek_header(dec.repo, s, dec.delimiter) matches Ok(e) ==> e.body_length is Some,
    ensures
        peek_header(dec.repo, s + more, dec.delimiter) == peek_header(dec.repo, s, dec.delimiter),
{
    let d = dec.delimiter;
    let t = s + more;
    let end = next_of(s, 0, d);
    if end < s.len() {
        lemma_next_of_more(s, more, 0, d);
        assert(t.take(end) =~= s.take(end));
        let at = end + 1;
        let end2 = next_of(s, at, d);
        if end2 < s.len() {
            lemma_next_of_more(s, more, at, d);
            assert(t.subrange(at, end2) =~= s.subrange(at, end2));
        }
    }
}

/// A frame that is complete, or bad, stays what it is, whatever follows it.
pub proof fn law_what_follows_does_not_change_a_frame(dec: DecoderView, s: Seq<u8>, more: Seq<u8>)
    requires
        dec.decode(s).result != Ok::<Option<Tags>, ErrorView>(None),
    ensures
        dec.decode(s + more) == dec.decode(s),
{
    let d = dec.delimiter;
    let t = s + more;
    lemma_peek_header_more(dec, s, more);
    if let Ok(e) = peek_header(dec.repo, s, d) {
        let trailer = e.header_length + e.body_length->0;
        crate::text::lemma_next_of(s, 0, d);
        crate::text::lemma_next_of(s, next_of(s, 0, d) + 1, d);
        assert(0 <= trailer < s.len());
        let tail = s.skip(trailer);
        let end = next_of(tail, 0, d);
        assert(t.skip(trailer) =~= tail + more);
        assert(end < tail.len());
        lemma_next_of_more(tail, more, 0, d);
        assert((tail + more).take(end) =~= tail.take(end));
        assert(t.take(trailer) =~= s.take(trailer));
        if let Ok(Some((sum, n))) = peek_trailer(tail, d) {
            assert(t.take(trailer + n) =~= s.take(trailer + n));
        }
    }
}

/// A message with a wrong checksum is an error, and its bytes are gone from the
/// buffer.
pub proof fn law_checksum_is_verified(dec: DecoderView, s: Seq<u8>, trailer: int, sum: u8, n: int)
    requires
        peek_header(dec.repo, s, dec.delimiter) matches Ok(e) && (e.body_length matches Some(b)
            && e.header_length + b == trailer) && (dec.fix_version is Some
            || e.fix_version is Some),
        0 <= trailer < s.len(),
        peek_trailer(s.skip(trailer), dec.delimiter) == Ok::<
            Option<(u8, int)>,
            crate::error::ErrorView,
        >(Some((sum, n))),
        sum != checksum(s.take(trailer)),
    ensures
        dec.decode(s).result matches Err(crate::error::ErrorView::InvalidMessage(_)),
        dec.decode(s).consumed == trailer + n,
{
}

} // verus!
