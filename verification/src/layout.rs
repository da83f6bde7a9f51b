//! What stands on the wire, and what is read off it, byte by byte.

use std::sync::Arc;

use vstd::prelude::*;
use vstd::string::*;
use vstd::utf8::*;

use crate::codec::{stamped, DecoderView};
use crate::error::ErrorView;
use crate::framing::{lemma_delimiter_text, lemma_tag_end_is};
use crate::message::{
    first_tag, lemma_first_tag, lemma_first_tag_is, MessageView, Tags, ValueView,
};
use crate::repository::{FixRepository, FixVersion};
use crate::text::{
    ascii_chars, decimal, decimal_text, digits_value, lemma_ascii_utf8, lemma_encode_injective,
    lemma_next_of, lemma_next_of_is, lemma_padded_value, next_of, padded, pow10, ParseIntError,
    ParseInteger,
};
use crate::wire::{
    checksum, parse, peek_header, peek_trailer, scan, scan_value, span, tag_end, text_fields,
    version_from, wire_fields, Scan,
};

verus! {

// ---------------------------------------------------------------------------
// Writing
// ---------------------------------------------------------------------------

/// The CheckSum is the sum of the bytes, modulo 256: that of one byte is the
/// byte, and that of two stretches is the sum of theirs.
pub proof fn law_checksums_add_up(a: Seq<u8>, b: Seq<u8>)
    ensures
        checksum(Seq::<u8>::empty()) == 0,
        forall|byte: u8| #[trigger] checksum(seq![byte]) == byte,
        checksum(a + b) == (checksum(a) + checksum(b)) % 256,
    decreases b.len(),
{
    assert forall|byte: u8| #[trigger] checksum(seq![byte]) == byte by {
        assert(seq![byte].drop_last() =~= Seq::empty());
        reveal_with_fuel(checksum, 2);
    }
    if b.len() == 0 {
        assert(a + b =~= a);
    } else {
        law_checksums_add_up(a, b.drop_last());
        assert((a + b).drop_last() =~= a + b.drop_last());
        assert((a + b).last() == b.last());
        lemma_mod(checksum(a) as int, checksum(b.drop_last()) as int, b.last() as int);
    }
}

proof fn lemma_mod(x: int, y: int, z: int)
    ensures
        ((x + y) % 256 + z) % 256 == (x + (y + z) % 256) % 256,
{
}

/// A tag that frames a message: BeginString, BodyLength, CheckSum or MsgType.
pub open spec fn frames(tag: u32) -> bool {
    tag == 8 || tag == 9 || tag == 10 || tag == 35
}

/// One field more on the wire is written behind the others as `tag=value` and the
/// delimiter, unless it frames the message or is empty.
pub proof fn law_how_fields_are_written(
    tags: Tags,
    data: Seq<u8>,
    delimiter: u8,
    tag: u32,
    value: ValueView,
)
    requires
        value.in_range(data.len()),
    ensures
        wire_fields(Seq::empty(), data, delimiter, 0) == Seq::<u8>::empty(),
        ({
            let all = tags.push((tag, value));
            let bytes = value.bytes(data);
            wire_fields(all, data, delimiter, all.len()) == wire_fields(
                tags,
                data,
                delimiter,
                tags.len(),
            ) + (if frames(tag) || bytes.len() == 0 {
                Seq::empty()
            } else {
                decimal(tag as nat) + seq![61u8] + bytes + seq![delimiter]
            })
        }),
        ({
            let all = tags.push((tag, value));
            let bytes = value.bytes(data);
            text_fields(all, data, delimiter, all.len()) == text_fields(
                tags,
                data,
                delimiter,
                tags.len(),
            ) + (if frames(tag) || bytes.len() == 0 {
                Seq::empty()
            } else {
                decimal_text(tag as nat) + seq!['='] + value.shown(data) + seq![delimiter as char]
            })
        }),
{
    let all = tags.push((tag, value));
    lemma_same_fields(tags, all, data, delimiter, tags.len());
    assert(all[tags.len() as int] == (tag, value));
    lemma_emptiness(value, data);
    assert(wire_fields(all, data, delimiter, all.len()) =~= wire_fields(
        tags,
        data,
        delimiter,
        tags.len(),
    ) + (if frames(tag) || value.bytes(data).len() == 0 {
        Seq::empty()
    } else {
        decimal(tag as nat) + seq![61u8] + value.bytes(data) + seq![delimiter]
    }));
    assert(text_fields(all, data, delimiter, all.len()) =~= text_fields(
        tags,
        data,
        delimiter,
        tags.len(),
    ) + (if frames(tag) || value.bytes(data).len() == 0 {
        Seq::empty()
    } else {
        decimal_text(tag as nat) + seq!['='] + value.shown(data) + seq![delimiter as char]
    }));
}

proof fn lemma_emptiness(value: ValueView, data: Seq<u8>)
    requires
        value.in_range(data.len()),
    ensures
        value.is_empty() <==> value.bytes(data).len() == 0,
{
    if let ValueView::String(s) = value {
        if s.len() == 0 {
            assert(s =~= Seq::empty());
            lemma_ascii_utf8(s);
        } else {
            encode_utf8_decode_utf8(s);
            if encode_utf8(s).len() == 0 {
                assert(encode_utf8(s) =~= encode_utf8(Seq::<char>::empty())) by {
                    lemma_ascii_utf8(Seq::<char>::empty());
                }
                lemma_encode_injective(s, Seq::<char>::empty());
            }
        }
    }
}

proof fn lemma_same_fields(a: Tags, b: Tags, data: Seq<u8>, delimiter: u8, n: nat)
    requires
        n <= a.len(),
        n <= b.len(),
        forall|i: int| 0 <= i < n ==> a[i] == b[i],
    ensures
        wire_fields(a, data, delimiter, n) == wire_fields(b, data, delimiter, n),
        text_fields(a, data, delimiter, n) == text_fields(b, data, delimiter, n),
    decreases n,
{
    if n > 0 {
        lemma_same_fields(a, b, data, delimiter, (n - 1) as nat);
    }
}

/// A message on the wire is BeginString, BodyLength, MsgType, the fields, and
/// CheckSum. BodyLength counts from MsgType up to CheckSum, in six digits;
/// CheckSum sums up all that stands before it, in three.
pub proof fn law_what_a_message_on_the_wire_is(m: MessageView, delimiter: u8)
    requires
        delimiter < 128,
        m.wire_body(delimiter).len() < 1_000_000,
    ensures
        ({
            let wire = m.wire(delimiter);
            let d = seq![delimiter];
            let body = seq![51u8, 53, 61] + encode_utf8(m.msg_type()) + d + wire_fields(
                m.tags,
                m.data,
                delimiter,
                m.tags.len(),
            );
            let version = seq![56u8, 61] + encode_utf8(m.fix_version.begin_string@) + d;
            exists|length: Seq<u8>, sum: Seq<u8>| #[trigger]
                laid_out(wire, version, length, d, body, sum)
        }),
{
    let d = seq![delimiter];
    let wire = m.wire(delimiter);
    lemma_delimiter_text(delimiter);
    let version = seq![56u8, 61] + encode_utf8(m.fix_version.begin_string@) + d;
    let body = seq![51u8, 53, 61] + encode_utf8(m.msg_type()) + d + wire_fields(
        m.tags,
        m.data,
        delimiter,
        m.tags.len(),
    );
    assert(body =~= m.wire_body(delimiter));
    let length = padded(body.len(), 6);
    let front = version + seq![57u8, 61] + length + d + body;
    assert(front =~= m.wire_header(delimiter) + m.wire_body(delimiter));
    let sum = padded(checksum(front) as nat, 3);
    reveal_with_fuel(pow10, 7);
    lemma_padded_value(body.len(), 6);
    lemma_padded_value(checksum(front) as nat, 3);
    assert(wire =~= front + seq![49u8, 48, 61] + sum + d);
    assert(laid_out(wire, version, length, d, body, sum));
}

/// The parts of a message on the wire.
pub open spec fn laid_out(
    wire: Seq<u8>,
    version: Seq<u8>,
    length: Seq<u8>,
    d: Seq<u8>,
    body: Seq<u8>,
    sum: Seq<u8>,
) -> bool {
    let front = version + seq![57u8, 61] + length + d + body;
    &&& wire == front + seq![49u8, 48, 61] + sum + d
    &&& length.len() == 6
    &&& digits_value(length) == body.len()
    &&& sum.len() == 3
    &&& digits_value(sum) == checksum(front)
}

/// A message as text has the same parts, with BodyLength as long as it needs to
/// be. BodyLength and CheckSum are those of the text's bytes.
pub proof fn law_what_a_message_as_text_is(m: MessageView, delimiter: u8)
    ensures
        ({
            let d = seq![delimiter as char];
            let body = "35="@ + m.msg_type() + d + text_fields(
                m.tags,
                m.data,
                delimiter,
                m.tags.len(),
            );
            let front = "8="@ + m.fix_version.begin_string@ + d + "9="@ + decimal_text(
                encode_utf8(body).len(),
            ) + d + body;
            m.text(delimiter) == front + "10="@ + ascii_chars(
                padded(checksum(encode_utf8(front)) as nat, 3),
            ) + d
        }),
{
}

/// Stamping a message overwrites the value of its first SendingTime, and nothing
/// else. A message without one cannot be stamped.
pub proof fn law_what_stamping_changes(tags: Tags, stamp: Seq<u8>, i: int)
    requires
        0 <= i < tags.len(),
    ensures
        stamped(tags, stamp) is Some <==> exists|k: int|
            0 <= k < tags.len() && (#[trigger] tags[k]).0 == 52,
        stamped(tags, stamp) matches Some(after) ==> {
            &&& after.len() == tags.len()
            &&& after[i].0 == tags[i].0
            &&& after[i].1 == if tags[i].0 == 52 && (forall|k: int|
                0 <= k < i ==> (#[trigger] tags[k]).0 != 52) {
                ValueView::String(ascii_chars(stamp))
            } else {
                tags[i].1
            }
        },
{
    lemma_first_tag(tags, 52, 0);
    let p = first_tag(tags, 52, 0);
    if p < tags.len() {
        assert(tags[p].0 == 52);
    }
}

// ---------------------------------------------------------------------------
// Reading one field
// ---------------------------------------------------------------------------

/// A stretch of the buffer as text.
pub open spec fn text_at(start: int, end: int) -> ValueView {
    ValueView::StringRef(span(start, end - start))
}

/// The field that starts at `at` has its `=` at `eq`.
pub open spec fn named_up_to(data: Seq<u8>, delimiter: u8, at: int, eq: int) -> bool {
    &&& 0 <= at <= eq < data.len()
    &&& data[eq] == 61
    &&& forall|k: int| at <= k < eq ==> #[trigger] data[k] != 61 && data[k] != delimiter
}

/// The next delimiter from `from` on stands at `end`.
pub open spec fn ends_at(data: Seq<u8>, delimiter: u8, from: int, end: int) -> bool {
    &&& 0 <= from <= end < data.len()
    &&& data[end] == delimiter
    &&& forall|k: int| from <= k < end ==> #[trigger] data[k] != delimiter
}

/// There is no delimiter from `from` on.
pub open spec fn never_ends(data: Seq<u8>, delimiter: u8, from: int) -> bool {
    0 <= from && forall|k: int| from <= k < data.len() ==> #[trigger] data[k] != delimiter
}

pub open spec fn is_bad(scanned: Scan) -> bool {
    scanned matches Scan::Bad(ErrorView::InvalidMessage(_))
}

/// How one field is read. The tag is what stands before the `=`, and has to be a
/// number. The value reaches up to the next delimiter, or to the end of the buffer
/// where there is none. The first BeginString has to be the version's own;
/// CheckSum ends the message; a length has to be a number, and announces that many
/// bytes of raw data, which the next data field takes, delimiters among them or
/// not.
pub proof fn law_how_a_field_is_read(
    fix: FixVersion,
    data: Seq<u8>,
    delimiter: u8,
    at: int,
    eq: int,
    end: int,
    raw: int,
    tags: Tags,
    tag: u32,
)
    requires
        delimiter != 61,
        data.len() <= usize::MAX,
        named_up_to(data, delimiter, at, eq),
        tag != 0,
        0 <= raw,
    ensures
        ({
            let read = scan(fix, data, delimiter, at, at, raw, tags);
            let name = data.subrange(at, eq);
            let takes_raw = raw > 0 && fix.field_type(tag) == Some("data"@);
            let value = eq + 1;
            let text = data.subrange(value, end);
            let more = tags.push((tag, text_at(value, end)));
            &&& u32::parsed(name) is Err ==> is_bad(read)
            &&& u32::parsed(name) == Ok::<u32, ParseIntError>(tag) ==> {
                &&& !takes_raw && ends_at(data, delimiter, value, end) ==> {
                    &&& tag == 10 ==> read == Scan::Fields(more, end + 1)
                    &&& tag == 8 && (forall|k: int| 0 <= k < tags.len() ==> (#[trigger] tags[k]).0
                        != 8) && text != encode_utf8(fix.begin_string@) ==> is_bad(read)
                    &&& tag != 8 && tag != 10 && fix.field_type(tag) == Some("Length"@) ==> match
                    usize::parsed(text) {
                        Ok(n) => read == scan(
                            fix,
                            data,
                            delimiter,
                            end + 1,
                            end + 1,
                            n as int,
                            more,
                        ),
                        Err(_) => is_bad(read),
                    }
                    &&& tag != 8 && tag != 10 && fix.field_type(tag) != Some("Length"@) ==> read
                        == scan(fix, data, delimiter, end + 1, end + 1, raw, more)
                }
                &&& !takes_raw && never_ends(data, delimiter, value) ==> read == Scan::Fields(
                    tags.push((tag, text_at(value, data.len() as int))),
                    data.len() as int,
                )
                &&& takes_raw && value + raw <= end && ends_at(
                    data,
                    delimiter,
                    value + raw,
                    end,
                ) && tag != 8 && tag != 10 ==> read == scan(
                    fix,
                    data,
                    delimiter,
                    end + 1,
                    end + 1,
                    0,
                    tags.push((tag, ValueView::DataRef(span(value, raw)))).push(
                        (tag, text_at(value, end)),
                    ),
                )
            }
        }),
{
    lemma_tag_end_is(data, at, delimiter, eq);
    reveal_with_fuel(scan, 2);
    reveal_with_fuel(scan_value, 2);
    let value = eq + 1;
    let takes_raw = raw > 0 && fix.field_type(tag) == Some("data"@);
    reveal_strlit("data");
    reveal_strlit("Length");
    assert("data"@.len() != "Length"@.len());
    if !takes_raw && ends_at(data, delimiter, value, end) {
        lemma_next_of_is(data, value, delimiter, end);
        let more = tags.push((tag, text_at(value, end)));
        if tag == 8 && (forall|k: int| 0 <= k < tags.len() ==> (#[trigger] tags[k]).0 != 8) {
            assert forall|k: int| 0 <= k < tags.len() implies (#[trigger] more[k]).0 != 8 by {
                assert(more[k] == tags[k]);
            }
            lemma_first_tag_is(more, 8, 0, tags.len() as int);
            assert(text_at(value, end).bytes(data) =~= data.subrange(value, end));
        }
    }
    if !takes_raw && never_ends(data, delimiter, value) {
        lemma_next_of_is(data, value, delimiter, data.len() as int);
    }
    if takes_raw && value + raw <= end && ends_at(data, delimiter, value + raw, end) {
        lemma_next_of_is(data, value + raw, delimiter, end);
    }
}

/// A delimiter where a tag should stand is refused, and where neither a `=` nor a
/// delimiter follows, what was read so far is all.
pub proof fn law_where_reading_stops(
    fix: FixVersion,
    data: Seq<u8>,
    delimiter: u8,
    at: int,
    end: int,
    raw: int,
    tags: Tags,
)
    requires
        delimiter != 61,
        0 <= at <= end <= data.len(),
        forall|k: int| at <= k < end ==> #[trigger] data[k] != 61 && data[k] != delimiter,
    ensures
        end < data.len() && data[end] == delimiter ==> is_bad(
            scan(fix, data, delimiter, at, at, raw, tags),
        ),
        end == data.len() ==> scan(fix, data, delimiter, at, at, raw, tags) == Scan::Fields(
            tags,
            data.len() as int,
        ),
        parse(fix, data, delimiter) == scan(fix, data, delimiter, 0, 0, 0, Seq::empty()),
{
    if end < data.len() && data[end] == delimiter {
        lemma_tag_stops(data, at, delimiter, end);
    }
    if end == data.len() {
        lemma_tag_stops(data, at, delimiter, end);
    }
}

proof fn lemma_tag_stops(s: Seq<u8>, from: int, delimiter: u8, at: int)
    requires
        0 <= from <= at <= s.len(),
        at < s.len() ==> s[at] == delimiter,
        forall|k: int| from <= k < at ==> #[trigger] s[k] != 61 && s[k] != delimiter,
    ensures
        tag_end(s, from, delimiter) == at,
    decreases at - from,
{
    if from < at {
        assert(s[from] != 61 && s[from] != delimiter);
        lemma_tag_stops(s, from + 1, delimiter, at);
    }
}

// ---------------------------------------------------------------------------
// Reading one frame
// ---------------------------------------------------------------------------

/// The first stretch of the buffer reads `tag=` and something.
pub open spec fn starts_with(s: Seq<u8>, tag: Seq<u8>) -> bool {
    s.len() > tag.len() && s.take(tag.len() as int) == tag && s[tag.len() as int] == 61
}

/// The version of a stream is settled by its first message, and stays: a decoder
/// that has one keeps it, and one that has none takes the first version of the
/// repository with the BeginString that it reads.
pub proof fn law_the_version_is_settled_once(dec: DecoderView, s: Seq<u8>)
    ensures
        dec.fix_version is Some ==> dec.decode(s).fix_version == dec.fix_version,
        dec.fix_version is None ==> (dec.decode(s).fix_version matches Some(v) ==> exists|end: int|
            #[trigger] ends_at(s, dec.delimiter, 0, end) && starts_with(s.take(end), seq![56u8])
                && version_from(dec.repo, s.subrange(2, end), 0) == Some(v)),
{
    let d = dec.delimiter;
    let end = next_of(s, 0, d);
    lemma_next_of(s, 0, d);
    if dec.fix_version is None && dec.decode(s).fix_version is Some {
        let first = s.take(end);
        let eq = next_of(first, 0, 61);
        lemma_next_of(first, 0, 61);
        assert(ends_at(s, d, 0, end));
        assert(first.take(eq) == seq![56u8]);
        assert(first.take(eq).len() == eq && seq![56u8].len() == 1);
        assert(first.skip(2) =~= s.subrange(2, end));
    }
}

/// The version that a BeginString names is the first in the repository that has
/// it, and there is none where no version has.
pub proof fn law_which_version_is_found(repo: FixRepository, begin_string: Seq<u8>, from: int)
    requires
        0 <= from <= repo.versions.entries@.len(),
    ensures
        ({
            let entries = repo.versions.entries@;
            match version_from(repo, begin_string, from) {
                Some(v) => exists|i: int|
                    #![trigger entries[i]]
                    from <= i < entries.len() && entries[i].1 == v && encode_utf8(
                        v.begin_string@,
                    ) == begin_string && (forall|k: int|
                        #![trigger entries[k]]
                        from <= k < i ==> encode_utf8(entries[k].1.begin_string@) != begin_string),
                None => forall|k: int|
                    #![trigger entries[k]]
                    from <= k < entries.len() ==> encode_utf8(entries[k].1.begin_string@)
                        != begin_string,
            }
        }),
    decreases repo.versions.entries@.len() - from,
{
    let entries = repo.versions.entries@;
    if from < entries.len() {
        if encode_utf8(entries[from].1.begin_string@) != begin_string {
            law_which_version_is_found(repo, begin_string, from + 1);
            if let Some(v) = version_from(repo, begin_string, from) {
                let i = choose|i: int|
                    #![trigger entries[i]]
                    from + 1 <= i < entries.len() && entries[i].1 == v && encode_utf8(
                        v.begin_string@,
                    ) == begin_string && (forall|k: int|
                        #![trigger entries[k]]
                        from + 1 <= k < i ==> encode_utf8(entries[k].1.begin_string@)
                            != begin_string);
                assert(entries[i].1 == v);
            }
        } else {
            assert(entries[from].1 == version_from(repo, begin_string, from)->0);
        }
    }
}

/// A stream that does not start with BeginString is refused, and so is one of a
/// version that the repository does not have, or one in which BodyLength does not
/// follow. Nothing is taken off the buffer then, and neither is anything while a
/// message is not all there.
pub proof fn law_what_does_not_frame(dec: DecoderView, s: Seq<u8>, end: int, second: int)
    requires
        dec.delimiter != 61,
        ends_at(s, dec.delimiter, 0, end),
    ensures
        ({
            let out = dec.decode(s);
            let first = s.take(end);
            let known = version_from(dec.repo, s.subrange(2, end), 0) is Some;
            let length = s.subrange(end + 1, second);
            &&& !starts_with(first, seq![56u8]) ==> out.consumed == 0 && (
            out.result matches Err(ErrorView::InvalidMessage(_)))
            &&& starts_with(first, seq![56u8]) && valid_utf8(first) && !known ==> out.consumed == 0
                && (out.result matches Err(ErrorView::InvalidMessage(_)))
            &&& starts_with(first, seq![56u8]) && valid_utf8(first) && known && ends_at(
                s,
                dec.delimiter,
                end + 1,
                second,
            ) && (!starts_with(length, seq![57u8]) || usize::parsed(length.skip(2)) is Err)
                ==> out.consumed == 0 && (out.result matches Err(ErrorView::InvalidMessage(_)))
            &&& out.result == Ok::<Option<Tags>, ErrorView>(None) ==> out.consumed == 0
        }),
{
    let d = dec.delimiter;
    lemma_next_of_is(s, 0, d, end);
    let first = s.take(end);
    let eq = next_of(first, 0, 61);
    lemma_next_of(first, 0, 61);
    if starts_with(first, seq![56u8]) {
        assert(first[0] == 56) by {
            assert(first.take(1)[0] == 56);
        }
        lemma_next_of_is(first, 0, 61, 1);
        assert(first.take(1) =~= seq![56u8]);
        assert(first.skip(2) =~= s.subrange(2, end));
        if ends_at(s, d, end + 1, second) {
            lemma_next_of_is(s, end + 1, d, second);
            let length = s.subrange(end + 1, second);
            let at = next_of(length, 0, 61);
            lemma_next_of(length, 0, 61);
            if length.take(at) == seq![57u8] && at < length.len() {
                assert(length.take(at).len() == at && seq![57u8].len() == 1);
                assert(length.take(1) =~= seq![57u8]);
            }
        }
    } else if first.take(eq) == seq![56u8] && eq < first.len() {
        assert(first.take(eq).len() == eq && seq![56u8].len() == 1);
        assert(first.take(1) =~= seq![56u8]);
    }
}

/// The buffer starts with BeginString, up to `end`, and BodyLength, up to
/// `second`: a version of the repository, and a number.
pub open spec fn opens(
    dec: DecoderView,
    s: Seq<u8>,
    end: int,
    second: int,
    version: Arc<FixVersion>,
    length: usize,
) -> bool {
    &&& ends_at(s, dec.delimiter, 0, end)
    &&& starts_with(s.take(end), seq![56u8])
    &&& valid_utf8(s.take(end))
    &&& version_from(dec.repo, s.subrange(2, end), 0) == Some(version)
    &&& ends_at(s, dec.delimiter, end + 1, second)
    &&& starts_with(s.subrange(end + 1, second), seq![57u8])
    &&& valid_utf8(s.subrange(end + 1, second))
    &&& usize::parsed(s.subrange(end + 1, second).skip(2)) == Ok::<
        usize,
        ParseIntError,
    >(length)
}

proof fn lemma_opens(
    dec: DecoderView,
    s: Seq<u8>,
    end: int,
    second: int,
    version: Arc<FixVersion>,
    length: usize,
)
    requires
        dec.delimiter != 61,
        opens(dec, s, end, second, version, length),
    ensures
        peek_header(dec.repo, s, dec.delimiter) matches Ok(e) && e.fix_version == Some(version)
            && e.body_length == Some(length) && e.header_length == second + 1,
{
    let d = dec.delimiter;
    let first = s.take(end);
    let next = s.subrange(end + 1, second);
    lemma_next_of_is(s, 0, d, end);
    lemma_next_of_is(s, end + 1, d, second);
    lemma_starts(first, 56);
    lemma_starts(next, 57);
    assert(first.skip(2) =~= s.subrange(2, end));
}

proof fn lemma_starts(s: Seq<u8>, b: u8)
    requires
        starts_with(s, seq![b]),
        b != 61,
    ensures
        next_of(s, 0, 61) == 1,
        s.take(1) == seq![b],
{
    assert(seq![b].len() == 1);
    assert(s[0] == b) by {
        assert(s.take(1)[0] == b);
    }
    lemma_next_of_is(s, 0, 61, 1);
}

/// How a frame is told. It reaches from BeginString to the delimiter behind
/// CheckSum, which stands where BodyLength says. While it is not all there,
/// nothing is taken. What stands there has to be a CheckSum, and it has to be that
/// of everything before it: a frame with a wrong one is taken and refused. A frame
/// with the right one is taken, and read as the version of the stream has it.
pub proof fn law_what_a_frame_is(
    dec: DecoderView,
    s: Seq<u8>,
    end: int,
    second: int,
    third: int,
    version: Arc<FixVersion>,
    length: usize,
    sum: u8,
)
    requires
        dec.delimiter != 61,
        opens(dec, s, end, second, version, length),
    ensures
        ({
            let out = dec.decode(s);
            let trailer = second + 1 + length;
            let latched = match dec.fix_version {
                Some(v) => v,
                None => version,
            };
            let tail = s.subrange(trailer, third);
            let frame = s.take(third + 1);
            &&& s.len() <= trailer || never_ends(s, dec.delimiter, trailer) ==> out.consumed == 0
                && out.result == Ok::<Option<Tags>, ErrorView>(None)
            &&& ends_at(s, dec.delimiter, trailer, third) ==> {
                &&& !starts_with(tail, seq![49u8, 48]) || u8::parsed(tail.skip(3)) is Err
                    ==> out.consumed == 0 && (out.result matches Err(ErrorView::InvalidMessage(_)))
                &&& starts_with(tail, seq![49u8, 48]) && valid_utf8(tail) && u8::parsed(
                    tail.skip(3),
                ) == Ok::<u8, ParseIntError>(sum) ==> {
                    &&& out.consumed == third + 1
                    &&& sum != checksum(s.take(trailer)) ==> (
                    out.result matches Err(ErrorView::InvalidMessage(_)))
                    &&& sum == checksum(s.take(trailer)) ==> match parse(
                        *latched,
                        frame,
                        dec.delimiter,
                    ) {
                        Scan::Bad(e) => out.result == Err::<Option<Tags>, ErrorView>(e),
                        Scan::Fields(tags, took) => if took == third + 1 {
                            out.result == Ok::<Option<Tags>, ErrorView>(Some(tags))
                        } else {
                            out.result matches Err(ErrorView::InvalidMessage(_))
                        },
                    }
                }
            }
        }),
{
    let d = dec.delimiter;
    lemma_opens(dec, s, end, second, version, length);
    let trailer = second + 1 + length;
    let rest = s.skip(trailer);
    if s.len() > trailer {
        if never_ends(s, d, trailer) {
            assert forall|k: int| 0 <= k < rest.len() implies #[trigger] rest[k] != d by {
                assert(rest[k] == s[trailer + k]);
            }
            lemma_next_of_is(rest, 0, d, rest.len() as int);
        } else if ends_at(s, d, trailer, third) {
            let n = third - trailer;
            assert forall|k: int| 0 <= k < n implies #[trigger] rest[k] != d by {
                assert(rest[k] == s[trailer + k]);
            }
            lemma_next_of_is(rest, 0, d, n);
            let tail = s.subrange(trailer, third);
            assert(rest.take(n) =~= tail);
            lemma_next_of(tail, 0, 61);
            let eq = next_of(tail, 0, 61);
            assert(seq![49u8, 48].len() == 2);
            if starts_with(tail, seq![49u8, 48]) {
                assert(tail[0] == 49 && tail[1] == 48) by {
                    assert(tail.take(2)[0] == 49 && tail.take(2)[1] == 48);
                }
                lemma_next_of_is(tail, 0, 61, 2);
            } else if eq < tail.len() && tail.take(eq) == seq![49u8, 48] {
                assert(tail.take(eq).len() == eq);
            }
        }
    }
}

} // verus!
