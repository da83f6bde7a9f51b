//! What the library promises from end to end: a message that one side builds and
//! encodes is, once decoded and taken apart, the message that the other side
//! sees.

use vstd::prelude::*;
use vstd::string::*;
use vstd::utf8::*;

use crate::builder::message::{taken_apart, BuilderView};
use crate::builder::roundtrip::{
    frames, fully_set, law_flat_form_is_taken_apart, lemma_flat_message, own_fields, own_header,
    recovered, spells, well_formed,
};
use crate::codec::DecoderView;
use crate::error::ErrorView;
use crate::framing::{
    encodable, kept, law_decode_gives_back_what_was_encoded, raw_after, read_back, readings,
    recognised, takes_raw, Fields,
};
use crate::message::{is_framing, lemma_first_tag_is, MessageView, Tags, ValueView};
use crate::repository::FixVersion;
use crate::text::padded;

verus! {

/// None of these fields is raw data, is empty, or frames the message.
pub open spec fn plain_text(fix: FixVersion, flat: Tags) -> bool {
    forall|i: int|
        0 <= i < flat.len() ==> {
            let (tag, v) = #[trigger] flat[i];
            &&& !is_framing(tag)
            &&& fix.field_type(tag) != Some("data"@)
            &&& v matches ValueView::String(s) && s.len() > 0
        }
}

/// A message whose own fields are all text, and set.
pub open spec fn spoken(m: BuilderView) -> bool {
    &&& well_formed(m)
    &&& fully_set(own_header(m))
    &&& fully_set(m.body)
    &&& m.fix_version.begin_string@.len() > 0
    &&& m.fix_message.msg_type@.len() > 0
    &&& plain_text(m.fix_version, own_fields(m, true))
    &&& m.fix_version.field_type(8) != Some("data"@)
    &&& m.fix_version.field_type(9) != Some("data"@)
    &&& m.fix_version.field_type(35) != Some("data"@)
}

/// Fields of text are all kept on the wire.
proof fn lemma_kept(front: Tags, flat: Tags, fix: FixVersion, n: nat)
    requires
        plain_text(fix, flat),
        n <= flat.len(),
        forall|i: int| 0 <= i < front.len() ==> is_framing((#[trigger] front[i]).0),
    ensures
        ({
            let fields = kept(front + flat, seq![], front.len() + n);
            &&& fields.len() == n
            &&& forall|i: int|
                0 <= i < n ==> #[trigger] fields[i] == (flat[i].0, flat[i].1.bytes(seq![]))
        }),
    decreases n,
{
    let all = front + flat;
    if n == 0 {
        lemma_kept_framing(all, front.len());
    } else {
        lemma_kept(front, flat, fix, (n - 1) as nat);
        assert(all[front.len() + n - 1] == flat[n - 1]);
    }
}

proof fn lemma_kept_framing(tags: Tags, n: nat)
    requires
        n <= tags.len(),
        forall|i: int| 0 <= i < n ==> is_framing((#[trigger] tags[i]).0),
    ensures
        kept(tags, seq![], n).len() == 0,
    decreases n,
{
    if n > 0 {
        lemma_kept_framing(tags, (n - 1) as nat);
        assert(is_framing(tags[n - 1].0));
    }
}

/// Without raw data, every field is read back as it is.
proof fn lemma_read_back_plain(fix: FixVersion, fields: Fields, n: nat)
    requires
        n <= fields.len(),
        forall|i: int| 0 <= i < fields.len() ==> fix.field_type((#[trigger] fields[i]).0) != Some(
            "data"@,
        ),
    ensures
        read_back(fix, fields, n).len() == n,
        forall|i: int|
            0 <= i < n ==> #[trigger] read_back(fix, fields, n)[i] == (
                fields[i].0,
                false,
                fields[i].1,
            ),
    decreases n,
{
    if n > 0 {
        lemma_read_back_plain(fix, fields, (n - 1) as nat);
        assert(fix.field_type(fields[n - 1].0) != Some("data"@));
        assert(!takes_raw(fix, fields[n - 1].0, raw_after(fix, fields, (n - 1) as nat)));
    }
}

/// What arrives when `m` was sent: the message that the decoder gives.
pub open spec fn arrived(dec: DecoderView, m: BuilderView, tags: Tags) -> MessageView {
    MessageView {
        fix_version: m.fix_version,
        data: m.flattened(true).wire(dec.delimiter),
        tags,
    }
}

/// A message of text fields and groups that is built, flattened, encoded,
/// decoded and taken apart again comes out as it went in, field by field and
/// group by group, with every value typed as its field is; and whatever follows
/// it in the buffer stays there.
pub proof fn law_a_message_survives_the_wire(dec: DecoderView, m: BuilderView, rest: Seq<u8>)
    requires
        spoken(m),
        encodable(m.flattened(true), dec.delimiter),
        recognised(dec, m.flattened(true)),
        m.flattened(true).wire(dec.delimiter).len() + rest.len() <= usize::MAX,
    ensures
        ({
            let wire = m.flattened(true).wire(dec.delimiter);
            let out = dec.decode(wire + rest);
            &&& out.consumed == wire.len()
            &&& (wire + rest).skip(out.consumed) == rest
            &&& out.result matches Ok(Some(tags)) && taken_apart(arrived(dec, m, tags)) == Ok::<
                BuilderView,
                ErrorView,
            >(recovered(m))
        }),
{
    let flat = m.flattened(true);
    let d = dec.delimiter;
    let wire = flat.wire(d);
    let own = own_fields(m, true);
    let front = seq![
        (8u32, ValueView::String(m.fix_version.begin_string@)),
        (35u32, ValueView::String(m.fix_message.msg_type@)),
    ];
    lemma_flat_message(m, true);
    lemma_first_tag_is(flat.tags, 35, 0, 1);
    law_decode_gives_back_what_was_encoded(dec, flat, rest);
    let out = dec.decode(wire + rest);
    let tags = (out.result->Ok_0)->0;
    let msg = arrived(dec, m, tags);
    let fields = flat.fields(d);
    let list = kept(flat.tags, flat.data, flat.tags.len());
    assert(flat.tags == front + own);
    assert(flat.data =~= seq![]);
    lemma_kept(front, own, m.fix_version, own.len());
    assert(fields.len() == 3 + own.len());
    assert forall|i: int| 0 <= i < fields.len() implies m.fix_version.field_type(
        (#[trigger] fields[i]).0,
    ) != Some("data"@) by {
        if i >= 3 {
            assert(fields[i] == list[i - 3]);
            assert(list[i - 3] == (own[i - 3].0, own[i - 3].1.bytes(seq![])));
            let (tag, v) = own[i - 3];
        }
    }
    lemma_read_back_plain(m.fix_version, fields, fields.len());
    let read = read_back(m.fix_version, fields, fields.len());
    let digits = padded(flat.sum(d) as nat, 3);
    let all = read.push((10u32, false, digits));
    assert(readings(tags, wire) == all);
    assert(tags.len() == all.len()) by {
        assert(readings(tags, wire).len() == tags.len());
    }
    assert forall|i: int| 0 <= i < tags.len() implies (#[trigger] tags[i]).0 == all[i].0
        && tags[i].1.is_data() == all[i].1 && tags[i].1.bytes(wire) == all[i].2 by {
        assert(readings(tags, wire)[i] == all[i]);
    }
    // The message type.
    assert(tags[2].0 == 35 && tags[0].0 == 8 && tags[1].0 == 9);
    lemma_first_tag_is(tags, 35, 0, 2);
    let t = tags[2].1;
    assert(t.bytes(wire) == encode_utf8(flat.msg_type()));
    assert(flat.msg_type() == m.fix_message.msg_type@);
    encode_utf8_valid_utf8(m.fix_message.msg_type@);
    encode_utf8_decode_utf8(m.fix_message.msg_type@);
    assert(!t.is_data());
    assert(t.in_range(wire.len()));
    assert(t.is_text(wire) && t.text(wire) == m.fix_message.msg_type@) by {
        if let ValueView::String(s) = t {
            crate::text::lemma_encode_injective(s, m.fix_message.msg_type@);
        }
    }
    assert(msg.is_readable());
    // The fields.
    assert(spells(msg, 3, own)) by {
        assert forall|j: int| 0 <= j < own.len() implies (#[trigger] msg.tags[3 + j]).0 == own[j].0
            && msg.tags[3 + j].1.bytes(msg.data) == own[j].1.bytes(seq![]) by {
            assert(all[3 + j] == read[3 + j]);
            assert(fields[3 + j] == list[j]);
            assert(list[j] == (own[j].0, own[j].1.bytes(seq![])));
        }
    }
    assert forall|j: int| 0 <= j < 3 implies is_framing((#[trigger] msg.tags[j]).0) by {
        assert(msg.tags[j].0 == all[j].0);
    }
    assert(frames(msg, 3, m, true));
    law_flat_form_is_taken_apart(msg, 3, m, true);
}

} // verus!
