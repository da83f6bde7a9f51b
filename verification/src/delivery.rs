//! What two sessions promise each other: what one application sends, the other
//! receives.

use vstd::prelude::*;
use vstd::string::*;
use vstd::utf8::*;

use crate::builder::block::{
    field_of, last_of, lemma_last_of, lemma_last_of_is, set_nodes, with_field, Node,
};
use crate::builder::message::{
    flat_entries, flat_node, flat_nodes, lemma_flat_prefix, lemma_flattened_readable, names_type,
    new_header, taken_apart, BuilderView,
};
use crate::builder::roundtrip::{
    fully_set, lemma_flat_concat, lemma_flat_message, own_header, recovered, retyped,
    retyped_nodes, retyped_value, set_throughout,
};
use crate::builder::value::Typed;
use crate::codec::{stamped, DecoderView};
use crate::error::ErrorView;
use crate::framing::{encodable, recognised};
use crate::journey::{arrived, law_a_message_survives_the_wire, spoken};
use crate::message::{admin_type, lemma_first_tag_is, MessageView, Tags, ValueView};
use crate::repository::FixVersion;
use crate::schema::fields::{
    MSG_SEQ_NUM, POSS_DUP_FLAG, SENDER_COMP_ID, SENDING_TIME, TARGET_COMP_ID,
};
use crate::session::laws::{
    law_application_messages_are_delivered_in_sequence, law_sends_are_numbered_in_turn, numbered_as,
};
use crate::session::protocol::{number, text, StateView};
use crate::session::types::{EventView, Output, Progress};
use crate::text::{
    ascii_chars, decimal, decimal_text, is_digit, lemma_decimal_value, lemma_digits_utf8,
    lemma_parse_decimal, ParseIntError, ParseInteger,
};
use crate::wire::{wire_field, wire_fields};

verus! {

// ---------------------------------------------------------------------------
// Headers
// ---------------------------------------------------------------------------

/// The fields that a session sets in every header.
pub open spec fn is_session_field(tag: u32) -> bool {
    tag == MSG_SEQ_NUM || tag == POSS_DUP_FLAG || tag == SENDER_COMP_ID || tag == TARGET_COMP_ID
        || tag == SENDING_TIME
}

/// A group in which everything is set, and which does not stand in the way of
/// the session's own fields.
pub open spec fn harmless(node: Node) -> bool {
    &&& node is Group
    &&& set_throughout(node)
    &&& !is_session_field(node.key())
    &&& forall|i: int|
        0 <= i < flat_node(node, false).len() ==> (#[trigger] flat_node(node, false)[i]).0
            != SENDING_TIME
}

/// A header that holds each of its fields once, and nothing but fields and
/// harmless groups.
pub open spec fn tidy(nodes: Seq<Node>) -> bool {
    &&& forall|i: int| 0 <= i < nodes.len() ==> (#[trigger] nodes[i]) is Tag || harmless(nodes[i])
    &&& forall|i: int, j: int|
        0 <= i < j < nodes.len() ==> (#[trigger] nodes[i]).key() != (#[trigger] nodes[j]).key()
}

/// Setting a field keeps a header tidy, and its front where that is not the
/// field.
proof fn lemma_tidy_with_field(nodes: Seq<Node>, tag: u32, v: Typed)
    requires
        tidy(nodes),
        is_session_field(tag),
    ensures
        ({
            let after = with_field(nodes, tag, v);
            let p = last_of(after, tag, after.len());
            &&& tidy(after)
            &&& 0 <= p < after.len()
            &&& after[p] == Node::Tag(tag, v)
            &&& nodes.len() <= after.len() <= nodes.len() + 1
            &&& forall|i: int|
                0 <= i < nodes.len() && nodes[i].key() != tag ==> (#[trigger] after[i]) == nodes[i]
            &&& field_of(nodes, tag) is Some ==> after == nodes.update(
                last_of(nodes, tag, nodes.len()),
                Node::Tag(tag, v),
            )
        }),
{
    let after = with_field(nodes, tag, v);
    let i = last_of(nodes, tag, nodes.len());
    lemma_last_of(nodes, tag, nodes.len());
    if i >= 0 {
        assert(nodes[i] is Tag || harmless(nodes[i]));
        assert(field_of(nodes, tag) is Some);
        lemma_last_of_is(after, tag, after.len(), i);
    } else {
        assert(after == nodes.push(Node::Tag(tag, v)));
        lemma_last_of_is(after, tag, after.len(), nodes.len() as int);
    }
}

/// Where SendingTime stands in a tidy header, and not before, it stands in the
/// flat form.
proof fn lemma_no_time_before(nodes: Seq<Node>, n: nat)
    requires
        tidy(nodes),
        n <= nodes.len(),
        forall|i: int| 0 <= i < n ==> (#[trigger] nodes[i]).key() != SENDING_TIME,
    ensures
        forall|k: int|
            0 <= k < flat_nodes(nodes, n, false).len() ==> (#[trigger] flat_nodes(
                nodes,
                n,
                false,
            )[k]).0 != SENDING_TIME,
    decreases n,
{
    if n > 0 {
        lemma_no_time_before(nodes, (n - 1) as nat);
        let before = flat_nodes(nodes, (n - 1) as nat, false);
        let last = flat_node(nodes[n - 1], false);
        let all = flat_nodes(nodes, n, false);
        assert(all == before + last);
        assert(nodes[n - 1] is Tag || harmless(nodes[n - 1]));
        assert(nodes[n - 1].key() != SENDING_TIME);
        assert forall|k: int| 0 <= k < all.len() implies (#[trigger] all[k]).0
            != SENDING_TIME by {
            if k < before.len() {
                assert(all[k] == before[k]);
            } else {
                assert(all[k] == last[k - before.len()]);
            }
        }
    }
}

/// A block with one of its fields in sight.
proof fn lemma_flat_around(nodes: Seq<Node>, p: int, tag: u32, v: Typed)
    requires
        0 <= p < nodes.len(),
        nodes[p] == Node::Tag(tag, v),
    ensures
        ({
            let back = nodes.skip(p + 1);
            flat_nodes(nodes, nodes.len(), false) == flat_nodes(nodes, p as nat, false) + seq![
                (tag, ValueView::String(v.text())),
            ] + flat_nodes(back, back.len(), false)
        }),
{
    let front = nodes.take(p + 1);
    let back = nodes.skip(p + 1);
    assert(nodes =~= front + back);
    lemma_flat_concat(front, back, back.len(), false);
    lemma_flat_front(front, nodes, p as nat, false);
    assert(front[p] == nodes[p]);
    assert((front.len() - 1) as nat == p as nat);
    assert(flat_node(front[p], false) =~= seq![(tag, ValueView::String(v.text()))]);
    assert(flat_nodes(front, front.len(), false) =~= flat_nodes(nodes, p as nat, false) + seq![
        (tag, ValueView::String(v.text())),
    ]);
}

/// What is left of a tidy header without its unset fields is tidy.
proof fn lemma_tidy_set(nodes: Seq<Node>, n: nat)
    requires
        tidy(nodes),
        n <= nodes.len(),
    ensures
        tidy(set_nodes(nodes, n)),
        forall|j: int|
            0 <= j < set_nodes(nodes, n).len() ==> exists|i: int|
                0 <= i < n && nodes[i] == #[trigger] set_nodes(nodes, n)[j],
    decreases n,
{
    if n > 0 {
        lemma_tidy_set(nodes, (n - 1) as nat);
        let before = set_nodes(nodes, (n - 1) as nat);
        let after = set_nodes(nodes, n);
        assert forall|j: int| 0 <= j < after.len() implies exists|i: int|
            0 <= i < n && nodes[i] == #[trigger] after[j] by {
            if j < before.len() {
                assert(after[j] == before[j]);
                let i = choose|i: int| 0 <= i < n - 1 && nodes[i] == before[j];
                assert(nodes[i] == after[j]);
            } else {
                assert(after[j] == nodes[n - 1]);
            }
        }
        if nodes[n - 1].is_set() {
            assert(after == before.push(nodes[n - 1]));
            assert forall|i: int, j: int| 0 <= i < j < after.len() implies (
            #[trigger] after[i]).key() != (#[trigger] after[j]).key() by {
                assert(after[i] == before[i]);
                if j == before.len() {
                    let k = choose|k: int| 0 <= k < n - 1 && nodes[k] == before[i];
                    assert(nodes[k].key() != nodes[n - 1].key());
                } else {
                    assert(after[j] == before[j]);
                }
            }
        }
    }
}

/// Where a field that is set stands among those that are.
proof fn lemma_set_position(nodes: Seq<Node>, n: nat, i: int) -> (q: int)
    requires
        0 <= i < n <= nodes.len(),
        nodes[i].is_set(),
    ensures
        0 <= q < set_nodes(nodes, n).len(),
        set_nodes(nodes, n)[q] == nodes[i],
    decreases n,
{
    let before = set_nodes(nodes, (n - 1) as nat);
    if i == n - 1 {
        before.len() as int
    } else {
        lemma_set_position(nodes, (n - 1) as nat, i)
    }
}

// ---------------------------------------------------------------------------
// What goes on the wire
// ---------------------------------------------------------------------------

proof fn lemma_wire_fields_prefix(a: Tags, b: Tags, d: u8, n: nat)
    requires
        n <= a.len(),
    ensures
        wire_fields(a + b, seq![], d, n) == wire_fields(a, seq![], d, n),
    decreases n,
{
    if n > 0 {
        lemma_wire_fields_prefix(a, b, d, (n - 1) as nat);
        assert((a + b)[n - 1] == a[n - 1]);
    }
}

/// Fields are written one behind the other.
proof fn lemma_wire_fields_concat(a: Tags, b: Tags, d: u8, n: nat)
    requires
        n <= b.len(),
    ensures
        wire_fields(a + b, seq![], d, a.len() + n) == wire_fields(a, seq![], d, a.len())
            + wire_fields(b, seq![], d, n),
    decreases n,
{
    if n == 0 {
        lemma_wire_fields_prefix(a, b, d, a.len());
        assert(wire_fields(a, seq![], d, a.len()) + seq![] =~= wire_fields(a, seq![], d, a.len()));
    } else {
        lemma_wire_fields_concat(a, b, d, (n - 1) as nat);
        let (tag, value) = b[n - 1];
        assert((a + b)[a.len() + n - 1] == b[n - 1]);
        let front = wire_fields(a, seq![], d, a.len());
        let before = wire_fields(b, seq![], d, (n - 1) as nat);
        let last = wire_field(tag, value.bytes(seq![]), d);
        assert((front + before) + last =~= front + (before + last));
        assert((a.len() + n - 1) as nat == a.len() + (n - 1) as nat);
    }
}

/// The fields of `a`, whatever else is listed behind them in the block.
proof fn lemma_flat_front(a: Seq<Node>, b: Seq<Node>, n: nat, only_set: bool)
    requires
        n <= a.len(),
        n <= b.len(),
        forall|i: int| 0 <= i < n ==> a[i] == b[i],
    ensures
        flat_nodes(a, n, only_set) == flat_nodes(b, n, only_set),
    decreases n,
{
    if n > 0 {
        lemma_flat_front(a, b, (n - 1) as nat, only_set);
    }
}

/// Where everything is set, nothing is left out.
proof fn lemma_flat_set(node: Node)
    requires
        set_throughout(node),
    ensures
        flat_node(node, false) == flat_node(node, true),
    decreases node, 0nat,
{
    if let Node::Group(tag, entries) = node {
        lemma_flat_set_entries(entries, entries.len());
    }
}

proof fn lemma_flat_set_entries(entries: Seq<Seq<Node>>, n: nat)
    requires
        n <= entries.len(),
        forall|i: int| 0 <= i < entries.len() ==> fully_set(#[trigger] entries[i]),
    ensures
        flat_entries(entries, n, false) == flat_entries(entries, n, true),
    decreases entries, n,
{
    if n > 0 {
        lemma_flat_set_entries(entries, (n - 1) as nat);
        assert(fully_set(entries[n - 1]));
        lemma_flat_set_nodes(entries[n - 1], entries[n - 1].len());
    }
}

proof fn lemma_flat_set_nodes(nodes: Seq<Node>, n: nat)
    requires
        n <= nodes.len(),
        fully_set(nodes),
    ensures
        flat_nodes(nodes, n, false) == flat_nodes(nodes, n, true),
    decreases nodes, n,
{
    if n > 0 {
        lemma_flat_set_nodes(nodes, (n - 1) as nat);
        assert(set_throughout(nodes[n - 1]));
        lemma_flat_set(nodes[n - 1]);
    }
}

/// Nothing is lost by leaving out what is unset: on the wire it is left out
/// anyway.
proof fn lemma_unset_is_not_written(nodes: Seq<Node>, d: u8, n: nat)
    requires
        n <= nodes.len(),
        forall|i: int|
            0 <= i < nodes.len() ==> set_throughout(#[trigger] nodes[i]) || (nodes[i] is Tag
                && !nodes[i].is_set()),
    ensures
        ({
            let kept = set_nodes(nodes, n);
            let a = flat_nodes(nodes, n, false);
            let b = flat_nodes(kept, kept.len(), true);
            wire_fields(a, seq![], d, a.len()) == wire_fields(b, seq![], d, b.len())
        }),
    decreases n,
{
    if n > 0 {
        lemma_unset_is_not_written(nodes, d, (n - 1) as nat);
        let node = nodes[n - 1];
        let before = flat_nodes(nodes, (n - 1) as nat, false);
        let flat = flat_node(node, false);
        let kept0 = set_nodes(nodes, (n - 1) as nat);
        let kept = set_nodes(nodes, n);
        assert(flat_nodes(nodes, n, false) == before + flat);
        lemma_wire_fields_concat(before, flat, d, flat.len());
        if node.is_set() {
            assert(set_throughout(node));
            lemma_flat_set(node);
            assert(kept == kept0.push(node));
            lemma_flat_front(kept, kept0, kept0.len(), true);
            let b0 = flat_nodes(kept0, kept0.len(), true);
            assert(flat_nodes(kept, kept.len(), true) == b0 + flat) by {
                assert((kept.len() - 1) as nat == kept0.len());
                assert(kept[kept.len() - 1] == node);
            }
            lemma_wire_fields_concat(b0, flat, d, flat.len());
        } else {
            assert(node is Tag);
            assert(flat =~= seq![(node.key(), ValueView::String(node->Tag_1.text()))]);
            assert(node->Tag_1.text().len() == 0);
            assert(wire_fields(flat, seq![], d, (1nat - 1) as nat) =~= seq![]);
            assert(wire_fields(flat, seq![], d, 1) =~= seq![]);
            assert(wire_fields(before, seq![], d, before.len()) + seq![] =~= wire_fields(
                before,
                seq![],
                d,
                before.len(),
            ));
        }
    }
}

// ---------------------------------------------------------------------------
// From one application to the other
// ---------------------------------------------------------------------------

/// What a session hands to its output for a message of its application: the
/// message under the next number and the session's identity, with an empty slot
/// for the time.
pub open spec fn outgoing(s: StateView, msg: BuilderView) -> BuilderView {
    s.addressed(
        msg.with_header(MSG_SEQ_NUM, Typed::Empty).with_header(
            POSS_DUP_FLAG,
            Typed::Empty,
        ).with_header(MSG_SEQ_NUM, number(s.session.next_out as int)),
    )
}

/// The message as the encoder writes it, with the time filled in.
pub open spec fn stamped_message(msg: MessageView, stamp: Seq<u8>) -> MessageView {
    MessageView { tags: stamped(msg.tags, stamp)->0, ..msg }
}

/// What of an outgoing message is carried: the fields that are set, with the
/// time filled in.
pub open spec fn carried(m: BuilderView, stamp: Seq<u8>) -> BuilderView {
    let header = with_field(m.header, SENDING_TIME, text(ascii_chars(stamp)));
    BuilderView {
        header: set_nodes(header, header.len()),
        body: set_nodes(m.body, m.body.len()),
        ..m
    }
}

/// A message with a tidy header that starts as every header does, and a body in
/// which nothing but fields is unset.
pub open spec fn presentable(m: BuilderView) -> bool {
    &&& tidy(m.header)
    &&& m.header.len() >= 2
    &&& m.header.take(2) == new_header(m.fix_version, m.fix_message)
    &&& forall|i: int|
        0 <= i < m.body.len() ==> set_throughout(#[trigger] m.body[i]) || (m.body[i] is Tag
            && !m.body[i].is_set())
}

proof fn lemma_presentable_with_header(m: BuilderView, tag: u32, v: Typed)
    requires
        presentable(m),
        is_session_field(tag),
    ensures
        presentable(m.with_header(tag, v)),
        ({
            let after = m.with_header(tag, v).header;
            let p = last_of(after, tag, after.len());
            &&& 0 <= p < after.len()
            &&& after[p] == Node::Tag(tag, v)
            &&& forall|i: int|
                0 <= i < m.header.len() && m.header[i].key() != tag ==> (#[trigger] after[i])
                    == m.header[i]
            &&& m.header.len() <= after.len()
        }),
{
    lemma_tidy_with_field(m.header, tag, v);
    let after = m.with_header(tag, v).header;
    let front = new_header(m.fix_version, m.fix_message);
    assert(m.header[0] == m.header.take(2)[0] && m.header[1] == m.header.take(2)[1]);
    assert(m.header[0].key() == 8 && m.header[1].key() == 35);
    assert(after[0] == m.header[0] && after[1] == m.header[1]);
    assert(after.take(2) =~= front);
}

/// An outgoing message is presentable, and carries its number.
proof fn lemma_outgoing(s: StateView, msg: BuilderView) -> (p: int)
    requires
        presentable(msg),
    ensures
        presentable(outgoing(s, msg)),
        0 <= p < outgoing(s, msg).header.len(),
        outgoing(s, msg).header[p] == Node::Tag(MSG_SEQ_NUM, number(s.session.next_out as int)),
        field_of(outgoing(s, msg).header, SENDING_TIME) == Some(text(""@)),
{
    let n = number(s.session.next_out as int);
    let a = msg.with_header(MSG_SEQ_NUM, Typed::Empty);
    let b = a.with_header(POSS_DUP_FLAG, Typed::Empty);
    let c = b.with_header(MSG_SEQ_NUM, n);
    let d = c.with_header(SENDER_COMP_ID, text(s.id.sender_comp_id));
    let e = d.with_header(TARGET_COMP_ID, text(s.id.target_comp_id));
    let f = e.with_header(SENDING_TIME, text(""@));
    lemma_presentable_with_header(msg, MSG_SEQ_NUM, Typed::Empty);
    lemma_presentable_with_header(a, POSS_DUP_FLAG, Typed::Empty);
    lemma_presentable_with_header(b, MSG_SEQ_NUM, n);
    lemma_presentable_with_header(c, SENDER_COMP_ID, text(s.id.sender_comp_id));
    lemma_presentable_with_header(d, TARGET_COMP_ID, text(s.id.target_comp_id));
    lemma_presentable_with_header(e, SENDING_TIME, text(""@));
    assert(outgoing(s, msg) == f);
    let p = last_of(c.header, MSG_SEQ_NUM, c.header.len());
    assert(c.header[p].key() == MSG_SEQ_NUM);
    assert(d.header[p] == c.header[p]);
    assert(e.header[p] == c.header[p]);
    assert(f.header[p] == c.header[p]);
    p
}

/// Filling in the time in the flat form is setting the field.
proof fn lemma_stamping(m: BuilderView, stamp: Seq<u8>)
    requires
        presentable(m),
        field_of(m.header, SENDING_TIME) is Some,
    ensures
        ({
            let header = with_field(m.header, SENDING_TIME, text(ascii_chars(stamp)));
            stamped(m.flat(false), stamp) == Some(
                flat_nodes(header, header.len(), false) + flat_nodes(
                    m.body,
                    m.body.len(),
                    false,
                ),
            )
        }),
{
    let v = text(ascii_chars(stamp));
    let header = with_field(m.header, SENDING_TIME, v);
    let p = last_of(m.header, SENDING_TIME, m.header.len());
    lemma_last_of(m.header, SENDING_TIME, m.header.len());
    lemma_tidy_with_field(m.header, SENDING_TIME, v);
    assert(m.header[p] is Tag);
    let old = m.header[p]->Tag_1;
    let tags = m.flat(false);
    let body = flat_nodes(m.body, m.body.len(), false);
    assert forall|i: int| 0 <= i < p implies (#[trigger] m.header[i]).key() != SENDING_TIME by {
        assert(m.header[i].key() != m.header[p].key());
    }
    lemma_no_time_before(m.header, p as nat);
    lemma_flat_around(m.header, p, SENDING_TIME, old);
    lemma_flat_around(header, p, SENDING_TIME, v);
    lemma_flat_front(m.header, header, p as nat, false);
    assert(header.skip(p + 1) =~= m.header.skip(p + 1));
    let front = flat_nodes(m.header, p as nat, false);
    let at = front.len() as int;
    assert(tags[at] == (SENDING_TIME, ValueView::String(old.text())));
    assert forall|k: int| 0 <= k < at implies (#[trigger] tags[k]).0 != SENDING_TIME by {
        assert(tags[k] == front[k]);
    }
    lemma_first_tag_is(tags, SENDING_TIME, 0, at);
    let after = flat_nodes(header, header.len(), false);
    assert(stamped(tags, stamp)->0 =~= after + body);
}

/// What the encoder writes is what is carried.
proof fn lemma_carried_wire(m: BuilderView, stamp: Seq<u8>, d: u8)
    requires
        presentable(m),
        field_of(m.header, SENDING_TIME) is Some,
        spoken(carried(m, stamp)),
    ensures
        stamped_message(m.flattened(false), stamp).wire(d) == carried(m, stamp).flattened(
            true,
        ).wire(d),
{
    let v = text(ascii_chars(stamp));
    let c = carried(m, stamp);
    let header = with_field(m.header, SENDING_TIME, v);
    let sent = stamped_message(m.flattened(false), stamp);
    let plainly = c.flattened(true);
    lemma_stamping(m, stamp);
    lemma_presentable_with_header(m, SENDING_TIME, v);
    lemma_tidy_with_field(m.header, SENDING_TIME, v);
    assert forall|i: int| 0 <= i < header.len() implies set_throughout(#[trigger] header[i]) || (
    header[i] is Tag && !header[i].is_set()) by {
        assert(header[i] is Tag || harmless(header[i]));
    }
    lemma_unset_is_not_written(header, d, header.len());
    lemma_unset_is_not_written(m.body, d, m.body.len());
    let a1 = flat_nodes(header, header.len(), false);
    let a2 = flat_nodes(m.body, m.body.len(), false);
    let b1 = flat_nodes(c.header, c.header.len(), true);
    let b2 = flat_nodes(c.body, c.body.len(), true);
    lemma_wire_fields_concat(a1, a2, d, a2.len());
    lemma_wire_fields_concat(b1, b2, d, b2.len());
    assert(sent.tags == a1 + a2);
    assert(plainly.tags == b1 + b2);
    // The message type.
    assert(header.take(2)[1] == header[1] && header.take(2)[0] == header[0]);
    assert(header[0].key() == 8 && header[1].key() == 35);
    let front = flat_nodes(header, 2, false);
    lemma_flat_prefix(header, 2, header.len(), false);
    reveal_with_fuel(flat_nodes, 3);
    assert(flat_nodes(header, 0, false) =~= seq![]);
    assert(flat_nodes(header, 1, false) =~= flat_node(header[0], false));
    assert(front == flat_nodes(header, 1, false) + flat_node(header[1], false));
    assert(front[0].0 == 8 && front[1].0 == 35);
    assert(a1[0] == front[0] && a1[1] == front[1]);
    assert(sent.tags[0] == a1[0] && sent.tags[1] == a1[1]);
    lemma_first_tag_is(sent.tags, 35, 0, 1);
    lemma_flat_message(c, true);
    lemma_first_tag_is(plainly.tags, 35, 0, 1);
    assert(sent.msg_type() == m.fix_message.msg_type@);
    assert(plainly.msg_type() == m.fix_message.msg_type@);
    assert(sent.data =~= seq![]);
    assert(plainly.data =~= seq![]);
    assert(sent.wire_body(d) == plainly.wire_body(d));
}

proof fn lemma_retyped(fix: FixVersion, nodes: Seq<Node>, n: nat)
    requires
        n <= nodes.len(),
    ensures
        retyped_nodes(fix, nodes, n).len() == n,
        forall|i: int|
            0 <= i < n ==> #[trigger] retyped_nodes(fix, nodes, n)[i] == retyped(fix, nodes[i]),
    decreases n,
{
    if n > 0 {
        lemma_retyped(fix, nodes, (n - 1) as nat);
    }
}

/// A number that is written is read back.
proof fn lemma_number_read(fix: FixVersion, tag: u32, n: u32)
    requires
        fix.field_type(tag) == Some("SeqNum"@),
    ensures
        retyped_value(fix, tag, number(n as int)) == number(n as int),
{
    let digits = decimal(n as nat);
    lemma_decimal_value(n as nat);
    lemma_digits_utf8(digits);
    lemma_parse_decimal(n as nat, 0x7fff_ffff_ffff_ffff);
    assert(is_digit(digits[0]));
    assert(number(n as int).text() == decimal_text(n as nat));
    assert(i64::parsed(digits) == Ok::<i64, ParseIntError>(n as i64));
}

/// The sequence number that a message went out with is the one it arrives with.
proof fn lemma_number_arrives(m: BuilderView, p: int, stamp: Seq<u8>, n: u32)
    requires
        presentable(m),
        0 <= p < m.header.len(),
        m.header[p] == Node::Tag(MSG_SEQ_NUM, number(n as int)),
        spoken(carried(m, stamp)),
        m.fix_version.field_type(MSG_SEQ_NUM) == Some("SeqNum"@),
    ensures
        numbered_as(recovered(carried(m, stamp)), n),
{
    let v = text(ascii_chars(stamp));
    let c = carried(m, stamp);
    let fix = m.fix_version;
    let header = with_field(m.header, SENDING_TIME, v);
    lemma_tidy_with_field(m.header, SENDING_TIME, v);
    assert(m.header[p].key() != SENDING_TIME);
    assert(header[p] == m.header[p]);
    let q = lemma_set_position(header, header.len(), p);
    lemma_tidy_set(header, header.len());
    assert(c.header.take(2)[0] == c.header[0] && c.header.take(2)[1] == c.header[1]);
    assert(q >= 2);
    let own = own_header(c);
    lemma_retyped(fix, own, own.len());
    let after = recovered(c).header;
    assert(after.len() == c.header.len());
    assert forall|k: int| 2 <= k < after.len() implies #[trigger] after[k] == retyped(
        fix,
        c.header[k],
    ) by {
        assert(after[k] == retyped_nodes(fix, own, own.len())[k - 2]);
        assert(own[k - 2] == c.header[k]);
    }
    lemma_number_read(fix, MSG_SEQ_NUM, n);
    assert(after[q] == Node::Tag(MSG_SEQ_NUM, number(n as int)));
    assert forall|k: int| q < k < after.len() implies (#[trigger] after[k]).key()
        != MSG_SEQ_NUM by {
        assert(after[k] == retyped(fix, c.header[k]));
        assert(c.header[q].key() != c.header[k].key());
    }
    lemma_last_of_is(after, MSG_SEQ_NUM, after.len(), q);
}

/// A message of the application goes out under the next number.
proof fn lemma_sending(s: StateView, msg: BuilderView)
    requires
        s.replay is None,
        s.session.next_out < u32::MAX,
        presentable(msg),
    ensures
        s.send(msg).outputs == seq![
            (
                Output::Transmit(outgoing(s, msg).flattened(false), s.numbered().session),
                s.numbered(),
            ),
            (Output::Sent(s.numbered().session), s.numbered()),
        ],
        s.send(msg).end == s.numbered(),
        s.send(msg).result == Ok::<Progress, ErrorView>(Progress::Continue),
{
    let m = outgoing(s, msg);
    let _p = lemma_outgoing(s, msg);
    law_sends_are_numbered_in_turn(s, msg);
    lemma_flattened_readable(m, false);
    assert(m.header.take(2)[0] == m.header[0] && m.header.take(2)[1] == m.header[1]);
    assert(names_type(m.header, false));
}

/// What is written is decoded, and taken apart into what is carried.
proof fn lemma_crossing(m: BuilderView, stamp: Seq<u8>, dec: DecoderView, rest: Seq<u8>)
    requires
        presentable(m),
        field_of(m.header, SENDING_TIME) is Some,
        spoken(carried(m, stamp)),
        encodable(carried(m, stamp).flattened(true), dec.delimiter),
        recognised(dec, carried(m, stamp).flattened(true)),
        stamped_message(m.flattened(false), stamp).wire(dec.delimiter).len() + rest.len()
            <= usize::MAX,
    ensures
        ({
            let wire = stamped_message(m.flattened(false), stamp).wire(dec.delimiter);
            let out = dec.decode(wire + rest);
            &&& (wire + rest).skip(out.consumed) == rest
            &&& out.result matches Ok(Some(tags)) && taken_apart(
                MessageView { fix_version: m.fix_version, data: wire, tags },
            ) == Ok::<BuilderView, ErrorView>(recovered(carried(m, stamp)))
        }),
{
    let c = carried(m, stamp);
    lemma_carried_wire(m, stamp, dec.delimiter);
    law_a_message_survives_the_wire(dec, c, rest);
    let out = dec.decode(c.flattened(true).wire(dec.delimiter) + rest);
    let tags = (out.result->Ok_0)->0;
    assert(arrived(dec, c, tags) == (MessageView {
        fix_version: m.fix_version,
        data: c.flattened(true).wire(dec.delimiter),
        tags,
    }));
}

/// A frame in sequence that is the application's is reported and delivered.
proof fn lemma_receiving(r: StateView, frame: MessageView, m: BuilderView, n: u32, now: nat)
    requires
        taken_apart(frame) == Ok::<BuilderView, ErrorView>(m),
        numbered_as(m, n),
        r.session.next_in == n,
        n < u32::MAX,
        !r.logout_pending,
        !admin_type(m.msg_type()),
    ensures
        ({
            let got = r.on_message(frame, now);
            let t = r.heard(now);
            let u = t.advanced((n + 1) as u32);
            &&& got.outputs == seq![
                (Output::Event(EventView::RawMessageReceived(frame, t.session)), t),
                (Output::Event(EventView::SessionState(u.session)), u),
                (Output::Event(EventView::MessageReceived(m)), u),
            ]
            &&& got.end == u
            &&& got.result == Ok::<Progress, ErrorView>(Progress::Continue)
        }),
{
    let t = r.heard(now);
    law_application_messages_are_delivered_in_sequence(t, m, n);
    let u = t.advanced((n + 1) as u32);
    assert(r.on_message(frame, now).outputs =~= seq![
        (Output::Event(EventView::RawMessageReceived(frame, t.session)), t),
        (Output::Event(EventView::SessionState(u.session)), u),
        (Output::Event(EventView::MessageReceived(m)), u),
    ]);
}

/// What the application of one session sends, the application of the other
/// receives: between two sessions that are in step, a message goes out under the
/// next number, and once its bytes have been decoded it is delivered, with its
/// fields as they were set and typed as they are defined. Whatever follows it on
/// the wire is left there, and the two sessions are in step again.
pub proof fn law_what_is_sent_is_delivered(
    s: StateView,
    r: StateView,
    msg: BuilderView,
    stamp: Seq<u8>,
    dec: DecoderView,
    rest: Seq<u8>,
    now: nat,
)
    requires
        s.replay is None,
        s.session.next_out < u32::MAX,
        r.session.next_in == s.session.next_out,
        !r.logout_pending,
        !admin_type(msg.msg_type()),
        presentable(msg),
        msg.fix_version.field_type(MSG_SEQ_NUM) == Some("SeqNum"@),
        spoken(carried(outgoing(s, msg), stamp)),
        encodable(carried(outgoing(s, msg), stamp).flattened(true), dec.delimiter),
        recognised(dec, carried(outgoing(s, msg), stamp).flattened(true)),
        stamped_message(outgoing(s, msg).flattened(false), stamp).wire(dec.delimiter).len()
            + rest.len() <= usize::MAX,
    ensures
        ({
            let sent = s.send(msg);
            let flat = outgoing(s, msg).flattened(false);
            let wire = stamped_message(flat, stamp).wire(dec.delimiter);
            let out = dec.decode(wire + rest);
            &&& sent.outputs == seq![
                (Output::Transmit(flat, s.numbered().session), s.numbered()),
                (Output::Sent(s.numbered().session), s.numbered()),
            ]
            &&& sent.end == s.numbered()
            &&& sent.result == Ok::<Progress, ErrorView>(Progress::Continue)
            &&& (wire + rest).skip(out.consumed) == rest
            &&& out.result matches Ok(Some(tags)) && {
                let frame = MessageView { fix_version: msg.fix_version, data: wire, tags };
                let got = r.on_message(frame, now);
                let t = r.heard(now);
                let u = t.advanced(sent.end.session.next_out);
                &&& got.outputs == seq![
                    (Output::Event(EventView::RawMessageReceived(frame, t.session)), t),
                    (Output::Event(EventView::SessionState(u.session)), u),
                    (
                        Output::Event(
                            EventView::MessageReceived(
                                recovered(carried(outgoing(s, msg), stamp)),
                            ),
                        ),
                        u,
                    ),
                ]
                &&& got.end == u
                &&& got.result == Ok::<Progress, ErrorView>(Progress::Continue)
                &&& got.end.session.next_in == sent.end.session.next_out
            }
        }),
{
    let m = outgoing(s, msg);
    let n = s.session.next_out;
    let p = lemma_outgoing(s, msg);
    lemma_sending(s, msg);
    lemma_crossing(m, stamp, dec, rest);
    lemma_number_arrives(m, p, stamp, n);
    let wire = stamped_message(m.flattened(false), stamp).wire(dec.delimiter);
    let tags = (dec.decode(wire + rest).result->Ok_0)->0;
    let frame = MessageView { fix_version: msg.fix_version, data: wire, tags };
    lemma_receiving(r, frame, recovered(carried(m, stamp)), n, now);
}

} // verus!
