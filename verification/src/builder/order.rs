//! Taking a message apart keeps its fields in order.

use vstd::prelude::*;

use crate::builder::block::Node;
use crate::builder::message::{
    entry_bounds, flat_entries, flat_node, flat_nodes, lemma_elements_bound, lemma_entries_bound,
    new_header, taken_apart, typed_of, Bounds, Reading,
};
use crate::builder::roundtrip::lemma_flat_concat;
use crate::builder::value::Typed;
use crate::message::{is_framing, MessageView, Tags, ValueView};
use crate::repository::Group;
use crate::text::ParseInteger;

verus! {

/// The tag numbers of these fields, in order.
pub open spec fn numbers(tags: Tags) -> Seq<u32> {
    tags.map_values(|f: (u32, ValueView)| f.0)
}

/// The tag numbers from position `from` up to `to`, but for BeginString,
/// BodyLength, CheckSum and MsgType.
pub open spec fn own_numbers(tags: Tags, from: int, to: int) -> Seq<u32>
    decreases to - from,
{
    if from >= to {
        seq![]
    } else if is_framing(tags[from].0) {
        own_numbers(tags, from + 1, to)
    } else {
        seq![tags[from].0] + own_numbers(tags, from + 1, to)
    }
}

/// None of the fields from `from` on is the length of raw data.
pub open spec fn no_raw_data(r: Reading, from: int) -> bool {
    forall|i: int|
        from <= i < r.msg.tags.len() && !is_framing((#[trigger] r.msg.tags[i]).0)
            ==> r.fix.field_type(r.msg.tags[i].0) != Some("Length"@)
}

/// Every NumInGroup field from `from` on is that of a group of the message, and
/// holds a number.
pub open spec fn groups_known(r: Reading, from: int) -> bool {
    forall|i: int|
        from <= i < r.msg.tags.len() && !is_framing((#[trigger] r.msg.tags[i]).0)
            && r.fix.field_type(r.msg.tags[i].0) == Some("NumInGroup"@) ==> {
            &&& r.fix.group_for(
                r.definition.elements@,
                r.fix.field(r.msg.tags[i].0)->0.id,
            ) is Some
            &&& u32::parsed(r.msg.tags[i].1.bytes(r.msg.data)) is Ok
        }
}

/// What a message of a type that its version has is read under.
pub open spec fn reading(msg: MessageView) -> Reading {
    Reading {
        fix: msg.fix_version,
        definition: *msg.fix_version.messages.value(msg.msg_type())->0,
        msg,
    }
}

proof fn lemma_numbers_concat(a: Tags, b: Tags)
    ensures
        numbers(a + b) == numbers(a) + numbers(b),
{
    assert(numbers(a + b) =~= numbers(a) + numbers(b));
}

proof fn lemma_own_split(tags: Tags, from: int, mid: int, to: int)
    requires
        from <= mid <= to,
    ensures
        own_numbers(tags, from, to) == own_numbers(tags, from, mid) + own_numbers(tags, mid, to),
    decreases mid - from,
{
    if from < mid {
        lemma_own_split(tags, from + 1, mid, to);
    }
    assert(own_numbers(tags, from, to) =~= own_numbers(tags, from, mid) + own_numbers(
        tags,
        mid,
        to,
    ));
}

/// The tag numbers that a block lists.
spec fn listed(nodes: Seq<Node>) -> Seq<u32> {
    numbers(flat_nodes(nodes, nodes.len(), false))
}

proof fn lemma_listed_push(nodes: Seq<Node>, node: Node)
    ensures
        listed(nodes.push(node)) == listed(nodes) + numbers(flat_node(node, false)),
{
    let all = nodes.push(node);
    assert(all =~= nodes + seq![node]);
    lemma_flat_concat(nodes, seq![node], 1, false);
    assert(flat_nodes(seq![node], 1, false) =~= flat_node(node, false)) by {
        reveal_with_fuel(flat_nodes, 3);
    }
    lemma_numbers_concat(
        flat_nodes(nodes, nodes.len(), false),
        flat_node(node, false),
    );
}

/// Reading a run lists the tags of the run in order.
proof fn lemma_elements_order(r: Reading, bounds: Bounds, begin: int, at: int, acc: Seq<Node>)
    requires
        0 <= at <= r.msg.tags.len(),
        no_raw_data(r, at),
    ensures
        r.elements(bounds, begin, at, acc) matches Ok((next, nodes)) ==> {
            &&& at <= next <= r.msg.tags.len()
            &&& listed(nodes) == listed(acc) + own_numbers(r.msg.tags, at, next)
            &&& bounds is Open ==> next == r.msg.tags.len()
        },
        groups_known(r, at) ==> r.elements(bounds, begin, at, acc) is Ok,
    decreases r.msg.tags.len() - at, 0nat,
{
    let tags = r.msg.tags;
    lemma_elements_bound(r, bounds, begin, at, acc);
    if at < tags.len() {
        let (tag, value) = tags[at];
        if is_framing(tag) {
            lemma_elements_order(r, bounds, begin, at + 1, acc);
        } else if bounds.stops(at - begin, tag) {
            assert(listed(acc) =~= listed(acc) + own_numbers(tags, at, at));
        } else if r.fix.field_type(tag) == Some("NumInGroup"@) {
            let id = r.fix.field(tag)->0.id;
            if let Some(group) = r.fix.group_for(r.definition.elements@, id) {
                if let Ok(n) = u32::parsed(value.bytes(r.msg.data)) {
                    lemma_entries_order(r, &*group, n as nat, at + 1);
                    if let Ok((next, entries)) = r.entries(&*group, n as nat, at + 1) {
                        let node = Node::Group(tag, entries);
                        lemma_elements_order(r, bounds, begin, next, acc.push(node));
                        lemma_listed_push(acc, node);
                        lemma_own_split(tags, at, at + 1, next);
                        assert(own_numbers(tags, at, at + 1) =~= seq![tag]) by {
                            reveal_with_fuel(own_numbers, 2);
                        }
                        assert(numbers(flat_node(node, false)) =~= own_numbers(tags, at, next));
                        if let Ok((end, nodes)) = r.elements(bounds, begin, at, acc) {
                            lemma_own_split(tags, at, next, end);
                            assert(listed(nodes) =~= listed(acc) + own_numbers(tags, at, end));
                        }
                    }
                }
            }
        } else {
            let text = value.shown(r.msg.data);
            let typed = if r.fix.field(tag) is Some {
                typed_of(r.fix, tag, text)
            } else {
                Typed::String(text)
            };
            let node = Node::Tag(tag, typed);
            lemma_elements_order(r, bounds, begin, at + 1, acc.push(node));
            lemma_listed_push(acc, node);
            assert(numbers(flat_node(node, false)) =~= seq![tag]);
            if let Ok((end, nodes)) = r.elements(bounds, begin, at, acc) {
                assert(listed(nodes) =~= listed(acc) + own_numbers(tags, at, end));
            }
        }
    } else {
        assert(listed(acc) =~= listed(acc) + own_numbers(tags, at, at));
    }
}

proof fn lemma_entries_order(r: Reading, group: &Group, n: nat, at: int)
    requires
        0 <= at <= r.msg.tags.len(),
        no_raw_data(r, at),
    ensures
        r.entries(group, n, at) matches Ok((next, entries)) ==> {
            &&& at <= next <= r.msg.tags.len()
            &&& numbers(flat_entries(entries, entries.len(), false)) == own_numbers(
                r.msg.tags,
                at,
                next,
            )
        },
        groups_known(r, at) ==> r.entries(group, n, at) is Ok,
    decreases r.msg.tags.len() - at, n + 1,
{
    lemma_entries_bound(r, group, n, at);
    if n > 0 {
        let bounds = entry_bounds(r.fix, group);
        lemma_elements_order(r, bounds, at, at, seq![]);
        assert(listed(seq![]) =~= seq![]);
        if let Ok((next, nodes)) = r.elements(bounds, at, at, seq![]) {
            lemma_entries_order(r, group, (n - 1) as nat, next);
            if let Ok((end, rest)) = r.entries(group, (n - 1) as nat, next) {
                lemma_entries_concat(nodes, rest, rest.len());
                lemma_own_split(r.msg.tags, at, next, end);
                let entries = seq![nodes] + rest;
                assert(numbers(flat_entries(entries, entries.len(), false)) =~= own_numbers(
                    r.msg.tags,
                    at,
                    end,
                ));
            }
        }
    } else {
        assert(numbers(flat_entries(seq![], 0, false)) =~= own_numbers(r.msg.tags, at, at));
    }
}

proof fn lemma_entries_concat(first: Seq<Node>, rest: Seq<Seq<Node>>, n: nat)
    requires
        n <= rest.len(),
    ensures
        numbers(flat_entries(seq![first] + rest, n + 1, false)) == listed(first) + numbers(
            flat_entries(rest, n, false),
        ),
    decreases n,
{
    let all = seq![first] + rest;
    assert(all[n as int] == if n == 0 {
        first
    } else {
        rest[n - 1]
    });
    if n == 0 {
        assert(flat_entries(all, 0, false) =~= seq![]);
        assert(flat_entries(all, 1, false) =~= flat_nodes(first, first.len(), false));
        assert(numbers(flat_entries(rest, 0, false)) =~= seq![]);
    } else {
        lemma_entries_concat(first, rest, (n - 1) as nat);
        let last = flat_nodes(rest[n - 1], rest[n - 1].len(), false);
        lemma_numbers_concat(flat_entries(all, n, false), last);
        lemma_numbers_concat(flat_entries(rest, (n - 1) as nat, false), last);
        assert(flat_entries(all, n + 1, false) =~= flat_entries(all, n, false) + last);
    }
    assert(numbers(flat_entries(all, n + 1, false)) =~= listed(first) + numbers(
        flat_entries(rest, n, false),
    ));
}

/// A flat message that is taken apart and flattened again lists its tags in the
/// order it had, behind BeginString and MsgType; BodyLength and CheckSum are
/// left to be computed anew. That holds of every message without raw data that
/// can be taken apart, and one can be where its version has the message type
/// and the header, and where every NumInGroup field is that of a group of the
/// message and holds a number.
pub proof fn law_taking_apart_keeps_the_order(msg: MessageView)
    requires
        msg.is_readable(),
        msg.fix_version.messages.value(msg.msg_type()) is Some,
        msg.fix_version.component_named("StandardHeader"@) is Some,
        no_raw_data(reading(msg), 0),
    ensures
        taken_apart(msg) matches Ok(b) ==> numbers(b.flattened(false).tags) == seq![8u32, 35u32]
            + own_numbers(msg.tags, 0, msg.tags.len() as int),
        groups_known(reading(msg), 0) ==> taken_apart(msg) is Ok,
{
    let fix = msg.fix_version;
    let header = fix.component_named("StandardHeader"@)->0;
    let r = reading(msg);
    let start = new_header(fix, r.definition);
    let bounds = Bounds::Members(header.members@);
    lemma_elements_order(r, bounds, 0, 0, start);
    assert(listed(start) =~= seq![8u32, 35u32]) by {
        reveal_with_fuel(flat_nodes, 3);
    }
    if let Ok((at, header_nodes)) = r.elements(bounds, 0, 0, start) {
        lemma_elements_order(r, Bounds::Open, at, at, seq![]);
        assert(listed(seq![]) =~= seq![]);
        if let Ok((end, body_nodes)) = r.elements(Bounds::Open, at, at, seq![]) {
            lemma_own_split(msg.tags, 0, at, end);
            let b = taken_apart(msg)->Ok_0;
            lemma_numbers_concat(
                flat_nodes(header_nodes, header_nodes.len(), false),
                flat_nodes(body_nodes, body_nodes.len(), false),
            );
            assert(numbers(b.flattened(false).tags) =~= seq![8u32, 35u32] + own_numbers(
                msg.tags,
                0,
                end,
            ));
        }
    }
}

} // verus!
