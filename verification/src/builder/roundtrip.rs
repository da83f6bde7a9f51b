//! What the two forms of a message promise each other: a message that is
//! flattened, and even put on the wire, is taken apart into what it was.

use std::sync::Arc;

use vstd::prelude::*;
use vstd::string::*;
use vstd::utf8::*;

use crate::builder::block::Node;
use crate::builder::message::{
    entry_bounds, flat_entries, flat_node, flat_nodes, lemma_flat_owned, new_header, taken_apart,
    typed_of, Bounds, BuilderView, Reading,
};
use crate::builder::value::Typed;
use crate::error::ErrorView;
use crate::message::{is_framing, lemma_first_tag_is, MessageView, Tags, ValueView};
use crate::repository::{FixVersion, Group, MessageElement};
use crate::text::{
    decimal, decimal_text, lemma_decimal_value, lemma_digits_utf8, lemma_parse_decimal,
    ParseInteger,
};

verus! {

// ---------------------------------------------------------------------------
// What is read back
// ---------------------------------------------------------------------------

/// A value as it is read back: by its text, under the datatype of its field.
pub open spec fn retyped_value(fix: FixVersion, tag: u32, v: Typed) -> Typed {
    if fix.field(tag) is Some {
        typed_of(fix, tag, v.text())
    } else {
        Typed::String(v.text())
    }
}

/// An element as it is read back.
pub open spec fn retyped(fix: FixVersion, node: Node) -> Node
    decreases node,
{
    match node {
        Node::Tag(tag, v) => Node::Tag(tag, retyped_value(fix, tag, v)),
        Node::Group(tag, entries) => Node::Group(
            tag,
            retyped_entries(fix, entries, entries.len()),
        ),
        Node::RawData(len_tag, tag, v) => Node::RawData(len_tag, tag, Typed::Data(v.raw())),
    }
}

/// The first `n` entries of a group as they are read back.
pub open spec fn retyped_entries(fix: FixVersion, entries: Seq<Seq<Node>>, n: nat) -> Seq<Seq<Node>>
    decreases entries, n,
{
    if n == 0 || n > entries.len() {
        seq![]
    } else {
        retyped_entries(fix, entries, (n - 1) as nat).push(
            retyped_nodes(fix, entries[n - 1], entries[n - 1].len()),
        )
    }
}

/// The first `n` elements of a block as they are read back.
pub open spec fn retyped_nodes(fix: FixVersion, nodes: Seq<Node>, n: nat) -> Seq<Node>
    decreases nodes, n,
{
    if n == 0 || n > nodes.len() {
        seq![]
    } else {
        retyped_nodes(fix, nodes, (n - 1) as nat).push(retyped(fix, nodes[n - 1]))
    }
}

// ---------------------------------------------------------------------------
// Which messages that holds of
// ---------------------------------------------------------------------------

/// The tag that an element starts with when it is flattened.
pub open spec fn lead(node: Node) -> u32 {
    match node {
        Node::Tag(tag, _) => tag,
        Node::Group(tag, _) => tag,
        Node::RawData(len_tag, _, _) => len_tag,
    }
}

/// A field, or raw data with its length, that the version does not take for
/// something else.
pub open spec fn plain(fix: FixVersion, node: Node) -> bool {
    &&& !is_framing(lead(node))
    &&& match node {
        Node::Tag(tag, _) => fix.field_type(tag) != Some("NumInGroup"@) && fix.field_type(tag)
            != Some("Length"@),
        Node::RawData(len_tag, _, _) => fix.field_type(len_tag) == Some("Length"@),
        Node::Group(_, _) => false,
    }
}

/// The group that a NumInGroup tag is read as, by what the message's definition
/// holds.
pub open spec fn known_group(
    fix: FixVersion,
    elements: Seq<MessageElement>,
    tag: u32,
) -> Option<Arc<Group>> {
    fix.group_for(elements, fix.field(tag)->0.id)
}

/// `tag` behind this element does not run into it: it is no member of the group,
/// where the element is one, nor of a group that the last entry ends with.
pub open spec fn follows(
    fix: FixVersion,
    elements: Seq<MessageElement>,
    node: Node,
    tag: u32,
) -> bool
    decreases node,
{
    match node {
        Node::Group(t, entries) => entries.len() > 0 ==> {
            &&& known_group(fix, elements, t) matches Some(group) && !group.members@.contains(tag)
            &&& follows_run(fix, elements, entries[entries.len() - 1], tag)
        },
        _ => true,
    }
}

/// `tag` does not run into the last of these elements.
pub open spec fn follows_run(
    fix: FixVersion,
    elements: Seq<MessageElement>,
    nodes: Seq<Node>,
    tag: u32,
) -> bool
    decreases nodes,
{
    nodes.len() > 0 ==> follows(fix, elements, nodes[nodes.len() - 1], tag)
}

/// An element is a plain field, or a group that the message's definition knows,
/// with entries that can be told by it and from each other. The entries may hold
/// groups in turn.
pub open spec fn regular(fix: FixVersion, elements: Seq<MessageElement>, node: Node) -> bool
    decreases node,
{
    match node {
        Node::Group(tag, entries) => {
            &&& !is_framing(tag)
            &&& fix.field_type(tag) == Some("NumInGroup"@)
            &&& entries.len() <= u32::MAX
            &&& known_group(fix, elements, tag) is Some
            &&& forall|i: int|
                0 <= i < entries.len() ==> regular_entry(
                    fix,
                    elements,
                    known_group(fix, elements, tag)->0,
                    #[trigger] entries[i],
                )
            &&& forall|i: int|
                0 <= i < entries.len() - 1 ==> follows_run(
                    fix,
                    elements,
                    #[trigger] entries[i],
                    lead(entries[i + 1][0]),
                )
        },
        node => plain(fix, node),
    }
}

/// An entry that a group can be told by: it opens with the group's marker, holds
/// members only, and holds the marker once.
pub open spec fn regular_entry(
    fix: FixVersion,
    elements: Seq<MessageElement>,
    group: Arc<Group>,
    entry: Seq<Node>,
) -> bool
    decreases entry,
{
    &&& entry.len() > 0
    &&& fix.marker(group.elements@) == Some(lead(entry[0]))
    &&& forall|k: int|
        0 <= k < entry.len() ==> regular(fix, elements, #[trigger] entry[k])
            && group.members@.contains(lead(entry[k]))
    &&& forall|k: int|
        0 < k < entry.len() ==> fix.marker(group.elements@) != Some(lead(#[trigger] entry[k]))
    &&& apart(fix, elements, entry)
}

/// No element runs into the one in front of it.
pub open spec fn apart(
    fix: FixVersion,
    elements: Seq<MessageElement>,
    nodes: Seq<Node>,
) -> bool {
    forall|k: int|
        0 <= k < nodes.len() - 1 ==> follows(
            fix,
            elements,
            #[trigger] nodes[k],
            lead(nodes[k + 1]),
        )
}

pub open spec fn all_regular(
    fix: FixVersion,
    elements: Seq<MessageElement>,
    nodes: Seq<Node>,
) -> bool {
    &&& forall|k: int| 0 <= k < nodes.len() ==> regular(fix, elements, #[trigger] nodes[k])
    &&& apart(fix, elements, nodes)
}

/// An element that is regular starts with a tag of its own.
proof fn lemma_lead(fix: FixVersion, elements: Seq<MessageElement>, node: Node)
    requires
        regular(fix, elements, node),
    ensures
        !is_framing(lead(node)),
{
}

// ---------------------------------------------------------------------------
// Reading a flattened message
// ---------------------------------------------------------------------------

/// From `at` on, the message lists these fields, each in its own words.
pub open spec fn spells(msg: MessageView, at: int, flat: Tags) -> bool {
    &&& 0 <= at
    &&& at + flat.len() <= msg.tags.len()
    &&& forall|j: int|
        0 <= j < flat.len() ==> (#[trigger] msg.tags[at + j]).0 == flat[j].0 && msg.tags[at
            + j].1.bytes(msg.data) == flat[j].1.bytes(seq![])
}

/// From `at` on, only framing tags are left.
pub open spec fn only_framing(msg: MessageView, at: int) -> bool {
    forall|j: int| at <= j < msg.tags.len() ==> is_framing((#[trigger] msg.tags[j]).0)
}

proof fn lemma_spells_part(msg: MessageView, at: int, whole: Tags, from: int, part: Tags)
    requires
        spells(msg, at, whole),
        0 <= from,
        from + part.len() <= whole.len(),
        forall|j: int| 0 <= j < part.len() ==> #[trigger] part[j] == whole[from + j],
    ensures
        spells(msg, at + from, part),
{
    assert forall|j: int| 0 <= j < part.len() implies (#[trigger] msg.tags[at + from + j]).0
        == part[j].0 && msg.tags[at + from + j].1.bytes(msg.data) == part[j].1.bytes(seq![]) by {
        assert(part[j] == whole[from + j]);
        assert(msg.tags[at + (from + j)].0 == whole[from + j].0);
    }
}

/// A value that reads `text` shows it.
proof fn lemma_shown(v: ValueView, data: Seq<u8>, text: Seq<char>)
    requires
        v.bytes(data) == encode_utf8(text),
    ensures
        v.shown(data) == text,
{
    encode_utf8_valid_utf8(text);
    encode_utf8_decode_utf8(text);
    if let ValueView::String(s) = v {
        crate::text::lemma_encode_injective(s, text);
    }
}

proof fn lemma_skip_framing(r: Reading, bounds: Bounds, begin: int, at: int, acc: Seq<Node>)
    requires
        0 <= at <= r.msg.tags.len(),
        only_framing(r.msg, at),
    ensures
        r.elements(bounds, begin, at, acc) == Ok::<(int, Seq<Node>), ErrorView>(
            (r.msg.tags.len() as int, acc),
        ),
    decreases r.msg.tags.len() - at,
{
    if at < r.msg.tags.len() {
        assert(is_framing(r.msg.tags[at].0));
        lemma_skip_framing(r, bounds, begin, at + 1, acc);
    }
}

/// One plain element is read.
proof fn lemma_read_plain(
    r: Reading,
    bounds: Bounds,
    begin: int,
    at: int,
    acc: Seq<Node>,
    node: Node,
    only_set: bool,
)
    requires
        plain(r.fix, node),
        spells(r.msg, at, flat_node(node, only_set)),
        !bounds.stops(at - begin, lead(node)),
    ensures
        r.elements(bounds, begin, at, acc) == r.elements(
            bounds,
            begin,
            at + flat_node(node, only_set).len(),
            acc.push(retyped(r.fix, node)),
        ),
{
    let flat = flat_node(node, only_set);
    let data = r.msg.data;
    assert(r.msg.tags[at + 0].0 == flat[0].0);
    match node {
        Node::Tag(tag, v) => {
            let value = r.msg.tags[at].1;
            assert(flat[0].1.bytes(seq![]) == encode_utf8(v.text()));
            lemma_shown(value, data, v.text());
            assert(flat.len() == 1);
            assert(r.msg.tags[at] == (tag, value));
            assert(r.elements(bounds, begin, at, acc) == r.elements(
                bounds,
                begin,
                at + 1,
                acc.push(Node::Tag(tag, retyped_value(r.fix, tag, v))),
            ));
        },
        Node::RawData(len_tag, tag, v) => {
            assert(flat.len() == 2);
            assert(r.msg.tags[at + 1].0 == flat[1].0);
            assert(r.msg.tags[at + 1].1.bytes(data) == v.raw());
            reveal_strlit("Length");
            reveal_strlit("NumInGroup");
            assert("Length"@.len() != "NumInGroup"@.len());
            assert(r.elements(bounds, begin, at, acc) == r.elements(
                bounds,
                begin,
                at + 2,
                acc.push(Node::RawData(len_tag, tag, Typed::Data(v.raw()))),
            ));
        },
        Node::Group(_, _) => {},
    }
}

proof fn lemma_flat_prefix(nodes: Seq<Node>, k: nat, n: nat, only_set: bool)
    requires
        k <= n <= nodes.len(),
        !only_set || forall|i: int| 0 <= i < nodes.len() ==> (#[trigger] nodes[i]).is_set(),
    ensures
        flat_nodes(nodes, k, only_set).len() <= flat_nodes(nodes, n, only_set).len(),
        flat_nodes(nodes, n, only_set).take(flat_nodes(nodes, k, only_set).len() as int)
            == flat_nodes(nodes, k, only_set),
    decreases n,
{
    let a = flat_nodes(nodes, k, only_set);
    let b = flat_nodes(nodes, n, only_set);
    if k < n {
        lemma_flat_prefix(nodes, k, (n - 1) as nat, only_set);
        let c = flat_nodes(nodes, (n - 1) as nat, only_set);
        assert(b == c + flat_node(nodes[n - 1], only_set)) by {
            if only_set {
                assert(nodes[n - 1].is_set());
            }
        }
        assert(b.take(a.len() as int) =~= c.take(a.len() as int));
    } else {
        assert(b.take(a.len() as int) =~= b);
    }
}

/// Where element `k` stands in a flattened block.
proof fn lemma_spells_node(
    msg: MessageView,
    at: int,
    nodes: Seq<Node>,
    k: int,
    only_set: bool,
)
    requires
        spells(msg, at, flat_nodes(nodes, nodes.len(), only_set)),
        0 <= k < nodes.len(),
        !only_set || forall|i: int| 0 <= i < nodes.len() ==> (#[trigger] nodes[i]).is_set(),
    ensures
        spells(
            msg,
            at + flat_nodes(nodes, k as nat, only_set).len(),
            flat_node(nodes[k], only_set),
        ),
        flat_nodes(nodes, (k + 1) as nat, only_set).len() == flat_nodes(
            nodes,
            k as nat,
            only_set,
        ).len() + flat_node(nodes[k], only_set).len(),
        flat_node(nodes[k], only_set).len() > 0,
        flat_node(nodes[k], only_set)[0].0 == lead(nodes[k]),
{
    let whole = flat_nodes(nodes, nodes.len(), only_set);
    let a = flat_nodes(nodes, k as nat, only_set);
    let b = flat_nodes(nodes, (k + 1) as nat, only_set);
    let part = flat_node(nodes[k], only_set);
    if only_set {
        assert(nodes[k].is_set());
    }
    lemma_flat_prefix(nodes, (k + 1) as nat, nodes.len(), only_set);
    assert forall|j: int| 0 <= j < part.len() implies #[trigger] part[j] == whole[a.len() + j] by {
        assert(b[a.len() + j] == part[j]);
        assert(whole.take(b.len() as int)[a.len() + j] == b[a.len() + j]);
    }
    lemma_spells_part(msg, at, whole, a.len() as int, part);
}

/// What follows position `at` ends an entry of this group: another entry, a tag
/// that is none of its members, or nothing but framing.
pub open spec fn entry_ends(r: Reading, group: &Group, at: int) -> bool {
    ||| only_framing(r.msg, at)
    ||| at < r.msg.tags.len() && !is_framing(r.msg.tags[at].0) && (r.fix.marker(group.elements@)
        == Some(r.msg.tags[at].0) || !group.members@.contains(r.msg.tags[at].0))
}

/// What stands at position `at` does not run into the element in front of it.
pub open spec fn node_ends(r: Reading, node: Node, at: int) -> bool {
    ||| only_framing(r.msg, at)
    ||| at < r.msg.tags.len() && !is_framing(r.msg.tags[at].0) && follows(
        r.fix,
        r.definition.elements@,
        node,
        r.msg.tags[at].0,
    )
}

/// What stands at position `at` does not run into the block in front of it.
pub open spec fn run_ends(r: Reading, nodes: Seq<Node>, at: int) -> bool {
    ||| only_framing(r.msg, at)
    ||| at < r.msg.tags.len() && !is_framing(r.msg.tags[at].0) && follows_run(
        r.fix,
        r.definition.elements@,
        nodes,
        r.msg.tags[at].0,
    )
}

proof fn lemma_entries_prefix(entries: Seq<Seq<Node>>, k: nat, n: nat, only_set: bool)
    requires
        k <= n <= entries.len(),
    ensures
        flat_entries(entries, k, only_set).len() <= flat_entries(entries, n, only_set).len(),
        flat_entries(entries, n, only_set).take(flat_entries(entries, k, only_set).len() as int)
            == flat_entries(entries, k, only_set),
    decreases n,
{
    let a = flat_entries(entries, k, only_set);
    let b = flat_entries(entries, n, only_set);
    if k < n {
        lemma_entries_prefix(entries, k, (n - 1) as nat, only_set);
        let c = flat_entries(entries, (n - 1) as nat, only_set);
        assert(b.take(a.len() as int) =~= c.take(a.len() as int));
    } else {
        assert(b.take(a.len() as int) =~= b);
    }
}

/// All elements of a block carry something, those in the entries of its groups
/// included.
pub open spec fn fully_set(nodes: Seq<Node>) -> bool
    decreases nodes,
{
    forall|i: int| 0 <= i < nodes.len() ==> set_throughout(#[trigger] nodes[i])
}

pub open spec fn set_throughout(node: Node) -> bool
    decreases node,
{
    &&& node.is_set()
    &&& match node {
        Node::Group(_, entries) => forall|i: int|
            0 <= i < entries.len() ==> fully_set(#[trigger] entries[i]),
        _ => true,
    }
}

proof fn lemma_all_set(nodes: Seq<Node>)
    requires
        fully_set(nodes),
    ensures
        forall|i: int| 0 <= i < nodes.len() ==> (#[trigger] nodes[i]).is_set(),
{
    assert forall|i: int| 0 <= i < nodes.len() implies (#[trigger] nodes[i]).is_set() by {
        assert(set_throughout(nodes[i]));
    }
}

/// Where entry `k` stands in the entries of a group.
proof fn lemma_spells_entry(
    msg: MessageView,
    at: int,
    entries: Seq<Seq<Node>>,
    k: int,
    only_set: bool,
)
    requires
        spells(msg, at, flat_entries(entries, entries.len(), only_set)),
        0 <= k < entries.len(),
    ensures
        ({
            let a = flat_entries(entries, k as nat, only_set);
            let part = flat_nodes(entries[k], entries[k].len(), only_set);
            &&& spells(msg, at + a.len(), part)
            &&& flat_entries(entries, (k + 1) as nat, only_set) == a + part
            &&& a.len() + part.len() <= flat_entries(entries, entries.len(), only_set).len()
        }),
{
    let all = flat_entries(entries, entries.len(), only_set);
    let a = flat_entries(entries, k as nat, only_set);
    let b = flat_entries(entries, (k + 1) as nat, only_set);
    let part = flat_nodes(entries[k], entries[k].len(), only_set);
    lemma_entries_prefix(entries, (k + 1) as nat, entries.len(), only_set);
    assert(b == a + part);
    assert forall|j: int| 0 <= j < part.len() implies #[trigger] part[j] == all[a.len() + j] by {
        assert(b[a.len() + j] == part[j]);
        assert(all.take(b.len() as int)[a.len() + j] == b[a.len() + j]);
    }
    lemma_spells_part(msg, at, all, a.len() as int, part);
}

/// The entries of a group are read, from entry `k` on.
proof fn lemma_read_entries(
    r: Reading,
    group: Arc<Group>,
    at: int,
    entries: Seq<Seq<Node>>,
    k: nat,
    only_set: bool,
)
    requires
        spells(r.msg, at, flat_entries(entries, entries.len(), only_set)),
        k <= entries.len(),
        forall|i: int|
            0 <= i < entries.len() ==> regular_entry(
                r.fix,
                r.definition.elements@,
                group,
                #[trigger] entries[i],
            ),
        forall|i: int|
            0 <= i < entries.len() - 1 ==> follows_run(
                r.fix,
                r.definition.elements@,
                #[trigger] entries[i],
                lead(entries[i + 1][0]),
            ),
        only_set ==> forall|i: int| 0 <= i < entries.len() ==> fully_set(#[trigger] entries[i]),
        entries.len() > 0 ==> ({
            let end = at + flat_entries(entries, entries.len(), only_set).len();
            entry_ends(r, &*group, end) && run_ends(r, entries[entries.len() - 1], end)
        }),
    ensures
        ({
            let here = at + flat_entries(entries, k, only_set).len();
            let end = at + flat_entries(entries, entries.len(), only_set).len();
            let rest = retyped_entries(r.fix, entries, entries.len()).skip(k as int);
            r.entries(&*group, (entries.len() - k) as nat, here) matches Ok((next, read)) && read
                == rest && (next == end || (k < entries.len() && only_framing(r.msg, end) && next
                == r.msg.tags.len()))
        }),
    decreases entries, entries.len() - k,
{
    let here = at + flat_entries(entries, k, only_set).len();
    let all = flat_entries(entries, entries.len(), only_set);
    let end = at + all.len();
    lemma_retyped_entries(r.fix, entries, entries.len());
    let done = retyped_entries(r.fix, entries, entries.len());
    lemma_entries_prefix(entries, k, entries.len(), only_set);
    if k == entries.len() {
        assert(done.skip(k as int) =~= seq![]);
    } else {
        let entry = entries[k as int];
        let part = flat_nodes(entry, entry.len(), only_set);
        let b = flat_entries(entries, (k + 1) as nat, only_set);
        lemma_spells_entry(r.msg, at, entries, k as int, only_set);
        let bounds = entry_bounds(r.fix, &*group);
        let after = here + part.len();
        let nodes = retyped_nodes(r.fix, entry, entry.len());
        assert(after == at + b.len());
        assert(regular_entry(r.fix, r.definition.elements@, group, entry));
        if only_set {
            assert(fully_set(entry));
        }
        if k + 1 < entries.len() {
            let next = entries[(k + 1) as int];
            assert(regular_entry(r.fix, r.definition.elements@, group, next));
            lemma_spells_entry(r.msg, at, entries, (k + 1) as int, only_set);
            if only_set {
                assert(fully_set(next));
                lemma_all_set(next);
            }
            lemma_spells_node(r.msg, after, next, 0, only_set);
            assert(flat_nodes(next, 0, only_set).len() == 0);
            assert(r.msg.tags[after + 0].0 == lead(next[0]));
            lemma_lead(r.fix, r.definition.elements@, next[0]);
            assert(follows_run(r.fix, r.definition.elements@, entry, lead(next[0])));
        } else {
            assert(after == end);
        }
        assert(run_ends(r, entry, after));
        lemma_entry_bounds(r, group, here, entry);
        lemma_read_run(r, bounds, here, here, seq![], entry, entry.len(), only_set);
        assert(Seq::<Node>::empty() + nodes =~= nodes);
        lemma_part_is_there(r, here, entry, only_set);
        if k + 1 < entries.len() {
            assert(r.elements(bounds, here, after, nodes) == Ok::<(int, Seq<Node>), ErrorView>(
                (after, nodes),
            ));
            lemma_read_entries(r, group, at, entries, (k + 1) as nat, only_set);
            assert(seq![nodes] + done.skip((k + 1) as int) =~= done.skip(k as int));
        } else {
            if only_framing(r.msg, end) {
                lemma_skip_framing(r, bounds, here, after, nodes);
                let next = r.msg.tags.len() as int;
                assert(r.entries(&*group, 0, next) == Ok::<(int, Seq<Seq<Node>>), ErrorView>(
                    (next, seq![]),
                ));
            } else {
                assert(r.elements(bounds, here, after, nodes) == Ok::<
                    (int, Seq<Node>),
                    ErrorView,
                >((after, nodes)));
                assert(r.entries(&*group, 0, after) == Ok::<(int, Seq<Seq<Node>>), ErrorView>(
                    (after, seq![]),
                ));
            }
            assert(seq![nodes] + seq![] =~= done.skip(k as int));
        }
    }
}

/// The elements of an entry do not stop it.
proof fn lemma_entry_bounds(r: Reading, group: Arc<Group>, at: int, entry: Seq<Node>)
    requires
        regular_entry(r.fix, r.definition.elements@, group, entry),
    ensures
        within_bounds(entry_bounds(r.fix, &*group), at, at, entry),
{
    let bounds = entry_bounds(r.fix, &*group);
    assert forall|i: int, p: int|
        0 <= i < entry.len() && at <= p && (i > 0 <==> p > at) implies !#[trigger] bounds.stops(
        p - at,
        lead(entry[i]),
    ) by {
        assert(group.members@.contains(lead(entry[i])));
    }
}

/// An entry is not empty, and neither is what it is flattened into.
proof fn lemma_part_is_there(r: Reading, at: int, entry: Seq<Node>, only_set: bool)
    requires
        entry.len() > 0,
        only_set ==> fully_set(entry),
        spells(r.msg, at, flat_nodes(entry, entry.len(), only_set)),
    ensures
        flat_nodes(entry, entry.len(), only_set).len() > 0,
{
    if only_set {
        lemma_all_set(entry);
    }
    lemma_spells_node(r.msg, at, entry, entry.len() - 1, only_set);
}

proof fn lemma_retyped_entries(fix: FixVersion, entries: Seq<Seq<Node>>, n: nat)
    requires
        n <= entries.len(),
    ensures
        retyped_entries(fix, entries, n).len() == n,
        forall|i: int|
            0 <= i < n ==> #[trigger] retyped_entries(fix, entries, n)[i] == retyped_nodes(
                fix,
                entries[i],
                entries[i].len(),
            ),
    decreases n,
{
    if n > 0 {
        lemma_retyped_entries(fix, entries, (n - 1) as nat);
    }
}

/// One group is read, with its entries.
proof fn lemma_read_group(
    r: Reading,
    bounds: Bounds,
    begin: int,
    at: int,
    acc: Seq<Node>,
    node: Node,
    only_set: bool,
)
    requires
        node is Group,
        regular(r.fix, r.definition.elements@, node),
        only_set ==> set_throughout(node),
        spells(r.msg, at, flat_node(node, only_set)),
        !bounds.stops(at - begin, lead(node)),
        node_ends(r, node, at + flat_node(node, only_set).len()),
    ensures
        r.elements(bounds, begin, at, acc) == r.elements(
            bounds,
            begin,
            at + flat_node(node, only_set).len(),
            acc.push(retyped(r.fix, node)),
        ),
    decreases node, 0nat,
{
    if let Node::Group(tag, entries) = node {
        let group = known_group(r.fix, r.definition.elements@, tag)->0;
        let flat = flat_node(node, only_set);
        let inner = flat_entries(entries, entries.len(), only_set);
        let next = at + flat.len();
        let read = acc.push(retyped(r.fix, node));
        assert(flat.len() == 1 + inner.len());
        assert(r.msg.tags[at + 0].0 == flat[0].0);
        assert(flat[0].1.bytes(seq![]) == encode_utf8(decimal_text(entries.len())));
        assert forall|i: int| 0 <= i < inner.len() implies #[trigger] inner[i] == flat[1 + i] by {}
        lemma_spells_part(r.msg, at, flat, 1, inner);
        lemma_count(r.msg, at, entries.len());
        lemma_read_entries(r, group, at + 1, entries, 0, only_set);
        lemma_retyped_entries(r.fix, entries, entries.len());
        let done = retyped_entries(r.fix, entries, entries.len());
        assert(done.skip(0) =~= done);
        assert(flat_entries(entries, 0, only_set).len() == 0);
        let (got, read_entries) = r.entries(&*group, entries.len(), at + 1)->Ok_0;
        assert(read_entries == done);
        assert(r.elements(bounds, begin, at, acc) == r.elements(bounds, begin, got, read));
        if got != next {
            lemma_skip_framing(r, bounds, begin, next, read);
            lemma_skip_framing(r, bounds, begin, got, read);
        }
    }
}

/// None of these elements, read from `at` on, stops the run.
pub open spec fn within_bounds(bounds: Bounds, begin: int, at: int, nodes: Seq<Node>) -> bool {
    forall|i: int, p: int|
        0 <= i < nodes.len() && at <= p && (i > 0 <==> p > at) ==> !#[trigger] bounds.stops(
            p - begin,
            lead(nodes[i]),
        )
}

/// The elements of a run are read, one by one.
proof fn lemma_read_run(
    r: Reading,
    bounds: Bounds,
    begin: int,
    at: int,
    acc: Seq<Node>,
    nodes: Seq<Node>,
    k: nat,
    only_set: bool,
)
    requires
        k <= nodes.len(),
        all_regular(r.fix, r.definition.elements@, nodes),
        only_set ==> fully_set(nodes),
        spells(r.msg, at, flat_nodes(nodes, nodes.len(), only_set)),
        run_ends(r, nodes, at + flat_nodes(nodes, nodes.len(), only_set).len()),
        within_bounds(bounds, begin, at, nodes),
    ensures
        r.elements(bounds, begin, at, acc) == r.elements(
            bounds,
            begin,
            at + flat_nodes(nodes, k, only_set).len(),
            acc + retyped_nodes(r.fix, nodes, k),
        ),
        k > 0 ==> flat_nodes(nodes, k, only_set).len() > 0,
    decreases nodes, k,
{
    if k == 0 {
        assert(acc + retyped_nodes(r.fix, nodes, 0) =~= acc);
    } else {
        let j = k - 1;
        let end = at + flat_nodes(nodes, nodes.len(), only_set).len();
        if only_set {
            lemma_all_set(nodes);
        }
        lemma_read_run(r, bounds, begin, at, acc, nodes, j as nat, only_set);
        lemma_spells_node(r.msg, at, nodes, j, only_set);
        let here = at + flat_nodes(nodes, j as nat, only_set).len();
        let so_far = acc + retyped_nodes(r.fix, nodes, j as nat);
        let node = nodes[j];
        let next = here + flat_node(node, only_set).len();
        assert(acc + retyped_nodes(r.fix, nodes, k) =~= so_far.push(retyped(r.fix, node)));
        assert(regular(r.fix, r.definition.elements@, node));
        if j == 0 {
            assert(flat_nodes(nodes, 0, only_set).len() == 0);
        }
        assert(!bounds.stops(here - begin, lead(node)));
        if node is Group {
            assert(node_ends(r, node, next)) by {
                if k < nodes.len() {
                    lemma_spells_node(r.msg, at, nodes, k as int, only_set);
                    assert(r.msg.tags[next + 0].0 == lead(nodes[k as int]));
                    assert(regular(r.fix, r.definition.elements@, nodes[k as int]));
                    lemma_lead(r.fix, r.definition.elements@, nodes[k as int]);
                    assert(follows(r.fix, r.definition.elements@, nodes[j], lead(nodes[j + 1])));
                } else {
                    assert(next == end);
                }
            }
            if only_set {
                assert(set_throughout(nodes[j]));
            }
            lemma_read_group(r, bounds, begin, here, so_far, node, only_set);
        } else {
            lemma_read_plain(r, bounds, begin, here, so_far, node, only_set);
        }
    }
}

/// The count of a group is read back.
proof fn lemma_count(msg: MessageView, at: int, n: nat)
    requires
        0 <= at < msg.tags.len(),
        n <= u32::MAX,
        msg.tags[at].1.bytes(msg.data) == encode_utf8(decimal_text(n)),
    ensures
        u32::parsed(msg.tags[at].1.bytes(msg.data)) == Ok::<u32, crate::text::ParseIntError>(
            n as u32,
        ),
{
    lemma_decimal_value(n);
    lemma_digits_utf8(decimal(n));
    lemma_parse_decimal(n, u32::MAX as nat);
}

// ---------------------------------------------------------------------------
// Laws
// ---------------------------------------------------------------------------

/// The fields of the header behind BeginString and MsgType.
pub open spec fn own_header(m: BuilderView) -> Seq<Node> {
    m.header.skip(2)
}

/// A message that can be told from its flat form: its header starts as every
/// header does and holds header fields only, its body starts with something
/// else, which does not run into the header, and all of it is regular.
pub open spec fn well_formed(m: BuilderView) -> bool {
    &&& m.fix_version.messages.value(m.fix_message.msg_type@) matches Some(d) && *d
        == m.fix_message
    &&& m.fix_version.component_named("StandardHeader"@) matches Some(c) && {
        &&& forall|k: int|
            0 <= k < own_header(m).len() ==> c.members@.contains(
                lead(#[trigger] own_header(m)[k]),
            )
        &&& m.body.len() > 0 ==> !c.members@.contains(lead(m.body[0]))
    }
    &&& m.header.len() >= 2
    &&& m.header.take(2) == new_header(m.fix_version, m.fix_message)
    &&& all_regular(m.fix_version, m.fix_message.elements@, own_header(m))
    &&& m.body.len() > 0 ==> follows_run(
        m.fix_version,
        m.fix_message.elements@,
        own_header(m),
        lead(m.body[0]),
    )
    &&& all_regular(m.fix_version, m.fix_message.elements@, m.body)
}

/// What a message is taken apart into: itself, with every value typed as its
/// field is.
pub open spec fn recovered(m: BuilderView) -> BuilderView {
    BuilderView {
        header: m.header.take(2) + retyped_nodes(
            m.fix_version,
            own_header(m),
            own_header(m).len(),
        ),
        body: retyped_nodes(m.fix_version, m.body, m.body.len()),
        ..m
    }
}

/// The flat fields of a message behind BeginString and MsgType.
pub open spec fn own_fields(m: BuilderView, only_set: bool) -> Tags {
    flat_nodes(own_header(m), own_header(m).len(), only_set) + flat_nodes(
        m.body,
        m.body.len(),
        only_set,
    )
}

/// A flat message lists these fields, between framing tags, and is of this type.
pub open spec fn frames(msg: MessageView, at: int, m: BuilderView, only_set: bool) -> bool {
    &&& 2 <= at
    &&& msg.fix_version == m.fix_version
    &&& msg.is_readable()
    &&& msg.msg_type() == m.fix_message.msg_type@
    &&& spells(msg, at, own_fields(m, only_set))
    &&& forall|j: int| 0 <= j < at ==> is_framing((#[trigger] msg.tags[j]).0)
    &&& only_framing(msg, at + own_fields(m, only_set).len())
}

proof fn lemma_skip_front(r: Reading, bounds: Bounds, begin: int, at: int, to: int, acc: Seq<Node>)
    requires
        0 <= at <= to <= r.msg.tags.len(),
        forall|j: int| at <= j < to ==> is_framing((#[trigger] r.msg.tags[j]).0),
    ensures
        r.elements(bounds, begin, at, acc) == r.elements(bounds, begin, to, acc),
    decreases to - at,
{
    if at < to {
        assert(is_framing(r.msg.tags[at].0));
        lemma_skip_front(r, bounds, begin, at + 1, to, acc);
    }
}

/// Whatever lists the fields of a message in order is taken apart into the
/// message.
pub proof fn law_flat_form_is_taken_apart(
    msg: MessageView,
    at: int,
    m: BuilderView,
    only_set: bool,
)
    requires
        well_formed(m),
        only_set ==> fully_set(own_header(m)) && fully_set(m.body),
        frames(msg, at, m, only_set),
    ensures
        taken_apart(msg) == Ok::<BuilderView, ErrorView>(recovered(m)),
{
    let fix = m.fix_version;
    let definition = m.fix_message;
    let r = Reading { fix, definition, msg };
    let component = fix.component_named("StandardHeader"@)->0;
    let bounds = Bounds::Members(component.members@);
    let header = own_header(m);
    let flat_header = flat_nodes(header, header.len(), only_set);
    let flat_body = flat_nodes(m.body, m.body.len(), only_set);
    let whole = own_fields(m, only_set);
    let start = new_header(fix, definition);
    let middle = at + flat_header.len();
    let end = at + whole.len();
    // The header.
    lemma_skip_front(r, bounds, 0, 0, at, start);
    assert(flat_header =~= whole.take(flat_header.len() as int));
    lemma_spells_part(msg, at, whole, 0, flat_header);
    lemma_spells_part(msg, at, whole, flat_header.len() as int, flat_body);
    let elements = definition.elements@;
    if m.body.len() > 0 {
        if only_set {
            lemma_all_set(m.body);
        }
        lemma_spells_node(msg, middle, m.body, 0, only_set);
        assert(flat_nodes(m.body, 0, only_set).len() == 0);
        assert(msg.tags[middle + 0].0 == lead(m.body[0]));
        assert(regular(fix, elements, m.body[0]));
        lemma_lead(fix, elements, m.body[0]);
    }
    assert(run_ends(r, header, middle));
    lemma_read_run(r, bounds, 0, at, start, header, header.len(), only_set);
    let header_read = start + retyped_nodes(fix, header, header.len());
    assert(header_read == recovered(m).header);
    // The body.
    if m.body.len() > 0 {
        assert(r.elements(bounds, 0, middle, header_read) == Ok::<(int, Seq<Node>), ErrorView>(
            (middle, header_read),
        ));
        lemma_read_run(
            r,
            Bounds::Open,
            middle,
            middle,
            seq![],
            m.body,
            m.body.len(),
            only_set,
        );
        let body_read = retyped_nodes(fix, m.body, m.body.len());
        assert(Seq::<Node>::empty() + body_read =~= body_read);
        lemma_skip_framing(r, Bounds::Open, middle, end, body_read);
    } else {
        assert(middle == end);
        lemma_skip_framing(r, bounds, 0, middle, header_read);
        let n = msg.tags.len() as int;
        assert(r.elements(Bounds::Open, n, n, seq![]) == Ok::<(int, Seq<Node>), ErrorView>(
            (n, seq![]),
        ));
        assert(retyped_nodes(fix, m.body, 0) =~= seq![]);
    }
}

/// Flattening goes block by block.
pub proof fn lemma_flat_concat(a: Seq<Node>, b: Seq<Node>, n: nat, only_set: bool)
    requires
        n <= b.len(),
    ensures
        flat_nodes(a + b, a.len() + n, only_set) == flat_nodes(a, a.len(), only_set) + flat_nodes(
            b,
            n,
            only_set,
        ),
    decreases n,
{
    if n == 0 {
        lemma_flat_same(a + b, a, a.len(), only_set);
        assert(flat_nodes(a, a.len(), only_set) + flat_nodes(b, 0, only_set) =~= flat_nodes(
            a,
            a.len(),
            only_set,
        ));
    } else {
        lemma_flat_concat(a, b, (n - 1) as nat, only_set);
        assert((a + b)[a.len() + n - 1] == b[n - 1]);
        assert(flat_nodes(a + b, a.len() + n, only_set) =~= flat_nodes(a, a.len(), only_set)
            + flat_nodes(b, n, only_set));
    }
}

proof fn lemma_flat_same(a: Seq<Node>, b: Seq<Node>, n: nat, only_set: bool)
    requires
        n <= a.len(),
        n <= b.len(),
        forall|i: int| 0 <= i < n ==> a[i] == b[i],
    ensures
        flat_nodes(a, n, only_set) == flat_nodes(b, n, only_set),
    decreases n,
{
    if n > 0 {
        lemma_flat_same(a, b, (n - 1) as nat, only_set);
    }
}

/// The flat form of a message: BeginString, MsgType, and its own fields.
pub proof fn lemma_flat_message(m: BuilderView, only_set: bool)
    requires
        well_formed(m),
        only_set ==> m.fix_version.begin_string@.len() > 0 && m.fix_message.msg_type@.len() > 0,
    ensures
        m.flat(only_set) == seq![
            (8u32, ValueView::String(m.fix_version.begin_string@)),
            (35u32, ValueView::String(m.fix_message.msg_type@)),
        ] + own_fields(m, only_set),
{
    let front = m.header.take(2);
    let rest = own_header(m);
    let lead2 = seq![
        (8u32, ValueView::String(m.fix_version.begin_string@)),
        (35u32, ValueView::String(m.fix_message.msg_type@)),
    ];
    assert(m.header =~= front + rest);
    lemma_flat_concat(front, rest, rest.len(), only_set);
    assert(front[0] == new_header(m.fix_version, m.fix_message)[0]);
    assert(front[1] == new_header(m.fix_version, m.fix_message)[1]);
    assert(front.len() == 2);
    let a = Node::Tag(8, Typed::String(m.fix_version.begin_string@));
    let b = Node::Tag(35, Typed::String(m.fix_message.msg_type@));
    assert(front[0] == a && front[1] == b);
    assert(flat_node(a, only_set) =~= seq![lead2[0]]);
    assert(flat_node(b, only_set) =~= seq![lead2[1]]);
    assert(flat_nodes(front, (1nat - 1) as nat, only_set) =~= seq![]);
    assert(flat_nodes(front, 1, only_set) =~= flat_node(a, only_set));
    assert(flat_nodes(front, (2nat - 1) as nat, only_set) =~= seq![lead2[0]]);
    assert(flat_nodes(front, 2, only_set) =~= lead2);
    assert(m.flat(only_set) =~= lead2 + own_fields(m, only_set));
}

/// A message that was flattened is taken apart into what it was, groups and raw
/// data included, with every value typed as its field is.
pub proof fn law_flatten_then_take_apart(m: BuilderView, only_set: bool)
    requires
        well_formed(m),
        only_set ==> fully_set(own_header(m)) && fully_set(m.body)
            && m.fix_version.begin_string@.len() > 0 && m.fix_message.msg_type@.len() > 0,
    ensures
        taken_apart(m.flattened(only_set)) == Ok::<BuilderView, ErrorView>(recovered(m)),
{
    let msg = m.flattened(only_set);
    let own = own_fields(m, only_set);
    lemma_flat_message(m, only_set);
    lemma_flat_owned(own_header(m), own_header(m).len(), only_set);
    lemma_flat_owned(m.body, m.body.len(), only_set);
    assert forall|i: int| 0 <= i < msg.tags.len() implies (#[trigger] msg.tags[i]).1.in_range(
        msg.data.len(),
    ) by {
        if i >= 2 {
            assert(msg.tags[i] == own[i - 2]);
            let h = flat_nodes(own_header(m), own_header(m).len(), only_set);
            if i - 2 < h.len() {
                assert(own[i - 2] == h[i - 2]);
            } else {
                assert(own[i - 2] == flat_nodes(m.body, m.body.len(), only_set)[i - 2 - h.len()]);
            }
        }
    }
    lemma_first_tag_is(msg.tags, 35, 0, 1);
    assert(msg.value(35) == Some(ValueView::String(m.fix_message.msg_type@)));
    assert(spells(msg, 2, own)) by {
        assert forall|j: int| 0 <= j < own.len() implies (#[trigger] msg.tags[2 + j]).0 == own[j].0
            && msg.tags[2 + j].1.bytes(msg.data) == own[j].1.bytes(seq![]) by {
            assert(msg.tags[2 + j] == own[j]);
            let h = flat_nodes(own_header(m), own_header(m).len(), only_set);
            if j < h.len() {
                assert(own[j] == h[j]);
            } else {
                assert(own[j] == flat_nodes(m.body, m.body.len(), only_set)[j - h.len()]);
            }
        }
    }
    law_flat_form_is_taken_apart(msg, 2, m, only_set);
}

} // verus!
