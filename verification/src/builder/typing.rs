//! What values are taken for, and how messages are taken apart, field by field.

use vstd::prelude::*;
use vstd::string::*;
use vstd::utf8::*;

use crate::builder::block::Node;
use crate::builder::describe::{block_lines, entries_lines, node_lines};
use crate::builder::message::{
    flat_entries, flat_node, flat_nodes, taken_apart, typed_of, Bounds, BuilderView,
    Reading,
};
use crate::builder::value::{IntoTyped, Typed, TypedValue};
use crate::error::ErrorView;
use crate::message::{MessageView, ValueView};
use crate::repository::{FixVersion, Group, MessageElement};
use crate::text::{
    decimal_text, fraction_text, shown_text, signed_text, Decimal, ParseInteger,
};

verus! {

// ---------------------------------------------------------------------------
// Values
// ---------------------------------------------------------------------------

/// The datatypes of whole numbers.
pub open spec fn counts(t: Seq<char>) -> bool {
    t == "int"@ || t == "Length"@ || t == "SeqNum"@ || t == "NumInGroup"@ || t == "DayOfMonth"@
}

/// The datatypes of decimal fractions.
pub open spec fn measures(t: Seq<char>) -> bool {
    t == "float"@ || t == "Qty"@ || t == "Price"@ || t == "PriceOffset"@ || t == "Amt"@ || t
        == "Percentage"@
}

/// What a field is taken for when it reads `text`. One without text is empty, and
/// one that the version does not know is text. A whole number, a fraction, `Y` or
/// `N`, and a character are taken for that under their datatypes, where they can
/// be read as such. All else is text.
pub proof fn law_what_a_field_is_taken_for(fix: FixVersion, tag: u32, text: Seq<char>)
    ensures
        text.len() == 0 ==> typed_of(fix, tag, text) == Typed::Empty,
        text.len() > 0 && fix.field_type(tag) is None ==> typed_of(fix, tag, text)
            == Typed::String(text),
        text.len() > 0 ==> (fix.field_type(tag) matches Some(t) ==> {
            let v = typed_of(fix, tag, text);
            &&& counts(t) ==> v == (match i64::parsed(encode_utf8(text)) {
                Ok(i) => Typed::Int(i as int),
                Err(_) => Typed::String(text),
            })
            &&& measures(t) ==> v == (match fraction_text(encode_utf8(text)) {
                Some(d) => Typed::Float(d),
                None => Typed::String(text),
            })
            &&& t == "Boolean"@ && text == "Y"@ ==> v == Typed::Boolean(true)
            &&& t == "Boolean"@ && text == "N"@ ==> v == Typed::Boolean(false)
            &&& t == "Boolean"@ && text != "Y"@ && text != "N"@ ==> v == Typed::String(text)
            &&& t == "char"@ ==> v == Typed::Char(text[0])
            &&& !counts(t) && !measures(t) && t != "Boolean"@ && t != "char"@ ==> v
                == Typed::String(text)
        }),
{
    lemma_datatypes();
}

proof fn lemma_datatypes()
    ensures
        "int"@ =~= seq!['i', 'n', 't'],
        "char"@ =~= seq!['c', 'h', 'a', 'r'],
        "Boolean"@ =~= seq!['B', 'o', 'o', 'l', 'e', 'a', 'n'],
        "float"@ =~= seq!['f', 'l', 'o', 'a', 't'],
        "Qty"@ =~= seq!['Q', 't', 'y'],
        "Price"@ =~= seq!['P', 'r', 'i', 'c', 'e'],
        "Amt"@ =~= seq!['A', 'm', 't'],
        "Length"@ =~= seq!['L', 'e', 'n', 'g', 't', 'h'],
        "SeqNum"@ =~= seq!['S', 'e', 'q', 'N', 'u', 'm'],
        "NumInGroup"@.len() == 10 && "NumInGroup"@[0] == 'N',
        "DayOfMonth"@.len() == 10 && "DayOfMonth"@[0] == 'D',
        "PriceOffset"@.len() == 11,
        "Percentage"@.len() == 10 && "Percentage"@[0] == 'P',
        "Y"@ =~= seq!['Y'],
        "N"@ =~= seq!['N'],
        "Y"@ != "N"@,
        !(measures("char"@) || counts("char"@) || measures("Boolean"@) || counts("Boolean"@)),
        forall|t: Seq<char>| #[trigger] counts(t) ==> !measures(t),
        "char"@ != "Boolean"@,
{
    reveal_strlit("int");
    reveal_strlit("char");
    reveal_strlit("Boolean");
    reveal_strlit("float");
    reveal_strlit("Qty");
    reveal_strlit("Price");
    reveal_strlit("Amt");
    reveal_strlit("Length");
    reveal_strlit("SeqNum");
    reveal_strlit("NumInGroup");
    reveal_strlit("DayOfMonth");
    reveal_strlit("PriceOffset");
    reveal_strlit("Percentage");
    reveal_strlit("Y");
    reveal_strlit("N");
    assert("Y"@[0] == 'Y' && "N"@[0] == 'N');
    assert("int"@[0] == 'i' && "Qty"@[0] == 'Q' && "Amt"@[0] == 'A');
    assert("float"@[0] == 'f' && "Price"@[0] == 'P');
    assert("Length"@[0] == 'L' && "SeqNum"@[0] == 'S');
    assert("NumInGroup"@[0] == 'N' && "DayOfMonth"@[0] == 'D' && "Percentage"@[0] == 'P');
    assert("char"@.len() == 4 && "Boolean"@.len() == 7);
    assert("int"@.len() == 3 && "Qty"@.len() == 3 && "Amt"@.len() == 3);
    assert("float"@.len() == 5 && "Price"@.len() == 5 && "PriceOffset"@.len() == 11);
    assert("Length"@.len() == 6 && "SeqNum"@.len() == 6);
}

/// How values are written, and what they are read as. A number is its digits, a
/// flag is `Y` or `N`, and an empty value is nothing. Text that writes a number or
/// a flag can be read as one; nothing else can.
pub proof fn law_how_values_are_written_and_read(
    i: int,
    d: Seq<char>,
    s: Seq<char>,
    c: char,
    b: Seq<u8>,
)
    ensures
        Typed::Int(i).text() == signed_text(i),
        Typed::Float(d).text() == d,
        Typed::String(s).text() == s,
        Typed::Char(c).text() == seq![c],
        Typed::Data(b).text() == shown_text(b),
        Typed::Boolean(true).text() == "Y"@,
        Typed::Boolean(false).text() == "N"@,
        Typed::Empty.text().len() == 0,
        Typed::Data(b).raw() == b,
        Typed::String(s).raw() == encode_utf8(s),
        Typed::Int(i).raw() == encode_utf8(signed_text(i)),
        Typed::Int(i).whole() == Some(i),
        Typed::String(s).whole() == (match i64::parsed(encode_utf8(s)) {
            Ok(n) => Some(n as int),
            Err(_) => None,
        }),
        Typed::Float(d).whole() is None && Typed::Char(c).whole() is None && Typed::Data(b).whole()
            is None && Typed::Empty.whole() is None && Typed::Boolean(true).whole() is None,
        Typed::Float(d).fraction() == Some(d),
        Typed::Int(i).fraction() == Some(signed_text(i)),
        Typed::String(s).fraction() == fraction_text(encode_utf8(s)),
        Typed::Char(c).fraction() is None && Typed::Data(b).fraction() is None
            && Typed::Empty.fraction() is None && Typed::Boolean(true).fraction() is None,
        forall|v: bool| #[trigger] Typed::Boolean(v).boolean() == Some(v),
        s == "Y"@ ==> Typed::String(s).boolean() == Some(true),
        s == "N"@ ==> Typed::String(s).boolean() == Some(false),
        s != "Y"@ && s != "N"@ ==> Typed::String(s).boolean() is None,
        Typed::Int(i).boolean() is None && Typed::Float(d).boolean() is None && Typed::Char(
            c,
        ).boolean() is None && Typed::Data(b).boolean() is None && Typed::Empty.boolean() is None,
        Typed::Empty.is_empty(),
        Typed::String(s).is_empty() <==> s.len() == 0,
        !Typed::Int(i).is_empty() && !Typed::Float(d).is_empty() && !Typed::Char(c).is_empty()
            && !Typed::Data(b).is_empty() && !Typed::Boolean(true).is_empty()
            && !Typed::Boolean(false).is_empty(),
{
    lemma_datatypes();
}

// ---------------------------------------------------------------------------
// Taking apart
// ---------------------------------------------------------------------------

/// The tag at `at` belongs to this run.
pub open spec fn belongs(bounds: Bounds, seen: int, tag: u32) -> bool {
    match bounds {
        Bounds::Open => true,
        Bounds::Members(members) => seen <= 0 || members.contains(tag),
        Bounds::Entry(members, marker) => members.contains(tag) && (seen <= 0 || marker != Some(
            tag,
        )),
    }
}

/// How one field of a run is taken. BeginString, BodyLength, CheckSum and MsgType
/// are passed over. A field that does not belong ends the run. A NumInGroup field
/// has to be that of a group of the message and to hold a number, and is taken
/// with that many entries. A Length field has to have data behind it, and is taken
/// with it. Any other field is taken by its text and its datatype.
pub proof fn law_how_a_field_is_taken(
    r: Reading,
    bounds: Bounds,
    begin: int,
    at: int,
    acc: Seq<Node>,
)
    requires
        0 <= at <= r.msg.tags.len(),
    ensures
        ({
            let tags = r.msg.tags;
            let here = r.elements(bounds, begin, at, acc);
            let (tag, value) = tags[at];
            let kind = r.fix.field_type(tag);
            let frames = tag == 8 || tag == 9 || tag == 10 || tag == 35;
            let inside = at < tags.len() && !frames && belongs(bounds, at - begin, tag);
            let group = r.fix.group_for(r.definition.elements@, r.fix.field(tag)->0.id);
            let count = u32::parsed(value.bytes(r.msg.data));
            &&& at == tags.len() ==> here == Ok::<(int, Seq<Node>), ErrorView>((at, acc))
            &&& at < tags.len() && frames ==> here == r.elements(bounds, begin, at + 1, acc)
            &&& at < tags.len() && !frames && !belongs(bounds, at - begin, tag) ==> here == Ok::<
                (int, Seq<Node>),
                ErrorView,
            >((at, acc))
            &&& inside && kind == Some("NumInGroup"@) && (group is None || count is Err) ==> (
            here matches Err(ErrorView::InvalidMessage(_)))
            &&& inside && kind == Some("NumInGroup"@) && group is Some && count is Ok ==> match
            r.entries(&*group->0, count->Ok_0 as nat, at + 1) {
                Err(e) => here == Err::<(int, Seq<Node>), ErrorView>(e),
                Ok((next, entries)) => at < next <= tags.len() ==> here == r.elements(
                    bounds,
                    begin,
                    next,
                    acc.push(Node::Group(tag, entries)),
                ),
            }
            &&& inside && kind == Some("Length"@) && at + 1 == tags.len() ==> (
            here matches Err(ErrorView::InvalidMessage(_)))
            &&& inside && kind == Some("Length"@) && at + 1 < tags.len() ==> here == r.elements(
                bounds,
                begin,
                at + 2,
                acc.push(
                    Node::RawData(
                        tag,
                        tags[at + 1].0,
                        Typed::Data(tags[at + 1].1.bytes(r.msg.data)),
                    ),
                ),
            )
            &&& inside && kind != Some("NumInGroup"@) && kind != Some("Length"@) ==> here
                == r.elements(
                bounds,
                begin,
                at + 1,
                acc.push(
                    Node::Tag(
                        tag,
                        if r.fix.field(tag) is None {
                            Typed::String(value.shown(r.msg.data))
                        } else {
                            typed_of(r.fix, tag, value.shown(r.msg.data))
                        },
                    ),
                ),
            )
        }),
{
    reveal_strlit("Length");
    reveal_strlit("NumInGroup");
    assert("Length"@.len() != "NumInGroup"@.len());
}

/// How the entries of a group are taken: one behind the other, each as a run that
/// starts with whatever stands there and ends in front of the group's marker, or
/// of a field that is no member of the group.
pub proof fn law_how_entries_are_taken(r: Reading, group: &Group, n: nat, at: int)
    requires
        0 <= at <= r.msg.tags.len(),
        n > 0,
    ensures
        r.entries(group, 0, at) == Ok::<(int, Seq<Seq<Node>>), ErrorView>((at, Seq::empty())),
        ({
            let bounds = Bounds::Entry(group.members@, r.fix.marker(group.elements@));
            match r.elements(bounds, at, at, Seq::empty()) {
                Err(e) => r.entries(group, n, at) == Err::<(int, Seq<Seq<Node>>), ErrorView>(e),
                Ok((next, nodes)) => at <= next <= r.msg.tags.len() ==> match r.entries(
                    group,
                    (n - 1) as nat,
                    next,
                ) {
                    Err(e) => r.entries(group, n, at) == Err::<(int, Seq<Seq<Node>>), ErrorView>(
                        e,
                    ),
                    Ok((end, rest)) => r.entries(group, n, at) == Ok::<
                        (int, Seq<Seq<Node>>),
                        ErrorView,
                    >((end, seq![nodes] + rest)),
                },
            }
        }),
{
}

/// How a whole message is taken apart: its type has to be one that its version
/// defines, and the version has to define the header. The header starts with
/// BeginString and MsgType and takes the fields up to the first that is no header
/// field; the body takes the rest.
pub proof fn law_how_a_message_is_taken_apart(msg: MessageView)
    ensures
        ({
            let fix = msg.fix_version;
            let known = if msg.is_readable() {
                fix.messages.value(msg.msg_type())
            } else {
                None
            };
            match (known, fix.component_named("StandardHeader"@)) {
                (Some(definition), Some(header)) => {
                    let r = Reading { fix, definition: *definition, msg };
                    let start = seq![
                        Node::Tag(8, Typed::String(fix.begin_string@)),
                        Node::Tag(35, Typed::String(definition.msg_type@)),
                    ];
                    match r.elements(Bounds::Members(header.members@), 0, 0, start) {
                        Err(e) => taken_apart(msg) == Err::<BuilderView, ErrorView>(e),
                        Ok((at, top)) => match r.elements(Bounds::Open, at, at, Seq::empty()) {
                            Err(e) => taken_apart(msg) == Err::<BuilderView, ErrorView>(e),
                            Ok((_, body)) => taken_apart(msg) == Ok::<BuilderView, ErrorView>(
                                BuilderView {
                                    fix_message: *definition,
                                    fix_version: fix,
                                    header: top,
                                    body,
                                },
                            ),
                        },
                    }
                },
                _ => taken_apart(msg) matches Err(ErrorView::InvalidMessage(_)),
            }
        }),
{
}

// ---------------------------------------------------------------------------
// Putting together
// ---------------------------------------------------------------------------

/// How elements are flattened: a field is its tag and its text; a group is its
/// tag and the number of its entries, and the fields of the entries behind that;
/// raw data is its length under the one tag and its bytes under the other.
pub proof fn law_how_elements_are_flattened(
    tag: u32,
    other: u32,
    v: Typed,
    entries: Seq<Seq<Node>>,
    entry: Seq<Node>,
    only_set: bool,
)
    ensures
        flat_node(Node::Tag(tag, v), only_set) == seq![(tag, ValueView::String(v.text()))],
        flat_node(Node::RawData(tag, other, v), only_set) == seq![
            (tag, ValueView::String(decimal_text(v.raw().len()))),
            (other, ValueView::Data(v.raw())),
        ],
        flat_node(Node::Group(tag, entries), only_set) == seq![
            (tag, ValueView::String(decimal_text(entries.len()))),
        ] + flat_entries(entries, entries.len(), only_set),
        flat_entries(Seq::empty(), 0, only_set) == Seq::<(u32, ValueView)>::empty(),
        flat_entries(entries.push(entry), entries.len() + 1, only_set) == flat_entries(
            entries,
            entries.len(),
            only_set,
        ) + flat_nodes(entry, entry.len(), only_set),
{
    let all = entries.push(entry);
    lemma_same_entries(entries, all, entries.len(), only_set);
    assert(all[entries.len() as int] == entry);
}

proof fn lemma_same_entries(a: Seq<Seq<Node>>, b: Seq<Seq<Node>>, n: nat, only_set: bool)
    requires
        n <= a.len(),
        n <= b.len(),
        forall|i: int| 0 <= i < n ==> a[i] == b[i],
    ensures
        flat_entries(a, n, only_set) == flat_entries(b, n, only_set),
    decreases n,
{
    if n > 0 {
        lemma_same_entries(a, b, (n - 1) as nat, only_set);
    }
}

/// The element carries something: a value that is not empty, or an entry.
pub open spec fn carries(node: Node) -> bool {
    match node {
        Node::Tag(_, v) => v != Typed::Empty && v != Typed::String(Seq::empty()),
        Node::RawData(_, _, v) => v != Typed::Empty && v != Typed::String(Seq::empty()),
        Node::Group(_, entries) => entries.len() > 0,
    }
}

/// A block is flattened element by element. Where only what is set is asked for,
/// elements that carry nothing are left out, and where everything is, they are
/// not.
pub proof fn law_how_a_block_is_flattened(nodes: Seq<Node>, node: Node, only_set: bool)
    ensures
        flat_nodes(Seq::empty(), 0, only_set) == Seq::<(u32, ValueView)>::empty(),
        flat_nodes(nodes.push(node), nodes.len() + 1, only_set) == flat_nodes(
            nodes,
            nodes.len(),
            only_set,
        ) + (if only_set && !carries(node) {
            Seq::empty()
        } else {
            flat_node(node, only_set)
        }),
{
    let all = nodes.push(node);
    lemma_same_nodes(nodes, all, nodes.len(), only_set);
    assert(all[nodes.len() as int] == node);
    lemma_carries(node);
    assert(flat_nodes(all, nodes.len() + 1, only_set) =~= flat_nodes(nodes, nodes.len(), only_set)
        + (if only_set && !carries(node) {
        Seq::empty()
    } else {
        flat_node(node, only_set)
    }));
}

proof fn lemma_carries(node: Node)
    ensures
        node.is_set() <==> carries(node),
{
    assert forall|s: Seq<char>| #[trigger] s.len() == 0 implies s == Seq::<char>::empty() by {
        assert(s =~= Seq::<char>::empty());
    }
}

proof fn lemma_same_nodes(a: Seq<Node>, b: Seq<Node>, n: nat, only_set: bool)
    requires
        n <= a.len(),
        n <= b.len(),
        forall|i: int| 0 <= i < n ==> a[i] == b[i],
    ensures
        flat_nodes(a, n, only_set) == flat_nodes(b, n, only_set),
    decreases n,
{
    if n > 0 {
        lemma_same_nodes(a, b, (n - 1) as nat, only_set);
    }
}

/// The header comes before the body, and nothing else does.
pub proof fn law_how_a_message_is_flattened(m: BuilderView, only_set: bool)
    ensures
        m.flattened(only_set).tags == flat_nodes(m.header, m.header.len(), only_set)
            + flat_nodes(m.body, m.body.len(), only_set),
        m.flattened(only_set).fix_version == m.fix_version,
        m.flattened(only_set).data.len() == 0,
{
}

// ---------------------------------------------------------------------------
// Describing
// ---------------------------------------------------------------------------

/// How a message is described: one line per field that is set, as `tag=value`,
/// the header before the body. A group says its tag and its name, and lists its
/// entries one by one, each line with the group's tag and the entry's number in
/// front. Raw data says how long it is, and under which tag its length stands.
pub proof fn law_how_elements_are_described(
    fix: FixVersion,
    definition: Seq<MessageElement>,
    indent: Seq<char>,
    tag: u32,
    other: u32,
    v: Typed,
    entries: Seq<Seq<Node>>,
    entry: Seq<Node>,
)
    ensures
        node_lines(fix, definition, indent, Node::Tag(tag, v)) == indent + decimal_text(
            tag as nat,
        ) + "="@ + v.text() + "\n"@,
        node_lines(fix, definition, indent, Node::RawData(tag, other, v)) == indent + " "@
            + decimal_text(other as nat) + "="@ + (match v {
            Typed::Data(bytes) => "<"@ + decimal_text(bytes.len()) + " bytes>"@,
            _ => v.text(),
        }) + " ["@ + decimal_text(tag as nat) + "]\n"@,
        node_lines(fix, definition, indent, Node::Group(tag, entries)) == indent + "Group "@
            + decimal_text(tag as nat) + (match fix.group_for(definition, tag) {
            Some(g) => " ["@ + g.name@ + "]"@,
            None => ""@,
        }) + "\n"@ + entries_lines(fix, definition, indent, tag, entries, entries.len()),
        ({
            let all = entries.push(entry);
            let front = indent + "  "@ + decimal_text(tag as nat) + "["@ + decimal_text(
                entries.len(),
            ) + "]."@;
            entries_lines(fix, definition, indent, tag, all, all.len()) == entries_lines(
                fix,
                definition,
                indent,
                tag,
                entries,
                entries.len(),
            ) + block_lines(fix, definition, front, entry, entry.len())
        }),
{
    let all = entries.push(entry);
    lemma_same_lines(fix, definition, indent, tag, entries, all, entries.len());
    assert(all[entries.len() as int] == entry);
}

proof fn lemma_same_lines(
    fix: FixVersion,
    definition: Seq<MessageElement>,
    indent: Seq<char>,
    tag: u32,
    a: Seq<Seq<Node>>,
    b: Seq<Seq<Node>>,
    n: nat,
)
    requires
        n <= a.len(),
        n <= b.len(),
        forall|i: int| 0 <= i < n ==> a[i] == b[i],
    ensures
        entries_lines(fix, definition, indent, tag, a, n) == entries_lines(
            fix,
            definition,
            indent,
            tag,
            b,
            n,
        ),
    decreases n,
{
    if n > 0 {
        lemma_same_lines(fix, definition, indent, tag, a, b, (n - 1) as nat);
    }
}

/// A block is described element by element, as far as they carry something, and a
/// message as its header and its body.
pub proof fn law_how_a_block_is_described(
    fix: FixVersion,
    definition: Seq<MessageElement>,
    indent: Seq<char>,
    nodes: Seq<Node>,
    node: Node,
    m: BuilderView,
)
    ensures
        ({
            let all = nodes.push(node);
            block_lines(fix, definition, indent, all, all.len()) == block_lines(
                fix,
                definition,
                indent,
                nodes,
                nodes.len(),
            ) + (if carries(node) {
                node_lines(fix, definition, indent, node)
            } else {
                Seq::empty()
            })
        }),
        m.described() == block_lines(
            m.fix_version,
            m.fix_message.elements@,
            ""@,
            m.header,
            m.header.len(),
        ) + block_lines(m.fix_version, m.fix_message.elements@, ""@, m.body, m.body.len()),
{
    let all = nodes.push(node);
    lemma_same_described(fix, definition, indent, nodes, all, nodes.len());
    assert(all[nodes.len() as int] == node);
    lemma_carries(node);
    let before = block_lines(fix, definition, indent, nodes, nodes.len());
    assert(block_lines(fix, definition, indent, all, all.len()) =~= before + (if carries(node) {
        node_lines(fix, definition, indent, node)
    } else {
        Seq::empty()
    }));
}

proof fn lemma_same_described(
    fix: FixVersion,
    definition: Seq<MessageElement>,
    indent: Seq<char>,
    a: Seq<Node>,
    b: Seq<Node>,
    n: nat,
)
    requires
        n <= a.len(),
        n <= b.len(),
        forall|i: int| 0 <= i < n ==> a[i] == b[i],
    ensures
        block_lines(fix, definition, indent, a, n) == block_lines(
            fix,
            definition,
            indent,
            b,
            n,
        ),
    decreases n,
{
    if n > 0 {
        lemma_same_described(fix, definition, indent, a, b, (n - 1) as nat);
    }
}

/// What plain values become as fields: texts, numbers and flags stay what they are,
/// but that a `usize` past the signed range is taken modulo 2^64 into it.
pub proof fn law_what_plain_values_become(
    s: &'static str,
    t: String,
    a: i32,
    b: i64,
    c: u32,
    d: usize,
    e: Decimal,
    f: bool,
    v: TypedValue,
)
    ensures
        s.typed() == Typed::String(s@),
        t.typed() == Typed::String(t@),
        a.typed() == Typed::Int(a as int),
        b.typed() == Typed::Int(b as int),
        c.typed() == Typed::Int(c as int),
        d <= i64::MAX ==> d.typed() == Typed::Int(d as int),
        d > i64::MAX ==> d.typed() == Typed::Int(d - 0x1_0000_0000_0000_0000),
        e.typed() == Typed::Float(e@),
        f.typed() == Typed::Boolean(f),
        v.typed() == v@,
{
}

} // verus!
