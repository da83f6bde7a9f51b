//! Messages as a header and a body.

use std::sync::Arc;

use bytes::Bytes;
use vstd::prelude::*;
use vstd::slice::slice_to_vec;
use vstd::string::*;
use vstd::utf8::*;

use crate::buffer::bytes_slice;
use crate::builder::block::{blocks_nodes, blocks_wf, set_nodes, Block, Element, Node};
use crate::builder::value::{Typed, TypedValue};
use crate::error::{Error, ErrorView, Result};
use crate::message::{
    admin_type, first_tag, is_admin_type, is_framing, lemma_first_tag, tags_view, FixMessage,
    MessageView, TagValue, Tags, Value, ValueView,
};
use crate::repository::{self, Component, FieldBlock, FixVersion, Group};
use crate::text::{
    decimal_string, decimal_text, fraction_text, joined, push_decimal, text_eq, Decimal,
    ParseInteger,
};
use crate::wire::{parse, Scan};

verus! {

broadcast use vstd::string::group_string_axioms;

/// A message under construction, or one taken apart: typed fields by tag, in a
/// header and a body, with repeating groups as blocks of their own.
pub struct Message {
    pub fix_message: Arc<repository::Message>,
    pub fix_version: Arc<FixVersion>,
    pub header: Block,
    pub body: Block,
}

/// A [`Message`] by what it says.
pub ghost struct BuilderView {
    pub fix_message: repository::Message,
    pub fix_version: FixVersion,
    pub header: Seq<Node>,
    pub body: Seq<Node>,
}

impl View for Message {
    type V = BuilderView;

    open spec fn view(&self) -> BuilderView {
        BuilderView {
            fix_message: *self.fix_message,
            fix_version: *self.fix_version,
            header: self.header.nodes(),
            body: self.body.nodes(),
        }
    }
}

// ---------------------------------------------------------------------------
// Reading
// ---------------------------------------------------------------------------

pub open spec fn is_int_type(t: Seq<char>) -> bool {
    t == "int"@ || t == "SeqNum"@ || t == "NumInGroup"@ || t == "DayOfMonth"@ || t == "Length"@
}

pub open spec fn is_float_type(t: Seq<char>) -> bool {
    t == "float"@ || t == "Price"@ || t == "Amt"@ || t == "Qty"@ || t == "PriceOffset"@ || t
        == "Percentage"@
}

/// The typed value that a field of datatype `t` holds when it reads `text`.
pub open spec fn typed_as(t: Seq<char>, text: Seq<char>) -> Typed {
    if is_int_type(t) {
        match i64::parsed(encode_utf8(text)) {
            Ok(i) => Typed::Int(i as int),
            Err(_) => Typed::String(text),
        }
    } else if is_float_type(t) {
        match fraction_text(encode_utf8(text)) {
            Some(d) => Typed::Float(d),
            None => Typed::String(text),
        }
    } else if t == "Boolean"@ {
        if text == "Y"@ {
            Typed::Boolean(true)
        } else if text == "N"@ {
            Typed::Boolean(false)
        } else {
            Typed::String(text)
        }
    } else if t == "char"@ {
        Typed::Char(text[0])
    } else {
        Typed::String(text)
    }
}

/// The typed value that field `tag` holds when it reads `text`.
pub open spec fn typed_of(fix: FixVersion, tag: u32, text: Seq<char>) -> Typed {
    if text.len() == 0 {
        Typed::Empty
    } else {
        match fix.field_type(tag) {
            Some(t) => typed_as(t, text),
            None => Typed::String(text),
        }
    }
}

fn parse_typed_value(fix: &FixVersion, tag: u32, text: String) -> (r: TypedValue)
    ensures
        r@ == typed_of(*fix, tag, text@),
{
    if text.as_str().is_empty() {
        return TypedValue::Empty;
    }
    let field = match fix.get_field(tag) {
        Some(field) => field,
        None => {
            return TypedValue::String(text);
        },
    };
    let t = field.field_type.as_str();
    if text_eq(t, "int") || text_eq(t, "SeqNum") || text_eq(t, "NumInGroup") || text_eq(
        t,
        "DayOfMonth",
    ) || text_eq(t, "Length") {
        match i64::parse_integer(text.as_str().as_bytes()) {
            Ok(i) => TypedValue::Int(i),
            Err(_) => TypedValue::String(text),
        }
    } else if text_eq(t, "float") || text_eq(t, "Price") || text_eq(t, "Amt") || text_eq(t, "Qty")
        || text_eq(t, "PriceOffset") || text_eq(t, "Percentage") {
        match Decimal::parse(text.as_str()) {
            Some(d) => TypedValue::Float(d),
            None => TypedValue::String(text),
        }
    } else if text_eq(t, "Boolean") {
        if text_eq(text.as_str(), "Y") {
            TypedValue::Boolean(true)
        } else if text_eq(text.as_str(), "N") {
            TypedValue::Boolean(false)
        } else {
            TypedValue::String(text)
        }
    } else if text_eq(t, "char") {
        TypedValue::Char(text.as_str().get_char(0))
    } else {
        TypedValue::String(text)
    }
}

/// What a run of tags is read under.
pub ghost struct Reading {
    pub fix: FixVersion,
    pub definition: repository::Message,
    pub msg: MessageView,
}

/// Where a run of tags ends.
pub ghost enum Bounds {
    /// At the end of the message.
    Open,
    /// At the first tag, but for the very first, that is none of these.
    Members(Set<u32>),
    /// As an entry of a group: at the first tag that is none of its members, or
    /// at the tag that opens the next entry.
    Entry(Set<u32>, Option<u32>),
}

impl Bounds {
    /// `tag`, behind `seen` others, is beyond the run.
    pub open spec fn stops(self, seen: int, tag: u32) -> bool {
        match self {
            Bounds::Open => false,
            Bounds::Members(members) => seen > 0 && !members.contains(tag),
            Bounds::Entry(members, marker) => (seen > 0 && marker == Some(tag))
                || !members.contains(tag),
        }
    }
}

/// The bounds of an entry of this group.
pub open spec fn entry_bounds(fix: FixVersion, group: &Group) -> Bounds {
    Bounds::Entry(group.members@, fix.marker(group.elements@))
}

impl Reading {
    /// Read elements from position `at` of the tags on, behind those in `acc`;
    /// the run began at `begin`. Gives the position behind the run and the
    /// elements.
    ///
    /// BeginString, BodyLength, CheckSum and MsgType are passed over. A
    /// NumInGroup field is read with its entries, a Length field with the raw
    /// data behind it.
    pub open spec fn elements(
        self,
        bounds: Bounds,
        begin: int,
        at: int,
        acc: Seq<Node>,
    ) -> std::result::Result<(int, Seq<Node>), ErrorView>
        decreases self.msg.tags.len() - at, 0nat,
    {
        let tags = self.msg.tags;
        if at < 0 || at >= tags.len() {
            Ok((at, acc))
        } else {
            let (tag, value) = tags[at];
            if is_framing(tag) {
                self.elements(bounds, begin, at + 1, acc)
            } else if bounds.stops(at - begin, tag) {
                Ok((at, acc))
            } else if self.fix.field_type(tag) == Some("NumInGroup"@) {
                let id = self.fix.field(tag)->0.id;
                match self.fix.group_for(self.definition.elements@, id) {
                    None => Err(
                        ErrorView::InvalidMessage(
                            "Invalid group "@ + decimal_text(id as nat) + " in message "@
                                + self.definition.name@,
                        ),
                    ),
                    Some(group) => match u32::parsed(value.bytes(self.msg.data)) {
                        Err(e) => Err(ErrorView::bad_integer(e)),
                        Ok(n) => match self.entries(&*group, n as nat, at + 1) {
                            Err(e) => Err(e),
                            Ok((next, entries)) => if at < next <= tags.len() {
                                self.elements(
                                    bounds,
                                    begin,
                                    next,
                                    acc.push(Node::Group(tag, entries)),
                                )
                            } else {
                                arbitrary()
                            },
                        },
                    },
                }
            } else if self.fix.field_type(tag) == Some("Length"@) {
                if at + 1 >= tags.len() {
                    Err(ErrorView::InvalidMessage("Invalid length tag: No data tag"@))
                } else {
                    let (data_tag, data) = tags[at + 1];
                    self.elements(
                        bounds,
                        begin,
                        at + 2,
                        acc.push(
                            Node::RawData(tag, data_tag, Typed::Data(data.bytes(self.msg.data))),
                        ),
                    )
                }
            } else {
                let text = value.shown(self.msg.data);
                self.elements(
                    bounds,
                    begin,
                    at + 1,
                    acc.push(
                        Node::Tag(
                            tag,
                            // An unknown tag is assumed to be a basic string.
                            if self.fix.field(tag) is Some {
                                typed_of(self.fix, tag, text)
                            } else {
                                Typed::String(text)
                            },
                        ),
                    ),
                )
            }
        }
    }

    /// Read `n` entries of a group from position `at` on.
    pub open spec fn entries(self, group: &Group, n: nat, at: int) -> std::result::Result<
        (int, Seq<Seq<Node>>),
        ErrorView,
    >
        decreases self.msg.tags.len() - at, n + 1,
    {
        if n == 0 || at < 0 || at > self.msg.tags.len() {
            Ok((at, seq![]))
        } else {
            match self.elements(entry_bounds(self.fix, group), at, at, seq![]) {
                Err(e) => Err(e),
                Ok((next, nodes)) => if at <= next <= self.msg.tags.len() {
                    match self.entries(group, (n - 1) as nat, next) {
                        Err(e) => Err(e),
                        Ok((end, rest)) => Ok((end, seq![nodes] + rest)),
                    }
                } else {
                    arbitrary()
                },
            }
        }
    }
}

/// Reading only ever moves on, and no further than the end.
pub(crate) proof fn lemma_elements_bound(
    r: Reading,
    bounds: Bounds,
    begin: int,
    at: int,
    acc: Seq<Node>,
)
    requires
        0 <= at <= r.msg.tags.len(),
    ensures
        r.elements(bounds, begin, at, acc) matches Ok((next, _)) ==> at <= next
            <= r.msg.tags.len(),
    decreases r.msg.tags.len() - at, 0nat,
{
    let tags = r.msg.tags;
    if at < tags.len() {
        let (tag, value) = tags[at];
        if is_framing(tag) {
            lemma_elements_bound(r, bounds, begin, at + 1, acc);
        } else if bounds.stops(at - begin, tag) {
        } else if r.fix.field_type(tag) == Some("NumInGroup"@) {
            let id = r.fix.field(tag)->0.id;
            if let Some(group) = r.fix.group_for(r.definition.elements@, id) {
                if let Ok(n) = u32::parsed(value.bytes(r.msg.data)) {
                    lemma_entries_bound(r, &*group, n as nat, at + 1);
                    if let Ok((next, entries)) = r.entries(&*group, n as nat, at + 1) {
                        lemma_elements_bound(
                            r,
                            bounds,
                            begin,
                            next,
                            acc.push(Node::Group(tag, entries)),
                        );
                    }
                }
            }
        } else if r.fix.field_type(tag) == Some("Length"@) {
            if at + 1 < tags.len() {
                let (data_tag, data) = tags[at + 1];
                lemma_elements_bound(
                    r,
                    bounds,
                    begin,
                    at + 2,
                    acc.push(Node::RawData(tag, data_tag, Typed::Data(data.bytes(r.msg.data)))),
                );
            }
        } else {
            let text = value.shown(r.msg.data);
            lemma_elements_bound(
                r,
                bounds,
                begin,
                at + 1,
                acc.push(
                    Node::Tag(
                        tag,
                        if r.fix.field(tag) is Some {
                            typed_of(r.fix, tag, text)
                        } else {
                            Typed::String(text)
                        },
                    ),
                ),
            );
        }
    }
}

pub(crate) proof fn lemma_entries_bound(r: Reading, group: &Group, n: nat, at: int)
    requires
        0 <= at <= r.msg.tags.len(),
    ensures
        r.entries(group, n, at) matches Ok((next, _)) ==> at <= next <= r.msg.tags.len(),
    decreases r.msg.tags.len() - at, n + 1,
{
    if n > 0 {
        let bounds = entry_bounds(r.fix, group);
        lemma_elements_bound(r, bounds, at, at, seq![]);
        if let Ok((next, _)) = r.elements(bounds, at, at, seq![]) {
            lemma_entries_bound(r, group, (n - 1) as nat, next);
        }
    }
}

/// What taking `msg` apart gives: header and body.
pub open spec fn taken_apart(msg: MessageView) -> std::result::Result<BuilderView, ErrorView> {
    if msg.is_readable() {
        taken_apart_readable(msg)
    } else {
        Err(unreadable())
    }
}

/// A message that names bytes which are not there, or whose type is no text.
pub open spec fn unreadable() -> ErrorView {
    ErrorView::InvalidMessage("field cannot be read"@)
}

pub open spec fn taken_apart_readable(msg: MessageView) -> std::result::Result<
    BuilderView,
    ErrorView,
> {
    let fix = msg.fix_version;
    match fix.messages.value(msg.msg_type()) {
        None => Err(ErrorView::InvalidMessage("Invalid message type"@)),
        Some(definition) => match fix.component_named("StandardHeader"@) {
            None => Err(missing_header(fix)),
            Some(header) => {
                let r = Reading { fix, definition: *definition, msg };
                match r.elements(
                    Bounds::Members(header.members@),
                    0,
                    0,
                    new_header(fix, *definition),
                ) {
                    Err(e) => Err(e),
                    Ok((at, header_nodes)) => match r.elements(Bounds::Open, at, at, seq![]) {
                        Err(e) => Err(e),
                        Ok((_, body_nodes)) => Ok(
                            BuilderView {
                                fix_message: *definition,
                                fix_version: fix,
                                header: header_nodes,
                                body: body_nodes,
                            },
                        ),
                    },
                }
            },
        },
    }
}

/// What parsing `s` and taking the message apart gives.
pub open spec fn read_message(fix: FixVersion, s: Seq<u8>, delimiter: u8) -> std::result::Result<
    BuilderView,
    ErrorView,
> {
    match parse(fix, s, delimiter) {
        Scan::Bad(e) => Err(e),
        Scan::Fields(tags, _) => taken_apart(MessageView { fix_version: fix, data: s, tags }),
    }
}

/// A version without the component that every message starts with.
pub open spec fn missing_header(fix: FixVersion) -> ErrorView {
    ErrorView::InvalidMessage(
        "FIX version "@ + fix.begin_string@ + " does not define StandardHeader component"@,
    )
}

/// The header that every message starts from: BeginString and MsgType.
pub open spec fn new_header(fix: FixVersion, definition: repository::Message) -> Seq<Node> {
    seq![
        Node::Tag(8, Typed::String(fix.begin_string@)),
        Node::Tag(35, Typed::String(definition.msg_type@)),
    ]
}

pub(crate) fn missing_header_error(fix: &FixVersion) -> (r: Error)
    ensures
        r@ == missing_header(*fix),
{
    let mut text = joined("FIX version ", fix.begin_string.as_str());
    text.append(" does not define StandardHeader component");
    Error::invalid_message(text.as_str())
}

/// The part of a definition that a run of tags is bounded by.
enum Limit<'a> {
    Open,
    Header(&'a Component),
    Entry(&'a Group),
}

impl<'a> Limit<'a> {
    spec fn bounds(&self, fix: FixVersion) -> Bounds {
        match self {
            Limit::Open => Bounds::Open,
            Limit::Header(c) => Bounds::Members(c.members@),
            Limit::Entry(g) => entry_bounds(fix, *g),
        }
    }

    fn stops(&self, fix: &FixVersion, seen: usize, tag: u32) -> (r: bool)
        ensures
            r == self.bounds(*fix).stops(seen as int, tag),
    {
        match self {
            Limit::Open => false,
            Limit::Header(c) => seen > 0 && !c.is_member(fix, tag),
            Limit::Entry(g) => {
                (seen > 0 && (match g.marker_id(fix) {
                    Some(id) => id == tag,
                    None => false,
                })) || !g.is_member(fix, tag)
            },
        }
    }
}

fn read_elements(
    fix: &FixVersion,
    definition: &repository::Message,
    limit: &Limit<'_>,
    msg: &FixMessage,
    begin: usize,
    elements: &mut Block,
) -> (r: Result<usize>)
    requires
        begin <= msg.tags@.len(),
        msg@.in_range(),
        old(elements).wf(),
    ensures
        final(elements).wf(),
        ({
            let reading = Reading { fix: *fix, definition: *definition, msg: msg@ };
            match reading.elements(
                limit.bounds(*fix),
                begin as int,
                begin as int,
                old(elements).nodes(),
            ) {
                Ok((next, nodes)) => r matches Ok(n) && begin + n == next && next
                    <= msg.tags@.len() && final(elements).nodes() == nodes,
                Err(e) => r matches Err(err) && err@ == e,
            }
        }),
    decreases msg.tags@.len() - begin, 0nat,
{
    let data = bytes_slice(&msg.data);
    let ghost reading = Reading { fix: *fix, definition: *definition, msg: msg@ };
    let ghost bounds = limit.bounds(*fix);
    let ghost whole = reading.elements(
        bounds,
        begin as int,
        begin as int,
        elements.nodes(),
    );
    let mut at: usize = begin;
    while at < msg.tags.len()
        invariant
            begin <= at <= msg.tags@.len(),
            msg@.in_range(),
            data@ == msg@.data,
            elements.wf(),
            reading == (Reading { fix: *fix, definition: *definition, msg: msg@ }),
            bounds == limit.bounds(*fix),
            whole == reading.elements(
                limit.bounds(*fix),
                begin as int,
                begin as int,
                old(elements).nodes(),
            ),
            whole == reading.elements(bounds, begin as int, at as int, elements.nodes()),
        decreases msg.tags@.len() - at,
    {
        let tag: u32 = msg.tags[at].0;
        let value = &msg.tags[at].1;
        assert(msg@.tags[at as int] == (tag, value@));
        if tag == 8 || tag == 9 || tag == 10 || tag == 35 {
            at += 1;
            continue ;
        }
        if limit.stops(fix, at - begin, tag) {
            return Ok(at - begin);
        }
        if fix.has_type(tag, "NumInGroup") {
            let id: u32 = fix.get_field(tag).unwrap().id;
            let group = match fix.get_group_by_num_in_group_tag(definition, id) {
                Some(group) => group,
                None => {
                    let mut text = "Invalid group ".to_owned();
                    push_decimal(&mut text, id as u64);
                    text.append(" in message ");
                    text.append(definition.name.as_str());
                    return Err(Error::invalid_message(text.as_str()));
                },
            };
            let n: u32 = match u32::parse_integer(value.as_bytes(data)) {
                Ok(n) => n,
                Err(e) => {
                    return Err(Error::bad_integer(e));
                },
            };
            let (next, entries): (usize, Vec<Block>) = match read_entries(
                fix,
                definition,
                &group,
                msg,
                at + 1,
                n,
            ) {
                Ok(read) => read,
                Err(e) => {
                    return Err(e);
                },
            };
            elements.push(Element::group(tag, entries));
            at = next;
        } else if fix.has_type(tag, "Length") {
            if at + 1 >= msg.tags.len() {
                return Err(Error::invalid_message("Invalid length tag: No data tag"));
            }
            let data_tag: u32 = msg.tags[at + 1].0;
            assert(msg@.tags[at + 1].1.in_range(data@.len()));
            let bytes = slice_to_vec(msg.tags[at + 1].1.as_bytes(data));
            elements.push(Element::raw_data(tag, data_tag, TypedValue::Data(bytes)));
            at += 2;
        } else {
            let text = value.to_string(data);
            let known = fix.get_field(tag).is_some();
            let typed = if known {
                parse_typed_value(fix, tag, text)
            } else {
                TypedValue::String(text)
            };
            elements.push(Element::tag(tag, typed));
            at += 1;
        }
    }
    Ok(at - begin)
}

fn read_entries(
    fix: &FixVersion,
    definition: &repository::Message,
    group: &Group,
    msg: &FixMessage,
    from: usize,
    n: u32,
) -> (r: Result<(usize, Vec<Block>)>)
    requires
        from <= msg.tags@.len(),
        msg@.in_range(),
    ensures
        ({
            let reading = Reading { fix: *fix, definition: *definition, msg: msg@ };
            match reading.entries(group, n as nat, from as int) {
                Ok((next, entries)) => r matches Ok((end, blocks)) && end == next && from <= end
                    <= msg.tags@.len() && blocks_wf(blocks@) && blocks_nodes(blocks@) == entries,
                Err(e) => r matches Err(err) && err@ == e,
            }
        }),
    decreases msg.tags@.len() - from, 1nat,
{
    let ghost reading = Reading { fix: *fix, definition: *definition, msg: msg@ };
    let limit = Limit::Entry(group);
    let mut entries: Vec<Block> = Vec::new();
    let mut at: usize = from;
    let mut left: u32 = n;
    proof {
        assert(blocks_nodes(entries@) =~= seq![]);
        if let Ok((end, rest)) = reading.entries(group, n as nat, from as int) {
            assert(blocks_nodes(entries@) + rest =~= rest);
        }
    }
    while left > 0
        invariant
            from <= at <= msg.tags@.len(),
            left <= n,
            msg@.in_range(),
            blocks_wf(entries@),
            reading == (Reading { fix: *fix, definition: *definition, msg: msg@ }),
            limit.bounds(*fix) == entry_bounds(*fix, group),
            match reading.entries(group, left as nat, at as int) {
                Ok((end, rest)) => reading.entries(group, n as nat, from as int) == Ok::<
                    (int, Seq<Seq<Node>>),
                    ErrorView,
                >((end, blocks_nodes(entries@) + rest)),
                Err(e) => reading.entries(group, n as nat, from as int) == Err::<
                    (int, Seq<Seq<Node>>),
                    ErrorView,
                >(e),
            },
        decreases left,
    {
        let mut block = Block::new();
        proof {
            lemma_elements_bound(
                reading,
                entry_bounds(*fix, group),
                at as int,
                at as int,
                seq![],
            );
        }
        match read_elements(fix, definition, &limit, msg, at, &mut block) {
            Ok(consumed) => {
                let ghost before = entries@;
                let ghost nodes = block.nodes();
                entries.push(block);
                proof {
                    assert(blocks_nodes(entries@) =~= blocks_nodes(before).push(nodes));
                    if let Ok((end, rest)) = reading.entries(
                        group,
                        (left - 1) as nat,
                        at + consumed,
                    ) {
                        assert(blocks_nodes(before) + (seq![nodes] + rest) =~= blocks_nodes(
                            entries@,
                        ) + rest);
                    }
                }
                let count: usize = msg.tags.len();
                assert(at + consumed <= count);
                at = at + consumed;
            },
            Err(e) => {
                return Err(e);
            },
        }
        left -= 1;
    }
    assert(blocks_nodes(entries@) + seq![] =~= blocks_nodes(entries@));
    Ok((at, entries))
}

// ---------------------------------------------------------------------------
// Writing
// ---------------------------------------------------------------------------

/// The fields of an element, groups opened in place.
pub open spec fn flat_node(node: Node, only_set: bool) -> Tags
    decreases node,
{
    match node {
        Node::Tag(tag, v) => seq![(tag, ValueView::String(v.text()))],
        Node::Group(tag, entries) => seq![
            (tag, ValueView::String(decimal_text(entries.len()))),
        ] + flat_entries(entries, entries.len(), only_set),
        Node::RawData(len_tag, tag, v) => seq![
            (len_tag, ValueView::String(decimal_text(v.raw().len()))),
            (tag, ValueView::Data(v.raw())),
        ],
    }
}

/// The fields of the first `n` entries of a group.
pub open spec fn flat_entries(entries: Seq<Seq<Node>>, n: nat, only_set: bool) -> Tags
    decreases entries, n,
{
    if n == 0 || n > entries.len() {
        seq![]
    } else {
        flat_entries(entries, (n - 1) as nat, only_set) + flat_nodes(
            entries[n - 1],
            entries[n - 1].len(),
            only_set,
        )
    }
}

/// The fields of the first `n` elements of a block. Elements that carry nothing
/// are left out where `only_set` says so.
pub open spec fn flat_nodes(nodes: Seq<Node>, n: nat, only_set: bool) -> Tags
    decreases nodes, n,
{
    if n == 0 || n > nodes.len() {
        seq![]
    } else {
        let before = flat_nodes(nodes, (n - 1) as nat, only_set);
        if only_set && !nodes[n - 1].is_set() {
            before
        } else {
            before + flat_node(nodes[n - 1], only_set)
        }
    }
}

impl BuilderView {
    /// All fields of the message in order.
    pub open spec fn flat(self, only_set: bool) -> Tags {
        flat_nodes(self.header, self.header.len(), only_set) + flat_nodes(
            self.body,
            self.body.len(),
            only_set,
        )
    }

    /// The message as a flat list of fields.
    pub open spec fn flattened(self, only_set: bool) -> MessageView {
        MessageView {
            fix_version: self.fix_version,
            data: Seq::empty(),
            tags: self.flat(only_set),
        }
    }
}

/// The values in a flat form are owned: no buffer is needed to read them.
pub proof fn lemma_flat_owned(nodes: Seq<Node>, n: nat, only_set: bool)
    ensures
        forall|i: int|
            0 <= i < flat_nodes(nodes, n, only_set).len() ==> {
                let v = (#[trigger] flat_nodes(nodes, n, only_set)[i]).1;
                v is String || v is Data
            },
    decreases nodes, n,
{
    if 0 < n <= nodes.len() {
        lemma_flat_owned(nodes, (n - 1) as nat, only_set);
        let before = flat_nodes(nodes, (n - 1) as nat, only_set);
        let flat = flat_node(nodes[n - 1], only_set);
        assert forall|i: int| 0 <= i < flat.len() implies (#[trigger] flat[i]).1 is String
            || flat[i].1 is Data by {
            if let Node::Group(tag, entries) = nodes[n - 1] {
                lemma_flat_entries_owned(entries, entries.len(), only_set);
                if i > 0 {
                    assert(flat[i] == flat_entries(entries, entries.len(), only_set)[i - 1]);
                }
            }
        }
        let all = flat_nodes(nodes, n, only_set);
        assert forall|i: int| 0 <= i < all.len() implies {
            let v = (#[trigger] all[i]).1;
            v is String || v is Data
        } by {
            if i < before.len() {
                assert(all[i] == before[i]);
            } else {
                assert(all[i] == flat[i - before.len()]);
            }
        }
    }
}

proof fn lemma_flat_entries_owned(
    entries: Seq<Seq<Node>>,
    n: nat,
    only_set: bool,
)
    ensures
        forall|i: int|
            0 <= i < flat_entries(entries, n, only_set).len() ==> {
                let v = (#[trigger] flat_entries(entries, n, only_set)[i]).1;
                v is String || v is Data
            },
    decreases entries, n,
{
    if 0 < n <= entries.len() {
        lemma_flat_entries_owned(entries, (n - 1) as nat, only_set);
        lemma_flat_owned(entries[n - 1], entries[n - 1].len(), only_set);
        let before = flat_entries(entries, (n - 1) as nat, only_set);
        let last = flat_nodes(entries[n - 1], entries[n - 1].len(), only_set);
        let all = flat_entries(entries, n, only_set);
        assert forall|i: int| 0 <= i < all.len() implies {
            let v = (#[trigger] all[i]).1;
            v is String || v is Data
        } by {
            if i < before.len() {
                assert(all[i] == before[i]);
            } else {
                assert(all[i] == last[i - before.len()]);
            }
        }
    }
}

pub(crate) proof fn lemma_flat_prefix(nodes: Seq<Node>, k: nat, n: nat, only_set: bool)
    requires
        k <= n <= nodes.len(),
    ensures
        flat_nodes(nodes, k, only_set).len() <= flat_nodes(nodes, n, only_set).len(),
        forall|i: int|
            0 <= i < flat_nodes(nodes, k, only_set).len() ==> flat_nodes(nodes, n, only_set)[i]
                == #[trigger] flat_nodes(nodes, k, only_set)[i],
    decreases n,
{
    if k < n {
        lemma_flat_prefix(nodes, k, (n - 1) as nat, only_set);
        let before = flat_nodes(nodes, (n - 1) as nat, only_set);
        assert forall|i: int| 0 <= i < flat_nodes(nodes, k, only_set).len() implies flat_nodes(
            nodes,
            n,
            only_set,
        )[i] == #[trigger] flat_nodes(nodes, k, only_set)[i] by {
            assert(flat_nodes(nodes, n, only_set)[i] == before[i]);
        }
    }
}

/// MsgType comes second in the header, as it does in every new message, behind
/// nothing but text; and it is not left out.
pub open spec fn names_type(header: Seq<Node>, only_set: bool) -> bool {
    &&& header.len() >= 2
    &&& header[0] is Tag
    &&& header[1] is Tag && header[1].key() == 35
    &&& only_set ==> header[1].is_set()
}

/// A flat form can be read without a buffer, and its message type is text where
/// the header names it.
pub proof fn lemma_flattened_readable(m: BuilderView, only_set: bool)
    ensures
        m.flattened(only_set).in_range(),
        names_type(m.header, only_set) ==> m.flattened(only_set).is_readable(),
{
    let msg = m.flattened(only_set);
    let h = flat_nodes(m.header, m.header.len(), only_set);
    let b = flat_nodes(m.body, m.body.len(), only_set);
    lemma_flat_owned(m.header, m.header.len(), only_set);
    lemma_flat_owned(m.body, m.body.len(), only_set);
    assert forall|i: int| 0 <= i < msg.tags.len() implies (#[trigger] msg.tags[i]).1.in_range(
        msg.data.len(),
    ) by {
        if i < h.len() {
            assert(msg.tags[i] == h[i]);
        } else {
            assert(msg.tags[i] == b[i - h.len()]);
        }
    }
    if names_type(m.header, only_set) {
        let front = flat_nodes(m.header, 2, only_set);
        lemma_flat_prefix(m.header, 2, m.header.len(), only_set);
        reveal_with_fuel(flat_nodes, 3);
        let one = flat_nodes(m.header, 1, only_set);
        assert(flat_nodes(m.header, 0, only_set) =~= seq![]);
        assert(one.len() <= 1 && (one.len() == 1 ==> one[0].1 is String));
        assert(front == one + flat_node(m.header[1], only_set));
        let k = one.len() as int;
        assert(front[k].0 == 35);
        assert(msg.tags[k] == h[k] && h[k] == front[k]);
        lemma_first_tag(msg.tags, 35, 0);
        let p = first_tag(msg.tags, 35, 0);
        assert(p <= k);
        assert(msg.tags[p] == h[p] && h[p] == front[p]);
        assert(front[p].1 is String);
    }
}

fn flatten(block: &Block, only_set: bool, out: &mut Vec<TagValue>)
    requires
        block.wf(),
    ensures
        tags_view(final(out)@) == tags_view(old(out)@) + flat_nodes(
            block.nodes(),
            block.nodes().len(),
            only_set,
        ),
    decreases block.nodes(), 1nat,
{
    let mut i: usize = 0;
    let n: usize = block.len();
    assert(tags_view(out@) =~= tags_view(old(out)@) + flat_nodes(block.nodes(), 0, only_set));
    while i < n
        invariant
            block.wf(),
            n == block.nodes().len(),
            i <= n,
            tags_view(out@) == tags_view(old(out)@) + flat_nodes(
                block.nodes(),
                i as nat,
                only_set,
            ),
        decreases n - i,
    {
        let element = block.element(i);
        let ghost before = tags_view(out@);
        if !only_set || element.is_set() {
            flatten_element(element, only_set, out);
        }
        i += 1;
        assert(tags_view(out@) =~= tags_view(old(out)@) + flat_nodes(
            block.nodes(),
            i as nat,
            only_set,
        ));
    }
}

fn push_tag_value(out: &mut Vec<TagValue>, tag: u32, value: Value)
    ensures
        tags_view(final(out)@) == tags_view(old(out)@).push((tag, value@)),
{
    out.push((tag, value));
    assert(tags_view(out@) =~= tags_view(old(out)@).push((tag, value@)));
}

fn flatten_element(element: &Element, only_set: bool, out: &mut Vec<TagValue>)
    requires
        element.wf(),
    ensures
        tags_view(final(out)@) == tags_view(old(out)@) + flat_node(element.node(), only_set),
    decreases element.node(), 0nat,
{
    let ghost before = tags_view(out@);
    match element {
        Element::Tag((tag, v)) => {
            proof {
                element.lemma_node();
            }
            push_tag_value(out, *tag, Value::String(v.as_string()));
            assert(tags_view(out@) =~= before + flat_node(element.node(), only_set));
        },
        Element::Group(tag, entries) => {
            proof {
                element.lemma_node();
            }
            push_tag_value(out, *tag, Value::String(decimal_string(entries.len() as u64)));
            let ghost nodes = blocks_nodes(entries@);
            let ghost start = tags_view(out@);
            assert(start =~= before + seq![
                (*tag, ValueView::String(decimal_text(nodes.len()))),
            ]);
            let mut i: usize = 0;
            assert(start =~= start + flat_entries(nodes, 0, only_set));
            while i < entries.len()
                invariant
                    i <= entries@.len(),
                    blocks_wf(entries@),
                    nodes == blocks_nodes(entries@),
                    element.node() == Node::Group(*tag, nodes),
                    tags_view(out@) == start + flat_entries(nodes, i as nat, only_set),
                decreases entries@.len() - i,
            {
                assert(nodes[i as int] == entries@[i as int].nodes());
                assert(element.node()->Group_1 == nodes);
                assert(decreases_to!(element.node() => element.node()->Group_1));
                assert(decreases_to!(nodes => nodes[i as int]));
                flatten(&entries[i], only_set, out);
                i += 1;
                assert(tags_view(out@) =~= start + flat_entries(nodes, i as nat, only_set));
            }
            assert(tags_view(out@) =~= before + flat_node(element.node(), only_set));
        },
        Element::RawDataTag(len_tag, tag, v) => {
            proof {
                element.lemma_node();
            }
            let bytes = v.clone().into_raw();
            push_tag_value(out, *len_tag, Value::String(decimal_string(bytes.len() as u64)));
            push_tag_value(out, *tag, Value::Data(bytes));
            assert(tags_view(out@) =~= before + flat_node(element.node(), only_set));
        },
    }
}

impl Message {
    /// Header and body are in order.
    pub open spec fn wf(&self) -> bool {
        self.header.wf() && self.body.wf()
    }

    pub fn is_admin_message(&self) -> (r: bool)
        ensures
            r == admin_type(self@.fix_message.msg_type@),
    {
        is_admin_type(self.fix_message.msg_type.as_str())
    }

    /// A message of this type, with BeginString and MsgType set. A type that
    /// the version does not define is an error.
    pub fn new(repo: Arc<FixVersion>, msg_type: &str) -> (r: Result<Self>)
        ensures
            match repo.messages.value(msg_type@) {
                Some(definition) => r matches Ok(m) && m.wf() && m.fix_version == repo
                    && m.fix_message == definition && m@.header == new_header(*repo, *definition)
                    && m@.body == Seq::<Node>::empty(),
                None => r matches Err(e) && e@ == ErrorView::InvalidMessage(
                    "Invalid message type"@,
                ),
            },
    {
        match repo.get_message(msg_type) {
            None => Err(Error::invalid_message("Invalid message type")),
            Some(definition) => {
                let mut header = Block::new();
                header.push(Element::tag(8, TypedValue::String(repo.begin_string.clone())));
                header.push(Element::tag(35, TypedValue::String(definition.msg_type.clone())));
                assert(header.nodes() =~= new_header(*repo, *definition));
                Ok(
                    Message {
                        fix_message: definition,
                        fix_version: repo,
                        header,
                        body: Block::new(),
                    },
                )
            },
        }
    }

    /// Parse from borrowed slice (convenience wrapper, copies data)
    pub fn from_bytes(fix: Arc<FixVersion>, s: &[u8]) -> (r: std::result::Result<Self, Error>)
        ensures
            match read_message(*fix, s@, 1) {
                Ok(v) => r matches Ok(m) && m.wf() && m@ == v,
                Err(e) => r matches Err(err) && err@ == e,
            },
    {
        Self::from_bytes_delimited(fix, s, 1)
    }

    /// Parse from borrowed slice with delimiter (convenience wrapper, copies
    /// data)
    pub fn from_bytes_delimited(fix: Arc<FixVersion>, s: &[u8], delimiter: u8) -> (r:
        std::result::Result<Self, Error>)
        ensures
            match read_message(*fix, s@, delimiter) {
                Ok(v) => r matches Ok(m) && m.wf() && m@ == v,
                Err(e) => r matches Err(err) && err@ == e,
            },
    {
        match FixMessage::from_bytes_delimited(fix, Bytes::copy_from_slice(s), delimiter) {
            Ok((msg, _)) => Self::from_message(&msg),
            Err(e) => Err(e),
        }
    }

    /// Take a flat message apart into typed fields and groups.
    pub fn from_message(msg: &FixMessage) -> (r: std::result::Result<Self, Error>)
        ensures
            match taken_apart(msg@) {
                Ok(v) => r matches Ok(m) && m.wf() && m@ == v && m.fix_version
                    == msg.fix_version,
                Err(e) => r matches Err(err) && err@ == e,
            },
    {
        if !msg.readable() {
            return Err(Error::invalid_message("field cannot be read"));
        }
        let fix = &msg.fix_version;
        let mut message = match Message::new(fix.clone(), msg.get_type()) {
            Ok(m) => m,
            Err(e) => {
                return Err(e);
            },
        };
        let header = match fix.get_component_by_name("StandardHeader") {
            Some(c) => c,
            None => {
                return Err(missing_header_error(fix));
            },
        };
        let definition = message.fix_message.clone();
        let limit = Limit::Header(&header);
        let at: usize = match read_elements(
            fix,
            &definition,
            &limit,
            msg,
            0,
            &mut message.header,
        ) {
            Ok(n) => n,
            Err(e) => {
                return Err(e);
            },
        };
        let limit = Limit::Open;
        match read_elements(fix, &definition, &limit, msg, at, &mut message.body) {
            Ok(_) => Ok(message),
            Err(e) => Err(e),
        }
    }

    /// The message as a flat list of fields, unset ones included.
    pub fn as_message(&self) -> (r: std::result::Result<FixMessage, Error>)
        requires
            self.wf(),
        ensures
            r matches Ok(m) && m@ == self@.flattened(false) && m.fix_version == self.fix_version
                && m@.in_range() && (names_type(self@.header, false) ==> m@.is_readable()),
    {
        let mut msg = FixMessage::new(self.fix_version.clone());
        assert(tags_view(msg.tags@) =~= seq![]);
        flatten(&self.header, false, &mut msg.tags);
        flatten(&self.body, false, &mut msg.tags);
        assert(msg@.tags =~= self@.flat(false));
        assert(msg@.data =~= Seq::<u8>::empty());
        proof {
            lemma_flattened_readable(self@, false);
        }
        Ok(msg)
    }

    /// The message as a flat list of the fields that are set.
    pub fn into_message(self) -> (r: std::result::Result<FixMessage, Error>)
        requires
            self.wf(),
        ensures
            r matches Ok(m) && m@ == self@.flattened(true) && m.fix_version == self.fix_version
                && m@.in_range() && (names_type(self@.header, true) ==> m@.is_readable()),
    {
        let mut msg = FixMessage::new(self.fix_version.clone());
        assert(tags_view(msg.tags@) =~= seq![]);
        flatten(&self.header, true, &mut msg.tags);
        flatten(&self.body, true, &mut msg.tags);
        assert(msg@.tags =~= self@.flat(true));
        assert(msg@.data =~= Seq::<u8>::empty());
        proof {
            lemma_flattened_readable(self@, true);
        }
        Ok(msg)
    }

    /// The elements that carry something, header first.
    pub fn iter(&self) -> (r: Vec<&Element>)
        ensures
            r@.map_values(|e: &Element| e.node()) == set_nodes(
                self@.header,
                self@.header.len(),
            ) + set_nodes(self@.body, self@.body.len()),
    {
        let mut r = self.header.iter();
        let mut body = self.body.iter();
        let ghost h = r@;
        let ghost b = body@;
        r.append(&mut body);
        assert(r@.map_values(|e: &Element| e.node()) =~= h.map_values(|e: &Element| e.node())
            + b.map_values(|e: &Element| e.node()));
        r
    }

    /// Another message that says the same.
    pub fn duplicate(&self) -> (r: Message)
        requires
            self.wf(),
        ensures
            r.wf(),
            r@ == self@,
            r.fix_version == self.fix_version,
            r.fix_message == self.fix_message,
    {
        Message {
            fix_message: self.fix_message.clone(),
            fix_version: self.fix_version.clone(),
            header: self.header.duplicate(),
            body: self.body.duplicate(),
        }
    }
}

} // verus!
