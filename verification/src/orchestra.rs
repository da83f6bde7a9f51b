//! Loading FIX Orchestra documents.

use std::collections::HashSet;
use std::sync::Arc;

use vstd::prelude::*;
use vstd::string::*;
use vstd::utf8::*;

use crate::error::{FixRepoError, FixRepoErrorView};
use crate::names::NameMap;
use crate::repository::{
    codes_view, Block, BlockView, Component, ComponentRef, ComponentView, DefinitionView,
    EnumValue, EnumView, Field, FieldRef, FieldView, FixRepository, FixVersion, Group, GroupRef,
    GroupView, Message, MessageElement, VersionView,
};
use crate::text::{joined, shown_text, text_eq, text_of, utf8_lossy, ParseInteger};
use crate::xml::{
    attribute_view, attributes_of, events_left, name_of, next_event, open_xml, tag_view,
    unescape_value, unescaped, xml_events, XmlEvent, XmlEventView, XmlTagView,
};

verus! {

broadcast use vstd::std_specs::hash::group_hash_axioms;

// ---------------------------------------------------------------------------
// What an element does
// ---------------------------------------------------------------------------

/// The attributes of an element.
pub type Attributes = Map<Seq<char>, Seq<char>>;

pub open spec fn attributes_view(attrs: NameMap<String>) -> Attributes {
    Map::new(
        |k: Seq<char>| attrs.value(k) is Some,
        |k: Seq<char>| attrs.value(k)->0@,
    )
}

pub open spec fn text_attr(attrs: Attributes, key: Seq<char>) -> Option<Seq<char>> {
    if attrs.dom().contains(key) {
        Some(attrs[key])
    } else {
        None
    }
}

/// The attribute `id`, where it is a number.
pub open spec fn id_attr(attrs: Attributes) -> Option<u32> {
    match text_attr(attrs, "id"@) {
        Some(t) => match u32::parsed(encode_utf8(t)) {
            Ok(n) => Some(n),
            Err(_) => None,
        },
        None => None,
    }
}

/// The attribute `sort`, where it is a number, else 0.
pub open spec fn sort_attr(attrs: Attributes) -> u32 {
    match text_attr(attrs, "sort"@) {
        Some(t) => match u32::parsed(encode_utf8(t)) {
            Ok(n) => n,
            Err(_) => 0,
        },
        None => 0,
    }
}

pub open spec fn required_attr(attrs: Attributes) -> bool {
    text_attr(attrs, "presence"@) == Some("required"@)
}

/// In FIX Orchestra-land, there are only FIX 4.2, FIX 4.4 and FIX 5.0
/// (various), which uses FIXT session protocol.
pub open spec fn begin_string_of(version: Seq<char>) -> Seq<char> {
    if version == "FIX.4.2"@ {
        "FIX.4.2"@
    } else if version == "FIX.4.4"@ {
        "FIX.4.4"@
    } else {
        "FIXT.1.1"@
    }
}

/// The first `n` codes by their sort number; equals stay in order.
pub open spec fn sorted_codes(codes: Seq<EnumView>, n: nat) -> Seq<EnumView>
    decreases n,
{
    if n == 0 {
        seq![]
    } else {
        let before = sorted_codes(codes, (n - 1) as nat);
        before.insert(code_place(before, codes[n - 1].sort, before.len()), codes[n - 1])
    }
}

/// The number of the first `n` codes that a new one goes behind.
pub open spec fn code_place(sorted: Seq<EnumView>, sort: u32, n: nat) -> int
    decreases n,
{
    if n == 0 {
        0
    } else if sorted[n - 1].sort <= sort {
        n as int
    } else {
        code_place(sorted, sort, (n - 1) as nat)
    }
}

/// Codes come out in the order of their sort numbers, none added or dropped.
pub proof fn law_codes_sorted(codes: Seq<EnumView>, n: nat)
    requires
        n <= codes.len(),
    ensures
        sorted_codes(codes, n).len() == n,
        forall|i: int, j: int|
            0 <= i < j < n ==> (#[trigger] sorted_codes(codes, n)[i]).sort <= (
            #[trigger] sorted_codes(codes, n)[j]).sort,
        sorted_codes(codes, n).to_multiset() == codes.take(n as int).to_multiset(),
    decreases n,
{
    broadcast use vstd::seq_lib::group_to_multiset_ensures;

    if n == 0 {
        assert(codes.take(0) =~= seq![]);
    } else {
        law_codes_sorted(codes, (n - 1) as nat);
        let before = sorted_codes(codes, (n - 1) as nat);
        let code = codes[n - 1];
        let p = code_place(before, code.sort, before.len());
        lemma_code_place(before, code.sort, before.len());
        let after = before.insert(p, code);
        assert forall|i: int, j: int| 0 <= i < j < n implies (#[trigger] after[i]).sort <= (
        #[trigger] after[j]).sort by {
            if i == p {
                assert(after[j] == before[j - 1]);
            } else if j == p {
                assert(after[i] == before[i]);
                if i < p - 1 {
                    assert(before[i].sort <= before[p - 1].sort);
                }
            } else {
                let a = if i < p {
                    i
                } else {
                    i - 1
                };
                let b = if j < p {
                    j
                } else {
                    j - 1
                };
                assert(after[i] == before[a] && after[j] == before[b]);
            }
        }
        vstd::seq_lib::to_multiset_insert(before, p, code);
        assert(codes.take(n as int) =~= codes.take(n - 1).push(code));
    }
}

pub(crate) proof fn lemma_code_place(sorted: Seq<EnumView>, sort: u32, n: nat)
    requires
        n <= sorted.len(),
    ensures
        0 <= code_place(sorted, sort, n) <= n,
        code_place(sorted, sort, n) > 0 ==> sorted[code_place(sorted, sort, n) - 1].sort <= sort,
        forall|k: int| code_place(sorted, sort, n) <= k < n ==> (#[trigger] sorted[k]).sort > sort,
    decreases n,
{
    if n > 0 && sorted[n - 1].sort > sort {
        lemma_code_place(sorted, sort, (n - 1) as nat);
    }
}

/// What a parser has read so far.
pub ghost struct ParserView {
    pub versions: Map<Seq<char>, VersionView>,
    pub current: VersionView,
    pub field: Option<FieldView>,
    pub message: Option<DefinitionView>,
    pub group: Option<GroupView>,
    pub codeset: Option<(Seq<char>, Seq<EnumView>)>,
    pub blocks: Seq<BlockView>,
}

pub type Parsed = std::result::Result<ParserView, FixRepoErrorView>;

pub open spec fn parse_error(text: Seq<char>) -> Parsed {
    Err(FixRepoErrorView::ParseError(text))
}

/// An element lacks an attribute, or its value is not what it should be.
pub open spec fn missing(key: Seq<char>, element: Seq<char>) -> Parsed {
    parse_error("Missing attribute "@ + key + " in "@ + element)
}

impl ParserView {
    /// Nothing read yet.
    pub open spec fn initial() -> ParserView {
        ParserView {
            versions: Map::empty(),
            current: VersionView::empty(),
            field: None,
            message: None,
            group: None,
            codeset: None,
            blocks: seq![],
        }
    }

    /// Add an element to the innermost block that is open, else to the message.
    pub open spec fn with_element(self, element: MessageElement, what: Seq<char>) -> Parsed {
        if self.blocks.len() > 0 {
            let block = match self.blocks.last() {
                BlockView::Group(g) => BlockView::Group(
                    GroupView { elements: g.elements.push(element), ..g },
                ),
                BlockView::Component(c) => BlockView::Component(
                    ComponentView { elements: c.elements.push(element), ..c },
                ),
            };
            Ok(ParserView { blocks: self.blocks.drop_last().push(block), ..self })
        } else {
            match self.message {
                Some(m) => Ok(
                    ParserView {
                        message: Some(DefinitionView { elements: m.elements.push(element), ..m }),
                        ..self
                    },
                ),
                None => parse_error(what + " without a group, component, or message"@),
            }
        }
    }

    /// What the start of an element does.
    pub open spec fn start(self, name: Seq<char>, attrs: Attributes) -> Parsed {
        let text = |key: Seq<char>| text_attr(attrs, key);
        if name == "fixr:repository"@ {
            match (text("version"@), text("name"@)) {
                (None, _) => missing("version"@, name),
                (_, None) => missing("name"@, name),
                (Some(version), Some(title)) => Ok(
                    ParserView {
                        current: VersionView {
                            name: title,
                            begin_string: begin_string_of(version),
                            version,
                            ..VersionView::empty()
                        },
                        ..self
                    },
                ),
            }
        } else if name == "fixr:field"@ {
            match (id_attr(attrs), text("name"@), text("type"@)) {
                (None, _, _) => missing("id"@, name),
                (_, None, _) => missing("name"@, name),
                (_, _, None) => missing("type"@, name),
                (Some(id), Some(title), Some(field_type)) => Ok(
                    ParserView {
                        field: Some(FieldView { id, name: title, field_type }),
                        ..self
                    },
                ),
            }
        } else if name == "fixr:codeSet"@ {
            match text("name"@) {
                None => missing("name"@, name),
                Some(title) => Ok(ParserView { codeset: Some((title, seq![])), ..self }),
            }
        } else if name == "fixr:code"@ {
            match (text("value"@), text("name"@), self.codeset) {
                (None, _, _) => missing("value"@, name),
                (_, None, _) => missing("name"@, name),
                (_, _, None) => parse_error("Code without a codeset"@),
                (Some(value), Some(title), Some((set, codes))) => Ok(
                    ParserView {
                        codeset: Some(
                            (
                                set,
                                codes.push(
                                    EnumView { value, name: title, sort: sort_attr(attrs) },
                                ),
                            ),
                        ),
                        ..self
                    },
                ),
            }
        } else if name == "fixr:component"@ {
            match (id_attr(attrs), text("name"@)) {
                (None, _) => missing("id"@, name),
                (_, None) => missing("name"@, name),
                (Some(id), Some(title)) => Ok(
                    ParserView {
                        blocks: self.blocks.push(
                            BlockView::Component(
                                ComponentView {
                                    id,
                                    name: title,
                                    category: text("category"@),
                                    elements: seq![],
                                    members: Set::empty(),
                                },
                            ),
                        ),
                        ..self
                    },
                ),
            }
        } else if name == "fixr:group"@ {
            match (id_attr(attrs), text("name"@)) {
                (None, _) => missing("id"@, name),
                (_, None) => missing("name"@, name),
                (Some(id), Some(title)) => Ok(
                    ParserView {
                        group: Some(
                            GroupView {
                                id,
                                name: title,
                                required: false,
                                num_in_group_tag: 0,
                                elements: seq![],
                                members: Set::empty(),
                            },
                        ),
                        ..self
                    },
                ),
            }
        } else if name == "fixr:numInGroup"@ {
            match (self.group, id_attr(attrs)) {
                (None, _) => parse_error("NumInGroup without a group"@),
                (_, None) => missing("id"@, name),
                (Some(group), Some(id)) => Ok(
                    ParserView {
                        group: None,
                        blocks: self.blocks.push(
                            BlockView::Group(GroupView { num_in_group_tag: id, ..group }),
                        ),
                        ..self
                    },
                ),
            }
        } else if name == "fixr:message"@ {
            match (text("name"@), text("msgType"@)) {
                (None, _) => missing("name"@, name),
                (_, None) => missing("msgType"@, name),
                (Some(title), Some(msg_type)) => Ok(
                    ParserView {
                        message: Some(
                            DefinitionView {
                                name: title,
                                msg_type,
                                category: text("category"@),
                                description: None,
                                elements: seq![],
                            },
                        ),
                        ..self
                    },
                ),
            }
        } else if name == "fixr:fieldRef"@ {
            match id_attr(attrs) {
                None => missing("id"@, name),
                Some(id) => self.with_element(
                    MessageElement::Field(
                        FieldRef { field_id: id, required: required_attr(attrs) },
                    ),
                    "FieldRef"@,
                ),
            }
        } else if name == "fixr:groupRef"@ {
            match id_attr(attrs) {
                None => missing("id"@, name),
                Some(id) => self.with_element(
                    MessageElement::Group(
                        GroupRef { group_id: id, required: required_attr(attrs) },
                    ),
                    "GroupRef"@,
                ),
            }
        } else if name == "fixr:componentRef"@ {
            match id_attr(attrs) {
                None => missing("id"@, name),
                Some(id) => self.with_element(
                    MessageElement::Component(
                        ComponentRef { component_id: id, required: required_attr(attrs) },
                    ),
                    "ComponentRef"@,
                ),
            }
        } else {
            Ok(self)
        }
    }

    /// What the end of an element does.
    pub open spec fn end(self, name: Seq<char>) -> Parsed {
        if name == "fixr:repository"@ {
            Ok(
                ParserView {
                    versions: self.versions.insert(self.current.name, self.current.completed()),
                    current: VersionView::empty(),
                    ..self
                },
            )
        } else if name == "fixr:field"@ {
            match self.field {
                None => parse_error("Unexpected end of field"@),
                Some(field) => Ok(
                    ParserView {
                        field: None,
                        current: VersionView {
                            fields: self.current.fields.insert(field.id, field),
                            ..self.current
                        },
                        ..self
                    },
                ),
            }
        } else if name == "fixr:codeSet"@ {
            match self.codeset {
                None => parse_error("Unexpected end of codeset"@),
                Some((set, codes)) => Ok(
                    ParserView {
                        codeset: None,
                        current: VersionView {
                            codesets: self.current.codesets.insert(
                                set,
                                sorted_codes(codes, codes.len()),
                            ),
                            ..self.current
                        },
                        ..self
                    },
                ),
            }
        } else if name == "fixr:group"@ {
            if self.blocks.len() > 0 && self.blocks.last() is Group {
                let group = self.blocks.last()->Group_0;
                Ok(
                    ParserView {
                        blocks: self.blocks.drop_last(),
                        current: VersionView {
                            groups: self.current.groups.insert(group.id, group),
                            ..self.current
                        },
                        ..self
                    },
                )
            } else {
                parse_error("Unexpected end of group"@)
            }
        } else if name == "fixr:component"@ {
            if self.blocks.len() > 0 && self.blocks.last() is Component {
                let component = self.blocks.last()->Component_0;
                Ok(
                    ParserView {
                        blocks: self.blocks.drop_last(),
                        current: VersionView {
                            components: self.current.components.insert(component.id, component),
                            ..self.current
                        },
                        ..self
                    },
                )
            } else {
                parse_error("Unexpected end of component"@)
            }
        } else if name == "fixr:message"@ {
            match self.message {
                None => parse_error("Unexpected end of message"@),
                Some(message) => Ok(
                    ParserView {
                        message: None,
                        current: VersionView {
                            messages: self.current.messages.insert(message.msg_type, message),
                            ..self.current
                        },
                        ..self
                    },
                ),
            }
        } else {
            Ok(self)
        }
    }

    /// The state that the start of an element leaves. One that is refused
    /// changes nothing.
    pub open spec fn after_start(self, name: Seq<char>, attrs: Attributes) -> ParserView {
        match self.start(name, attrs) {
            Ok(p) => p,
            Err(_) => self,
        }
    }

    /// The state that the end of an element leaves. One that is refused changes
    /// nothing, but that a block of the other kind is closed by the end of a
    /// group or a component.
    pub open spec fn after_end(self, name: Seq<char>) -> ParserView {
        match self.end(name) {
            Ok(p) => p,
            Err(_) => if (name == "fixr:group"@ || name == "fixr:component"@) && self.blocks.len()
                > 0 {
                ParserView { blocks: self.blocks.drop_last(), ..self }
            } else {
                self
            },
        }
    }

    /// The state that an event leaves.
    pub open spec fn after_event(self, event: XmlEventView) -> ParserView {
        match event {
            XmlEventView::Start(tag) => self.after_start(
                shown_text(tag.name),
                attributes_in(tag, tag.attributes.len()),
            ),
            XmlEventView::End(name) => self.after_end(shown_text(name)),
            XmlEventView::Empty(tag) => match self.start(
                shown_text(tag.name),
                attributes_in(tag, tag.attributes.len()),
            ) {
                Ok(p) => p.after_end(shown_text(tag.name)),
                Err(_) => self,
            },
            _ => self,
        }
    }

    /// The state that a run of events leaves.
    pub open spec fn after_events(self, events: Seq<XmlEventView>) -> ParserView
        decreases events.len(),
    {
        if events.len() == 0 {
            self
        } else if self.event(events[0]) is Err {
            self.after_event(events[0])
        } else {
            self.after_event(events[0]).after_events(events.drop_first())
        }
    }

    /// What one event does.
    pub open spec fn event(self, event: XmlEventView) -> Parsed {
        match event {
            XmlEventView::Start(tag) => self.start(
                shown_text(tag.name),
                attributes_in(tag, tag.attributes.len()),
            ),
            XmlEventView::End(name) => self.end(shown_text(name)),
            XmlEventView::Empty(tag) => match self.start(
                shown_text(tag.name),
                attributes_in(tag, tag.attributes.len()),
            ) {
                Ok(p) => p.end(shown_text(tag.name)),
                Err(e) => Err(e),
            },
            // What the text says is of no interest, but it has to be text.
            XmlEventView::Text(raw) => match unescaped(raw) {
                Ok(_) => Ok(self),
                Err(text) => Err(FixRepoErrorView::XmlError(text)),
            },
            XmlEventView::Other => Ok(self),
            XmlEventView::Bad(text) => Err(FixRepoErrorView::XmlError(text)),
        }
    }

    /// What a run of events does: the first error ends it.
    pub open spec fn events(self, events: Seq<XmlEventView>) -> Parsed
        decreases events.len(),
    {
        if events.len() == 0 {
            Ok(self)
        } else {
            match self.event(events[0]) {
                Ok(p) => p.events(events.drop_first()),
                Err(e) => Err(e),
            }
        }
    }
}

/// The first `n` attributes of a tag. Malformed ones are left out, a value that
/// cannot be decoded is empty, and of two with one key the later stays.
pub open spec fn attributes_in(tag: XmlTagView, n: nat) -> Attributes
    decreases n,
{
    if n == 0 {
        Map::empty()
    } else {
        let before = attributes_in(tag, (n - 1) as nat);
        match tag.attributes[n - 1] {
            Some((key, raw)) => before.insert(
                shown_text(key),
                match unescaped(raw) {
                    Ok(text) => text,
                    Err(_) => Seq::empty(),
                },
            ),
            None => before,
        }
    }
}

// ---------------------------------------------------------------------------
// The parser
// ---------------------------------------------------------------------------

/// Parser for FIX Orchestra documents.
pub struct FixOrchestraParser {
    pub repository: FixRepository,
    pub current_fix_version: FixVersion,
    pub current_field: Option<Field>,
    pub current_message: Option<Message>,
    pub current_group: Option<Group>,
    pub current_codeset: Option<(String, Vec<EnumValue>)>,
    pub block_stack: Vec<Block>,
}

/// The versions of a repository by name.
pub open spec fn versions_view(repository: FixRepository) -> Map<Seq<char>, VersionView> {
    Map::new(
        |k: Seq<char>| repository.versions.value(k) is Some,
        |k: Seq<char>| repository.versions.value(k)->0@,
    )
}

impl View for FixOrchestraParser {
    type V = ParserView;

    open spec fn view(&self) -> ParserView {
        ParserView {
            versions: versions_view(self.repository),
            current: self.current_fix_version@,
            field: match self.current_field {
                Some(f) => Some(f@),
                None => None,
            },
            message: match self.current_message {
                Some(m) => Some(m@),
                None => None,
            },
            group: match self.current_group {
                Some(g) => Some(g@),
                None => None,
            },
            codeset: match self.current_codeset {
                Some((name, codes)) => Some((name@, codes_view(codes@))),
                None => None,
            },
            blocks: self.block_stack@.map_values(|b: Block| b@),
        }
    }
}

fn get_text(attrs: &NameMap<String>, key: &str) -> (r: Option<String>)
    ensures
        text_of(r) == text_attr(attributes_view(*attrs), key@),
{
    match attrs.get(key) {
        Some(s) => Some(s.clone()),
        None => None,
    }
}

fn get_number(attrs: &NameMap<String>, key: &str) -> (r: Option<u32>)
    ensures
        r == (match text_attr(attributes_view(*attrs), key@) {
            Some(t) => match u32::parsed(encode_utf8(t)) {
                Ok(n) => Some(n),
                Err(_) => None,
            },
            None => None,
        }),
{
    match attrs.get(key) {
        Some(s) => match u32::parse_integer(s.as_str().as_bytes()) {
            Ok(n) => Some(n),
            Err(_) => None,
        },
        None => None,
    }
}

fn is_required(attrs: &NameMap<String>) -> (r: bool)
    ensures
        r == required_attr(attributes_view(*attrs)),
{
    match attrs.get("presence") {
        Some(s) => text_eq(s.as_str(), "required"),
        None => false,
    }
}

fn missing_error(key: &str, element: &str) -> (r: FixRepoError)
    ensures
        r@ == FixRepoErrorView::ParseError("Missing attribute "@ + key@ + " in "@ + element@),
{
    let mut text = joined("Missing attribute ", key);
    text.append(" in ");
    text.append(element);
    FixRepoError::ParseError(text)
}

fn sort_codes(codes: Vec<EnumValue>) -> (r: Vec<EnumValue>)
    ensures
        codes_view(r@) == sorted_codes(codes_view(codes@), codes@.len()),
{
    let mut sorted: Vec<EnumValue> = Vec::new();
    let ghost all = codes_view(codes@);
    let mut i: usize = 0;
    assert(codes_view(sorted@) =~= seq![]);
    while i < codes.len()
        invariant
            i <= codes@.len(),
            all == codes_view(codes@),
            codes_view(sorted@) == sorted_codes(all, i as nat),
        decreases codes@.len() - i,
    {
        let code = EnumValue {
            value: codes[i].value.clone(),
            name: codes[i].name.clone(),
            sort: codes[i].sort,
        };
        let ghost view = codes_view(sorted@);
        let mut at: usize = sorted.len();
        while at > 0 && sorted[at - 1].sort > code.sort
            invariant
                at <= sorted@.len(),
                view == codes_view(sorted@),
                code_place(view, code.sort, view.len()) == code_place(view, code.sort, at as nat),
            decreases at,
        {
            assert(view[at - 1] == sorted@[at - 1]@);
            at -= 1;
        }
        assert(at > 0 ==> view[at - 1] == sorted@[at - 1]@);
        let ghost added = code@;
        sorted.insert(at, code);
        assert(added == all[i as int]);
        assert(codes_view(sorted@) =~= view.insert(at as int, added));
        i += 1;
    }
    sorted
}

impl FixOrchestraParser {
    pub fn new() -> (r: Self)
        ensures
            r@ == ParserView::initial(),
    {
        let r = FixOrchestraParser {
            repository: FixRepository::new(),
            current_fix_version: FixVersion::new(),
            current_field: None,
            current_message: None,
            current_group: None,
            current_codeset: None,
            block_stack: Vec::new(),
        };
        assert(r@.versions =~= Map::empty());
        assert(r@.blocks =~= seq![]);
        r
    }

    /// Add an element to the innermost block that is open, else to the message.
    fn add_element(&mut self, element: MessageElement, what: &str) -> (r: std::result::Result<
        (),
        FixRepoError,
    >)
        ensures
            match old(self)@.with_element(element, what@) {
                Ok(p) => r is Ok && final(self)@ == p,
                Err(e) => r matches Err(err) && err@ == e && final(self)@ == old(self)@,
            },
    {
        let ghost before = self@;
        match self.block_stack.pop() {
            Some(Block::Group(mut group)) => {
                let ghost g = group@;
                group.elements.push(element);
                assert(group@ == (GroupView { elements: g.elements.push(element), ..g }));
                self.block_stack.push(Block::Group(group));
                assert(self@.blocks =~= before.with_element(element, what@)->Ok_0.blocks);
                Ok(())
            },
            Some(Block::Component(mut component)) => {
                let ghost c = component@;
                component.elements.push(element);
                assert(component@ == (ComponentView { elements: c.elements.push(element), ..c }));
                self.block_stack.push(Block::Component(component));
                assert(self@.blocks =~= before.with_element(element, what@)->Ok_0.blocks);
                Ok(())
            },
            None => {
                assert(self@.blocks =~= before.blocks);
                match self.current_message.take() {
                    Some(mut message) => {
                        message.elements.push(element);
                        self.current_message = Some(message);
                        Ok(())
                    },
                    None => {
                        let text = joined(what, " without a group, component, or message");
                        Err(FixRepoError::ParseError(text))
                    },
                }
            },
        }
    }

    /// What the start of an element does.
    pub fn handle_start_element(&mut self, name: &str, attrs: &NameMap<String>) -> (r:
        std::result::Result<(), FixRepoError>)
        ensures
            final(self)@ == old(self)@.after_start(name@, attributes_view(*attrs)),
            match old(self)@.start(name@, attributes_view(*attrs)) {
                Ok(p) => r is Ok && final(self)@ == p,
                Err(e) => r matches Err(err) && err@ == e,
            },
    {
        let ghost before = self@;
        let ghost given = attributes_view(*attrs);
        if text_eq(name, "fixr:repository") {
            let version = match get_text(attrs, "version") {
                Some(v) => v,
                None => {
                    return Err(missing_error("version", name));
                },
            };
            let title = match get_text(attrs, "name") {
                Some(v) => v,
                None => {
                    return Err(missing_error("name", name));
                },
            };
            let begin_string = if text_eq(version.as_str(), "FIX.4.2") {
                "FIX.4.2"
            } else if text_eq(version.as_str(), "FIX.4.4") {
                "FIX.4.4"
            } else {
                "FIXT.1.1"
            };
            let mut current = FixVersion::new();
            current.name = title;
            current.begin_string = begin_string.to_owned();
            current.version = version;
            self.current_fix_version = current;
            assert(self@ == before.start(name@, given)->Ok_0);
        } else if text_eq(name, "fixr:field") {
            let id: u32 = match get_number(attrs, "id") {
                Some(id) => id,
                None => {
                    return Err(missing_error("id", name));
                },
            };
            let title = match get_text(attrs, "name") {
                Some(v) => v,
                None => {
                    return Err(missing_error("name", name));
                },
            };
            let field_type = match get_text(attrs, "type") {
                Some(v) => v,
                None => {
                    return Err(missing_error("type", name));
                },
            };
            self.current_field = Some(Field { id, name: title, field_type });
        } else if text_eq(name, "fixr:codeSet") {
            let title = match get_text(attrs, "name") {
                Some(v) => v,
                None => {
                    return Err(missing_error("name", name));
                },
            };
            let codes: Vec<EnumValue> = Vec::new();
            assert(codes_view(codes@) =~= seq![]);
            self.current_codeset = Some((title, codes));
        } else if text_eq(name, "fixr:code") {
            let value = match get_text(attrs, "value") {
                Some(v) => v,
                None => {
                    return Err(missing_error("value", name));
                },
            };
            let title = match get_text(attrs, "name") {
                Some(v) => v,
                None => {
                    return Err(missing_error("name", name));
                },
            };
            let sort: u32 = get_number(attrs, "sort").unwrap_or(0);
            match self.current_codeset.take() {
                None => {
                    return Err(FixRepoError::parse_error("Code without a codeset"));
                },
                Some((set, mut codes)) => {
                    let ghost seen = codes@;
                    let code = EnumValue { value, name: title, sort };
                    let ghost added = code@;
                    codes.push(code);
                    assert(codes_view(codes@) =~= codes_view(seen).push(added));
                    self.current_codeset = Some((set, codes));
                },
            }
        } else if text_eq(name, "fixr:component") {
            let id: u32 = match get_number(attrs, "id") {
                Some(id) => id,
                None => {
                    return Err(missing_error("id", name));
                },
            };
            let title = match get_text(attrs, "name") {
                Some(v) => v,
                None => {
                    return Err(missing_error("name", name));
                },
            };
            let component = Component {
                id,
                name: title,
                category: get_text(attrs, "category"),
                elements: Vec::new(),
                members: HashSet::new(),
            };
            let ghost added = component@;
            assert(added.elements =~= seq![]);
            self.block_stack.push(Block::Component(component));
            assert(self@.blocks =~= before.blocks.push(BlockView::Component(added)));
        } else if text_eq(name, "fixr:group") {
            let id: u32 = match get_number(attrs, "id") {
                Some(id) => id,
                None => {
                    return Err(missing_error("id", name));
                },
            };
            let title = match get_text(attrs, "name") {
                Some(v) => v,
                None => {
                    return Err(missing_error("name", name));
                },
            };
            // The NumInGroup tag follows in an element of its own.
            let group = Group {
                id,
                name: title,
                required: false,
                num_in_group_tag: 0,
                elements: Vec::new(),
                members: HashSet::new(),
            };
            assert(group@.elements =~= seq![]);
            self.current_group = Some(group);
        } else if text_eq(name, "fixr:numInGroup") {
            match self.current_group.take() {
                None => {
                    return Err(FixRepoError::parse_error("NumInGroup without a group"));
                },
                Some(mut group) => {
                    let id: u32 = match get_number(attrs, "id") {
                        Some(id) => id,
                        None => {
                            self.current_group = Some(group);
                            return Err(missing_error("id", name));
                        },
                    };
                    group.num_in_group_tag = id;
                    let ghost added = group@;
                    self.block_stack.push(Block::Group(group));
                    assert(self@.blocks =~= before.blocks.push(BlockView::Group(added)));
                },
            }
        } else if text_eq(name, "fixr:message") {
            let title = match get_text(attrs, "name") {
                Some(v) => v,
                None => {
                    return Err(missing_error("name", name));
                },
            };
            let msg_type = match get_text(attrs, "msgType") {
                Some(v) => v,
                None => {
                    return Err(missing_error("msgType", name));
                },
            };
            let message = Message {
                name: title,
                msg_type,
                category: get_text(attrs, "category"),
                description: None,
                elements: Vec::new(),
            };
            assert(message@.elements =~= seq![]);
            self.current_message = Some(message);
        } else if text_eq(name, "fixr:fieldRef") {
            match get_number(attrs, "id") {
                None => {
                    return Err(missing_error("id", name));
                },
                Some(id) => {
                    let element = MessageElement::Field(
                        FieldRef { field_id: id, required: is_required(attrs) },
                    );
                    return self.add_element(element, "FieldRef");
                },
            }
        } else if text_eq(name, "fixr:groupRef") {
            match get_number(attrs, "id") {
                None => {
                    return Err(missing_error("id", name));
                },
                Some(id) => {
                    let element = MessageElement::Group(
                        GroupRef { group_id: id, required: is_required(attrs) },
                    );
                    return self.add_element(element, "GroupRef");
                },
            }
        } else if text_eq(name, "fixr:componentRef") {
            match get_number(attrs, "id") {
                None => {
                    return Err(missing_error("id", name));
                },
                Some(id) => {
                    let element = MessageElement::Component(
                        ComponentRef { component_id: id, required: is_required(attrs) },
                    );
                    return self.add_element(element, "ComponentRef");
                },
            }
        }
        Ok(())
    }

    /// What the end of an element does.
    pub fn handle_end_element(&mut self, name: &str) -> (r: std::result::Result<(), FixRepoError>)
        ensures
            final(self)@ == old(self)@.after_end(name@),
            match old(self)@.end(name@) {
                Ok(p) => r is Ok && final(self)@ == p,
                Err(e) => r matches Err(err) && err@ == e,
            },
    {
        let ghost before = self@;
        proof {
            reveal_strlit("fixr:field");
            reveal_strlit("fixr:codeSet");
            reveal_strlit("fixr:group");
            reveal_strlit("fixr:component");
            reveal_strlit("fixr:message");
            assert("fixr:field"@[5] == 'f' && "fixr:codeSet"@[7] == 'd' && "fixr:group"@[5] == 'g'
                && "fixr:component"@[7] == 'm' && "fixr:message"@[5] == 'm');
        }
        if text_eq(name, "fixr:repository") {
            let mut version = FixVersion::new();
            std::mem::swap(&mut version, &mut self.current_fix_version);
            version.compute_member_sets();
            let key = version.name.clone();
            let ghost done = version@;
            self.repository.versions.insert(key, Arc::new(version));
            assert(done == before.current.completed());
            assert(self@.versions =~= before.versions.insert(before.current.name, done));
        } else if text_eq(name, "fixr:field") {
            match self.current_field.take() {
                None => {
                    return Err(FixRepoError::parse_error("Unexpected end of field"));
                },
                Some(field) => {
                    let ghost added = field@;
                    self.current_fix_version.fields.insert(field.id, Arc::new(field));
                    assert(self@.current.fields =~= before.current.fields.insert(added.id, added));
                    assert(self@ == before.end(name@)->Ok_0);
                },
            }
        } else if text_eq(name, "fixr:codeSet") {
            match self.current_codeset.take() {
                None => {
                    return Err(FixRepoError::parse_error("Unexpected end of codeset"));
                },
                Some((set, codes)) => {
                    let ghost listed = codes_view(codes@);
                    let ghost key = set@;
                    let sorted = sort_codes(codes);
                    let ghost added = codes_view(sorted@);
                    self.current_fix_version.codesets.insert(set, Arc::new(sorted));
                    assert(added == sorted_codes(listed, listed.len()));
                    assert(self@.current.codesets =~= before.current.codesets.insert(key, added));
                    assert(self@ == before.end(name@)->Ok_0);
                },
            }
        } else if text_eq(name, "fixr:group") {
            match self.block_stack.pop() {
                Some(Block::Group(group)) => {
                    let ghost added = group@;
                    self.current_fix_version.groups.insert(group.id, Arc::new(group));
                    assert(self@.blocks =~= before.blocks.drop_last());
                    assert(self@.current.groups =~= before.current.groups.insert(added.id, added));
                    assert(self@ == before.end(name@)->Ok_0);
                },
                _ => {
                    assert(self@.blocks =~= before.after_end(name@).blocks);
                    return Err(FixRepoError::parse_error("Unexpected end of group"));
                },
            }
        } else if text_eq(name, "fixr:component") {
            match self.block_stack.pop() {
                Some(Block::Component(component)) => {
                    let ghost added = component@;
                    self.current_fix_version.components.insert(component.id, Arc::new(component));
                    assert(self@.blocks =~= before.blocks.drop_last());
                    assert(self@.current.components =~= before.current.components.insert(
                        added.id,
                        added,
                    ));
                    assert(self@ == before.end(name@)->Ok_0);
                },
                _ => {
                    assert(self@.blocks =~= before.after_end(name@).blocks);
                    return Err(FixRepoError::parse_error("Unexpected end of component"));
                },
            }
        } else if text_eq(name, "fixr:message") {
            match self.current_message.take() {
                None => {
                    return Err(FixRepoError::parse_error("Unexpected end of message"));
                },
                Some(message) => {
                    let ghost added = message@;
                    let key = message.msg_type.clone();
                    self.current_fix_version.messages.insert(key, Arc::new(message));
                    assert(self@.current.messages =~= before.current.messages.insert(
                        added.msg_type,
                        added,
                    ));
                    assert(self@ == before.end(name@)->Ok_0);
                },
            }
        }
        Ok(())
    }

    /// What one event does.
    pub fn handle_event(&mut self, event: XmlEvent) -> (r: std::result::Result<(), FixRepoError>)
        ensures
            final(self)@ == old(self)@.after_event(event@),
            match old(self)@.event(event@) {
                Ok(p) => r is Ok && final(self)@ == p,
                Err(e) => r matches Err(err) && err@ == e,
            },
    {
        match event {
            XmlEvent::Start(tag) => {
                let name = utf8_lossy(name_of(&tag).as_slice());
                let attrs = get_attributes(attributes_of(&tag), Ghost(tag_view(tag)));
                self.handle_start_element(name.as_str(), &attrs)
            },
            XmlEvent::End(name) => {
                let name = utf8_lossy(name.as_slice());
                self.handle_end_element(name.as_str())
            },
            XmlEvent::Empty(tag) => {
                let name = utf8_lossy(name_of(&tag).as_slice());
                let attrs = get_attributes(attributes_of(&tag), Ghost(tag_view(tag)));
                match self.handle_start_element(name.as_str(), &attrs) {
                    Ok(_) => self.handle_end_element(name.as_str()),
                    Err(e) => Err(e),
                }
            },
            XmlEvent::Text(raw) => match unescape_value(raw.as_slice()) {
                Ok(_) => Ok(()),
                Err(text) => Err(FixRepoError::XmlError(text)),
            },
            XmlEvent::Other => Ok(()),
            XmlEvent::Bad(text) => Err(FixRepoError::XmlError(text)),
        }
    }

    /// Read a whole document.
    pub fn parse(&mut self, xml: &[u8]) -> (r: std::result::Result<(), FixRepoError>)
        ensures
            final(self)@ == old(self)@.after_events(xml_events(xml@)),
            match old(self)@.events(xml_events(xml@)) {
                Ok(p) => r is Ok && final(self)@ == p,
                Err(e) => r matches Err(err) && err@ == e,
            },
    {
        let mut reader = open_xml(xml);
        let ghost whole = self@.events(xml_events(xml@));
        let ghost end = self@.after_events(xml_events(xml@));
        loop
            invariant
                whole == old(self)@.events(xml_events(xml@)),
                whole == self@.events(events_left(reader)),
                end == old(self)@.after_events(xml_events(xml@)),
                end == self@.after_events(events_left(reader)),
            decreases events_left(reader).len(),
        {
            match next_event(&mut reader) {
                None => {
                    return Ok(());
                },
                Some(event) => {
                    match self.handle_event(event) {
                        Ok(_) => {},
                        Err(e) => {
                            return Err(e);
                        },
                    }
                },
            }
        }
    }
}

/// The attributes of a tag.
fn get_attributes(attributes: Vec<Option<(Vec<u8>, Vec<u8>)>>, Ghost(tag): Ghost<XmlTagView>) -> (r:
    NameMap<String>)
    requires
        tag.attributes == attributes@.map_values(
            |a: Option<(Vec<u8>, Vec<u8>)>| attribute_view(a),
        ),
    ensures
        attributes_view(r) == attributes_in(tag, tag.attributes.len()),
{
    let mut attrs: NameMap<String> = NameMap::new();
    let mut i: usize = 0;
    assert(attributes_view(attrs) =~= Map::empty());
    while i < attributes.len()
        invariant
            i <= attributes@.len(),
            tag.attributes == attributes@.map_values(
                |a: Option<(Vec<u8>, Vec<u8>)>| attribute_view(a),
            ),
            attributes_view(attrs) == attributes_in(tag, i as nat),
        decreases attributes@.len() - i,
    {
        let ghost before = attributes_view(attrs);
        assert(tag.attributes[i as int] == attribute_view(attributes@[i as int]));
        if let Some((key, raw)) = &attributes[i] {
            let name = utf8_lossy(key.as_slice());
            let value = match unescape_value(raw.as_slice()) {
                Ok(text) => text,
                Err(_) => String::new(),
            };
            let ghost k = name@;
            let ghost v = value@;
            attrs.insert(name, value);
            assert(attributes_view(attrs) =~= before.insert(k, v));
        }
        i += 1;
    }
    attrs
}

impl FixRepository {
    /// Load a repository from a FIX Orchestra document.
    pub fn from_fix_orchestra(xml: &[u8]) -> (r: std::result::Result<Self, FixRepoError>)
        ensures
            match ParserView::initial().events(xml_events(xml@)) {
                Ok(p) => r matches Ok(repo) && versions_view(repo) == p.versions,
                Err(e) => r matches Err(err) && err@ == e,
            },
    {
        let mut parser = FixOrchestraParser::new();
        match parser.parse(xml) {
            Ok(_) => Ok(parser.repository),
            Err(e) => Err(e),
        }
    }

    /// Load a repository from several documents. Where two define a version of
    /// the same name, the later stays.
    pub fn from_fix_orchestras(documents: &Vec<Vec<u8>>) -> (r: std::result::Result<
        Self,
        FixRepoError,
    >)
        ensures
            match merged(documents@.map_values(|d: Vec<u8>| d@), documents@.len()) {
                Ok(versions) => r matches Ok(repo) && versions_view(repo) == versions,
                Err(e) => r matches Err(err) && err@ == e,
            },
    {
        let ghost all = documents@.map_values(|d: Vec<u8>| d@);
        let mut repo = FixRepository::new();
        assert(versions_view(repo) =~= Map::empty());
        let mut i: usize = 0;
        while i < documents.len()
            invariant
                i <= documents@.len(),
                all == documents@.map_values(|d: Vec<u8>| d@),
                merged(all, i as nat) == Ok::<Map<Seq<char>, VersionView>, FixRepoErrorView>(
                    versions_view(repo),
                ),
            decreases documents@.len() - i,
        {
            let ghost before = versions_view(repo);
            assert(all[i as int] == documents@[i as int]@);
            match Self::from_fix_orchestra(documents[i].as_slice()) {
                Ok(next) => {
                    let ghost added = versions_view(next);
                    repo = repo.merge(next);
                    assert(versions_view(repo) =~= before.union_prefer_right(added));
                },
                Err(e) => {
                    proof {
                        lemma_merged_err(all, i as nat + 1, all.len());
                    }
                    return Err(e);
                },
            }
            i += 1;
        }
        Ok(repo)
    }
}

/// The versions of the first `n` documents.
pub open spec fn merged(documents: Seq<Seq<u8>>, n: nat) -> std::result::Result<
    Map<Seq<char>, VersionView>,
    FixRepoErrorView,
>
    decreases n,
{
    if n == 0 {
        Ok(Map::empty())
    } else {
        match merged(documents, (n - 1) as nat) {
            Err(e) => Err(e),
            Ok(before) => match ParserView::initial().events(xml_events(documents[n - 1])) {
                Err(e) => Err(e),
                Ok(p) => Ok(before.union_prefer_right(p.versions)),
            },
        }
    }
}

/// The first document that cannot be loaded decides.
proof fn lemma_merged_err(documents: Seq<Seq<u8>>, m: nat, n: nat)
    requires
        m <= n,
        merged(documents, m) is Err,
    ensures
        merged(documents, n) == merged(documents, m),
    decreases n,
{
    if m < n {
        lemma_merged_err(documents, m, (n - 1) as nat);
    }
}

} // verus!
