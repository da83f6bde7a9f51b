//! What loading a document does, element by element, in terms of what the
//! document says.

use vstd::prelude::*;
use vstd::string::*;
use vstd::utf8::*;

use crate::error::FixRepoErrorView;
use crate::orchestra::{
    attributes_in, code_place, law_codes_sorted, lemma_code_place, merged, sorted_codes,
    text_attr, Parsed, ParserView,
};
use crate::repository::{
    BlockView, ComponentRef, ComponentView, DefinitionView, EnumView, FieldRef, FieldView,
    GroupRef, GroupView, MessageElement, VersionView,
};
use crate::text::{shown_text, ParseInteger};
use crate::xml::{unescaped, xml_events, XmlEventView, XmlTagView};

verus! {

// ---------------------------------------------------------------------------
// What an element says
// ---------------------------------------------------------------------------

/// The value of an attribute: that of the last of this name among the first `n`.
/// A value that cannot be read is empty.
pub open spec fn attr_among(tag: XmlTagView, key: Seq<char>, n: nat) -> Option<Seq<char>>
    decreases n,
{
    if n == 0 {
        None
    } else if tag.attributes[n - 1] matches Some((k, raw)) && shown_text(k) == key {
        match unescaped((tag.attributes[n - 1]->0).1) {
            Ok(text) => Some(text),
            Err(_) => Some(Seq::empty()),
        }
    } else {
        attr_among(tag, key, (n - 1) as nat)
    }
}

pub open spec fn attr(tag: XmlTagView, key: Seq<char>) -> Option<Seq<char>> {
    attr_among(tag, key, tag.attributes.len())
}

/// The number in an attribute.
pub open spec fn number(tag: XmlTagView, key: Seq<char>) -> Option<u32> {
    match attr(tag, key) {
        Some(text) => match u32::parsed(encode_utf8(text)) {
            Ok(n) => Some(n),
            Err(_) => None,
        },
        None => None,
    }
}

/// What the element is called.
pub open spec fn called(tag: XmlTagView, name: Seq<char>) -> bool {
    shown_text(tag.name) == name
}

/// The document is refused at this point.
pub open spec fn faulty(result: Parsed) -> bool {
    result matches Err(FixRepoErrorView::ParseError(_))
}

proof fn lemma_attr(tag: XmlTagView, key: Seq<char>, n: nat)
    requires
        n <= tag.attributes.len(),
    ensures
        text_attr(attributes_in(tag, n), key) == attr_among(tag, key, n),
    decreases n,
{
    if n > 0 {
        lemma_attr(tag, key, (n - 1) as nat);
    }
}

proof fn lemma_names()
    ensures
        "fixr:repository"@.len() == 15 && "fixr:repository"@[5] == 'r',
        "fixr:numInGroup"@.len() == 15 && "fixr:numInGroup"@[5] == 'n',
        "fixr:field"@.len() == 10 && "fixr:field"@[5] == 'f',
        "fixr:group"@.len() == 10 && "fixr:group"@[5] == 'g',
        "fixr:codeSet"@.len() == 12 && "fixr:codeSet"@[5] == 'c',
        "fixr:message"@.len() == 12 && "fixr:message"@[5] == 'm',
        "fixr:code"@.len() == 9,
        "fixr:component"@.len() == 14,
        "fixr:fieldRef"@.len() == 13 && "fixr:fieldRef"@[5] == 'f',
        "fixr:groupRef"@.len() == 13 && "fixr:groupRef"@[5] == 'g',
        "fixr:componentRef"@.len() == 17,
{
    reveal_strlit("fixr:repository");
    reveal_strlit("fixr:numInGroup");
    reveal_strlit("fixr:field");
    reveal_strlit("fixr:group");
    reveal_strlit("fixr:codeSet");
    reveal_strlit("fixr:message");
    reveal_strlit("fixr:code");
    reveal_strlit("fixr:component");
    reveal_strlit("fixr:fieldRef");
    reveal_strlit("fixr:groupRef");
    reveal_strlit("fixr:componentRef");
}

// ---------------------------------------------------------------------------
// References
// ---------------------------------------------------------------------------

/// The block with one more element at its end.
pub open spec fn grown(block: BlockView, element: MessageElement) -> BlockView {
    match block {
        BlockView::Group(g) => BlockView::Group(
            GroupView { elements: g.elements.push(element), ..g },
        ),
        BlockView::Component(c) => BlockView::Component(
            ComponentView { elements: c.elements.push(element), ..c },
        ),
    }
}

/// The element joins the innermost group or component that is open, else the
/// message that is; where nothing is open, it is refused.
pub open spec fn joins(result: Parsed, p: ParserView, element: MessageElement) -> bool {
    if p.blocks.len() > 0 {
        let last = p.blocks.len() - 1;
        result == Ok::<ParserView, FixRepoErrorView>(
            ParserView { blocks: p.blocks.update(last, grown(p.blocks[last], element)), ..p },
        )
    } else {
        match p.message {
            Some(m) => result == Ok::<ParserView, FixRepoErrorView>(
                ParserView {
                    message: Some(DefinitionView { elements: m.elements.push(element), ..m }),
                    ..p
                },
            ),
            None => faulty(result),
        }
    }
}

/// A reference, written as one tag or as two, adds the field, group or component
/// that it names to what is being defined. It is required exactly where its
/// attribute `presence` reads `required`: not where that attribute is missing, and
/// not where it reads anything else. A reference that names no number is refused.
pub proof fn law_what_a_reference_adds(p: ParserView, tag: XmlTagView)
    ensures
        ({
            let start = p.event(XmlEventView::Start(tag));
            let whole = p.event(XmlEventView::Empty(tag));
            let required = attr(tag, "presence"@) == Some("required"@);
            let is_reference = called(tag, "fixr:fieldRef"@) || called(tag, "fixr:groupRef"@)
                || called(tag, "fixr:componentRef"@);
            &&& is_reference ==> start == whole
            &&& is_reference && number(tag, "id"@) is None ==> faulty(start)
            &&& number(tag, "id"@) matches Some(id) ==> {
                &&& called(tag, "fixr:fieldRef"@) ==> joins(
                    start,
                    p,
                    MessageElement::Field(FieldRef { field_id: id, required }),
                )
                &&& called(tag, "fixr:groupRef"@) ==> joins(
                    start,
                    p,
                    MessageElement::Group(GroupRef { group_id: id, required }),
                )
                &&& called(tag, "fixr:componentRef"@) ==> joins(
                    start,
                    p,
                    MessageElement::Component(ComponentRef { component_id: id, required }),
                )
            }
        }),
{
    lemma_names();
    let n = tag.attributes.len();
    lemma_attr(tag, "presence"@, n);
    lemma_attr(tag, "id"@, n);
    if p.blocks.len() > 0 {
        let last = p.blocks.len() - 1;
        assert forall|b: BlockView| #[trigger] p.blocks.drop_last().push(b) == p.blocks.update(
            last,
            b,
        ) by {
            assert(p.blocks.drop_last().push(b) =~= p.blocks.update(last, b));
        }
    }
}

// ---------------------------------------------------------------------------
// Definitions
// ---------------------------------------------------------------------------

/// A repository opens a version with nothing in it. It says its name and its
/// version; the BeginString is that of FIX.4.2 and FIX.4.4 for these two, and that
/// of the FIXT session for all others.
pub proof fn law_what_a_repository_opens(p: ParserView, tag: XmlTagView)
    requires
        called(tag, "fixr:repository"@),
    ensures
        match (attr(tag, "name"@), attr(tag, "version"@)) {
            (Some(name), Some(version)) => {
                let begin_string = if version == "FIX.4.2"@ || version == "FIX.4.4"@ {
                    version
                } else {
                    "FIXT.1.1"@
                };
                p.event(XmlEventView::Start(tag)) == Ok::<ParserView, FixRepoErrorView>(
                    ParserView {
                        current: VersionView {
                            name,
                            version,
                            begin_string,
                            fields: Map::empty(),
                            components: Map::empty(),
                            groups: Map::empty(),
                            messages: Map::empty(),
                            codesets: Map::empty(),
                        },
                        ..p
                    },
                )
            },
            _ => faulty(p.event(XmlEventView::Start(tag))),
        },
{
    lemma_names();
    lemma_attr(tag, "name"@, tag.attributes.len());
    lemma_attr(tag, "version"@, tag.attributes.len());
}

/// A field is defined by its number, its name and its type.
pub proof fn law_what_a_field_opens(p: ParserView, tag: XmlTagView)
    requires
        called(tag, "fixr:field"@),
    ensures
        match (number(tag, "id"@), attr(tag, "name"@), attr(tag, "type"@)) {
            (Some(id), Some(name), Some(field_type)) => p.event(XmlEventView::Start(tag)) == Ok::<
                ParserView,
                FixRepoErrorView,
            >(ParserView { field: Some(FieldView { id, name, field_type }), ..p }),
            _ => faulty(p.event(XmlEventView::Start(tag))),
        },
{
    lemma_names();
    lemma_attr(tag, "id"@, tag.attributes.len());
    lemma_attr(tag, "name"@, tag.attributes.len());
    lemma_attr(tag, "type"@, tag.attributes.len());
}

/// A code set opens with its name and without codes. A code joins the open set
/// behind those that are there, with its value, its name and its sort number; one
/// without a readable sort number has 0. Outside a set it is refused.
pub proof fn law_what_codes_do(p: ParserView, tag: XmlTagView)
    ensures
        called(tag, "fixr:codeSet"@) ==> match attr(tag, "name"@) {
            Some(name) => p.event(XmlEventView::Start(tag)) == Ok::<ParserView, FixRepoErrorView>(
                ParserView { codeset: Some((name, Seq::<EnumView>::empty())), ..p },
            ),
            None => faulty(p.event(XmlEventView::Start(tag))),
        },
        called(tag, "fixr:code"@) ==> match (attr(tag, "value"@), attr(tag, "name"@), p.codeset) {
            (Some(value), Some(name), Some((set, codes))) => {
                let sort = match number(tag, "sort"@) {
                    Some(n) => n,
                    None => 0,
                };
                let result = Ok::<ParserView, FixRepoErrorView>(
                    ParserView {
                        codeset: Some((set, codes.push(EnumView { value, name, sort }))),
                        ..p
                    },
                );
                p.event(XmlEventView::Start(tag)) == result && p.event(XmlEventView::Empty(tag))
                    == result
            },
            _ => faulty(p.event(XmlEventView::Start(tag))),
        },
{
    lemma_names();
    lemma_attr(tag, "name"@, tag.attributes.len());
    lemma_attr(tag, "value"@, tag.attributes.len());
    lemma_attr(tag, "sort"@, tag.attributes.len());
}

/// A component opens with its number, its name and its category, if it has one,
/// inside whatever is open. A group opens with its number and its name, and waits
/// for its NumInGroup, which opens it inside whatever is open.
pub proof fn law_what_blocks_open(p: ParserView, tag: XmlTagView)
    ensures
        called(tag, "fixr:component"@) ==> match (number(tag, "id"@), attr(tag, "name"@)) {
            (Some(id), Some(name)) => p.event(XmlEventView::Start(tag)) == Ok::<
                ParserView,
                FixRepoErrorView,
            >(
                ParserView {
                    blocks: p.blocks.push(
                        BlockView::Component(
                            ComponentView {
                                id,
                                name,
                                category: attr(tag, "category"@),
                                elements: Seq::empty(),
                                members: Set::empty(),
                            },
                        ),
                    ),
                    ..p
                },
            ),
            _ => faulty(p.event(XmlEventView::Start(tag))),
        },
        called(tag, "fixr:group"@) ==> match (number(tag, "id"@), attr(tag, "name"@)) {
            (Some(id), Some(name)) => p.event(XmlEventView::Start(tag)) == Ok::<
                ParserView,
                FixRepoErrorView,
            >(
                ParserView {
                    group: Some(
                        GroupView {
                            id,
                            name,
                            required: false,
                            num_in_group_tag: 0,
                            elements: Seq::empty(),
                            members: Set::empty(),
                        },
                    ),
                    ..p
                },
            ),
            _ => faulty(p.event(XmlEventView::Start(tag))),
        },
        called(tag, "fixr:numInGroup"@) ==> match (p.group, number(tag, "id"@)) {
            (Some(group), Some(id)) => {
                let result = Ok::<ParserView, FixRepoErrorView>(
                    ParserView {
                        group: None,
                        blocks: p.blocks.push(
                            BlockView::Group(GroupView { num_in_group_tag: id, ..group }),
                        ),
                        ..p
                    },
                );
                p.event(XmlEventView::Start(tag)) == result && p.event(XmlEventView::Empty(tag))
                    == result
            },
            _ => faulty(p.event(XmlEventView::Start(tag))),
        },
{
    lemma_names();
    lemma_attr(tag, "id"@, tag.attributes.len());
    lemma_attr(tag, "name"@, tag.attributes.len());
    lemma_attr(tag, "category"@, tag.attributes.len());
}

/// A message opens with its name, its type and its category, if it has one.
pub proof fn law_what_a_message_opens(p: ParserView, tag: XmlTagView)
    requires
        called(tag, "fixr:message"@),
    ensures
        match (attr(tag, "name"@), attr(tag, "msgType"@)) {
            (Some(name), Some(msg_type)) => p.event(XmlEventView::Start(tag)) == Ok::<
                ParserView,
                FixRepoErrorView,
            >(
                ParserView {
                    message: Some(
                        DefinitionView {
                            name,
                            msg_type,
                            category: attr(tag, "category"@),
                            description: None,
                            elements: Seq::empty(),
                        },
                    ),
                    ..p
                },
            ),
            _ => faulty(p.event(XmlEventView::Start(tag))),
        },
{
    lemma_names();
    lemma_attr(tag, "name"@, tag.attributes.len());
    lemma_attr(tag, "msgType"@, tag.attributes.len());
    lemma_attr(tag, "category"@, tag.attributes.len());
}

/// What is opened goes into the version as it closes: a field under its number, a
/// code set under its name, a group and a component under their numbers, and a
/// message under its type. What was not opened cannot close. A version goes in
/// under its name as it closes, with the fields of its components and groups among
/// their members, and what is read behind it starts with nothing.
pub proof fn law_what_closes(p: ParserView, name: Seq<u8>)
    ensures
        ({
            let t = shown_text(name);
            let result = p.event(XmlEventView::End(name));
            let last = p.blocks.len() - 1;
            &&& t == "fixr:field"@ ==> match p.field {
                Some(f) => result == Ok::<ParserView, FixRepoErrorView>(
                    ParserView {
                        field: None,
                        current: VersionView {
                            fields: p.current.fields.insert(f.id, f),
                            ..p.current
                        },
                        ..p
                    },
                ),
                None => faulty(result),
            }
            &&& t == "fixr:codeSet"@ ==> match p.codeset {
                Some((set, codes)) => result == Ok::<ParserView, FixRepoErrorView>(
                    ParserView {
                        codeset: None,
                        current: VersionView {
                            codesets: p.current.codesets.insert(
                                set,
                                sorted_codes(codes, codes.len()),
                            ),
                            ..p.current
                        },
                        ..p
                    },
                ),
                None => faulty(result),
            }
            &&& t == "fixr:message"@ ==> match p.message {
                Some(m) => result == Ok::<ParserView, FixRepoErrorView>(
                    ParserView {
                        message: None,
                        current: VersionView {
                            messages: p.current.messages.insert(m.msg_type, m),
                            ..p.current
                        },
                        ..p
                    },
                ),
                None => faulty(result),
            }
            &&& t == "fixr:group"@ ==> if p.blocks.len() > 0 && p.blocks[last] is Group {
                let g = p.blocks[last]->Group_0;
                result == Ok::<ParserView, FixRepoErrorView>(
                    ParserView {
                        blocks: p.blocks.take(last),
                        current: VersionView {
                            groups: p.current.groups.insert(g.id, g),
                            ..p.current
                        },
                        ..p
                    },
                )
            } else {
                faulty(result)
            }
            &&& t == "fixr:component"@ ==> if p.blocks.len() > 0 && p.blocks[last] is Component {
                let c = p.blocks[last]->Component_0;
                result == Ok::<ParserView, FixRepoErrorView>(
                    ParserView {
                        blocks: p.blocks.take(last),
                        current: VersionView {
                            components: p.current.components.insert(c.id, c),
                            ..p.current
                        },
                        ..p
                    },
                )
            } else {
                faulty(result)
            }
            &&& t == "fixr:repository"@ ==> (result matches Ok(q) && {
                let done = q.versions[p.current.name];
                &&& q.versions.dom() == p.versions.dom().insert(p.current.name)
                &&& forall|other: Seq<char>|
                    other != p.current.name && p.versions.dom().contains(other) ==> (
                    #[trigger] q.versions[other]) == p.versions[other]
                &&& done.name == p.current.name
                &&& done.version == p.current.version
                &&& done.begin_string == p.current.begin_string
                &&& done.fields == p.current.fields
                &&& done.messages == p.current.messages
                &&& done.codesets == p.current.codesets
                &&& done.components.dom() == p.current.components.dom()
                &&& done.groups.dom() == p.current.groups.dom()
                &&& forall|id: u32| #[trigger]
                    p.current.components.dom().contains(id) ==> done.components[id]
                        == ComponentView {
                        members: done.components[id].members,
                        ..p.current.components[id]
                    }
                &&& forall|id: u32| #[trigger]
                    p.current.groups.dom().contains(id) ==> done.groups[id] == GroupView {
                        members: done.groups[id].members,
                        ..p.current.groups[id]
                    }
                &&& done == p.current.completed()
                &&& forall|id: u32, i: int|
                    p.current.components.dom().contains(id) && 0 <= i
                        < p.current.components[id].elements.len() ==> (
                    #[trigger] p.current.components[id].elements[i] matches MessageElement::Field(r)
                        ==> done.components[id].members.contains(r.field_id))
                &&& forall|id: u32, i: int|
                    p.current.groups.dom().contains(id) && 0 <= i
                        < p.current.groups[id].elements.len() ==> (
                    #[trigger] p.current.groups[id].elements[i] matches MessageElement::Field(r)
                        ==> done.groups[id].members.contains(r.field_id))
                &&& forall|id: u32| #[trigger]
                    p.current.groups.dom().contains(id) ==> done.groups[id].members.contains(
                        p.current.groups[id].num_in_group_tag,
                    )
                &&& q.current.name.len() == 0 && q.current.version.len() == 0
                    && q.current.begin_string.len() == 0
                &&& q.current.fields.dom() == Set::<u32>::empty()
                &&& q.current.components.dom() == Set::<u32>::empty()
                &&& q.current.groups.dom() == Set::<u32>::empty()
                &&& q.current.messages.dom() == Set::<Seq<char>>::empty()
                &&& q.current.codesets.dom() == Set::<Seq<char>>::empty()
                &&& q.message == p.message && q.field == p.field && q.group == p.group && q.codeset
                    == p.codeset && q.blocks == p.blocks
            })
        }),
{
    lemma_names();
    let done = p.current.completed();
    assert(done.components.dom() =~= p.current.components.dom());
    assert(done.groups.dom() =~= p.current.groups.dom());
    let st = p.current.structure();
    assert forall|id: u32, i: int|
        p.current.components.dom().contains(id) && 0 <= i
            < p.current.components[id].elements.len() implies (
    #[trigger] p.current.components[id].elements[i] matches MessageElement::Field(r)
        ==> done.components[id].members.contains(r.field_id)) by {
        if let MessageElement::Field(r) = p.current.components[id].elements[i] {
            assert(st.element_reaches(
                p.current.components[id].elements[i],
                r.field_id,
                st.depth(),
            ));
        }
    }
    assert forall|id: u32, i: int|
        p.current.groups.dom().contains(id) && 0 <= i
            < p.current.groups[id].elements.len() implies (
    #[trigger] p.current.groups[id].elements[i] matches MessageElement::Field(r)
        ==> done.groups[id].members.contains(r.field_id)) by {
        if let MessageElement::Field(r) = p.current.groups[id].elements[i] {
            assert(st.element_reaches(
                p.current.groups[id].elements[i],
                r.field_id,
                st.depth(),
            ));
        }
    }
    if p.blocks.len() > 0 {
        assert(p.blocks.drop_last() =~= p.blocks.take(p.blocks.len() - 1));
    }
}

/// Elements of other names are passed over, and so is everything else that is no
/// element; text has to be readable, and a fault ends the document.
pub proof fn law_what_is_passed_over(p: ParserView, tag: XmlTagView, raw: Seq<u8>)
    ensures
        is_other(shown_text(tag.name)) ==> {
            &&& p.event(XmlEventView::Start(tag)) == Ok::<ParserView, FixRepoErrorView>(p)
            &&& p.event(XmlEventView::End(tag.name)) == Ok::<ParserView, FixRepoErrorView>(p)
            &&& p.event(XmlEventView::Empty(tag)) == Ok::<ParserView, FixRepoErrorView>(p)
        },
        p.event(XmlEventView::Other) == Ok::<ParserView, FixRepoErrorView>(p),
        unescaped(raw) is Ok ==> p.event(XmlEventView::Text(raw)) == Ok::<
            ParserView,
            FixRepoErrorView,
        >(p),
        unescaped(raw) matches Err(text) ==> p.event(XmlEventView::Text(raw)) == Err::<
            ParserView,
            FixRepoErrorView,
        >(FixRepoErrorView::XmlError(text)),
        forall|text: Seq<char>| #[trigger]
            p.event(XmlEventView::Bad(text)) == Err::<ParserView, FixRepoErrorView>(
                FixRepoErrorView::XmlError(text),
            ),
{
}

/// A name that means nothing here.
pub open spec fn is_other(name: Seq<char>) -> bool {
    &&& name != "fixr:repository"@ && name != "fixr:numInGroup"@ && name != "fixr:field"@
    &&& name != "fixr:group"@ && name != "fixr:codeSet"@ && name != "fixr:message"@
    &&& name != "fixr:code"@ && name != "fixr:component"@ && name != "fixr:fieldRef"@
    &&& name != "fixr:groupRef"@ && name != "fixr:componentRef"@
}

/// An element that is written as one tag is its start and its end.
pub proof fn law_an_empty_element_opens_and_closes(p: ParserView, tag: XmlTagView)
    ensures
        match p.event(XmlEventView::Start(tag)) {
            Ok(q) => p.event(XmlEventView::Empty(tag)) == q.event(XmlEventView::End(tag.name)),
            Err(e) => p.event(XmlEventView::Empty(tag)) == Err::<ParserView, FixRepoErrorView>(e),
        },
{
}

/// A document is read event by event: reading two runs of events one behind the
/// other is reading them together, and the first fault decides.
pub proof fn law_a_document_is_read_in_order(
    p: ParserView,
    a: Seq<XmlEventView>,
    b: Seq<XmlEventView>,
)
    ensures
        p.events(Seq::empty()) == Ok::<ParserView, FixRepoErrorView>(p),
        forall|e: XmlEventView| #[trigger] p.events(seq![e]) == p.event(e),
        match p.events(a) {
            Ok(q) => p.events(a + b) == q.events(b),
            Err(e) => p.events(a + b) == Err::<ParserView, FixRepoErrorView>(e),
        },
    decreases a.len(),
{
    assert forall|e: XmlEventView| #[trigger] p.events(seq![e]) == p.event(e) by {
        assert(seq![e].drop_first() =~= Seq::empty());
        reveal_with_fuel(ParserView::events, 2);
    }
    if a.len() == 0 {
        assert(a + b =~= b);
    } else {
        assert((a + b)[0] == a[0]);
        assert((a + b).drop_first() =~= a.drop_first() + b);
        if let Ok(q) = p.event(a[0]) {
            law_a_document_is_read_in_order(q, a.drop_first(), b);
        }
    }
}

// ---------------------------------------------------------------------------
// Codes
// ---------------------------------------------------------------------------

/// One more code goes behind all those whose sort number is no larger, and in
/// front of those whose is: so codes of one sort number stay in the order of the
/// document.
pub proof fn law_where_a_code_goes(codes: Seq<EnumView>, code: EnumView) -> (at: int)
    ensures
        ({
            let before = sorted_codes(codes, codes.len());
            let all = codes.push(code);
            &&& 0 <= at <= before.len()
            &&& sorted_codes(all, all.len()) == before.insert(at, code)
            &&& forall|i: int| 0 <= i < at ==> (#[trigger] before[i]).sort <= code.sort
            &&& forall|i: int| at <= i < before.len() ==> (#[trigger] before[i]).sort > code.sort
        }),
{
    let before = sorted_codes(codes, codes.len());
    let all = codes.push(code);
    lemma_same_codes(codes, all, codes.len());
    law_codes_sorted(codes, codes.len());
    lemma_code_place(before, code.sort, before.len());
    let at = code_place(before, code.sort, before.len());
    assert forall|i: int| 0 <= i < at implies (#[trigger] before[i]).sort <= code.sort by {
        if i < at - 1 {
            assert(before[i].sort <= before[at - 1].sort);
        }
    }
    at
}

proof fn lemma_same_codes(a: Seq<EnumView>, b: Seq<EnumView>, n: nat)
    requires
        n <= a.len(),
        n <= b.len(),
        forall|i: int| 0 <= i < n ==> a[i] == b[i],
    ensures
        sorted_codes(a, n) == sorted_codes(b, n),
    decreases n,
{
    if n > 0 {
        lemma_same_codes(a, b, (n - 1) as nat);
    }
}

// ---------------------------------------------------------------------------
// Several documents
// ---------------------------------------------------------------------------

/// Of several documents, each adds its versions to those of the ones before it,
/// and replaces those of the same name. None of them is loaded where one cannot
/// be read.
pub proof fn law_documents_add_up(documents: Seq<Seq<u8>>, n: nat, name: Seq<char>)
    requires
        n < documents.len(),
    ensures
        merged(documents, 0) == Ok::<Map<Seq<char>, VersionView>, FixRepoErrorView>(Map::empty()),
        ({
            let read = ParserView::initial().events(xml_events(documents[n as int]));
            let before = merged(documents, n);
            let after = merged(documents, n + 1);
            &&& before is Err ==> after is Err
            &&& read is Err ==> after is Err
            &&& before is Ok && read is Ok ==> (after matches Ok(all) && {
                let old = before->Ok_0;
                let new = (read->Ok_0).versions;
                &&& all.dom().contains(name) <==> old.dom().contains(name) || new.dom().contains(
                    name,
                )
                &&& new.dom().contains(name) ==> all[name] == new[name]
                &&& !new.dom().contains(name) && old.dom().contains(name) ==> all[name]
                    == old[name]
            })
        }),
{
}

/// Reading starts with nothing.
pub proof fn law_reading_starts_with_nothing()
    ensures
        ({
            let p = ParserView::initial();
            &&& p.versions.dom() =~= Set::<Seq<char>>::empty()
            &&& p.current.name.len() == 0 && p.current.version.len() == 0
                && p.current.begin_string.len() == 0
            &&& p.current.fields.dom() =~= Set::<u32>::empty()
            &&& p.current.components.dom() =~= Set::<u32>::empty()
            &&& p.current.groups.dom() =~= Set::<u32>::empty()
            &&& p.current.messages.dom() =~= Set::<Seq<char>>::empty()
            &&& p.current.codesets.dom() =~= Set::<Seq<char>>::empty()
            &&& p.field is None
            &&& p.message is None
            &&& p.group is None
            &&& p.codeset is None
            &&& p.blocks.len() == 0
        }),
{
}

/// What an event leaves behind: what it makes of the reading where it is taken,
/// and everything as it was where it is refused; only a group or a component that
/// ends while another block is open closes that block.
pub proof fn law_what_an_event_leaves(p: ParserView, event: XmlEventView)
    ensures
        p.event(event) matches Ok(q) ==> p.after_event(event) == q,
        p.event(event) is Err && !(event is End) && !(event is Empty) ==> p.after_event(event) == p,
        p.event(event) is Err ==> (event matches XmlEventView::End(name) ==> p.after_event(event)
            == if (shown_text(name) == "fixr:group"@ || shown_text(name) == "fixr:component"@)
            && p.blocks.len() > 0 {
            ParserView { blocks: p.blocks.take(p.blocks.len() - 1), ..p }
        } else {
            p
        }),
        forall|rest: Seq<XmlEventView>| #[trigger]
            p.after_events(seq![event] + rest) == (if p.event(event) is Ok {
                p.after_event(event).after_events(rest)
            } else {
                p.after_event(event)
            }),
        p.after_events(Seq::empty()) == p,
{
    lemma_names();
    if p.blocks.len() > 0 {
        assert(p.blocks.drop_last() =~= p.blocks.take(p.blocks.len() - 1));
    }
    assert forall|rest: Seq<XmlEventView>| #[trigger]
        p.after_events(seq![event] + rest) == (if p.event(event) is Ok {
            p.after_event(event).after_events(rest)
        } else {
            p.after_event(event)
        }) by {
        let all = seq![event] + rest;
        assert(all[0] == event);
        assert(all.drop_first() =~= rest);
    }
}

} // verus!
