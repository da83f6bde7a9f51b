//! FIX metadata: fields, components, groups and message definitions.

use std::collections::{HashMap, HashSet};
use std::sync::Arc;

use vstd::prelude::*;
use vstd::std_specs::iter::IteratorSpec;
use vstd::string::*;

use crate::names::{lookup, position, NameMap};
use crate::text::{text_eq, text_of};

verus! {

broadcast use vstd::std_specs::hash::group_hash_axioms;

/// The keys of a map, each once, in no particular order.
pub(crate) fn map_keys<V>(m: &HashMap<u32, V>) -> (r: Vec<u32>)
    ensures
        r@.no_duplicates(),
        forall|k: u32| r@.contains(k) <==> m@.dom().contains(k),
{
    let mut r: Vec<u32> = Vec::new();
    let ghost all = vstd::std_specs::hash::spec_keys_iter(m).remaining().unref();
    for k in it: m.keys()
        invariant
            it.seq().unref() == all,
            it.seq().no_duplicates(),
            r@ == all.take(it.index@),
    {
        r.push(*k);
        assert(r@ =~= all.take(it.index@ + 1));
    }
    assert(r@ =~= all);
    assert forall|k: u32| r@.contains(k) <==> m@.dom().contains(k) by {
        assert(all.to_set().contains(k) <==> all.contains(k));
    }
    r
}

// ---------------------------------------------------------------------------
// Definitions
// ---------------------------------------------------------------------------

/// Represents a FIX field
#[derive(Debug)]
pub struct Field {
    pub id: u32,
    pub name: String,
    pub field_type: String,
}

/// Represents an enumerated value for a field
#[derive(Debug)]
pub struct EnumValue {
    pub value: String,
    pub name: String,
    /// Where the value stands among its siblings.
    pub sort: u32,
}

/// Reference to a field within a message, component, or group
#[derive(Clone, Copy, Debug, PartialEq, Eq, Structural)]
pub struct FieldRef {
    pub field_id: u32,
    pub required: bool,
}

/// Reference to a component within a message or another component
#[derive(Clone, Copy, Debug, PartialEq, Eq, Structural)]
pub struct ComponentRef {
    pub component_id: u32,
    pub required: bool,
}

/// Reference to a group within a message or component
#[derive(Clone, Copy, Debug, PartialEq, Eq, Structural)]
pub struct GroupRef {
    pub group_id: u32,
    pub required: bool,
}

/// Represents an element in a message, component, or group
#[derive(Clone, Copy, Debug, PartialEq, Eq, Structural)]
pub enum MessageElement {
    Field(FieldRef),
    Component(ComponentRef),
    Group(GroupRef),
}

/// Represents a component (reusable block of fields)
#[derive(Debug)]
pub struct Component {
    pub id: u32,
    pub name: String,
    pub category: Option<String>,
    /// Ordered collection of child elements (fields, components, groups)
    pub elements: Vec<MessageElement>,
    /// Pre-computed set of all member field IDs (including nested components)
    pub members: HashSet<u32>,
}

/// Represents a message definition
#[derive(Debug)]
pub struct Message {
    pub name: String,
    pub msg_type: String,
    pub category: Option<String>,
    pub description: Option<String>,
    /// Ordered collection of child elements (fields, components, groups)
    pub elements: Vec<MessageElement>,
}

/// Represents a repeating group
#[derive(Debug)]
pub struct Group {
    pub id: u32,
    pub name: String,
    pub required: bool,
    pub num_in_group_tag: u32,
    /// Ordered collection of child elements (fields, components, groups)
    pub elements: Vec<MessageElement>,
    /// Pre-computed set of all member field IDs (including nested components)
    pub members: HashSet<u32>,
}

#[derive(Debug)]
pub enum Block {
    Group(Group),
    Component(Component),
}

/// Represents a FIX version (e.g., FIX.4.4, FIX.5.0SP2)
#[derive(Debug)]
pub struct FixVersion {
    pub name: String,
    pub version: String,
    pub fields: HashMap<u32, Arc<Field>>,
    pub components: HashMap<u32, Arc<Component>>,
    pub groups: HashMap<u32, Arc<Group>>,
    pub messages: NameMap<Arc<Message>>,
    pub codesets: NameMap<Arc<Vec<EnumValue>>>,
    pub begin_string: String,
}

/// The main repository struct containing all FIX metadata
#[derive(Debug)]
pub struct FixRepository {
    pub versions: NameMap<Arc<FixVersion>>,
}

// ---------------------------------------------------------------------------
// Definitions by what they say
// ---------------------------------------------------------------------------

pub ghost struct FieldView {
    pub id: u32,
    pub name: Seq<char>,
    pub field_type: Seq<char>,
}

pub ghost struct EnumView {
    pub value: Seq<char>,
    pub name: Seq<char>,
    pub sort: u32,
}

pub ghost struct ComponentView {
    pub id: u32,
    pub name: Seq<char>,
    pub category: Option<Seq<char>>,
    pub elements: Seq<MessageElement>,
    pub members: Set<u32>,
}

pub ghost struct DefinitionView {
    pub name: Seq<char>,
    pub msg_type: Seq<char>,
    pub category: Option<Seq<char>>,
    pub description: Option<Seq<char>>,
    pub elements: Seq<MessageElement>,
}

pub ghost struct GroupView {
    pub id: u32,
    pub name: Seq<char>,
    pub required: bool,
    pub num_in_group_tag: u32,
    pub elements: Seq<MessageElement>,
    pub members: Set<u32>,
}

pub ghost enum BlockView {
    Group(GroupView),
    Component(ComponentView),
}

pub ghost struct VersionView {
    pub name: Seq<char>,
    pub version: Seq<char>,
    pub fields: Map<u32, FieldView>,
    pub components: Map<u32, ComponentView>,
    pub groups: Map<u32, GroupView>,
    pub messages: Map<Seq<char>, DefinitionView>,
    pub codesets: Map<Seq<char>, Seq<EnumView>>,
    pub begin_string: Seq<char>,
}

impl View for Field {
    type V = FieldView;

    open spec fn view(&self) -> FieldView {
        FieldView { id: self.id, name: self.name@, field_type: self.field_type@ }
    }
}

impl View for EnumValue {
    type V = EnumView;

    open spec fn view(&self) -> EnumView {
        EnumView { value: self.value@, name: self.name@, sort: self.sort }
    }
}

impl View for Component {
    type V = ComponentView;

    open spec fn view(&self) -> ComponentView {
        ComponentView {
            id: self.id,
            name: self.name@,
            category: text_of(self.category),
            elements: self.elements@,
            members: self.members@,
        }
    }
}

impl View for Message {
    type V = DefinitionView;

    open spec fn view(&self) -> DefinitionView {
        DefinitionView {
            name: self.name@,
            msg_type: self.msg_type@,
            category: text_of(self.category),
            description: text_of(self.description),
            elements: self.elements@,
        }
    }
}

impl View for Group {
    type V = GroupView;

    open spec fn view(&self) -> GroupView {
        GroupView {
            id: self.id,
            name: self.name@,
            required: self.required,
            num_in_group_tag: self.num_in_group_tag,
            elements: self.elements@,
            members: self.members@,
        }
    }
}

impl View for Block {
    type V = BlockView;

    open spec fn view(&self) -> BlockView {
        match self {
            Block::Group(g) => BlockView::Group(g@),
            Block::Component(c) => BlockView::Component(c@),
        }
    }
}

impl View for FixVersion {
    type V = VersionView;

    open spec fn view(&self) -> VersionView {
        VersionView {
            name: self.name@,
            version: self.version@,
            fields: self.fields@.map_values(|f: Arc<Field>| f@),
            components: self.components@.map_values(|c: Arc<Component>| c@),
            groups: self.groups@.map_values(|g: Arc<Group>| g@),
            messages: Map::new(
                |k: Seq<char>| self.messages.value(k) is Some,
                |k: Seq<char>| self.messages.value(k)->0@,
            ),
            codesets: Map::new(
                |k: Seq<char>| self.codesets.value(k) is Some,
                |k: Seq<char>| codes_view(self.codesets.value(k)->0@),
            ),
            begin_string: self.begin_string@,
        }
    }
}

pub open spec fn codes_view(codes: Seq<EnumValue>) -> Seq<EnumView> {
    codes.map_values(|c: EnumValue| c@)
}

/// Which elements the components hold, and which tag counts each group.
pub ghost struct Structure {
    pub components: Map<u32, Seq<MessageElement>>,
    pub groups: Map<u32, u32>,
}

impl Structure {
    /// How deep components can nest: a chain in which none occurs twice holds
    /// each of them at most once.
    pub open spec fn depth(self) -> nat {
        self.components.dom().len()
    }

    /// `field` belongs to this element, by the definitions alone: through at
    /// most `levels` nested components.
    pub open spec fn element_reaches(
        self,
        element: MessageElement,
        field: u32,
        levels: nat,
    ) -> bool
        decreases levels, 0nat,
    {
        match element {
            MessageElement::Field(r) => r.field_id == field,
            MessageElement::Component(r) => levels > 0 && self.components.dom().contains(
                r.component_id,
            ) && self.reaches(self.components[r.component_id], field, (levels - 1) as nat),
            // The members of a group are not members of what holds the group.
            MessageElement::Group(r) => self.groups.dom().contains(r.group_id)
                && self.groups[r.group_id] == field,
        }
    }

    pub open spec fn reaches(
        self,
        elements: Seq<MessageElement>,
        field: u32,
        levels: nat,
    ) -> bool
        decreases levels, 1nat,
    {
        exists|i: int|
            0 <= i < elements.len() && self.element_reaches(#[trigger] elements[i], field, levels)
    }
}

impl VersionView {
    pub open spec fn structure(self) -> Structure {
        Structure {
            components: self.components.map_values(|c: ComponentView| c.elements),
            groups: self.groups.map_values(|g: GroupView| g.num_in_group_tag),
        }
    }

    /// The version with every member set filled in: all fields that a component
    /// reaches, and for a group its NumInGroup tag besides.
    pub open spec fn completed(self) -> VersionView {
        let s = self.structure();
        VersionView {
            components: self.components.map_values(
                |c: ComponentView|
                    ComponentView {
                        members: Set::new(|t: u32| s.reaches(c.elements, t, s.depth())),
                        ..c
                    },
            ),
            groups: self.groups.map_values(
                |g: GroupView|
                    GroupView {
                        members: Set::new(
                            |t: u32|
                                t == g.num_in_group_tag || s.reaches(g.elements, t, s.depth()),
                        ),
                        ..g
                    },
            ),
            ..self
        }
    }

    /// A version that defines nothing.
    pub open spec fn empty() -> VersionView {
        VersionView {
            name: Seq::empty(),
            version: Seq::empty(),
            fields: Map::empty(),
            components: Map::empty(),
            groups: Map::empty(),
            messages: Map::empty(),
            codesets: Map::empty(),
            begin_string: Seq::empty(),
        }
    }
}

impl Field {
    pub fn enum_values(&self, fix_repo: &FixVersion) -> (r: Option<Arc<Vec<EnumValue>>>)
        ensures
            r == fix_repo.codesets.value(self.field_type@),
    {
        match fix_repo.codesets.get(self.field_type.as_str()) {
            Some(v) => Some(v.clone()),
            None => None,
        }
    }
}

// ---------------------------------------------------------------------------
// Blocks of elements
// ---------------------------------------------------------------------------

/// Something that holds an ordered list of elements.
pub trait FieldBlock {
    spec fn elements(&self) -> Seq<MessageElement>;

    /// The member set that was computed ahead, where there is one.
    spec fn cached(&self) -> Option<Set<u32>>;

    fn get_elements(&self) -> (r: &Vec<MessageElement>)
        ensures
            r@ == self.elements(),
    ;

    fn get_members(&self) -> (r: Option<&HashSet<u32>>)
        ensures
            match r {
                Some(m) => self.cached() == Some(m@),
                None => self.cached() is None,
            },
    ;

    fn is_member(&self, fix: &FixVersion, field: u32) -> (r: bool)
        ensures
            r == match self.cached() {
                Some(members) => members.contains(field),
                None => fix.has_member(self.elements(), field),
            },
    {
        if let Some(members) = self.get_members() {
            return members.contains(&field);
        }
        self.is_member_slow(fix, field)
    }

    fn is_member_slow(&self, fix: &FixVersion, field: u32) -> (r: bool)
        ensures
            r == fix.has_member(self.elements(), field),
    {
        let elements = self.get_elements();
        let mut i: usize = 0;
        while i < elements.len()
            invariant
                elements@ == self.elements(),
                i <= elements@.len(),
                forall|k: int| 0 <= k < i ==> !fix.element_has(#[trigger] elements@[k], field),
            decreases elements@.len() - i,
        {
            if fix.element_contains(elements[i], field) {
                assert(fix.element_has(self.elements()[i as int], field));
                return true;
            }
            i += 1;
        }
        false
    }
}

impl FieldBlock for Component {
    open spec fn elements(&self) -> Seq<MessageElement> {
        self.elements@
    }

    open spec fn cached(&self) -> Option<Set<u32>> {
        Some(self.members@)
    }

    fn get_elements(&self) -> (r: &Vec<MessageElement>) {
        &self.elements
    }

    fn get_members(&self) -> (r: Option<&HashSet<u32>>) {
        Some(&self.members)
    }
}

impl FieldBlock for Message {
    open spec fn elements(&self) -> Seq<MessageElement> {
        self.elements@
    }

    open spec fn cached(&self) -> Option<Set<u32>> {
        None
    }

    fn get_elements(&self) -> (r: &Vec<MessageElement>) {
        &self.elements
    }

    fn get_members(&self) -> (r: Option<&HashSet<u32>>) {
        None
    }
}

impl FieldBlock for Group {
    open spec fn elements(&self) -> Seq<MessageElement> {
        self.elements@
    }

    open spec fn cached(&self) -> Option<Set<u32>> {
        Some(self.members@)
    }

    fn get_elements(&self) -> (r: &Vec<MessageElement>) {
        &self.elements
    }

    fn get_members(&self) -> (r: Option<&HashSet<u32>>) {
        Some(&self.members)
    }
}

impl FieldBlock for Block {
    open spec fn elements(&self) -> Seq<MessageElement> {
        match self {
            Block::Group(group) => group.elements@,
            Block::Component(comp) => comp.elements@,
        }
    }

    open spec fn cached(&self) -> Option<Set<u32>> {
        match self {
            Block::Group(group) => Some(group.members@),
            Block::Component(comp) => Some(comp.members@),
        }
    }

    fn get_elements(&self) -> (r: &Vec<MessageElement>) {
        match self {
            Block::Group(group) => &group.elements,
            Block::Component(comp) => &comp.elements,
        }
    }

    fn get_members(&self) -> (r: Option<&HashSet<u32>>) {
        match self {
            Block::Group(group) => Some(&group.members),
            Block::Component(comp) => Some(&comp.members),
        }
    }
}

// ---------------------------------------------------------------------------
// What a version says
// ---------------------------------------------------------------------------

impl FixVersion {
    pub open spec fn field(&self, id: u32) -> Option<Arc<Field>> {
        if self.fields@.dom().contains(id) {
            Some(self.fields@[id])
        } else {
            None
        }
    }

    pub open spec fn component(&self, id: u32) -> Option<Arc<Component>> {
        if self.components@.dom().contains(id) {
            Some(self.components@[id])
        } else {
            None
        }
    }

    pub open spec fn group(&self, id: u32) -> Option<Arc<Group>> {
        if self.groups@.dom().contains(id) {
            Some(self.groups@[id])
        } else {
            None
        }
    }

    /// The datatype of field `id`, where the version defines it.
    pub open spec fn field_type(&self, id: u32) -> Option<Seq<char>> {
        match self.field(id) {
            Some(f) => Some(f.field_type@),
            None => None,
        }
    }

    pub open spec fn structure(&self) -> Structure {
        self@.structure()
    }

    /// How deep components can nest.
    pub open spec fn depth(&self) -> nat {
        self.components@.dom().len()
    }

    /// `field` belongs to this element, by the member sets of the components.
    pub open spec fn element_has(&self, element: MessageElement, field: u32) -> bool {
        match element {
            MessageElement::Field(r) => r.field_id == field,
            MessageElement::Component(r) => self.component(r.component_id) matches Some(c)
                && c.members@.contains(field),
            // The members of a group are not members of what holds the group.
            MessageElement::Group(r) => self.group(r.group_id) matches Some(g)
                && g.num_in_group_tag == field,
        }
    }

    pub open spec fn has_member(&self, elements: Seq<MessageElement>, field: u32) -> bool {
        exists|i: int| 0 <= i < elements.len() && self.element_has(#[trigger] elements[i], field)
    }

    pub open spec fn reaches(
        &self,
        elements: Seq<MessageElement>,
        field: u32,
        levels: nat,
    ) -> bool {
        self.structure().reaches(elements, field, levels)
    }

    /// Every member set holds what the definitions say it should.
    pub open spec fn members_exact(&self) -> bool {
        &&& forall|id: u32, t: u32|
            #![trigger self.components@[id].members@.contains(t)]
            self.components@.dom().contains(id) ==> (self.components@[id].members@.contains(t)
                <==> self.reaches(self.components@[id].elements@, t, self.depth()))
        &&& forall|id: u32, t: u32|
            #![trigger self.groups@[id].members@.contains(t)]
            self.groups@.dom().contains(id) ==> (self.groups@[id].members@.contains(t) <==> (t
                == self.groups@[id].num_in_group_tag || self.reaches(
                self.groups@[id].elements@,
                t,
                self.depth(),
            )))
    }

    /// The first group, in document order, whose NumInGroup tag is `tag`,
    /// among the elements from `i` on and their components.
    pub open spec fn group_in(
        &self,
        elements: Seq<MessageElement>,
        tag: u32,
        i: int,
        levels: nat,
    ) -> Option<Arc<Group>>
        decreases levels, elements.len() - i,
    {
        if i < 0 || i >= elements.len() {
            None
        } else {
            let here = match elements[i] {
                MessageElement::Field(_) => None,
                MessageElement::Component(r) => match self.component(r.component_id) {
                    Some(c) => if levels > 0 {
                        self.group_in(c.elements@, tag, 0, (levels - 1) as nat)
                    } else {
                        None
                    },
                    None => None,
                },
                MessageElement::Group(r) => match self.group(r.group_id) {
                    Some(g) => if g.num_in_group_tag == tag {
                        Some(g)
                    } else {
                        None
                    },
                    None => None,
                },
            };
            if here is Some {
                here
            } else {
                self.group_in(elements, tag, i + 1, levels)
            }
        }
    }

    /// The group that `tag` counts in a block with these elements.
    pub open spec fn group_for(&self, elements: Seq<MessageElement>, tag: u32) -> Option<
        Arc<Group>,
    > {
        self.group_in(elements, tag, 0, self.depth())
    }

    /// The tag that opens an entry: that of the first element from `i` on that
    /// the version knows.
    pub open spec fn marker_in(
        &self,
        elements: Seq<MessageElement>,
        i: int,
        levels: nat,
    ) -> Option<u32>
        decreases levels, elements.len() - i,
    {
        if i < 0 || i >= elements.len() {
            None
        } else {
            match elements[i] {
                MessageElement::Field(r) => Some(r.field_id),
                MessageElement::Component(r) => match self.component(r.component_id) {
                    Some(c) => if levels > 0 {
                        self.marker_in(c.elements@, 0, (levels - 1) as nat)
                    } else {
                        None
                    },
                    None => self.marker_in(elements, i + 1, levels),
                },
                MessageElement::Group(r) => match self.group(r.group_id) {
                    Some(g) => Some(g.num_in_group_tag),
                    None => self.marker_in(elements, i + 1, levels),
                },
            }
        }
    }

    pub open spec fn marker(&self, elements: Seq<MessageElement>) -> Option<u32> {
        self.marker_in(elements, 0, self.depth())
    }

    /// How deep components and groups can nest.
    pub open spec fn full_depth(&self) -> nat {
        let n = self.components@.dom().len() + self.groups@.dom().len();
        if n > usize::MAX {
            usize::MAX as nat
        } else {
            n
        }
    }

    /// The fields of a block in document order. Groups are opened in place,
    /// behind their NumInGroup field.
    pub open spec fn flat_refs(
        &self,
        elements: Seq<MessageElement>,
        i: int,
        levels: nat,
    ) -> Seq<FieldRef>
        decreases levels, elements.len() - i,
    {
        if i < 0 || i >= elements.len() {
            seq![]
        } else {
            let here = match elements[i] {
                MessageElement::Field(r) => seq![r],
                MessageElement::Component(r) => match self.component(r.component_id) {
                    Some(c) => if levels > 0 {
                        self.flat_refs(c.elements@, 0, (levels - 1) as nat)
                    } else {
                        seq![]
                    },
                    None => seq![],
                },
                MessageElement::Group(r) => match self.group(r.group_id) {
                    Some(g) => seq![
                        FieldRef { field_id: g.num_in_group_tag, required: g.required },
                    ] + (if levels > 0 {
                        self.flat_refs(g.elements@, 0, (levels - 1) as nat)
                    } else {
                        seq![]
                    }),
                    None => seq![],
                },
            };
            here + self.flat_refs(elements, i + 1, levels)
        }
    }

    /// The tags of a block in document order: its fields, those of its
    /// components, and the NumInGroup tags of its groups.
    pub open spec fn tags_in(
        &self,
        elements: Seq<MessageElement>,
        i: int,
        levels: nat,
    ) -> Seq<u32>
        decreases levels, elements.len() - i,
    {
        if i < 0 || i >= elements.len() {
            seq![]
        } else {
            let here = match elements[i] {
                MessageElement::Field(r) => seq![r.field_id],
                MessageElement::Component(r) => match self.component(r.component_id) {
                    Some(c) => if levels > 0 {
                        self.tags_in(c.elements@, 0, (levels - 1) as nat)
                    } else {
                        seq![]
                    },
                    None => seq![],
                },
                MessageElement::Group(r) => match self.group(r.group_id) {
                    Some(g) => seq![g.num_in_group_tag],
                    None => seq![],
                },
            };
            here + self.tags_in(elements, i + 1, levels)
        }
    }

    /// The order in which a block lists its tags.
    pub open spec fn canonical(&self, elements: Seq<MessageElement>) -> Seq<u32> {
        self.tags_in(elements, 0, self.depth())
    }

    /// `id` is the smallest that a component of this name has.
    pub open spec fn first_named(&self, name: Seq<char>, id: u32) -> bool {
        &&& self.components@.dom().contains(id)
        &&& self.components@[id].name@ == name
        &&& forall|other: u32|
            #![trigger self.components@[other]]
            self.components@.dom().contains(other) && self.components@[other].name@ == name ==> id
                <= other
    }

    pub open spec fn component_named(&self, name: Seq<char>) -> Option<Arc<Component>> {
        if exists|id: u32| self.first_named(name, id) {
            Some(self.components@[choose|id: u32| self.first_named(name, id)])
        } else {
            None
        }
    }

    pub open spec fn first_group_named(&self, name: Seq<char>, id: u32) -> bool {
        &&& self.groups@.dom().contains(id)
        &&& self.groups@[id].name@ == name
        &&& forall|other: u32|
            #![trigger self.groups@[other]]
            self.groups@.dom().contains(other) && self.groups@[other].name@ == name ==> id <= other
    }

    pub open spec fn group_named(&self, name: Seq<char>) -> Option<Arc<Group>> {
        if exists|id: u32| self.first_group_named(name, id) {
            Some(self.groups@[choose|id: u32| self.first_group_named(name, id)])
        } else {
            None
        }
    }
}

// ---------------------------------------------------------------------------
// Looking things up
// ---------------------------------------------------------------------------

impl FixVersion {
    /// A version that defines nothing.
    pub fn new() -> (r: Self)
        ensures
            r.name@ == Seq::<char>::empty(),
            r.version@ == Seq::<char>::empty(),
            r.begin_string@ == Seq::<char>::empty(),
            r.fields@ == Map::<u32, Arc<Field>>::empty(),
            r.components@ == Map::<u32, Arc<Component>>::empty(),
            r.groups@ == Map::<u32, Arc<Group>>::empty(),
            r.messages.entries@.len() == 0,
            r.codesets.entries@.len() == 0,
            r@ == VersionView::empty(),
    {
        let r = FixVersion {
            name: String::new(),
            version: String::new(),
            fields: HashMap::new(),
            components: HashMap::new(),
            groups: HashMap::new(),
            messages: NameMap::new(),
            codesets: NameMap::new(),
            begin_string: String::new(),
        };
        assert(r@.fields =~= Map::empty());
        assert(r@.components =~= Map::empty());
        assert(r@.groups =~= Map::empty());
        assert(r@.messages =~= Map::empty());
        assert(r@.codesets =~= Map::empty());
        r
    }

    /// Get a field by ID
    pub fn get_field(&self, id: u32) -> (r: Option<Arc<Field>>)
        ensures
            r == self.field(id),
    {
        match self.fields.get(&id) {
            Some(f) => Some(f.clone()),
            None => None,
        }
    }

    /// Whether field `id` is defined with this datatype.
    pub fn has_type(&self, id: u32, datatype: &str) -> (r: bool)
        ensures
            r == (self.field_type(id) == Some(datatype@)),
    {
        match self.fields.get(&id) {
            Some(f) => text_eq(f.field_type.as_str(), datatype),
            None => false,
        }
    }

    pub fn get_message(&self, name: &str) -> (r: Option<Arc<Message>>)
        ensures
            r == self.messages.value(name@),
    {
        match self.messages.get(name) {
            Some(m) => Some(m.clone()),
            None => None,
        }
    }

    pub fn get_component(&self, id: u32) -> (r: Option<Arc<Component>>)
        ensures
            r == self.component(id),
    {
        match self.components.get(&id) {
            Some(c) => Some(c.clone()),
            None => None,
        }
    }

    /// The component of this name; of several, the one with the smallest ID.
    pub fn get_component_by_name(&self, name: &str) -> (r: Option<Arc<Component>>)
        ensures
            r == self.component_named(name@),
    {
        let keys = map_keys(&self.components);
        let mut best: Option<u32> = None;
        let mut i: usize = 0;
        while i < keys.len()
            invariant
                i <= keys@.len(),
                forall|k: u32| keys@.contains(k) <==> self.components@.dom().contains(k),
                match best {
                    Some(id) => {
                        &&& self.components@.dom().contains(id)
                        &&& self.components@[id].name@ == name@
                        &&& forall|k: int|
                            0 <= k < i && self.components@[#[trigger] keys@[k]].name@ == name@
                                ==> id <= keys@[k]
                    },
                    None => forall|k: int|
                        0 <= k < i ==> self.components@[#[trigger] keys@[k]].name@ != name@,
                },
            decreases keys@.len() - i,
        {
            let id: u32 = keys[i];
            assert(keys@.contains(id));
            if let Some(c) = self.components.get(&id) {
                if text_eq(c.name.as_str(), name) {
                    match best {
                        Some(b) if b <= id => {},
                        _ => {
                            best = Some(id);
                        },
                    }
                }
            }
            i += 1;
        }
        proof {
            assert forall|other: u32| #[trigger]
                self.components@.dom().contains(other) && self.components@[other].name@
                    == name@ implies best matches Some(id) && id <= other by {
                assert(keys@.contains(other));
                let k = choose|k: int| 0 <= k < keys@.len() && keys@[k] == other;
                assert(self.components@[keys@[k]].name@ == name@);
            }
            if let Some(id) = best {
                assert(self.first_named(name@, id));
                let chosen = choose|id: u32| self.first_named(name@, id);
                assert(self.components@[id].name@ == name@ && self.components@[chosen].name@
                    == name@);
                assert(chosen == id);
            }
        }
        match best {
            Some(id) => self.get_component(id),
            None => None,
        }
    }

    pub fn get_group(&self, group_id: u32) -> (r: Option<Arc<Group>>)
        ensures
            r == self.group(group_id),
    {
        match self.groups.get(&group_id) {
            Some(g) => Some(g.clone()),
            None => None,
        }
    }

    /// The group of this name; of several, the one with the smallest ID.
    pub fn get_group_by_name(&self, name: &str) -> (r: Option<Arc<Group>>)
        ensures
            r == self.group_named(name@),
    {
        let keys = map_keys(&self.groups);
        let mut best: Option<u32> = None;
        let mut i: usize = 0;
        while i < keys.len()
            invariant
                i <= keys@.len(),
                forall|k: u32| keys@.contains(k) <==> self.groups@.dom().contains(k),
                match best {
                    Some(id) => {
                        &&& self.groups@.dom().contains(id)
                        &&& self.groups@[id].name@ == name@
                        &&& forall|k: int|
                            0 <= k < i && self.groups@[#[trigger] keys@[k]].name@ == name@ ==> id
                                <= keys@[k]
                    },
                    None => forall|k: int|
                        0 <= k < i ==> self.groups@[#[trigger] keys@[k]].name@ != name@,
                },
            decreases keys@.len() - i,
        {
            let id: u32 = keys[i];
            assert(keys@.contains(id));
            if let Some(g) = self.groups.get(&id) {
                if text_eq(g.name.as_str(), name) {
                    match best {
                        Some(b) if b <= id => {},
                        _ => {
                            best = Some(id);
                        },
                    }
                }
            }
            i += 1;
        }
        proof {
            assert forall|other: u32| #[trigger]
                self.groups@.dom().contains(other) && self.groups@[other].name@
                    == name@ implies best matches Some(id) && id <= other by {
                assert(keys@.contains(other));
                let k = choose|k: int| 0 <= k < keys@.len() && keys@[k] == other;
                assert(self.groups@[keys@[k]].name@ == name@);
            }
            if let Some(id) = best {
                assert(self.first_group_named(name@, id));
                let chosen = choose|id: u32| self.first_group_named(name@, id);
                assert(self.groups@[id].name@ == name@ && self.groups@[chosen].name@ == name@);
                assert(chosen == id);
            }
        }
        match best {
            Some(id) => self.get_group(id),
            None => None,
        }
    }

    fn element_contains(&self, element: MessageElement, field: u32) -> (r: bool)
        ensures
            r == self.element_has(element, field),
    {
        match element {
            MessageElement::Field(r) => r.field_id == field,
            MessageElement::Component(r) => match self.components.get(&r.component_id) {
                Some(c) => c.members.contains(&field),
                None => false,
            },
            MessageElement::Group(r) => match self.groups.get(&r.group_id) {
                Some(g) => g.num_in_group_tag == field,
                None => false,
            },
        }
    }

    fn find_group(&self, elements: &Vec<MessageElement>, tag: u32, levels: usize) -> (r: Option<
        Arc<Group>,
    >)
        ensures
            r == self.group_in(elements@, tag, 0, levels as nat),
        decreases levels,
    {
        let mut i: usize = 0;
        while i < elements.len()
            invariant
                i <= elements@.len(),
                self.group_in(elements@, tag, 0, levels as nat) == self.group_in(
                    elements@,
                    tag,
                    i as int,
                    levels as nat,
                ),
            decreases elements@.len() - i,
        {
            match elements[i] {
                MessageElement::Field(_) => {},
                MessageElement::Component(r) => {
                    if let Some(c) = self.get_component(r.component_id) {
                        if levels > 0 {
                            let found = self.find_group(&c.elements, tag, levels - 1);
                            if found.is_some() {
                                return found;
                            }
                        }
                    }
                },
                MessageElement::Group(r) => {
                    if let Some(g) = self.get_group(r.group_id) {
                        if g.num_in_group_tag == tag {
                            return Some(g);
                        }
                    }
                },
            }
            i += 1;
        }
        None
    }

    /// The group that `tag` counts in a block with these elements.
    pub(crate) fn group_for_tag(&self, elements: &Vec<MessageElement>, tag: u32) -> (r: Option<
        Arc<Group>,
    >)
        ensures
            r == self.group_for(elements@, tag),
    {
        self.find_group(elements, tag, self.components.len())
    }

    pub fn get_group_by_num_in_group_tag<T: FieldBlock>(
        &self,
        message: &T,
        num_in_group_tag: u32,
    ) -> (r: Option<Arc<Group>>)
        ensures
            r == self.group_for(message.elements(), num_in_group_tag),
    {
        self.group_for_tag(message.get_elements(), num_in_group_tag)
    }

    fn find_marker(&self, elements: &Vec<MessageElement>, levels: usize) -> (r: Option<u32>)
        ensures
            r == self.marker_in(elements@, 0, levels as nat),
        decreases levels,
    {
        let mut i: usize = 0;
        while i < elements.len()
            invariant
                i <= elements@.len(),
                self.marker_in(elements@, 0, levels as nat) == self.marker_in(
                    elements@,
                    i as int,
                    levels as nat,
                ),
            decreases elements@.len() - i,
        {
            match elements[i] {
                MessageElement::Field(r) => {
                    return Some(r.field_id);
                },
                MessageElement::Component(r) => {
                    if let Some(c) = self.get_component(r.component_id) {
                        if levels == 0 {
                            return None;
                        }
                        return self.find_marker(&c.elements, levels - 1);
                    }
                },
                MessageElement::Group(r) => {
                    if let Some(g) = self.get_group(r.group_id) {
                        return Some(g.num_in_group_tag);
                    }
                },
            }
            i += 1;
        }
        None
    }

    fn flatten_elements(
        &self,
        elements: &Vec<MessageElement>,
        field_refs: &mut Vec<FieldRef>,
        levels: usize,
    )
        ensures
            final(field_refs)@ == old(field_refs)@ + self.flat_refs(elements@, 0, levels as nat),
        decreases levels,
    {
        let mut i: usize = 0;
        let ghost all = old(field_refs)@ + self.flat_refs(elements@, 0, levels as nat);
        while i < elements.len()
            invariant
                i <= elements@.len(),
                field_refs@ + self.flat_refs(elements@, i as int, levels as nat) == all,
            decreases elements@.len() - i,
        {
            let ghost before = field_refs@;
            let ghost rest = self.flat_refs(elements@, i + 1, levels as nat);
            match elements[i] {
                MessageElement::Field(r) => {
                    field_refs.push(r);
                    assert(before + (seq![r] + rest) =~= field_refs@ + rest);
                },
                MessageElement::Component(r) => {
                    if let Some(c) = self.get_component(r.component_id) {
                        if levels > 0 {
                            self.flatten_elements(&c.elements, field_refs, levels - 1);
                        }
                    }
                    assert(field_refs@ + rest =~= before + self.flat_refs(
                        elements@,
                        i as int,
                        levels as nat,
                    ));
                },
                MessageElement::Group(r) => {
                    if let Some(g) = self.get_group(r.group_id) {
                        field_refs.push(
                            FieldRef { field_id: g.num_in_group_tag, required: g.required },
                        );
                        if levels > 0 {
                            self.flatten_elements(&g.elements, field_refs, levels - 1);
                        }
                    }
                    assert(field_refs@ + rest =~= before + self.flat_refs(
                        elements@,
                        i as int,
                        levels as nat,
                    ));
                },
            }
            i += 1;
        }
        assert(field_refs@ =~= all);
    }

    /// Get ordered list of fields for a message, component, or group
    /// Returns a flat list of fields in document order
    pub fn get_fields<T: FieldBlock>(&self, block: &T) -> (r: Vec<Arc<Field>>)
        requires
            forall|k: int|
                #![trigger self.flat_refs(block.elements(), 0, self.full_depth())[k]]
                0 <= k < self.flat_refs(block.elements(), 0, self.full_depth()).len()
                    ==> self.fields@.dom().contains(
                    self.flat_refs(block.elements(), 0, self.full_depth())[k].field_id,
                ),
        ensures
            r@ == self.flat_refs(block.elements(), 0, self.full_depth()).map_values(
                |f: FieldRef| self.fields@[f.field_id],
            ),
    {
        let mut refs: Vec<FieldRef> = Vec::new();
        let levels: usize = self.components.len().saturating_add(self.groups.len());
        self.flatten_elements(block.get_elements(), &mut refs, levels);
        let ghost flat = self.flat_refs(block.elements(), 0, self.full_depth());
        assert(refs@ =~= flat);
        let mut r: Vec<Arc<Field>> = Vec::new();
        let mut i: usize = 0;
        while i < refs.len()
            invariant
                refs@ == flat,
                i <= refs@.len(),
                r@.len() == i,
                forall|k: int| 0 <= k < flat.len() ==> self.fields@.dom().contains(
                    (#[trigger] flat[k]).field_id,
                ),
                forall|k: int| 0 <= k < i ==> #[trigger] r@[k] == self.fields@[flat[k].field_id],
            decreases refs@.len() - i,
        {
            assert(self.fields@.dom().contains(flat[i as int].field_id));
            let id: u32 = refs[i].field_id;
            if let Some(f) = self.fields.get(&id) {
                r.push(f.clone());
            }
            i += 1;
        }
        assert(r@ =~= flat.map_values(|f: FieldRef| self.fields@[f.field_id]));
        r
    }
}

// ---------------------------------------------------------------------------
// Member sets
// ---------------------------------------------------------------------------

/// The structure of a version, by its maps.
pub(crate) proof fn lemma_structure(fix: &FixVersion)
    ensures
        fix.structure().components.dom() == fix.components@.dom(),
        fix.structure().groups.dom() == fix.groups@.dom(),
        fix.structure().depth() == fix.depth(),
        forall|id: u32| #[trigger]
            fix.components@.dom().contains(id) ==> fix.structure().components[id]
                == fix.components@[id].elements@,
        forall|id: u32| #[trigger]
            fix.groups@.dom().contains(id) ==> fix.structure().groups[id]
                == fix.groups@[id].num_in_group_tag,
{
    assert(fix.structure().components.dom() =~= fix.components@.dom());
    assert(fix.structure().groups.dom() =~= fix.groups@.dom());
}

/// Filling in the member sets leaves the structure as it was, and gives every
/// member set what the definitions say.
proof fn lemma_completed(v: VersionView)
    ensures
        v.completed().structure() == v.structure(),
{
    assert(v.completed().structure().components =~= v.structure().components);
    assert(v.completed().structure().groups =~= v.structure().groups);
}

/// Once the member sets are computed, asking a block for a field by way of the
/// member sets of its components gives what the definitions say.
pub proof fn law_membership_by_definition(
    fix: &FixVersion,
    elements: Seq<MessageElement>,
    field: u32,
)
    requires
        fix.members_exact(),
    ensures
        fix.has_member(elements, field) <==> fix.reaches(elements, field, fix.depth() + 1),
{
    let levels = fix.depth() + 1;
    let st = fix.structure();
    lemma_structure(fix);
    assert forall|i: int| 0 <= i < elements.len() implies fix.element_has(
        #[trigger] elements[i],
        field,
    ) == st.element_reaches(elements[i], field, levels) by {
        match elements[i] {
            MessageElement::Component(r) => {
                if fix.components@.dom().contains(r.component_id) {
                    assert(fix.components@[r.component_id].members@.contains(field)
                        <==> fix.reaches(
                        fix.components@[r.component_id].elements@,
                        field,
                        fix.depth(),
                    ));
                }
            },
            _ => {},
        }
    }
    if fix.has_member(elements, field) {
        let i = choose|i: int|
            0 <= i < elements.len() && fix.element_has(#[trigger] elements[i], field);
        assert(st.element_reaches(elements[i], field, levels));
    }
    if fix.reaches(elements, field, levels) {
        let i = choose|i: int|
            0 <= i < elements.len() && st.element_reaches(#[trigger] elements[i], field, levels);
        assert(fix.element_has(elements[i], field));
    }
}

fn copy_elements(elements: &Vec<MessageElement>) -> (r: Vec<MessageElement>)
    ensures
        r@ == elements@,
{
    let mut r: Vec<MessageElement> = Vec::new();
    let mut i: usize = 0;
    while i < elements.len()
        invariant
            i <= elements@.len(),
            r@ == elements@.take(i as int),
        decreases elements@.len() - i,
    {
        r.push(elements[i]);
        i += 1;
        assert(r@ =~= elements@.take(i as int));
    }
    assert(r@ =~= elements@);
    r
}

impl FixVersion {
    fn collect_members_from_elements(
        &self,
        elements: &Vec<MessageElement>,
        members: &mut HashSet<u32>,
        levels: usize,
    )
        ensures
            forall|t: u32| #[trigger]
                final(members)@.contains(t) <==> old(members)@.contains(t) || self.reaches(
                    elements@,
                    t,
                    levels as nat,
                ),
        decreases levels,
    {
        proof {
            lemma_structure(self);
        }
        let mut i: usize = 0;
        while i < elements.len()
            invariant
                i <= elements@.len(),
                forall|t: u32| #[trigger]
                    members@.contains(t) <==> old(members)@.contains(t) || exists|k: int|
                        0 <= k < i && self.structure().element_reaches(
                            #[trigger] elements@[k],
                            t,
                            levels as nat,
                        ),
            decreases elements@.len() - i,
        {
            let ghost before = members@;
            proof {
                lemma_structure(self);
            }
            match elements[i] {
                MessageElement::Field(r) => {
                    members.insert(r.field_id);
                },
                MessageElement::Component(r) => {
                    if let Some(c) = self.get_component(r.component_id) {
                        if levels > 0 {
                            self.collect_members_from_elements(&c.elements, members, levels - 1);
                        }
                    }
                },
                MessageElement::Group(r) => {
                    if let Some(g) = self.get_group(r.group_id) {
                        members.insert(g.num_in_group_tag);
                    }
                },
            }
            assert forall|t: u32| #[trigger]
                members@.contains(t) <==> before.contains(t) || self.structure().element_reaches(
                    elements@[i as int],
                    t,
                    levels as nat,
                ) by {}
            i += 1;
            assert forall|t: u32| #[trigger]
                members@.contains(t) <==> old(members)@.contains(t) || exists|k: int|
                    0 <= k < i && self.structure().element_reaches(
                        #[trigger] elements@[k],
                        t,
                        levels as nat,
                    ) by {
                if self.structure().element_reaches(elements@[i - 1], t, levels as nat) {
                    assert(members@.contains(t));
                } else if before.contains(t) && !old(members)@.contains(t) {
                    let k = choose|k: int|
                        0 <= k < i - 1 && self.structure().element_reaches(
                            #[trigger] elements@[k],
                            t,
                            levels as nat,
                        );
                    assert(self.structure().element_reaches(elements@[k], t, levels as nat));
                }
            }
        }
    }

    fn collect_members_for_component(&self, id: u32) -> (r: HashSet<u32>)
        ensures
            forall|t: u32| #[trigger]
                r@.contains(t) <==> (self.component(id) matches Some(c) && self.reaches(
                    c.elements@,
                    t,
                    self.depth(),
                )),
    {
        let mut members: HashSet<u32> = HashSet::new();
        if let Some(c) = self.get_component(id) {
            self.collect_members_from_elements(&c.elements, &mut members, self.components.len());
        }
        members
    }

    fn collect_members_for_group(&self, id: u32) -> (r: HashSet<u32>)
        ensures
            forall|t: u32| #[trigger]
                r@.contains(t) <==> (self.group(id) matches Some(g) && (t == g.num_in_group_tag
                    || self.reaches(g.elements@, t, self.depth()))),
    {
        let mut members: HashSet<u32> = HashSet::new();
        if let Some(g) = self.get_group(id) {
            members.insert(g.num_in_group_tag);
            self.collect_members_from_elements(&g.elements, &mut members, self.components.len());
        }
        members
    }

    /// `c` is component `id` with its member set filled in.
    spec fn component_completed(&self, id: u32, c: Component) -> bool {
        &&& c.id == self.components@[id].id
        &&& c.name@ == self.components@[id].name@
        &&& c.category == self.components@[id].category
        &&& c.elements@ == self.components@[id].elements@
        &&& forall|t: u32| #[trigger]
            c.members@.contains(t) <==> self.reaches(
                self.components@[id].elements@,
                t,
                self.depth(),
            )
    }

    /// `g` is group `id` with its member set filled in.
    spec fn group_completed(&self, id: u32, g: Group) -> bool {
        &&& g.id == self.groups@[id].id
        &&& g.name@ == self.groups@[id].name@
        &&& g.required == self.groups@[id].required
        &&& g.num_in_group_tag == self.groups@[id].num_in_group_tag
        &&& g.elements@ == self.groups@[id].elements@
        &&& forall|t: u32| #[trigger]
            g.members@.contains(t) <==> (t == self.groups@[id].num_in_group_tag || self.reaches(
                self.groups@[id].elements@,
                t,
                self.depth(),
            ))
    }

    fn component_with_members(&self, id: u32) -> (r: Option<Arc<Component>>)
        ensures
            r is Some <==> self.components@.dom().contains(id),
            r is Some ==> self.component_completed(id, *r->0),
    {
        let members = self.collect_members_for_component(id);
        match self.components.get(&id) {
            Some(c) => {
                let done = Component {
                    id: c.id,
                    name: c.name.clone(),
                    category: c.category.clone(),
                    elements: copy_elements(&c.elements),
                    members,
                };
                Some(Arc::new(done))
            },
            None => None,
        }
    }

    fn group_with_members(&self, id: u32) -> (r: Option<Arc<Group>>)
        ensures
            r is Some <==> self.groups@.dom().contains(id),
            r is Some ==> self.group_completed(id, *r->0),
    {
        let members = self.collect_members_for_group(id);
        match self.groups.get(&id) {
            Some(g) => {
                let done = Group {
                    id: g.id,
                    name: g.name.clone(),
                    required: g.required,
                    num_in_group_tag: g.num_in_group_tag,
                    elements: copy_elements(&g.elements),
                    members,
                };
                Some(Arc::new(done))
            },
            None => None,
        }
    }

    fn completed_components(&self) -> (r: HashMap<u32, Arc<Component>>)
        ensures
            forall|id: u32| #[trigger]
                r@.dom().contains(id) <==> self.components@.dom().contains(id),
            forall|id: u32|
                #![trigger r@[id]]
                r@.dom().contains(id) ==> self.component_completed(id, *r@[id]),
    {
        let ids = map_keys(&self.components);
        let mut r: HashMap<u32, Arc<Component>> = HashMap::new();
        let mut i: usize = 0;
        while i < ids.len()
            invariant
                i <= ids@.len(),
                forall|k: u32| ids@.contains(k) <==> self.components@.dom().contains(k),
                forall|k: int| 0 <= k < i ==> r@.dom().contains(#[trigger] ids@[k]),
                forall|id: u32|
                    #![trigger r@.dom().contains(id)]
                    #![trigger r@[id]]
                    r@.dom().contains(id) ==> self.components@.dom().contains(id)
                        && self.component_completed(id, *r@[id]),
            decreases ids@.len() - i,
        {
            let id: u32 = ids[i];
            assert(ids@.contains(id));
            if let Some(c) = self.component_with_members(id) {
                r.insert(id, c);
            }
            i += 1;
        }
        assert forall|id: u32| self.components@.dom().contains(id) implies #[trigger]
        r@.dom().contains(id) by {
            assert(ids@.contains(id));
        }
        r
    }

    fn completed_groups(&self) -> (r: HashMap<u32, Arc<Group>>)
        ensures
            forall|id: u32| #[trigger]
                r@.dom().contains(id) <==> self.groups@.dom().contains(id),
            forall|id: u32|
                #![trigger r@[id]]
                r@.dom().contains(id) ==> self.group_completed(id, *r@[id]),
    {
        let ids = map_keys(&self.groups);
        let mut r: HashMap<u32, Arc<Group>> = HashMap::new();
        let mut i: usize = 0;
        while i < ids.len()
            invariant
                i <= ids@.len(),
                forall|k: u32| ids@.contains(k) <==> self.groups@.dom().contains(k),
                forall|k: int| 0 <= k < i ==> r@.dom().contains(#[trigger] ids@[k]),
                forall|id: u32|
                    #![trigger r@.dom().contains(id)]
                    #![trigger r@[id]]
                    r@.dom().contains(id) ==> self.groups@.dom().contains(id)
                        && self.group_completed(id, *r@[id]),
            decreases ids@.len() - i,
        {
            let id: u32 = ids[i];
            assert(ids@.contains(id));
            if let Some(c) = self.group_with_members(id) {
                r.insert(id, c);
            }
            i += 1;
        }
        assert forall|id: u32| self.groups@.dom().contains(id) implies #[trigger]
        r@.dom().contains(id) by {
            assert(ids@.contains(id));
        }
        r
    }

    /// Compute the member field sets for all components and groups. Must be
    /// called once all components and groups are loaded.
    pub fn compute_member_sets(&mut self)
        ensures
            final(self)@ == old(self)@.completed(),
            final(self).members_exact(),
    {
        let components = self.completed_components();
        let groups = self.completed_groups();
        let ghost st = self.structure();
        let ghost v = self@;
        proof {
            lemma_structure(self);
        }
        self.components = components;
        self.groups = groups;
        proof {
            assert(self@.components =~= v.completed().components) by {
                assert forall|id: u32| self.components@.dom().contains(id) implies #[trigger]
                self@.components[id] == v.completed().components[id] by {
                    assert(old(self).components@.dom().contains(id));
                    assert(self.components@[id].members@ =~= v.completed().components[id].members);
                }
                assert(self@.components.dom() =~= v.completed().components.dom());
            }
            assert(self@.groups =~= v.completed().groups) by {
                assert forall|id: u32| self.groups@.dom().contains(id) implies #[trigger]
                self@.groups[id] == v.completed().groups[id] by {
                    assert(old(self).groups@.dom().contains(id));
                    assert(self.groups@[id].members@ =~= v.completed().groups[id].members);
                }
                assert(self@.groups.dom() =~= v.completed().groups.dom());
            }
            assert(self@ == v.completed());
            lemma_completed(v);
            lemma_structure(self);
        }
    }
}

impl FixRepository {
    /// Create a new empty repository
    pub fn new() -> (r: Self)
        ensures
            r.versions.entries@.len() == 0,
            forall|name: Seq<char>| r.versions.value(name) is None,
    {
        FixRepository { versions: NameMap::new() }
    }

    pub fn get_version(&self, version: &str) -> (r: Option<Arc<FixVersion>>)
        ensures
            r == self.versions.value(version@),
    {
        match self.versions.get(version) {
            Some(v) => Some(v.clone()),
            None => None,
        }
    }

    /// Everything in `self` and `other`; where both define a version of the
    /// same name, the one in `other` stays.
    pub fn merge(self, other: FixRepository) -> (r: Self)
        ensures
            forall|name: Seq<char>| #[trigger]
                r.versions.value(name) == (match other.versions.value(name) {
                    Some(v) => Some(v),
                    None => self.versions.value(name),
                }),
    {
        let ghost mine = self.versions;
        let mut versions = self.versions;
        let mut i: usize = 0;
        while i < other.versions.entries.len()
            invariant
                i <= other.versions.entries@.len(),
                forall|name: Seq<char>| #[trigger]
                    versions.value(name) == (match lookup(
                        other.versions.entries@,
                        name,
                        i as nat,
                    ) {
                        Some(v) => Some(v),
                        None => mine.value(name),
                    }),
            decreases other.versions.entries@.len() - i,
        {
            let ghost before = versions;
            let name = other.versions.entries[i].0.clone();
            let version = other.versions.entries[i].1.clone();
            let ghost key = name@;
            versions.insert(name, version);
            i += 1;
            assert forall|name: Seq<char>| #[trigger]
                versions.value(name) == (match lookup(other.versions.entries@, name, i as nat) {
                    Some(v) => Some(v),
                    None => mine.value(name),
                }) by {
                if name != key {
                    assert(versions.value(name) == before.value(name));
                    assert(position(other.versions.entries@, name, i as nat) == position(
                        other.versions.entries@,
                        name,
                        (i - 1) as nat,
                    ));
                }
            }
        }
        FixRepository { versions }
    }
}

impl Group {
    /// The tag of the field that opens each entry, if the group has one.
    pub fn marker_id(&self, fix: &FixVersion) -> (r: Option<u32>)
        ensures
            r == fix.marker(self.elements@),
    {
        fix.find_marker(&self.elements, fix.components.len())
    }

    /// The field that opens each entry.
    pub fn get_marker_tag(&self, fix: &FixVersion) -> (r: Arc<Field>)
        requires
            fix.marker(self.elements@) matches Some(id) && fix.field(id) is Some,
        ensures
            Some(r) == fix.field(fix.marker(self.elements@)->0),
    {
        let id: u32 = self.marker_id(fix).unwrap();
        fix.get_field(id).unwrap()
    }
}

} // verus!
