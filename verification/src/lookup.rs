//! How things are found in a version, in terms of its definitions.

use vstd::prelude::*;
use vstd::string::*;

use crate::builder::normalize::{
    last_position, last_smaller, lemma_unknown, sort_key,
};
use crate::names::{lookup, position};
use crate::repository::{
    ComponentView, FieldRef, FixVersion, GroupView, MessageElement, Structure, VersionView,
};

verus! {

// ---------------------------------------------------------------------------
// Names
// ---------------------------------------------------------------------------

/// Of several entries of one name the last counts, and a name that no entry has
/// gives nothing.
pub proof fn law_which_entry_counts<V>(entries: Seq<(String, V)>, key: Seq<char>, n: nat, i: int)
    requires
        n <= entries.len(),
        0 <= i < n,
    ensures
        entries[i].0@ == key && (forall|k: int| i < k < n ==> (#[trigger] entries[k]).0@ != key)
            ==> lookup(entries, key, n) == Some(entries[i].1),
        (forall|k: int| 0 <= k < n ==> (#[trigger] entries[k]).0@ != key) ==> lookup(
            entries,
            key,
            n,
        ) is None,
    decreases n,
{
    lemma_position(entries, key, n);
}

proof fn lemma_position<V>(entries: Seq<(String, V)>, key: Seq<char>, n: nat)
    requires
        n <= entries.len(),
    ensures
        -1 <= position(entries, key, n) < n,
        position(entries, key, n) >= 0 ==> entries[position(entries, key, n)].0@ == key,
        forall|k: int| position(entries, key, n) < k < n ==> (#[trigger] entries[k]).0@ != key,
    decreases n,
{
    if n > 0 && entries[n - 1].0@ != key {
        lemma_position(entries, key, (n - 1) as nat);
    }
}

/// The component of a name is the one of the smallest number, where several have
/// it; and so it is with groups.
pub proof fn law_which_definition_a_name_means(fix: &FixVersion, name: Seq<char>, id: u32)
    requires
        fix.components@.dom().contains(id) || fix.groups@.dom().contains(id),
    ensures
        fix.components@.dom().contains(id) && fix.components@[id].name@ == name && (forall|
            other: u32,
        |
            #![trigger fix.components@[other]]
            fix.components@.dom().contains(other) && fix.components@[other].name@ == name ==> id
                <= other) ==> fix.component_named(name) == Some(fix.components@[id]),
        (forall|other: u32|
            #![trigger fix.components@[other]]
            fix.components@.dom().contains(other) ==> fix.components@[other].name@ != name)
            ==> fix.component_named(name) is None,
        fix.groups@.dom().contains(id) && fix.groups@[id].name@ == name && (forall|other: u32|
            #![trigger fix.groups@[other]]
            fix.groups@.dom().contains(other) && fix.groups@[other].name@ == name ==> id <= other)
            ==> fix.group_named(name) == Some(fix.groups@[id]),
        (forall|other: u32|
            #![trigger fix.groups@[other]]
            fix.groups@.dom().contains(other) ==> fix.groups@[other].name@ != name)
            ==> fix.group_named(name) is None,
{
    if fix.components@.dom().contains(id) && fix.components@[id].name@ == name && (forall|
        other: u32,
    |
        #![trigger fix.components@[other]]
        fix.components@.dom().contains(other) && fix.components@[other].name@ == name ==> id
            <= other) {
        assert(fix.first_named(name, id));
        let found = choose|other: u32| fix.first_named(name, other);
        assert(fix.components@[found].name@ == name && fix.components@[id].name@ == name);
        assert(found == id);
    }
    if fix.groups@.dom().contains(id) && fix.groups@[id].name@ == name && (forall|other: u32|
        #![trigger fix.groups@[other]]
        fix.groups@.dom().contains(other) && fix.groups@[other].name@ == name ==> id <= other) {
        assert(fix.first_group_named(name, id));
        let found = choose|other: u32| fix.first_group_named(name, other);
        assert(fix.groups@[found].name@ == name && fix.groups@[id].name@ == name);
        assert(found == id);
    }
    if exists|other: u32| fix.first_named(name, other) {
        let found = choose|other: u32| fix.first_named(name, other);
        assert(fix.components@[found].name@ == name);
    }
    if exists|other: u32| fix.first_group_named(name, other) {
        let found = choose|other: u32| fix.first_group_named(name, other);
        assert(fix.groups@[found].name@ == name);
    }
}

// ---------------------------------------------------------------------------
// Groups and markers
// ---------------------------------------------------------------------------

/// A search through a definition goes on behind an element that holds nothing of
/// what is looked for. The group of a NumInGroup tag is the first, in the order of
/// the document and through components, that has it: a field is no group, and a
/// group is not searched inside.
pub proof fn law_which_group_a_tag_counts(
    fix: &FixVersion,
    elements: Seq<MessageElement>,
    tag: u32,
    i: int,
    levels: nat,
)
    requires
        0 <= i <= elements.len(),
    ensures
        fix.group_for(elements, tag) == fix.group_in(
            elements,
            tag,
            0,
            fix.components@.dom().len(),
        ),
        i == elements.len() ==> fix.group_in(elements, tag, i, levels) is None,
        i < elements.len() ==> ({
            let here = fix.group_in(elements, tag, i, levels);
            let rest = fix.group_in(elements, tag, i + 1, levels);
            match elements[i] {
                MessageElement::Field(_) => here == rest,
                MessageElement::Group(r) => if fix.groups@.dom().contains(r.group_id)
                    && fix.groups@[r.group_id].num_in_group_tag == tag {
                    here == Some(fix.groups@[r.group_id])
                } else {
                    here == rest
                },
                MessageElement::Component(r) => if levels > 0
                    && fix.components@.dom().contains(r.component_id) {
                    let inside = fix.group_in(
                        fix.components@[r.component_id].elements@,
                        tag,
                        0,
                        (levels - 1) as nat,
                    );
                    if inside is Some {
                        here == inside
                    } else {
                        here == rest
                    }
                } else {
                    here == rest
                },
            }
        }),
{
}

/// An entry of a group starts with the tag of the group's first element that the
/// version knows: a field's own tag, a group's NumInGroup tag, or what a component
/// starts with.
pub proof fn law_what_an_entry_starts_with(
    fix: &FixVersion,
    elements: Seq<MessageElement>,
    i: int,
    levels: nat,
)
    requires
        0 <= i <= elements.len(),
    ensures
        fix.marker(elements) == fix.marker_in(elements, 0, fix.components@.dom().len()),
        i == elements.len() ==> fix.marker_in(elements, i, levels) is None,
        i < elements.len() ==> ({
            let here = fix.marker_in(elements, i, levels);
            let rest = fix.marker_in(elements, i + 1, levels);
            match elements[i] {
                MessageElement::Field(r) => here == Some(r.field_id),
                MessageElement::Group(r) => if fix.groups@.dom().contains(r.group_id) {
                    here == Some(fix.groups@[r.group_id].num_in_group_tag)
                } else {
                    here == rest
                },
                MessageElement::Component(r) => if fix.components@.dom().contains(r.component_id) {
                    levels > 0 ==> here == fix.marker_in(
                        fix.components@[r.component_id].elements@,
                        0,
                        (levels - 1) as nat,
                    )
                } else {
                    here == rest
                },
            }
        }),
{
}

/// The fields of a definition are listed in the order of the document: a field
/// itself, the fields of a component in its place, and a group as its NumInGroup
/// field with the group's own fields behind it.
pub proof fn law_which_fields_are_listed(
    fix: &FixVersion,
    elements: Seq<MessageElement>,
    i: int,
    levels: nat,
)
    requires
        0 <= i <= elements.len(),
        levels > 0,
    ensures
        i == elements.len() ==> fix.flat_refs(elements, i, levels) == Seq::<FieldRef>::empty(),
        i < elements.len() ==> fix.flat_refs(elements, i, levels) == (match elements[i] {
            MessageElement::Field(r) => seq![r],
            MessageElement::Component(r) => if fix.components@.dom().contains(r.component_id) {
                fix.flat_refs(
                    fix.components@[r.component_id].elements@,
                    0,
                    (levels - 1) as nat,
                )
            } else {
                Seq::empty()
            },
            MessageElement::Group(r) => if fix.groups@.dom().contains(r.group_id) {
                let g = fix.groups@[r.group_id];
                seq![FieldRef { field_id: g.num_in_group_tag, required: g.required }]
                    + fix.flat_refs(g.elements@, 0, (levels - 1) as nat)
            } else {
                Seq::empty()
            },
        }) + fix.flat_refs(elements, i + 1, levels),
{
}

/// The order of a block is that of its definition: its fields, those of its
/// components in their places, and the NumInGroup tags of its groups.
pub proof fn law_what_order_a_block_has(
    fix: &FixVersion,
    elements: Seq<MessageElement>,
    i: int,
    levels: nat,
)
    requires
        0 <= i <= elements.len(),
    ensures
        fix.canonical(elements) == fix.tags_in(elements, 0, fix.components@.dom().len()),
        i == elements.len() ==> fix.tags_in(elements, i, levels) == Seq::<u32>::empty(),
        i < elements.len() ==> fix.tags_in(elements, i, levels) == (match elements[i] {
            MessageElement::Field(r) => seq![r.field_id],
            MessageElement::Component(r) => if levels > 0 && fix.components@.dom().contains(
                r.component_id,
            ) {
                fix.tags_in(
                    fix.components@[r.component_id].elements@,
                    0,
                    (levels - 1) as nat,
                )
            } else {
                Seq::empty()
            },
            MessageElement::Group(r) => if fix.groups@.dom().contains(r.group_id) {
                seq![fix.groups@[r.group_id].num_in_group_tag]
            } else {
                Seq::empty()
            },
        }) + fix.tags_in(elements, i + 1, levels),
{
}

/// Known tags are sorted as the definition lists them. An unknown tag goes right
/// behind the last known one that is smaller, and where none is smaller behind the
/// first.
pub proof fn law_how_tags_are_sorted(order: Seq<u32>, i: int, j: int, tag: u32)
    requires
        order.no_duplicates(),
        0 <= i < j < order.len(),
    ensures
        sort_key(order, order[i]) < sort_key(order, order[j]),
        !order.contains(tag) && (order[i] < tag || i == 0) && (forall|k: int|
            i < k < order.len() ==> (#[trigger] order[k]) > tag) ==> {
            &&& sort_key(order, order[i]) < sort_key(order, tag)
            &&& sort_key(order, tag) < sort_key(order, order[j])
        },
{
    lemma_at(order, i, order.len());
    lemma_at(order, j, order.len());
    if !order.contains(tag) {
        lemma_unknown(order, tag, order.len());
        if (order[i] < tag || i == 0) && (forall|k: int|
            i < k < order.len() ==> (#[trigger] order[k]) > tag) {
            lemma_behind(order, i, tag, order.len());
        }
    }
}

proof fn lemma_at(order: Seq<u32>, i: int, n: nat)
    requires
        order.no_duplicates(),
        0 <= i < n <= order.len(),
    ensures
        last_position(order, order[i], n) == i,
    decreases n,
{
    if i < n - 1 {
        assert(order[n - 1] != order[i]);
        lemma_at(order, i, (n - 1) as nat);
    }
}

proof fn lemma_behind(order: Seq<u32>, i: int, tag: u32, n: nat)
    requires
        0 <= i < n <= order.len(),
        order[i] < tag || i == 0,
        forall|k: int| i < k < order.len() ==> (#[trigger] order[k]) > tag,
    ensures
        last_smaller(order, tag, n) == i,
    decreases n,
{
    if i < n - 1 {
        assert(order[n - 1] > tag);
        lemma_behind(order, i, tag, (n - 1) as nat);
    } else if order[i] >= tag {
        assert(last_smaller(order, tag, 0) == 0);
    }
}

// ---------------------------------------------------------------------------
// Members
// ---------------------------------------------------------------------------

/// What belongs to a block: its fields, the fields that its components hold, and
/// the NumInGroup tags of its groups; not what is inside the groups.
pub proof fn law_what_belongs_to_an_element(
    st: Structure,
    element: MessageElement,
    field: u32,
    levels: nat,
)
    ensures
        st.element_reaches(element, field, levels) <==> match element {
            MessageElement::Field(r) => r.field_id == field,
            MessageElement::Group(r) => st.groups.dom().contains(r.group_id)
                && st.groups[r.group_id] == field,
            MessageElement::Component(r) => levels > 0 && st.components.dom().contains(
                r.component_id,
            ) && exists|i: int|
                0 <= i < st.components[r.component_id].len() && st.element_reaches(
                    #[trigger] st.components[r.component_id][i],
                    field,
                    (levels - 1) as nat,
                ),
        },
{
    reveal_with_fuel(Structure::element_reaches, 2);
    reveal_with_fuel(Structure::reaches, 2);
}

/// Filling in the member sets changes nothing else, and gives every component what
/// belongs to its elements, and every group that and its own NumInGroup tag.
pub proof fn law_what_member_sets_hold(v: VersionView, id: u32, field: u32)
    ensures
        ({
            let done = v.completed();
            let st = v.structure();
            let levels = v.components.dom().len();
            &&& done.name == v.name && done.version == v.version && done.begin_string
                == v.begin_string
            &&& done.fields == v.fields && done.messages == v.messages && done.codesets
                == v.codesets
            &&& done.components.dom() == v.components.dom() && done.groups.dom() == v.groups.dom()
            &&& v.components.dom().contains(id) ==> {
                &&& done.components[id] == ComponentView {
                    members: done.components[id].members,
                    ..v.components[id]
                }
                &&& done.components[id].members.contains(field) <==> exists|i: int|
                    0 <= i < v.components[id].elements.len() && st.element_reaches(
                        #[trigger] v.components[id].elements[i],
                        field,
                        levels,
                    )
            }
            &&& v.groups.dom().contains(id) ==> {
                &&& done.groups[id] == GroupView {
                    members: done.groups[id].members,
                    ..v.groups[id]
                }
                &&& done.groups[id].members.contains(field) <==> field
                    == v.groups[id].num_in_group_tag || exists|i: int|
                    0 <= i < v.groups[id].elements.len() && st.element_reaches(
                        #[trigger] v.groups[id].elements[i],
                        field,
                        levels,
                    )
            }
        }),
{
    let done = v.completed();
    let st = v.structure();
    assert(done.components.dom() =~= v.components.dom());
    assert(done.groups.dom() =~= v.groups.dom());
    assert(st.components.dom() =~= v.components.dom());
    reveal_with_fuel(Structure::element_reaches, 2);
    reveal_with_fuel(Structure::reaches, 2);
}

/// The structure of a version says what its components hold, and which tag counts
/// each group.
pub proof fn law_what_the_structure_is(v: VersionView, id: u32)
    ensures
        v.components.dom().contains(id) ==> v.structure().components.dom().contains(id)
            && v.structure().components[id] == v.components[id].elements,
        v.groups.dom().contains(id) ==> v.structure().groups.dom().contains(id)
            && v.structure().groups[id] == v.groups[id].num_in_group_tag,
        !v.components.dom().contains(id) ==> !v.structure().components.dom().contains(id),
        !v.groups.dom().contains(id) ==> !v.structure().groups.dom().contains(id),
{
}

/// What a version defines: fields, components and groups under their numbers, each
/// field with its datatype.
pub proof fn law_what_a_version_defines(fix: &FixVersion, id: u32)
    ensures
        fix.fields@.dom().contains(id) ==> fix.field(id) == Some(fix.fields@[id])
            && fix.field_type(id) == Some(fix.fields@[id].field_type@),
        !fix.fields@.dom().contains(id) ==> fix.field(id) is None && fix.field_type(id) is None,
        fix.components@.dom().contains(id) ==> fix.component(id) == Some(fix.components@[id]),
        !fix.components@.dom().contains(id) ==> fix.component(id) is None,
        fix.groups@.dom().contains(id) ==> fix.group(id) == Some(fix.groups@[id]),
        !fix.groups@.dom().contains(id) ==> fix.group(id) is None,
        fix.depth() == fix.components@.dom().len(),
        fix.components@.dom().len() + fix.groups@.dom().len() <= usize::MAX ==> fix.full_depth()
            == fix.components@.dom().len() + fix.groups@.dom().len(),
{
}

/// What a block has: a field where one of its elements is that field, where a
/// component among them has it as a member, or where a group among them is counted
/// by it.
pub proof fn law_what_a_block_has(
    fix: &FixVersion,
    elements: Seq<MessageElement>,
    i: int,
    field: u32,
)
    requires
        0 <= i < elements.len(),
    ensures
        ({
            let here = match elements[i] {
                MessageElement::Field(r) => r.field_id == field,
                MessageElement::Component(r) => fix.components@.dom().contains(r.component_id)
                    && fix.components@[r.component_id].members@.contains(field),
                MessageElement::Group(r) => fix.groups@.dom().contains(r.group_id)
                    && fix.groups@[r.group_id].num_in_group_tag == field,
            };
            fix.has_member(elements, field) <==> here || fix.has_member(
                elements.remove(i),
                field,
            )
        }),
        !fix.has_member(Seq::empty(), field),
{
    let others = elements.remove(i);
    if fix.has_member(elements, field) {
        let k = choose|k: int|
            0 <= k < elements.len() && fix.element_has(#[trigger] elements[k], field);
        if k < i {
            assert(others[k] == elements[k]);
        } else if k > i {
            assert(others[k - 1] == elements[k]);
        }
    }
    if fix.has_member(others, field) {
        let k = choose|k: int|
            0 <= k < others.len() && fix.element_has(#[trigger] others[k], field);
        if k < i {
            assert(others[k] == elements[k]);
        } else {
            assert(others[k] == elements[k + 1]);
        }
    }
    assert(fix.element_has(elements[i], field) ==> fix.has_member(elements, field));
}

} // verus!
