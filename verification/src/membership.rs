//! What the member sets of components and groups promise.

use vstd::prelude::*;

use crate::repository::{
    law_membership_by_definition, lemma_structure, FieldBlock, FixVersion, MessageElement,
    Structure,
};

verus! {

broadcast use vstd::std_specs::hash::group_hash_axioms;

impl Structure {
    /// Every component holds only components of a lower rank.
    pub open spec fn ranked(self, rank: spec_fn(u32) -> nat) -> bool {
        forall|id: u32, i: int|
            self.components.dom().contains(id) && 0 <= i < self.components[id].len() ==> (
            #[trigger] self.components[id][i] matches MessageElement::Component(r) ==> (
            self.components.dom().contains(r.component_id) ==> rank(r.component_id) < rank(id)))
    }

    /// No component holds itself, neither directly nor through others.
    pub open spec fn acyclic(self) -> bool {
        exists|rank: spec_fn(u32) -> nat| #[trigger] self.ranked(rank)
    }

    /// The components of a lower rank than `id`.
    spec fn below(self, rank: spec_fn(u32) -> nat, id: u32) -> Set<u32> {
        self.components.dom().filter(|other: u32| rank(other) < rank(id))
    }
}

/// What is reached through some components is reached where more are allowed.
proof fn lemma_reaches_more(
    st: Structure,
    elements: Seq<MessageElement>,
    field: u32,
    levels: nat,
    more: nat,
)
    requires
        st.reaches(elements, field, levels),
        levels <= more,
    ensures
        st.reaches(elements, field, more),
    decreases levels,
{
    let i = choose|i: int|
        0 <= i < elements.len() && st.element_reaches(#[trigger] elements[i], field, levels);
    if let MessageElement::Component(r) = elements[i] {
        lemma_reaches_more(
            st,
            st.components[r.component_id],
            field,
            (levels - 1) as nat,
            (more - 1) as nat,
        );
    }
    assert(st.element_reaches(elements[i], field, more));
}

/// What a component reaches at all, it reaches through the components below it.
proof fn lemma_reaches_below(
    st: Structure,
    rank: spec_fn(u32) -> nat,
    id: u32,
    field: u32,
    levels: nat,
)
    requires
        st.ranked(rank),
        st.components.dom().finite(),
        st.components.dom().contains(id),
        st.reaches(st.components[id], field, levels),
    ensures
        st.reaches(st.components[id], field, st.below(rank, id).len()),
        st.below(rank, id).len() < st.depth(),
    decreases levels,
{
    let elements = st.components[id];
    let below = st.below(rank, id);
    assert(below.subset_of(st.components.dom().remove(id)));
    vstd::set_lib::lemma_len_subset(below, st.components.dom().remove(id));
    let i = choose|i: int|
        0 <= i < elements.len() && st.element_reaches(#[trigger] elements[i], field, levels);
    if let MessageElement::Component(r) = elements[i] {
        let inner = r.component_id;
        assert(st.components[id][i] == elements[i]);
        assert(rank(inner) < rank(id));
        lemma_reaches_below(st, rank, inner, field, (levels - 1) as nat);
        let lower = st.below(rank, inner);
        assert(lower.subset_of(below.remove(inner)));
        vstd::set_lib::lemma_len_subset(lower, below.remove(inner));
        assert(below.contains(inner));
        lemma_reaches_more(
            st,
            st.components[inner],
            field,
            lower.len(),
            (below.len() - 1) as nat,
        );
    }
    assert(st.element_reaches(elements[i], field, below.len()));
}

/// Where no component holds itself, one more level than there are components
/// reaches nothing more.
proof fn lemma_depth_is_enough(st: Structure, elements: Seq<MessageElement>, field: u32)
    requires
        st.acyclic(),
        st.components.dom().finite(),
    ensures
        st.reaches(elements, field, st.depth() + 1) <==> st.reaches(elements, field, st.depth()),
{
    let rank = choose|rank: spec_fn(u32) -> nat| #[trigger] st.ranked(rank);
    let levels = st.depth() + 1;
    if st.reaches(elements, field, st.depth()) {
        lemma_reaches_more(st, elements, field, st.depth(), levels);
    }
    if st.reaches(elements, field, levels) {
        let i = choose|i: int|
            0 <= i < elements.len() && st.element_reaches(#[trigger] elements[i], field, levels);
        if let MessageElement::Component(r) = elements[i] {
            let inner = r.component_id;
            lemma_reaches_below(st, rank, inner, field, (levels - 1) as nat);
            lemma_reaches_more(
                st,
                st.components[inner],
                field,
                st.below(rank, inner).len(),
                (st.depth() - 1) as nat,
            );
        }
        assert(st.element_reaches(elements[i], field, st.depth()));
    }
}

/// Looking a field up in the member set of a component gives what going through
/// its elements gives, once the member sets are computed and no component holds
/// itself.
pub proof fn law_component_members(fix: &FixVersion, id: u32, field: u32)
    requires
        fix.members_exact(),
        fix.structure().acyclic(),
        fix.components@.dom().contains(id),
    ensures
        ({
            let c = fix.components@[id];
            &&& c.cached() == Some(c.members@)
            &&& c.members@.contains(field) <==> fix.has_member(c.elements(), field)
        }),
{
    let c = fix.components@[id];
    lemma_structure(fix);
    law_membership_by_definition(fix, c.elements@, field);
    lemma_depth_is_enough(fix.structure(), c.elements@, field);
}

/// A group's member set holds what going through its elements gives, and the
/// group's own NumInGroup tag besides.
pub proof fn law_group_members(fix: &FixVersion, id: u32, field: u32)
    requires
        fix.members_exact(),
        fix.structure().acyclic(),
        fix.groups@.dom().contains(id),
    ensures
        ({
            let g = fix.groups@[id];
            &&& g.cached() == Some(g.members@)
            &&& g.members@.contains(field) <==> (field == g.num_in_group_tag || fix.has_member(
                g.elements(),
                field,
            ))
        }),
{
    let g = fix.groups@[id];
    lemma_structure(fix);
    law_membership_by_definition(fix, g.elements@, field);
    lemma_depth_is_enough(fix.structure(), g.elements@, field);
}

/// A group inside a block gives the block its NumInGroup tag as a member, and no
/// other: a field that is found among the group's own elements only is none.
pub proof fn law_members_do_not_leave_their_group(
    fix: &FixVersion,
    elements: Seq<MessageElement>,
    i: int,
    field: u32,
)
    requires
        0 <= i < elements.len(),
        elements[i] is Group,
        fix.group(elements[i]->Group_0.group_id) is Some,
    ensures
        ({
            let g = fix.group(elements[i]->Group_0.group_id)->0;
            &&& fix.has_member(elements, g.num_in_group_tag)
            &&& field != g.num_in_group_tag ==> (fix.has_member(elements, field)
                <==> fix.has_member(elements.remove(i), field))
        }),
{
    let g = fix.group(elements[i]->Group_0.group_id)->0;
    let others = elements.remove(i);
    assert(fix.element_has(elements[i], g.num_in_group_tag));
    if field != g.num_in_group_tag {
        if fix.has_member(elements, field) {
            let k = choose|k: int|
                0 <= k < elements.len() && fix.element_has(#[trigger] elements[k], field);
            if k < i {
                assert(others[k] == elements[k]);
            } else {
                assert(others[k - 1] == elements[k]);
            }
        }
        if fix.has_member(others, field) {
            let k = choose|k: int|
                0 <= k < others.len() && fix.element_has(#[trigger] others[k], field);
            if k < i {
                assert(others[k] == elements[k]);
            } else {
                assert(others[k] == elements[k + 1]);
            }
        }
    }
}

} // verus!
