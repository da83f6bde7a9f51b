//! Blocks of fields, keyed by tag.

use std::collections::HashMap;

use vstd::prelude::*;
use vstd::string::*;

use crate::builder::value::{IntoTyped, Typed, TypedValue};
use crate::error::{Error, ErrorView, Result};
use crate::text::{decimal_text, push_decimal};

verus! {

broadcast use vstd::std_specs::hash::group_hash_axioms;

pub enum Element {
    Tag((u32, TypedValue)),
    /// The NumInGroup tag and the entries; their number is the actual size.
    Group(u32, Vec<Block>),
    /// The Length tag, the data tag and the data, whose size is the actual one.
    RawDataTag(u32, u32, TypedValue),
}

/// A block of fields, in order, with the position of the last one of each tag.
pub struct Block {
    elements: Vec<Element>,
    index: HashMap<u32, usize>,
}

/// An [`Element`] by what it says.
pub ghost enum Node {
    Tag(u32, Typed),
    Group(u32, Seq<Seq<Node>>),
    RawData(u32, u32, Typed),
}

impl Node {
    /// The tag that the element is found by.
    pub open spec fn key(self) -> u32 {
        match self {
            Node::Tag(tag, _) => tag,
            Node::Group(tag, _) => tag,
            Node::RawData(_, tag, _) => tag,
        }
    }

    /// The element carries something.
    pub open spec fn is_set(self) -> bool {
        match self {
            Node::Tag(_, v) => !v.is_empty(),
            Node::Group(_, entries) => entries.len() > 0,
            Node::RawData(_, _, v) => !v.is_empty(),
        }
    }
}

/// The position of the last of the first `n` elements with this key, or -1.
pub open spec fn last_of(nodes: Seq<Node>, tag: u32, n: nat) -> int
    decreases n,
{
    if n == 0 {
        -1
    } else if nodes[n - 1].key() == tag {
        n - 1
    } else {
        last_of(nodes, tag, (n - 1) as nat)
    }
}

pub proof fn lemma_last_of(nodes: Seq<Node>, tag: u32, n: nat)
    requires
        n <= nodes.len(),
    ensures
        -1 <= last_of(nodes, tag, n) < n,
        last_of(nodes, tag, n) >= 0 ==> nodes[last_of(nodes, tag, n)].key() == tag,
        forall|k: int| last_of(nodes, tag, n) < k < n ==> (#[trigger] nodes[k]).key() != tag,
    decreases n,
{
    if n > 0 && nodes[n - 1].key() != tag {
        lemma_last_of(nodes, tag, (n - 1) as nat);
    }
}

/// A position is known by what it means.
pub proof fn lemma_last_of_is(nodes: Seq<Node>, tag: u32, n: nat, p: int)
    requires
        n <= nodes.len(),
        -1 <= p < n,
        p >= 0 ==> nodes[p].key() == tag,
        forall|k: int| p < k < n ==> (#[trigger] nodes[k]).key() != tag,
    ensures
        last_of(nodes, tag, n) == p,
    decreases n,
{
    if p < n - 1 {
        assert(nodes[n - 1].key() != tag);
        lemma_last_of_is(nodes, tag, (n - 1) as nat, p);
    }
}

/// The element that a tag is found by.
pub open spec fn found(nodes: Seq<Node>, tag: u32) -> Option<Node> {
    let i = last_of(nodes, tag, nodes.len());
    if i >= 0 {
        Some(nodes[i])
    } else {
        None
    }
}

/// The value of a field.
pub open spec fn field_of(nodes: Seq<Node>, tag: u32) -> Option<Typed> {
    match found(nodes, tag) {
        Some(Node::Tag(_, v)) => Some(v),
        _ => None,
    }
}

/// The field is there and carries something.
pub open spec fn has_field(nodes: Seq<Node>, tag: u32) -> bool {
    field_of(nodes, tag) matches Some(v) && !v.is_empty()
}

/// The block with a field set: in its place where it has one, else at the end.
pub open spec fn with_field(nodes: Seq<Node>, tag: u32, v: Typed) -> Seq<Node> {
    if field_of(nodes, tag) is Some {
        nodes.update(last_of(nodes, tag, nodes.len()), Node::Tag(tag, v))
    } else {
        nodes.push(Node::Tag(tag, v))
    }
}

/// The entries of a group.
pub open spec fn group_of(nodes: Seq<Node>, tag: u32) -> Option<Seq<Seq<Node>>> {
    match found(nodes, tag) {
        Some(Node::Group(_, entries)) => Some(entries),
        _ => None,
    }
}

/// The block with the entries of a group set.
pub open spec fn with_group(nodes: Seq<Node>, tag: u32, entries: Seq<Seq<Node>>) -> Seq<Node> {
    if group_of(nodes, tag) is Some {
        nodes.update(last_of(nodes, tag, nodes.len()), Node::Group(tag, entries))
    } else {
        nodes.push(Node::Group(tag, entries))
    }
}

/// The elements that carry something, among the first `n`.
pub open spec fn set_nodes(nodes: Seq<Node>, n: nat) -> Seq<Node>
    decreases n,
{
    if n == 0 {
        seq![]
    } else {
        let before = set_nodes(nodes, (n - 1) as nat);
        if nodes[n - 1].is_set() {
            before.push(nodes[n - 1])
        } else {
            before
        }
    }
}

// ---------------------------------------------------------------------------
// Laws
// ---------------------------------------------------------------------------

/// A field that was set reads back as it was set, and no other field is
/// touched.
pub proof fn law_set_then_read(nodes: Seq<Node>, tag: u32, v: Typed, other: u32)
    ensures
        field_of(with_field(nodes, tag, v), tag) == Some(v),
        other != tag ==> found(with_field(nodes, tag, v), other) == found(nodes, other),
        with_field(nodes, tag, v).len() <= nodes.len() + 1,
{
    let after = with_field(nodes, tag, v);
    lemma_last_of(nodes, tag, nodes.len());
    lemma_last_of(nodes, other, nodes.len());
    let i = last_of(nodes, tag, nodes.len());
    if field_of(nodes, tag) is Some {
        lemma_last_of_is(after, tag, after.len(), i);
    } else {
        lemma_last_of_is(after, tag, after.len(), nodes.len() as int);
    }
    if other != tag {
        lemma_last_of_is(after, other, after.len(), last_of(nodes, other, nodes.len()));
    }
}

/// Setting a field twice keeps the later value, in the same place.
pub proof fn law_set_twice(nodes: Seq<Node>, tag: u32, v: Typed, w: Typed)
    ensures
        with_field(with_field(nodes, tag, v), tag, w) == with_field(nodes, tag, w),
{
    let once = with_field(nodes, tag, v);
    law_set_then_read(nodes, tag, v, tag);
    lemma_last_of(nodes, tag, nodes.len());
    let i = last_of(nodes, tag, nodes.len());
    if field_of(nodes, tag) is Some {
        lemma_last_of_is(once, tag, once.len(), i);
    } else {
        lemma_last_of_is(once, tag, once.len(), nodes.len() as int);
    }
    assert(with_field(once, tag, w) =~= with_field(nodes, tag, w));
}

/// A field that was removed is no longer there, and no other field is touched.
pub proof fn law_removed_is_absent(nodes: Seq<Node>, tag: u32, other: u32)
    ensures
        !has_field(with_field(nodes, tag, Typed::Empty), tag),
        other != tag ==> has_field(with_field(nodes, tag, Typed::Empty), other) == has_field(
            nodes,
            other,
        ),
{
    law_set_then_read(nodes, tag, Typed::Empty, other);
}

/// An entry that was added to a group is its last, behind those that were
/// there.
pub proof fn law_group_grows(nodes: Seq<Node>, tag: u32, entry: Seq<Node>)
    ensures
        ({
            let entries = match group_of(nodes, tag) {
                Some(e) => e,
                None => seq![],
            };
            group_of(with_group(nodes, tag, entries.push(entry)), tag) == Some(entries.push(entry))
        }),
{
    let entries = match group_of(nodes, tag) {
        Some(e) => e,
        None => seq![],
    };
    let after = with_group(nodes, tag, entries.push(entry));
    lemma_last_of(nodes, tag, nodes.len());
    if group_of(nodes, tag) is Some {
        lemma_last_of_is(after, tag, after.len(), last_of(nodes, tag, nodes.len()));
    } else {
        lemma_last_of_is(after, tag, after.len(), nodes.len() as int);
    }
}

// ---------------------------------------------------------------------------
// Elements and blocks
// ---------------------------------------------------------------------------

/// The positions that `index` gives are those of the last element per key.
spec fn index_ok(nodes: Seq<Node>, index: Map<u32, usize>) -> bool {
    &&& forall|t: u32| #[trigger]
        index.dom().contains(t) ==> last_of(nodes, t, nodes.len()) == index[t]
    &&& forall|t: u32|
        !(#[trigger] index.dom().contains(t)) ==> last_of(nodes, t, nodes.len()) == -1
}

impl Element {
    pub closed spec fn node(&self) -> Node
        decreases self,
    {
        match self {
            Element::Tag((tag, v)) => Node::Tag(*tag, v@),
            Element::Group(tag, entries) => Node::Group(
                *tag,
                Seq::new(
                    entries@.len(),
                    |i: int|
                        if 0 <= i < entries@.len() {
                            entries@[i].nodes()
                        } else {
                            seq![]
                        },
                ),
            ),
            Element::RawDataTag(len_tag, tag, v) => Node::RawData(*len_tag, *tag, v@),
        }
    }

    pub closed spec fn wf(&self) -> bool
        decreases self,
    {
        match self {
            Element::Group(_, entries) => forall|i: int|
                0 <= i < entries@.len() ==> (#[trigger] entries@[i]).wf(),
            _ => true,
        }
    }

    /// What an element says, by its kind.
    pub proof fn lemma_node(&self)
        ensures
            match self {
                Element::Tag((tag, v)) => self.node() == Node::Tag(*tag, v@),
                Element::Group(tag, entries) => self.node() == Node::Group(
                    *tag,
                    blocks_nodes(entries@),
                ) && (self.wf() <==> blocks_wf(entries@)),
                Element::RawDataTag(len_tag, tag, v) => self.node() == Node::RawData(
                    *len_tag,
                    *tag,
                    v@,
                ),
            },
    {
        if let Element::Group(tag, entries) = self {
            assert(self.node()->Group_1 =~= blocks_nodes(entries@));
        }
    }

    /// Whether the element carries something.
    pub fn is_set(&self) -> (r: bool)
        ensures
            r == self.node().is_set(),
    {
        match self {
            Element::Tag((_, v)) => !v.is_empty(),
            Element::Group(_, entries) => entries.len() > 0,
            Element::RawDataTag(_, _, v) => !v.is_empty(),
        }
    }

    /// The tag that the element is found by.
    pub fn key(&self) -> (r: u32)
        ensures
            r == self.node().key(),
    {
        match self {
            Element::Tag((tag, _)) => *tag,
            Element::Group(tag, _) => *tag,
            Element::RawDataTag(_, tag, _) => *tag,
        }
    }

    /// A field.
    pub fn tag(tag: u32, value: TypedValue) -> (r: Element)
        ensures
            r.wf(),
            r.node() == Node::Tag(tag, value@),
    {
        Element::Tag((tag, value))
    }

    /// A group with these entries.
    pub fn group(tag: u32, entries: Vec<Block>) -> (r: Element)
        requires
            blocks_wf(entries@),
        ensures
            r.wf(),
            r.node() == Node::Group(tag, blocks_nodes(entries@)),
    {
        let r = Element::Group(tag, entries);
        assert(r.node()->Group_1 =~= blocks_nodes(entries@));
        r
    }

    /// Raw data with its length.
    pub fn raw_data(len_tag: u32, tag: u32, value: TypedValue) -> (r: Element)
        ensures
            r.wf(),
            r.node() == Node::RawData(len_tag, tag, value@),
    {
        Element::RawDataTag(len_tag, tag, value)
    }

    /// Another element that says the same.
    pub fn duplicate(&self) -> (r: Element)
        requires
            self.wf(),
        ensures
            r.wf(),
            r.node() == self.node(),
        decreases self,
    {
        match self {
            Element::Tag((tag, v)) => Element::tag(*tag, v.clone()),
            Element::Group(tag, entries) => {
                let copies = duplicate_all(entries);
                let r = Element::group(*tag, copies);
                assert(blocks_nodes(entries@) =~= self.node()->Group_1);
                r
            },
            Element::RawDataTag(len_tag, tag, v) => Element::raw_data(*len_tag, *tag, v.clone()),
        }
    }
}

/// Other blocks that say the same.
fn duplicate_all(entries: &Vec<Block>) -> (r: Vec<Block>)
    requires
        blocks_wf(entries@),
    ensures
        blocks_wf(r@),
        blocks_nodes(r@) == blocks_nodes(entries@),
    decreases entries,
{
    let mut copies: Vec<Block> = Vec::new();
    let mut i: usize = 0;
    while i < entries.len()
        invariant
            blocks_wf(entries@),
            i <= entries@.len(),
            copies@.len() == i,
            forall|k: int|
                0 <= k < i ==> (#[trigger] copies@[k]).wf() && copies@[k].nodes()
                    == entries@[k].nodes(),
        decreases entries@.len() - i,
    {
        assert(entries@[i as int].wf());
        assert(decreases_to!(entries => entries[i as int]));
        let copy = entries[i].duplicate();
        copies.push(copy);
        i += 1;
    }
    assert(blocks_nodes(copies@) =~= blocks_nodes(entries@));
    copies
}

pub open spec fn blocks_wf(blocks: Seq<Block>) -> bool {
    forall|i: int| 0 <= i < blocks.len() ==> (#[trigger] blocks[i]).wf()
}

pub open spec fn blocks_nodes(blocks: Seq<Block>) -> Seq<Seq<Node>> {
    blocks.map_values(|b: Block| b.nodes())
}

/// Writing another value into a field changes that element alone.
proof fn lemma_replace_value(b: Block, i: int)
    requires
        b.wf(),
        0 <= i < b.elements@.len(),
        b.elements@[i] is Tag,
    ensures
        forall|after: Block, v: TypedValue|
            #![trigger after.elements@, v@]
            after.index == b.index && after.elements@ == b.elements@.update(
                i,
                Element::Tag((b.elements@[i]->Tag_0.0, v)),
            ) ==> after.wf() && after.nodes() == b.nodes().update(
                i,
                Node::Tag(b.elements@[i]->Tag_0.0, v@),
            ),
        forall|after: Block|
            #![trigger after.wf()]
            after.index == b.index && after.elements@ == b.elements@.update(i, after.elements@[i])
                && after.elements@[i] is Tag && after.elements@[i]->Tag_0.0
                == b.elements@[i]->Tag_0.0 ==> after.wf(),
{
    assert forall|after: Block|
        #![trigger after.wf()]
        after.index == b.index && after.elements@ == b.elements@.update(i, after.elements@[i])
            && after.elements@[i] is Tag && after.elements@[i]->Tag_0.0
            == b.elements@[i]->Tag_0.0 implies after.wf() by {
        lemma_same_keys(b, after, i);
    }
    assert forall|after: Block, v: TypedValue|
        #![trigger after.elements@, v@]
        after.index == b.index && after.elements@ == b.elements@.update(
            i,
            Element::Tag((b.elements@[i]->Tag_0.0, v)),
        ) implies after.wf() && after.nodes() == b.nodes().update(
        i,
        Node::Tag(b.elements@[i]->Tag_0.0, v@),
    ) by {
        lemma_same_keys(b, after, i);
        assert(after.nodes() =~= b.nodes().update(i, Node::Tag(b.elements@[i]->Tag_0.0, v@)));
    }
}

/// Writing other entries into a group changes that element alone.
proof fn lemma_replace_entries(b: Block, i: int)
    requires
        b.wf(),
        0 <= i < b.elements@.len(),
        b.elements@[i] is Group,
    ensures
        forall|after: Block, v: Vec<Block>|
            #![trigger after.elements@, v@]
            after.index == b.index && after.elements@ == b.elements@.update(
                i,
                Element::Group(b.elements@[i]->Group_0, v),
            ) ==> (blocks_wf(v@) ==> after.wf()) && after.nodes() == b.nodes().update(
                i,
                Node::Group(b.elements@[i]->Group_0, blocks_nodes(v@)),
            ),
{
    assert forall|after: Block, v: Vec<Block>|
        #![trigger after.elements@, v@]
        after.index == b.index && after.elements@ == b.elements@.update(
            i,
            Element::Group(b.elements@[i]->Group_0, v),
        ) implies (blocks_wf(v@) ==> after.wf()) && after.nodes() == b.nodes().update(
        i,
        Node::Group(b.elements@[i]->Group_0, blocks_nodes(v@)),
    ) by {
        let e = Element::Group(b.elements@[i]->Group_0, v);
        assert(after.elements@[i] == e);
        assert(e.node()->Group_1 =~= blocks_nodes(v@));
        if blocks_wf(v@) {
            assert(e.wf());
            lemma_same_keys(b, after, i);
        }
        assert(after.nodes() =~= b.nodes().update(
            i,
            Node::Group(b.elements@[i]->Group_0, blocks_nodes(v@)),
        ));
    }
}

/// Writing another element in place of one changes that element alone.
proof fn lemma_replace_element(b: Block, i: int)
    requires
        b.wf(),
        0 <= i < b.elements@.len(),
    ensures
        forall|after: Block, e: Element|
            #![trigger after.elements@, e.node()]
            after.index == b.index && after.elements@ == b.elements@.update(i, e) ==> (e.wf()
                && e.node().key() == b.elements@[i].node().key() ==> after.wf())
                && after.nodes() == b.nodes().update(i, e.node()),
{
    assert forall|after: Block, e: Element|
        #![trigger after.elements@, e.node()]
        after.index == b.index && after.elements@ == b.elements@.update(i, e) implies (e.wf()
        && e.node().key() == b.elements@[i].node().key() ==> after.wf()) && after.nodes()
        == b.nodes().update(i, e.node()) by {
        assert(after.elements@[i] == e);
        if e.wf() && e.node().key() == b.elements@[i].node().key() {
            lemma_same_keys(b, after, i);
        }
        assert(after.nodes() =~= b.nodes().update(i, e.node()));
    }
}

/// A block in which one element has given way to another with the same tag.
proof fn lemma_same_keys(b: Block, after: Block, i: int)
    requires
        b.wf(),
        0 <= i < b.elements@.len(),
        after.index == b.index,
        after.elements@.len() == b.elements@.len(),
        after.elements@ == b.elements@.update(i, after.elements@[i]),
        after.elements@[i].node().key() == b.elements@[i].node().key(),
        after.elements@[i].wf(),
    ensures
        after.wf(),
{
    let x = b.nodes_flat();
    let y = after.nodes_flat();
    assert forall|k: int| 0 <= k < x.len() implies (#[trigger] y[k]).key() == x[k].key() by {}
    assert forall|t: u32| last_of(y, t, y.len()) == #[trigger] last_of(x, t, x.len()) by {
        lemma_last_of(x, t, x.len());
        lemma_last_of_is(y, t, y.len(), last_of(x, t, x.len()));
    }
    assert forall|k: int| 0 <= k < after.elements@.len() implies (
    #[trigger] after.elements@[k]).wf() by {
        if k != i {
            assert(b.elements@[k].wf());
        }
    }
}

/// The nodes of a block are those of its elements.
proof fn lemma_nodes(b: Block)
    ensures
        b.nodes().len() == b.elements@.len(),
        forall|i: int|
            0 <= i < b.elements@.len() ==> #[trigger] b.nodes()[i] == b.elements@[i].node(),
{
}

impl Block {
    /// What the block says: its elements in order.
    pub closed spec fn nodes(&self) -> Seq<Node>
        decreases self,
    {
        Seq::new(
            self.elements@.len(),
            |i: int|
                if 0 <= i < self.elements@.len() {
                    self.elements@[i].node()
                } else {
                    arbitrary()
                },
        )
    }

    /// Every tag is found at its last element, here and in the groups.
    pub closed spec fn wf(&self) -> bool
        decreases self,
    {
        &&& index_ok(self.nodes_flat(), self.index@)
        &&& forall|i: int| 0 <= i < self.elements@.len() ==> (#[trigger] self.elements@[i]).wf()
    }

    /// [`Self::nodes`], for use where recursion is at work.
    closed spec fn nodes_flat(&self) -> Seq<Node> {
        self.elements@.map_values(|e: Element| e.node())
    }

    pub fn new() -> (r: Self)
        ensures
            r.wf(),
            r.nodes() == Seq::<Node>::empty(),
    {
        let r = Block { elements: Vec::new(), index: HashMap::new() };
        assert(r.nodes() =~= seq![]);
        r
    }

    pub fn is_empty(&self) -> (r: bool)
        ensures
            r == (self.nodes().len() == 0),
    {
        self.elements.len() == 0
    }

    pub fn len(&self) -> (r: usize)
        ensures
            r == self.nodes().len(),
    {
        self.elements.len()
    }

    /// The element at this position, whether or not it carries something.
    pub fn element(&self, i: usize) -> (r: &Element)
        requires
            i < self.nodes().len(),
            self.wf(),
        ensures
            r.node() == self.nodes()[i as int],
            r.wf(),
    {
        &self.elements[i]
    }

    /// The element at this position, to be changed. It must keep its tag.
    pub fn element_mut(&mut self, i: usize) -> (r: &mut Element)
        requires
            i < old(self).nodes().len(),
            old(self).wf(),
        ensures
            r.node() == old(self).nodes()[i as int],
            r.wf(),
            final(r).wf() && final(r).node().key() == old(self).nodes()[i as int].key()
                ==> final(self).wf(),
            final(self).nodes() =~= old(self).nodes().update(i as int, final(r).node()),
    {
        proof {
            lemma_nodes(*self);
            lemma_replace_element(*self, i as int);
        }
        &mut self.elements[i]
    }

    /// The elements that carry something, in order.
    pub fn iter(&self) -> (r: Vec<&Element>)
        ensures
            r@.map_values(|e: &Element| e.node()) == set_nodes(
                self.nodes(),
                self.nodes().len(),
            ),
    {
        let mut r: Vec<&Element> = Vec::new();
        let mut i: usize = 0;
        assert(r@.map_values(|e: &Element| e.node()) =~= set_nodes(self.nodes(), 0));
        while i < self.elements.len()
            invariant
                i <= self.elements@.len(),
                r@.map_values(|e: &Element| e.node()) == set_nodes(self.nodes(), i as nat),
            decreases self.elements@.len() - i,
        {
            let element = &self.elements[i];
            let ghost before = r@;
            if element.is_set() {
                r.push(element);
                assert(r@.map_values(|e: &Element| e.node()) =~= before.map_values(
                    |e: &Element| e.node(),
                ).push(element.node()));
            }
            i += 1;
        }
        r
    }

    /// Append an element, whether or not its tag is there already.
    pub(crate) fn push(&mut self, element: Element) -> (r: usize)
        requires
            old(self).wf(),
            element.wf(),
        ensures
            final(self).wf(),
            final(self).nodes() == old(self).nodes().push(element.node()),
            r == old(self).nodes().len(),
    {
        let tag: u32 = element.key();
        let at: usize = self.elements.len();
        let ghost node = element.node();
        let ghost before = self.nodes_flat();
        let ghost index0 = self.index@;
        self.elements.push(element);
        self.index.insert(tag, at);
        proof {
            assert(self.nodes() =~= old(self).nodes().push(node));
            let after = self.nodes_flat();
            assert(after =~= before.push(node));
            assert forall|t: u32| #[trigger] self.index@.dom().contains(t) implies last_of(
                after,
                t,
                after.len(),
            ) == self.index@[t] by {
                if t != tag {
                    assert(index0.dom().contains(t));
                    lemma_last_of(before, t, before.len());
                    lemma_last_of_is(after, t, after.len(), index0[t] as int);
                }
            }
            assert forall|t: u32| !(#[trigger] self.index@.dom().contains(t)) implies last_of(
                after,
                t,
                after.len(),
            ) == -1 by {
                assert(!index0.dom().contains(t));
                lemma_last_of(before, t, before.len());
                lemma_last_of_is(after, t, after.len(), -1);
            }
        }
        at
    }

    /// The position of the element that `tag` is found by.
    fn find(&self, tag: u32) -> (r: Option<usize>)
        requires
            self.wf(),
        ensures
            match r {
                Some(i) => i < self.elements@.len() && i == last_of(
                    self.nodes(),
                    tag,
                    self.nodes().len(),
                ),
                None => last_of(self.nodes(), tag, self.nodes().len()) == -1,
            },
    {
        proof {
            assert(self.nodes() =~= self.nodes_flat());
            lemma_last_of(self.nodes(), tag, self.nodes().len());
            assert(self.index@.dom().contains(tag) || !self.index@.dom().contains(tag));
        }
        match self.index.get(&tag) {
            Some(i) => Some(*i),
            None => None,
        }
    }

    /// The value of a field.
    pub fn tag(&self, tag: u32) -> (r: Option<&TypedValue>)
        requires
            self.wf(),
        ensures
            match r {
                Some(v) => field_of(self.nodes(), tag) == Some(v@),
                None => field_of(self.nodes(), tag) is None,
            },
    {
        match self.find(tag) {
            Some(i) => match &self.elements[i] {
                Element::Tag((_, v)) => Some(v),
                _ => None,
            },
            None => None,
        }
    }

    /// Whether a field is there and carries something.
    pub fn has_tag(&self, tag: u32) -> (r: bool)
        requires
            self.wf(),
        ensures
            r == has_field(self.nodes(), tag),
    {
        match self.tag(tag) {
            Some(v) => !v.is_empty(),
            None => false,
        }
    }

    /// The value of a field, to be written to. Where the block has no such
    /// field, an unset one is appended.
    pub fn tag_mut(&mut self, tag: u32) -> (r: &mut TypedValue)
        requires
            old(self).wf(),
        ensures
            r@ == (match field_of(old(self).nodes(), tag) {
                Some(v) => v,
                None => Typed::Empty,
            }),
            final(self).wf(),
            final(self).nodes() =~= with_field(old(self).nodes(), tag, final(r)@),
    {
        let mut at: Option<usize> = None;
        proof {
            lemma_last_of(self.nodes(), tag, self.nodes().len());
        }
        if let Some(i) = self.find(tag) {
            if let Element::Tag(_) = &self.elements[i] {
                at = Some(i);
            }
        }
        let i: usize = match at {
            Some(i) => i,
            None => self.push(Element::tag(tag, TypedValue::Empty)),
        };
        proof {
            lemma_nodes(*old(self));
            lemma_nodes(*self);
            assert(self.elements@[i as int].node() == self.nodes()[i as int]);
            lemma_replace_value(*self, i as int);
        }
        match &mut self.elements[i] {
            Element::Tag((_, v)) => v,
            _ => unreached(),
        }
    }

    pub fn set_tag<T: IntoTyped>(&mut self, tag: u32, value: T)
        requires
            old(self).wf(),
        ensures
            final(self).wf(),
            final(self).nodes() == with_field(old(self).nodes(), tag, value.typed()),
    {
        let value = value.into_typed();
        let slot = self.tag_mut(tag);
        *slot = value;
    }

    pub fn remove_tag(&mut self, tag: u32)
        requires
            old(self).wf(),
        ensures
            final(self).wf(),
            final(self).nodes() == with_field(old(self).nodes(), tag, Typed::Empty),
    {
        self.set_tag(tag, TypedValue::Empty);
    }

    /// Append a field. One that is there already is an error.
    pub fn push_tag<T: IntoTyped>(&mut self, tag: u32, value: T) -> (r: Result<()>)
        requires
            old(self).wf(),
        ensures
            final(self).wf(),
            r is Err <==> has_field(old(self).nodes(), tag),
            r is Ok ==> final(self).nodes() == old(self).nodes().push(
                Node::Tag(tag, value.typed()),
            ),
            r is Err ==> final(self).nodes() == old(self).nodes() && r->Err_0@
                == ErrorView::InvalidMessage(
                "Tag "@ + decimal_text(tag as nat) + " already exists in block"@,
            ),
    {
        if self.has_tag(tag) {
            let mut text = "Tag ".to_owned();
            push_decimal(&mut text, tag as u64);
            text.append(" already exists in block");
            return Err(Error::invalid_message(text.as_str()));
        }
        let value = value.into_typed();
        self.push(Element::tag(tag, value));
        Ok(())
    }

    /// The entries of a group.
    pub fn group(&self, tag: u32) -> (r: Option<&Vec<Block>>)
        requires
            self.wf(),
        ensures
            match r {
                Some(entries) => group_of(self.nodes(), tag) == Some(blocks_nodes(entries@))
                    && blocks_wf(entries@),
                None => group_of(self.nodes(), tag) is None,
            },
    {
        match self.find(tag) {
            Some(i) => match &self.elements[i] {
                Element::Group(_, entries) => {
                    assert(self.elements@[i as int].wf());
                    assert(self.elements@[i as int].node()->Group_1 =~= blocks_nodes(entries@));
                    Some(entries)
                },
                _ => None,
            },
            None => None,
        }
    }

    /// The entries of a group, to be changed. Where the block has no such
    /// group, an empty one is appended. What is written must be blocks in
    /// order themselves.
    pub fn group_mut(&mut self, tag: u32) -> (r: &mut Vec<Block>)
        requires
            old(self).wf(),
        ensures
            blocks_wf(r@),
            blocks_nodes(r@) == (match group_of(old(self).nodes(), tag) {
                Some(entries) => entries,
                None => seq![],
            }),
            blocks_wf(final(r)@) ==> final(self).wf(),
            final(self).nodes() =~= with_group(old(self).nodes(), tag, blocks_nodes(final(r)@)),
    {
        let mut at: Option<usize> = None;
        proof {
            lemma_last_of(self.nodes(), tag, self.nodes().len());
        }
        if let Some(i) = self.find(tag) {
            if let Element::Group(_, _) = &self.elements[i] {
                at = Some(i);
            }
        }
        let i: usize = match at {
            Some(i) => i,
            None => self.push(Element::group(tag, Vec::new())),
        };
        proof {
            lemma_nodes(*old(self));
            lemma_nodes(*self);
            assert(self.elements@[i as int].node() == self.nodes()[i as int]);
            assert(self.elements@[i as int].wf());
            lemma_replace_entries(*self, i as int);
            assert(blocks_nodes(self.elements@[i as int]->Group_1@)
                =~= self.elements@[i as int].node()->Group_1);
        }
        match &mut self.elements[i] {
            Element::Group(_, entries) => entries,
            _ => unreached(),
        }
    }

    pub fn push_group(&mut self, tag: u32, group: Block)
        requires
            old(self).wf(),
            group.wf(),
        ensures
            final(self).wf(),
            final(self).nodes() == with_group(
                old(self).nodes(),
                tag,
                (match group_of(old(self).nodes(), tag) {
                    Some(entries) => entries,
                    None => seq![],
                }).push(group.nodes()),
            ),
    {
        let entries = self.group_mut(tag);
        let ghost before = entries@;
        entries.push(group);
        assert(blocks_nodes(entries@) =~= blocks_nodes(before).push(group.nodes()));
        assert(blocks_wf(entries@));
    }

    /// Another block that says the same.
    pub fn duplicate(&self) -> (r: Block)
        requires
            self.wf(),
        ensures
            r.wf(),
            r.nodes() == self.nodes(),
        decreases self,
    {
        let mut r = Block::new();
        let mut i: usize = 0;
        assert(r.nodes() =~= self.nodes().take(0));
        while i < self.elements.len()
            invariant
                self.wf(),
                r.wf(),
                i <= self.elements@.len(),
                r.nodes() == self.nodes().take(i as int),
            decreases self.elements@.len() - i,
        {
            let copy = self.elements[i].duplicate();
            r.push(copy);
            i += 1;
            assert(r.nodes() =~= self.nodes().take(i as int));
        }
        assert(r.nodes() =~= self.nodes());
        r
    }
}

impl Default for Block {
    fn default() -> (r: Self)
        ensures
            r.wf(),
            r.nodes() == Seq::<Node>::empty(),
    {
        Block::new()
    }
}

/// Where a field goes that is set: in the place of the last one of its tag, if
/// that is a field, and else behind all others. Nothing else moves or changes. It
/// is the same with a group.
pub proof fn law_where_a_field_goes(
    nodes: Seq<Node>,
    tag: u32,
    v: Typed,
    entries: Seq<Seq<Node>>,
    at: int,
)
    requires
        0 <= at < nodes.len(),
    ensures
        nodes[at].key() == tag && (forall|k: int|
            at < k < nodes.len() ==> (#[trigger] nodes[k]).key() != tag) ==> {
            &&& nodes[at] is Tag ==> with_field(nodes, tag, v) == nodes.update(
                at,
                Node::Tag(tag, v),
            )
            &&& !(nodes[at] is Tag) ==> with_field(nodes, tag, v) == nodes.push(Node::Tag(tag, v))
            &&& nodes[at] is Group ==> with_group(nodes, tag, entries) == nodes.update(
                at,
                Node::Group(tag, entries),
            )
            &&& !(nodes[at] is Group) ==> with_group(nodes, tag, entries) == nodes.push(
                Node::Group(tag, entries),
            )
            &&& found(nodes, tag) == Some(nodes[at])
        },
        (forall|k: int| 0 <= k < nodes.len() ==> (#[trigger] nodes[k]).key() != tag) ==> {
            &&& with_field(nodes, tag, v) == nodes.push(Node::Tag(tag, v))
            &&& with_group(nodes, tag, entries) == nodes.push(Node::Group(tag, entries))
            &&& found(nodes, tag) is None
        },
{
    lemma_last_of(nodes, tag, nodes.len());
    if nodes[at].key() == tag && (forall|k: int|
        at < k < nodes.len() ==> (#[trigger] nodes[k]).key() != tag) {
        lemma_last_of_is(nodes, tag, nodes.len(), at);
    }
    if forall|k: int| 0 <= k < nodes.len() ==> (#[trigger] nodes[k]).key() != tag {
        lemma_last_of_is(nodes, tag, nodes.len(), -1);
    }
}

/// What an element is found by, and what its value is: a field by its tag, a group
/// by its NumInGroup tag, and raw data by the tag of the data.
pub proof fn law_what_elements_are_found_by(
    tag: u32,
    other: u32,
    v: Typed,
    entries: Seq<Seq<Node>>,
    nodes: Seq<Node>,
)
    ensures
        Node::Tag(tag, v).key() == tag,
        Node::Group(tag, entries).key() == tag,
        Node::RawData(other, tag, v).key() == tag,
        found(nodes, tag) == Some(Node::Tag(tag, v)) ==> field_of(nodes, tag) == Some(v),
        found(nodes, tag) == Some(Node::Group(tag, entries)) ==> group_of(nodes, tag) == Some(
            entries,
        ) && field_of(nodes, tag) is None,
        found(nodes, tag) is None ==> field_of(nodes, tag) is None && group_of(nodes, tag) is None,
        has_field(nodes, tag) <==> (field_of(nodes, tag) matches Some(w) && w != Typed::Empty
            && w != Typed::String(Seq::empty())),
{
    assert forall|s: Seq<char>| #[trigger] s.len() == 0 implies s == Seq::<char>::empty() by {
        assert(s =~= Seq::<char>::empty());
    }
}

} // verus!
