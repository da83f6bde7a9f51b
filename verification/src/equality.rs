//! Whether two FIX versions, or two messages, say the same.

use std::collections::{HashMap, HashSet};
use std::sync::Arc;

use vstd::prelude::*;
use vstd::std_specs::iter::IteratorSpec;
use vstd::string::*;

use crate::buffer::bytes_slice;
use crate::message::{FixMessage, MessageView};
use crate::names::{lemma_position, position, NameMap};
use crate::repository::{
    codes_view, map_keys, Component, EnumValue, Field, FixVersion, Group, Message, MessageElement,
};
use crate::text::{bytes_eq, text_eq, text_of};

verus! {

broadcast use vstd::std_specs::hash::group_hash_axioms;

fn option_eq(a: &Option<String>, b: &Option<String>) -> (r: bool)
    ensures
        r == (text_of(*a) == text_of(*b)),
{
    match (a, b) {
        (Some(a), Some(b)) => text_eq(a.as_str(), b.as_str()),
        (None, None) => true,
        _ => false,
    }
}

fn elements_eq(a: &Vec<MessageElement>, b: &Vec<MessageElement>) -> (r: bool)
    ensures
        r == (a@ == b@),
{
    if a.len() != b.len() {
        return false;
    }
    let mut i: usize = 0;
    while i < a.len()
        invariant
            a@.len() == b@.len(),
            i <= a@.len(),
            forall|k: int| 0 <= k < i ==> a@[k] == b@[k],
        decreases a@.len() - i,
    {
        if a[i] != b[i] {
            return false;
        }
        i += 1;
    }
    assert(a@ =~= b@);
    true
}

/// Whether every tag of `a` is in `b`.
fn subset(a: &HashSet<u32>, b: &HashSet<u32>) -> (r: bool)
    ensures
        r == a@.subset_of(b@),
{
    let ghost all = vstd::std_specs::hash::spec_hash_keys_iter(a).remaining().unref();
    for k in it: a.iter()
        invariant
            it.seq().unref() == all,
            all.to_set() == a@,
            forall|j: int| 0 <= j < it.index@ ==> b@.contains(#[trigger] all[j]),
    {
        assert(all[it.index@ as int] == *k);
        if !b.contains(k) {
            proof {
                assert(all.contains(*k));
                assert(all.to_set().contains(*k));
            }
            return false;
        }
    }
    assert forall|k: u32| a@.contains(k) implies b@.contains(k) by {
        assert(all.to_set().contains(k));
        let j = choose|j: int| 0 <= j < all.len() && all[j] == k;
    }
    true
}

fn members_eq(a: &HashSet<u32>, b: &HashSet<u32>) -> (r: bool)
    ensures
        r == (a@ == b@),
{
    let r = subset(a, b) && subset(b, a);
    assert(a@.subset_of(b@) && b@.subset_of(a@) ==> a@ =~= b@);
    r
}

/// A definition that can be compared by what it says.
trait Comparable: View + Sized {
    fn same(&self, other: &Self) -> (r: bool)
        ensures
            r == (self@ == other@),
    ;
}

impl Comparable for Field {
    fn same(&self, other: &Self) -> (r: bool) {
        self.id == other.id && text_eq(self.name.as_str(), other.name.as_str()) && text_eq(
            self.field_type.as_str(),
            other.field_type.as_str(),
        )
    }
}

impl Comparable for Component {
    fn same(&self, other: &Self) -> (r: bool) {
        self.id == other.id && text_eq(self.name.as_str(), other.name.as_str()) && option_eq(
            &self.category,
            &other.category,
        ) && elements_eq(&self.elements, &other.elements) && members_eq(
            &self.members,
            &other.members,
        )
    }
}

impl Comparable for Group {
    fn same(&self, other: &Self) -> (r: bool) {
        self.id == other.id && text_eq(self.name.as_str(), other.name.as_str()) && self.required
            == other.required && self.num_in_group_tag == other.num_in_group_tag && elements_eq(
            &self.elements,
            &other.elements,
        ) && members_eq(&self.members, &other.members)
    }
}

impl Comparable for Message {
    fn same(&self, other: &Self) -> (r: bool) {
        text_eq(self.name.as_str(), other.name.as_str()) && text_eq(
            self.msg_type.as_str(),
            other.msg_type.as_str(),
        ) && option_eq(&self.category, &other.category) && option_eq(
            &self.description,
            &other.description,
        ) && elements_eq(&self.elements, &other.elements)
    }
}

impl Comparable for EnumValue {
    fn same(&self, other: &Self) -> (r: bool) {
        text_eq(self.value.as_str(), other.value.as_str()) && text_eq(
            self.name.as_str(),
            other.name.as_str(),
        ) && self.sort == other.sort
    }
}

fn codes_eq(a: &Vec<EnumValue>, b: &Vec<EnumValue>) -> (r: bool)
    ensures
        r == (codes_view(a@) == codes_view(b@)),
{
    if a.len() != b.len() {
        assert(codes_view(a@).len() != codes_view(b@).len());
        return false;
    }
    let mut i: usize = 0;
    while i < a.len()
        invariant
            a@.len() == b@.len(),
            i <= a@.len(),
            forall|k: int| 0 <= k < i ==> codes_view(a@)[k] == #[trigger] codes_view(b@)[k],
        decreases a@.len() - i,
    {
        if !a[i].same(&b[i]) {
            assert(codes_view(a@)[i as int] != codes_view(b@)[i as int]);
            return false;
        }
        i += 1;
    }
    assert(codes_view(a@) =~= codes_view(b@));
    true
}

/// Whether everything in `a` is also in `b`.
fn map_within<V: Comparable>(a: &HashMap<u32, Arc<V>>, b: &HashMap<u32, Arc<V>>) -> (r: bool)
    ensures
        r == (forall|k: u32| #[trigger]
            a@.dom().contains(k) ==> b@.dom().contains(k) && a@[k]@ == b@[k]@),
{
    let keys = map_keys(a);
    let mut i: usize = 0;
    while i < keys.len()
        invariant
            i <= keys@.len(),
            forall|k: u32| keys@.contains(k) <==> a@.dom().contains(k),
            forall|j: int|
                0 <= j < i ==> b@.dom().contains(#[trigger] keys@[j]) && a@[keys@[j]]@
                    == b@[keys@[j]]@,
        decreases keys@.len() - i,
    {
        let k: u32 = keys[i];
        assert(keys@.contains(k));
        let same = match (a.get(&k), b.get(&k)) {
            (Some(x), Some(y)) => x.same(y),
            _ => false,
        };
        if !same {
            assert(a@.dom().contains(k));
            return false;
        }
        i += 1;
    }
    assert forall|k: u32| #[trigger] a@.dom().contains(k) implies b@.dom().contains(k) && a@[k]@
        == b@[k]@ by {
        assert(keys@.contains(k));
        let j = choose|j: int| 0 <= j < keys@.len() && keys@[j] == k;
    }
    true
}

fn map_eq<V: Comparable>(a: &HashMap<u32, Arc<V>>, b: &HashMap<u32, Arc<V>>) -> (r: bool)
    ensures
        r == (a@.map_values(|v: Arc<V>| v@) == b@.map_values(|v: Arc<V>| v@)),
{
    let r = map_within(a, b) && map_within(b, a);
    proof {
        let x = a@.map_values(|v: Arc<V>| v@);
        let y = b@.map_values(|v: Arc<V>| v@);
        if r {
            assert(x =~= y);
        } else if x == y {
            assert forall|k: u32| #[trigger] a@.dom().contains(k) implies b@.dom().contains(k)
                && a@[k]@ == b@[k]@ by {
                assert(x.dom().contains(k) && y.dom().contains(k));
                assert(x[k] == y[k]);
            }
            assert forall|k: u32| #[trigger] b@.dom().contains(k) implies a@.dom().contains(k)
                && b@[k]@ == a@[k]@ by {
                assert(x.dom().contains(k) && y.dom().contains(k));
                assert(x[k] == y[k]);
            }
        }
    }
    r
}

/// Whether what `a` has under each name is also in `b`.
fn messages_within(a: &NameMap<Arc<Message>>, b: &NameMap<Arc<Message>>) -> (r: bool)
    ensures
        r == (forall|k: Seq<char>| #[trigger]
            a.value(k) is Some ==> b.value(k) is Some && a.value(k)->0@ == b.value(k)->0@),
{
    let mut i: usize = 0;
    while i < a.entries.len()
        invariant
            i <= a.entries@.len(),
            forall|j: int|
                0 <= j < i ==> {
                    let k = (#[trigger] a.entries@[j]).0@;
                    b.value(k) is Some && a.value(k)->0@ == b.value(k)->0@
                },
        decreases a.entries@.len() - i,
    {
        let name = a.entries[i].0.as_str();
        proof {
            lemma_entry_found(*a, i as int);
        }
        let same = match (a.get(name), b.get(name)) {
            (Some(x), Some(y)) => x.same(y),
            _ => false,
        };
        if !same {
            assert(a.value(name@) is Some);
            return false;
        }
        i += 1;
    }
    assert forall|k: Seq<char>| #[trigger] a.value(k) is Some implies b.value(k) is Some
        && a.value(k)->0@ == b.value(k)->0@ by {
        lemma_position(a.entries@, k, a.entries@.len());
        assert(a.entries@[position(a.entries@, k, a.entries@.len())].0@ == k);
    }
    true
}

fn codesets_within(a: &NameMap<Arc<Vec<EnumValue>>>, b: &NameMap<Arc<Vec<EnumValue>>>) -> (r: bool)
    ensures
        r == (forall|k: Seq<char>| #[trigger]
            a.value(k) is Some ==> b.value(k) is Some && codes_view(a.value(k)->0@) == codes_view(
                b.value(k)->0@,
            )),
{
    let mut i: usize = 0;
    while i < a.entries.len()
        invariant
            i <= a.entries@.len(),
            forall|j: int|
                0 <= j < i ==> {
                    let k = (#[trigger] a.entries@[j]).0@;
                    b.value(k) is Some && codes_view(a.value(k)->0@) == codes_view(b.value(k)->0@)
                },
        decreases a.entries@.len() - i,
    {
        let name = a.entries[i].0.as_str();
        proof {
            lemma_entry_found(*a, i as int);
        }
        let same = match (a.get(name), b.get(name)) {
            (Some(x), Some(y)) => codes_eq(x, y),
            _ => false,
        };
        if !same {
            assert(a.value(name@) is Some);
            return false;
        }
        i += 1;
    }
    assert forall|k: Seq<char>| #[trigger] a.value(k) is Some implies b.value(k) is Some
        && codes_view(a.value(k)->0@) == codes_view(b.value(k)->0@) by {
        lemma_position(a.entries@, k, a.entries@.len());
        assert(a.entries@[position(a.entries@, k, a.entries@.len())].0@ == k);
    }
    true
}

/// What is listed is found.
proof fn lemma_entry_found<V>(m: NameMap<V>, i: int)
    requires
        0 <= i < m.entries@.len(),
    ensures
        m.value(m.entries@[i].0@) is Some,
{
    lemma_position(m.entries@, m.entries@[i].0@, m.entries@.len());
}

impl FixVersion {
    /// Whether two versions say the same.
    pub fn same_as(&self, other: &FixVersion) -> (r: bool)
        ensures
            r == (self@ == other@),
    {
        let messages = messages_within(&self.messages, &other.messages) && messages_within(
            &other.messages,
            &self.messages,
        );
        let codesets = codesets_within(&self.codesets, &other.codesets) && codesets_within(
            &other.codesets,
            &self.codesets,
        );
        proof {
            let x = self@.messages;
            let y = other@.messages;
            assert(messages == (x == y)) by {
                if messages {
                    assert(x =~= y);
                } else if x == y {
                    assert forall|k: Seq<char>| #[trigger]
                        self.messages.value(k) is Some <==> other.messages.value(k) is Some by {
                        assert(x.dom().contains(k) == y.dom().contains(k));
                    }
                    assert forall|k: Seq<char>| #[trigger]
                        self.messages.value(k) is Some implies self.messages.value(k)->0@
                        == other.messages.value(k)->0@ by {
                        assert(x[k] == y[k]);
                    }
                    assert forall|k: Seq<char>| #[trigger]
                        other.messages.value(k) is Some implies self.messages.value(k)->0@
                        == other.messages.value(k)->0@ by {
                        assert(x[k] == y[k]);
                        assert(self.messages.value(k) is Some);
                    }
                }
            }
            let x = self@.codesets;
            let y = other@.codesets;
            assert(codesets == (x == y)) by {
                if codesets {
                    assert(x =~= y);
                } else if x == y {
                    assert forall|k: Seq<char>| #[trigger]
                        self.codesets.value(k) is Some <==> other.codesets.value(k) is Some by {
                        assert(x.dom().contains(k) == y.dom().contains(k));
                    }
                    assert forall|k: Seq<char>| #[trigger]
                        self.codesets.value(k) is Some implies codes_view(
                        self.codesets.value(k)->0@,
                    ) == codes_view(other.codesets.value(k)->0@) by {
                        assert(x[k] == y[k]);
                    }
                    assert forall|k: Seq<char>| #[trigger]
                        other.codesets.value(k) is Some implies codes_view(
                        self.codesets.value(k)->0@,
                    ) == codes_view(other.codesets.value(k)->0@) by {
                        assert(x[k] == y[k]);
                        assert(self.codesets.value(k) is Some);
                    }
                }
            }
        }
        text_eq(self.name.as_str(), other.name.as_str()) && text_eq(
            self.version.as_str(),
            other.version.as_str(),
        ) && text_eq(self.begin_string.as_str(), other.begin_string.as_str()) && map_eq(
            &self.fields,
            &other.fields,
        ) && map_eq(&self.components, &other.components) && map_eq(&self.groups, &other.groups)
            && messages && codesets
    }
}

impl MessageView {
    /// Both messages are of the same version, and list the same tags with the
    /// same values.
    pub open spec fn same_as(self, other: MessageView) -> bool {
        &&& self.fix_version@ == other.fix_version@
        &&& self.tags.len() == other.tags.len()
        &&& forall|i: int|
            0 <= i < self.tags.len() ==> (#[trigger] self.tags[i]).0 == other.tags[i].0
                && self.tags[i].1.bytes(self.data) == other.tags[i].1.bytes(other.data)
    }
}

impl FixMessage {
    /// Whether two messages are of the same version, and list the same tags
    /// with the same values.
    pub fn same_as(&self, other: &FixMessage) -> (r: bool)
        requires
            self@.in_range(),
            other@.in_range(),
        ensures
            r == self@.same_as(other@),
    {
        if !self.fix_version.same_as(&other.fix_version) {
            return false;
        }
        if self.tags.len() != other.tags.len() {
            return false;
        }
        let a = bytes_slice(&self.data);
        let b = bytes_slice(&other.data);
        let mut i: usize = 0;
        while i < self.tags.len()
            invariant
                self@.in_range(),
                other@.in_range(),
                a@ == self@.data,
                b@ == other@.data,
                self.tags@.len() == other.tags@.len(),
                i <= self.tags@.len(),
                forall|k: int|
                    0 <= k < i ==> (#[trigger] self@.tags[k]).0 == other@.tags[k].0
                        && self@.tags[k].1.bytes(a@) == other@.tags[k].1.bytes(b@),
            decreases self.tags@.len() - i,
        {
            assert(self@.tags[i as int] == (self.tags@[i as int].0, self.tags@[i as int].1@));
            assert(other@.tags[i as int] == (other.tags@[i as int].0, other.tags@[i as int].1@));
            if self.tags[i].0 != other.tags[i].0 || !bytes_eq(
                self.tags[i].1.as_bytes(a),
                other.tags[i].1.as_bytes(b),
            ) {
                return false;
            }
            i += 1;
        }
        true
    }
}

/// Two messages are the same where their versions say the same, and they list the
/// same tags in the same order with the same bytes, wherever those are kept.
pub proof fn law_which_messages_are_the_same(a: MessageView, b: MessageView, i: int)
    ensures
        a.same_as(a),
        a.same_as(b) <==> b.same_as(a),
        a.same_as(b) ==> a.fix_version@ == b.fix_version@ && a.tags.len() == b.tags.len(),
        a.same_as(b) && 0 <= i < a.tags.len() ==> a.tags[i].0 == b.tags[i].0
            && a.tags[i].1.bytes(a.data) == b.tags[i].1.bytes(b.data),
        a.fix_version@ == b.fix_version@ && a.tags.len() == b.tags.len() && (forall|k: int|
            0 <= k < a.tags.len() ==> (#[trigger] a.tags[k]).0 == b.tags[k].0
                && a.tags[k].1.bytes(a.data) == b.tags[k].1.bytes(b.data)) ==> a.same_as(b),
{
    if a.same_as(b) {
        assert forall|k: int| 0 <= k < b.tags.len() implies (#[trigger] b.tags[k]).0 == a.tags[k].0
            && b.tags[k].1.bytes(b.data) == a.tags[k].1.bytes(a.data) by {
            assert(a.tags[k].0 == b.tags[k].0);
        }
    }
    if b.same_as(a) {
        assert forall|k: int| 0 <= k < a.tags.len() implies (#[trigger] a.tags[k]).0 == b.tags[k].0
            && a.tags[k].1.bytes(a.data) == b.tags[k].1.bytes(b.data) by {
            assert(b.tags[k].0 == a.tags[k].0);
        }
    }
}

} // verus!
