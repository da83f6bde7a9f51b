//! Bringing the fields of a message into the order of its definition.

use vstd::prelude::*;
use vstd::string::*;

use crate::builder::block::{blocks_nodes, blocks_wf, set_nodes, Block, Element, Node};
use crate::builder::message::{missing_header, missing_header_error, BuilderView, Message};
use crate::error::{Error, ErrorView, Result};
use crate::repository::{FixVersion, Group, MessageElement};
use crate::text::{decimal_text, push_decimal};

verus! {

// ---------------------------------------------------------------------------
// Where a tag stands
// ---------------------------------------------------------------------------

/// The last of the first `n` positions that hold `tag`, or -1.
pub open spec fn last_position(order: Seq<u32>, tag: u32, n: nat) -> int
    decreases n,
{
    if n == 0 {
        -1
    } else if order[n - 1] == tag {
        n - 1
    } else {
        last_position(order, tag, (n - 1) as nat)
    }
}

/// The last of the first `n` positions that hold a smaller tag, or 0.
pub open spec fn last_smaller(order: Seq<u32>, tag: u32, n: nat) -> int
    decreases n,
{
    if n == 0 {
        0
    } else if order[n - 1] < tag {
        n - 1
    } else {
        last_smaller(order, tag, (n - 1) as nat)
    }
}

/// Where a tag belongs among the tags of a definition: a known one at its own
/// position, an unknown one behind the last known tag that is smaller.
pub open spec fn slot(order: Seq<u32>, tag: u32) -> int {
    let p = last_position(order, tag, order.len());
    if p >= 0 {
        p * 2
    } else {
        last_smaller(order, tag, order.len()) * 2 + 1
    }
}

/// What elements are sorted by: their place, then their tag.
pub open spec fn sort_key(order: Seq<u32>, tag: u32) -> int {
    slot(order, tag) * 0x1_0000_0000 + tag
}

/// The number of the first `n` elements that a new one with this key goes
/// behind: it comes last among equals.
pub open spec fn place(sorted: Seq<Node>, order: Seq<u32>, key: int, n: nat) -> int
    decreases n,
{
    if n == 0 {
        0
    } else if sort_key(order, sorted[n - 1].key()) <= key {
        n as int
    } else {
        place(sorted, order, key, (n - 1) as nat)
    }
}

/// The first `n` elements in order; equals stay in the order they had.
pub open spec fn sort_nodes(nodes: Seq<Node>, order: Seq<u32>, n: nat) -> Seq<Node>
    decreases n,
{
    if n == 0 {
        seq![]
    } else {
        let before = sort_nodes(nodes, order, (n - 1) as nat);
        before.insert(
            place(before, order, sort_key(order, nodes[n - 1].key()), before.len()),
            nodes[n - 1],
        )
    }
}

/// The elements of a block that carry something, in the order of `order`.
pub open spec fn arranged(nodes: Seq<Node>, order: Seq<u32>) -> Seq<Node> {
    let set = set_nodes(nodes, nodes.len());
    sort_nodes(set, order, set.len())
}

pub open spec fn in_order(nodes: Seq<Node>, order: Seq<u32>) -> bool {
    forall|i: int, j: int|
        0 <= i < j < nodes.len() ==> sort_key(order, (#[trigger] nodes[i]).key()) <= sort_key(
            order,
            (#[trigger] nodes[j]).key(),
        )
}

// ---------------------------------------------------------------------------
// The normal form
// ---------------------------------------------------------------------------

pub open spec fn no_group(tag: u32) -> ErrorView {
    ErrorView::InvalidMessage(
        "Group definition not found for NumInGroup tag "@ + decimal_text(tag as nat),
    )
}

/// How deep groups nest in an element.
pub open spec fn node_depth(node: Node) -> nat
    decreases node,
{
    match node {
        Node::Group(_, entries) => 1 + entries_depth(entries, entries.len()),
        _ => 0,
    }
}

pub open spec fn entries_depth(entries: Seq<Seq<Node>>, n: nat) -> nat
    decreases entries, n,
{
    if n == 0 || n > entries.len() {
        0
    } else {
        let before = entries_depth(entries, (n - 1) as nat);
        let last = nodes_depth(entries[n - 1], entries[n - 1].len());
        if before > last {
            before
        } else {
            last
        }
    }
}

pub open spec fn nodes_depth(nodes: Seq<Node>, n: nat) -> nat
    decreases nodes, n,
{
    if n == 0 || n > nodes.len() {
        0
    } else {
        let before = nodes_depth(nodes, (n - 1) as nat);
        let last = node_depth(nodes[n - 1]);
        if before > last {
            before
        } else {
            last
        }
    }
}

pub open spec fn within(nodes: Seq<Node>, depth: nat) -> bool {
    forall|i: int| 0 <= i < nodes.len() ==> node_depth(#[trigger] nodes[i]) <= depth
}

/// A block in the order of its definition, its groups by their own
/// definitions. `depth` is how deep the groups nest at most.
pub open spec fn normal_nodes(
    fix: FixVersion,
    definition: Seq<MessageElement>,
    nodes: Seq<Node>,
    depth: nat,
) -> std::result::Result<Seq<Node>, ErrorView>
    decreases depth, 2nat, 0nat,
{
    let sorted = arranged(nodes, fix.canonical(definition));
    normal_list(fix, definition, sorted, sorted.len(), depth)
}

/// The first `n` elements with their groups normalized.
pub open spec fn normal_list(
    fix: FixVersion,
    definition: Seq<MessageElement>,
    list: Seq<Node>,
    n: nat,
    depth: nat,
) -> std::result::Result<Seq<Node>, ErrorView>
    decreases depth, 1nat, n,
{
    if n == 0 {
        Ok(seq![])
    } else {
        match normal_list(fix, definition, list, (n - 1) as nat, depth) {
            Err(e) => Err(e),
            Ok(before) => match list[n - 1] {
                Node::Group(tag, entries) => match fix.group_for(definition, tag) {
                    None => Err(no_group(tag)),
                    Some(group) => if depth == 0 {
                        arbitrary()
                    } else {
                        match normal_entries(
                            fix,
                            group.elements@,
                            entries,
                            entries.len(),
                            (depth - 1) as nat,
                        ) {
                            Err(e) => Err(e),
                            Ok(done) => Ok(before.push(Node::Group(tag, done))),
                        }
                    },
                },
                other => Ok(before.push(other)),
            },
        }
    }
}

/// The first `n` entries of a group, each normalized.
pub open spec fn normal_entries(
    fix: FixVersion,
    definition: Seq<MessageElement>,
    entries: Seq<Seq<Node>>,
    n: nat,
    depth: nat,
) -> std::result::Result<Seq<Seq<Node>>, ErrorView>
    decreases depth, 3nat, n,
{
    if n == 0 {
        Ok(seq![])
    } else {
        match normal_entries(fix, definition, entries, (n - 1) as nat, depth) {
            Err(e) => Err(e),
            Ok(before) => match normal_nodes(fix, definition, entries[n - 1], depth) {
                Err(e) => Err(e),
                Ok(nodes) => Ok(before.push(nodes)),
            },
        }
    }
}

/// A whole block in its normal form.
pub open spec fn normal_block(
    fix: FixVersion,
    definition: Seq<MessageElement>,
    nodes: Seq<Node>,
) -> std::result::Result<Seq<Node>, ErrorView> {
    normal_nodes(fix, definition, nodes, nodes_depth(nodes, nodes.len()))
}

impl BuilderView {
    /// The message in its normal form.
    pub open spec fn normalized(self) -> std::result::Result<BuilderView, ErrorView> {
        match self.fix_version.component_named("StandardHeader"@) {
            None => Err(missing_header(self.fix_version)),
            Some(std_header) => match normal_block(
                self.fix_version,
                std_header.elements@,
                self.header,
            ) {
                Err(e) => Err(e),
                Ok(header) => match normal_block(
                    self.fix_version,
                    self.fix_message.elements@,
                    self.body,
                ) {
                    Err(e) => Err(e),
                    Ok(body) => Ok(BuilderView { header, body, ..self }),
                },
            },
        }
    }
}

// ---------------------------------------------------------------------------
// Facts about sorting
// ---------------------------------------------------------------------------

pub(crate) proof fn lemma_place(sorted: Seq<Node>, order: Seq<u32>, key: int, n: nat)
    requires
        n <= sorted.len(),
    ensures
        0 <= place(sorted, order, key, n) <= n,
        place(sorted, order, key, n) > 0 ==> sort_key(
            order,
            sorted[place(sorted, order, key, n) - 1].key(),
        ) <= key,
        forall|k: int|
            place(sorted, order, key, n) <= k < n ==> sort_key(order, (#[trigger] sorted[k]).key())
                > key,
    decreases n,
{
    if n > 0 && sort_key(order, sorted[n - 1].key()) > key {
        lemma_place(sorted, order, key, (n - 1) as nat);
    }
}

/// Sorting puts the elements in order, and neither adds nor drops any.
pub proof fn law_sorted(nodes: Seq<Node>, order: Seq<u32>, n: nat)
    requires
        n <= nodes.len(),
    ensures
        sort_nodes(nodes, order, n).len() == n,
        in_order(sort_nodes(nodes, order, n), order),
        sort_nodes(nodes, order, n).to_multiset() == nodes.take(n as int).to_multiset(),
    decreases n,
{
    broadcast use vstd::seq_lib::group_to_multiset_ensures;

    if n == 0 {
        assert(nodes.take(0) =~= seq![]);
    } else {
        law_sorted(nodes, order, (n - 1) as nat);
        let before = sort_nodes(nodes, order, (n - 1) as nat);
        let node = nodes[n - 1];
        let p = place(before, order, sort_key(order, node.key()), before.len());
        lemma_place(before, order, sort_key(order, node.key()), before.len());
        let after = before.insert(p, node);
        assert forall|i: int, j: int| 0 <= i < j < after.len() implies sort_key(
            order,
            (#[trigger] after[i]).key(),
        ) <= sort_key(order, (#[trigger] after[j]).key()) by {
            let a = if i < p {
                i
            } else {
                i - 1
            };
            let b = if j < p {
                j
            } else {
                j - 1
            };
            if i == p {
                assert(after[j] == before[j - 1]);
            } else if j == p {
                assert(after[i] == before[i]);
                if i < p - 1 {
                    assert(sort_key(order, before[i].key()) <= sort_key(
                        order,
                        before[p - 1].key(),
                    ));
                }
            } else {
                assert(after[i] == before[a] && after[j] == before[b]);
            }
        }
        vstd::seq_lib::to_multiset_insert(before, p, node);
        assert(nodes.take(n as int) =~= nodes.take(n - 1).push(node));
    }
}

proof fn lemma_last_smaller(order: Seq<u32>, a: u32, b: u32, n: nat)
    requires
        n <= order.len(),
        a <= b,
    ensures
        0 <= last_smaller(order, a, n) <= last_smaller(order, b, n),
        n > 0 ==> last_smaller(order, b, n) < n,
    decreases n,
{
    if n > 0 {
        lemma_last_smaller(order, a, b, (n - 1) as nat);
    }
}

/// Unknown tags are sorted by their numbers, wherever the known ones stand.
pub proof fn law_unknown_tags_by_number(order: Seq<u32>, a: u32, b: u32)
    requires
        !order.contains(a),
        !order.contains(b),
        a < b,
    ensures
        sort_key(order, a) < sort_key(order, b),
{
    lemma_last_smaller(order, a, b, order.len());
    lemma_unknown(order, a, order.len());
    lemma_unknown(order, b, order.len());
}

pub(crate) proof fn lemma_unknown(order: Seq<u32>, tag: u32, n: nat)
    requires
        n <= order.len(),
        !order.contains(tag),
    ensures
        last_position(order, tag, n) == -1,
    decreases n,
{
    if n > 0 {
        assert(order[n - 1] != tag);
        lemma_unknown(order, tag, (n - 1) as nat);
    }
}

/// Different tags have different keys.
pub(crate) proof fn lemma_keys_differ(order: Seq<u32>, a: u32, b: u32)
    ensures
        sort_key(order, a) == sort_key(order, b) ==> a == b,
{
}

/// No tag occurs twice.
pub open spec fn distinct(nodes: Seq<Node>) -> bool {
    forall|i: int, j: int|
        0 <= i < j < nodes.len() ==> (#[trigger] nodes[i]).key() != (#[trigger] nodes[j]).key()
}

/// Two sequences in order that hold the same elements, all with different tags,
/// are the same.
proof fn lemma_in_order_unique(a: Seq<Node>, b: Seq<Node>, order: Seq<u32>)
    requires
        in_order(a, order),
        in_order(b, order),
        distinct(a),
        distinct(b),
        a.to_multiset() == b.to_multiset(),
    ensures
        a == b,
    decreases a.len(),
{
    broadcast use vstd::seq_lib::group_to_multiset_ensures;

    assert(a.len() == a.to_multiset().len() && b.len() == b.to_multiset().len());
    if a.len() == 0 {
        assert(a =~= b);
    } else {
        assert(b.to_multiset().count(a[0]) > 0) by {
            assert(a.contains(a[0]));
        }
        assert(b.contains(a[0]));
        assert(a.to_multiset().count(b[0]) > 0) by {
            assert(b.contains(b[0]));
        }
        assert(a.contains(b[0]));
        let i = choose|i: int| 0 <= i < b.len() && b[i] == a[0];
        let j = choose|j: int| 0 <= j < a.len() && a[j] == b[0];
        if i > 0 {
            lemma_keys_differ(order, b[0].key(), b[i].key());
            assert(sort_key(order, b[0].key()) <= sort_key(order, b[i].key()));
            if j > 0 {
                assert(sort_key(order, a[0].key()) <= sort_key(order, a[j].key()));
            }
        }
        assert(a[0] == b[0]);
        let x = a.drop_first();
        let y = b.drop_first();
        assert(a =~= seq![a[0]] + x);
        assert(b =~= seq![b[0]] + y);
        assert(a.remove(0) =~= x);
        assert(b.remove(0) =~= y);
        assert(x.to_multiset() =~= y.to_multiset());
        assert forall|p: int, q: int| 0 <= p < q < x.len() implies sort_key(
            order,
            (#[trigger] x[p]).key(),
        ) <= sort_key(order, (#[trigger] x[q]).key()) && x[p].key() != x[q].key() by {
            assert(x[p] == a[p + 1] && x[q] == a[q + 1]);
        }
        assert forall|p: int, q: int| 0 <= p < q < y.len() implies sort_key(
            order,
            (#[trigger] y[p]).key(),
        ) <= sort_key(order, (#[trigger] y[q]).key()) && y[p].key() != y[q].key() by {
            assert(y[p] == b[p + 1] && y[q] == b[q + 1]);
        }
        lemma_in_order_unique(x, y, order);
        assert(a =~= b);
    }
}

/// Whether tags occur twice does not depend on the order of the elements.
proof fn lemma_distinct_multiset(a: Seq<Node>, b: Seq<Node>)
    requires
        distinct(a),
        a.to_multiset() == b.to_multiset(),
    ensures
        distinct(b),
{
    broadcast use vstd::seq_lib::group_to_multiset_ensures;

    assert forall|i: int, j: int| 0 <= i < j < b.len() implies (#[trigger] b[i]).key() != (
    #[trigger] b[j]).key() by {
        if b[i].key() == b[j].key() {
            assert(b.contains(b[i]) && b.contains(b[j]));
            assert(a.to_multiset().count(b[i]) > 0 && a.to_multiset().count(b[j]) > 0);
            assert(a.contains(b[i]) && a.contains(b[j]));
            let p = choose|p: int| 0 <= p < a.len() && a[p] == b[i];
            let q = choose|q: int| 0 <= q < a.len() && a[q] == b[j];
            assert(p == q) by {
                if p < q {
                    assert(a[p].key() != a[q].key());
                } else if q < p {
                    assert(a[q].key() != a[p].key());
                }
            }
            let x = b[i];
            assert(b[j] == x);
            lemma_count_two(b, i, j);
            lemma_count_one(a, p);
        }
    }
}

proof fn lemma_count_two(s: Seq<Node>, i: int, j: int)
    requires
        0 <= i < j < s.len(),
        s[i] == s[j],
    ensures
        s.to_multiset().count(s[i]) >= 2,
{
    broadcast use vstd::seq_lib::group_to_multiset_ensures;

    let t = s.remove(j);
    assert(s.to_multiset() =~= t.to_multiset().insert(s[j])) by {
        assert(t.insert(j, s[j]) =~= s);
        vstd::seq_lib::to_multiset_insert(t, j, s[j]);
    }
    assert(t[i] == s[i]);
    assert(t.contains(s[i]));
}

proof fn lemma_count_one(s: Seq<Node>, i: int)
    requires
        0 <= i < s.len(),
        distinct(s),
    ensures
        s.to_multiset().count(s[i]) == 1,
{
    broadcast use vstd::seq_lib::group_to_multiset_ensures;

    let t = s.remove(i);
    assert(s.to_multiset() =~= t.to_multiset().insert(s[i])) by {
        assert(t.insert(i, s[i]) =~= s);
        vstd::seq_lib::to_multiset_insert(t, i, s[i]);
    }
    assert(!t.contains(s[i])) by {
        if t.contains(s[i]) {
            let k = choose|k: int| 0 <= k < t.len() && t[k] == s[i];
            if k < i {
                assert(s[k].key() != s[i].key());
            } else {
                assert(s[i].key() != s[k + 1].key());
            }
        }
    }
}

/// Two blocks that hold the same fields in different orders have the same
/// normal form, as long as no tag occurs twice.
pub proof fn law_normal_form_ignores_order(
    fix: FixVersion,
    definition: Seq<MessageElement>,
    a: Seq<Node>,
    b: Seq<Node>,
    depth: nat,
)
    requires
        set_nodes(a, a.len()).to_multiset() == set_nodes(b, b.len()).to_multiset(),
        distinct(set_nodes(a, a.len())),
    ensures
        normal_nodes(fix, definition, a, depth) == normal_nodes(fix, definition, b, depth),
{
    let order = fix.canonical(definition);
    let x = set_nodes(a, a.len());
    let y = set_nodes(b, b.len());
    law_sorted(x, order, x.len());
    law_sorted(y, order, y.len());
    assert(x.take(x.len() as int) =~= x);
    assert(y.take(y.len() as int) =~= y);
    lemma_distinct_multiset(x, arranged(a, order));
    lemma_distinct_multiset(x, arranged(b, order));
    lemma_in_order_unique(arranged(a, order), arranged(b, order), order);
}

// ---------------------------------------------------------------------------
// Normalizing twice
// ---------------------------------------------------------------------------

pub(crate) proof fn lemma_within(nodes: Seq<Node>, n: nat)
    requires
        n <= nodes.len(),
    ensures
        forall|i: int| 0 <= i < n ==> node_depth(#[trigger] nodes[i]) <= nodes_depth(nodes, n),
    decreases n,
{
    if n > 0 {
        lemma_within(nodes, (n - 1) as nat);
    }
}

pub(crate) proof fn lemma_entries_within(entries: Seq<Seq<Node>>, n: nat)
    requires
        n <= entries.len(),
    ensures
        forall|i: int|
            0 <= i < n ==> within(#[trigger] entries[i], entries_depth(entries, n)),
    decreases n,
{
    if n > 0 {
        lemma_entries_within(entries, (n - 1) as nat);
        lemma_within(entries[n - 1], entries[n - 1].len());
    }
}

proof fn lemma_set_nodes(nodes: Seq<Node>, n: nat, depth: nat)
    requires
        n <= nodes.len(),
        within(nodes, depth),
    ensures
        within(set_nodes(nodes, n), depth),
        forall|i: int|
            0 <= i < set_nodes(nodes, n).len() ==> (#[trigger] set_nodes(nodes, n)[i]).is_set(),
    decreases n,
{
    if n > 0 {
        lemma_set_nodes(nodes, (n - 1) as nat, depth);
    }
}

proof fn lemma_sort_within(nodes: Seq<Node>, order: Seq<u32>, n: nat, depth: nat)
    requires
        n <= nodes.len(),
        within(nodes, depth),
    ensures
        within(sort_nodes(nodes, order, n), depth),
        (forall|i: int| 0 <= i < n ==> (#[trigger] nodes[i]).is_set()) ==> (forall|i: int|
            0 <= i < sort_nodes(nodes, order, n).len() ==> (#[trigger] sort_nodes(
                nodes,
                order,
                n,
            )[i]).is_set()),
    decreases n,
{
    if n > 0 {
        lemma_sort_within(nodes, order, (n - 1) as nat, depth);
        let before = sort_nodes(nodes, order, (n - 1) as nat);
        lemma_place(before, order, sort_key(order, nodes[n - 1].key()), before.len());
    }
}

/// The elements of a block nest no deeper once they are arranged, and all carry
/// something.
pub(crate) proof fn lemma_arranged(nodes: Seq<Node>, order: Seq<u32>, depth: nat)
    requires
        within(nodes, depth),
    ensures
        within(arranged(nodes, order), depth),
        forall|i: int|
            0 <= i < arranged(nodes, order).len() ==> (
            #[trigger] arranged(nodes, order)[i]).is_set(),
{
    lemma_set_nodes(nodes, nodes.len(), depth);
    let set = set_nodes(nodes, nodes.len());
    lemma_sort_within(set, order, set.len(), depth);
}

/// What is in order, and all set, is left as it is.
proof fn lemma_arranged_fixed(nodes: Seq<Node>, order: Seq<u32>)
    requires
        in_order(nodes, order),
        forall|i: int| 0 <= i < nodes.len() ==> (#[trigger] nodes[i]).is_set(),
    ensures
        arranged(nodes, order) == nodes,
{
    lemma_set_fixed(nodes, nodes.len());
    assert(nodes.take(nodes.len() as int) =~= nodes);
    lemma_sort_fixed(nodes, order, nodes.len());
}

pub(crate) proof fn lemma_set_fixed(nodes: Seq<Node>, n: nat)
    requires
        n <= nodes.len(),
        forall|i: int| 0 <= i < nodes.len() ==> (#[trigger] nodes[i]).is_set(),
    ensures
        set_nodes(nodes, n) == nodes.take(n as int),
    decreases n,
{
    if n > 0 {
        lemma_set_fixed(nodes, (n - 1) as nat);
        assert(nodes[n - 1].is_set());
    }
    assert(set_nodes(nodes, n) =~= nodes.take(n as int));
}

proof fn lemma_sort_fixed(nodes: Seq<Node>, order: Seq<u32>, n: nat)
    requires
        n <= nodes.len(),
        in_order(nodes, order),
    ensures
        sort_nodes(nodes, order, n) == nodes.take(n as int),
    decreases n,
{
    if n > 0 {
        lemma_sort_fixed(nodes, order, (n - 1) as nat);
        let before = nodes.take(n - 1);
        if n > 1 {
            assert(before[n - 2] == nodes[n - 2]);
            assert(sort_key(order, nodes[n - 2].key()) <= sort_key(order, nodes[n - 1].key()));
        }
    }
    assert(sort_nodes(nodes, order, n) =~= nodes.take(n as int));
}

/// Normalizing the groups of a list leaves tags, number and whether elements
/// are set as they were, and does nothing more the second time.
proof fn lemma_normal_list(
    fix: FixVersion,
    definition: Seq<MessageElement>,
    list: Seq<Node>,
    n: nat,
    depth: nat,
)
    requires
        n <= list.len(),
        within(list, depth),
        normal_list(fix, definition, list, n, depth) is Ok,
    ensures
        ({
            let done = normal_list(fix, definition, list, n, depth)->Ok_0;
            &&& done.len() == n
            &&& forall|i: int|
                0 <= i < n ==> (#[trigger] done[i]).key() == list[i].key() && done[i].is_set()
                    == list[i].is_set()
            &&& within(done, depth)
            &&& normal_list(fix, definition, done, n, depth) == Ok::<Seq<Node>, ErrorView>(done)
        }),
    decreases depth, 1nat, n,
{
    if n > 0 {
        let k = (n - 1) as nat;
        lemma_normal_list(fix, definition, list, k, depth);
        let before = normal_list(fix, definition, list, k, depth)->Ok_0;
        let done = normal_list(fix, definition, list, n, depth)->Ok_0;
        assert(done.take(n - 1) =~= before);
        assert(node_depth(list[n - 1]) <= depth);
        if let Node::Group(tag, entries) = list[n - 1] {
            assert(fix.group_for(definition, tag) is Some);
            let elements = fix.group_for(definition, tag)->0.elements@;
            assert(depth > 0);
            lemma_entries_within(entries, entries.len());
            assert forall|i: int| 0 <= i < entries.len() implies within(
                #[trigger] entries[i],
                (depth - 1) as nat,
            ) by {
                assert(within(entries[i], entries_depth(entries, entries.len())));
            }
            lemma_normal_entries(fix, elements, entries, entries.len(), (depth - 1) as nat);
            let inner = normal_entries(
                fix,
                elements,
                entries,
                entries.len(),
                (depth - 1) as nat,
            )->Ok_0;
            assert(done == before.push(Node::Group(tag, inner)));
            lemma_depth_of_group(inner, inner.len(), (depth - 1) as nat);
            assert(node_depth(Node::Group(tag, inner)) <= depth);
        } else {
            assert(done == before.push(list[n - 1]));
        }
        lemma_normal_list_prefix(fix, definition, done, before, k, depth);
    }
}

proof fn lemma_depth_of_group(entries: Seq<Seq<Node>>, n: nat, depth: nat)
    requires
        n <= entries.len(),
        forall|i: int| 0 <= i < n ==> within(#[trigger] entries[i], depth),
    ensures
        entries_depth(entries, n) <= depth,
    decreases n,
{
    if n > 0 {
        lemma_depth_of_group(entries, (n - 1) as nat, depth);
        assert(within(entries[n - 1], depth));
        lemma_nodes_depth(entries[n - 1], entries[n - 1].len(), depth);
    }
}

pub(crate) proof fn lemma_nodes_depth(nodes: Seq<Node>, n: nat, depth: nat)
    requires
        n <= nodes.len(),
        within(nodes, depth),
    ensures
        nodes_depth(nodes, n) <= depth,
    decreases n,
{
    if n > 0 {
        lemma_nodes_depth(nodes, (n - 1) as nat, depth);
    }
}

proof fn lemma_normal_list_prefix(
    fix: FixVersion,
    definition: Seq<MessageElement>,
    a: Seq<Node>,
    b: Seq<Node>,
    n: nat,
    depth: nat,
)
    requires
        n <= a.len(),
        n <= b.len(),
        forall|i: int| 0 <= i < n ==> a[i] == b[i],
    ensures
        normal_list(fix, definition, a, n, depth) == normal_list(fix, definition, b, n, depth),
    decreases n,
{
    if n > 0 {
        lemma_normal_list_prefix(fix, definition, a, b, (n - 1) as nat, depth);
    }
}

proof fn lemma_normal_entries(
    fix: FixVersion,
    definition: Seq<MessageElement>,
    entries: Seq<Seq<Node>>,
    n: nat,
    depth: nat,
)
    requires
        n <= entries.len(),
        forall|i: int| 0 <= i < entries.len() ==> within(#[trigger] entries[i], depth),
        normal_entries(fix, definition, entries, n, depth) is Ok,
    ensures
        ({
            let done = normal_entries(fix, definition, entries, n, depth)->Ok_0;
            &&& done.len() == n
            &&& forall|i: int| 0 <= i < n ==> within(#[trigger] done[i], depth)
            &&& normal_entries(fix, definition, done, n, depth) == Ok::<
                Seq<Seq<Node>>,
                ErrorView,
            >(done)
        }),
    decreases depth, 3nat, n,
{
    if n > 0 {
        let k = (n - 1) as nat;
        lemma_normal_entries(fix, definition, entries, k, depth);
        let before = normal_entries(fix, definition, entries, k, depth)->Ok_0;
        let done = normal_entries(fix, definition, entries, n, depth)->Ok_0;
        assert(within(entries[n - 1], depth));
        law_normal_form_is_stable(fix, definition, entries[n - 1], depth);
        lemma_normal_entries_prefix(fix, definition, done, before, k, depth);
        assert(done[n - 1] == normal_nodes(fix, definition, entries[n - 1], depth)->Ok_0);
    }
}

proof fn lemma_normal_entries_prefix(
    fix: FixVersion,
    definition: Seq<MessageElement>,
    a: Seq<Seq<Node>>,
    b: Seq<Seq<Node>>,
    n: nat,
    depth: nat,
)
    requires
        n <= a.len(),
        n <= b.len(),
        forall|i: int| 0 <= i < n ==> a[i] == b[i],
    ensures
        normal_entries(fix, definition, a, n, depth) == normal_entries(
            fix,
            definition,
            b,
            n,
            depth,
        ),
    decreases n,
{
    if n > 0 {
        lemma_normal_entries_prefix(fix, definition, a, b, (n - 1) as nat, depth);
    }
}

/// Normalizing what is normalized changes nothing.
pub proof fn law_normal_form_is_stable(
    fix: FixVersion,
    definition: Seq<MessageElement>,
    nodes: Seq<Node>,
    depth: nat,
)
    requires
        within(nodes, depth),
        normal_nodes(fix, definition, nodes, depth) is Ok,
    ensures
        ({
            let done = normal_nodes(fix, definition, nodes, depth)->Ok_0;
            &&& within(done, depth)
            &&& in_order(done, fix.canonical(definition))
            &&& normal_nodes(fix, definition, done, depth) == Ok::<Seq<Node>, ErrorView>(done)
        }),
    decreases depth, 2nat, 0nat,
{
    let order = fix.canonical(definition);
    let list = arranged(nodes, order);
    let set = set_nodes(nodes, nodes.len());
    lemma_arranged(nodes, order, depth);
    law_sorted(set, order, set.len());
    lemma_normal_list(fix, definition, list, list.len(), depth);
    let done = normal_list(fix, definition, list, list.len(), depth)->Ok_0;
    assert forall|i: int, j: int| 0 <= i < j < done.len() implies sort_key(
        order,
        (#[trigger] done[i]).key(),
    ) <= sort_key(order, (#[trigger] done[j]).key()) by {
        assert(done[i].key() == list[i].key() && done[j].key() == list[j].key());
    }
    assert forall|i: int| 0 <= i < done.len() implies (#[trigger] done[i]).is_set() by {
        assert(list[i].is_set());
    }
    lemma_arranged_fixed(done, order);
}

// ---------------------------------------------------------------------------
// Doing it
// ---------------------------------------------------------------------------

/// Append the tags of a definition in document order.
fn build_canonical_order(
    fix: &FixVersion,
    elements: &Vec<MessageElement>,
    order: &mut Vec<u32>,
    levels: usize,
)
    ensures
        final(order)@ == old(order)@ + fix.tags_in(elements@, 0, levels as nat),
    decreases levels,
{
    let mut i: usize = 0;
    let ghost all = old(order)@ + fix.tags_in(elements@, 0, levels as nat);
    while i < elements.len()
        invariant
            i <= elements@.len(),
            order@ + fix.tags_in(elements@, i as int, levels as nat) == all,
        decreases elements@.len() - i,
    {
        let ghost before = order@;
        let ghost rest = fix.tags_in(elements@, i + 1, levels as nat);
        match elements[i] {
            MessageElement::Field(r) => {
                order.push(r.field_id);
            },
            MessageElement::Component(r) => {
                if let Some(c) = fix.get_component(r.component_id) {
                    if levels > 0 {
                        build_canonical_order(fix, &c.elements, order, levels - 1);
                    }
                }
            },
            MessageElement::Group(r) => {
                if let Some(g) = fix.get_group(r.group_id) {
                    order.push(g.num_in_group_tag);
                }
            },
        }
        assert(order@ + rest =~= before + fix.tags_in(elements@, i as int, levels as nat));
        i += 1;
    }
    assert(order@ =~= all);
}

fn create_sort_key(order: &Vec<u32>, tag: u32) -> (r: u128)
    ensures
        r == sort_key(order@, tag),
{
    let mut i: usize = order.len();
    while i > 0
        invariant
            i <= order@.len(),
            last_position(order@, tag, order@.len()) == last_position(order@, tag, i as nat),
        decreases i,
    {
        i -= 1;
        if order[i] == tag {
            return (i as u128) * 2 * 0x1_0000_0000 + (tag as u128);
        }
    }
    let mut after: usize = 0;
    let mut i: usize = order.len();
    while i > 0
        invariant_except_break
            i <= order@.len(),
            after == 0,
            last_smaller(order@, tag, order@.len()) == last_smaller(order@, tag, i as nat),
        ensures
            after == last_smaller(order@, tag, order@.len()),
        decreases i,
    {
        i -= 1;
        if order[i] < tag {
            after = i;
            break ;
        }
    }
    ((after as u128) * 2 + 1) * 0x1_0000_0000 + (tag as u128)
}

/// The elements of a block that carry something, in the order of `order`.
fn sort_elements(block: &Block, order: &Vec<u32>) -> (r: Vec<Element>)
    requires
        block.wf(),
    ensures
        r@.map_values(|e: Element| e.node()) == arranged(block.nodes(), order@),
        forall|i: int| 0 <= i < r@.len() ==> (#[trigger] r@[i]).wf(),
{
    let mut sorted: Vec<Element> = Vec::new();
    let n: usize = block.len();
    let ghost nodes = block.nodes();
    let mut i: usize = 0;
    assert(sorted@.map_values(|e: Element| e.node()) =~= seq![]);
    assert(set_nodes(nodes, 0) =~= seq![]);
    while i < n
        invariant
            block.wf(),
            nodes == block.nodes(),
            n == nodes.len(),
            i <= n,
            sorted@.map_values(|e: Element| e.node()) == sort_nodes(
                set_nodes(nodes, i as nat),
                order@,
                set_nodes(nodes, i as nat).len(),
            ),
            forall|k: int| 0 <= k < sorted@.len() ==> (#[trigger] sorted@[k]).wf(),
        decreases n - i,
    {
        let element = block.element(i);
        if element.is_set() {
            let key: u128 = create_sort_key(order, element.key());
            let ghost view = sorted@.map_values(|e: Element| e.node());
            let mut at: usize = sorted.len();
            while at > 0 && create_sort_key(order, sorted[at - 1].key()) > key
                invariant
                    at <= sorted@.len(),
                    view == sorted@.map_values(|e: Element| e.node()),
                    place(view, order@, key as int, view.len()) == place(
                        view,
                        order@,
                        key as int,
                        at as nat,
                    ),
                decreases at,
            {
                assert(view[at - 1] == sorted@[at - 1].node());
                at -= 1;
            }
            assert(at > 0 ==> view[at - 1] == sorted@[at - 1].node());
            assert(place(view, order@, key as int, view.len()) == at);
            let copy = element.duplicate();
            let ghost before = sorted@;
            sorted.insert(at, copy);
            proof {
                let node = nodes[i as int];
                assert(sorted@.map_values(|e: Element| e.node()) =~= view.insert(
                    at as int,
                    node,
                ));
                let set0 = set_nodes(nodes, i as nat);
                let set1 = set_nodes(nodes, (i + 1) as nat);
                assert(set1 == set0.push(node));
                lemma_sort_prefix(set1, set0, order@, set0.len());
                assert forall|k: int| 0 <= k < sorted@.len() implies (
                #[trigger] sorted@[k]).wf() by {
                    if k < at {
                        assert(sorted@[k] == before[k]);
                    } else if k > at {
                        assert(sorted@[k] == before[k - 1]);
                    }
                }
            }
        }
        i += 1;
    }
    sorted
}

proof fn lemma_sort_prefix(a: Seq<Node>, b: Seq<Node>, order: Seq<u32>, n: nat)
    requires
        n <= a.len(),
        n <= b.len(),
        forall|i: int| 0 <= i < n ==> a[i] == b[i],
    ensures
        sort_nodes(a, order, n) == sort_nodes(b, order, n),
    decreases n,
{
    if n > 0 {
        lemma_sort_prefix(a, b, order, (n - 1) as nat);
    }
}

fn normalize_block_with_definition(
    fix: &FixVersion,
    block: &Block,
    definition: &Vec<MessageElement>,
    Ghost(depth): Ghost<nat>,
) -> (r: Result<Block>)
    requires
        block.wf(),
        within(block.nodes(), depth),
    ensures
        match normal_nodes(*fix, definition@, block.nodes(), depth) {
            Ok(nodes) => r matches Ok(b) && b.wf() && b.nodes() == nodes,
            Err(e) => r matches Err(err) && err@ == e,
        },
    decreases depth, 1nat,
{
    let mut order: Vec<u32> = Vec::new();
    build_canonical_order(fix, definition, &mut order, fix.components.len());
    assert(order@ =~= fix.canonical(definition@));
    let sorted = sort_elements(block, &order);
    let ghost list = sorted@.map_values(|e: Element| e.node());
    proof {
        lemma_arranged(block.nodes(), order@, depth);
    }
    let mut normalized = Block::new();
    let mut i: usize = 0;
    while i < sorted.len()
        invariant
            i <= sorted@.len(),
            list == sorted@.map_values(|e: Element| e.node()),
            list == arranged(block.nodes(), fix.canonical(definition@)),
            within(list, depth),
            forall|k: int| 0 <= k < sorted@.len() ==> (#[trigger] sorted@[k]).wf(),
            normalized.wf(),
            normal_list(*fix, definition@, list, i as nat, depth) == Ok::<Seq<Node>, ErrorView>(
                normalized.nodes(),
            ),
        decreases sorted@.len() - i,
    {
        proof {
            assert(list[i as int] == sorted@[i as int].node());
            assert(sorted@[i as int].wf());
            sorted@[i as int].lemma_node();
            assert(node_depth(list[i as int]) <= depth);
        }
        match &sorted[i] {
            Element::Group(tag, entries) => {
                let group = match fix.group_for_tag(definition, *tag) {
                    Some(g) => g,
                    None => {
                        let mut text = "Group definition not found for NumInGroup tag ".to_owned();
                        push_decimal(&mut text, *tag as u64);
                        proof {
                            lemma_normal_list_err(
                                *fix,
                                definition@,
                                list,
                                i as nat + 1,
                                list.len(),
                                depth,
                            );
                        }
                        return Err(Error::invalid_message(text.as_str()));
                    },
                };
                let ghost nodes = blocks_nodes(entries@);
                proof {
                    lemma_entries_within(nodes, nodes.len());
                    assert(depth > 0);
                    assert forall|k: int| 0 <= k < nodes.len() implies within(
                        #[trigger] nodes[k],
                        (depth - 1) as nat,
                    ) by {
                        assert(within(nodes[k], entries_depth(nodes, nodes.len())));
                    }
                }
                match normalize_entries(fix, entries, &group.elements, Ghost((depth - 1) as nat)) {
                    Ok(done) => {
                        normalized.push(Element::group(*tag, done));
                    },
                    Err(e) => {
                        proof {
                            lemma_normal_list_err(
                                *fix,
                                definition@,
                                list,
                                i as nat + 1,
                                list.len(),
                                depth,
                            );
                        }
                        return Err(e);
                    },
                }
            },
            other => {
                let copy = other.duplicate();
                normalized.push(copy);
            },
        }
        i += 1;
    }
    Ok(normalized)
}

/// The first error decides.
proof fn lemma_normal_list_err(
    fix: FixVersion,
    definition: Seq<MessageElement>,
    list: Seq<Node>,
    m: nat,
    n: nat,
    depth: nat,
)
    requires
        m <= n,
        normal_list(fix, definition, list, m, depth) is Err,
    ensures
        normal_list(fix, definition, list, n, depth) == normal_list(
            fix,
            definition,
            list,
            m,
            depth,
        ),
    decreases n,
{
    if m < n {
        lemma_normal_list_err(fix, definition, list, m, (n - 1) as nat, depth);
    }
}

proof fn lemma_normal_entries_err(
    fix: FixVersion,
    definition: Seq<MessageElement>,
    entries: Seq<Seq<Node>>,
    m: nat,
    n: nat,
    depth: nat,
)
    requires
        m <= n,
        normal_entries(fix, definition, entries, m, depth) is Err,
    ensures
        normal_entries(fix, definition, entries, n, depth) == normal_entries(
            fix,
            definition,
            entries,
            m,
            depth,
        ),
    decreases n,
{
    if m < n {
        lemma_normal_entries_err(fix, definition, entries, m, (n - 1) as nat, depth);
    }
}

fn normalize_entries(
    fix: &FixVersion,
    entries: &Vec<Block>,
    definition: &Vec<MessageElement>,
    Ghost(depth): Ghost<nat>,
) -> (r: Result<Vec<Block>>)
    requires
        blocks_wf(entries@),
        forall|k: int|
            0 <= k < blocks_nodes(entries@).len() ==> within(
                #[trigger] blocks_nodes(entries@)[k],
                depth,
            ),
    ensures
        match normal_entries(
            *fix,
            definition@,
            blocks_nodes(entries@),
            blocks_nodes(entries@).len(),
            depth,
        ) {
            Ok(nodes) => r matches Ok(done) && blocks_wf(done@) && blocks_nodes(done@) == nodes,
            Err(e) => r matches Err(err) && err@ == e,
        },
    decreases depth, 2nat,
{
    let ghost nodes = blocks_nodes(entries@);
    let mut done: Vec<Block> = Vec::new();
    let mut i: usize = 0;
    assert(blocks_nodes(done@) =~= seq![]);
    while i < entries.len()
        invariant
            i <= entries@.len(),
            nodes == blocks_nodes(entries@),
            blocks_wf(entries@),
            blocks_wf(done@),
            forall|k: int| 0 <= k < nodes.len() ==> within(#[trigger] nodes[k], depth),
            normal_entries(*fix, definition@, nodes, i as nat, depth) == Ok::<
                Seq<Seq<Node>>,
                ErrorView,
            >(blocks_nodes(done@)),
        decreases entries@.len() - i,
    {
        assert(within(nodes[i as int], depth));
        assert(entries@[i as int].wf());
        match normalize_block_with_definition(fix, &entries[i], definition, Ghost(depth)) {
            Ok(block) => {
                let ghost before = done@;
                let ghost b = block.nodes();
                done.push(block);
                assert(blocks_nodes(done@) =~= blocks_nodes(before).push(b));
            },
            Err(e) => {
                proof {
                    lemma_normal_entries_err(
                        *fix,
                        definition@,
                        nodes,
                        i as nat + 1,
                        nodes.len(),
                        depth,
                    );
                }
                return Err(e);
            },
        }
        i += 1;
    }
    Ok(done)
}

impl Message {
    /// Normalizes the message according to FIX Orchestra field ordering
    ///
    /// Returns a new message where:
    /// - Header fields are ordered according to StandardHeader component
    ///   definition
    /// - Body fields are ordered according to the message definition from FIX
    ///   Orchestra
    /// - Repeating groups are placed at NumInGroup tag positions with members
    ///   in definition order
    /// - Unknown tags are sorted by tag number after known fields within their
    ///   block: each comes behind the last known field with a smaller tag
    /// - All original tag values and data are preserved
    ///
    /// This enables reliable message diffing by ensuring consistent ordering
    /// regardless of the original message's tag sequence.
    pub fn normalize(&self) -> (r: Result<Message>)
        requires
            self.wf(),
        ensures
            match self@.normalized() {
                Ok(v) => r matches Ok(m) && m.wf() && m@ == v,
                Err(e) => r matches Err(err) && err@ == e,
            },
    {
        let fix = &self.fix_version;
        let std_header = match fix.get_component_by_name("StandardHeader") {
            Some(c) => c,
            None => {
                return Err(missing_header_error(fix));
            },
        };
        proof {
            lemma_within(self@.header, self@.header.len());
            lemma_within(self@.body, self@.body.len());
        }
        let ghost header_depth = nodes_depth(self@.header, self@.header.len());
        let ghost body_depth = nodes_depth(self@.body, self@.body.len());
        let header = match normalize_block_with_definition(
            fix,
            &self.header,
            &std_header.elements,
            Ghost(header_depth),
        ) {
            Ok(b) => b,
            Err(e) => {
                return Err(e);
            },
        };
        let body = match normalize_block_with_definition(
            fix,
            &self.body,
            &self.fix_message.elements,
            Ghost(body_depth),
        ) {
            Ok(b) => b,
            Err(e) => {
                return Err(e);
            },
        };
        Ok(
            Message {
                fix_message: self.fix_message.clone(),
                fix_version: self.fix_version.clone(),
                header,
                body,
            },
        )
    }
}

} // verus!
