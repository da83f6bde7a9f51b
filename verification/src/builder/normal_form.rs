//! What the normal form of a message promises.

use vstd::prelude::*;

use crate::builder::block::{set_nodes, Node};
use crate::builder::message::BuilderView;
use crate::builder::normalize::{
    arranged, distinct, entries_depth, in_order, law_normal_form_is_stable, law_sorted,
    lemma_arranged, lemma_entries_within, lemma_keys_differ, lemma_nodes_depth, lemma_place,
    lemma_set_fixed, lemma_within, node_depth, nodes_depth, normal_block, normal_entries, normal_list,
    normal_nodes, place, sort_key, sort_nodes, within,
};
use crate::error::ErrorView;
use crate::repository::{FixVersion, MessageElement};

verus! {

// ---------------------------------------------------------------------------
// The same fields in another order
// ---------------------------------------------------------------------------

/// Every position goes to a position of its own.
pub open spec fn permutation(p: Seq<int>) -> bool {
    &&& forall|i: int| 0 <= i < p.len() ==> 0 <= #[trigger] p[i] < p.len()
    &&& forall|i: int, j: int| 0 <= i < j < p.len() ==> #[trigger] p[i] != #[trigger] p[j]
}

/// Two elements say the same: the same tag and value, or the same group with as
/// many entries in the same order, each with the same fields in some order.
/// `depth` is how deep the groups nest at most.
pub open spec fn same_element(a: Node, b: Node, depth: nat) -> bool
    decreases depth, 0nat,
{
    match (a, b) {
        (Node::Group(s, x), Node::Group(t, y)) => {
            &&& s == t
            &&& x.len() == y.len()
            &&& depth > 0
            &&& forall|i: int|
                0 <= i < x.len() ==> same_fields(#[trigger] x[i], y[i], (depth - 1) as nat)
        },
        _ => a == b,
    }
}

/// What is set in the one block is set in the other, in some order.
pub open spec fn same_fields(a: Seq<Node>, b: Seq<Node>, depth: nat) -> bool
    decreases depth, 1nat,
{
    let x = set_nodes(a, a.len());
    let y = set_nodes(b, b.len());
    exists|p: Seq<int>|
        {
            &&& #[trigger] permutation(p)
            &&& x.len() == p.len()
            &&& y.len() == p.len()
            &&& forall|i: int|
                0 <= i < x.len() ==> same_element(x[i], y[#[trigger] p[i]], depth)
        }
}

/// Two blocks hold the same fields: the same tags with the same values, and the
/// same groups with as many entries in the same order, whatever the order of
/// the fields in the block and in each of the entries.
pub open spec fn rearranged(a: Seq<Node>, b: Seq<Node>) -> bool {
    same_fields(a, b, nodes_depth(a, a.len()))
}

/// No tag is set twice in the block, nor in any entry of a group of it.
pub open spec fn distinct_throughout(nodes: Seq<Node>) -> bool
    decreases nodes,
{
    &&& distinct(set_nodes(nodes, nodes.len()))
    &&& forall|i: int| 0 <= i < nodes.len() ==> distinct_inside(#[trigger] nodes[i])
}

pub open spec fn distinct_inside(node: Node) -> bool
    decreases node,
{
    match node {
        Node::Group(_, entries) => forall|i: int|
            0 <= i < entries.len() ==> distinct_throughout(#[trigger] entries[i]),
        _ => true,
    }
}

// ---------------------------------------------------------------------------
// Depth
// ---------------------------------------------------------------------------

proof fn lemma_same_element_deeper(a: Node, b: Node, depth: nat, more: nat)
    requires
        same_element(a, b, depth),
        depth <= more,
    ensures
        same_element(a, b, more),
    decreases depth, 0nat,
{
    if let (Node::Group(_, x), Node::Group(_, y)) = (a, b) {
        assert forall|i: int| 0 <= i < x.len() implies same_fields(
            #[trigger] x[i],
            y[i],
            (more - 1) as nat,
        ) by {
            lemma_same_fields_deeper(x[i], y[i], (depth - 1) as nat, (more - 1) as nat);
        }
    }
}

proof fn lemma_same_fields_deeper(a: Seq<Node>, b: Seq<Node>, depth: nat, more: nat)
    requires
        same_fields(a, b, depth),
        depth <= more,
    ensures
        same_fields(a, b, more),
    decreases depth, 2nat,
{
    let x = set_nodes(a, a.len());
    let y = set_nodes(b, b.len());
    let p = choose|p: Seq<int>|
        {
            &&& #[trigger] permutation(p)
            &&& x.len() == p.len()
            &&& y.len() == p.len()
            &&& forall|i: int|
                0 <= i < x.len() ==> same_element(x[i], y[#[trigger] p[i]], depth)
        };
    assert forall|i: int| 0 <= i < x.len() implies same_element(
        x[i],
        y[#[trigger] p[i]],
        more,
    ) by {
        lemma_same_element_deeper(x[i], y[p[i]], depth, more);
    }
    assert(permutation(p));
}

/// The normal form does not depend on how deep one allows groups to nest.
proof fn lemma_normal_deeper(
    fix: FixVersion,
    definition: Seq<MessageElement>,
    nodes: Seq<Node>,
    depth: nat,
    more: nat,
)
    requires
        within(nodes, depth),
        depth <= more,
    ensures
        normal_nodes(fix, definition, nodes, depth) == normal_nodes(fix, definition, nodes, more),
    decreases depth, 2nat, 0nat,
{
    let list = arranged(nodes, fix.canonical(definition));
    lemma_arranged(nodes, fix.canonical(definition), depth);
    lemma_normal_list_deeper(fix, definition, list, list.len(), depth, more);
}

proof fn lemma_normal_list_deeper(
    fix: FixVersion,
    definition: Seq<MessageElement>,
    list: Seq<Node>,
    n: nat,
    depth: nat,
    more: nat,
)
    requires
        n <= list.len(),
        within(list, depth),
        depth <= more,
    ensures
        normal_list(fix, definition, list, n, depth) == normal_list(
            fix,
            definition,
            list,
            n,
            more,
        ),
    decreases depth, 1nat, n,
{
    if n > 0 {
        lemma_normal_list_deeper(fix, definition, list, (n - 1) as nat, depth, more);
        assert(node_depth(list[n - 1]) <= depth);
        if let Node::Group(tag, entries) = list[n - 1] {
            assert(depth > 0);
            if let Some(group) = fix.group_for(definition, tag) {
                lemma_entries_within(entries, entries.len());
                lemma_normal_entries_deeper(
                    fix,
                    group.elements@,
                    entries,
                    entries.len(),
                    (depth - 1) as nat,
                    (more - 1) as nat,
                );
            }
        }
    }
}

proof fn lemma_normal_entries_deeper(
    fix: FixVersion,
    definition: Seq<MessageElement>,
    entries: Seq<Seq<Node>>,
    n: nat,
    depth: nat,
    more: nat,
)
    requires
        n <= entries.len(),
        forall|i: int|
            #![trigger entries[i]]
            0 <= i < entries.len() ==> within(
                entries[i],
                entries_depth(entries, entries.len()),
            ),
        entries_depth(entries, entries.len()) <= depth,
        depth <= more,
    ensures
        normal_entries(fix, definition, entries, n, depth) == normal_entries(
            fix,
            definition,
            entries,
            n,
            more,
        ),
    decreases depth, 3nat, n,
{
    if n > 0 {
        lemma_normal_entries_deeper(fix, definition, entries, (n - 1) as nat, depth, more);
        assert(within(entries[n - 1], depth));
        lemma_normal_deeper(fix, definition, entries[n - 1], depth, more);
    }
}

// ---------------------------------------------------------------------------
// Sorting as a permutation
// ---------------------------------------------------------------------------

/// Where sorting puts each of the first `n` elements.
spec fn put_at(nodes: Seq<Node>, order: Seq<u32>, n: nat) -> Seq<int>
    decreases n,
{
    if n == 0 {
        seq![]
    } else {
        let before = sort_nodes(nodes, order, (n - 1) as nat);
        let at = place(before, order, sort_key(order, nodes[n - 1].key()), before.len());
        let rest = put_at(nodes, order, (n - 1) as nat);
        rest.map_values(
            |k: int|
                if k < at {
                    k
                } else {
                    k + 1
                },
        ).push(at)
    }
}

/// Where each of the first `n` sorted elements came from.
spec fn taken_from(nodes: Seq<Node>, order: Seq<u32>, n: nat) -> Seq<int>
    decreases n,
{
    if n == 0 {
        seq![]
    } else {
        let before = sort_nodes(nodes, order, (n - 1) as nat);
        let at = place(before, order, sort_key(order, nodes[n - 1].key()), before.len());
        taken_from(nodes, order, (n - 1) as nat).insert(at, n - 1)
    }
}

proof fn lemma_put_at(nodes: Seq<Node>, order: Seq<u32>, n: nat)
    requires
        n <= nodes.len(),
    ensures
        put_at(nodes, order, n).len() == n,
        sort_nodes(nodes, order, n).len() == n,
        permutation(put_at(nodes, order, n)),
        forall|i: int|
            0 <= i < n ==> nodes[i] == sort_nodes(nodes, order, n)[#[trigger] put_at(
                nodes,
                order,
                n,
            )[i]],
    decreases n,
{
    if n > 0 {
        let k = (n - 1) as nat;
        lemma_put_at(nodes, order, k);
        let before = sort_nodes(nodes, order, k);
        let key = sort_key(order, nodes[n - 1].key());
        let at = place(before, order, key, before.len());
        lemma_place(before, order, key, before.len());
        let rest = put_at(nodes, order, k);
        let p = put_at(nodes, order, n);
        let sorted = sort_nodes(nodes, order, n);
        assert forall|i: int| 0 <= i < n implies 0 <= #[trigger] p[i] < n && nodes[i]
            == sorted[p[i]] by {
            if i < k {
                assert(nodes[i] == before[rest[i]]);
            }
        }
        assert forall|i: int, j: int| 0 <= i < j < n implies #[trigger] p[i]
            != #[trigger] p[j] by {
            if j < k {
                assert(rest[i] != rest[j]);
            }
        }
    }
}

proof fn lemma_taken_from(nodes: Seq<Node>, order: Seq<u32>, n: nat)
    requires
        n <= nodes.len(),
    ensures
        taken_from(nodes, order, n).len() == n,
        sort_nodes(nodes, order, n).len() == n,
        permutation(taken_from(nodes, order, n)),
        forall|i: int|
            0 <= i < n ==> sort_nodes(nodes, order, n)[i] == nodes[#[trigger] taken_from(
                nodes,
                order,
                n,
            )[i]],
    decreases n,
{
    if n > 0 {
        let k = (n - 1) as nat;
        lemma_taken_from(nodes, order, k);
        let before = sort_nodes(nodes, order, k);
        let key = sort_key(order, nodes[n - 1].key());
        let at = place(before, order, key, before.len());
        lemma_place(before, order, key, before.len());
        let rest = taken_from(nodes, order, k);
        let p = taken_from(nodes, order, n);
        let sorted = sort_nodes(nodes, order, n);
        assert forall|i: int| 0 <= i < n implies 0 <= #[trigger] p[i] < n && sorted[i]
            == nodes[p[i]] by {
            if i < at {
                assert(p[i] == rest[i]);
            } else if i > at {
                assert(p[i] == rest[i - 1]);
                assert(sorted[i] == before[i - 1]);
            }
        }
        assert forall|i: int, j: int| 0 <= i < j < n implies #[trigger] p[i]
            != #[trigger] p[j] by {
            let a = if i < at {
                i
            } else {
                i - 1
            };
            let b = if j < at {
                j
            } else {
                j - 1
            };
            if i == at {
                assert(p[j] == rest[b]);
            } else if j == at {
                assert(p[i] == rest[a]);
            } else {
                assert(p[i] == rest[a] && p[j] == rest[b]);
            }
        }
    }
}

/// A permutation that keeps the order of things moves nothing.
proof fn lemma_monotone(p: Seq<int>, i: int)
    requires
        permutation(p),
        forall|i: int, j: int| 0 <= i < j < p.len() ==> #[trigger] p[i] < #[trigger] p[j],
        0 <= i < p.len(),
    ensures
        p[i] == i,
{
    lemma_not_before(p, i);
    lemma_not_behind(p, i);
}

proof fn lemma_not_before(p: Seq<int>, i: int)
    requires
        permutation(p),
        forall|i: int, j: int| 0 <= i < j < p.len() ==> #[trigger] p[i] < #[trigger] p[j],
        0 <= i < p.len(),
    ensures
        p[i] >= i,
    decreases i,
{
    if i > 0 {
        lemma_not_before(p, i - 1);
        assert(p[i - 1] < p[i]);
    }
}

proof fn lemma_not_behind(p: Seq<int>, i: int)
    requires
        permutation(p),
        forall|i: int, j: int| 0 <= i < j < p.len() ==> #[trigger] p[i] < #[trigger] p[j],
        0 <= i < p.len(),
    ensures
        p[i] <= i,
    decreases p.len() - i,
{
    if i < p.len() - 1 {
        lemma_not_behind(p, i + 1);
        assert(p[i] < p[i + 1]);
    }
}

// ---------------------------------------------------------------------------
// The fields of the normal form are those of the message
// ---------------------------------------------------------------------------

/// A block in its normal form holds the same fields.
proof fn lemma_normal_rearranges(
    fix: FixVersion,
    definition: Seq<MessageElement>,
    nodes: Seq<Node>,
    depth: nat,
)
    requires
        within(nodes, depth),
        normal_nodes(fix, definition, nodes, depth) is Ok,
    ensures
        same_fields(nodes, normal_nodes(fix, definition, nodes, depth)->Ok_0, depth),
    decreases depth, 2nat, 0nat,
{
    let order = fix.canonical(definition);
    let set = set_nodes(nodes, nodes.len());
    let list = arranged(nodes, order);
    let done = normal_nodes(fix, definition, nodes, depth)->Ok_0;
    lemma_arranged(nodes, order, depth);
    lemma_put_at(set, order, set.len());
    let p = put_at(set, order, set.len());
    lemma_list_same(fix, definition, list, list.len(), depth);
    assert forall|i: int| 0 <= i < done.len() implies (#[trigger] done[i]).is_set() by {
        assert(same_element(list[i], done[i], depth));
        assert(list[i].is_set());
    }
    lemma_set_fixed(done, done.len());
    assert(done.take(done.len() as int) =~= done);
    assert forall|i: int| 0 <= i < set.len() implies same_element(
        set[i],
        done[#[trigger] p[i]],
        depth,
    ) by {
        assert(same_element(list[p[i]], done[p[i]], depth));
    }
    assert(permutation(p));
}

proof fn lemma_list_same(
    fix: FixVersion,
    definition: Seq<MessageElement>,
    list: Seq<Node>,
    n: nat,
    depth: nat,
)
    requires
        n <= list.len(),
        within(list, depth),
        normal_list(fix, definition, list, n, depth) is Ok,
    ensures
        ({
            let done = normal_list(fix, definition, list, n, depth)->Ok_0;
            &&& done.len() == n
            &&& forall|i: int|
                0 <= i < n ==> same_element(list[i], #[trigger] done[i], depth)
        }),
    decreases depth, 1nat, n,
{
    if n > 0 {
        lemma_list_same(fix, definition, list, (n - 1) as nat, depth);
        assert(node_depth(list[n - 1]) <= depth);
        if let Node::Group(tag, entries) = list[n - 1] {
            assert(depth > 0);
            let elements = fix.group_for(definition, tag)->0.elements@;
            lemma_entries_within(entries, entries.len());
            assert forall|i: int| 0 <= i < entries.len() implies within(
                #[trigger] entries[i],
                (depth - 1) as nat,
            ) by {}
            lemma_entries_same(fix, elements, entries, entries.len(), (depth - 1) as nat);
        }
    }
}

proof fn lemma_entries_same(
    fix: FixVersion,
    definition: Seq<MessageElement>,
    entries: Seq<Seq<Node>>,
    n: nat,
    depth: nat,
)
    requires
        n <= entries.len(),
        forall|i: int| 0 <= i < entries.len() ==> within(#[trigger] entries[i], depth),
        normal_entries(fix, definition, entries, n, depth) is Ok,
    ensures
        ({
            let done = normal_entries(fix, definition, entries, n, depth)->Ok_0;
            &&& done.len() == n
            &&& forall|i: int|
                0 <= i < n ==> same_fields(#[trigger] entries[i], done[i], depth)
        }),
    decreases depth, 3nat, n,
{
    if n > 0 {
        lemma_entries_same(fix, definition, entries, (n - 1) as nat, depth);
        assert(within(entries[n - 1], depth));
        lemma_normal_rearranges(fix, definition, entries[n - 1], depth);
    }
}

/// What normalizing a block makes of it: the same fields, and normalizing once
/// more changes nothing.
proof fn lemma_normal_block(fix: FixVersion, definition: Seq<MessageElement>, nodes: Seq<Node>)
    requires
        normal_block(fix, definition, nodes) is Ok,
    ensures
        ({
            let done = normal_block(fix, definition, nodes)->Ok_0;
            &&& rearranged(nodes, done)
            &&& normal_block(fix, definition, done) == Ok::<Seq<Node>, ErrorView>(done)
        }),
{
    let depth = nodes_depth(nodes, nodes.len());
    let done = normal_block(fix, definition, nodes)->Ok_0;
    lemma_within(nodes, nodes.len());
    lemma_normal_rearranges(fix, definition, nodes, depth);
    law_normal_form_is_stable(fix, definition, nodes, depth);
    lemma_nodes_depth(done, done.len(), depth);
    lemma_within(done, done.len());
    lemma_normal_deeper(fix, definition, done, nodes_depth(done, done.len()), depth);
}

/// Normalizing a message keeps its definition and its fields: every tag has the
/// value it had, and every group as many entries, in the same order, as before;
/// only the order inside the blocks and inside the entries changes. Normalizing
/// once more changes nothing at all, so that the flat form stays the same too.
pub proof fn law_normalizing_twice(m: BuilderView)
    requires
        m.normalized() is Ok,
    ensures
        ({
            let n = m.normalized()->Ok_0;
            &&& n.fix_version == m.fix_version
            &&& n.fix_message == m.fix_message
            &&& rearranged(m.header, n.header)
            &&& rearranged(m.body, n.body)
            &&& n.normalized() == Ok::<BuilderView, ErrorView>(n)
        }),
{
    let std_header = m.fix_version.component_named("StandardHeader"@)->0;
    lemma_normal_block(m.fix_version, std_header.elements@, m.header);
    lemma_normal_block(m.fix_version, m.fix_message.elements@, m.body);
}

// ---------------------------------------------------------------------------
// The order that a message came in does not show in its normal form
// ---------------------------------------------------------------------------

proof fn lemma_same_key(a: Node, b: Node, depth: nat)
    requires
        same_element(a, b, depth),
    ensures
        a.key() == b.key(),
        a.is_set() == b.is_set(),
{
}

proof fn lemma_set_inside(nodes: Seq<Node>, n: nat)
    requires
        n <= nodes.len(),
        forall|i: int| 0 <= i < nodes.len() ==> distinct_inside(#[trigger] nodes[i]),
    ensures
        forall|i: int|
            0 <= i < set_nodes(nodes, n).len() ==> distinct_inside(
                #[trigger] set_nodes(nodes, n)[i],
            ),
    decreases n,
{
    if n > 0 {
        lemma_set_inside(nodes, (n - 1) as nat);
        let before = set_nodes(nodes, (n - 1) as nat);
        let done = set_nodes(nodes, n);
        assert(distinct_inside(nodes[n - 1]));
        assert forall|i: int| 0 <= i < done.len() implies distinct_inside(#[trigger] done[i]) by {
            if i < before.len() {
                assert(done[i] == before[i]);
            } else {
                assert(done[i] == nodes[n - 1]);
            }
        }
    }
}

/// The same fields, sorted, stand at the same places.
proof fn lemma_arranged_alike(a: Seq<Node>, b: Seq<Node>, order: Seq<u32>, depth: nat)
    requires
        same_fields(a, b, depth),
        distinct_throughout(a),
    ensures
        arranged(a, order).len() == arranged(b, order).len(),
        forall|i: int|
            #![trigger arranged(a, order)[i]]
            0 <= i < arranged(a, order).len() ==> same_element(
                arranged(a, order)[i],
                arranged(b, order)[i],
                depth,
            ) && distinct_inside(arranged(a, order)[i]),
{
    let x = set_nodes(a, a.len());
    let y = set_nodes(b, b.len());
    let p = choose|p: Seq<int>|
        {
            &&& #[trigger] permutation(p)
            &&& x.len() == p.len()
            &&& y.len() == p.len()
            &&& forall|i: int|
                0 <= i < x.len() ==> same_element(x[i], y[#[trigger] p[i]], depth)
        };
    let s = arranged(a, order);
    let t = arranged(b, order);
    let d = taken_from(x, order, x.len());
    let u = put_at(y, order, y.len());
    law_sorted(x, order, x.len());
    law_sorted(y, order, y.len());
    lemma_taken_from(x, order, x.len());
    lemma_put_at(y, order, y.len());
    lemma_set_inside(a, a.len());
    let q = Seq::new(x.len(), |i: int| u[p[d[i]]]);
    assert forall|i: int| 0 <= i < q.len() implies 0 <= #[trigger] q[i] < q.len()
        && same_element(s[i], t[q[i]], depth) && s[i].key() == t[q[i]].key() && s[i] == x[d[i]] by {
        assert(0 <= d[i] < x.len());
        assert(0 <= p[d[i]] < x.len());
        assert(0 <= u[p[d[i]]] < x.len());
        assert(y[p[d[i]]] == t[u[p[d[i]]]]);
        assert(same_element(x[d[i]], y[p[d[i]]], depth));
        lemma_same_key(s[i], t[q[i]], depth);
    }
    assert forall|i: int, j: int| 0 <= i < j < q.len() implies #[trigger] q[i]
        < #[trigger] q[j] by {
        assert(d[i] != d[j]);
        assert(x[d[i]].key() != x[d[j]].key());
        assert(s[i].key() != s[j].key());
        assert(sort_key(order, s[i].key()) <= sort_key(order, s[j].key()));
        lemma_keys_differ(order, s[i].key(), s[j].key());
        if q[i] >= q[j] {
            if q[i] > q[j] {
                assert(sort_key(order, t[q[j]].key()) <= sort_key(order, t[q[i]].key()));
            }
        }
    }
    assert(permutation(q));
    assert forall|i: int|
        #![trigger s[i]]
        0 <= i < s.len() implies same_element(s[i], t[i], depth) && distinct_inside(s[i]) by {
        lemma_monotone(q, i);
        assert(q[i] == i);
    }
}

/// The same fields have the same normal form.
proof fn lemma_normal_alike(
    fix: FixVersion,
    definition: Seq<MessageElement>,
    a: Seq<Node>,
    b: Seq<Node>,
    depth: nat,
)
    requires
        same_fields(a, b, depth),
        distinct_throughout(a),
    ensures
        normal_nodes(fix, definition, a, depth) == normal_nodes(fix, definition, b, depth),
    decreases depth, 2nat, 0nat,
{
    let order = fix.canonical(definition);
    lemma_arranged_alike(a, b, order, depth);
    let s = arranged(a, order);
    lemma_list_alike(fix, definition, s, arranged(b, order), s.len(), depth);
}

proof fn lemma_list_alike(
    fix: FixVersion,
    definition: Seq<MessageElement>,
    a: Seq<Node>,
    b: Seq<Node>,
    n: nat,
    depth: nat,
)
    requires
        n <= a.len(),
        a.len() == b.len(),
        forall|i: int|
            #![trigger a[i]]
            0 <= i < a.len() ==> same_element(a[i], b[i], depth) && distinct_inside(a[i]),
    ensures
        normal_list(fix, definition, a, n, depth) == normal_list(fix, definition, b, n, depth),
    decreases depth, 1nat, n,
{
    if n > 0 {
        lemma_list_alike(fix, definition, a, b, (n - 1) as nat, depth);
        assert(same_element(a[n - 1], b[n - 1], depth) && distinct_inside(a[n - 1]));
        if let (Node::Group(tag, x), Node::Group(_, y)) = (a[n - 1], b[n - 1]) {
            if let Some(group) = fix.group_for(definition, tag) {
                lemma_entries_alike(
                    fix,
                    group.elements@,
                    x,
                    y,
                    x.len(),
                    (depth - 1) as nat,
                );
            }
        }
    }
}

proof fn lemma_entries_alike(
    fix: FixVersion,
    definition: Seq<MessageElement>,
    a: Seq<Seq<Node>>,
    b: Seq<Seq<Node>>,
    n: nat,
    depth: nat,
)
    requires
        n <= a.len(),
        a.len() == b.len(),
        forall|i: int|
            0 <= i < a.len() ==> same_fields(#[trigger] a[i], b[i], depth),
        forall|i: int| 0 <= i < a.len() ==> distinct_throughout(#[trigger] a[i]),
    ensures
        normal_entries(fix, definition, a, n, depth) == normal_entries(
            fix,
            definition,
            b,
            n,
            depth,
        ),
    decreases depth, 3nat, n,
{
    if n > 0 {
        lemma_entries_alike(fix, definition, a, b, (n - 1) as nat, depth);
        assert(same_fields(a[n - 1], b[n - 1], depth));
        lemma_normal_alike(fix, definition, a[n - 1], b[n - 1], depth);
    }
}

proof fn lemma_block_alike(
    fix: FixVersion,
    definition: Seq<MessageElement>,
    a: Seq<Node>,
    b: Seq<Node>,
)
    requires
        rearranged(a, b),
        distinct_throughout(a),
    ensures
        normal_block(fix, definition, a) == normal_block(fix, definition, b),
{
    let s = nodes_depth(a, a.len());
    let t = nodes_depth(b, b.len());
    let depth = if s > t {
        s
    } else {
        t
    };
    lemma_within(a, a.len());
    lemma_within(b, b.len());
    lemma_normal_deeper(fix, definition, a, s, depth);
    lemma_normal_deeper(fix, definition, b, t, depth);
    lemma_same_fields_deeper(a, b, s, depth);
    lemma_normal_alike(fix, definition, a, b, depth);
}

/// Two messages of one definition that hold the same fields, in whatever order
/// in the header, in the body and in the entries of their groups, have the same
/// normal form, as long as no tag occurs twice in one place. So the flat forms
/// of their normal forms are the same as well, and with them what goes out.
pub proof fn law_order_does_not_show(a: BuilderView, b: BuilderView)
    requires
        a.fix_version == b.fix_version,
        a.fix_message == b.fix_message,
        rearranged(a.header, b.header),
        rearranged(a.body, b.body),
        distinct_throughout(a.header),
        distinct_throughout(a.body),
    ensures
        a.normalized() == b.normalized(),
        a.normalized() matches Ok(x) ==> (b.normalized() matches Ok(y) && x.flattened(true)
            == y.flattened(true) && x.flattened(false) == y.flattened(false)),
{
    if let Some(std_header) = a.fix_version.component_named("StandardHeader"@) {
        lemma_block_alike(a.fix_version, std_header.elements@, a.header, b.header);
    }
    lemma_block_alike(a.fix_version, a.fix_message.elements@, a.body, b.body);
}

// ---------------------------------------------------------------------------
// The order of the normal form
// ---------------------------------------------------------------------------

/// The block is in the order of its definition, everything in it carries
/// something, and the entries of its groups are so by the definitions of the
/// groups.
pub open spec fn orderly(
    fix: FixVersion,
    definition: Seq<MessageElement>,
    nodes: Seq<Node>,
) -> bool
    decreases nodes,
{
    &&& in_order(nodes, fix.canonical(definition))
    &&& forall|i: int| 0 <= i < nodes.len() ==> orderly_inside(fix, definition, #[trigger] nodes[i])
}

pub open spec fn orderly_inside(
    fix: FixVersion,
    definition: Seq<MessageElement>,
    node: Node,
) -> bool
    decreases node,
{
    &&& node.is_set()
    &&& match node {
        Node::Group(tag, entries) => {
            &&& fix.group_for(definition, tag) is Some
            &&& forall|i: int|
                0 <= i < entries.len() ==> orderly(
                    fix,
                    (fix.group_for(definition, tag)->0).elements@,
                    #[trigger] entries[i],
                )
        },
        _ => true,
    }
}

proof fn lemma_orderly(
    fix: FixVersion,
    definition: Seq<MessageElement>,
    nodes: Seq<Node>,
    depth: nat,
)
    requires
        within(nodes, depth),
        normal_nodes(fix, definition, nodes, depth) is Ok,
    ensures
        orderly(fix, definition, normal_nodes(fix, definition, nodes, depth)->Ok_0),
    decreases depth, 2nat, 0nat,
{
    let order = fix.canonical(definition);
    let list = arranged(nodes, order);
    let done = normal_nodes(fix, definition, nodes, depth)->Ok_0;
    lemma_arranged(nodes, order, depth);
    law_normal_form_is_stable(fix, definition, nodes, depth);
    lemma_orderly_list(fix, definition, list, list.len(), depth);
    assert forall|i: int| 0 <= i < done.len() implies orderly_inside(
        fix,
        definition,
        #[trigger] done[i],
    ) by {
        assert(list[i].is_set());
    }
}

proof fn lemma_orderly_list(
    fix: FixVersion,
    definition: Seq<MessageElement>,
    list: Seq<Node>,
    n: nat,
    depth: nat,
)
    requires
        n <= list.len(),
        within(list, depth),
        normal_list(fix, definition, list, n, depth) is Ok,
    ensures
        ({
            let done = normal_list(fix, definition, list, n, depth)->Ok_0;
            &&& done.len() == n
            &&& forall|i: int|
                #![trigger done[i]]
                0 <= i < n && list[i].is_set() ==> orderly_inside(fix, definition, done[i])
        }),
    decreases depth, 1nat, n,
{
    if n > 0 {
        lemma_orderly_list(fix, definition, list, (n - 1) as nat, depth);
        assert(node_depth(list[n - 1]) <= depth);
        if let Node::Group(tag, entries) = list[n - 1] {
            assert(depth > 0);
            let elements = (fix.group_for(definition, tag)->0).elements@;
            lemma_entries_within(entries, entries.len());
            assert forall|i: int| 0 <= i < entries.len() implies within(
                #[trigger] entries[i],
                (depth - 1) as nat,
            ) by {}
            lemma_orderly_entries(fix, elements, entries, entries.len(), (depth - 1) as nat);
        }
    }
}

proof fn lemma_orderly_entries(
    fix: FixVersion,
    definition: Seq<MessageElement>,
    entries: Seq<Seq<Node>>,
    n: nat,
    depth: nat,
)
    requires
        n <= entries.len(),
        forall|i: int| 0 <= i < entries.len() ==> within(#[trigger] entries[i], depth),
        normal_entries(fix, definition, entries, n, depth) is Ok,
    ensures
        ({
            let done = normal_entries(fix, definition, entries, n, depth)->Ok_0;
            &&& done.len() == n
            &&& forall|i: int| 0 <= i < n ==> orderly(fix, definition, #[trigger] done[i])
        }),
    decreases depth, 3nat, n,
{
    if n > 0 {
        lemma_orderly_entries(fix, definition, entries, (n - 1) as nat, depth);
        assert(within(entries[n - 1], depth));
        lemma_orderly(fix, definition, entries[n - 1], depth);
    }
}

/// The normal form of a message is in the order of its definitions throughout:
/// the header by that of the standard header, the body by that of the message, and
/// the entries of each group by that of the group. Fields that carry nothing are
/// not in it.
pub proof fn law_the_normal_form_is_in_order(m: BuilderView)
    requires
        m.normalized() is Ok,
    ensures
        m.fix_version.component_named("StandardHeader"@) matches Some(header) && orderly(
            m.fix_version,
            header.elements@,
            (m.normalized()->Ok_0).header,
        ),
        orderly(m.fix_version, m.fix_message.elements@, (m.normalized()->Ok_0).body),
{
    let header = m.fix_version.component_named("StandardHeader"@)->0;
    lemma_within(m.header, m.header.len());
    lemma_within(m.body, m.body.len());
    lemma_orderly(
        m.fix_version,
        header.elements@,
        m.header,
        nodes_depth(m.header, m.header.len()),
    );
    lemma_orderly(
        m.fix_version,
        m.fix_message.elements@,
        m.body,
        nodes_depth(m.body, m.body.len()),
    );
}

/// A message without groups can always be normalized, where its version defines
/// the standard header; one with a group that its definition does not have cannot.
pub proof fn law_what_can_be_normalized(m: BuilderView, i: int)
    ensures
        m.fix_version.component_named("StandardHeader"@) is None ==> (
        m.normalized() matches Err(ErrorView::InvalidMessage(_))),
        m.fix_version.component_named("StandardHeader"@) is Some && (forall|k: int|
            0 <= k < m.header.len() ==> !((#[trigger] m.header[k]) is Group)) && (forall|k: int|
            0 <= k < m.body.len() ==> !((#[trigger] m.body[k]) is Group)) ==> m.normalized() is Ok,
        0 <= i < m.body.len() && m.body[i].is_set() && (m.body[i] matches Node::Group(tag, _)
            && m.fix_version.group_for(m.fix_message.elements@, tag) is None) ==> m.normalized()
            is Err,
{
    if let Some(header) = m.fix_version.component_named("StandardHeader"@) {
        if forall|k: int| 0 <= k < m.header.len() ==> !((#[trigger] m.header[k]) is Group) {
            lemma_plain_is_fine(m.fix_version, header.elements@, m.header);
        }
        if forall|k: int| 0 <= k < m.body.len() ==> !((#[trigger] m.body[k]) is Group) {
            lemma_plain_is_fine(m.fix_version, m.fix_message.elements@, m.body);
        }
    }
    if 0 <= i < m.body.len() && m.body[i].is_set() && m.body[i] is Group && m.normalized() is Ok {
        let n = m.normalized()->Ok_0;
        law_normalizing_twice(m);
        law_the_normal_form_is_in_order(m);
        lemma_stays(m.body, n.body, i);
    }
}

proof fn lemma_plain_is_fine(fix: FixVersion, definition: Seq<MessageElement>, nodes: Seq<Node>)
    requires
        forall|k: int| 0 <= k < nodes.len() ==> !((#[trigger] nodes[k]) is Group),
    ensures
        normal_block(fix, definition, nodes) is Ok,
{
    let order = fix.canonical(definition);
    let set = set_nodes(nodes, nodes.len());
    let list = arranged(nodes, order);
    lemma_set_plain(nodes, nodes.len());
    lemma_taken_from(set, order, set.len());
    assert forall|k: int| 0 <= k < list.len() implies !((#[trigger] list[k]) is Group) by {
        let from = taken_from(set, order, set.len());
        assert(list[k] == set[from[k]]);
    }
    lemma_plain_list(fix, definition, list, list.len(), nodes_depth(nodes, nodes.len()));
}

proof fn lemma_set_plain(nodes: Seq<Node>, n: nat)
    requires
        n <= nodes.len(),
        forall|k: int| 0 <= k < nodes.len() ==> !((#[trigger] nodes[k]) is Group),
    ensures
        forall|k: int|
            0 <= k < set_nodes(nodes, n).len() ==> !((#[trigger] set_nodes(nodes, n)[k]) is Group),
    decreases n,
{
    if n > 0 {
        lemma_set_plain(nodes, (n - 1) as nat);
        let before = set_nodes(nodes, (n - 1) as nat);
        let done = set_nodes(nodes, n);
        assert forall|k: int| 0 <= k < done.len() implies !((#[trigger] done[k]) is Group) by {
            if k < before.len() {
                assert(done[k] == before[k]);
            } else {
                assert(done[k] == nodes[n - 1]);
            }
        }
    }
}

proof fn lemma_plain_list(
    fix: FixVersion,
    definition: Seq<MessageElement>,
    list: Seq<Node>,
    n: nat,
    depth: nat,
)
    requires
        n <= list.len(),
        forall|k: int| 0 <= k < list.len() ==> !((#[trigger] list[k]) is Group),
    ensures
        normal_list(fix, definition, list, n, depth) is Ok,
    decreases n,
{
    if n > 0 {
        lemma_plain_list(fix, definition, list, (n - 1) as nat, depth);
        assert(!(list[n - 1] is Group));
    }
}

/// A group that is set is in the rearranged block as well.
proof fn lemma_stays(a: Seq<Node>, b: Seq<Node>, i: int)
    requires
        rearranged(a, b),
        0 <= i < a.len(),
        a[i].is_set(),
        a[i] is Group,
    ensures
        exists|j: int|
            0 <= j < b.len() && (#[trigger] b[j]) is Group && b[j].key() == a[i].key(),
{
    let depth = nodes_depth(a, a.len());
    let x = set_nodes(a, a.len());
    let y = set_nodes(b, b.len());
    let p = choose|p: Seq<int>|
        {
            &&& #[trigger] permutation(p)
            &&& x.len() == p.len()
            &&& y.len() == p.len()
            &&& forall|k: int|
                0 <= k < x.len() ==> same_element(x[k], y[#[trigger] p[k]], depth)
        };
    let q = lemma_kept_at(a, a.len(), i);
    assert(same_element(x[q], y[p[q]], depth));
    let j = lemma_came_from(b, b.len(), p[q]);
    assert(b[j] is Group && b[j].key() == a[i].key());
}

proof fn lemma_kept_at(nodes: Seq<Node>, n: nat, i: int) -> (q: int)
    requires
        0 <= i < n <= nodes.len(),
        nodes[i].is_set(),
    ensures
        0 <= q < set_nodes(nodes, n).len(),
        set_nodes(nodes, n)[q] == nodes[i],
    decreases n,
{
    let before = set_nodes(nodes, (n - 1) as nat);
    if i == n - 1 {
        before.len() as int
    } else {
        lemma_kept_at(nodes, (n - 1) as nat, i)
    }
}

proof fn lemma_came_from(nodes: Seq<Node>, n: nat, q: int) -> (j: int)
    requires
        n <= nodes.len(),
        0 <= q < set_nodes(nodes, n).len(),
    ensures
        0 <= j < n,
        nodes[j] == set_nodes(nodes, n)[q],
    decreases n,
{
    let before = set_nodes(nodes, (n - 1) as nat);
    if q < before.len() {
        lemma_came_from(nodes, (n - 1) as nat, q)
    } else {
        n - 1
    }
}

/// One element more is sorted in behind those that do not come after it, and in
/// front of those that do: so elements of one tag stay in the order they had.
pub proof fn law_where_an_element_is_sorted(nodes: Seq<Node>, order: Seq<u32>, node: Node) -> (at:
    int)
    ensures
        ({
            let before = sort_nodes(nodes, order, nodes.len());
            let all = nodes.push(node);
            let key = sort_key(order, node.key());
            &&& 0 <= at <= before.len()
            &&& sort_nodes(all, order, all.len()) == before.insert(at, node)
            &&& forall|i: int| 0 <= i < at ==> sort_key(order, (#[trigger] before[i]).key()) <= key
            &&& forall|i: int|
                at <= i < before.len() ==> sort_key(order, (#[trigger] before[i]).key()) > key
        }),
{
    let before = sort_nodes(nodes, order, nodes.len());
    let all = nodes.push(node);
    let key = sort_key(order, node.key());
    lemma_same_sorted(nodes, all, order, nodes.len());
    law_sorted(nodes, order, nodes.len());
    lemma_place(before, order, key, before.len());
    let at = place(before, order, key, before.len());
    assert forall|i: int| 0 <= i < at implies sort_key(order, (#[trigger] before[i]).key())
        <= key by {
        if i < at - 1 {
            assert(sort_key(order, before[i].key()) <= sort_key(order, before[at - 1].key()));
        }
    }
    at
}

proof fn lemma_same_sorted(a: Seq<Node>, b: Seq<Node>, order: Seq<u32>, n: nat)
    requires
        n <= a.len(),
        n <= b.len(),
        forall|i: int| 0 <= i < n ==> a[i] == b[i],
    ensures
        sort_nodes(a, order, n) == sort_nodes(b, order, n),
    decreases n,
{
    if n > 0 {
        lemma_same_sorted(a, b, order, (n - 1) as nat);
    }
}

} // verus!
