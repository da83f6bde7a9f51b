//! Messages for a human to read.

use vstd::prelude::*;
use vstd::string::*;

use crate::builder::block::{blocks_nodes, blocks_wf, Block, Element, Node};
use crate::builder::message::{BuilderView, Message};
use crate::builder::value::{Typed, TypedValue};
use crate::repository::{FixVersion, MessageElement};
use crate::text::{decimal_text, push_decimal};

verus! {

/// Raw data by its size, anything else by its text.
pub open spec fn data_text(v: Typed) -> Seq<char> {
    match v {
        Typed::Data(bytes) => "<"@ + decimal_text(bytes.len()) + " bytes>"@,
        _ => v.text(),
    }
}

/// One element on lines of its own. A group is listed entry by entry.
pub open spec fn node_lines(
    fix: FixVersion,
    definition: Seq<MessageElement>,
    indent: Seq<char>,
    node: Node,
) -> Seq<char>
    decreases node,
{
    match node {
        Node::Tag(tag, v) => indent + decimal_text(tag as nat) + "="@ + v.text() + "\n"@,
        Node::Group(tag, entries) => indent + "Group "@ + decimal_text(tag as nat) + (
        match fix.group_for(definition, tag) {
            Some(g) => " ["@ + g.name@ + "]"@,
            None => ""@,
        }) + "\n"@ + entries_lines(fix, definition, indent, tag, entries, entries.len()),
        Node::RawData(len_tag, tag, v) => indent + " "@ + decimal_text(tag as nat) + "="@
            + data_text(v) + " ["@ + decimal_text(len_tag as nat) + "]\n"@,
    }
}

/// The first `n` entries of a group.
pub open spec fn entries_lines(
    fix: FixVersion,
    definition: Seq<MessageElement>,
    indent: Seq<char>,
    tag: u32,
    entries: Seq<Seq<Node>>,
    n: nat,
) -> Seq<char>
    decreases entries, n,
{
    if n == 0 || n > entries.len() {
        seq![]
    } else {
        entries_lines(fix, definition, indent, tag, entries, (n - 1) as nat) + block_lines(
            fix,
            definition,
            entry_indent(indent, tag, (n - 1) as nat),
            entries[n - 1],
            entries[n - 1].len(),
        )
    }
}

pub open spec fn entry_indent(indent: Seq<char>, tag: u32, i: nat) -> Seq<char> {
    indent + "  "@ + decimal_text(tag as nat) + "["@ + decimal_text(i) + "]."@
}

/// The first `n` elements of a block, as far as they carry something.
pub open spec fn block_lines(
    fix: FixVersion,
    definition: Seq<MessageElement>,
    indent: Seq<char>,
    nodes: Seq<Node>,
    n: nat,
) -> Seq<char>
    decreases nodes, n,
{
    if n == 0 || n > nodes.len() {
        seq![]
    } else {
        let before = block_lines(fix, definition, indent, nodes, (n - 1) as nat);
        if nodes[n - 1].is_set() {
            before + node_lines(fix, definition, indent, nodes[n - 1])
        } else {
            before
        }
    }
}

impl BuilderView {
    /// The message, field by field.
    pub open spec fn described(self) -> Seq<char> {
        let definition = self.fix_message.elements@;
        block_lines(self.fix_version, definition, ""@, self.header, self.header.len())
            + block_lines(self.fix_version, definition, ""@, self.body, self.body.len())
    }
}

fn print_block(
    fix: &FixVersion,
    definition: &Vec<MessageElement>,
    indent: &str,
    block: &Block,
    out: &mut String,
)
    requires
        block.wf(),
    ensures
        final(out)@ == old(out)@ + block_lines(
            *fix,
            definition@,
            indent@,
            block.nodes(),
            block.nodes().len(),
        ),
    decreases block.nodes(), 1nat,
{
    let n: usize = block.len();
    let ghost nodes = block.nodes();
    let mut i: usize = 0;
    assert(out@ =~= old(out)@ + block_lines(*fix, definition@, indent@, nodes, 0));
    while i < n
        invariant
            block.wf(),
            nodes == block.nodes(),
            n == nodes.len(),
            i <= n,
            out@ == old(out)@ + block_lines(*fix, definition@, indent@, nodes, i as nat),
        decreases n - i,
    {
        let element = block.element(i);
        if element.is_set() {
            print_element(fix, definition, indent, element, out);
        }
        i += 1;
        assert(out@ =~= old(out)@ + block_lines(*fix, definition@, indent@, nodes, i as nat));
    }
}

fn print_element(
    fix: &FixVersion,
    definition: &Vec<MessageElement>,
    indent: &str,
    element: &Element,
    out: &mut String,
)
    requires
        element.wf(),
    ensures
        final(out)@ == old(out)@ + node_lines(*fix, definition@, indent@, element.node()),
    decreases element.node(), 0nat,
{
    let ghost before = out@;
    proof {
        element.lemma_node();
    }
    match element {
        Element::Tag((tag, v)) => {
            out.append(indent);
            push_decimal(out, *tag as u64);
            out.append("=");
            out.append(v.as_string().as_str());
            out.append("\n");
            assert(out@ =~= before + node_lines(*fix, definition@, indent@, element.node()));
        },
        Element::RawDataTag(len_tag, tag, v) => {
            out.append(indent);
            out.append(" ");
            push_decimal(out, *tag as u64);
            out.append("=");
            let ghost front = out@;
            match v {
                TypedValue::Data(bytes) => {
                    out.append("<");
                    push_decimal(out, bytes.len() as u64);
                    out.append(" bytes>");
                },
                _ => {
                    out.append(v.as_string().as_str());
                },
            }
            assert(out@ =~= front + data_text(v@));
            out.append(" [");
            push_decimal(out, *len_tag as u64);
            out.append("]\n");
            assert(out@ =~= before + node_lines(*fix, definition@, indent@, element.node()));
        },
        Element::Group(tag, entries) => {
            out.append(indent);
            out.append("Group ");
            push_decimal(out, *tag as u64);
            let ghost front = out@;
            match fix.group_for_tag(definition, *tag) {
                Some(g) => {
                    out.append(" [");
                    out.append(g.name.as_str());
                    out.append("]");
                    assert(out@ =~= front + (" ["@ + g.name@ + "]"@));
                },
                None => {
                    out.append("");
                },
            }
            out.append("\n");
            let ghost start = out@;
            let ghost nodes = blocks_nodes(entries@);
            let mut i: usize = 0;
            assert(out@ =~= start + entries_lines(*fix, definition@, indent@, *tag, nodes, 0));
            while i < entries.len()
                invariant
                    i <= entries@.len(),
                    blocks_wf(entries@),
                    nodes == blocks_nodes(entries@),
                    element.node() == Node::Group(*tag, nodes),
                    out@ == start + entries_lines(
                        *fix,
                        definition@,
                        indent@,
                        *tag,
                        nodes,
                        i as nat,
                    ),
                decreases entries@.len() - i,
            {
                let mut deeper = indent.to_owned();
                deeper.append("  ");
                push_decimal(&mut deeper, *tag as u64);
                deeper.append("[");
                push_decimal(&mut deeper, i as u64);
                deeper.append("].");
                assert(nodes[i as int] == entries@[i as int].nodes());
                assert(element.node()->Group_1 == nodes);
                assert(decreases_to!(element.node() => element.node()->Group_1));
                assert(decreases_to!(nodes => nodes[i as int]));
                print_block(fix, definition, deeper.as_str(), &entries[i], out);
                i += 1;
                assert(out@ =~= start + entries_lines(
                    *fix,
                    definition@,
                    indent@,
                    *tag,
                    nodes,
                    i as nat,
                ));
            }
            assert(out@ =~= before + node_lines(*fix, definition@, indent@, element.node()));
        },
    }
}

impl Message {
    /// The message, field by field, for a human to read.
    pub fn describe(&self) -> (r: String)
        requires
            self.wf(),
        ensures
            r@ == self@.described(),
    {
        let mut out = String::new();
        print_block(&self.fix_version, &self.fix_message.elements, "", &self.header, &mut out);
        print_block(&self.fix_version, &self.fix_message.elements, "", &self.body, &mut out);
        assert(out@ =~= self@.described());
        out
    }
}

} // verus!
