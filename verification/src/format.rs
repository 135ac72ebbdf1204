//! The indented listing of a menu tree.

use crate::tree::{LeafData, LeafDataView, Tree, TreeView};
use vstd::prelude::*;

verus! {

/// `n` spaces.
pub open spec fn spaces(n: nat) -> Seq<char> {
    Seq::new(n, |i: int| ' ')
}

/// The four lines that list the attributes `data`, indented by `n` spaces.
pub open spec fn indented(data: LeafDataView, n: nat) -> Seq<char> {
    spaces(n) + data.name + ":"@ + "\n  "@ + spaces(n) + ".chord: "@ + data.chord + "\n  "@
        + spaces(n) + ".desc: "@ + data.desc + "\n  "@ + spaces(n) + ".value: "@ + data.value
        + "\n"@
}

/// The listing of `tree`, its own lines indented by `offset` spaces and
/// each level below by two more.
pub open spec fn formatted(tree: TreeView, offset: nat) -> Seq<char>
    decreases tree, 0int,
{
    match tree {
        TreeView::Leaf(data) => indented(data, offset),
        TreeView::Node(data, kids) => indented(data, offset) + formatted_upto(
            kids,
            offset + 2,
            kids.len() as int,
        ),
    }
}

/// The listings of the first `n` of `kids`, with a line break between one
/// and the next.
pub open spec fn formatted_upto(kids: Seq<TreeView>, offset: nat, n: int) -> Seq<char>
    decreases kids, n,
{
    if n <= 0 || n > kids.len() {
        Seq::empty()
    } else if n == 1 {
        formatted(kids[0], offset)
    } else {
        formatted_upto(kids, offset, n - 1) + "\n"@ + formatted(kids[n - 1], offset)
    }
}

/// A string of `n` spaces.
fn indent(n: usize) -> (text: String)
    ensures
        text@ == spaces(n as nat),
{
    let mut text = String::new();
    let mut i: usize = 0;
    assert(text@ =~= spaces(0));
    while i < n
        invariant
            i <= n,
            text@ == spaces(i as nat),
        decreases n - i,
    {
        text.append(" ");
        proof {
            reveal_strlit(" ");
            assert(text@ =~= spaces((i + 1) as nat));
        }
        i += 1;
    }
    text
}

/// The lines that list the attributes `data` behind the indentation
/// `indent`.
fn indented_data(data: &LeafData, indent: &str) -> (text: String)
    requires
        indent@ == spaces(indent@.len()),
    ensures
        text@ == indented(data@, indent@.len()),
{
    let mut text = String::new();
    assert(text@ + indent@ =~= indent@);
    text.append(indent);
    text.append(data.name.as_str());
    text.append(":");
    text.append("\n  ");
    text.append(indent);
    text.append(".chord: ");
    text.append(data.chord.as_str());
    text.append("\n  ");
    text.append(indent);
    text.append(".desc: ");
    text.append(data.desc.as_str());
    text.append("\n  ");
    text.append(indent);
    text.append(".value: ");
    text.append(data.value.as_str());
    text.append("\n");
    text
}

/// The listing of `tree` behind the indentation `indent`.
fn format_indented(tree: &Tree, indent: &str) -> (text: String)
    requires
        indent@ == spaces(indent@.len()),
    ensures
        text@ == formatted(tree@, indent@.len()),
    decreases tree,
{
    match tree {
        Tree::Leaf(data) => indented_data(data, indent),
        Tree::Node(data, children) => {
            let mut text = indented_data(data, indent);
            let mut deeper = String::from_str(indent);
            deeper.append("  ");
            proof {
                reveal_strlit("  ");
                assert(deeper@ =~= spaces(indent@.len() + 2));
            }
            let ghost kids = tree@->Node_1;
            let ghost head = text@;
            let ghost offset = indent@.len() + 2;
            let mut i: usize = 0;
            assert(text@ =~= head + formatted_upto(kids, offset, 0));
            while i < children.len()
                invariant
                    i <= children.len(),
                    tree == Tree::Node(*data, *children),
                    kids == tree@->Node_1,
                    kids.len() == children.len(),
                    deeper@ == spaces(offset),
                    deeper@.len() == offset,
                    text@ == head + formatted_upto(kids, offset, i as int),
                decreases children.len() - i,
            {
                if i > 0 {
                    text.append("\n");
                }
                assert(kids[i as int] == children@[i as int]@);
                let child = format_indented(&children[i], deeper.as_str());
                text.append(child.as_str());
                assert(text@ =~= head + formatted_upto(kids, offset, (i + 1) as int));
                i += 1;
            }
            text
        },
    }
}

impl Tree {
    /// The lines that list the attributes `data`, indented by
    /// `leading_spaces` spaces.
    pub fn indentable_data(data: &LeafData, leading_spaces: usize) -> (text: String)
        ensures
            text@ == indented(data@, leading_spaces as nat),
    {
        let indent = indent(leading_spaces);
        indented_data(data, indent.as_str())
    }

    /// The listing of `tree`: the attributes of each node, a node's children
    /// below it and indented by two spaces more than the node.
    pub fn format_tree(tree: &Tree, offset: usize) -> (text: String)
        ensures
            text@ == formatted(tree@, offset as nat),
    {
        let indent = indent(offset);
        format_indented(tree, indent.as_str())
    }

    /// The listing of this tree from the left margin.
    pub fn to_string(&self) -> (text: String)
        ensures
            text@ == formatted(self@, 0),
    {
        Tree::format_tree(self, 0)
    }
}

} // verus!
