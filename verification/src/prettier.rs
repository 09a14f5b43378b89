//! From a tree back to lines: one line per node, in pre-order, indented by
//! the depth of the node and decorated with the glyph of its status.

use vstd::prelude::*;

use crate::kernel::task::{
    flatten_forest, lemma_flatten_forest_push, views, Entry, NodeView, TaskTree, TreeNode,
};
use crate::parser::{leading_blanks, lemma_leading_blanks, spec_isolate_line};

verus! {

/// The indentation of a line at level `depth`: two spaces for each level.
pub open spec fn spec_indent(depth: nat) -> Seq<char> {
    Seq::new(2 * depth, |i: int| ' ')
}

/// The rendered line of an entry: its indentation, a dash, the glyph of its
/// status and its label, with single spaces between the last three.
pub open spec fn spec_line(entry: Entry) -> Seq<char> {
    spec_indent(entry.depth) + seq!['-', ' ', entry.task.status.spec_emoji(), ' ']
        + entry.task.content
}

/// The rendered lines of a sequence of entries, one line for each, in order.
pub open spec fn spec_lines(entries: Seq<Entry>) -> Seq<Seq<char>> {
    Seq::new(entries.len(), |i: int| spec_line(entries[i]))
}

/// Rendering distributes over joining two sequences of entries.
pub proof fn lemma_lines_concat(left: Seq<Entry>, right: Seq<Entry>)
    ensures
        spec_lines(left + right) == spec_lines(left) + spec_lines(right),
{
    assert(spec_lines(left + right) =~= spec_lines(left) + spec_lines(right));
}

/// A rendered line starts with exactly two blanks for each level of its
/// entry, and the dash comes right after them: split again, the line shows
/// the depth that it was rendered from.
pub proof fn lemma_line_indent(entry: Entry)
    ensures
        leading_blanks(spec_line(entry)) == 2 * entry.depth,
        spec_line(entry)[2 * entry.depth as int] == '-',
        spec_isolate_line(spec_line(entry)).depth() == entry.depth,
{
    lemma_leading_blanks(spec_line(entry), 2 * entry.depth);
}

/// The glyph of a rendered line is that of the status of its entry, whatever
/// the label: it stands two characters after the indentation.
pub proof fn lemma_line_glyph(entry: Entry)
    ensures
        spec_line(entry)[2 * entry.depth + 2 as int] == entry.task.status.spec_emoji(),
{
}

/// The indentation of a node at `depth`.
fn indent(depth: usize) -> (tab: String)
    ensures
        tab@ == spec_indent(depth as nat),
{
    let mut tab = String::new();
    let mut level: usize = 0;
    while level < depth
        invariant
            level <= depth,
            tab@ == spec_indent(level as nat),
        decreases depth - level,
    {
        proof {
            reveal_strlit("  ");
        }
        tab.append("  ");
        level += 1;
        assert(tab@ =~= spec_indent(level as nat));
    }
    tab
}

/// Renders the line of one node, without its descendants.
pub fn pretty_node_once(node: &TreeNode) -> (line: String)
    ensures
        line@ == spec_line(node@.entry()),
{
    let task = node.task();
    let mut line = indent(node.depth());
    proof {
        reveal_strlit("- ");
        reveal_strlit(" ");
    }
    line.append("- ");
    line.push(task.status.emoji());
    line.append(" ");
    line.append(task.content.as_str());
    assert(line@ =~= spec_line(node@.entry()));
    line
}

/// Renders a node and its descendants in pre-order.
pub fn pretty_node(node: &TreeNode) -> (lines: Vec<String>)
    ensures
        lines.deep_view() == spec_lines(node@.flatten()),
    decreases node,
{
    let mut root: Vec<String> = Vec::new();
    root.push(pretty_node_once(node));
    assert(root.deep_view() =~= spec_lines(seq![node@.entry()]));
    match node {
        TreeNode::Branch { children, .. } => {
            let ghost offspring = views(children@);
            let mut i: usize = 0;
            assert(offspring.take(0) =~= Seq::<NodeView>::empty());
            while i < children.len()
                invariant
                    i <= children.len(),
                    offspring == views(children@),
                    node is Branch,
                    node->Branch_children == *children,
                    root.deep_view() == spec_lines(
                        seq![node@.entry()] + flatten_forest(offspring.take(i as int)),
                    ),
                decreases children.len() - i,
            {
                let mut below = pretty_node(&children[i]);
                proof {
                    let done = flatten_forest(offspring.take(i as int));
                    let child = offspring[i as int];
                    assert(offspring.take(i + 1) =~= offspring.take(i as int).push(child));
                    lemma_flatten_forest_push(offspring.take(i as int), child);
                    lemma_lines_concat(seq![node@.entry()] + done, child.flatten());
                    assert(seq![node@.entry()] + (done + child.flatten()) =~= (seq![
                        node@.entry(),
                    ] + done) + child.flatten());
                }
                let ghost before = root.deep_view();
                let ghost added = below.deep_view();
                root.append(&mut below);
                assert(root.deep_view() =~= before + added);
                i += 1;
            }
            assert(offspring.take(children.len() as int) =~= offspring);
            root
        },
        TreeNode::Leaf { .. } => root,
    }
}

/// Renders a whole tree: the lines of its nodes in pre-order.
pub fn pretty_tree(tree: TaskTree) -> (lines: Vec<String>)
    ensures
        lines.deep_view() == spec_lines(flatten_forest(tree@)),
{
    let mut lines: Vec<String> = Vec::new();
    let mut i: usize = 0;
    assert(tree@.take(0) =~= Seq::<NodeView>::empty());
    assert(lines.deep_view() =~= spec_lines(Seq::<Entry>::empty()));
    while i < tree.nodes.len()
        invariant
            i <= tree.nodes.len(),
            lines.deep_view() == spec_lines(flatten_forest(tree@.take(i as int))),
        decreases tree.nodes.len() - i,
    {
        let mut below = pretty_node(&tree.nodes[i]);
        proof {
            let done = flatten_forest(tree@.take(i as int));
            let node = tree@[i as int];
            assert(tree@.take(i + 1) =~= tree@.take(i as int).push(node));
            lemma_flatten_forest_push(tree@.take(i as int), node);
            lemma_lines_concat(done, node.flatten());
        }
        let ghost before = lines.deep_view();
        let ghost added = below.deep_view();
        lines.append(&mut below);
        assert(lines.deep_view() =~= before + added);
        i += 1;
    }
    assert(tree@.take(tree.nodes.len() as int) =~= tree@);
    lines
}

} // verus!
