//! Statuses, tasks and tree nodes, each with the mathematical view that the
//! contracts of the crate speak of.

use vstd::prelude::*;

verus! {

/// The state of a task.
#[derive(Debug, Clone, Copy)]
pub enum Status {
    Done,
    Pending,
    Doing,
    New,
}

impl Status {
    /// Every status, in the order in which markers are tried.
    pub open spec fn spec_all() -> Seq<Status> {
        seq![Status::Done, Status::Pending, Status::Doing, Status::New]
    }

    /// The character that stands for the status inside an input marker.
    pub open spec fn spec_ascii(self) -> char {
        match self {
            Status::Done => 'x',
            Status::Pending => '-',
            Status::Doing => '>',
            Status::New => ' ',
        }
    }

    /// The glyph that stands for the status in rendered output.
    pub open spec fn spec_emoji(self) -> char {
        match self {
            Status::Done => '\u{2705}',
            Status::Pending => '\u{1F6D1}',
            Status::Doing => '\u{1F6A7}',
            Status::New => '\u{1F4E6}',
        }
    }

    /// Every status, in the order in which markers are tried.
    pub fn all() -> (statuses: Vec<Self>)
        ensures
            statuses@ == Self::spec_all(),
    {
        vec![Status::Done, Status::Pending, Status::Doing, Status::New]
    }

    /// The character that stands for the status inside an input marker.
    pub fn ascii(&self) -> (c: char)
        ensures
            c == self.spec_ascii(),
    {
        match self {
            Status::Done => 'x',
            Status::Pending => '-',
            Status::Doing => '>',
            Status::New => ' ',
        }
    }

    /// The glyph that stands for the status in rendered output.
    pub fn emoji(&self) -> (c: char)
        ensures
            c == self.spec_emoji(),
    {
        match self {
            Status::Done => '\u{2705}',
            Status::Pending => '\u{1F6D1}',
            Status::Doing => '\u{1F6A7}',
            Status::New => '\u{1F4E6}',
        }
    }

    /// Two statuses with the same marker character are the same status.
    pub proof fn lemma_ascii_injective(a: Status, b: Status)
        requires
            a.spec_ascii() == b.spec_ascii(),
        ensures
            a == b,
    {
    }

    /// Every status is listed by `all`.
    pub proof fn lemma_all_complete(s: Status)
        ensures
            Self::spec_all().contains(s),
    {
        let all = Self::spec_all();
        match s {
            Status::Done => assert(all[0] == s),
            Status::Pending => assert(all[1] == s),
            Status::Doing => assert(all[2] == s),
            Status::New => assert(all[3] == s),
        }
    }
}

/// A task: its label and its status.
#[derive(Debug)]
pub struct Task {
    pub content: String,
    pub status: Status,
}

/// What a task is to the contracts: the characters of its label and its status.
pub struct TaskView {
    pub content: Seq<char>,
    pub status: Status,
}

impl Clone for Task {
    fn clone(&self) -> (task: Self)
        ensures
            task == *self,
    {
        Task { content: self.content.clone(), status: self.status }
    }
}

impl View for Task {
    type V = TaskView;

    open spec fn view(&self) -> TaskView {
        TaskView { content: self.content@, status: self.status }
    }
}

/// A node of the task tree. A leaf has no children; a branch owns its
/// children in order.
#[derive(Debug)]
pub enum TreeNode {
    Branch { depth: usize, task: Task, children: Vec<TreeNode> },
    Leaf { depth: usize, task: Task },
}

/// What a node is to the contracts.
pub enum NodeView {
    Branch { depth: nat, task: TaskView, children: Seq<NodeView> },
    Leaf { depth: nat, task: TaskView },
}

/// One line of a flattened tree: the nesting level of a node and its task.
pub struct Entry {
    pub depth: nat,
    pub task: TaskView,
}

impl NodeView {
    pub open spec fn depth(self) -> nat {
        match self {
            NodeView::Branch { depth, .. } => depth,
            NodeView::Leaf { depth, .. } => depth,
        }
    }

    pub open spec fn task(self) -> TaskView {
        match self {
            NodeView::Branch { task, .. } => task,
            NodeView::Leaf { task, .. } => task,
        }
    }

    /// The children of a branch; a leaf has none.
    pub open spec fn children(self) -> Seq<NodeView> {
        match self {
            NodeView::Branch { children, .. } => children,
            NodeView::Leaf { .. } => Seq::empty(),
        }
    }

    /// The node on its own, without its descendants.
    pub open spec fn entry(self) -> Entry {
        Entry { depth: self.depth(), task: self.task() }
    }

    /// The branch that owns what the node owned before, followed by `nodes`.
    pub open spec fn add_children(self, nodes: Seq<NodeView>) -> NodeView {
        NodeView::Branch {
            depth: self.depth(),
            task: self.task(),
            children: self.children() + nodes,
        }
    }

    /// The node and its descendants in pre-order.
    pub open spec fn flatten(self) -> Seq<Entry>
        decreases self,
    {
        match self {
            NodeView::Branch { children, .. } => seq![self.entry()] + flatten_forest(children),
            NodeView::Leaf { .. } => seq![self.entry()],
        }
    }

    /// Every branch below and including this node has at least one child, and
    /// each child sits exactly one level deeper than its parent.
    pub open spec fn well_formed(self) -> bool
        decreases self,
    {
        match self {
            NodeView::Branch { depth, children, .. } => {
                &&& children.len() > 0
                &&& forall|i: int|
                    0 <= i < children.len() ==> {
                        &&& (#[trigger] children[i]).depth() == depth + 1
                        &&& children[i].well_formed()
                    }
            },
            NodeView::Leaf { .. } => true,
        }
    }
}

/// The pre-order flattening of a sequence of sibling nodes.
pub open spec fn flatten_forest(nodes: Seq<NodeView>) -> Seq<Entry>
    decreases nodes,
{
    if nodes.len() == 0 {
        Seq::empty()
    } else {
        flatten_forest(nodes.drop_last()) + nodes.last().flatten()
    }
}

/// Every node of `nodes` is well formed and sits at level `depth`.
pub open spec fn forest_at(nodes: Seq<NodeView>, depth: nat) -> bool {
    forall|i: int|
        0 <= i < nodes.len() ==> {
            &&& (#[trigger] nodes[i]).depth() == depth
            &&& nodes[i].well_formed()
        }
}

/// The siblings `nodes` after the last of them has been given `offspring`
/// as further children.
pub open spec fn attach_children(nodes: Seq<NodeView>, offspring: Seq<NodeView>) -> Seq<NodeView> {
    nodes.drop_last().push(nodes.last().add_children(offspring))
}

/// Where the subtree of the sibling at `index` starts in the flattening of
/// its run: after all that the siblings before it flatten to.
pub open spec fn position(nodes: Seq<NodeView>, index: int) -> int {
    flatten_forest(nodes.take(index)).len() as int
}

/// The views of a sequence of nodes, in order.
pub open spec fn views(nodes: Seq<TreeNode>) -> Seq<NodeView>
    decreases nodes,
{
    Seq::new(
        nodes.len(),
        |i: int|
            if 0 <= i < nodes.len() {
                nodes[i]@
            } else {
                arbitrary()
            },
    )
}

impl View for TreeNode {
    type V = NodeView;

    open spec fn view(&self) -> NodeView
        decreases self,
    {
        match self {
            TreeNode::Branch { depth, task, children } => NodeView::Branch {
                depth: *depth as nat,
                task: task@,
                children: views(children@),
            },
            TreeNode::Leaf { depth, task } => NodeView::Leaf { depth: *depth as nat, task: task@ },
        }
    }
}

impl Clone for TreeNode {
    /// A copy of the node and of all that it owns.
    fn clone(&self) -> (node: Self)
        ensures
            node@ == self@,
        decreases self,
    {
        match self {
            TreeNode::Branch { children, .. } => {
                let mut copies: Vec<TreeNode> = Vec::new();
                let mut i: usize = 0;
                assert(views(copies@) =~= views(children@).take(0));
                while i < children.len()
                    invariant
                        i <= children.len(),
                        self is Branch,
                        self->Branch_children == *children,
                        views(copies@) == views(children@).take(i as int),
                    decreases children.len() - i,
                {
                    let copy = children[i].clone();
                    let ghost before = views(copies@);
                    copies.push(copy);
                    assert(views(copies@) =~= before.push(copy@));
                    assert(before.push(copy@) =~= views(children@).take(i + 1));
                    i += 1;
                }
                assert(views(copies@) =~= views(children@));
                TreeNode::Branch {
                    depth: self.depth(),
                    task: self.task().clone(),
                    children: copies,
                }
            },
            TreeNode::Leaf { depth, task } => TreeNode::Leaf { depth: *depth, task: task.clone() },
        }
    }
}

impl TreeNode {
    /// A branch at `depth` that owns `children`.
    pub fn new_branch(depth: usize, task: Task, children: Vec<TreeNode>) -> (node: Self)
        ensures
            node == (TreeNode::Branch { depth, task, children }),
    {
        TreeNode::Branch { depth, task, children }
    }

    /// A leaf at `depth`.
    pub fn new_leaf(depth: usize, task: Task) -> (node: Self)
        ensures
            node == (TreeNode::Leaf { depth, task }),
    {
        TreeNode::Leaf { depth, task }
    }

    /// The task of the node.
    pub fn task(&self) -> (task: &Task)
        ensures
            task@ == self@.task(),
    {
        match self {
            TreeNode::Branch { depth: _, task, children: _ } => task,
            TreeNode::Leaf { depth: _, task } => task,
        }
    }

    /// Turns a leaf into a branch that owns `nodes`; appends `nodes` to the
    /// children of a branch.
    pub fn add_children(self, nodes: Vec<TreeNode>) -> (node: Self)
        ensures
            node@ == self@.add_children(views(nodes@)),
    {
        match self {
            TreeNode::Branch { depth, task, children } => {
                let mut all = children;
                let mut nodes = nodes;
                let ghost before = all@;
                let ghost added = nodes@;
                all.append(&mut nodes);
                assert(views(all@) =~= views(before) + views(added));
                TreeNode::Branch { depth, task, children: all }
            },
            TreeNode::Leaf { depth, task } => {
                assert(Seq::<NodeView>::empty() + views(nodes@) =~= views(nodes@));
                TreeNode::Branch { depth, task, children: nodes }
            },
        }
    }

    /// The children of a branch; nothing for a leaf.
    pub fn children(&self) -> (children: Option<&Vec<TreeNode>>)
        ensures
            match children {
                Some(nodes) => self@ is Branch && views(nodes@) == self@.children(),
                None => self@ is Leaf,
            },
    {
        match self {
            TreeNode::Branch { depth: _, task: _, children } => Some(children),
            _ => None,
        }
    }

    /// The nesting level of the node.
    pub fn depth(&self) -> (depth: usize)
        ensures
            depth == self@.depth(),
    {
        match self {
            TreeNode::Branch { depth, task: _, children: _ } => *depth,
            TreeNode::Leaf { depth, task: _ } => *depth,
        }
    }
}

/// The roots of a task tree, in order.
pub struct TaskTree {
    pub nodes: Vec<TreeNode>,
}

impl View for TaskTree {
    type V = Seq<NodeView>;

    open spec fn view(&self) -> Seq<NodeView> {
        views(self.nodes@)
    }
}

/// Flattening one run of siblings after another flattens the two runs joined.
pub proof fn lemma_flatten_forest_concat(left: Seq<NodeView>, right: Seq<NodeView>)
    ensures
        flatten_forest(left + right) == flatten_forest(left) + flatten_forest(right),
    decreases right.len(),
{
    if right.len() == 0 {
        assert(left + right =~= left);
        assert(flatten_forest(left) + flatten_forest(right) =~= flatten_forest(left));
    } else {
        let both = left + right;
        assert(both.drop_last() =~= left + right.drop_last());
        assert(both.last() == right.last());
        lemma_flatten_forest_concat(left, right.drop_last());
        assert(flatten_forest(both) =~= flatten_forest(left) + flatten_forest(right));
    }
}

/// A node that is given more children flattens to what it flattened to
/// before, followed by the flattening of the new children.
pub proof fn lemma_flatten_add_children(node: NodeView, nodes: Seq<NodeView>)
    ensures
        node.add_children(nodes).flatten() == node.flatten() + flatten_forest(nodes),
{
    lemma_flatten_forest_concat(node.children(), nodes);
    assert(flatten_forest(Seq::<NodeView>::empty()) =~= Seq::<Entry>::empty());
    assert(node.add_children(nodes).flatten() =~= node.flatten() + flatten_forest(nodes));
}

/// Appending a node to a run of siblings appends its flattening.
pub proof fn lemma_flatten_forest_push(nodes: Seq<NodeView>, node: NodeView)
    ensures
        flatten_forest(nodes.push(node)) == flatten_forest(nodes) + node.flatten(),
{
    assert(nodes.push(node).drop_last() =~= nodes);
}

/// Giving the last of some siblings more children keeps the siblings well
/// formed, provided the children are well formed and sit one level below,
/// and appends the flattening of the children to that of the siblings.
pub proof fn lemma_attach_children(siblings: Seq<NodeView>, depth: nat, offspring: Seq<NodeView>)
    requires
        siblings.len() > 0,
        forest_at(siblings, depth),
        offspring.len() > 0,
        forest_at(offspring, depth + 1),
    ensures
        forest_at(attach_children(siblings, offspring), depth),
        flatten_forest(attach_children(siblings, offspring)) == flatten_forest(siblings)
            + flatten_forest(offspring),
{
    let parent = siblings.last();
    let grown = parent.add_children(offspring);
    let all = attach_children(siblings, offspring);
    lemma_flatten_add_children(parent, offspring);
    lemma_flatten_forest_push(siblings.drop_last(), grown);
    assert forall|i: int| 0 <= i < grown.children().len() implies {
        &&& (#[trigger] grown.children()[i]).depth() == grown.depth() + 1
        &&& grown.children()[i].well_formed()
    } by {
        if i < parent.children().len() {
            assert(grown.children()[i] == parent.children()[i]);
        } else {
            assert(grown.children()[i] == offspring[i - parent.children().len()]);
        }
    }
    assert forall|i: int| 0 <= i < all.len() implies {
        &&& (#[trigger] all[i]).depth() == depth
        &&& all[i].well_formed()
    } by {
        if i < siblings.len() - 1 {
            assert(all[i] == siblings[i]);
        }
    }
}

/// In the flattening of a well-formed node the node itself comes first, and
/// all that follows it lies deeper than the node.
pub proof fn lemma_flatten_depths(node: NodeView)
    requires
        node.well_formed(),
    ensures
        node.flatten().len() >= 1,
        node.flatten()[0] == node.entry(),
        forall|k: int| 1 <= k < node.flatten().len() ==> node.flatten()[k].depth > node.depth(),
    decreases node,
{
    match node {
        NodeView::Branch { children, .. } => {
            lemma_flatten_forest_depths(children, node.depth() + 1);
        },
        NodeView::Leaf { .. } => {},
    }
}

/// The flattening of well-formed siblings at level `depth` holds no entry
/// above that level, and at least one entry for each sibling.
pub proof fn lemma_flatten_forest_depths(nodes: Seq<NodeView>, depth: nat)
    requires
        forest_at(nodes, depth),
    ensures
        flatten_forest(nodes).len() >= nodes.len(),
        forall|k: int|
            0 <= k < flatten_forest(nodes).len() ==> flatten_forest(nodes)[k].depth >= depth,
    decreases nodes,
{
    if nodes.len() > 0 {
        assert(forest_at(nodes.drop_last(), depth)) by {
            assert forall|i: int| 0 <= i < nodes.drop_last().len() implies {
                &&& (#[trigger] nodes.drop_last()[i]).depth() == depth
                &&& nodes.drop_last()[i].well_formed()
            } by {
                assert(nodes.drop_last()[i] == nodes[i]);
            }
        }
        lemma_flatten_forest_depths(nodes.drop_last(), depth);
        lemma_flatten_depths(nodes.last());
    }
}

/// A well-formed node is known from its flattening.
pub proof fn lemma_node_determined(a: NodeView, b: NodeView)
    requires
        a.well_formed(),
        b.well_formed(),
        a.flatten() == b.flatten(),
    ensures
        a == b,
    decreases a.flatten().len(), 0int,
{
    lemma_flatten_depths(a);
    lemma_flatten_depths(b);
    let below_a = flatten_forest(a.children());
    let below_b = flatten_forest(b.children());
    assert(flatten_forest(Seq::<NodeView>::empty()) =~= Seq::<Entry>::empty());
    assert(a.flatten() =~= seq![a.entry()] + below_a);
    assert(b.flatten() =~= seq![b.entry()] + below_b);
    assert(below_a =~= a.flatten().skip(1));
    assert(below_b =~= b.flatten().skip(1));
    if a is Branch {
        lemma_flatten_forest_depths(a.children(), a.depth() + 1);
    }
    if b is Branch {
        lemma_flatten_forest_depths(b.children(), b.depth() + 1);
    }
    if a is Branch {
        lemma_forest_determined(a.children(), b.children(), a.depth() + 1);
    }
}

/// Well-formed siblings at one level are known from their flattening: two
/// such runs that flatten to the same entries are the same run.
pub proof fn lemma_forest_determined(a: Seq<NodeView>, b: Seq<NodeView>, depth: nat)
    requires
        forest_at(a, depth),
        forest_at(b, depth),
        flatten_forest(a) == flatten_forest(b),
    ensures
        a == b,
    decreases flatten_forest(a).len(), 1int,
{
    lemma_flatten_forest_depths(a, depth);
    lemma_flatten_forest_depths(b, depth);
    if a.len() == 0 || b.len() == 0 {
        assert(a =~= b);
    } else {
        let all = flatten_forest(a);
        let head_a = flatten_forest(a.drop_last());
        let head_b = flatten_forest(b.drop_last());
        let tail_a = a.last().flatten();
        let tail_b = b.last().flatten();
        lemma_flatten_depths(a.last());
        lemma_flatten_depths(b.last());
        assert(all == head_a + tail_a);
        assert(all == head_b + tail_b);
        // The last sibling starts at the last entry that sits at `depth`.
        if head_a.len() < head_b.len() {
            assert(all[head_b.len() as int] == tail_b[0]);
            assert(all[head_b.len() as int] == tail_a[head_b.len() - head_a.len()]);
        }
        if head_b.len() < head_a.len() {
            assert(all[head_a.len() as int] == tail_a[0]);
            assert(all[head_a.len() as int] == tail_b[head_a.len() - head_b.len()]);
        }
        assert(head_a =~= all.take(head_a.len() as int));
        assert(head_b =~= all.take(head_b.len() as int));
        assert(tail_a =~= all.skip(head_a.len() as int));
        assert(tail_b =~= all.skip(head_b.len() as int));
        assert forall|i: int| 0 <= i < a.drop_last().len() implies {
            &&& (#[trigger] a.drop_last()[i]).depth() == depth
            &&& a.drop_last()[i].well_formed()
        } by {
            assert(a.drop_last()[i] == a[i]);
        }
        assert forall|i: int| 0 <= i < b.drop_last().len() implies {
            &&& (#[trigger] b.drop_last()[i]).depth() == depth
            &&& b.drop_last()[i].well_formed()
        } by {
            assert(b.drop_last()[i] == b[i]);
        }
        lemma_forest_determined(a.drop_last(), b.drop_last(), depth);
        lemma_node_determined(a.last(), b.last());
        assert(a =~= a.drop_last().push(a.last()));
        assert(b =~= b.drop_last().push(b.last()));
    }
}

/// Siblings keep their order: in the flattening of a run, the subtree of
/// each sibling is one block that starts with the sibling itself, and the
/// block of an earlier sibling ends before that of a later one begins. This
/// holds of the roots of a tree and of the children of any branch alike.
pub proof fn lemma_siblings_in_order(nodes: Seq<NodeView>, i: int, j: int)
    requires
        0 <= i < j < nodes.len(),
    ensures
        position(nodes, i) + nodes[i].flatten().len() <= position(nodes, j),
        position(nodes, j) + nodes[j].flatten().len() <= flatten_forest(nodes).len(),
        flatten_forest(nodes).subrange(
            position(nodes, i),
            position(nodes, i) + nodes[i].flatten().len(),
        ) == nodes[i].flatten(),
        flatten_forest(nodes).subrange(
            position(nodes, j),
            position(nodes, j) + nodes[j].flatten().len(),
        ) == nodes[j].flatten(),
        flatten_forest(nodes)[position(nodes, i)] == nodes[i].entry(),
        flatten_forest(nodes)[position(nodes, j)] == nodes[j].entry(),
{
    lemma_block(nodes, i);
    lemma_block(nodes, j);
    // Up to the later sibling lies all of the earlier one.
    let upto = nodes.take(j);
    assert(upto =~= upto.take(i + 1) + upto.skip(i + 1));
    assert(upto.take(i + 1) =~= nodes.take(i).push(nodes[i]));
    lemma_flatten_forest_concat(upto.take(i + 1), upto.skip(i + 1));
    lemma_flatten_forest_push(nodes.take(i), nodes[i]);
}

/// The subtree of the sibling at `index` is the block of the flattening
/// that starts at its position.
proof fn lemma_block(nodes: Seq<NodeView>, index: int)
    requires
        0 <= index < nodes.len(),
    ensures
        position(nodes, index) + nodes[index].flatten().len() <= flatten_forest(nodes).len(),
        flatten_forest(nodes).subrange(
            position(nodes, index),
            position(nodes, index) + nodes[index].flatten().len(),
        ) == nodes[index].flatten(),
        nodes[index].flatten().len() >= 1,
        flatten_forest(nodes)[position(nodes, index)] == nodes[index].entry(),
{
    let before = nodes.take(index);
    let after = nodes.skip(index + 1);
    let node = nodes[index];
    assert(nodes =~= before.push(node) + after);
    lemma_flatten_forest_concat(before.push(node), after);
    lemma_flatten_forest_push(before, node);
    let block = node.flatten();
    assert(flatten_forest(nodes) =~= flatten_forest(before) + block + flatten_forest(after));
    assert(flatten_forest(nodes).subrange(
        position(nodes, index),
        position(nodes, index) + block.len(),
    ) =~= block);
    assert(block[0] == node.entry()) by {
        assert(flatten_forest(Seq::<NodeView>::empty()) =~= Seq::<Entry>::empty());
    }
}

} // verus!
