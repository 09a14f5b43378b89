use nested_tasks_prettier::kernel::task::{Status, Task, TaskTree, TreeNode};

fn task(status: Status, content: &str) -> Task {
    Task { content: content.to_owned(), status }
}

fn labels_of(nodes: &[TreeNode]) -> Vec<String> {
    nodes.iter().map(|node| node.task().content.clone()).collect()
}

#[test]
fn test_status_all_in_order() {
    let marks: Vec<char> = Status::all().iter().map(|status| status.ascii()).collect();

    assert_eq!(marks, ['x', '-', '>', ' ']);
}

#[test]
fn test_status_ascii() {
    assert_eq!(Status::Done.ascii(), 'x');
    assert_eq!(Status::Pending.ascii(), '-');
    assert_eq!(Status::Doing.ascii(), '>');
    assert_eq!(Status::New.ascii(), ' ');
}

#[test]
fn test_status_emoji() {
    assert_eq!(Status::Done.emoji(), '✅');
    assert_eq!(Status::Pending.emoji(), '🛑');
    assert_eq!(Status::Doing.emoji(), '🚧');
    assert_eq!(Status::New.emoji(), '📦');
}

#[test]
fn test_new_leaf() {
    let node = TreeNode::new_leaf(4, task(Status::Doing, "leaf"));

    assert!(matches!(node, TreeNode::Leaf { .. }));
    assert_eq!(node.depth(), 4);
    assert_eq!(node.task().content, "leaf");
    assert!(matches!(node.task().status, Status::Doing));
    assert!(node.children().is_none());
}

#[test]
fn test_new_branch() {
    let child = TreeNode::new_leaf(1, task(Status::New, "child"));
    let node = TreeNode::new_branch(0, task(Status::Done, "parent"), vec![child]);

    assert!(matches!(node, TreeNode::Branch { .. }));
    assert_eq!(node.depth(), 0);
    assert_eq!(node.task().content, "parent");
    assert_eq!(labels_of(node.children().unwrap()), ["child"]);
}

#[test]
fn test_add_children_turns_a_leaf_into_a_branch() {
    let leaf = TreeNode::new_leaf(2, task(Status::Done, "parent"));
    let children = vec![
        TreeNode::new_leaf(3, task(Status::New, "a")),
        TreeNode::new_leaf(3, task(Status::New, "b")),
    ];

    let node = leaf.add_children(children);

    assert!(matches!(node, TreeNode::Branch { .. }));
    assert_eq!(node.depth(), 2);
    assert_eq!(node.task().content, "parent");
    assert!(matches!(node.task().status, Status::Done));
    assert_eq!(labels_of(node.children().unwrap()), ["a", "b"]);
}

#[test]
fn test_add_children_appends_to_a_branch() {
    let branch = TreeNode::new_branch(
        0,
        task(Status::Pending, "parent"),
        vec![TreeNode::new_leaf(1, task(Status::New, "a"))],
    );
    let more = vec![
        TreeNode::new_leaf(1, task(Status::New, "b")),
        TreeNode::new_leaf(1, task(Status::New, "c")),
    ];

    let node = branch.add_children(more);

    assert_eq!(node.depth(), 0);
    assert_eq!(node.task().content, "parent");
    assert_eq!(labels_of(node.children().unwrap()), ["a", "b", "c"]);
}

#[test]
fn test_add_children_with_none_still_makes_a_branch() {
    let node = TreeNode::new_leaf(0, task(Status::Done, "parent")).add_children(vec![]);

    assert!(matches!(node.children(), Some(children) if children.is_empty()));
}

#[test]
fn test_clone_copies_the_whole_subtree() {
    let grandchild = TreeNode::new_leaf(2, task(Status::New, "c"));
    let child = TreeNode::new_branch(1, task(Status::Done, "b"), vec![grandchild]);
    let node = TreeNode::new_branch(0, task(Status::Doing, "a"), vec![child]);

    let copy = node.clone();

    assert_eq!(format!("{:?}", copy), format!("{:?}", node));
    let below = copy.children().unwrap();
    assert_eq!(labels_of(below), ["b"]);
    assert_eq!(labels_of(below[0].children().unwrap()), ["c"]);
    assert_eq!(below[0].children().unwrap()[0].depth(), 2);
}

#[test]
fn test_task_clone() {
    let first = task(Status::Pending, "ラベル");

    let copy = first.clone();

    assert_eq!(copy.content, "ラベル");
    assert!(matches!(copy.status, Status::Pending));
}

#[test]
fn test_task_tree_holds_its_roots() {
    let tree = TaskTree { nodes: vec![TreeNode::new_leaf(0, task(Status::Done, "a"))] };

    assert_eq!(labels_of(&tree.nodes), ["a"]);
}
